use vstd::prelude::*;

use crate::desktop::Desktop;
use crate::desktop::distinct_handles;
use crate::desktop::lemma_lookup_update_other;
use crate::desktop::lemma_lookup_update_same;
use crate::desktop::lemma_update_preserves_domain;
use crate::desktop::lookup;
use crate::geom::MonitorInfo;
use crate::geom::Rect;
use crate::geom::WindowHandle;
use crate::grid::GridParams;
use crate::grid::GridPass;
use crate::grid::cell_rect;
use crate::grid::grid_params;
use crate::swap::swap_outcome;
use crate::swap::swap_window_rect;

verus! {

/// The snapshot a mutating pass gathers: for every window of the list, in
/// order, its rectangle from before the pass — provided every call on the
/// window succeeds. A window whose calls fail contributes nothing.
pub open spec fn pass_snapshot(d0: Desktop, ws: Seq<WindowHandle>) -> Seq<(WindowHandle, Rect)>
    decreases ws.len(),
{
    if ws.len() == 0 {
        Seq::empty()
    } else {
        let rest = pass_snapshot(d0, ws.drop_last());
        if d0.callable(ws.last()) {
            rest.push((ws.last(), d0.rect_of(ws.last()).unwrap()))
        } else {
            rest
        }
    }
}

/// No two snapshot entries name the same handle.
pub open spec fn distinct_snap(s: Seq<(WindowHandle, Rect)>) -> bool {
    forall|k1: int, k2: int| 0 <= k1 < k2 < s.len() ==> s[k1].0 != s[k2].0
}

pub proof fn lemma_pass_snapshot_len(d0: Desktop, ws: Seq<WindowHandle>)
    ensures
        pass_snapshot(d0, ws).len() <= ws.len(),
    decreases ws.len(),
{
    if ws.len() == 0 {
    } else {
        lemma_pass_snapshot_len(d0, ws.drop_last());
    }
}

/// What a pass's snapshot holds: only windows on which every call succeeds,
/// each with its prior rectangle, each handle at most once, and every such
/// window of the list does appear.
pub proof fn lemma_pass_snapshot_props(d0: Desktop, ws: Seq<WindowHandle>)
    requires
        distinct_handles(ws),
    ensures
        distinct_snap(pass_snapshot(d0, ws)),
        forall|k: int|
            0 <= k < pass_snapshot(d0, ws).len() ==> {
                let e = #[trigger] pass_snapshot(d0, ws)[k];
                &&& d0.callable(e.0)
                &&& d0.rect_of(e.0) == Some(e.1)
                &&& ws.contains(e.0)
            },
        forall|i: int|
            0 <= i < ws.len() && d0.callable(#[trigger] ws[i]) ==> pass_snapshot(
                d0,
                ws,
            ).contains((ws[i], d0.rect_of(ws[i]).unwrap())),
    decreases ws.len(),
{
    if ws.len() == 0 {
    } else {
        let prefix = ws.drop_last();
        assert(distinct_handles(prefix)) by {
            assert(forall|i: int| 0 <= i < prefix.len() ==> prefix[i] == ws[i]);
        }
        lemma_pass_snapshot_props(d0, prefix);
        let s = pass_snapshot(d0, ws);
        let rest = pass_snapshot(d0, prefix);
        let last = ws.last();
        if d0.callable(last) {
            let e = (last, d0.rect_of(last).unwrap());
            assert(s == rest.push(e));
            assert(forall|k: int| 0 <= k < rest.len() ==> s[k] == rest[k]);
            assert(s[rest.len() as int] == e);
            // the new handle is fresh: it is the last element of a distinct list
            assert forall|k: int| 0 <= k < rest.len() implies rest[k].0 != last by {
                assert(prefix.contains(rest[k].0));
                let i = choose|i: int| 0 <= i < prefix.len() && prefix[i] == rest[k].0;
                assert(ws[i] == prefix[i]);
                assert(ws[ws.len() - 1] == last);
            }
            assert(distinct_snap(s));
            assert forall|k: int|
                0 <= k < s.len() implies {
                let e2 = #[trigger] s[k];
                &&& d0.callable(e2.0)
                &&& d0.rect_of(e2.0) == Some(e2.1)
                &&& ws.contains(e2.0)
            } by {
                if k < rest.len() {
                    assert(s[k] == rest[k]);
                    assert(prefix.contains(rest[k].0));
                    let i = choose|i: int| 0 <= i < prefix.len() && prefix[i] == rest[k].0;
                    assert(ws[i] == rest[k].0);
                } else {
                    assert(s[k] == e);
                    assert(ws[ws.len() - 1] == last);
                }
            }
            assert forall|i: int|
                0 <= i < ws.len() && d0.callable(#[trigger] ws[i]) implies s.contains(
                (ws[i], d0.rect_of(ws[i]).unwrap())) by {
                if i < ws.len() - 1 {
                    assert(prefix[i] == ws[i]);
                    assert(rest.contains((ws[i], d0.rect_of(ws[i]).unwrap())));
                    let k = choose|k: int|
                        0 <= k < rest.len() && rest[k] == (ws[i], d0.rect_of(ws[i]).unwrap());
                    assert(s[k] == (ws[i], d0.rect_of(ws[i]).unwrap()));
                } else {
                    assert(s[rest.len() as int] == (ws[i], d0.rect_of(ws[i]).unwrap()));
                }
            }
        } else {
            assert(s == rest);
            assert forall|i: int|
                0 <= i < ws.len() && d0.callable(#[trigger] ws[i]) implies s.contains(
                (ws[i], d0.rect_of(ws[i]).unwrap())) by {
                assert(i < ws.len() - 1);
                assert(prefix[i] == ws[i]);
            }
            assert forall|k: int|
                0 <= k < s.len() implies {
                let e2 = #[trigger] s[k];
                &&& d0.callable(e2.0)
                &&& d0.rect_of(e2.0) == Some(e2.1)
                &&& ws.contains(e2.0)
            } by {
                assert(prefix.contains(s[k].0));
                let i = choose|i: int| 0 <= i < prefix.len() && prefix[i] == s[k].0;
                assert(ws[i] == s[k].0);
            }
        }
    }
}

/// Partial-failure containment: a window whose calls fail mid-pass is absent
/// from the resulting snapshot, while every other processable window of the
/// same pass still appears in it with its prior rectangle.
pub proof fn lemma_partial_failure_containment(d0: Desktop, ws: Seq<WindowHandle>, i: int)
    requires
        distinct_handles(ws),
        0 <= i < ws.len(),
        !d0.callable(ws[i]),
    ensures
        forall|k: int|
            0 <= k < pass_snapshot(d0, ws).len() ==> #[trigger] pass_snapshot(d0, ws)[k].0
                != ws[i],
        forall|j: int|
            0 <= j < ws.len() && d0.callable(#[trigger] ws[j]) ==> pass_snapshot(
                d0,
                ws,
            ).contains((ws[j], d0.rect_of(ws[j]).unwrap())),
{
    lemma_pass_snapshot_props(d0, ws);
}

/// What the grid arrangement pass leaves behind: staleness untouched, the
/// same handles present, every processable window moved to the cell of its
/// success rank, and every other window's rectangle untouched.
pub open spec fn arrange_post(
    d0: Desktop,
    d1: Desktop,
    ws: Seq<WindowHandle>,
    p: GridParams,
) -> bool {
    &&& d1.stale@ == d0.stale@
    &&& forall|h: WindowHandle|
        lookup(d1.table@, h).is_some() == lookup(d0.table@, h).is_some()
    &&& forall|i: int|
        0 <= i < ws.len() && d0.callable(#[trigger] ws[i]) ==> lookup(d1.table@, ws[i])
            == Some(cell_rect(p, pass_snapshot(d0, ws.take(i)).len() as nat))
    &&& forall|h: WindowHandle|
        !(exists|i: int| 0 <= i < ws.len() && ws[i] == h && d0.callable(h)) ==> lookup(
            d1.table@,
            h,
        ) == lookup(d0.table@, h)
}

/// Runs the grid arrangement pass: each window is shown, its current
/// rectangle is read into the snapshot, and it is moved to the next free
/// grid cell; a window on which any call fails is skipped whole and the
/// cursor does not advance. With fewer than two windows nothing is touched
/// and no snapshot is produced.
pub fn arrange_on(d: &mut Desktop, windows: &Vec<WindowHandle>, dw: u32, dh: u32) -> (snap:
    Option<Vec<(WindowHandle, Rect)>>)
    requires
        old(d).wf(),
        distinct_handles(windows@),
        1 <= dw <= i32::MAX,
        1 <= dh <= i32::MAX,
        (windows@.len() + 1) * ((dh as int) / 2) <= i32::MAX,
    ensures
        final(d).wf(),
        snap.is_none() <==> windows@.len() < 2,
        snap.is_none() ==> final(d).table@ == old(d).table@ && final(d).stale@ == old(
            d,
        ).stale@,
        snap.is_some() ==> snap.unwrap()@ == pass_snapshot(*old(d), windows@),
        snap.is_some() ==> arrange_post(
            *old(d),
            *final(d),
            windows@,
            grid_params(windows@.len() as int, dw as int, dh as int),
        ),
{
    let ghost p = grid_params(windows@.len() as int, dw as int, dh as int);
    let pass_opt = GridPass::begin(windows.len(), dw, dh);
    let mut pass = match pass_opt {
        Some(g) => g,
        None => {
            return None;
        },
    };
    let mut i: usize = 0;
    while i < windows.len()
        invariant
            i <= windows@.len(),
            pass.wf(),
            pass.total == windows@.len(),
            pass.params() == p,
            pass.placed == pass_snapshot(*old(d), windows@.take(i as int)).len(),
            pass.snapshot@ == pass_snapshot(*old(d), windows@.take(i as int)),
            d.wf(),
            old(d).wf(),
            d.stale@ == old(d).stale@,
            distinct_handles(windows@),
            forall|h: WindowHandle|
                lookup(d.table@, h).is_some() == lookup(old(d).table@, h).is_some(),
            forall|j: int|
                0 <= j < i && old(d).callable(#[trigger] windows@[j]) ==> lookup(
                    d.table@,
                    windows@[j],
                ) == Some(cell_rect(p, pass_snapshot(*old(d), windows@.take(j)).len() as nat)),
            forall|h: WindowHandle|
                !(exists|j: int| 0 <= j < i && windows@[j] == h && old(d).callable(h))
                    ==> lookup(d.table@, h) == lookup(old(d).table@, h),
        decreases windows@.len() - i,
    {
        let h = windows[i];
        proof {
            assert(windows@.take(i as int + 1).drop_last() =~= windows@.take(i as int));
            assert(windows@.take(i as int + 1).last() == windows@[i as int]);
            lemma_pass_snapshot_len(*old(d), windows@.take(i as int));
            assert(forall|j: int| 0 <= j < i ==> windows@[j] != windows@[i as int]);
            assert(!(exists|j: int|
                0 <= j < i && windows@[j] == windows@[i as int] && old(d).callable(
                    windows@[i as int],
                )));
            assert(lookup(d.table@, windows@[i as int]) == lookup(
                old(d).table@,
                windows@[i as int],
            ));
        }
        let shown = d.show(h);
        if shown {
            let got = d.get_rect(h);
            match got {
                Some(prior) => {
                    proof {
                        assert(old(d).callable(h));
                        assert(old(d).rect_of(h) == Some(prior));
                    }
                    let target = pass.target();
                    let ghost pre = d.table@;
                    let ok = d.set_rect(h, target);
                    proof {
                        assert(ok);
                        lemma_lookup_update_same(pre, h, target);
                        assert forall|h2: WindowHandle| h2 != h implies lookup(d.table@, h2)
                            == lookup(pre, h2) by {
                            lemma_lookup_update_other(pre, h, target, h2);
                        }
                        assert forall|h2: WindowHandle|
                            lookup(d.table@, h2).is_some() == lookup(
                                old(d).table@,
                                h2,
                            ).is_some() by {
                            lemma_update_preserves_domain(pre, h, target, h2);
                        }
                    }
                    pass.commit(h, prior);
                },
                None => {
                    proof {
                        assert(!old(d).callable(h));
                    }
                },
            }
        } else {
            proof {
                assert(d.is_stale(h));
                assert(!old(d).callable(h));
            }
        }
        i += 1;
    }
    proof {
        assert(windows@.take(windows@.len() as int) =~= windows@);
    }
    Some(pass.snapshot)
}

/// What the monitor swap pass leaves behind: staleness untouched, the same
/// handles present, every processable window's rectangle replaced by its
/// swap outcome, every other window untouched.
pub open spec fn swap_post(
    d0: Desktop,
    d1: Desktop,
    ws: Seq<WindowHandle>,
    ms: Seq<MonitorInfo>,
    boundary: int,
) -> bool {
    &&& d1.stale@ == d0.stale@
    &&& forall|h: WindowHandle|
        lookup(d1.table@, h).is_some() == lookup(d0.table@, h).is_some()
    &&& forall|i: int|
        0 <= i < ws.len() && d0.callable(#[trigger] ws[i]) ==> lookup(d1.table@, ws[i])
            == swap_outcome(d0.rect_of(ws[i]).unwrap(), ms, boundary)
    &&& forall|h: WindowHandle|
        !(exists|i: int| 0 <= i < ws.len() && ws[i] == h && d0.callable(h)) ==> lookup(
            d1.table@,
            h,
        ) == lookup(d0.table@, h)
}

/// Runs the monitor swap pass: each window's rectangle is read into the
/// snapshot and replaced by its proportional placement on the opposite
/// monitor; a window on which any call fails is skipped whole.
pub fn swap_on(
    d: &mut Desktop,
    windows: &Vec<WindowHandle>,
    monitors: &Vec<MonitorInfo>,
    boundary: i32,
) -> (snap: Vec<(WindowHandle, Rect)>)
    requires
        old(d).wf(),
        distinct_handles(windows@),
        forall|m: int| 0 <= m < monitors@.len() ==> #[trigger] monitors@[m].well_formed(),
        forall|i: int|
            0 <= i < windows@.len() && old(d).callable(#[trigger] windows@[i])
                ==> swap_outcome(
                old(d).rect_of(windows@[i]).unwrap(),
                monitors@,
                boundary as int,
            ).is_some(),
    ensures
        final(d).wf(),
        snap@ == pass_snapshot(*old(d), windows@),
        swap_post(*old(d), *final(d), windows@, monitors@, boundary as int),
{
    let mut snap: Vec<(WindowHandle, Rect)> = Vec::new();
    let mut i: usize = 0;
    while i < windows.len()
        invariant
            i <= windows@.len(),
            d.wf(),
            old(d).wf(),
            d.stale@ == old(d).stale@,
            distinct_handles(windows@),
            snap@ == pass_snapshot(*old(d), windows@.take(i as int)),
            forall|m: int| 0 <= m < monitors@.len() ==> #[trigger] monitors@[m].well_formed(),
            forall|j: int|
                0 <= j < windows@.len() && old(d).callable(#[trigger] windows@[j])
                    ==> swap_outcome(
                    old(d).rect_of(windows@[j]).unwrap(),
                    monitors@,
                    boundary as int,
                ).is_some(),
            forall|h: WindowHandle|
                lookup(d.table@, h).is_some() == lookup(old(d).table@, h).is_some(),
            forall|j: int|
                0 <= j < i && old(d).callable(#[trigger] windows@[j]) ==> lookup(
                    d.table@,
                    windows@[j],
                ) == swap_outcome(
                    old(d).rect_of(windows@[j]).unwrap(),
                    monitors@,
                    boundary as int,
                ),
            forall|h: WindowHandle|
                !(exists|j: int| 0 <= j < i && windows@[j] == h && old(d).callable(h))
                    ==> lookup(d.table@, h) == lookup(old(d).table@, h),
        decreases windows@.len() - i,
    {
        let h = windows[i];
        proof {
            assert(windows@.take(i as int + 1).drop_last() =~= windows@.take(i as int));
            assert(windows@.take(i as int + 1).last() == windows@[i as int]);
            assert(forall|j: int| 0 <= j < i ==> windows@[j] != windows@[i as int]);
            assert(!(exists|j: int|
                0 <= j < i && windows@[j] == windows@[i as int] && old(d).callable(
                    windows@[i as int],
                )));
            assert(lookup(d.table@, windows@[i as int]) == lookup(
                old(d).table@,
                windows@[i as int],
            ));
        }
        let got = d.get_rect(h);
        match got {
            Some(rect0) => {
                proof {
                    assert(old(d).callable(h));
                    assert(old(d).rect_of(h) == Some(rect0));
                    // the read rectangle is a table entry, hence well formed
                    crate::desktop::lemma_lookup_some_index(d.table@, h);
                }
                let swapped = swap_window_rect(&rect0, monitors, boundary);
                match swapped {
                    Some(target) => {
                        let ghost pre = d.table@;
                        let ok = d.set_rect(h, target);
                        proof {
                            assert(ok);
                            lemma_lookup_update_same(pre, h, target);
                            assert forall|h2: WindowHandle| h2 != h implies lookup(
                                d.table@,
                                h2,
                            ) == lookup(pre, h2) by {
                                lemma_lookup_update_other(pre, h, target, h2);
                            }
                            assert forall|h2: WindowHandle|
                                lookup(d.table@, h2).is_some() == lookup(
                                    old(d).table@,
                                    h2,
                                ).is_some() by {
                                lemma_update_preserves_domain(pre, h, target, h2);
                            }
                        }
                        snap.push((h, rect0));
                    },
                    None => {
                        // excluded by the fit obligation on processable windows
                    },
                }
            },
            None => {
                proof {
                    assert(!old(d).callable(h));
                }
            },
        }
        i += 1;
    }
    proof {
        assert(windows@.take(windows@.len() as int) =~= windows@);
    }
    snap
}

/// What undo leaves behind: staleness untouched, the same handles present,
/// every reachable snapshotted handle holding its stored rectangle again
/// (its last stored rectangle, if one handle were stored twice), and every
/// other handle untouched.
pub open spec fn undo_post(d1: Desktop, d2: Desktop, s: Seq<(WindowHandle, Rect)>) -> bool {
    &&& d2.stale@ == d1.stale@
    &&& forall|h: WindowHandle|
        lookup(d2.table@, h).is_some() == lookup(d1.table@, h).is_some()
    &&& forall|k: int|
        0 <= k < s.len() && d1.callable(#[trigger] s[k].0) && (forall|k2: int|
            k < k2 < s.len() ==> s[k2].0 != s[k].0) ==> lookup(d2.table@, s[k].0) == Some(
            s[k].1,
        )
    &&& forall|h: WindowHandle|
        !(exists|k: int| 0 <= k < s.len() && s[k].0 == h && d1.callable(h)) ==> lookup(
            d2.table@,
            h,
        ) == lookup(d1.table@, h)
}

/// Replays a snapshot verbatim: each pair is applied independently, and a
/// pair whose handle has gone stale is skipped while the rest still apply.
pub fn undo_on(d: &mut Desktop, snap: &Vec<(WindowHandle, Rect)>)
    requires
        old(d).wf(),
        forall|k: int| 0 <= k < snap@.len() ==> (#[trigger] snap@[k].1).well_formed(),
    ensures
        final(d).wf(),
        undo_post(*old(d), *final(d), snap@),
{
    let mut i: usize = 0;
    while i < snap.len()
        invariant
            i <= snap@.len(),
            d.wf(),
            old(d).wf(),
            d.stale@ == old(d).stale@,
            forall|k: int| 0 <= k < snap@.len() ==> (#[trigger] snap@[k].1).well_formed(),
            forall|h: WindowHandle|
                lookup(d.table@, h).is_some() == lookup(old(d).table@, h).is_some(),
            forall|k: int|
                0 <= k < i && old(d).callable(#[trigger] snap@[k].0) && (forall|k2: int|
                    k < k2 < i ==> snap@[k2].0 != snap@[k].0) ==> lookup(
                    d.table@,
                    snap@[k].0,
                ) == Some(snap@[k].1),
            forall|h: WindowHandle|
                !(exists|k: int| 0 <= k < i && snap@[k].0 == h && old(d).callable(h))
                    ==> lookup(d.table@, h) == lookup(old(d).table@, h),
        decreases snap@.len() - i,
    {
        let (h, r) = snap[i];
        let ghost pre = d.table@;
        let ok = d.set_rect(h, r);
        proof {
            if ok {
                lemma_lookup_update_same(pre, h, r);
                assert forall|h2: WindowHandle| h2 != h implies lookup(d.table@, h2) == lookup(
                    pre,
                    h2,
                ) by {
                    lemma_lookup_update_other(pre, h, r, h2);
                }
                assert forall|h2: WindowHandle|
                    lookup(d.table@, h2).is_some() == lookup(old(d).table@, h2).is_some() by {
                    lemma_update_preserves_domain(pre, h, r, h2);
                }
            } else {
                // the handle is stale or gone; nothing changed
            }
        }
        i += 1;
    }
}

/// Undo idempotence: after a mutating pass whose snapshot was gathered from
/// desktop `d0` over a duplicate-free window list, undoing onto whatever
/// desktop the pass left behind restores every snapshotted window to exactly
/// its rectangle from before the pass.
pub proof fn lemma_undo_restores_snapshot(
    d0: Desktop,
    d1: Desktop,
    d2: Desktop,
    ws: Seq<WindowHandle>,
)
    requires
        distinct_handles(ws),
        d1.stale@ == d0.stale@,
        forall|h: WindowHandle|
            lookup(d1.table@, h).is_some() == lookup(d0.table@, h).is_some(),
        undo_post(d1, d2, pass_snapshot(d0, ws)),
    ensures
        forall|k: int|
            0 <= k < pass_snapshot(d0, ws).len() ==> lookup(
                d2.table@,
                #[trigger] pass_snapshot(d0, ws)[k].0,
            ) == lookup(d0.table@, pass_snapshot(d0, ws)[k].0),
{
    lemma_pass_snapshot_props(d0, ws);
    let s = pass_snapshot(d0, ws);
    assert forall|k: int| 0 <= k < s.len() implies lookup(d2.table@, #[trigger] s[k].0)
        == lookup(d0.table@, s[k].0) by {
        let h = s[k].0;
        assert(d0.callable(h));
        assert(d1.callable(h)) by {
            assert(!d1.stale@.contains(h));
        }
        assert(forall|k2: int| k < k2 < s.len() ==> s[k2].0 != s[k].0);
        assert(lookup(d2.table@, h) == Some(s[k].1));
        assert(d0.rect_of(h) == Some(s[k].1));
    }
}

} // verus!
