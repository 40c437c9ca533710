use vstd::prelude::*;

use crate::geom::Rect;
use crate::geom::WindowHandle;

verus! {

/// The rectangle recorded for handle `h`, scanning from the front.
pub open spec fn lookup(s: Seq<(WindowHandle, Rect)>, h: WindowHandle) -> Option<Rect>
    decreases s.len(),
{
    if s.len() == 0 {
        None
    } else if s[0].0 == h {
        Some(s[0].1)
    } else {
        lookup(s.drop_first(), h)
    }
}

/// Every entry for handle `h` replaced by rectangle `r`; other entries kept.
pub open spec fn update_rect(s: Seq<(WindowHandle, Rect)>, h: WindowHandle, r: Rect) -> Seq<
    (WindowHandle, Rect),
> {
    Seq::new(s.len(), |i: int| if s[i].0 == h { (h, r) } else { s[i] })
}

/// No handle occurs twice.
pub open spec fn distinct_handles(ws: Seq<WindowHandle>) -> bool {
    forall|i: int, j: int| 0 <= i < j < ws.len() ==> ws[i] != ws[j]
}

pub proof fn lemma_lookup_at(s: Seq<(WindowHandle, Rect)>, h: WindowHandle, i: int)
    requires
        0 <= i < s.len(),
        s[i].0 == h,
        forall|j: int| 0 <= j < i ==> s[j].0 != h,
    ensures
        lookup(s, h) == Some(s[i].1),
    decreases s.len(),
{
    if i == 0 {
    } else {
        assert(s[0].0 != h);
        assert(s.drop_first()[i - 1] == s[i]);
        assert(forall|j: int| 0 <= j < i - 1 ==> s.drop_first()[j] == s[j + 1]);
        lemma_lookup_at(s.drop_first(), h, i - 1);
    }
}

pub proof fn lemma_lookup_none(s: Seq<(WindowHandle, Rect)>, h: WindowHandle)
    requires
        forall|j: int| 0 <= j < s.len() ==> s[j].0 != h,
    ensures
        lookup(s, h).is_none(),
    decreases s.len(),
{
    if s.len() == 0 {
    } else {
        assert(forall|j: int| 0 <= j < s.len() - 1 ==> s.drop_first()[j] == s[j + 1]);
        lemma_lookup_none(s.drop_first(), h);
    }
}

/// A found rectangle sits at some index.
pub proof fn lemma_lookup_some_index(s: Seq<(WindowHandle, Rect)>, h: WindowHandle)
    requires
        lookup(s, h).is_some(),
    ensures
        exists|i: int|
            0 <= i < s.len() && s[i].0 == h && s[i].1 == lookup(s, h).unwrap(),
    decreases s.len(),
{
    if s[0].0 == h {
        assert(s[0].0 == h && s[0].1 == lookup(s, h).unwrap());
    } else {
        lemma_lookup_some_index(s.drop_first(), h);
        let i = choose|i: int|
            0 <= i < s.drop_first().len() && s.drop_first()[i].0 == h && s.drop_first()[i].1
                == lookup(s.drop_first(), h).unwrap();
        assert(s[i + 1].0 == h && s[i + 1].1 == lookup(s, h).unwrap());
    }
}

pub proof fn lemma_lookup_update_same(
    s: Seq<(WindowHandle, Rect)>,
    h: WindowHandle,
    r: Rect,
)
    requires
        lookup(s, h).is_some(),
    ensures
        lookup(update_rect(s, h, r), h) == Some(r),
    decreases s.len(),
{
    let s2 = update_rect(s, h, r);
    if s[0].0 == h {
        assert(s2[0] == (h, r));
    } else {
        assert(s2.drop_first() =~= update_rect(s.drop_first(), h, r));
        lemma_lookup_update_same(s.drop_first(), h, r);
    }
}

pub proof fn lemma_lookup_update_other(
    s: Seq<(WindowHandle, Rect)>,
    h: WindowHandle,
    r: Rect,
    h2: WindowHandle,
)
    requires
        h2 != h,
    ensures
        lookup(update_rect(s, h, r), h2) == lookup(s, h2),
    decreases s.len(),
{
    let s2 = update_rect(s, h, r);
    if s.len() == 0 {
    } else {
        assert(s2.drop_first() =~= update_rect(s.drop_first(), h, r));
        if s[0].0 == h2 {
            assert(s2[0] == s[0]);
        } else {
            lemma_lookup_update_other(s.drop_first(), h, r, h2);
        }
    }
}

/// Updating one handle's rectangle does not change which handles exist.
pub proof fn lemma_update_preserves_domain(
    s: Seq<(WindowHandle, Rect)>,
    h: WindowHandle,
    r: Rect,
    h2: WindowHandle,
)
    ensures
        lookup(update_rect(s, h, r), h2).is_some() == lookup(s, h2).is_some(),
    decreases s.len(),
{
    let s2 = update_rect(s, h, r);
    if s.len() == 0 {
    } else {
        assert(s2.drop_first() =~= update_rect(s.drop_first(), h, r));
        if s[0].0 == h2 {
        } else {
            lemma_update_preserves_domain(s.drop_first(), h, r, h2);
        }
    }
}

/// An in-memory stand-in for the operating system's window table, used to
/// run the arrangement, swap and undo passes in full and to reason about
/// them. A handle listed as stale fails every call made on it, the way a
/// closed or recreated window would.
pub struct Desktop {
    pub table: Vec<(WindowHandle, Rect)>,
    pub stale: Vec<WindowHandle>,
}

impl Desktop {
    /// One rectangle per handle, and every rectangle well formed.
    pub open spec fn wf(self) -> bool {
        &&& forall|i: int, j: int|
            0 <= i < j < self.table@.len() ==> self.table@[i].0 != self.table@[j].0
        &&& forall|i: int| 0 <= i < self.table@.len() ==> self.table@[i].1.well_formed()
    }

    pub open spec fn is_stale(self, h: WindowHandle) -> bool {
        self.stale@.contains(h)
    }

    /// A handle on which every call succeeds: present and not stale.
    pub open spec fn callable(self, h: WindowHandle) -> bool {
        !self.is_stale(h) && lookup(self.table@, h).is_some()
    }

    pub open spec fn rect_of(self, h: WindowHandle) -> Option<Rect> {
        lookup(self.table@, h)
    }

    /// Reads a window's current rectangle; fails on a stale or absent handle.
    pub fn get_rect(&self, h: WindowHandle) -> (r: Option<Rect>)
        ensures
            r == if self.is_stale(h) {
                None::<Rect>
            } else {
                self.rect_of(h)
            },
            r.is_some() <==> self.callable(h),
    {
        if self.handle_is_stale(h) {
            return None;
        }
        let mut i: usize = 0;
        while i < self.table.len()
            invariant
                i <= self.table@.len(),
                forall|j: int| 0 <= j < i ==> self.table@[j].0 != h,
                !self.is_stale(h),
            decreases self.table@.len() - i,
        {
            if self.table[i].0 == h {
                proof {
                    lemma_lookup_at(self.table@, h, i as int);
                }
                return Some(self.table[i].1);
            }
            i += 1;
        }
        proof {
            lemma_lookup_none(self.table@, h);
        }
        None
    }

    /// Forces a window into a shown state; fails on a stale handle.
    pub fn show(&self, h: WindowHandle) -> (ok: bool)
        ensures
            ok == !self.is_stale(h),
    {
        !self.handle_is_stale(h)
    }

    /// Moves and resizes a window; fails on a stale or absent handle and
    /// otherwise replaces its recorded rectangle.
    pub fn set_rect(&mut self, h: WindowHandle, r: Rect) -> (ok: bool)
        requires
            old(self).wf(),
            r.well_formed(),
        ensures
            ok == old(self).callable(h),
            final(self).wf(),
            final(self).stale@ == old(self).stale@,
            ok ==> final(self).table@ == update_rect(old(self).table@, h, r),
            !ok ==> final(self).table@ == old(self).table@,
    {
        if self.handle_is_stale(h) {
            proof {
                assert(!old(self).callable(h));
            }
            return false;
        }
        let mut i: usize = 0;
        while i < self.table.len()
            invariant
                i <= self.table@.len(),
                forall|j: int| 0 <= j < i ==> self.table@[j].0 != h,
                self.table@ == old(self).table@,
                self.stale@ == old(self).stale@,
                self.wf(),
                !self.is_stale(h),
                r.well_formed(),
            decreases self.table@.len() - i,
        {
            if self.table[i].0 == h {
                proof {
                    lemma_lookup_at(self.table@, h, i as int);
                    assert(update_rect(self.table@, h, r) =~= self.table@.update(
                        i as int,
                        (h, r),
                    ));
                }
                self.table.set(i, (h, r));
                proof {
                    assert(forall|k: int|
                        0 <= k < self.table@.len() ==> self.table@[k].0 == old(
                            self,
                        ).table@[k].0);
                    assert(forall|k: int|
                        0 <= k < self.table@.len() ==> self.table@[k].1.well_formed());
                }
                return true;
            }
            i += 1;
        }
        proof {
            lemma_lookup_none(self.table@, h);
        }
        false
    }

    /// Whether the handle is in the stale list.
    fn handle_is_stale(&self, h: WindowHandle) -> (b: bool)
        ensures
            b == self.is_stale(h),
    {
        let mut i: usize = 0;
        while i < self.stale.len()
            invariant
                i <= self.stale@.len(),
                forall|j: int| 0 <= j < i ==> self.stale@[j] != h,
            decreases self.stale@.len() - i,
        {
            if self.stale[i] == h {
                return true;
            }
            i += 1;
        }
        proof {
            assert(forall|j: int| 0 <= j < self.stale@.len() ==> self.stale@[j] != h);
        }
        false
    }
}

} // verus!
