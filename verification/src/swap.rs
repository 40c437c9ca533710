use vstd::prelude::*;
use vstd::arithmetic::div_mod::lemma_div_multiples_vanish;
use vstd::arithmetic::div_mod::lemma_div_nonincreasing;
use vstd::arithmetic::div_mod::lemma_div_pos_is_pos;
use vstd::arithmetic::div_mod::lemma_fundamental_div_mod;
use vstd::arithmetic::mul::lemma_mul_upper_bound;

use crate::geom::MonitorInfo;
use crate::geom::Rect;
use crate::geom::div_toward_zero;
use crate::geom::tdiv64;

verus! {

/// The boundary under which a window's top edge classifies it as sitting on
/// the upper logical region: slightly negative, allowing for window chrome
/// that overhangs the nominal screen edge. Kept as a parameter of the swap
/// functions; this default suits a secondary monitor sitting above the
/// primary one.
pub const DEFAULT_TOP_BOUNDARY: i32 = -15;

/// A window belongs to the upper region when its top edge lies at or above
/// the boundary line.
pub open spec fn on_top_region(r: Rect, boundary: int) -> bool {
    r.top <= boundary
}

/// Index of the first monitor whose primary flag has the wanted value.
pub open spec fn first_with_primary(ms: Seq<MonitorInfo>, want: bool) -> Option<int>
    decreases ms.len(),
{
    if ms.len() == 0 {
        None
    } else if ms[0].is_primary == want {
        Some(0int)
    } else {
        match first_with_primary(ms.drop_first(), want) {
            Some(i) => Some(i + 1),
            None => None,
        }
    }
}

pub proof fn lemma_first_with_primary_in_range(ms: Seq<MonitorInfo>, want: bool)
    requires
        first_with_primary(ms, want).is_some(),
    ensures
        0 <= first_with_primary(ms, want).unwrap() < ms.len(),
        ms[first_with_primary(ms, want).unwrap()].is_primary == want,
    decreases ms.len(),
{
    if ms[0].is_primary == want {
    } else {
        lemma_first_with_primary_in_range(ms.drop_first(), want);
    }
}

/// Finds the first monitor with the wanted primary flag.
pub fn find_monitor(ms: &Vec<MonitorInfo>, want: bool) -> (r: Option<usize>)
    ensures
        r.is_some() == first_with_primary(ms@, want).is_some(),
        r.is_some() ==> r.unwrap() as int == first_with_primary(ms@, want).unwrap(),
{
    proof {
        assert(ms@.skip(0) =~= ms@);
    }
    find_monitor_from(ms, want, 0)
}

fn find_monitor_from(ms: &Vec<MonitorInfo>, want: bool, start: usize) -> (r: Option<usize>)
    requires
        start <= ms@.len(),
    ensures
        r.is_some() == first_with_primary(ms@.skip(start as int), want).is_some(),
        r.is_some() ==> r.unwrap() as int == start + first_with_primary(
            ms@.skip(start as int),
            want,
        ).unwrap(),
    decreases ms@.len() - start,
{
    if start == ms.len() {
        return None;
    }
    proof {
        assert(ms@.skip(start as int)[0] == ms@[start as int]);
        assert(ms@.skip(start as int).drop_first() =~= ms@.skip(start as int + 1));
    }
    if ms[start].is_primary == want {
        Some(start)
    } else {
        find_monitor_from(ms, want, start + 1)
    }
}

/// The proportional placement of a rectangle transported from monitor `src`
/// onto monitor `dst`: the offsets within `src`, each divided by the source
/// extent with machine truncation, carried over to `dst`'s origin, and the
/// window extent scaled by the same truncated proportions.
pub ghost struct SwapPlacement {
    pub x: int,
    pub y: int,
    pub w: int,
    pub h: int,
}

pub open spec fn swap_placement(r: Rect, src: MonitorInfo, dst: MonitorInfo) -> SwapPlacement {
    let rel_left = div_toward_zero(r.left - src.x, src.width as int);
    let rel_top = div_toward_zero(r.top - src.y, src.height as int);
    let rel_w = (r.right - r.left) / (src.width as int);
    let rel_h = (r.bottom - r.top) / (src.height as int);
    SwapPlacement {
        x: dst.x + rel_left,
        y: dst.y + rel_top,
        w: (dst.width as int) * rel_w,
        h: (dst.height as int) * rel_h,
    }
}

/// Whether the transported placement stays inside the signed 32-bit
/// coordinate space the operating system uses.
pub open spec fn swap_fits(r: Rect, src: MonitorInfo, dst: MonitorInfo) -> bool {
    let o = swap_placement(r, src, dst);
    &&& i32::MIN <= o.x <= i32::MAX
    &&& i32::MIN <= o.y <= i32::MAX
    &&& 0 <= o.w <= i32::MAX
    &&& 0 <= o.h <= i32::MAX
    &&& i32::MIN <= o.x + o.w <= i32::MAX
    &&& i32::MIN <= o.y + o.h <= i32::MAX
}

/// The transported placement as a rectangle.
pub open spec fn swapped_rect(r: Rect, src: MonitorInfo, dst: MonitorInfo) -> Rect {
    let o = swap_placement(r, src, dst);
    Rect {
        left: o.x as i32,
        top: o.y as i32,
        right: (o.x + o.w) as i32,
        bottom: (o.y + o.h) as i32,
    }
}

/// Transports one rectangle proportionally from monitor `src` onto `dst`.
pub fn swap_rect(r: &Rect, src: &MonitorInfo, dst: &MonitorInfo) -> (out: Rect)
    requires
        r.well_formed(),
        src.well_formed(),
        dst.well_formed(),
        swap_fits(*r, *src, *dst),
    ensures
        out == swapped_rect(*r, *src, *dst),
        out.well_formed(),
{
    let rel_left = tdiv64(r.left as i64 - src.x as i64, src.width as i64);
    let rel_top = tdiv64(r.top as i64 - src.y as i64, src.height as i64);
    let w = (r.right as i64 - r.left as i64) as u64;
    let h = (r.bottom as i64 - r.top as i64) as u64;
    let rel_w = w / (src.width as u64);
    let rel_h = h / (src.height as u64);
    let x = dst.x as i64 + rel_left;
    let y = dst.y as i64 + rel_top;
    proof {
        lemma_rel_bounds(*r, *src);
        lemma_mul_upper_bound(dst.width as int, 0xffff_ffff, rel_w as int, 0xffff_ffff);
        lemma_mul_upper_bound(dst.height as int, 0xffff_ffff, rel_h as int, 0xffff_ffff);
    }
    let new_w = (dst.width as u64) * rel_w;
    let new_h = (dst.height as u64) * rel_h;
    Rect {
        left: x as i32,
        top: y as i32,
        right: (x + new_w as i64) as i32,
        bottom: (y + new_h as i64) as i32,
    }
}

/// The truncated proportions of a well-formed rectangle on a well-formed
/// monitor are at most the rectangle's own extent.
proof fn lemma_rel_bounds(r: Rect, src: MonitorInfo)
    requires
        r.well_formed(),
        src.well_formed(),
    ensures
        0 <= (r.right - r.left) / (src.width as int) <= r.right - r.left,
        0 <= (r.bottom - r.top) / (src.height as int) <= r.bottom - r.top,
{
    lemma_div_pos_is_pos(r.right - r.left, src.width as int);
    lemma_div_nonincreasing(r.right - r.left, src.width as int);
    lemma_div_pos_is_pos(r.bottom - r.top, src.height as int);
    lemma_div_nonincreasing(r.bottom - r.top, src.height as int);
}

/// Like `swap_rect`, but checks the coordinate-space bounds at run time and
/// declines instead of requiring them.
pub fn swap_rect_checked(r: &Rect, src: &MonitorInfo, dst: &MonitorInfo) -> (out: Option<Rect>)
    requires
        r.well_formed(),
        src.well_formed(),
        dst.well_formed(),
    ensures
        out.is_some() <==> swap_fits(*r, *src, *dst),
        out.is_some() ==> out.unwrap() == swapped_rect(*r, *src, *dst),
{
    let rel_left = tdiv64(r.left as i64 - src.x as i64, src.width as i64);
    let rel_top = tdiv64(r.top as i64 - src.y as i64, src.height as i64);
    let w = (r.right as i64 - r.left as i64) as u64;
    let h = (r.bottom as i64 - r.top as i64) as u64;
    let rel_w = w / (src.width as u64);
    let rel_h = h / (src.height as u64);
    let x = dst.x as i64 + rel_left;
    let y = dst.y as i64 + rel_top;
    proof {
        lemma_rel_bounds(*r, *src);
        lemma_mul_upper_bound(dst.width as int, 0xffff_ffff, rel_w as int, 0xffff_ffff);
        lemma_mul_upper_bound(dst.height as int, 0xffff_ffff, rel_h as int, 0xffff_ffff);
    }
    let new_w = (dst.width as u64) * rel_w;
    let new_h = (dst.height as u64) * rel_h;
    let min = i32::MIN as i64;
    let max = i32::MAX as i64;
    if x < min || x > max || y < min || y > max {
        return None;
    }
    if new_w > max as u64 || new_h > max as u64 {
        return None;
    }
    let right64 = x + new_w as i64;
    let bottom64 = y + new_h as i64;
    if right64 < min || right64 > max || bottom64 < min || bottom64 > max {
        return None;
    }
    Some(
        Rect {
            left: x as i32,
            top: y as i32,
            right: right64 as i32,
            bottom: bottom64 as i32,
        },
    )
}

/// The full per-window decision of the monitor swap: classify the window by
/// its top edge, take the monitor whose primary flag contradicts that
/// region as its current one, the first monitor of the opposite flag as the
/// target, and transport the rectangle. `None` when the topology lacks one
/// of the two monitors or the result would leave the coordinate space.
pub open spec fn swap_outcome(r: Rect, ms: Seq<MonitorInfo>, boundary: int) -> Option<Rect> {
    let top = on_top_region(r, boundary);
    match first_with_primary(ms, !top) {
        Some(si) => match first_with_primary(ms, top) {
            Some(di) => {
                if swap_fits(r, ms[si], ms[di]) {
                    Some(swapped_rect(r, ms[si], ms[di]))
                } else {
                    None
                }
            },
            None => None,
        },
        None => None,
    }
}

/// Computes the swap outcome for one window.
pub fn swap_window_rect(r: &Rect, monitors: &Vec<MonitorInfo>, boundary: i32) -> (out: Option<
    Rect,
>)
    requires
        r.well_formed(),
        forall|i: int| 0 <= i < monitors@.len() ==> monitors@[i].well_formed(),
    ensures
        out == swap_outcome(*r, monitors@, boundary as int),
        out.is_some() ==> out.unwrap().well_formed(),
{
    let top = r.top <= boundary;
    let si = match find_monitor(monitors, !top) {
        Some(i) => i,
        None => {
            return None;
        },
    };
    let di = match find_monitor(monitors, top) {
        Some(i) => i,
        None => {
            return None;
        },
    };
    proof {
        lemma_first_with_primary_in_range(monitors@, !top);
        lemma_first_with_primary_in_range(monitors@, top);
    }
    swap_rect_checked(r, &monitors[si], &monitors[di])
}

/// Swap round-trip through the full per-window decision: with a monitor
/// pair whose origins lie on opposite sides of the boundary, a window parked
/// on its monitor's origin with an extent that is an exact multiple of that
/// monitor's comes back bit-exactly after two swaps in succession.
pub proof fn lemma_swap_outcome_round_trip(r: Rect, ms: Seq<MonitorInfo>, boundary: int)
    requires
        r.well_formed(),
        first_with_primary(ms, true).is_some(),
        first_with_primary(ms, false).is_some(),
        ({
            let t = on_top_region(r, boundary);
            let src = ms[first_with_primary(ms, !t).unwrap()];
            let dst = ms[first_with_primary(ms, t).unwrap()];
            &&& src.well_formed()
            &&& dst.well_formed()
            &&& r.left == src.x
            &&& r.top == src.y
            &&& (r.right - r.left) % (src.width as int) == 0
            &&& (r.bottom - r.top) % (src.height as int) == 0
            &&& swap_fits(r, src, dst)
            &&& swap_fits(swapped_rect(r, src, dst), dst, src)
            &&& (dst.y <= boundary) == !t
        }),
    ensures
        swap_outcome(r, ms, boundary).is_some(),
        swap_outcome(swap_outcome(r, ms, boundary).unwrap(), ms, boundary) == Some(r),
{
    let t = on_top_region(r, boundary);
    let si = first_with_primary(ms, !t).unwrap();
    let di = first_with_primary(ms, t).unwrap();
    lemma_first_with_primary_in_range(ms, !t);
    lemma_first_with_primary_in_range(ms, t);
    let src = ms[si];
    let dst = ms[di];
    let r1 = swapped_rect(r, src, dst);
    assert(swap_outcome(r, ms, boundary) == Some(r1));
    // the moved window sits on the target's origin, so it classifies to the
    // opposite region and the second swap picks the pair in reverse
    vstd::arithmetic::div_mod::lemma_div_of0(src.height as int);
    assert(div_toward_zero(r.top - src.y, src.height as int) == 0);
    assert(r1.top == dst.y);
    assert(on_top_region(r1, boundary) == !t);
    assert(swap_outcome(r1, ms, boundary) == Some(swapped_rect(r1, dst, src)));
    lemma_swap_round_trip(r, src, dst);
}

/// Swap round-trip: a window that sits exactly at its monitor's origin with
/// an extent that is an exact multiple of that monitor's extent comes back
/// bit-exactly when transported to the other monitor and back again. (A
/// window off the origin does not: the truncating integer proportions
/// collapse its offset, so the round trip parks it on the origin instead.)
pub proof fn lemma_swap_round_trip(r: Rect, src: MonitorInfo, dst: MonitorInfo)
    requires
        r.well_formed(),
        src.well_formed(),
        dst.well_formed(),
        r.left == src.x,
        r.top == src.y,
        (r.right - r.left) % (src.width as int) == 0,
        (r.bottom - r.top) % (src.height as int) == 0,
        swap_fits(r, src, dst),
        swap_fits(swapped_rect(r, src, dst), dst, src),
    ensures
        swapped_rect(swapped_rect(r, src, dst), dst, src) == r,
{
    let sw = src.width as int;
    let sh = src.height as int;
    let dw = dst.width as int;
    let dh = dst.height as int;
    let w = r.right - r.left;
    let h = r.bottom - r.top;
    let qw = w / sw;
    let qh = h / sh;
    let o1 = swap_placement(r, src, dst);
    let r1 = swapped_rect(r, src, dst);
    lemma_fundamental_div_mod(w, sw);
    lemma_fundamental_div_mod(h, sh);
    lemma_div_pos_is_pos(w, sw);
    lemma_div_pos_is_pos(h, sh);
    assert(o1.x == dst.x && o1.y == dst.y);
    assert(o1.w == dw * qw && o1.h == dh * qh);
    assert(r1.left == dst.x && r1.top == dst.y);
    assert(r1.right - r1.left == dw * qw);
    assert(r1.bottom - r1.top == dh * qh);
    let o2 = swap_placement(r1, dst, src);
    lemma_div_multiples_vanish(qw, dw);
    lemma_div_multiples_vanish(qh, dh);
    assert((dw * qw) / dw == qw);
    assert((dh * qh) / dh == qh);
    assert(o2.x == src.x && o2.y == src.y);
    assert(o2.w == sw * qw && o2.h == sh * qh);
    assert(sw * qw == w && sh * qh == h);
}

} // verus!
