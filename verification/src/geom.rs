use vstd::prelude::*;

verus! {

/// An opaque identifier the operating system assigns to a top-level window.
/// It is compared by equality only and never dereferenced.
#[derive(Clone, Copy, PartialEq, Eq, Structural, Debug)]
pub struct WindowHandle {
    pub id: u64,
}

/// A window's on-screen bounds in absolute desktop coordinates.
#[derive(Clone, Copy, PartialEq, Eq, Structural, Debug)]
pub struct Rect {
    pub left: i32,
    pub top: i32,
    pub right: i32,
    pub bottom: i32,
}

impl Rect {
    /// A rectangle is well formed when its right edge is not left of its left
    /// edge and its bottom edge is not above its top edge.
    pub open spec fn well_formed(self) -> bool {
        self.right >= self.left && self.bottom >= self.top
    }

    pub open spec fn spec_width(self) -> int {
        self.right - self.left
    }

    pub open spec fn spec_height(self) -> int {
        self.bottom - self.top
    }
}

/// One attached display: its origin and extent in absolute desktop
/// coordinates, and whether it is the designated primary display.
#[derive(Clone, Copy, PartialEq, Eq, Structural, Debug)]
pub struct MonitorInfo {
    pub x: i32,
    pub y: i32,
    pub width: u32,
    pub height: u32,
    pub is_primary: bool,
}

impl MonitorInfo {
    /// A monitor must have a positive extent for the proportional transform
    /// (which divides by it) to make sense.
    pub open spec fn well_formed(self) -> bool {
        self.width >= 1 && self.height >= 1
    }
}

/// Splits a rectangle into the origin-and-size form the window positioning
/// call takes: left, top, width, height.
pub fn rect_to_pos(r: &Rect) -> (p: (i32, i32, i32, i32))
    requires
        r.well_formed(),
        r.spec_width() <= i32::MAX,
        r.spec_height() <= i32::MAX,
    ensures
        p.0 == r.left,
        p.1 == r.top,
        p.2 == r.spec_width(),
        p.3 == r.spec_height(),
{
    (r.left, r.top, r.right - r.left, r.bottom - r.top)
}

/// Integer division truncating toward zero: the semantics machine division
/// gives to signed operands.
pub open spec fn div_toward_zero(a: int, b: int) -> int
    recommends
        b > 0,
{
    if a >= 0 {
        a / b
    } else {
        -((-a) / b)
    }
}

/// Truncating division on `i64`, tied to `div_toward_zero`.
pub fn tdiv64(a: i64, b: i64) -> (q: i64)
    requires
        b > 0,
    ensures
        q == div_toward_zero(a as int, b as int),
{
    proof {
        lemma_div_toward_zero_bounds(a as int, b as int);
    }
    a.checked_div(b).unwrap()
}

/// The magnitude of a truncating quotient never exceeds the magnitude of the
/// dividend.
pub proof fn lemma_div_toward_zero_bounds(a: int, b: int)
    requires
        b > 0,
    ensures
        a >= 0 ==> 0 <= div_toward_zero(a, b) <= a,
        a < 0 ==> a <= div_toward_zero(a, b) <= 0,
{
    if a >= 0 {
        vstd::arithmetic::div_mod::lemma_div_pos_is_pos(a, b);
        vstd::arithmetic::div_mod::lemma_div_nonincreasing(a, b);
    } else {
        vstd::arithmetic::div_mod::lemma_div_pos_is_pos(-a, b);
        vstd::arithmetic::div_mod::lemma_div_nonincreasing(-a, b);
    }
}

} // verus!
