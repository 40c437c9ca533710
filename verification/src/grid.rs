use vstd::prelude::*;
use vstd::arithmetic::div_mod::lemma_div_nonincreasing;
use vstd::arithmetic::div_mod::lemma_div_pos_is_pos;
use vstd::arithmetic::div_mod::lemma_fundamental_div_mod;
use vstd::arithmetic::div_mod::lemma_mod_bound;
use vstd::arithmetic::mul::lemma_mul_inequality;

use crate::geom::Rect;
use crate::geom::WindowHandle;

verus! {

/// How many windows the first of the two rows receives.
pub open spec fn first_row_count(n: int) -> int {
    n / 2
}

/// How many windows the second row receives.
pub open spec fn second_row_count(n: int) -> int {
    n - n / 2
}

/// The fixed quantities of one grid arrangement: desktop extent and the two
/// per-row column widths, each row dividing the full desktop width among its
/// own window count.
pub ghost struct GridParams {
    pub n: int,
    pub dw: int,
    pub dh: int,
    pub w1: int,
    pub w2: int,
}

pub open spec fn grid_params(n: int, dw: int, dh: int) -> GridParams {
    GridParams { n, dw, dh, w1: dw / (n / 2), w2: dw / (n - n / 2) }
}

pub open spec fn params_wf(p: GridParams) -> bool {
    &&& 2 <= p.n
    &&& 1 <= p.dw
    &&& 1 <= p.dh
    &&& p.w1 == p.dw / first_row_count(p.n)
    &&& p.w2 == p.dw / second_row_count(p.n)
}

/// The column width in force while the cursor stands at vertical position
/// `y`: the first row's width at the very top, the second row's below.
pub open spec fn width_at(p: GridParams, y: int) -> int {
    if y == 0 {
        p.w1
    } else {
        p.w2
    }
}

/// One cursor step after a successful placement: advance by the current
/// row's column width, and wrap to the start of the next row as soon as
/// another column of that width would overrun the desktop width.
pub open spec fn next_cursor(p: GridParams, c: (int, int)) -> (int, int) {
    let w = width_at(p, c.1);
    let x2 = c.0 + w;
    if x2 + w > p.dw {
        (0, c.1 + p.dh / 2)
    } else {
        (x2, c.1)
    }
}

/// The cursor position after `k` successful placements.
pub open spec fn cursor_after(p: GridParams, k: nat) -> (int, int)
    decreases k,
{
    if k == 0 {
        (0, 0)
    } else {
        next_cursor(p, cursor_after(p, (k - 1) as nat))
    }
}

/// The grid cell granted to the `k`-th successfully placed window.
pub ghost struct Cell {
    pub x: int,
    pub y: int,
    pub w: int,
    pub h: int,
}

pub open spec fn cell_for(p: GridParams, k: nat) -> Cell {
    let c = cursor_after(p, k);
    Cell { x: c.0, y: c.1, w: width_at(p, c.1), h: p.dh / 2 }
}

/// The same cell as a screen rectangle.
pub open spec fn cell_rect(p: GridParams, k: nat) -> Rect {
    let c = cell_for(p, k);
    Rect {
        left: c.x as i32,
        top: c.y as i32,
        right: (c.x + c.w) as i32,
        bottom: (c.y + c.h) as i32,
    }
}

/// Both column widths lie between zero and the desktop width.
pub proof fn lemma_widths_in_range(p: GridParams)
    requires
        params_wf(p),
    ensures
        0 <= p.w1 <= p.dw,
        0 <= p.w2 <= p.dw,
{
    lemma_div_pos_is_pos(p.dw, first_row_count(p.n));
    lemma_div_nonincreasing(p.dw, first_row_count(p.n));
    lemma_div_pos_is_pos(p.dw, second_row_count(p.n));
    lemma_div_nonincreasing(p.dw, second_row_count(p.n));
}

/// The cursor stays within the desktop: the horizontal position always
/// leaves room for one column of the current row's width, and the vertical
/// position grows by at most one row height per placement.
pub proof fn lemma_cursor_bounds(p: GridParams, k: nat)
    requires
        params_wf(p),
    ensures
        0 <= cursor_after(p, k).0,
        cursor_after(p, k).0 + width_at(p, cursor_after(p, k).1) <= p.dw,
        0 <= cursor_after(p, k).1 <= k * (p.dh / 2),
    decreases k,
{
    lemma_widths_in_range(p);
    lemma_div_pos_is_pos(p.dh, 2);
    if k == 0 {
    } else {
        let km1 = (k - 1) as nat;
        lemma_cursor_bounds(p, km1);
        let c0 = cursor_after(p, km1);
        let m = p.dh / 2;
        assert(km1 * m + m == k * m) by (nonlinear_arith)
            requires
                km1 + 1 == k,
        ;
        lemma_mul_inequality(km1 as int, k as int, m);
    }
}

/// Width coverage of one row: `r` columns of width `dw / r` span
/// `r * (dw / r)` pixels, which reaches the full desktop width `dw` to
/// within the integer-truncation remainder `dw % r`, itself less than `r`.
pub proof fn lemma_width_coverage(dw: int, r: int)
    requires
        1 <= r,
        0 <= dw,
    ensures
        r * (dw / r) + dw % r == dw,
        0 <= dw % r < r,
        dw - r < r * (dw / r) <= dw,
{
    lemma_fundamental_div_mod(dw, r);
    lemma_mod_bound(dw, r);
}

/// The cursor in closed form while each row fills exactly once: the first
/// `floor(n/2)` placements march across row 0 in steps of the first row's
/// column width, and the remaining placements march across row 1. This holds
/// whenever the first row's column width exceeds the division remainder
/// `dw % floor(n/2)`, which makes the wrap fire exactly when row 0 is full.
pub proof fn lemma_cursor_closed_form(p: GridParams, k: nat)
    requires
        params_wf(p),
        2 <= p.dh,
        p.dw % first_row_count(p.n) < p.w1,
        k < p.n,
    ensures
        k < first_row_count(p.n) ==> cursor_after(p, k) == ((k * p.w1), 0int),
        k >= first_row_count(p.n) ==> cursor_after(p, k) == (((k - first_row_count(p.n))
            * p.w2), p.dh / 2),
    decreases k,
{
    let r1 = first_row_count(p.n);
    let r2 = second_row_count(p.n);
    lemma_widths_in_range(p);
    lemma_div_pos_is_pos(p.dh, 2);
    lemma_fundamental_div_mod(p.dw, r1);
    lemma_mod_bound(p.dw, r1);
    lemma_fundamental_div_mod(p.dw, r2);
    lemma_mod_bound(p.dw, r2);
    assert(p.dh / 2 >= 1) by {
        vstd::arithmetic::div_mod::lemma_div_is_ordered(2int, p.dh, 2int);
    }
    if k == 0 {
    } else {
        let km1 = (k - 1) as nat;
        lemma_cursor_closed_form(p, km1);
        let c0 = cursor_after(p, km1);
        if km1 < r1 {
            // still on row 0: the step advances by `w1`
            assert(c0 == ((km1 * p.w1), 0int));
            let x2 = km1 * p.w1 + p.w1;
            assert(x2 == k * p.w1) by (nonlinear_arith)
                requires
                    km1 + 1 == k,
                    x2 == km1 * p.w1 + p.w1,
            ;
            if k < r1 {
                // another column still fits: (k + 1) * w1 <= r1 * w1 <= dw
                lemma_mul_inequality(k as int + 1, r1, p.w1);
                assert((k + 1) * p.w1 == k * p.w1 + p.w1) by (nonlinear_arith);
                assert(r1 * (p.dw / r1) <= p.dw);
            } else {
                // k == r1: the wrap fires because w1 exceeds the remainder
                assert(k == r1);
                assert(r1 * p.w1 + p.w1 > p.dw);
                assert((k - r1) * p.w2 == 0) by (nonlinear_arith)
                    requires
                        k == r1,
                ;
            }
        } else {
            // on row 1: the step advances by `w2` and never wraps before the
            // pass runs out of windows
            let j = km1 - r1;
            assert(c0 == ((j * p.w2), p.dh / 2));
            assert(width_at(p, p.dh / 2) == p.w2);
            assert(j * p.w2 + p.w2 == (j + 1) * p.w2) by (nonlinear_arith);
            assert((j + 1) * p.w2 + p.w2 == (j + 2) * p.w2) by (nonlinear_arith);
            // j + 2 <= r2 because k < n = r1 + r2
            lemma_mul_inequality(j + 2, r2, p.w2);
            assert(r2 * (p.dw / r2) <= p.dw);
            assert((j + 2) * p.w2 <= p.dw);
        }
    }
}

/// Row partition: the two row counts always sum to the window count, and
/// while each row fills exactly once (first row's column width above the
/// division remainder), the `k`-th placed window lands on row 0 at column
/// `k` exactly when `k < floor(n/2)`, and on row 1 at column `k - floor(n/2)`
/// otherwise.
pub proof fn lemma_row_partition(n: int, dw: int, dh: int, k: nat)
    requires
        2 <= n,
        1 <= dw,
        2 <= dh,
        dw % first_row_count(n) < dw / first_row_count(n),
        k < n,
    ensures
        first_row_count(n) + second_row_count(n) == n,
        first_row_count(n) == n / 2,
        ({
            let p = grid_params(n, dw, dh);
            let c = cell_for(p, k);
            &&& k < first_row_count(n) ==> c.y == 0 && c.x == k * p.w1 && c.w == p.w1
            &&& k >= first_row_count(n) ==> c.y == dh / 2 && c.x == (k - first_row_count(n))
                * p.w2 && c.w == p.w2
        }),
{
    let p = grid_params(n, dw, dh);
    lemma_cursor_closed_form(p, k);
    assert(dh / 2 >= 1) by {
        vstd::arithmetic::div_mod::lemma_div_is_ordered(2int, dh, 2int);
    }
}

/// The total width of `count` consecutive cells starting at placement `lo`.
pub open spec fn width_sum(p: GridParams, lo: nat, count: nat) -> int
    decreases count,
{
    if count == 0 {
        0
    } else {
        cell_for(p, lo).w + width_sum(p, (lo + 1) as nat, (count - 1) as nat)
    }
}

proof fn lemma_width_sum_constant(p: GridParams, lo: nat, count: nat, lim: nat, w: int)
    requires
        lo + count <= lim,
        forall|k: nat| lo <= k < lim ==> #[trigger] cell_for(p, k).w == w,
    ensures
        width_sum(p, lo, count) == count * w,
    decreases count,
{
    if count == 0 {
        assert(0nat * w == 0) by (nonlinear_arith);
    } else {
        lemma_width_sum_constant(p, (lo + 1) as nat, (count - 1) as nat, lim, w);
        assert(cell_for(p, lo).w == w);
        assert(w + (count - 1) * w == count * w) by (nonlinear_arith);
    }
}

/// Width coverage: within each row the assigned column widths sum to the
/// row's window count times that row's column width, and that total reaches
/// the full desktop width to within the integer-truncation remainder (see
/// `lemma_width_coverage`).
pub proof fn lemma_row_width_sum(n: int, dw: int, dh: int)
    requires
        2 <= n,
        1 <= dw,
        2 <= dh,
        dw % first_row_count(n) < dw / first_row_count(n),
    ensures
        ({
            let p = grid_params(n, dw, dh);
            let r1 = first_row_count(n);
            let r2 = second_row_count(n);
            &&& width_sum(p, 0, r1 as nat) == r1 * p.w1
            &&& width_sum(p, r1 as nat, r2 as nat) == r2 * p.w2
            &&& dw - r1 < r1 * p.w1 <= dw
            &&& dw - r2 < r2 * p.w2 <= dw
        }),
{
    let p = grid_params(n, dw, dh);
    let r1 = first_row_count(n);
    let r2 = second_row_count(n);
    assert forall|k: nat| 0 <= k < r1 implies #[trigger] cell_for(p, k).w == p.w1 by {
        lemma_row_partition(n, dw, dh, k);
    }
    assert forall|k: nat| r1 <= k < n implies #[trigger] cell_for(p, k).w == p.w2 by {
        lemma_row_partition(n, dw, dh, k);
    }
    lemma_width_sum_constant(p, 0, r1 as nat, r1 as nat, p.w1);
    lemma_width_sum_constant(p, r1 as nat, r2 as nat, n as nat, p.w2);
    lemma_width_coverage(dw, r1);
    lemma_width_coverage(dw, r2);
}

/// The running state of one grid arrangement pass: the wraparound cursor and
/// the snapshot of prior rectangles gathered so far. The caller walks the
/// window list, asks for each window's `target` cell, and `commit`s the
/// window after the move succeeded; a window whose calls failed is simply
/// not committed and consumes no cell.
pub struct GridPass {
    pub total: usize,
    pub dw: u32,
    pub dh: u32,
    pub w1: u32,
    pub w2: u32,
    pub x: u32,
    pub y: u32,
    pub placed: usize,
    pub snapshot: Vec<(WindowHandle, Rect)>,
}

impl GridPass {
    pub open spec fn params(self) -> GridParams {
        GridParams {
            n: self.total as int,
            dw: self.dw as int,
            dh: self.dh as int,
            w1: self.w1 as int,
            w2: self.w2 as int,
        }
    }

    pub open spec fn wf(self) -> bool {
        &&& params_wf(self.params())
        &&& self.placed <= self.total
        &&& (self.x as int, self.y as int) == cursor_after(self.params(), self.placed as nat)
        &&& self.dw <= i32::MAX
        &&& self.dh <= i32::MAX
        &&& (self.total + 1) * ((self.dh as int) / 2) <= i32::MAX
    }

    /// Opens an arrangement pass over `n` windows on a desktop of the given
    /// extent. Arranging requires at least two windows — a first row of zero
    /// windows would leave nothing to divide the width by — so fewer than two
    /// yield `None` and nothing is mutated.
    pub fn begin(n: usize, dw: u32, dh: u32) -> (r: Option<GridPass>)
        requires
            1 <= dw <= i32::MAX,
            1 <= dh <= i32::MAX,
            (n + 1) * ((dh as int) / 2) <= i32::MAX,
        ensures
            r.is_none() <==> n < 2,
            r.is_some() ==> {
                let g = r.unwrap();
                &&& g.wf()
                &&& g.total == n
                &&& g.dw == dw
                &&& g.dh == dh
                &&& g.placed == 0
                &&& g.snapshot@ =~= Seq::<(WindowHandle, Rect)>::empty()
                &&& g.params() == grid_params(n as int, dw as int, dh as int)
            },
    {
        let r1 = n / 2;
        if r1 == 0 {
            return None;
        }
        let r2 = n - r1;
        let w1_64 = (dw as u64) / (r1 as u64);
        let w2_64 = (dw as u64) / (r2 as u64);
        proof {
            lemma_div_nonincreasing(dw as int, r1 as int);
            lemma_div_nonincreasing(dw as int, r2 as int);
            lemma_div_pos_is_pos(dw as int, r1 as int);
            lemma_div_pos_is_pos(dw as int, r2 as int);
        }
        let w1 = w1_64 as u32;
        let w2 = w2_64 as u32;
        Some(
            GridPass {
                total: n,
                dw,
                dh,
                w1,
                w2,
                x: 0,
                y: 0,
                placed: 0,
                snapshot: Vec::new(),
            },
        )
    }

    /// The cell the next committed window will receive.
    pub fn target(&self) -> (c: Rect)
        requires
            self.wf(),
            self.placed < self.total,
        ensures
            c == cell_rect(self.params(), self.placed as nat),
            c.left as int == cell_for(self.params(), self.placed as nat).x,
            c.top as int == cell_for(self.params(), self.placed as nat).y,
            c.right as int == cell_for(self.params(), self.placed as nat).x + cell_for(
                self.params(),
                self.placed as nat,
            ).w,
            c.bottom as int == cell_for(self.params(), self.placed as nat).y + cell_for(
                self.params(),
                self.placed as nat,
            ).h,
            c.well_formed(),
    {
        proof {
            lemma_cursor_bounds(self.params(), self.placed as nat);
            lemma_widths_in_range(self.params());
            lemma_div_pos_is_pos(self.dh as int, 2);
            lemma_mul_inequality(
                self.placed as int,
                self.total as int,
                (self.dh as int) / 2,
            );
            lemma_mul_inequality(
                self.total as int,
                self.total as int + 1,
                (self.dh as int) / 2,
            );
            assert((self.total as int) * ((self.dh as int) / 2) + ((self.dh as int) / 2) == (
            self.total as int + 1) * ((self.dh as int) / 2)) by (nonlinear_arith);
        }
        let w = if self.y == 0 {
            self.w1
        } else {
            self.w2
        };
        let h = self.dh / 2;
        Rect {
            left: self.x as i32,
            top: self.y as i32,
            right: (self.x + w) as i32,
            bottom: (self.y + h) as i32,
        }
    }

    /// Records that the window at the current cursor was successfully moved:
    /// its prior rectangle joins the snapshot and the cursor advances, with
    /// wraparound. A window that failed is simply not committed.
    pub fn commit(&mut self, h: WindowHandle, prior: Rect)
        requires
            old(self).wf(),
            old(self).placed < old(self).total,
        ensures
            final(self).wf(),
            final(self).placed == old(self).placed + 1,
            final(self).snapshot@ == old(self).snapshot@.push((h, prior)),
            final(self).total == old(self).total,
            final(self).params() == old(self).params(),
    {
        proof {
            lemma_cursor_bounds(self.params(), self.placed as nat);
            lemma_widths_in_range(self.params());
            lemma_div_pos_is_pos(self.dh as int, 2);
            lemma_mul_inequality(
                self.placed as int + 1,
                self.total as int + 1,
                (self.dh as int) / 2,
            );
            assert((self.placed as int) * ((self.dh as int) / 2) + ((self.dh as int) / 2) == (
            self.placed as int + 1) * ((self.dh as int) / 2)) by (nonlinear_arith);
        }
        let w = if self.y == 0 {
            self.w1
        } else {
            self.w2
        };
        let x2 = self.x + w;
        if x2 > self.dw - w {
            self.x = 0;
            self.y = self.y + self.dh / 2;
        } else {
            self.x = x2;
        }
        self.placed = self.placed + 1;
        self.snapshot.push((h, prior));
    }
}

} // verus!
