use gridis::desktop::Desktop;
use gridis::geom::Rect;
use gridis::geom::WindowHandle;
use gridis::grid::GridPass;
use gridis::passes::arrange_on;

fn handle(id: u64) -> WindowHandle {
    WindowHandle { id }
}

fn start_rect(id: u64) -> Rect {
    let k = id as i32;
    Rect { left: 30 * k, top: 40 * k, right: 30 * k + 500, bottom: 40 * k + 400 }
}

fn desktop_of(n: u64) -> (Desktop, Vec<WindowHandle>) {
    let mut table = Vec::new();
    let mut ws = Vec::new();
    for id in 1..=n {
        table.push((handle(id), start_rect(id)));
        ws.push(handle(id));
    }
    (Desktop { table, stale: Vec::new() }, ws)
}

fn rect_of(d: &Desktop, id: u64) -> Rect {
    d.get_rect(handle(id)).expect("window should be present")
}

#[test]
fn six_windows_on_a_quad_hd_desktop() {
    // 6 windows, 2560 x 1440: three 853-wide columns per row, rows 720 tall
    let (mut d, ws) = desktop_of(6);
    let snap = arrange_on(&mut d, &ws, 2560, 1440).expect("six windows arrange");
    assert_eq!(snap.len(), 6);
    assert_eq!(rect_of(&d, 1), Rect { left: 0, top: 0, right: 853, bottom: 720 });
    assert_eq!(rect_of(&d, 2), Rect { left: 853, top: 0, right: 1706, bottom: 720 });
    assert_eq!(rect_of(&d, 3), Rect { left: 1706, top: 0, right: 2559, bottom: 720 });
    assert_eq!(rect_of(&d, 4), Rect { left: 0, top: 720, right: 853, bottom: 1440 });
    assert_eq!(rect_of(&d, 5), Rect { left: 853, top: 720, right: 1706, bottom: 1440 });
    assert_eq!(rect_of(&d, 6), Rect { left: 1706, top: 720, right: 2559, bottom: 1440 });
}

#[test]
fn row_counts_split_as_floor_halves() {
    let g = GridPass::begin(5, 2560, 1440).expect("five windows arrange");
    // first row floor(5/2) = 2 columns of 1280, second row 3 columns of 853
    assert_eq!(g.w1, 1280);
    assert_eq!(g.w2, 853);
    let g6 = GridPass::begin(6, 2560, 1440).expect("six windows arrange");
    assert_eq!(g6.w1, 853);
    assert_eq!(g6.w2, 853);
}

#[test]
fn five_windows_rows_are_two_then_three() {
    let (mut d, ws) = desktop_of(5);
    arrange_on(&mut d, &ws, 2560, 1440).expect("five windows arrange");
    assert_eq!(rect_of(&d, 1), Rect { left: 0, top: 0, right: 1280, bottom: 720 });
    assert_eq!(rect_of(&d, 2), Rect { left: 1280, top: 0, right: 2560, bottom: 720 });
    assert_eq!(rect_of(&d, 3), Rect { left: 0, top: 720, right: 853, bottom: 1440 });
    assert_eq!(rect_of(&d, 4), Rect { left: 853, top: 720, right: 1706, bottom: 1440 });
    assert_eq!(rect_of(&d, 5), Rect { left: 1706, top: 720, right: 2559, bottom: 1440 });
}

#[test]
fn two_windows_stack_full_width() {
    let (mut d, ws) = desktop_of(2);
    arrange_on(&mut d, &ws, 2560, 1440).expect("two windows arrange");
    assert_eq!(rect_of(&d, 1), Rect { left: 0, top: 0, right: 2560, bottom: 720 });
    assert_eq!(rect_of(&d, 2), Rect { left: 0, top: 720, right: 2560, bottom: 1440 });
}

#[test]
fn fewer_than_two_windows_is_a_no_op() {
    let (mut d, ws) = desktop_of(1);
    let before = rect_of(&d, 1);
    assert!(arrange_on(&mut d, &ws, 2560, 1440).is_none());
    assert_eq!(rect_of(&d, 1), before);
    let (mut empty, none) = desktop_of(0);
    assert!(arrange_on(&mut empty, &none, 2560, 1440).is_none());
}

#[test]
fn column_widths_cover_the_desktop_to_within_truncation() {
    let g = GridPass::begin(6, 2560, 1440).expect("six windows arrange");
    // three columns of 853 span 2559: within one remainder (< 3) of 2560
    assert_eq!(3 * g.w1, 2559);
    assert!(3 * g.w1 <= 2560);
    assert!(2560 - 3 * g.w1 < 3);
}

#[test]
fn tiny_desktop_wraps_late_when_columns_overshoot_the_remainder() {
    // 30 windows on a 100-wide desktop: the column width 100 / 15 = 6 does
    // not exceed the remainder 10, so the wrap fires only after sixteen
    // placements and the first row holds one window more than floor(n/2)
    let (mut d, ws) = desktop_of(30);
    arrange_on(&mut d, &ws, 100, 1440).expect("thirty windows arrange");
    assert_eq!(rect_of(&d, 16), Rect { left: 90, top: 0, right: 96, bottom: 720 });
    assert_eq!(rect_of(&d, 17), Rect { left: 0, top: 720, right: 6, bottom: 1440 });
}

#[test]
fn arrange_snapshot_holds_prior_rectangles_in_order() {
    let (mut d, ws) = desktop_of(3);
    let snap = arrange_on(&mut d, &ws, 2560, 1440).expect("three windows arrange");
    assert_eq!(snap.len(), 3);
    for (k, entry) in snap.iter().enumerate() {
        let id = (k + 1) as u64;
        assert_eq!(entry.0, handle(id));
        assert_eq!(entry.1, start_rect(id));
    }
}
