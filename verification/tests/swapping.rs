use gridis::desktop::Desktop;
use gridis::geom::MonitorInfo;
use gridis::geom::Rect;
use gridis::geom::WindowHandle;
use gridis::geom::tdiv64;
use gridis::passes::swap_on;
use gridis::swap::DEFAULT_TOP_BOUNDARY;
use gridis::swap::find_monitor;
use gridis::swap::swap_window_rect;

fn bottom_primary() -> MonitorInfo {
    MonitorInfo { x: 0, y: 0, width: 2560, height: 1440, is_primary: true }
}

fn top_secondary() -> MonitorInfo {
    MonitorInfo { x: 0, y: -1440, width: 2560, height: 1440, is_primary: false }
}

fn monitors() -> Vec<MonitorInfo> {
    vec![bottom_primary(), top_secondary()]
}

#[test]
fn full_screen_window_moves_to_the_other_monitor() {
    // top edge 0 is below the boundary, so the window counts as sitting on
    // the primary (lower) monitor and moves onto the secondary one
    let r = Rect { left: 0, top: 0, right: 2560, bottom: 1440 };
    let out = swap_window_rect(&r, &monitors(), DEFAULT_TOP_BOUNDARY).expect("both monitors exist");
    assert_eq!(out, Rect { left: 0, top: -1440, right: 2560, bottom: 0 });
}

#[test]
fn upper_window_moves_down_to_the_primary() {
    let r = Rect { left: 0, top: -1440, right: 2560, bottom: 0 };
    let out = swap_window_rect(&r, &monitors(), DEFAULT_TOP_BOUNDARY).expect("both monitors exist");
    assert_eq!(out, Rect { left: 0, top: 0, right: 2560, bottom: 1440 });
}

#[test]
fn swap_round_trip_is_exact_for_aligned_windows() {
    // a window on the monitor origin whose extent is an exact multiple of
    // the monitor extent comes back bit-exactly after two swaps
    let r = Rect { left: 0, top: 0, right: 2560, bottom: 1440 };
    let ms = monitors();
    let once = swap_window_rect(&r, &ms, DEFAULT_TOP_BOUNDARY).expect("both monitors exist");
    let twice = swap_window_rect(&once, &ms, DEFAULT_TOP_BOUNDARY).expect("both monitors exist");
    assert_eq!(twice, r);
}

#[test]
fn truncating_proportions_collapse_small_offsets() {
    // a window smaller than the monitor has integer proportion zero: the
    // swap parks it on the target origin with zero extent — the known
    // precision loss of the integer transform
    let r = Rect { left: 100, top: 10, right: 1380, bottom: 730 };
    let out = swap_window_rect(&r, &monitors(), DEFAULT_TOP_BOUNDARY).expect("both monitors exist");
    assert_eq!(out, Rect { left: 0, top: -1440, right: 0, bottom: -1440 });
}

#[test]
fn boundary_classifies_slight_overhang_as_upper() {
    // top edge exactly at the boundary belongs to the upper region
    let r = Rect { left: 0, top: DEFAULT_TOP_BOUNDARY, right: 2560, bottom: 1440 };
    let out = swap_window_rect(&r, &monitors(), DEFAULT_TOP_BOUNDARY).expect("both monitors exist");
    // treated as already on the secondary: its target is the primary, and
    // the fifteen-pixel overhang truncates away in the proportions
    assert_eq!(out, Rect { left: 0, top: 0, right: 2560, bottom: 1440 });
}

#[test]
fn swap_without_a_secondary_monitor_declines() {
    let ms = vec![bottom_primary()];
    let r = Rect { left: 0, top: 0, right: 2560, bottom: 1440 };
    assert!(swap_window_rect(&r, &ms, DEFAULT_TOP_BOUNDARY).is_none());
}

#[test]
fn find_monitor_picks_the_first_match() {
    let ms = vec![top_secondary(), bottom_primary(), top_secondary()];
    assert_eq!(find_monitor(&ms, true), Some(1));
    assert_eq!(find_monitor(&ms, false), Some(0));
    assert_eq!(find_monitor(&vec![bottom_primary()], false), None);
}

#[test]
fn swap_pass_updates_desktop_and_snapshots_prior_rects() {
    let r1 = Rect { left: 0, top: 0, right: 2560, bottom: 1440 };
    let r2 = Rect { left: 0, top: -1440, right: 2560, bottom: 0 };
    let h1 = WindowHandle { id: 1 };
    let h2 = WindowHandle { id: 2 };
    let mut d = Desktop { table: vec![(h1, r1), (h2, r2)], stale: Vec::new() };
    let snap = swap_on(&mut d, &vec![h1, h2], &monitors(), DEFAULT_TOP_BOUNDARY);
    assert_eq!(snap, vec![(h1, r1), (h2, r2)]);
    assert_eq!(d.get_rect(h1), Some(r2));
    assert_eq!(d.get_rect(h2), Some(r1));
}

#[test]
fn truncating_division_rounds_toward_zero() {
    assert_eq!(tdiv64(7, 2), 3);
    assert_eq!(tdiv64(-7, 2), -3);
    assert_eq!(tdiv64(-1, 2560), 0);
    assert_eq!(tdiv64(0, 5), 0);
}
