use gridis::desktop::Desktop;
use gridis::geom::MonitorInfo;
use gridis::geom::Rect;
use gridis::geom::WindowHandle;
use gridis::passes::arrange_on;
use gridis::passes::swap_on;
use gridis::passes::undo_on;
use gridis::swap::DEFAULT_TOP_BOUNDARY;

fn handle(id: u64) -> WindowHandle {
    WindowHandle { id }
}

fn start_rect(id: u64) -> Rect {
    let k = id as i32;
    Rect { left: 25 * k, top: 35 * k, right: 25 * k + 600, bottom: 35 * k + 450 }
}

fn desktop_of(n: u64) -> (Desktop, Vec<WindowHandle>) {
    let mut table = Vec::new();
    let mut ws = Vec::new();
    for id in 1..=n {
        table.push((handle(id), start_rect(id)));
        ws.push(handle(id));
    }
    (Desktop { table, stale: Vec::new() }, ws)
}

#[test]
fn undo_after_arrange_restores_every_rectangle() {
    let (mut d, ws) = desktop_of(6);
    let snap = arrange_on(&mut d, &ws, 2560, 1440).expect("six windows arrange");
    assert_ne!(d.get_rect(handle(1)), Some(start_rect(1)));
    undo_on(&mut d, &snap);
    for id in 1..=6 {
        assert_eq!(d.get_rect(handle(id)), Some(start_rect(id)));
    }
}

#[test]
fn undo_after_swap_restores_every_rectangle() {
    let monitors = vec![
        MonitorInfo { x: 0, y: 0, width: 2560, height: 1440, is_primary: true },
        MonitorInfo { x: 0, y: -1440, width: 2560, height: 1440, is_primary: false },
    ];
    let r1 = Rect { left: 0, top: 0, right: 2560, bottom: 1440 };
    let r2 = Rect { left: 0, top: -1440, right: 1280, bottom: -720 };
    let h1 = handle(1);
    let h2 = handle(2);
    let mut d = Desktop { table: vec![(h1, r1), (h2, r2)], stale: Vec::new() };
    let snap = swap_on(&mut d, &vec![h1, h2], &monitors, DEFAULT_TOP_BOUNDARY);
    undo_on(&mut d, &snap);
    assert_eq!(d.get_rect(h1), Some(r1));
    assert_eq!(d.get_rect(h2), Some(r2));
}

#[test]
fn failed_window_is_contained_and_absent_from_snapshot() {
    // one stale handle mid-pass: the others are still processed and
    // snapshotted, the stale one keeps its rectangle and is not recorded
    let (mut d, ws) = desktop_of(3);
    d.stale.push(handle(2));
    let snap = arrange_on(&mut d, &ws, 2560, 1440).expect("three windows arrange");
    assert_eq!(snap.len(), 2);
    assert!(snap.iter().all(|e| e.0 != handle(2)));
    assert_eq!(snap[0], (handle(1), start_rect(1)));
    assert_eq!(snap[1], (handle(3), start_rect(3)));
    assert_eq!(d.get_rect(handle(2)), None);
    // the skipped window consumed no grid cell: the pass places its two
    // successes in the first two cells — one full-width row-0 column
    // (floor(3/2) = 1), then the first of two 1280-wide row-1 columns
    assert_eq!(
        d.table.iter().find(|e| e.0 == handle(1)).map(|e| e.1),
        Some(Rect { left: 0, top: 0, right: 2560, bottom: 720 })
    );
    assert_eq!(
        d.table.iter().find(|e| e.0 == handle(3)).map(|e| e.1),
        Some(Rect { left: 0, top: 720, right: 1280, bottom: 1440 })
    );
}

#[test]
fn undo_skips_handles_that_went_stale_and_restores_the_rest() {
    let (mut d, ws) = desktop_of(4);
    let snap = arrange_on(&mut d, &ws, 2560, 1440).expect("four windows arrange");
    let arranged_2 = d.table.iter().find(|e| e.0 == handle(2)).map(|e| e.1);
    d.stale.push(handle(2));
    undo_on(&mut d, &snap);
    assert_eq!(d.get_rect(handle(1)), Some(start_rect(1)));
    assert_eq!(d.table.iter().find(|e| e.0 == handle(2)).map(|e| e.1), arranged_2);
    assert_eq!(d.get_rect(handle(3)), Some(start_rect(3)));
    assert_eq!(d.get_rect(handle(4)), Some(start_rect(4)));
}

#[test]
fn calls_on_absent_handles_fail() {
    let (mut d, _) = desktop_of(1);
    let ghost_window = handle(99);
    assert_eq!(d.get_rect(ghost_window), None);
    assert!(!d.set_rect(ghost_window, start_rect(1)));
    assert!(d.show(ghost_window));
    assert_eq!(d.get_rect(handle(1)), Some(start_rect(1)));
}

#[test]
fn undo_replays_the_snapshot_verbatim() {
    let h = handle(7);
    let stored = Rect { left: 5, top: 6, right: 105, bottom: 206 };
    let mut d = Desktop {
        table: vec![(h, Rect { left: 0, top: 0, right: 50, bottom: 50 })],
        stale: Vec::new(),
    };
    undo_on(&mut d, &vec![(h, stored)]);
    assert_eq!(d.get_rect(h), Some(stored));
}
