use gridis::filter::WS_EX_APPWINDOW;
use gridis::filter::WS_EX_TOOLWINDOW;
use gridis::filter::WS_EX_WINDOWEDGE;
use gridis::filter::WindowRecord;
use gridis::filter::filter_windows;
use gridis::filter::should_include;
use gridis::geom::Rect;
use gridis::geom::WindowHandle;

fn record(id: u64) -> WindowRecord {
    WindowRecord {
        handle: WindowHandle { id },
        title: String::from("Editor"),
        visible: true,
        show_cmd: 1,
        ex_style: WS_EX_APPWINDOW,
        rect: Rect { left: 10, top: 20, right: 400, bottom: 300 },
    }
}

#[test]
fn included_when_all_conditions_hold() {
    assert!(should_include(&record(1)));
}

#[test]
fn excluded_when_invisible() {
    let mut r = record(1);
    r.visible = false;
    assert!(!should_include(&r));
}

#[test]
fn excluded_when_title_empty() {
    let mut r = record(1);
    r.title = String::new();
    assert!(!should_include(&r));
}

#[test]
fn excluded_when_placement_hidden() {
    let mut r = record(1);
    r.show_cmd = 0;
    assert!(!should_include(&r));
}

#[test]
fn excluded_when_rect_unset() {
    let mut r = record(1);
    r.rect = Rect { left: 0, top: 0, right: 0, bottom: 0 };
    assert!(!should_include(&r));
}

#[test]
fn excluded_when_edge_sum_cancels_to_zero() {
    // the degeneracy rule is about the coordinate sum, not each edge
    let mut r = record(1);
    r.rect = Rect { left: 10, top: -10, right: 5, bottom: -5 };
    assert!(!should_include(&r));
}

#[test]
fn excluded_when_tool_window_bit_set() {
    let mut r = record(1);
    r.ex_style = WS_EX_APPWINDOW | WS_EX_TOOLWINDOW;
    assert!(!should_include(&r));
}

#[test]
fn excluded_when_no_qualifying_style() {
    let mut r = record(1);
    r.ex_style = 0;
    assert!(!should_include(&r));
}

#[test]
fn included_by_exact_window_edge_style() {
    let mut r = record(1);
    r.ex_style = WS_EX_WINDOWEDGE;
    assert!(should_include(&r));
}

#[test]
fn window_edge_must_be_exact() {
    // window-edge combined with any other bit does not qualify by itself
    let mut r = record(1);
    r.ex_style = WS_EX_WINDOWEDGE | 0x0000_0200;
    assert!(!should_include(&r));
}

#[test]
fn included_by_exception_title_despite_styles() {
    let mut r = record(1);
    r.ex_style = 0;
    r.title = String::from("WhatsApp");
    assert!(should_include(&r));
}

#[test]
fn exception_title_must_match_exactly() {
    let mut r = record(1);
    r.ex_style = 0;
    r.title = String::from("WhatsApp Beta");
    assert!(!should_include(&r));
}

#[test]
fn filter_keeps_enumeration_order_and_drops_failures() {
    let mut bad = record(2);
    bad.visible = false;
    let records = vec![record(1), bad, record(3)];
    let handles = filter_windows(&records);
    assert_eq!(handles.len(), 2);
    assert_eq!(handles[0], WindowHandle { id: 1 });
    assert_eq!(handles[1], WindowHandle { id: 3 });
}
