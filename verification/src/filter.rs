use vstd::prelude::*;
use vstd::string::StrSliceExecFns;
use vstd::string::StringExecFns;

use crate::geom::Rect;
use crate::geom::WindowHandle;

verus! {

/// Extended style bit marking a tool window; such windows are never arranged.
pub const WS_EX_TOOLWINDOW: u32 = 0x0000_0080;

/// Extended style bit marking a window that asks to appear in the task bar.
pub const WS_EX_APPWINDOW: u32 = 0x0004_0000;

/// Extended style bit for a window with a raised border edge.
pub const WS_EX_WINDOWEDGE: u32 = 0x0000_0100;

/// Everything the inclusion filter reads about one enumerated top-level
/// window. The record is transient: it only serves the inclusion decision.
#[derive(Debug)]
pub struct WindowRecord {
    pub handle: WindowHandle,
    /// The window's title text.
    pub title: String,
    /// Whether the window is currently visible.
    pub visible: bool,
    /// The placement show state; zero means hidden.
    pub show_cmd: u32,
    /// The window's extended style bits.
    pub ex_style: u32,
    /// The window's bounding rectangle.
    pub rect: Rect,
}

/// The title that is included regardless of its style bits: an allowance for
/// one third-party application whose style bits do not otherwise match.
pub open spec fn exception_title_view() -> Seq<char> {
    "WhatsApp"@
}

/// The exception title as an executable value.
pub fn exception_title() -> (t: String)
    ensures
        t@ == exception_title_view(),
{
    String::from_str("WhatsApp")
}

/// The inclusion rule of the window directory: a window is retained only if
/// it is visible, titled, shown, has a rectangle that is not plainly unset,
/// is not a tool window, and either carries exactly the window-edge style,
/// carries the app-window bit, or bears the exception title.
pub open spec fn included(r: WindowRecord) -> bool {
    &&& r.visible
    &&& r.title@.len() > 0
    &&& r.show_cmd > 0
    &&& r.rect.left + r.rect.top + r.rect.right + r.rect.bottom != 0
    &&& r.ex_style & WS_EX_TOOLWINDOW == 0
    &&& {
        ||| r.ex_style == WS_EX_WINDOWEDGE
        ||| r.ex_style & WS_EX_APPWINDOW != 0
        ||| r.title@ == exception_title_view()
    }
}

/// Decides inclusion for one enumerated window.
pub fn should_include(r: &WindowRecord) -> (b: bool)
    ensures
        b == included(*r),
{
    let visible_ok = r.visible;
    let nonempty = r.title.as_str().unicode_len() > 0;
    let shown = r.show_cmd > 0;
    let coord_sum = r.rect.left as i64 + r.rect.top as i64 + r.rect.right as i64
        + r.rect.bottom as i64;
    let nondegenerate = coord_sum != 0;
    let not_tool = r.ex_style & WS_EX_TOOLWINDOW == 0;
    let edge_exact = r.ex_style == WS_EX_WINDOWEDGE;
    let app_window = r.ex_style & WS_EX_APPWINDOW != 0;
    let exception = exception_title();
    let title_exception = r.title == exception;
    visible_ok && nonempty && shown && nondegenerate && not_tool
        && (edge_exact || app_window || title_exception)
}

/// The handles of the included records, in enumeration order.
pub open spec fn discovered(rs: Seq<WindowRecord>) -> Seq<WindowHandle>
    decreases rs.len(),
{
    if rs.len() == 0 {
        Seq::empty()
    } else {
        let prefix = discovered(rs.drop_last());
        if included(rs.last()) {
            prefix.push(rs.last().handle)
        } else {
            prefix
        }
    }
}

/// Applies the inclusion filter to every enumerated record, keeping
/// enumeration order. This is the computational half of window discovery;
/// the caller supplies the records the operating system reported.
pub fn filter_windows(records: &Vec<WindowRecord>) -> (v: Vec<WindowHandle>)
    ensures
        v@ == discovered(records@),
{
    let mut v: Vec<WindowHandle> = Vec::new();
    let mut i: usize = 0;
    while i < records.len()
        invariant
            i <= records@.len(),
            v@ == discovered(records@.take(i as int)),
        decreases records@.len() - i,
    {
        proof {
            assert(records@.take(i + 1).drop_last() =~= records@.take(i as int));
            assert(records@.take(i + 1).last() == records@[i as int]);
        }
        if should_include(&records[i]) {
            v.push(records[i].handle);
        }
        i += 1;
    }
    proof {
        assert(records@.take(records@.len() as int) =~= records@);
    }
    v
}

} // verus!
