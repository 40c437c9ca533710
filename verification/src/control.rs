use vstd::prelude::*;

use crate::geom::Rect;
use crate::geom::WindowHandle;

verus! {

/// The discrete triggers the control surface can send.
#[derive(Clone, Copy, PartialEq, Eq, Structural, Debug)]
pub enum Message {
    ToggleGui,
    LayoutSelected(usize),
    ArrangeWindows,
    SwapMonitors,
    Undo,
}

/// The core operation a trigger maps to. Each mutates operating-system
/// state, so the caller performs it and hands the resulting snapshot back.
#[derive(Clone, Copy, PartialEq, Eq, Structural, Debug)]
pub enum Operation {
    Arrange,
    Swap,
    Undo,
}

/// The state the controller owns: the window list discovered at startup,
/// the single most recent snapshot, and whether the control surface shows.
pub struct AppState {
    pub windows: Vec<WindowHandle>,
    pub snapshot: Vec<(WindowHandle, Rect)>,
    pub show_gui: bool,
}

/// The core operation each trigger maps to; selecting a layout is currently
/// inert and toggling only flips the visibility flag.
pub open spec fn operation_for(msg: Message) -> Option<Operation> {
    match msg {
        Message::ToggleGui => None,
        Message::LayoutSelected(_) => None,
        Message::ArrangeWindows => Some(Operation::Arrange),
        Message::SwapMonitors => Some(Operation::Swap),
        Message::Undo => Some(Operation::Undo),
    }
}

pub open spec fn gui_after(msg: Message, shown: bool) -> bool {
    if msg == Message::ToggleGui {
        !shown
    } else {
        shown
    }
}

impl AppState {
    /// The initial state: the discovered windows, no snapshot yet, the
    /// control surface shown.
    pub fn new(windows: Vec<WindowHandle>) -> (s: AppState)
        ensures
            s.windows@ == windows@,
            s.snapshot@ == Seq::<(WindowHandle, Rect)>::empty(),
            s.show_gui,
    {
        AppState { windows, snapshot: Vec::new(), show_gui: true }
    }

    /// Handles one trigger: flips the visibility flag on a toggle, leaves
    /// everything else untouched, and names the core operation the caller
    /// must now perform, if the trigger asks for one.
    pub fn update(&mut self, msg: Message) -> (op: Option<Operation>)
        ensures
            op == operation_for(msg),
            final(self).windows@ == old(self).windows@,
            final(self).snapshot@ == old(self).snapshot@,
            final(self).show_gui == gui_after(msg, old(self).show_gui),
    {
        match msg {
            Message::ToggleGui => {
                self.show_gui = !self.show_gui;
                None
            },
            Message::LayoutSelected(_) => None,
            Message::ArrangeWindows => Some(Operation::Arrange),
            Message::SwapMonitors => Some(Operation::Swap),
            Message::Undo => Some(Operation::Undo),
        }
    }

    /// Stores the snapshot a mutating operation produced, discarding the
    /// previous one: this is a single-level undo, not a history stack.
    pub fn store_snapshot(&mut self, snap: Vec<(WindowHandle, Rect)>)
        ensures
            final(self).snapshot@ == snap@,
            final(self).windows@ == old(self).windows@,
            final(self).show_gui == old(self).show_gui,
    {
        self.snapshot = snap;
    }
}

} // verus!
