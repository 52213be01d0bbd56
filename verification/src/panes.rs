//! Pane state models of the surrounding application, kept as plain data.
//!
//! The application shows a capture form and an editor, each with a sidebar;
//! these types carry the state the store's callers hold per pane.  Nothing
//! here renders: rendering belongs to the application.

use vstd::prelude::*;

verus! {

/// The capture form pane.
#[derive(Default, Debug, Clone, Copy, PartialEq, Eq, Structural)]
pub struct CapturePane;

impl CapturePane {
    pub fn new() -> (r: Self)
        ensures
            r == (CapturePane {  }),
    {
        Self {  }
    }
}

/// The sidebar beside the capture form.
#[derive(Default, Debug, Clone, Copy, PartialEq, Eq, Structural)]
pub struct CaptureSidebar;

impl CaptureSidebar {
    pub fn new() -> (r: Self)
        ensures
            r == (CaptureSidebar {  }),
    {
        Self {  }
    }
}

/// A generic content pane.
#[derive(Default, Debug, Clone, Copy, PartialEq, Eq, Structural)]
pub struct Pane;

impl Pane {
    pub fn new() -> (r: Self)
        ensures
            r == (Pane {  }),
    {
        Self {  }
    }
}

/// A generic sidebar pane.
#[derive(Default, Debug, Clone, Copy, PartialEq, Eq, Structural)]
pub struct Sidebar;

impl Sidebar {
    pub fn new() -> (r: Self)
        ensures
            r == (Sidebar {  }),
    {
        Self {  }
    }
}

/// The editor pane; visible from the start.
#[derive(Default, Debug, Clone, Copy, PartialEq, Eq, Structural)]
pub struct EditorPane {
    pub is_visible: bool,
}

impl EditorPane {
    pub fn new() -> (r: Self)
        ensures
            r.is_visible,
    {
        Self { is_visible: true }
    }
}

/// The sidebar beside the editor; visible from the start.
#[derive(Default, Debug, Clone, Copy, PartialEq, Eq, Structural)]
pub struct EditorSidebar {
    pub is_visible: bool,
}

impl EditorSidebar {
    pub fn new() -> (r: Self)
        ensures
            r.is_visible,
    {
        Self { is_visible: true }
    }
}

} // verus!
