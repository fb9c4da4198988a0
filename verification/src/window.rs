use vstd::prelude::*;

verus! {

/// Identifier of a window. The registry hands the identifiers out, and none
/// twice.
pub type WindowId = u32;

/// How a window is placed on the device.
#[derive(Clone, Copy, Debug, PartialEq, Eq, Structural)]
pub enum Position {
    /// Absolute device coordinates; the parent plays no part.
    Fixed(usize, usize),
    /// An offset from the point directly below the parent: to the right of the
    /// parent's left edge, and down from its bottom edge.
    Relative(usize, usize),
    /// Directly below the parent, flush with its left edge.
    Normal,
}

/// The record of one rectangular region of the device.
#[derive(Clone, Copy, Debug, PartialEq, Eq)]
pub struct Window {
    /// The rule that places the window. It is set when the window is created.
    pub position: Position,
    /// Width and height of what the window's widget drew in the last render
    /// pass; `(0, 0)` before the first. Every pass writes it anew.
    pub size: (usize, usize),
    /// A hint for the order of windows. Composing does not read it: widgets
    /// are drawn in the order of the widget tree.
    pub z: u32,
    /// Whether the window has the focus. The caller sets it, and the widget
    /// sees it when it draws.
    pub focus: bool,
    /// The id under which the registry holds the record.
    pub id: WindowId,
    /// The id of the window above this one. It is a name and no more: the
    /// parent may have no record, or may have lost it.
    pub parent: WindowId,
}

} // verus!
