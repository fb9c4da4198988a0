use vstd::prelude::*;
use crate::surface::{Bitmap, Surface};
use crate::window::{Window, WindowId};

verus! {

/// A node of the caller's widget tree. Each node draws into one window. The
/// nodes of one tree are of one type; a tree of several kinds of widgets takes
/// an enum of them.
///
/// The three executable methods are what a render pass calls. Each has a
/// specification function beside it that names what it returns; unless an
/// implementation defines them, nothing is known of these but that they depend
/// on the widget (and, for `drawn`, on the window record) alone. An
/// implementation owes that its methods return what the names say, and that
/// `levels` drops from each node to its children, which makes the tree finite.
pub trait Widget: Sized {
    /// The id of the window that this widget draws into.
    open spec fn window(&self) -> WindowId {
        arbitrary::<spec_fn(Self) -> WindowId>()(*self)
    }

    /// The children of this widget, in the order in which they are drawn.
    open spec fn nodes(&self) -> Seq<Self> {
        arbitrary::<spec_fn(Self) -> Seq<Self>>()(*self)
    }

    /// A bound on the number of levels of the tree below this widget.
    open spec fn levels(&self) -> nat {
        arbitrary::<spec_fn(Self) -> nat>()(*self)
    }

    /// What this widget draws when it is handed the record `window`: a surface,
    /// or the message of a failure.
    open spec fn drawn(&self, window: Window) -> Result<Surface, Seq<char>> {
        arbitrary::<spec_fn(Self, Window) -> Result<Surface, Seq<char>>>()(*self, window)
    }

    /// The id of the window that this widget draws into.
    fn windowid(&self) -> (id: WindowId)
        ensures
            id == self.window(),
    ;

    /// The children of this widget, in the order in which they are to be
    /// drawn.
    fn children(&self) -> (kids: Vec<&Self>)
        ensures
            kids@.len() == self.nodes().len(),
            forall|i: int| 0 <= i < kids@.len() ==> *(#[trigger] kids@[i]) == self.nodes()[i],
            forall|i: int|
                0 <= i < self.nodes().len() ==> (#[trigger] self.nodes()[i]).levels() < self.levels(),
    ;

    /// Draws the widget. `window` is the record of the widget's window as it
    /// stands; the size in it is that of the last drawing.
    fn render(&self, window: &Window) -> (drawn: Result<Bitmap, String>)
        ensures
            match drawn {
                Ok(bitmap) => self.drawn(*window) == Ok::<Surface, Seq<char>>(bitmap@),
                Err(message) => self.drawn(*window) == Err::<Surface, Seq<char>>(message@),
            },
    ;
}

/// Whether each child of `w` lies on a lower level than `w`.
pub open spec fn lowers<W: Widget>(w: W) -> bool {
    forall|i: int| 0 <= i < w.nodes().len() ==> (#[trigger] w.nodes()[i]).levels() < w.levels()
}

} // verus!
