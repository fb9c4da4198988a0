use vstd::prelude::*;
use crate::error::Failure;
use crate::layout::{position, Windows};
use crate::surface::{Bitmap, Surface};
use crate::widget::{lowers, Widget};
use crate::window::{Window, WindowId};

verus! {

/// The state of a render pass: the records as they stand, and the frame as far
/// as it is composed.
pub struct Pass {
    pub windows: Windows,
    pub frame: Surface,
}

/// How a render pass failed: the reason, and the records as the pass left
/// them. The frame is discarded.
pub struct Halt {
    pub failure: Failure,
    pub windows: Windows,
}

/// What a widget handed back, as mathematics sees it.
pub open spec fn outcome(drawn: Result<Bitmap, String>) -> Result<Surface, Seq<char>> {
    match drawn {
        Ok(bitmap) => Ok(bitmap@),
        Err(message) => Err(message@),
    }
}

/// The record `w` with the size of `surface`.
pub open spec fn sized(w: Window, surface: Surface) -> Window {
    Window { size: (surface.width as usize, surface.height() as usize), ..w }
}

impl Pass {
    /// The start of a pass over the given records: nothing is composed yet.
    pub open spec fn start(windows: Windows) -> Pass {
        Pass { windows, frame: Surface::blank(0, 0) }
    }

    /// The pass after the widget of window `id` has drawn `drawn`. Without a
    /// record for `id`, or with a failure in place of a surface, the pass
    /// stops and nothing changes. Otherwise the record takes the size of the
    /// surface, and the surface is copied into the frame at the position of
    /// the window.
    pub open spec fn place(self, id: WindowId, drawn: Result<Surface, Seq<char>>) -> Result<Pass, Halt> {
        if !self.windows.contains_key(id) {
            Err(Halt { failure: Failure::WindowNotFound(id), windows: self.windows })
        } else {
            match drawn {
                Err(message) => Err(
                    Halt { failure: Failure::RenderError(id, message), windows: self.windows },
                ),
                Ok(surface) => {
                    let window = sized(self.windows[id], surface);
                    let windows = self.windows.insert(id, window);
                    let at = position(windows, window);
                    Ok(Pass { windows, frame: self.frame.blit(surface, at.0 as int, at.1 as int) })
                },
            }
        }
    }

    /// Whether placing `drawn` for window `id` stays within what the machine
    /// can count: the position of the window fits a `usize`, and so do the
    /// coordinates at which the pixels copied there end.
    pub open spec fn place_fits(self, id: WindowId, drawn: Result<Surface, Seq<char>>) -> bool {
        self.windows.contains_key(id) ==> match drawn {
            Err(_) => true,
            Ok(surface) => {
                let window = sized(self.windows[id], surface);
                let at = position(self.windows.insert(id, window), window);
                &&& at.0 <= usize::MAX
                &&& at.1 <= usize::MAX
                &&& surface.has_pixels() ==> at.0 + surface.width <= usize::MAX && at.1
                    + surface.height() <= usize::MAX
            },
        }
    }

    /// The pass after the widget `w` alone was visited: its window is looked
    /// up, it draws for the record found, and what it drew is placed.
    pub open spec fn visit<W: Widget>(self, w: W) -> Result<Pass, Halt> {
        self.place(w.window(), w.drawn(self.windows[w.window()]))
    }

    /// Whether visiting the widget `w` stays within what the machine can
    /// count.
    pub open spec fn visit_fits<W: Widget>(self, w: W) -> bool {
        self.place_fits(w.window(), w.drawn(self.windows[w.window()]))
    }
}

/// A render pass over the tree below `w`, from the state `st`: `w` is
/// visited, then its children in order, each with all below it. The first
/// failure stops the pass.
pub open spec fn compose<W: Widget>(w: W, st: Pass) -> Result<Pass, Halt>
    decreases w.levels(), w.nodes().len() + 1,
{
    match st.visit(w) {
        Err(halt) => Err(halt),
        Ok(next) => compose_from(w, 0, next),
    }
}

/// The part of a render pass that goes over the children of `w` from the
/// `i`-th on.
pub open spec fn compose_from<W: Widget>(w: W, i: nat, st: Pass) -> Result<Pass, Halt>
    decreases w.levels(), w.nodes().len() - i,
    when lowers(w)
{
    if i >= w.nodes().len() {
        Ok(st)
    } else {
        match compose(w.nodes()[i as int], st) {
            Err(halt) => Err(halt),
            Ok(next) => compose_from(w, i + 1, next),
        }
    }
}

/// Whether a render pass over the tree below `w`, from the state `st`, stays
/// within what the machine can count at every widget it visits.
pub open spec fn fits<W: Widget>(w: W, st: Pass) -> bool
    decreases w.levels(), w.nodes().len() + 1,
{
    &&& st.visit_fits(w)
    &&& match st.visit(w) {
        Err(_) => true,
        Ok(next) => fits_from(w, 0, next),
    }
}

/// `fits`, for the children of `w` from the `i`-th on.
pub open spec fn fits_from<W: Widget>(w: W, i: nat, st: Pass) -> bool
    decreases w.levels(), w.nodes().len() - i,
    when lowers(w)
{
    i < w.nodes().len() ==> {
        &&& fits(w.nodes()[i as int], st)
        &&& match compose(w.nodes()[i as int], st) {
            Err(_) => true,
            Ok(next) => fits_from(w, i + 1, next),
        }
    }
}

/// The records as a render pass over the tree below `w` leaves them when it
/// goes only as far as the machine can count: it stops before the first
/// drawing that does not fit, as it stops at the first failure.
pub open spec fn left_by<W: Widget>(w: W, st: Pass) -> Windows
    decreases w.levels(), w.nodes().len() + 1,
{
    if !st.visit_fits(w) {
        st.windows
    } else {
        match st.visit(w) {
            Err(halt) => halt.windows,
            Ok(next) => left_by_from(w, 0, next),
        }
    }
}

/// `left_by`, for the children of `w` from the `i`-th on.
pub open spec fn left_by_from<W: Widget>(w: W, i: nat, st: Pass) -> Windows
    decreases w.levels(), w.nodes().len() - i,
    when lowers(w)
{
    if i >= w.nodes().len() {
        st.windows
    } else if !fits(w.nodes()[i as int], st) {
        left_by(w.nodes()[i as int], st)
    } else {
        match compose(w.nodes()[i as int], st) {
            Err(halt) => halt.windows,
            Ok(next) => left_by_from(w, i + 1, next),
        }
    }
}

} // verus!
