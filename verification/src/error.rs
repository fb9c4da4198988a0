use vstd::prelude::*;
use crate::window::WindowId;

verus! {

/// Why a render pass stopped.
#[derive(Debug, PartialEq, Eq)]
pub enum Error {
    /// A widget names a window that has no record.
    WindowNotFound(WindowId),
    /// The widget of the given window failed to draw; the message is the
    /// widget's own.
    RenderError(WindowId, String),
    /// The device did not take the frame.
    DeviceError,
}

/// An `Error`, with its message as a sequence of characters.
pub enum Failure {
    WindowNotFound(WindowId),
    RenderError(WindowId, Seq<char>),
    DeviceError,
}

impl View for Error {
    type V = Failure;

    open spec fn view(&self) -> Failure {
        match self {
            Error::WindowNotFound(id) => Failure::WindowNotFound(*id),
            Error::RenderError(id, message) => Failure::RenderError(*id, message@),
            Error::DeviceError => Failure::DeviceError,
        }
    }
}

/// What a render pass, or the start of the display, comes to once the device
/// has answered: a device that did not take what it was given is a
/// `DeviceError`.
pub fn device_outcome(accepted: bool) -> (done: Result<(), Error>)
    ensures
        accepted ==> done is Ok,
        !accepted ==> (done matches Err(e) && e@ == Failure::DeviceError),
{
    if accepted {
        Ok(())
    } else {
        Err(Error::DeviceError)
    }
}

} // verus!
