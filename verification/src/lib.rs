//! Windows on one small display: a registry of windows, the rule that places
//! each window below its parent, and the render pass that lets every widget of
//! a tree draw and composes the drawings into one frame.
//!
//! - `window`: the record of a window, and the rules that place it.
//! - `surface`: the pixel buffer that widgets draw and frames are made of.
//! - `layout`: the absolute position of a window, from its rule and its
//!   ancestors.
//! - `registry`: what a display manager holds, as mathematics sees it.
//! - `widget`: what a render pass asks of the caller's widgets.
//! - `compose`: the render pass, step by step, as mathematics sees it.
//! - `manager`: the display manager itself.
//! - `tree`, `pass_laws`: what holds of a render pass over a whole tree.
//! - `error`: why a render pass stops.

pub mod window;
pub mod surface;
pub mod error;
pub mod layout;
pub mod registry;
pub mod widget;
pub mod compose;
pub mod tree;
pub mod pass_laws;
pub mod manager;

pub use error::Error;
pub use manager::DisplayManager;
pub use surface::Bitmap;
pub use widget::Widget;
pub use window::{Position, Window, WindowId};
