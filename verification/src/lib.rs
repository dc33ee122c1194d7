//! Doodle and sticky notes on the wallpaper layer of a Wayland desktop.
//!
//! The library holds everything that is decided: the annotation model and its hit testing, the
//! editing session, the control protocol, and what a frame has to repaint. Talking to the
//! compositor, to the file system and to the rasteriser is left to the program around it.
//!
//! Coordinates are logical pixels in the 24.8 fixed-point format that Wayland delivers pointer
//! positions in: one pixel is [`geometry::PX`] units. Rectangles are counted in parts of a unit.

pub mod app;
pub mod buffer;
pub mod canvas;
pub mod capsule;
pub mod damage;
pub mod distance;
pub mod document;
pub mod events;
pub mod frames;
pub mod geometry;
pub mod hint;
pub mod input;
pub mod ipc;
pub mod laws;
pub mod layout;
pub mod overlay;
pub mod paint;
pub mod region;
pub mod render;
pub mod session;
pub mod settings;
pub mod store;
pub mod surfaces;
pub mod text;
pub mod typeset;
pub mod typing;
