//! Live thermal imagery from a FLIR One camera on a Linux framebuffer: frame
//! reassembly and normalisation, the Ironbow palette, and drawing.
pub mod args;
pub mod display;
pub mod frame;
pub mod font;
pub mod frame_laws;
pub mod paint;
pub mod palette;
