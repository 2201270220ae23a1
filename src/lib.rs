//! A monochrome keyboard display: an in-memory framebuffer of binary pixels
//! with clipped writes and bit-packed serialization, and the pure parts of the
//! USB protocol that pushes a framebuffer to the device.
pub mod oled;
pub mod oled_buffer;

pub use oled_buffer::{BufferError, OledBuffer, OledPixel};
