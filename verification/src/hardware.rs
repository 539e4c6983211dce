//! What the kernel knows of the machine it runs on.

pub mod frame_buffer;

pub use frame_buffer::{
    write_pixel_bgr, write_pixel_rgb, FrameBufferConfig, PixelFormat, PixelWriter,
};
