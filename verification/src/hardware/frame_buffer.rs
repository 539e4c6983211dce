//! Pixel addressing in a linear frame buffer of four bytes per pixel.
//!
//! The buffer is handled as a slice of bytes that starts at the buffer's
//! base address; turning the address into that slice is the caller's part.

use vstd::prelude::*;

verus! {

/// Byte offset of the pixel at column `x` of row `y` from the buffer's base.
pub open spec fn pixel_offset(pixels_per_scan_line: int, x: int, y: int) -> int {
    (x + y * pixels_per_scan_line) * 4
}

/// `frame` with `first`, `second` and `third` stored at offset `at` and the
/// two bytes behind it.
pub open spec fn painted(frame: Seq<u8>, at: int, first: u8, second: u8, third: u8) -> Seq<u8> {
    frame.update(at, first).update(at + 1, second).update(at + 2, third)
}

/// A pixel that lies inside a buffer has an offset that fits the machine word.
proof fn lemma_pixel_in_reach(frame: &[u8], pixels_per_scan_line: usize, x: usize, y: usize)
    requires
        pixel_offset(pixels_per_scan_line as int, x as int, y as int) + 3 <= frame@.len(),
    ensures
        0 <= y * pixels_per_scan_line,
        (x + y * pixels_per_scan_line) * 4 + 3 <= usize::MAX,
{
    broadcast use vstd::slice::axiom_spec_len;

    assert(frame@.len() == vstd::slice::spec_slice_len(frame));
    assert(0 <= y * pixels_per_scan_line) by (nonlinear_arith);
}

/// Stores `rgb` at pixel `(x, y)` of a buffer whose pixels hold red first.
pub fn write_pixel_rgb(
    pixels_per_scan_line: usize,
    horizontal_resolution: usize,
    vertical_resolution: usize,
    pixel_base: &mut [u8],
    x: usize,
    y: usize,
    rgb: [u8; 3],
)
    requires
        pixel_offset(pixels_per_scan_line as int, x as int, y as int) + 3 <= old(pixel_base)@.len(),
    ensures
        final(pixel_base)@ == painted(
            old(pixel_base)@,
            pixel_offset(pixels_per_scan_line as int, x as int, y as int),
            rgb[0],
            rgb[1],
            rgb[2],
        ),
{
    proof {
        lemma_pixel_in_reach(pixel_base, pixels_per_scan_line, x, y);
    }
    let pixel_pos = x + y * pixels_per_scan_line;
    for idx in 0..3usize
        invariant
            pixel_pos == x + y * pixels_per_scan_line,
            pixel_pos * 4 + 3 <= pixel_base@.len(),
            pixel_pos * 4 + 3 <= usize::MAX,
            pixel_base@.len() == old(pixel_base)@.len(),
            forall|i: int|
                0 <= i < pixel_base@.len() ==> pixel_base@[i] == (if pixel_pos * 4 <= i
                    < pixel_pos * 4 + idx {
                    rgb[i - pixel_pos * 4]
                } else {
                    old(pixel_base)@[i]
                }),
    {
        pixel_base[pixel_pos * 4 + idx] = rgb[idx];
    }
}

/// Stores `rgb` at pixel `(x, y)` of a buffer whose pixels hold blue first.
pub fn write_pixel_bgr(
    pixels_per_scan_line: usize,
    horizontal_resolution: usize,
    vertical_resolution: usize,
    pixel_base: &mut [u8],
    x: usize,
    y: usize,
    rgb: [u8; 3],
)
    requires
        pixel_offset(pixels_per_scan_line as int, x as int, y as int) + 3 <= old(pixel_base)@.len(),
    ensures
        final(pixel_base)@ == painted(
            old(pixel_base)@,
            pixel_offset(pixels_per_scan_line as int, x as int, y as int),
            rgb[2],
            rgb[1],
            rgb[0],
        ),
{
    proof {
        lemma_pixel_in_reach(pixel_base, pixels_per_scan_line, x, y);
    }
    let pixel_pos = x + y * pixels_per_scan_line;
    for idx in 0..3usize
        invariant
            pixel_pos == x + y * pixels_per_scan_line,
            pixel_pos * 4 + 3 <= pixel_base@.len(),
            pixel_pos * 4 + 3 <= usize::MAX,
            pixel_base@.len() == old(pixel_base)@.len(),
            forall|i: int|
                0 <= i < pixel_base@.len() ==> pixel_base@[i] == (if pixel_pos * 4 <= i
                    < pixel_pos * 4 + idx {
                    rgb[2 - (i - pixel_pos * 4)]
                } else {
                    old(pixel_base)@[i]
                }),
    {
        pixel_base[pixel_pos * 4 + idx] = rgb[2 - idx];
    }
}

/// Order of the colour channels within a pixel.
#[derive(Debug, Clone, Copy)]
pub enum PixelFormat {
    RGBReserved8BitParColor,
    BGRReserved8BitParColor,
}

/// Which of the two pixel writers a configuration dispatches to.
#[derive(Debug, Clone, Copy)]
pub enum PixelWriter {
    RgbFirst,
    BgrFirst,
}

/// The writer that stores the channels in the order of `pixel_format`.
pub open spec fn writer_for(pixel_format: PixelFormat) -> PixelWriter {
    match pixel_format {
        PixelFormat::RGBReserved8BitParColor => PixelWriter::RgbFirst,
        PixelFormat::BGRReserved8BitParColor => PixelWriter::BgrFirst,
    }
}

/// A linear frame buffer: where it lies, how it is laid out, and how its
/// pixels are written.
#[derive(Debug)]
pub struct FrameBufferConfig {
    base: usize,
    pixels_per_scan_line: usize,
    horizontal_resolution: usize,
    vertical_resolution: usize,
    pixel_format: PixelFormat,
    writer: PixelWriter,
}

/// What a `FrameBufferConfig` holds.
pub struct FrameBufferView {
    pub base: int,
    pub pixels_per_scan_line: int,
    pub horizontal_resolution: int,
    pub vertical_resolution: int,
    pub pixel_format: PixelFormat,
    pub writer: PixelWriter,
}

impl View for FrameBufferConfig {
    type V = FrameBufferView;

    closed spec fn view(&self) -> FrameBufferView {
        FrameBufferView {
            base: self.base as int,
            pixels_per_scan_line: self.pixels_per_scan_line as int,
            horizontal_resolution: self.horizontal_resolution as int,
            vertical_resolution: self.vertical_resolution as int,
            pixel_format: self.pixel_format,
            writer: self.writer,
        }
    }
}

impl FrameBufferConfig {
    /// A configuration for the buffer at `base`, with the writer that matches
    /// `pixel_format`.
    pub fn new(
        base: usize,
        pixels_per_scan_line: usize,
        horizontal_resolution: usize,
        vertical_resolution: usize,
        pixel_format: PixelFormat,
    ) -> (config: Self)
        ensures
            config@ == (FrameBufferView {
                base: base as int,
                pixels_per_scan_line: pixels_per_scan_line as int,
                horizontal_resolution: horizontal_resolution as int,
                vertical_resolution: vertical_resolution as int,
                pixel_format,
                writer: writer_for(pixel_format),
            }),
    {
        FrameBufferConfig {
            base: base,
            pixels_per_scan_line: pixels_per_scan_line,
            horizontal_resolution: horizontal_resolution,
            vertical_resolution: vertical_resolution,
            pixel_format: pixel_format,
            writer: match pixel_format {
                PixelFormat::RGBReserved8BitParColor => PixelWriter::RgbFirst,
                PixelFormat::BGRReserved8BitParColor => PixelWriter::BgrFirst,
            },
        }
    }

    /// Selects the writer that matches the pixel format. A configuration made
    /// by `new` has it already, and stays as it is.
    pub fn init(&mut self)
        ensures
            final(self)@ == (FrameBufferView {
                writer: writer_for(old(self)@.pixel_format),
                ..old(self)@
            }),
    {
        self.writer = match self.pixel_format {
            PixelFormat::RGBReserved8BitParColor => PixelWriter::RgbFirst,
            PixelFormat::BGRReserved8BitParColor => PixelWriter::BgrFirst,
        };
    }

    /// Stores the colour `rgb` at pixel `(x, y)` of `frame`, the bytes of this
    /// buffer from its base address on, in the channel order of the selected
    /// writer. No other byte changes.
    pub fn write_pixel(&mut self, frame: &mut [u8], x: usize, y: usize, rgb: [u8; 3])
        requires
            pixel_offset(old(self)@.pixels_per_scan_line, x as int, y as int) + 3 <= old(
                frame,
            )@.len(),
        ensures
            *final(self) == *old(self),
            final(frame)@ == (match old(self)@.writer {
                PixelWriter::RgbFirst => painted(
                    old(frame)@,
                    pixel_offset(old(self)@.pixels_per_scan_line, x as int, y as int),
                    rgb[0],
                    rgb[1],
                    rgb[2],
                ),
                PixelWriter::BgrFirst => painted(
                    old(frame)@,
                    pixel_offset(old(self)@.pixels_per_scan_line, x as int, y as int),
                    rgb[2],
                    rgb[1],
                    rgb[0],
                ),
            }),
    {
        match self.writer {
            PixelWriter::RgbFirst => write_pixel_rgb(
                self.pixels_per_scan_line,
                self.horizontal_resolution,
                self.vertical_resolution,
                frame,
                x,
                y,
                rgb,
            ),
            PixelWriter::BgrFirst => write_pixel_bgr(
                self.pixels_per_scan_line,
                self.horizontal_resolution,
                self.vertical_resolution,
                frame,
                x,
                y,
                rgb,
            ),
        }
    }

    /// Width of the visible area in pixels.
    pub fn get_horizontal_resolution(&self) -> (width: usize)
        ensures
            width == self@.horizontal_resolution,
    {
        self.horizontal_resolution
    }

    /// Height of the visible area in pixels.
    pub fn get_vertical_resolution(&self) -> (height: usize)
        ensures
            height == self@.vertical_resolution,
    {
        self.vertical_resolution
    }

    /// Copies this configuration, field by field, over `heap`.
    pub fn heap_clone(&self, heap: &mut FrameBufferConfig)
        ensures
            final(heap)@ == self@,
    {
        heap.base = self.base;
        heap.pixels_per_scan_line = self.pixels_per_scan_line;
        heap.horizontal_resolution = self.horizontal_resolution;
        heap.vertical_resolution = self.vertical_resolution;
        heap.pixel_format = self.pixel_format;
        heap.writer = self.writer
    }
}

} // verus!
