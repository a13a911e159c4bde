use vstd::prelude::*;
use crate::pixel::{PixelRGB, PixelRGBA};

verus! {

/// Color-space flag of the header; carried through, never used in arithmetic.
#[derive(Clone, Copy, Debug, PartialEq, Eq, Structural)]
pub enum ColorSpace {
    SRGB,
    Linear,
}

/// Channel-count flag of the header: opaque-only or with alpha.
#[derive(Clone, Copy, Debug, PartialEq, Eq, Structural)]
pub enum Channels {
    RGB,
    RGBA,
}

/// Biased deltas of a small-diff chunk: red, green, blue, each 0..3 standing for -2..1.
#[derive(Clone, Copy, Debug, PartialEq, Eq, Structural)]
pub struct DiffRGB(pub u8, pub u8, pub u8);

/// A luma-diff chunk: green delta biased by 32 (0..63), then red and blue deltas
/// taken from the green one, each biased by 8 (0..15).
#[derive(Clone, Copy, Debug, PartialEq, Eq, Structural)]
pub struct Luma(pub u8, pub u8, pub u8);

/// One unit of the compressed stream.
#[derive(Clone, Copy, Debug, PartialEq, Eq, Structural)]
pub enum Chunk {
    RGB(PixelRGB),
    RGBA(PixelRGBA),
    /// A slot of the pixel-history cache, 0..63.
    Index(u8),
    Diff(DiffRGB),
    Luma(Luma),
    /// A run of `n + 1` copies of the previous pixel.
    Run(u8),
}

/// Why a byte stream could not be read as an image.
#[derive(Clone, Copy, Debug, PartialEq, Eq, Structural)]
pub enum DecodeError {
    IncompleteHeader,
    BadMagic,
    InvalidChannels,
    InvalidColorspace,
    UnexpectedEndOfStream,
    MalformedTag,
}

/// An image as its header and its sequence of chunks.
pub struct QOIImage {
    pub width: u32,
    pub height: u32,
    pub channels: Channels,
    pub color_space: ColorSpace,
    pub data: Vec<Chunk>,
}

/// Every payload field of the chunk fits the bit width the byte layout gives it.
pub open spec fn chunk_wf(c: Chunk) -> bool {
    match c {
        Chunk::RGB(_) => true,
        Chunk::RGBA(_) => true,
        Chunk::Index(i) => i < 64,
        Chunk::Diff(DiffRGB(r, g, b)) => r < 4 && g < 4 && b < 4,
        Chunk::Luma(Luma(dg, dr, db)) => dg < 64 && dr < 16 && db < 16,
        Chunk::Run(n) => n < 62,
    }
}

pub open spec fn chunks_wf(cs: Seq<Chunk>) -> bool {
    forall|i: int| 0 <= i < cs.len() ==> #[trigger] chunk_wf(cs[i])
}

/// The mathematical value of an image: its header fields and its chunks.
pub struct ImageSpec {
    pub width: u32,
    pub height: u32,
    pub channels: Channels,
    pub color_space: ColorSpace,
    pub data: Seq<Chunk>,
}

impl View for QOIImage {
    type V = ImageSpec;

    open spec fn view(&self) -> ImageSpec {
        ImageSpec {
            width: self.width,
            height: self.height,
            channels: self.channels,
            color_space: self.color_space,
            data: self.data@,
        }
    }
}

impl QOIImage {
    /// The image can be written out: every chunk fits its byte layout.
    pub open spec fn wf(&self) -> bool {
        chunks_wf(self.data@)
    }

    /// Whether every chunk fits its byte layout, as `serialize` and `to_rgba_mat` need.
    pub fn is_valid(&self) -> (r: bool)
        ensures
            r == self.wf(),
    {
        let mut i: usize = 0;
        while i < self.data.len()
            invariant
                i <= self.data@.len(),
                forall|k: int| 0 <= k < i ==> #[trigger] chunk_wf(self.data@[k]),
            decreases self.data@.len() - i,
        {
            let ok = match self.data[i] {
                Chunk::RGB(_) => true,
                Chunk::RGBA(_) => true,
                Chunk::Index(n) => n < 64,
                Chunk::Diff(DiffRGB(r, g, b)) => r < 4 && g < 4 && b < 4,
                Chunk::Luma(Luma(dg, dr, db)) => dg < 64 && dr < 16 && db < 16,
                Chunk::Run(n) => n < 62,
            };
            if !ok {
                assert(!chunk_wf(self.data@[i as int]));
                return false;
            }
            i = i + 1;
        }
        true
    }
}

} // verus!
