pub mod decoder;
pub mod encoder;
pub mod image;
pub mod laws;
pub mod pixel;
pub mod stream;

pub use image::{Channels, Chunk, ColorSpace, DecodeError, DiffRGB, ImageSpec, Luma, QOIImage};
pub use pixel::{PixelRGB, PixelRGBA};
