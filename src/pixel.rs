use vstd::prelude::*;

verus! {

/// A pixel with red, green, blue and alpha channels.
#[derive(Clone, Copy, Debug, PartialEq, Eq, Structural)]
pub struct PixelRGBA(pub u8, pub u8, pub u8, pub u8);

/// An opaque-only pixel: red, green and blue; alpha comes from context.
#[derive(Clone, Copy, Debug, PartialEq, Eq, Structural)]
pub struct PixelRGB(pub u8, pub u8, pub u8);

/// Slot of the pixel-history cache that a pixel belongs to.
pub open spec fn hash_spec(p: PixelRGBA) -> int {
    (3 * p.0 + 5 * p.1 + 7 * p.2 + 11 * p.3) % 64
}

/// An integer taken modulo 256, as an octet.
pub open spec fn wrap(x: int) -> u8 {
    (x % 256) as u8
}

/// Slot of the pixel-history cache that a pixel belongs to.
pub fn pixel_hash(p: PixelRGBA) -> (r: usize)
    ensures
        r as int == hash_spec(p),
        r < 64,
{
    ((p.0 as u32 * 3 + p.1 as u32 * 5 + p.2 as u32 * 7 + p.3 as u32 * 11) % 64) as usize
}

/// `(a + b + c) mod 256`, where `c` is a non-negative constant offset.
pub fn add_wrap(a: u8, b: u8, c: u8) -> (r: u8)
    ensures
        r == wrap(a + b + c),
{
    ((a as u32 + b as u32 + c as u32) % 256) as u8
}

} // verus!
