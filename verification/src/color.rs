use vstd::prelude::*;

verus! {

/// The packed `0x00RRGGBB` value of three 8-bit channels.
pub open spec fn packed(r: u8, g: u8, b: u8) -> int {
    r as int * 0x10000 + g as int * 0x100 + b as int
}

/// Packs three 8-bit color channels into one `0x00RRGGBB` pixel, the layout
/// the window expects: red in bits 16..24, green in bits 8..16, blue in
/// bits 0..8 and a zero top byte.
pub fn to_u32(r: u8, g: u8, b: u8) -> (pixel: u32)
    ensures
        pixel == packed(r, g, b),
        pixel >> 16u32 == r as u32,
        (pixel >> 8u32) & 0xffu32 == g as u32,
        pixel & 0xffu32 == b as u32,
        pixel < 0x100_0000,
{
    let (r32, g32, b32) = (r as u32, g as u32, b as u32);
    let pixel = (r32 << 16u32) | (g32 << 8u32) | b32;
    assert(pixel == r32 * 0x10000 + g32 * 0x100 + b32 && pixel >> 16u32 == r32
        && (pixel >> 8u32) & 0xffu32 == g32 && pixel & 0xffu32 == b32 && pixel < 0x100_0000)
        by (bit_vector)
        requires
            r32 < 256 && g32 < 256 && b32 < 256,
            pixel == (r32 << 16u32) | (g32 << 8u32) | b32,
    ;
    pixel
}

} // verus!
