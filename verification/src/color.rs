use vstd::prelude::*;

verus! {

/// One record of the color table: a 24-bit packed color, the three 8-bit
/// channels it was packed from, and how many pixels of the image carry it.
#[derive(Debug, Clone, Copy, PartialEq, Eq, Structural, Default)]
pub struct ColorChannel {
    pub rgb: u32,
    pub red: u8,
    pub grn: u8,
    pub blu: u8,
    pub cnt: usize,
}

/// The names of the three color channels.
#[derive(Debug, Clone, Copy, PartialEq, Eq, Structural)]
pub enum Color {
    Red,
    Green,
    Blue,
}

/// The 24-bit packing of three channels into one word: the red channel in
/// the low byte, then green, then blue.
pub open spec fn pack_rgb(red: u8, grn: u8, blu: u8) -> u32 {
    (red as u32) | ((grn as u32) << 8) | ((blu as u32) << 16)
}

/// Strips the high (alpha) byte of a packed word, keeping the low 24 bits.
pub open spec fn mask24(p: u32) -> u32 {
    p & 0x00FF_FFFF
}

/// The channel of an entry that a `Color` selects.
pub open spec fn chan(c: ColorChannel, which: Color) -> u8 {
    match which {
        Color::Red => c.red,
        Color::Green => c.grn,
        Color::Blue => c.blu,
    }
}

/// A well-formed table entry: the packed word agrees with the channels and
/// at least one pixel carries the color.
pub open spec fn entry_inv(c: ColorChannel) -> bool {
    c.rgb == pack_rgb(c.red, c.grn, c.blu) && c.cnt >= 1
}

/// A packed value never exceeds 24 bits, and masking leaves it unchanged.
pub proof fn lemma_pack_rgb_bounds(red: u8, grn: u8, blu: u8)
    ensures
        pack_rgb(red, grn, blu) < 0x0100_0000,
        mask24(pack_rgb(red, grn, blu)) == pack_rgb(red, grn, blu),
{
    let r = red as u32;
    let g = grn as u32;
    let b = blu as u32;
    assert(r < 256 && g < 256 && b < 256 ==> (r | (g << 8) | (b << 16)) < 0x0100_0000)
        by (bit_vector);
    assert(r < 256 && g < 256 && b < 256 ==> ((r | (g << 8) | (b << 16)) & 0x00FF_FFFF) == (r | (g
        << 8) | (b << 16))) by (bit_vector);
}

/// Two triples of channels that pack to the same word are the same triple.
pub proof fn lemma_pack_rgb_injective(r1: u8, g1: u8, b1: u8, r2: u8, g2: u8, b2: u8)
    requires
        pack_rgb(r1, g1, b1) == pack_rgb(r2, g2, b2),
    ensures
        r1 == r2 && g1 == g2 && b1 == b2,
{
    assert(((r1 as u32) | ((g1 as u32) << 8) | ((b1 as u32) << 16)) == ((r2 as u32) | ((g2 as u32)
        << 8) | ((b2 as u32) << 16)) ==> r1 == r2 && g1 == g2 && b1 == b2) by (bit_vector);
}

/// Masking a word twice is the same as masking it once.
pub proof fn lemma_mask24_idempotent(p: u32)
    ensures
        mask24(mask24(p)) == mask24(p),
{
    assert(((p & 0x00FF_FFFF) & 0x00FF_FFFF) == (p & 0x00FF_FFFF)) by (bit_vector);
}

impl ColorChannel {
    /// Builds an entry from a packed word, masking out the alpha byte and
    /// unpacking the three channels.
    pub fn new_rgb(rgb: u32, cnt: usize) -> (r: ColorChannel)
        ensures
            r.rgb == mask24(rgb),
            r.red == (rgb & 0xFF) as u8,
            r.grn == ((rgb & 0xFF00) >> 8) as u8,
            r.blu == ((rgb & 0x00FF_0000) >> 16) as u8,
            r.rgb == pack_rgb(r.red, r.grn, r.blu),
            r.cnt == cnt,
    {
        let red = (rgb & 0xFF) as u8;
        let grn = ((rgb & 0xFF00) >> 8) as u8;
        let blu = ((rgb & 0x00FF_0000) >> 16) as u8;
        proof {
            assert((rgb & 0x00FF_FFFF) == (((rgb & 0xFF) as u8 as u32) | ((((rgb & 0xFF00) >> 8)
                as u8 as u32) << 8) | ((((rgb & 0x00FF_0000) >> 16) as u8 as u32) << 16)))
                by (bit_vector);
        }
        ColorChannel { rgb: rgb & 0x00FF_FFFF, red, grn, blu, cnt }
    }

    /// Builds an entry from three channel values, packing them into one word.
    pub fn new_colors(red: u8, grn: u8, blu: u8, cnt: usize) -> (r: ColorChannel)
        ensures
            r.red == red,
            r.grn == grn,
            r.blu == blu,
            r.cnt == cnt,
            r.rgb == pack_rgb(red, grn, blu),
    {
        ColorChannel {
            rgb: (red as u32) | ((grn as u32) << 8) | ((blu as u32) << 16),
            red,
            grn,
            blu,
            cnt,
        }
    }
}

} // verus!
