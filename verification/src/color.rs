//! RGBA colours and the packed 32-bit form the text shaper hands out.

use vstd::prelude::*;

verus! {

/// One pixel colour: red, green, blue and alpha, eight bits each.
#[derive(Clone, Copy, PartialEq, Eq, Structural, Debug)]
pub struct Rgba {
    pub r: u8,
    pub g: u8,
    pub b: u8,
    pub a: u8,
}

/// The channels held in a colour packed as 0xAARRGGBB, the layout the
/// text shaper uses for glyph colours.
pub open spec fn spec_unpack(c: u32) -> Rgba {
    Rgba {
        r: ((c >> 16) & 0xff) as u8,
        g: ((c >> 8) & 0xff) as u8,
        b: (c & 0xff) as u8,
        a: ((c >> 24) & 0xff) as u8,
    }
}

/// The 0xAARRGGBB word that holds the four channels.
pub open spec fn spec_pack(p: Rgba) -> u32 {
    (((p.a as u32) << 24) | ((p.r as u32) << 16) | ((p.g as u32) << 8) | (p.b as u32))
}

impl Rgba {
    /// Read the four channels out of a packed 0xAARRGGBB word.
    pub fn unpack(c: u32) -> (p: Rgba)
        ensures
            p == spec_unpack(c),
    {
        proof {
            assert((c >> 16) & 0xff < 256 && (c >> 8) & 0xff < 256 && (c >> 24) & 0xff < 256)
                by (bit_vector);
        }
        Rgba {
            r: ((c >> 16) & 0xff) as u8,
            g: ((c >> 8) & 0xff) as u8,
            b: (c & 0xff) as u8,
            a: ((c >> 24) & 0xff) as u8,
        }
    }

    /// Pack the four channels into one 0xAARRGGBB word.
    pub fn pack(self) -> (c: u32)
        ensures
            c == spec_pack(self),
    {
        ((self.a as u32) << 24) | ((self.r as u32) << 16) | ((self.g as u32) << 8)
            | (self.b as u32)
    }
}

/// Unpacking a packed colour gives the channels back: the word is a
/// faithful carrier for a colour.
pub proof fn lemma_unpack_pack(p: Rgba)
    ensures
        spec_unpack(spec_pack(p)) == p,
{
    let a = p.a;
    let r = p.r;
    let g = p.g;
    let b = p.b;
    let c = spec_pack(p);
    assert(((((a as u32) << 24) | ((r as u32) << 16) | ((g as u32) << 8) | (b as u32)) >> 16)
        & 0xff == r) by (bit_vector);
    assert(((((a as u32) << 24) | ((r as u32) << 16) | ((g as u32) << 8) | (b as u32)) >> 8)
        & 0xff == g) by (bit_vector);
    assert((((a as u32) << 24) | ((r as u32) << 16) | ((g as u32) << 8) | (b as u32)) & 0xff
        == b) by (bit_vector);
    assert(((((a as u32) << 24) | ((r as u32) << 16) | ((g as u32) << 8) | (b as u32)) >> 24)
        & 0xff == a) by (bit_vector);
}

/// Packing the channels read out of a word gives the word back: no
/// information outside the four channels exists in the packed form.
pub proof fn lemma_pack_unpack(c: u32)
    ensures
        spec_pack(spec_unpack(c)) == c,
{
    assert(((((c >> 24) & 0xff) as u8 as u32) << 24) | ((((c >> 16) & 0xff) as u8 as u32) << 16)
        | ((((c >> 8) & 0xff) as u8 as u32) << 8) | ((c & 0xff) as u8 as u32) == c)
        by (bit_vector);
}

} // verus!
