//! The integer side of the GPU stamp pass: colors packed into 32-bit words as the shader reads
//! them, the mode codes it switches on, the buffers of texels and coverage, and the texels read
//! back.

use crate::renderer::paint_pipeline::{BrushBlendMode, BrushFalloff};
use crate::renderer::texture::Texture;
use vstd::prelude::*;

verus! {

/// The word of an RGBA8 color: red in the low byte, alpha in the high one.
pub open spec fn packed_rgba(c: [u8; 4]) -> int {
    c[0] as int + c[1] as int * 0x100 + c[2] as int * 0x1_0000 + c[3] as int * 0x100_0000
}

/// Byte `k` (0 = lowest) of a word.
pub open spec fn word_byte(v: u32, k: int) -> u8 {
    if k == 0 {
        (v % 0x100) as u8
    } else if k == 1 {
        ((v / 0x100) % 0x100) as u8
    } else if k == 2 {
        ((v / 0x1_0000) % 0x100) as u8
    } else {
        (v / 0x100_0000) as u8
    }
}

/// Whether `c` is the color whose word is `v`.
pub open spec fn unpacks_to(v: u32, c: [u8; 4]) -> bool {
    &&& c[0] == word_byte(v, 0)
    &&& c[1] == word_byte(v, 1)
    &&& c[2] == word_byte(v, 2)
    &&& c[3] == word_byte(v, 3)
}

/// Packs an RGBA8 color into the word the shader reads.
pub fn pack_color_rgba(color: [u8; 4]) -> (v: u32)
    ensures
        v as int == packed_rgba(color),
{
    let r = color[0];
    let g = color[1];
    let b = color[2];
    let a = color[3];
    let v = (r as u32) | ((g as u32) << 8) | ((b as u32) << 16) | ((a as u32) << 24);
    assert(v == r as u32 + (g as u32) * 0x100 + (b as u32) * 0x1_0000 + (a as u32) * 0x100_0000) by (bit_vector)
        requires
            v == (r as u32) | ((g as u32) << 8) | ((b as u32) << 16) | ((a as u32) << 24),
    ;
    v
}

/// The RGBA8 color of a word the shader wrote.
pub fn unpack_color_rgba(v: u32) -> (c: [u8; 4])
    ensures
        unpacks_to(v, c),
{
    let r = (v & 0xff) as u8;
    let g = ((v >> 8) & 0xff) as u8;
    let b = ((v >> 16) & 0xff) as u8;
    let a = ((v >> 24) & 0xff) as u8;
    assert(v & 0xff == v % 0x100) by (bit_vector);
    assert((v >> 8) & 0xff == (v / 0x100) % 0x100) by (bit_vector);
    assert((v >> 16) & 0xff == (v / 0x1_0000) % 0x100) by (bit_vector);
    assert((v >> 24) & 0xff == v / 0x100_0000) by (bit_vector);
    [r, g, b, a]
}

/// Unpacking the word of a color gives the color back, and packing the color of a word gives
/// the word back.
pub proof fn lemma_pack_unpack_roundtrip(c: [u8; 4], v: u32, d: [u8; 4])
    ensures
        0 <= packed_rgba(c) <= u32::MAX,
        unpacks_to(packed_rgba(c) as u32, c),
        unpacks_to(v, d) ==> packed_rgba(d) == v,
{
    let (r, g, b, a) = (c[0], c[1], c[2], c[3]);
    let w = packed_rgba(c) as u32;
    assert(packed_rgba(c) <= u32::MAX);
    assert(r as int + g as int * 0x100 + b as int * 0x1_0000 + a as int * 0x100_0000 == w);
    assert(w % 0x100 == r && (w / 0x100) % 0x100 == g && (w / 0x1_0000) % 0x100 == b && w / 0x100_0000 == a) by (bit_vector)
        requires
            w == r as u32 + (g as u32) * 0x100 + (b as u32) * 0x1_0000 + (a as u32) * 0x100_0000,
    ;
    if unpacks_to(v, d) {
        let (r2, g2, b2, a2) = (d[0], d[1], d[2], d[3]);
        assert(v == r2 as u32 + (g2 as u32) * 0x100 + (b2 as u32) * 0x1_0000 + (a2 as u32) * 0x100_0000) by (bit_vector)
            requires
                r2 as u32 == v % 0x100,
                g2 as u32 == (v / 0x100) % 0x100,
                b2 as u32 == (v / 0x1_0000) % 0x100,
                a2 as u32 == v / 0x100_0000,
        ;
    }
}

/// The code of a blend mode in the shader.
pub open spec fn blend_code(mode: BrushBlendMode) -> u32 {
    match mode {
        BrushBlendMode::Normal => 0,
        BrushBlendMode::Multiply => 1,
        BrushBlendMode::Screen => 2,
    }
}

/// The code of a falloff curve in the shader.
pub open spec fn falloff_code(mode: BrushFalloff) -> u32 {
    match mode {
        BrushFalloff::Smooth => 0,
        BrushFalloff::Sphere => 1,
        BrushFalloff::Root => 2,
        BrushFalloff::Sharp => 3,
        BrushFalloff::Linear => 4,
        BrushFalloff::Constant => 5,
    }
}

pub fn blend_to_u32(mode: BrushBlendMode) -> (code: u32)
    ensures
        code == blend_code(mode),
{
    match mode {
        BrushBlendMode::Normal => 0,
        BrushBlendMode::Multiply => 1,
        BrushBlendMode::Screen => 2,
    }
}

pub fn falloff_to_u32(mode: BrushFalloff) -> (code: u32)
    ensures
        code == falloff_code(mode),
{
    match mode {
        BrushFalloff::Smooth => 0,
        BrushFalloff::Sphere => 1,
        BrushFalloff::Root => 2,
        BrushFalloff::Sharp => 3,
        BrushFalloff::Linear => 4,
        BrushFalloff::Constant => 5,
    }
}

/// No two modes share a code, so the shader tells every mode apart.
pub proof fn lemma_mode_codes_distinct(a: BrushBlendMode, b: BrushBlendMode, f: BrushFalloff, g: BrushFalloff)
    ensures
        blend_code(a) == blend_code(b) ==> a == b,
        falloff_code(f) == falloff_code(g) ==> f == g,
        blend_code(a) < 3,
        falloff_code(f) < 6,
{
}

/// How many workgroups of 64 cover `pixel_count` texels: `pixel_count / 64`, rounded up.
pub fn workgroup_count(pixel_count: u32) -> (n: u32)
    ensures
        n as int == (pixel_count as int + 63) / 64,
{
    let whole = pixel_count / 64;
    if pixel_count % 64 == 0 {
        whole
    } else {
        whole + 1
    }
}

/// The texels of `texture` as shader words, row-major.
pub fn pack_texture_pixels(texture: &Texture) -> (words: Vec<u32>)
    ensures
        words@.len() == texture.spec_pixels().len(),
        forall|i: int| 0 <= i < words@.len() ==> #[trigger] words@[i] as int == packed_rgba(texture.spec_pixels()[i]),
{
    let pixels = texture.pixels();
    let n = pixels.len();
    let mut words: Vec<u32> = Vec::new();
    let mut i: usize = 0;
    while i < n
        invariant
            i <= n,
            n == pixels@.len(),
            pixels@ == texture.spec_pixels(),
            words@.len() == i,
            forall|k: int| 0 <= k < i ==> #[trigger] words@[k] as int == packed_rgba(pixels@[k]),
        decreases n - i,
    {
        words.push(pack_color_rgba(pixels[i]));
        i += 1;
    }
    words
}

/// The coverage map as shader words: 1 for a covered texel, 0 for another.
pub fn coverage_words(coverage: &Vec<bool>) -> (words: Vec<u32>)
    ensures
        words@.len() == coverage@.len(),
        forall|i: int| 0 <= i < words@.len() ==> #[trigger] words@[i] == (if coverage@[i] { 1u32 } else { 0u32 }),
{
    let n = coverage.len();
    let mut words: Vec<u32> = Vec::new();
    let mut i: usize = 0;
    while i < n
        invariant
            i <= n,
            n == coverage@.len(),
            words@.len() == i,
            forall|k: int| 0 <= k < i ==> #[trigger] words@[k] == (if coverage@[k] { 1u32 } else { 0u32 }),
        decreases n - i,
    {
        words.push(if coverage[i] { 1u32 } else { 0u32 });
        i += 1;
    }
    words
}

/// Takes the words the shader wrote back into `texture`. When their number is not the
/// texture's, nothing changes and false is returned.
pub fn apply_readback(texture: &mut Texture, words: &Vec<u32>) -> (ok: bool)
    ensures
        ok == (words@.len() == old(texture).spec_pixels().len()),
        final(texture).spec_width() == old(texture).spec_width(),
        final(texture).spec_height() == old(texture).spec_height(),
        final(texture).spec_pixels().len() == old(texture).spec_pixels().len(),
        ok ==> forall|i: int|
            0 <= i < words@.len() ==> unpacks_to(words@[i], #[trigger] final(texture).spec_pixels()[i]),
        !ok ==> final(texture).spec_pixels() == old(texture).spec_pixels(),
{
    let n = texture.pixels().len();
    if words.len() != n {
        return false;
    }
    let mut i: usize = 0;
    while i < n
        invariant
            i <= n,
            n == words@.len(),
            texture.spec_pixels().len() == n,
            texture.spec_width() == old(texture).spec_width(),
            texture.spec_height() == old(texture).spec_height(),
            forall|k: int| 0 <= k < i ==> unpacks_to(words@[k], #[trigger] texture.spec_pixels()[k]),
        decreases n - i,
    {
        let c = unpack_color_rgba(words[i]);
        texture.set_pixel_at(i, c);
        i += 1;
    }
    true
}

/// Reading back the very words that were uploaded leaves a texture as it was.
pub proof fn lemma_readback_of_upload(pixels: Seq<[u8; 4]>, words: Seq<u32>, back: Seq<[u8; 4]>)
    requires
        words.len() == pixels.len(),
        back.len() == pixels.len(),
        forall|i: int| 0 <= i < words.len() ==> #[trigger] words[i] as int == packed_rgba(pixels[i]),
        forall|i: int| 0 <= i < words.len() ==> unpacks_to(words[i], #[trigger] back[i]),
    ensures
        back == pixels,
{
    assert forall|i: int| 0 <= i < pixels.len() implies #[trigger] back[i] == pixels[i] by {
        lemma_pack_unpack_roundtrip(pixels[i], words[i], back[i]);
        let c = pixels[i];
        let d = back[i];
        assert(d[0] == c[0] && d[1] == c[1] && d[2] == c[2] && d[3] == c[3]);
        assert(d@ =~= c@);
    }
    assert(back =~= pixels);
}

} // verus!
