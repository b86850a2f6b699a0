//! A texture written as a PNG file in memory, as a project bundle stores it.

use crate::renderer::texture::Texture;
use vstd::prelude::*;

verus! {

/// What `image::write_buffer_with_format` gives for an RGBA8 buffer of the given size, written
/// as PNG into memory: the file's bytes, or the text of the encoder's error.
pub uninterp spec fn png_of_rgba8(width: u32, height: u32, rgba: Seq<u8>) -> Result<Seq<u8>, Seq<char>>;

/// `image::write_buffer_with_format` with `ExtendedColorType::Rgba8` and `ImageFormat::Png`,
/// writing into a byte vector: the PNG file's bytes, or the error's text. The encoder panics on
/// a buffer whose length is not `width * height * 4`, which `requires` leaves out. Writing into
/// memory does not fail, so the result depends on the arguments alone; it is named by
/// `png_of_rgba8`, not described.
#[verifier::external_body]
fn write_png_rgba8(width: u32, height: u32, rgba: &Vec<u8>) -> (r: Result<Vec<u8>, String>)
    requires
        rgba@.len() == width as int * height as int * 4,
    ensures
        match r {
            Ok(b) => png_of_rgba8(width, height, rgba@) == Ok::<Seq<u8>, Seq<char>>(b@),
            Err(e) => png_of_rgba8(width, height, rgba@) == Err::<Seq<u8>, Seq<char>>(e@),
        },
{
    let mut out = std::io::Cursor::new(Vec::<u8>::new());
    let written = image::write_buffer_with_format(
        &mut out,
        rgba,
        width,
        height,
        image::ExtendedColorType::Rgba8,
        image::ImageFormat::Png,
    );
    match written {
        Ok(()) => Ok(out.into_inner()),
        Err(e) => Err(format!("{e}")),
    }
}

/// The bytes of `pixels`, pixel after pixel, each as red, green, blue, alpha.
pub open spec fn rgba_bytes(pixels: Seq<[u8; 4]>) -> Seq<u8> {
    Seq::new(4 * pixels.len(), |k: int| pixels[k / 4]@[k % 4])
}

/// The bytes of `texture`'s pixels, row-major (see `rgba_bytes`).
pub fn texture_rgba_bytes(texture: &Texture) -> (b: Vec<u8>)
    ensures
        b@ == rgba_bytes(texture.spec_pixels()),
{
    let pixels = texture.pixels();
    let n = pixels.len();
    let mut b: Vec<u8> = Vec::new();
    let mut i: usize = 0;
    while i < n
        invariant
            i <= n,
            n == pixels@.len(),
            b@ == rgba_bytes(pixels@.take(i as int)),
        decreases n - i,
    {
        let p = pixels[i];
        b.push(p[0]);
        b.push(p[1]);
        b.push(p[2]);
        b.push(p[3]);
        proof {
            let t = pixels@.take(i + 1);
            assert(t.len() == i + 1);
            assert forall|k: int| 0 <= k < 4 * t.len() implies #[trigger] b@[k] == t[k / 4]@[k % 4] by {
                if k < 4 * i {
                    assert(pixels@.take(i as int)[k / 4] == t[k / 4]);
                } else {
                    assert(k / 4 == i);
                    assert(t[k / 4] == p);
                }
            }
            assert(b@ =~= rgba_bytes(t));
        }
        i += 1;
    }
    proof {
        assert(pixels@.take(n as int) =~= pixels@);
    }
    b
}

/// The text that opens the message of a failed PNG encoding.
pub open spec fn png_failure_prefix() -> Seq<char> {
    "Failed to encode texture PNG: "@
}

/// A PNG encoding's result as a bundle save reports it: the bytes as they are, an error's text
/// after `png_failure_prefix`.
pub open spec fn png_report(r: Result<Seq<u8>, Seq<char>>) -> Result<Seq<u8>, Seq<char>> {
    match r {
        Ok(b) => Ok(b),
        Err(m) => Err(png_failure_prefix() + m),
    }
}

/// The report of an encoder's result (see `png_report`).
pub fn report_png(r: Result<Vec<u8>, String>) -> (out: Result<Vec<u8>, String>)
    ensures
        match (r, out) {
            (Ok(a), Ok(b)) => png_report(Ok(a@)) == Ok::<Seq<u8>, Seq<char>>(b@),
            (Err(e), Err(m)) => png_report(Err(e@)) == Err::<Seq<u8>, Seq<char>>(m@),
            _ => false,
        },
{
    match r {
        Ok(b) => Ok(b),
        Err(e) => {
            let mut m = String::from_str("Failed to encode texture PNG: ");
            m.append(e.as_str());
            Err(m)
        },
    }
}

/// `texture` as a PNG file: the report of the encoder's result on its RGBA bytes.
pub fn encode_png(texture: &Texture) -> (r: Result<Vec<u8>, String>)
    ensures
        match r {
            Ok(b) => png_report(png_of_rgba8(texture.spec_width(), texture.spec_height(), rgba_bytes(texture.spec_pixels())))
                == Ok::<Seq<u8>, Seq<char>>(b@),
            Err(m) => png_report(png_of_rgba8(texture.spec_width(), texture.spec_height(), rgba_bytes(texture.spec_pixels())))
                == Err::<Seq<u8>, Seq<char>>(m@),
        },
{
    let w = texture.width();
    let h = texture.height();
    let bytes = texture_rgba_bytes(texture);
    let encoded = write_png_rgba8(w, h, &bytes);
    report_png(encoded)
}

} // verus!
