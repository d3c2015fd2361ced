//! The mouse cursor image of the GPU: the pixels of a 24-bit BMP file, each
//! given an alpha byte that makes white transparent.
use vstd::prelude::*;

verus! {

/// The pixel bytes that `tinybmp` finds in the BMP file `data`, or `None`
/// when it cannot parse the file.
pub uninterp spec fn bmp_image_data(data: Seq<u8>) -> Option<Seq<u8>>;

/// Parses `data` with `tinybmp::Bmp::<Rgb888>::from_slice` and copies the
/// raw image data (`as_raw().image_data()`). Trusted: the result is the
/// named `bmp_image_data` of the bytes.
#[verifier::external_body]
fn bmp_pixels(data: &[u8]) -> (r: Option<Vec<u8>>)
    ensures
        match r {
            Some(v) => bmp_image_data(data@) == Some(v@),
            None => bmp_image_data(data@) is None,
        },
{
    let bmp = tinybmp::Bmp::<embedded_graphics::pixelcolor::Rgb888>::from_slice(data).ok()?;
    Some(bmp.as_raw().image_data().to_vec())
}

/// The number of 3-byte pixels in `n` bytes, a last short one included.
pub open spec fn pixel_count(n: int) -> int {
    (n + 2) / 3
}

/// Pixel `k` of the raw bytes: three bytes, or fewer for a last short one.
pub open spec fn pixel(raw: Seq<u8>, k: int) -> Seq<u8> {
    raw.subrange(3 * k, if 3 * k + 3 <= raw.len() { 3 * k + 3 } else { raw.len() as int })
}

/// The alpha byte of a pixel: 0 (transparent) for white, 0xff otherwise.
pub open spec fn alpha(p: Seq<u8>) -> u8 {
    if p == seq![255u8, 255u8, 255u8] {
        0
    } else {
        0xff
    }
}

/// The first `k` pixels of `raw`, each followed by its alpha byte.
pub open spec fn rgba_prefix(raw: Seq<u8>, k: int) -> Seq<u8>
    decreases k,
{
    if k <= 0 {
        Seq::empty()
    } else {
        rgba_prefix(raw, k - 1) + pixel(raw, k - 1) + seq![alpha(pixel(raw, k - 1))]
    }
}

/// The cursor bytes of raw 3-byte pixels: each pixel followed by its alpha
/// byte, in order.
pub fn cursor_rgba(raw: &[u8]) -> (r: Vec<u8>)
    requires
        raw@.len() + 3 <= usize::MAX,
    ensures
        r@ == rgba_prefix(raw@, pixel_count(raw@.len() as int)),
{
    let mut out: Vec<u8> = Vec::new();
    let mut i: usize = 0;
    let ghost mut k: int = 0;
    while i < raw.len()
        invariant
            raw@.len() + 3 <= usize::MAX,
            i <= raw@.len(),
            i < raw@.len() ==> i == 3 * k,
            0 <= k <= pixel_count(raw@.len() as int),
            i < raw@.len() ==> k < pixel_count(raw@.len() as int),
            i >= raw@.len() ==> k == pixel_count(raw@.len() as int),
            out@ == rgba_prefix(raw@, k),
        decreases raw@.len() - i,
    {
        let end = if i + 3 <= raw.len() { i + 3 } else { raw.len() };
        let mut j = i;
        let ghost before = out@;
        while j < end
            invariant
                i <= j <= end <= raw@.len(),
                out@ == before + raw@.subrange(i as int, j as int),
            decreases end - j,
        {
            out.push(raw[j]);
            j = j + 1;
            assert(out@ =~= before + raw@.subrange(i as int, j as int));
        }
        let white = end == i + 3 && raw[i] == 255 && raw[i + 1] == 255 && raw[i + 2] == 255;
        proof {
            let p = pixel(raw@, k);
            assert(p == raw@.subrange(i as int, end as int));
            if white {
                assert(p =~= seq![255u8, 255u8, 255u8]);
            } else if p == seq![255u8, 255u8, 255u8] {
                assert(p.len() == 3);
                assert(p[0] == raw@[i as int] && p[1] == raw@[i + 1] && p[2] == raw@[i + 2]);
            }
        }
        out.push(if white { 0u8 } else { 0xffu8 });
        proof {
            assert(out@ =~= rgba_prefix(raw@, k + 1));
            k = k + 1;
        }
        i = end;
    }
    out
}

/// The cursor bytes of the BMP file `bmp`: its pixels with their alpha
/// bytes, or `None` when the file does not parse.
pub fn cursor_image(bmp: &[u8]) -> (r: Option<Vec<u8>>)
    ensures
        match bmp_image_data(bmp@) {
            None => r is None,
            Some(raw) => raw.len() + 3 <= usize::MAX ==> (r matches Some(v) && v@ == rgba_prefix(raw, pixel_count(raw.len() as int))),
        },
{
    match bmp_pixels(bmp) {
        Some(raw) => {
            if raw.len() > usize::MAX - 3 {
                return None;
            }
            Some(cursor_rgba(raw.as_slice()))
        },
        None => None,
    }
}

} // verus!
