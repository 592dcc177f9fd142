//! Rebuilding a raster from the packed stream: true palette colours, or a
//! grayscale ramp when only the palette's size is known.
use vstd::prelude::*;
use vstd::arithmetic::div_mod::{lemma_div_is_ordered, lemma_fundamental_div_mod_converse};
use crate::color::Rgb;
use crate::error::CodecError;
use crate::stream::index_at;
use crate::unpack::{decodable, decode_error, decode_ok, unpack_indices};

verus! {

/// A rebuilt raster and how many of its pixels came from the stream; the
/// pixels after those are black.
#[derive(Debug)]
pub struct Decoded {
    pub pixels: Vec<Rgb>,
    pub decoded: usize,
}

impl Decoded {
    /// The stream ended before every pixel was read.
    pub fn is_truncated(&self) -> (r: bool)
        ensures
            r == (self.decoded < self.pixels.len()),
    {
        self.decoded < self.pixels.len()
    }
}

/// The gray level of index `i` out of `n`: a ramp from white at index 0 to
/// black at index n - 1, rounded half away from zero.
pub open spec fn grayscale_spec(i: nat, n: nat) -> u8 {
    if n <= 1 {
        if i == 0 { 255 } else { 0 }
    } else {
        let step = (2 * i * 255 + (n - 1)) / (2 * (n - 1) as int);
        if step >= 255 { 0 } else { (255 - step) as u8 }
    }
}

/// The colour of the `p`-th pixel of a raster rebuilt from `indices` and `f`.
pub open spec fn rebuilt_pixel(decoded: nat, colour: Rgb, p: nat) -> Rgb {
    if p < decoded { colour } else { Rgb { r: 0, g: 0, b: 0 } }
}

/// `r` is the outcome of rebuilding `total` pixels from `bytes` with `palette`.
pub open spec fn unpacked_rgb(bytes: Seq<u8>, palette: Seq<Rgb>, bpp: nat, total: nat, r: Result<Decoded, CodecError>) -> bool {
    &&& r is Ok <==> decode_ok(bytes, bpp, total, palette.len())
    &&& r matches Ok(d) ==> d.pixels.len() == total && d.decoded == decodable(bytes.len(), bpp, total)
        && forall|p: int| 0 <= p < total ==> #[trigger] d.pixels@[p] == rebuilt_pixel(
            d.decoded as nat,
            palette[index_at(bytes, bpp, p as nat) as int],
            p as nat,
        )
    &&& r matches Err(e) ==> decode_error(bytes, bpp, total, palette.len(), e)
}

/// `r` is the outcome of rebuilding `total` gray pixels from `bytes` for a
/// palette of `n` entries.
pub open spec fn unpacked_gray(bytes: Seq<u8>, n: nat, bpp: nat, total: nat, r: Result<Decoded, CodecError>) -> bool {
    &&& r is Ok <==> decode_ok(bytes, bpp, total, n)
    &&& r matches Ok(d) ==> d.pixels.len() == total && d.decoded == decodable(bytes.len(), bpp, total)
        && forall|p: int| 0 <= p < total ==> #[trigger] d.pixels@[p] == rebuilt_pixel(
            d.decoded as nat,
            gray(grayscale_spec(index_at(bytes, bpp, p as nat), n)),
            p as nat,
        )
    &&& r matches Err(e) ==> decode_error(bytes, bpp, total, n, e)
}

/// The gray level for index `index` of a palette of `n` entries:
/// 255 - round(index * 255 / (n - 1)), with 255 for index 0 and 0 otherwise
/// when `n` is 0 or 1.
pub fn grayscale_value(index: usize, n: usize) -> (g: u8)
    ensures
        g == grayscale_spec(index as nat, n as nat),
{
    if n <= 1 {
        if index == 0 { 255 } else { 0 }
    } else {
        let d: u128 = (n - 1) as u128;
        let step: u128 = (2 * (index as u128) * 255 + d) / (2 * d);
        if step >= 255 { 0 } else { (255 - step) as u8 }
    }
}

/// Rebuilds a raster of `total` pixels from the packed stream, colouring each
/// index with its palette entry. Pixels after the end of a short stream are black.
pub fn unpack(bytes: &[u8], palette: &[Rgb], bits_per_pixel: u8, total: usize) -> (r: Result<Decoded, CodecError>)
    requires
        1 <= bits_per_pixel <= 8,
    ensures
        unpacked_rgb(bytes@, palette@, bits_per_pixel as nat, total as nat, r),
{
    let indices = match unpack_indices(bytes, bits_per_pixel, total, palette.len()) {
        Ok(v) => v,
        Err(e) => return Err(e),
    };
    let ghost w = bits_per_pixel as nat;
    let mut pixels: Vec<Rgb> = Vec::new();
    let mut p: usize = 0;
    while p < total
        invariant
            p <= total,
            pixels.len() == p,
            indices.len() == decodable(bytes.len() as nat, w, total as nat),
            indices.len() <= total,
            forall|q: int| 0 <= q < indices.len() ==> indices[q] == #[trigger] index_at(bytes@, w, q as nat),
            forall|q: nat| q < indices.len() ==> #[trigger] index_at(bytes@, w, q) < palette.len(),
            forall|q: int| 0 <= q < p ==> #[trigger] pixels[q] == rebuilt_pixel(
                indices.len() as nat,
                palette@[index_at(bytes@, w, q as nat) as int],
                q as nat,
            ),
        decreases total - p,
    {
        if p < indices.len() {
            let ghost q = p as int;
            assert(indices[q] == index_at(bytes@, w, q as nat));
            assert(index_at(bytes@, w, q as nat) < palette.len());
            pixels.push(palette[indices[p] as usize]);
        } else {
            pixels.push(Rgb::black());
        }
        p = p + 1;
    }
    let decoded = indices.len();
    Ok(Decoded { pixels, decoded })
}

/// Rebuilds a raster of `total` pixels from the packed stream of a palette of
/// `n` entries, colouring each index with its gray level. Pixels after the
/// end of a short stream are black.
pub fn unpack_grayscale(bytes: &[u8], n: usize, bits_per_pixel: u8, total: usize) -> (r: Result<Decoded, CodecError>)
    requires
        1 <= bits_per_pixel <= 8,
    ensures
        unpacked_gray(bytes@, n as nat, bits_per_pixel as nat, total as nat, r),
{
    let indices = match unpack_indices(bytes, bits_per_pixel, total, n) {
        Ok(v) => v,
        Err(e) => return Err(e),
    };
    let ghost w = bits_per_pixel as nat;
    let mut pixels: Vec<Rgb> = Vec::new();
    let mut p: usize = 0;
    while p < total
        invariant
            p <= total,
            pixels.len() == p,
            indices.len() == decodable(bytes.len() as nat, w, total as nat),
            indices.len() <= total,
            forall|q: int| 0 <= q < indices.len() ==> indices[q] == #[trigger] index_at(bytes@, w, q as nat),
            forall|q: int| 0 <= q < p ==> #[trigger] pixels[q] == rebuilt_pixel(
                indices.len() as nat,
                gray(grayscale_spec(index_at(bytes@, w, q as nat), n as nat)),
                q as nat,
            ),
        decreases total - p,
    {
        if p < indices.len() {
            let v = grayscale_value(indices[p] as usize, n);
            pixels.push(Rgb { r: v, g: v, b: v });
        } else {
            pixels.push(Rgb::black());
        }
        p = p + 1;
    }
    let decoded = indices.len();
    Ok(Decoded { pixels, decoded })
}

/// The gray colour of level `v`.
pub open spec fn gray(v: u8) -> Rgb {
    Rgb { r: v, g: v, b: v }
}

/// For a palette of more than one entry the gray level runs from white at
/// index 0 down to black at the last index, never rising on the way.
pub proof fn lemma_grayscale_ramp(n: nat)
    requires
        n > 1,
    ensures
        grayscale_spec(0, n) == 255,
        grayscale_spec((n - 1) as nat, n) == 0,
        forall|i: nat, j: nat| i <= j ==> #[trigger] grayscale_spec(i, n) >= #[trigger] grayscale_spec(j, n),
{
    let d = (n - 1) as int;
    lemma_fundamental_div_mod_converse(d, 2 * d, 0, d);
    lemma_fundamental_div_mod_converse(2 * d * 255 + d, 2 * d, 255, d);
    assert(2 * ((n - 1) as nat) * 255 + d == 2 * d * 255 + d);
    assert forall|i: nat, j: nat| i <= j implies #[trigger] grayscale_spec(i, n) >= #[trigger] grayscale_spec(j, n) by {
        assert(2 * i * 255 + d <= 2 * j * 255 + d);
        lemma_div_is_ordered(2 * i * 255 + d, 2 * j * 255 + d, 2 * d);
    }
}

} // verus!
