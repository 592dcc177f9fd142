//! The whole codec: palette, quantization, packing and zlib on the way in;
//! zlib, unpacking and colouring on the way out.
use vstd::prelude::*;
use vstd::arithmetic::power2::pow2;
use crate::color::Rgb;
use crate::decode::{Decoded, rebuilt_pixel, unpack, unpack_grayscale, unpacked_gray, unpacked_rgb};
use crate::error::CodecError;
use crate::pack::{bits_per_pixel, is_bits_for, lemma_bits_for_unique, lemma_pack_fields, pack};
use crate::palette::{build_palette, is_palette_for};
use crate::quantize::{is_nearest, quantize};
use crate::stream::{all_fit, be_value, digits_value, index_at, packed_len, pad_bits};
use crate::unpack::{decodable, indices_in_range};
use crate::color::{dist_spec, lemma_dist_nonneg, lemma_dist_zero};
use vstd::arithmetic::div_mod::{lemma_div_is_ordered, lemma_div_multiples_vanish};
use crate::zlib::{zlib_compress, zlib_decompress, zlib_deflated, zlib_inflated, zlib_inflates};

verus! {

/// The largest palette whose indices fit in one byte.
pub const MAX_PALETTE_COLORS: usize = 256;

/// What the encoder produces: the palette to keep beside the stream, the bits
/// per index, the packed index stream, and that stream after zlib.
#[derive(Debug)]
pub struct Encoded {
    pub palette: Vec<Rgb>,
    pub bits_per_pixel: u8,
    pub packed: Vec<u8>,
    pub compressed: Vec<u8>,
}

/// `packed` holds, at `bpp` bits each, the index of the nearest palette entry
/// of every pixel of `raster` in order, with zero padding bits.
pub open spec fn packs(raster: Seq<Rgb>, palette: Seq<Rgb>, bpp: nat, packed: Seq<u8>) -> bool {
    &&& packed.len() == packed_len(raster.len(), bpp)
    &&& forall|p: nat| p < raster.len() ==> is_nearest(raster[p as int], palette, #[trigger] index_at(packed, bpp, p) as int)
    &&& be_value(packed) % pow2(pad_bits(raster.len(), bpp)) == 0
}

/// Encodes `raster` with a palette of `n` colours.
pub fn encode(raster: &[Rgb], n: usize) -> (r: Result<Encoded, CodecError>)
    ensures
        n == 0 ==> r == Err::<Encoded, CodecError>(CodecError::EmptyPalette),
        n > MAX_PALETTE_COLORS ==> r == Err::<Encoded, CodecError>(CodecError::PaletteTooLarge),
        1 <= n <= MAX_PALETTE_COLORS ==> r is Ok,
        r matches Ok(e) ==> {
            &&& is_bits_for(n as nat, e.bits_per_pixel as nat)
            &&& is_palette_for(raster@, n as nat, e.palette@)
            &&& packs(raster@, e.palette@, e.bits_per_pixel as nat, e.packed@)
            &&& e.compressed@ == zlib_deflated(e.packed@)
            &&& zlib_inflates(e.compressed@)
            &&& zlib_inflated(e.compressed@) == e.packed@
        },
{
    let bpp = match palette_bits(n) {
        Ok(b) => b,
        Err(e) => return Err(e),
    };
    let palette = build_palette(raster, n);
    let indices = quantize(raster, palette.as_slice());
    proof {
        assert(all_fit(indices@, bpp as nat));
    }
    let packed = pack(indices.as_slice(), bpp);
    proof {
        lemma_pack_fields(indices@, bpp as nat, packed@);
    }
    let compressed = match zlib_compress(packed.as_slice()) {
        Some(c) => c,
        None => return Err(CodecError::Compression),
    };
    Ok(Encoded { palette, bits_per_pixel: bpp, packed, compressed })
}

/// Checks the palette size before any decode: no entry, or more than an
/// index byte can name, is refused; else gives the bits per index.
fn palette_bits(n: usize) -> (r: Result<u8, CodecError>)
    ensures
        n == 0 ==> r == Err::<u8, CodecError>(CodecError::EmptyPalette),
        n > MAX_PALETTE_COLORS ==> r == Err::<u8, CodecError>(CodecError::PaletteTooLarge),
        1 <= n <= MAX_PALETTE_COLORS ==> (r matches Ok(b) && is_bits_for(n as nat, b as nat) && 1 <= b <= 8),
{
    let bpp = match bits_per_pixel(n) {
        Ok(b) => b,
        Err(e) => return Err(e),
    };
    if n > MAX_PALETTE_COLORS {
        return Err(CodecError::PaletteTooLarge);
    }
    proof {
        vstd::arithmetic::power2::lemma2_to64();
        if bpp > 8 {
            vstd::arithmetic::power2::lemma_pow2_strictly_increases(8, (bpp - 1) as nat);
        }
    }
    Ok(bpp)
}

/// `r` is the outcome of decoding `total` pixels from the zlib data
/// `compressed` with `palette`.
pub open spec fn decoded_rgb(compressed: Seq<u8>, palette: Seq<Rgb>, total: nat, r: Result<Decoded, CodecError>) -> bool {
    if palette.len() == 0 {
        r == Err::<Decoded, CodecError>(CodecError::EmptyPalette)
    } else if palette.len() > MAX_PALETTE_COLORS {
        r == Err::<Decoded, CodecError>(CodecError::PaletteTooLarge)
    } else {
        if !zlib_inflates(compressed) {
            r == Err::<Decoded, CodecError>(CodecError::Decompression)
        } else {
            exists|b: nat|
                #[trigger] is_bits_for(palette.len(), b) && unpacked_rgb(zlib_inflated(compressed), palette, b, total, r)
        }
    }
}

/// `r` is the outcome of decoding `total` gray pixels from the zlib data
/// `compressed` for a palette of `n` entries.
pub open spec fn decoded_gray(compressed: Seq<u8>, n: nat, total: nat, r: Result<Decoded, CodecError>) -> bool {
    if n == 0 {
        r == Err::<Decoded, CodecError>(CodecError::EmptyPalette)
    } else if n > MAX_PALETTE_COLORS {
        r == Err::<Decoded, CodecError>(CodecError::PaletteTooLarge)
    } else {
        if !zlib_inflates(compressed) {
            r == Err::<Decoded, CodecError>(CodecError::Decompression)
        } else {
            exists|b: nat| #[trigger] is_bits_for(n, b) && unpacked_gray(zlib_inflated(compressed), n, b, total, r)
        }
    }
}

/// Decodes `total` pixels from zlib data, colouring each with its palette entry.
pub fn decode(compressed: &[u8], palette: &[Rgb], total: usize) -> (r: Result<Decoded, CodecError>)
    ensures
        decoded_rgb(compressed@, palette@, total as nat, r),
{
    let bpp = match palette_bits(palette.len()) {
        Ok(b) => b,
        Err(e) => return Err(e),
    };
    let packed = match zlib_decompress(compressed) {
        Some(v) => v,
        None => return Err(CodecError::Decompression),
    };
    unpack(packed.as_slice(), palette, bpp, total)
}

/// Decodes `total` pixels from zlib data for a palette of `n` entries that is
/// not at hand, colouring each index with its gray level.
pub fn decode_grayscale(compressed: &[u8], n: usize, total: usize) -> (r: Result<Decoded, CodecError>)
    ensures
        decoded_gray(compressed@, n as nat, total as nat, r),
{
    let bpp = match palette_bits(n) {
        Ok(b) => b,
        Err(e) => return Err(e),
    };
    let packed = match zlib_decompress(compressed) {
        Some(v) => v,
        None => return Err(CodecError::Decompression),
    };
    unpack_grayscale(packed.as_slice(), n, bpp, total)
}

/// Where the `p`-th field of a stream is the nearest palette entry of pixel `p`
/// of a raster whose every pixel is a palette colour, rebuilding the stream
/// gives the raster back.
proof fn lemma_fields_round_trip(raster: Seq<Rgb>, palette: Seq<Rgb>, bpp: nat, packed: Seq<u8>)
    requires
        1 <= bpp,
        forall|p: int| 0 <= p < raster.len() ==> palette.contains(#[trigger] raster[p]),
        packed.len() == packed_len(raster.len(), bpp),
        forall|p: nat| p < raster.len() ==> is_nearest(raster[p as int], palette, #[trigger] index_at(packed, bpp, p) as int),
    ensures
        forall|r: Result<Decoded, CodecError>| #[trigger] unpacked_rgb(packed, palette, bpp, raster.len(), r)
            ==> (r matches Ok(d) && d.pixels@ == raster && d.decoded == raster.len()),
{
    let n = raster.len();
    assert(decodable(packed.len(), bpp, n) == n) by {
        assert(8 * packed.len() >= n * bpp);
        lemma_div_is_ordered((n * bpp) as int, (8 * packed.len()) as int, bpp as int);
        lemma_div_multiples_vanish(n as int, bpp as int);
        assert(bpp * n == n * bpp) by (nonlinear_arith);
    }
    assert(n > 0 ==> packed.len() > 0) by {
        if n > 0 {
            assert(n * bpp >= 1) by (nonlinear_arith)
                requires n >= 1, bpp >= 1;
        }
    }
    assert forall|p: int| 0 <= p < n implies palette[index_at(packed, bpp, p as nat) as int] == #[trigger] raster[p] by {
        let idx = index_at(packed, bpp, p as nat) as int;
        assert(is_nearest(raster[p], palette, idx));
        let t = choose|t: int| 0 <= t < palette.len() && palette[t] == raster[p];
        lemma_dist_zero(raster[p], palette[t]);
        assert(dist_spec(raster[p], palette[t]) == 0);
        lemma_dist_zero(raster[p], palette[idx]);
        lemma_dist_nonneg(raster[p], palette[idx]);
    }
    assert(indices_in_range(packed, bpp, n, palette.len())) by {
        assert forall|p: nat| p < decodable(packed.len(), bpp, n) implies #[trigger] index_at(packed, bpp, p) < palette.len() by {
            assert(is_nearest(raster[p as int], palette, index_at(packed, bpp, p) as int));
        }
    }
    assert forall|r: Result<Decoded, CodecError>| #[trigger] unpacked_rgb(packed, palette, bpp, n, r)
        implies (r matches Ok(d) && d.pixels@ == raster && d.decoded == n) by {
        if let Ok(d) = r {
            assert(d.pixels@ =~= raster) by {
                assert forall|p: int| 0 <= p < n implies d.pixels@[p] == raster[p] by {
                    assert(d.pixels@[p] == rebuilt_pixel(n, palette[index_at(packed, bpp, p as nat) as int], p as nat));
                }
            }
        }
    }
}

/// Decoding what was packed from a raster whose every pixel is a palette
/// colour gives the raster back, exactly: the indices are those the quantizer
/// picks and the bytes are those the packer writes for them.
pub proof fn lemma_round_trip(raster: Seq<Rgb>, palette: Seq<Rgb>, bpp: nat, indices: Seq<u8>, packed: Seq<u8>)
    requires
        1 <= palette.len() <= MAX_PALETTE_COLORS,
        is_bits_for(palette.len(), bpp),
        forall|p: int| 0 <= p < raster.len() ==> palette.contains(#[trigger] raster[p]),
        indices.len() == raster.len(),
        forall|p: int| 0 <= p < raster.len() ==> is_nearest(raster[p], palette, #[trigger] indices[p] as int),
        packed.len() == packed_len(indices.len(), bpp),
        be_value(packed) == digits_value(indices, bpp) * pow2(pad_bits(indices.len(), bpp)),
    ensures
        forall|r: Result<Decoded, CodecError>| #[trigger] unpacked_rgb(packed, palette, bpp, raster.len(), r)
            ==> (r matches Ok(d) && d.pixels@ == raster && d.decoded == raster.len()),
{
    assert(all_fit(indices, bpp)) by {
        assert forall|p: int| 0 <= p < indices.len() implies (#[trigger] indices[p]) < pow2(bpp) by {
            assert(is_nearest(raster[p], palette, indices[p] as int));
        }
    }
    lemma_pack_fields(indices, bpp, packed);
    assert forall|p: nat| p < raster.len() implies is_nearest(raster[p as int], palette, #[trigger] index_at(packed, bpp, p) as int) by {
        assert(index_at(packed, bpp, p) == indices[p as int]);
    }
    lemma_fields_round_trip(raster, palette, bpp, packed);
}

/// What `encode` produces for a raster whose every pixel is a colour of its
/// palette decodes, through zlib, back to that raster exactly.
pub proof fn lemma_encode_decode_round_trip(
    raster: Seq<Rgb>,
    n: nat,
    palette: Seq<Rgb>,
    bpp: nat,
    packed: Seq<u8>,
    compressed: Seq<u8>,
)
    requires
        1 <= n <= MAX_PALETTE_COLORS,
        is_bits_for(n, bpp),
        is_palette_for(raster, n, palette),
        packs(raster, palette, bpp, packed),
        zlib_inflates(compressed),
        zlib_inflated(compressed) == packed,
        forall|p: int| 0 <= p < raster.len() ==> palette.contains(#[trigger] raster[p]),
    ensures
        forall|r: Result<Decoded, CodecError>| #[trigger] decoded_rgb(compressed, palette, raster.len(), r)
            ==> (r matches Ok(d) && d.pixels@ == raster && d.decoded == raster.len()),
{
    lemma_fields_round_trip(raster, palette, bpp, packed);
    assert forall|r: Result<Decoded, CodecError>| #[trigger] decoded_rgb(compressed, palette, raster.len(), r)
        implies (r matches Ok(d) && d.pixels@ == raster && d.decoded == raster.len()) by {
        let b = choose|b: nat| #[trigger] is_bits_for(palette.len(), b) && unpacked_rgb(packed, palette, b, raster.len(), r);
        lemma_bits_for_unique(n, b, bpp);
        assert(unpacked_rgb(packed, palette, bpp, raster.len(), r));
    }
}

} // verus!
