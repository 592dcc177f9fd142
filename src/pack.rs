//! Bits per pixel and the bit packer: indices of a fixed width, concatenated
//! MSB-first into bytes, the last byte padded with zero bits.
use vstd::prelude::*;
use vstd::arithmetic::power2::*;
use vstd::arithmetic::div_mod::*;
use vstd::bits::*;
use crate::stream::{all_fit, be_value, digits_value, index_at, lemma_digit_at, packed_len, pad_bits};
use crate::error::CodecError;

verus! {

/// The bits that one index takes for a palette of `n` entries: the least
/// `b >= 1` with 2^b >= n, that is max(1, ceil(log2 n)).
pub open spec fn is_bits_for(n: nat, b: nat) -> bool {
    b >= 1 && pow2(b) >= n && (b == 1 || pow2((b - 1) as nat) < n)
}

/// A palette size fixes its bits per index: the encoder and the decoder,
/// given the same size, read and write indices of the same width.
pub proof fn lemma_bits_for_unique(n: nat, b1: nat, b2: nat)
    requires
        is_bits_for(n, b1),
        is_bits_for(n, b2),
    ensures
        b1 == b2,
{
    if b1 < b2 {
        if b1 < (b2 - 1) as nat {
            lemma_pow2_strictly_increases(b1, (b2 - 1) as nat);
        }
    } else if b2 < b1 {
        if b2 < (b1 - 1) as nat {
            lemma_pow2_strictly_increases(b2, (b1 - 1) as nat);
        }
    }
}

/// Bits per index for a palette of `n` entries; a palette of no entry is refused.
pub fn bits_per_pixel(n: usize) -> (r: Result<u8, CodecError>)
    ensures
        n == 0 <==> r is Err,
        n == 0 ==> r == Err::<u8, CodecError>(CodecError::EmptyPalette),
        r matches Ok(b) ==> is_bits_for(n as nat, b as nat) && b <= 64,
{
    if n == 0 {
        return Err(CodecError::EmptyPalette);
    }
    let mut b: u8 = 1;
    let mut p: u128 = 2;
    proof {
        lemma2_to64();
    }
    while p < n as u128
        invariant
            1 <= b <= 64,
            p == pow2(b as nat),
            n >= 1,
            b == 1 || pow2((b - 1) as nat) < n,
        decreases 64 - b,
    {
        proof {
            lemma_pow2_unfold(b as nat + 1);
            lemma2_to64_rest();
            if b >= 64 {
                assert(pow2(64) == 0x10000000000000000);
                assert(false);
            }
        }
        p = p * 2;
        b = b + 1;
    }
    Ok(b)
}

/// Folding `x` of `bpp` bits into the register keeps the stream's value.
proof fn lemma_absorb(hi: nat, acc: nat, held: nat, x: nat, bpp: nat, v: nat)
    requires
        hi * pow2(held) + acc == v,
        acc < pow2(held),
        x < pow2(bpp),
    ensures
        hi * pow2(held + bpp) + (acc * pow2(bpp) + x) == v * pow2(bpp) + x,
        acc * pow2(bpp) + x < pow2(held + bpp),
{
    lemma_pow2_adds(held, bpp);
    let ph = pow2(held) as int;
    let pb = pow2(bpp) as int;
    assert(hi * (ph * pb) + acc * pb == (hi * ph + acc) * pb) by (nonlinear_arith);
    assert((acc + 1) * pb <= ph * pb) by (nonlinear_arith)
        requires acc + 1 <= ph, pb > 0;
    assert((acc + 1) * pb == acc * pb + pb) by (nonlinear_arith);
}

/// Emitting the top byte of a register of `k + 8` bits keeps the stream's value.
proof fn lemma_emit(hi: nat, acc: nat, k: nat)
    requires
        acc < pow2(k + 8),
    ensures
        hi * pow2(k + 8) + acc == (hi * 256 + acc / pow2(k)) * pow2(k) + acc % pow2(k),
        acc / pow2(k) < 256,
        acc % pow2(k) < pow2(k),
{
    lemma_pow2_adds(k, 8);
    lemma2_to64();
    lemma_pow2_pos(k);
    let pk = pow2(k) as int;
    let a = acc as int;
    let h = hi as int;
    lemma_fundamental_div_mod(a, pk);
    assert(a / pk < 256) by {
        lemma_div_is_ordered(a, pk * 256 - 1, pk);
        lemma_fundamental_div_mod_converse(pk * 256 - 1, pk, 255, pk - 1);
    }
    assert(h * (pk * 256) + pk * (a / pk) + a % pk == (h * 256 + a / pk) * pk + a % pk)
        by (nonlinear_arith);
}

/// Packs indices of `bits_per_pixel` bits each into bytes, MSB-first, with the
/// last byte right-padded with zero bits.
pub fn pack(indices: &[u8], bits_per_pixel: u8) -> (packed: Vec<u8>)
    requires
        1 <= bits_per_pixel <= 8,
        all_fit(indices@, bits_per_pixel as nat),
    ensures
        packed.len() == packed_len(indices.len() as nat, bits_per_pixel as nat),
        be_value(packed@) == digits_value(indices@, bits_per_pixel as nat) * pow2(
            pad_bits(indices.len() as nat, bits_per_pixel as nat),
        ),
{
    let bpp: u32 = bits_per_pixel as u32;
    let ghost w = bpp as nat;
    let mut acc: u32 = 0;
    let mut held: u32 = 0;
    let mut out: Vec<u8> = Vec::new();
    let mut i: usize = 0;
    proof {
        lemma2_to64();
        assert(indices@.take(0) =~= Seq::<u8>::empty());
    }
    while i < indices.len()
        invariant
            i <= indices.len(),
            1 <= bpp <= 8,
            w == bpp,
            all_fit(indices@, w),
            held < 8,
            acc < pow2(held as nat),
            out.len() * 8 + held == i * w,
            be_value(out@) * pow2(held as nat) + acc == digits_value(indices@.take(i as int), w),
        decreases indices.len() - i,
    {
        let x = indices[i];
        proof {
            assert(indices@.take(i as int + 1).drop_last() =~= indices@.take(i as int));
            lemma_absorb(be_value(out@), acc as nat, held as nat, x as nat, w,
                digits_value(indices@.take(i as int), w));
            lemma2_to64();
            lemma_pow2_strictly_increases((held + bpp) as nat, 32);
            lemma_u32_pow2_no_overflow(held as nat);
            lemma_u32_shl_is_mul(acc, bpp);
            assert((i + 1) * w == i * w + w) by (nonlinear_arith);
        }
        acc = (acc << bpp) + x as u32;
        held = held + bpp;
        while held >= 8
            invariant
                held < 16,
                acc < pow2(held as nat),
                out.len() * 8 + held == (i + 1) * w,
                be_value(out@) * pow2(held as nat) + acc == digits_value(
                    indices@.take(i as int + 1),
                    w,
                ),
            decreases held,
        {
            let k: u32 = held - 8;
            proof {
                lemma2_to64();
                lemma_emit(be_value(out@), acc as nat, k as nat);
                lemma_u32_shr_is_div(acc, k);
                lemma_u32_pow2_no_overflow(k as nat);
                lemma_u32_shl_is_mul(1, k);
                assert(out@.push((acc as nat / pow2(k as nat)) as u8).drop_last() =~= out@);
            }
            let byte = (acc >> k) as u8;
            acc = acc % (1u32 << k);
            out.push(byte);
            held = k;
        }
        i = i + 1;
    }
    proof {
        assert(indices@.take(i as int) =~= indices@);
    }
    let ghost n = indices.len() as nat;
    let ghost len0 = out.len() as nat;
    if held > 0 {
        let s: u32 = 8 - held;
        proof {
            lemma2_to64();
            lemma_pow2_adds(held as nat, s as nat);
            lemma_pow2_pos(s as nat);
            let ph = pow2(held as nat) as int;
            let ps = pow2(s as nat) as int;
            assert((acc + 1) * ps <= ph * ps) by (nonlinear_arith)
                requires acc + 1 <= ph, ps > 0;
            assert((acc + 1) * ps == acc * ps + ps) by (nonlinear_arith);
            assert(acc * ps < 256);
            lemma_u32_shl_is_mul(acc, s);
            assert(out@.push((acc * ps) as u8).drop_last() =~= out@);
            assert((be_value(out@) * ph + acc) * ps == be_value(out@) * (ph * ps) + acc * ps)
                by (nonlinear_arith);
        }
        let ghost before = out@;
        out.push((acc << s) as u8);
        proof {
            assert(out@.drop_last() =~= before);
            assert(be_value(out@) == be_value(before) * 256 + acc * pow2(s as nat));
            assert(be_value(out@) == digits_value(indices@, w) * pow2(s as nat));
            assert(packed_len(n, w) == len0 + 1);
            assert(pad_bits(n, w) == s);
        }
    } else {
        proof {
            lemma2_to64();
            assert(packed_len(n, w) == len0);
            assert(pad_bits(n, w) == 0);
            assert(pow2(held as nat) == 1);
            assert(acc == 0);
            assert(digits_value(indices@.take(i as int), w) == digits_value(indices@, w));
            assert(be_value(out@) == digits_value(indices@, w));
            assert(be_value(out@) == digits_value(indices@, w) * pow2(pad_bits(n, w)));
        }
    }
    out
}

/// The stream that `pack` writes holds index `p` as its `p`-th field, and its
/// padding bits are zero.
pub proof fn lemma_pack_fields(indices: Seq<u8>, bpp: nat, bytes: Seq<u8>)
    requires
        1 <= bpp,
        all_fit(indices, bpp),
        bytes.len() == packed_len(indices.len(), bpp),
        be_value(bytes) == digits_value(indices, bpp) * pow2(pad_bits(indices.len(), bpp)),
    ensures
        be_value(bytes) % pow2(pad_bits(indices.len(), bpp)) == 0,
        forall|p: nat| p < indices.len() ==> #[trigger] index_at(bytes, bpp, p) == indices[p as int],
{
    let n = indices.len();
    let pad = pad_bits(n, bpp);
    let v = digits_value(indices, bpp) as int;
    lemma_pow2_pos(pad);
    let pp = pow2(pad) as int;
    lemma_mod_multiples_basic(v, pp);
    assert(v * pp == pp * v) by (nonlinear_arith);
    lemma_div_multiples_vanish(v, pp);
    assert(8 * bytes.len() >= n * bpp);
    assert forall|p: nat| p < n implies #[trigger] index_at(bytes, bpp, p) == indices[p as int] by {
        let e = (bpp * (n - 1 - p)) as nat;
        assert(8 * bytes.len() - p * bpp - bpp == pad + e) by (nonlinear_arith)
            requires
                pad == 8 * bytes.len() - n * bpp,
                8 * bytes.len() >= n * bpp,
                e == bpp * (n - 1 - p),
                p < n,
        ;
        lemma_pow2_adds(pad, e);
        lemma_pow2_pos(e);
        lemma_div_denominator(be_value(bytes) as int, pp, pow2(e) as int);
        lemma_digit_at(indices, bpp, p);
    }
}

} // verus!
