//! The bit unpacker: the inverse walk over the packed stream, index by index.
use vstd::prelude::*;
use vstd::arithmetic::power2::*;
use vstd::arithmetic::div_mod::*;
use vstd::bits::*;
use crate::stream::{be_value, digits_value, index_at, packed_len, lemma_bytes_fit, lemma_digits_bound, lemma_digits_split};
use crate::error::CodecError;

verus! {

/// How many indices of `bpp` bits a decode of `total` pixels reads from `len`
/// bytes: all of them, or as many as the bytes hold whole.
pub open spec fn decodable(len: nat, bpp: nat, total: nat) -> nat {
    if total <= (8 * len) / bpp {
        total
    } else {
        (8 * len) / bpp
    }
}

/// Every index that the decode reads is below `limit`.
pub open spec fn indices_in_range(bytes: Seq<u8>, bpp: nat, total: nat, limit: nat) -> bool {
    forall|p: nat| p < decodable(bytes.len(), bpp, total) ==> #[trigger] index_at(bytes, bpp, p) < limit
}

/// The error that a decode owes: none for no pixel, a missing stream for an
/// empty one, else the first index that the palette cannot name.
pub open spec fn decode_error(bytes: Seq<u8>, bpp: nat, total: nat, limit: nat, e: CodecError) -> bool {
    if total > 0 && bytes.len() == 0 {
        e == CodecError::UnexpectedEnd
    } else {
        exists|p: nat|
            p < decodable(bytes.len(), bpp, total) && index_at(bytes, bpp, p) >= limit && (forall|q: nat|
                q < p ==> #[trigger] index_at(bytes, bpp, q) < limit) && e == (CodecError::IndexOutOfRange {
                pixel: p as usize,
                index: index_at(bytes, bpp, p) as usize,
            })
    }
}

/// The decode succeeds: some pixel is wanted only where some byte is there,
/// and every index read names a palette entry.
pub open spec fn decode_ok(bytes: Seq<u8>, bpp: nat, total: nat, limit: nat) -> bool {
    !(total > 0 && bytes.len() == 0) && indices_in_range(bytes, bpp, total, limit)
}

/// A byte prefix read as a number is the stream's value with the rest cut off.
proof fn lemma_prefix_value(bytes: Seq<u8>, j: nat)
    requires
        j <= bytes.len(),
    ensures
        be_value(bytes) / pow2((8 * (bytes.len() - j)) as nat) == be_value(bytes.take(j as int)),
{
    let e = (8 * (bytes.len() - j)) as nat;
    lemma_digits_split(bytes, j, 8);
    let rest = bytes.skip(j as int);
    lemma_bytes_fit(rest);
    lemma_digits_bound(rest, 8);
    assert(8 * rest.len() == e);
    lemma_pow2_pos(e);
    lemma_fundamental_div_mod_converse(
        be_value(bytes) as int,
        pow2(e) as int,
        be_value(bytes.take(j as int)) as int,
        be_value(rest) as int,
    );
}

/// Where the first `j` bytes hold index `p` and `held` bits past it, the index is
/// read from those bytes alone.
proof fn lemma_index_from_prefix(bytes: Seq<u8>, w: nat, p: nat, j: nat, held: nat)
    requires
        j <= bytes.len(),
        8 * j == p * w + held,
        held >= w,
        w >= 1,
    ensures
        index_at(bytes, w, p) == (be_value(bytes.take(j as int)) / pow2((held - w) as nat)) % pow2(w),
{
    let s = (held - w) as nat;
    let e = (8 * (bytes.len() - j)) as nat;
    assert(8 * bytes.len() - p * w - w == e + s);
    lemma_pow2_adds(e, s);
    lemma_pow2_pos(e);
    lemma_pow2_pos(s);
    lemma_div_denominator(be_value(bytes) as int, pow2(e) as int, pow2(s) as int);
    lemma_prefix_value(bytes, j);
}

/// Reading the top `w` of `held` bits, and keeping the rest.
proof fn lemma_take_field(x: nat, s: nat, w: nat)
    ensures
        (x % pow2(s + w)) / pow2(s) == (x / pow2(s)) % pow2(w),
        (x % pow2(s + w)) % pow2(s) == x % pow2(s),
{
    lemma_pow2_adds(s, w);
    lemma_pow2_pos(s);
    lemma_pow2_pos(w);
    let y = pow2(s) as int;
    let z = pow2(w) as int;
    lemma_breakdown(x as int, y, z);
    lemma_mod_mod(x as int, y, z);
    lemma_mod_pos_bound(x as int, y);
    lemma_mod_pos_bound((x as int / y), z);
    lemma_fundamental_div_mod_converse((x as int) % (y * z), y, (x as int / y) % z, (x as int) % y);
}

/// Shifting one more byte into the register.
proof fn lemma_pull(x: nat, held: nat, b: nat)
    requires
        b < 256,
    ensures
        (x % pow2(held)) * 256 + b == (x * 256 + b) % pow2(held + 8),
        (x % pow2(held)) * 256 + b < pow2(held + 8),
{
    lemma_pow2_adds(held, 8);
    lemma2_to64();
    lemma_pow2_pos(held);
    let ph = pow2(held) as int;
    let xi = x as int;
    lemma_fundamental_div_mod(xi, ph);
    lemma_mod_pos_bound(xi, ph);
    assert((xi % ph) * 256 + b < ph * 256) by (nonlinear_arith)
        requires xi % ph < ph, b < 256;
    assert(xi * 256 + b == (xi / ph) * (ph * 256) + ((xi % ph) * 256 + b)) by (nonlinear_arith)
        requires xi == ph * (xi / ph) + xi % ph;
    lemma_fundamental_div_mod_converse(xi * 256 + b, ph * 256, xi / ph, (xi % ph) * 256 + b);
}

/// Reads `total` indices of `bits_per_pixel` bits each from the packed stream,
/// each of which must be below `limit`. Where the bytes end before `total`
/// indices are read, the indices read so far come back; a stream of no byte
/// while pixels are wanted, and an index of `limit` or more, are errors.
pub fn unpack_indices(bytes: &[u8], bits_per_pixel: u8, total: usize, limit: usize) -> (r: Result<Vec<u8>, CodecError>)
    requires
        1 <= bits_per_pixel <= 8,
    ensures
        r is Ok <==> decode_ok(bytes@, bits_per_pixel as nat, total as nat, limit as nat),
        r matches Ok(v) ==> v.len() == decodable(bytes.len() as nat, bits_per_pixel as nat, total as nat)
            && forall|p: int| 0 <= p < v.len() ==> v[p] == #[trigger] index_at(bytes@, bits_per_pixel as nat, p as nat),
        r matches Err(e) ==> decode_error(bytes@, bits_per_pixel as nat, total as nat, limit as nat, e),
{
    if total > 0 && bytes.len() == 0 {
        return Err(CodecError::UnexpectedEnd);
    }
    let bpp: u32 = bits_per_pixel as u32;
    let ghost w = bpp as nat;
    let ghost len = bytes.len() as nat;
    let mut out: Vec<u8> = Vec::new();
    let mut acc: u32 = 0;
    let mut held: u32 = 0;
    let mut j: usize = 0;
    let mut p: usize = 0;
    let mut ran_out = false;
    proof {
        lemma2_to64();
        assert(bytes@.take(0) =~= Seq::<u8>::empty());
    }
    while p < total && !ran_out
        invariant
            1 <= bpp <= 8,
            w == bpp,
            bpp == bits_per_pixel as u32,
            len == bytes.len(),
            total > 0 ==> len > 0,
            p <= total,
            j <= bytes.len(),
            out.len() == p,
            held < 16,
            held + p * w == 8 * j,
            acc == be_value(bytes@.take(j as int)) % pow2(held as nat),
            ran_out ==> held < w && j == bytes.len(),
            forall|q: nat| q < p ==> out[q as int] == #[trigger] index_at(bytes@, w, q)
                && index_at(bytes@, w, q) < limit,
        decreases total - p, if ran_out { 0int } else { 1int },
    {
        while held < bpp && j < bytes.len()
            invariant
                1 <= bpp <= 8,
                w == bpp,
                len == bytes.len(),
                j <= bytes.len(),
                held < 16,
                held + p * w == 8 * j,
                acc == be_value(bytes@.take(j as int)) % pow2(held as nat),
            decreases bytes.len() - j,
        {
            let b = bytes[j];
            proof {
                lemma2_to64();
                lemma_pull(be_value(bytes@.take(j as int)), held as nat, b as nat);
                assert(bytes@.take(j as int + 1).drop_last() =~= bytes@.take(j as int));
                lemma_pow2_strictly_increases(held as nat, 8);
                lemma_mod_pos_bound(be_value(bytes@.take(j as int)) as int, pow2(held as nat) as int);
                lemma_u32_shl_is_mul(acc, 8);
            }
            acc = (acc << 8u32) + b as u32;
            held = held + 8;
            j = j + 1;
        }
        if held < bpp {
            ran_out = true;
        } else {
            let s: u32 = held - bpp;
            let ghost x = be_value(bytes@.take(j as int));
            proof {
                lemma_index_from_prefix(bytes@, w, p as nat, j as nat, held as nat);
                lemma_take_field(x, s as nat, w);
                lemma_u32_shr_is_div(acc, s);
                lemma_pow2_pos(s as nat);
                lemma_pow2_pos(w);
                lemma_mod_pos_bound((x / pow2(s as nat)) as int, pow2(w) as int);
                lemma2_to64();
                if w < 8 {
                    lemma_pow2_strictly_increases(w, 8);
                }
                lemma_u32_pow2_no_overflow(s as nat);
                lemma_u32_shl_is_mul(1, s);
                assert((p + 1) * w == p * w + w) by (nonlinear_arith);
            }
            let idx: u32 = acc >> s;
            if idx as usize >= limit {
                proof {
                    let pn = p as nat;
                    lemma_div_is_ordered(((pn + 1) * w) as int, (8 * len) as int, w as int);
                    lemma_div_multiples_vanish((pn + 1) as int, w as int);
                    assert(w * (pn + 1) == (pn + 1) * w) by (nonlinear_arith);
                    assert(pn < decodable(len, w, total as nat));
                    assert(idx == index_at(bytes@, w, pn));
                    assert(index_at(bytes@, w, pn) >= limit);
                    assert(forall|q: nat| q < pn ==> #[trigger] index_at(bytes@, w, q) < limit);
                    let e = CodecError::IndexOutOfRange { pixel: p, index: idx as usize };
                    assert(e == (CodecError::IndexOutOfRange {
                        pixel: pn as usize,
                        index: index_at(bytes@, w, pn) as usize,
                    }));
                    assert(decode_error(bytes@, w, total as nat, limit as nat, e));
                    assert(!indices_in_range(bytes@, w, total as nat, limit as nat));
                }
                return Err(CodecError::IndexOutOfRange { pixel: p, index: idx as usize });
            }
            out.push(idx as u8);
            acc = acc % (1u32 << s);
            held = s;
            p = p + 1;
        }
    }
    proof {
        let d = decodable(len, w, total as nat);
        if ran_out {
            lemma_fundamental_div_mod_converse((8 * len) as int, w as int, p as int, held as int);
            assert(d == p);
        } else {
            lemma_div_is_ordered((p * w) as int, (8 * len) as int, w as int);
            lemma_div_multiples_vanish(p as int, w as int);
            assert(w * p == p * w) by (nonlinear_arith);
            assert(d == p);
        }
        assert forall|q: nat| q < decodable(bytes@.len(), w, total as nat) implies #[trigger] index_at(bytes@, w, q) < limit by {
            assert(q < p);
            assert(out[q as int] == index_at(bytes@, w, q));
        }
        assert forall|q: int| 0 <= q < out.len() implies out[q] == #[trigger] index_at(bytes@, w, q as nat) by {
            assert(out[(q as nat) as int] == index_at(bytes@, w, q as nat));
        }
    }
    Ok(out)
}

/// A stream that holds some bytes, but fewer than `total` pixels need, is no
/// error of its own: where every index it holds names an entry, the decode
/// succeeds and reads fewer than `total` pixels.
pub proof fn lemma_short_stream_truncates(bytes: Seq<u8>, bpp: nat, total: nat, limit: nat)
    requires
        1 <= bpp,
        0 < bytes.len() < packed_len(total, bpp),
        indices_in_range(bytes, bpp, total, limit),
    ensures
        decode_ok(bytes, bpp, total, limit),
        decodable(bytes.len(), bpp, total) < total,
{
    let len = bytes.len();
    assert(8 * len < total * bpp);
    if total <= (8 * len) / bpp {
        lemma_fundamental_div_mod((8 * len) as int, bpp as int);
        lemma_mod_pos_bound((8 * len) as int, bpp as int);
        assert(total * bpp <= bpp * ((8 * len) / bpp)) by (nonlinear_arith)
            requires total <= (8 * len) / bpp, bpp >= 1;
    }
}

/// An index that names no entry, among those a decode reads, makes the decode
/// fail with an out-of-range error; it is never clamped.
pub proof fn lemma_out_of_range_rejected(bytes: Seq<u8>, bpp: nat, total: nat, limit: nat, p: nat)
    requires
        1 <= bpp,
        p < decodable(bytes.len(), bpp, total),
        index_at(bytes, bpp, p) >= limit,
    ensures
        !decode_ok(bytes, bpp, total, limit),
        forall|e: CodecError| decode_error(bytes, bpp, total, limit, e) ==> e is IndexOutOfRange,
{
    if bytes.len() == 0 {
        assert((8 * bytes.len()) / bpp == 0);
    }
}

} // verus!
