//! The index stream and the packed byte stream, both read as numbers.
//!
//! A sequence of digits of `width` bits each, most significant first, is the
//! number `digits_value`. The packed stream is the index stream written in
//! base 2^bpp and then in base 256, with zero bits appended up to a whole byte.
use vstd::prelude::*;
use vstd::arithmetic::power2::*;
use vstd::arithmetic::div_mod::*;
use vstd::arithmetic::mul::*;

verus! {

/// The number whose base-2^width digits, most significant first, are `s`.
pub open spec fn digits_value(s: Seq<u8>, width: nat) -> nat
    decreases s.len(),
{
    if s.len() == 0 {
        0
    } else {
        (digits_value(s.drop_last(), width) * pow2(width) + s.last()) as nat
    }
}

/// The bytes read as one big-endian number.
pub open spec fn be_value(bytes: Seq<u8>) -> nat {
    digits_value(bytes, 8)
}

/// Every digit is below 2^width.
pub open spec fn all_fit(s: Seq<u8>, width: nat) -> bool {
    forall|i: int| 0 <= i < s.len() ==> (#[trigger] s[i]) < pow2(width)
}

/// Number of bytes that hold `n` digits of `bpp` bits: ceil(n * bpp / 8).
pub open spec fn packed_len(n: nat, bpp: nat) -> nat {
    (n * bpp + 7) / 8
}

/// The zero bits appended after `n` digits of `bpp` bits to fill the last byte.
pub open spec fn pad_bits(n: nat, bpp: nat) -> nat {
    (8 * packed_len(n, bpp) - n * bpp) as nat
}

/// The `width`-bit field that starts `start` bits into the byte stream.
pub open spec fn field(bytes: Seq<u8>, start: nat, width: nat) -> nat {
    (be_value(bytes) / pow2((8 * bytes.len() - start - width) as nat)) % pow2(width)
}

/// The `p`-th index held in the byte stream at `bpp` bits per index.
pub open spec fn index_at(bytes: Seq<u8>, bpp: nat, p: nat) -> nat {
    field(bytes, p * bpp, bpp)
}

/// Every byte is a base-256 digit.
pub proof fn lemma_bytes_fit(s: Seq<u8>)
    ensures
        all_fit(s, 8),
{
    lemma2_to64();
}

/// A value of `s.len()` digits stays below 2^(width * len).
pub proof fn lemma_digits_bound(s: Seq<u8>, width: nat)
    requires
        all_fit(s, width),
    ensures
        digits_value(s, width) < pow2(width * s.len()),
    decreases s.len(),
{
    if s.len() == 0 {
        lemma2_to64();
    } else {
        let t = s.drop_last();
        lemma_digits_bound(t, width);
        let a = digits_value(t, width) as int;
        let p = pow2(width) as int;
        let q = pow2(width * t.len()) as int;
        assert(a + 1 <= q);
        lemma_pow2_pos(width);
        assert((a + 1) * p <= q * p) by (nonlinear_arith)
            requires a + 1 <= q, 0 < p;
        lemma_pow2_adds(width * t.len(), width);
        assert(width * t.len() + width == width * s.len()) by (nonlinear_arith)
            requires s.len() == t.len() + 1;
        assert(s.last() < p);
        assert((a + 1) * p == a * p + p) by (nonlinear_arith);
    }
}

/// Cutting a digit sequence at `j` splits its value into a high and a low part.
pub proof fn lemma_digits_split(s: Seq<u8>, j: nat, width: nat)
    requires
        j <= s.len(),
    ensures
        digits_value(s, width) == digits_value(s.take(j as int), width) * pow2(
            (width * (s.len() - j)) as nat,
        ) + digits_value(s.skip(j as int), width),
    decreases s.len(),
{
    if j == s.len() {
        assert(s.take(j as int) =~= s);
        assert(s.skip(j as int) =~= Seq::<u8>::empty());
        assert(width * (s.len() - j) == 0) by (nonlinear_arith)
            requires j == s.len();
        lemma2_to64();
    } else {
        let t = s.drop_last();
        lemma_digits_split(t, j, width);
        assert(t.take(j as int) =~= s.take(j as int));
        assert(s.skip(j as int).drop_last() =~= t.skip(j as int));
        assert(s.skip(j as int).last() == s.last());
        let hi = digits_value(s.take(j as int), width) as int;
        let lo = digits_value(t.skip(j as int), width) as int;
        let e = (width * (t.len() - j)) as nat;
        assert(width * (s.len() - j) == e + width) by (nonlinear_arith)
            requires s.len() == t.len() + 1, j <= t.len(), e == width * (t.len() - j);
        lemma_pow2_adds(e, width);
        let pe = pow2(e) as int;
        let pw = pow2(width) as int;
        assert((hi * pe + lo) * pw == hi * (pe * pw) + lo * pw) by (nonlinear_arith);
    }
}

/// The digit at position `p` is the matching field of the value.
pub proof fn lemma_digit_at(s: Seq<u8>, width: nat, p: nat)
    requires
        p < s.len(),
        all_fit(s, width),
    ensures
        (digits_value(s, width) / pow2((width * (s.len() - 1 - p)) as nat)) % pow2(width) == s[p as int],
{
    let e = (width * (s.len() - 1 - p)) as nat;
    lemma_digits_split(s, p + 1, width);
    let rest = s.skip(p as int + 1);
    assert forall|i: int| 0 <= i < rest.len() implies (#[trigger] rest[i]) < pow2(width) by {
        assert(rest[i] == s[p + 1 + i]);
    }
    lemma_digits_bound(rest, width);
    assert(width * rest.len() == e) by (nonlinear_arith)
        requires rest.len() == s.len() - 1 - p, e == width * (s.len() - 1 - p);
    lemma_pow2_pos(e);
    lemma_fundamental_div_mod_converse(
        digits_value(s, width) as int,
        pow2(e) as int,
        digits_value(s.take(p as int + 1), width) as int,
        digits_value(rest, width) as int,
    );
    let head = s.take(p as int + 1);
    assert(head.drop_last() =~= s.take(p as int));
    lemma_pow2_pos(width);
    lemma_fundamental_div_mod_converse(
        digits_value(head, width) as int,
        pow2(width) as int,
        digits_value(s.take(p as int), width) as int,
        s[p as int] as int,
    );
}

} // verus!
