//! Colours, their luminance, and the coarse colour buckets used to count them.
use vstd::prelude::*;

verus! {

/// One pixel: red, green and blue, each 0..=255.
#[derive(Clone, Copy, Debug, PartialEq, Eq, Structural)]
pub struct Rgb {
    pub r: u8,
    pub g: u8,
    pub b: u8,
}

/// Number of coarse colour buckets: 16 levels per channel.
pub const NUM_BUCKETS: usize = 4096;

/// Luminance scaled by 1000: 299 R + 587 G + 114 B.
pub open spec fn luminance_spec(c: Rgb) -> int {
    299 * c.r + 587 * c.g + 114 * c.b
}

/// A channel with its low four bits cleared.
pub open spec fn coarse(v: u8) -> u8 {
    ((v / 16) * 16) as u8
}

/// The colour with each channel's low four bits cleared.
pub open spec fn coarse_color(c: Rgb) -> Rgb {
    Rgb { r: coarse(c.r), g: coarse(c.g), b: coarse(c.b) }
}

/// The bucket of a colour: its three high nibbles read as one number.
pub open spec fn bucket_of(c: Rgb) -> int {
    (c.r / 16) * 256 + (c.g / 16) * 16 + c.b / 16
}

/// The representative colour of a bucket.
pub open spec fn bucket_color(k: int) -> Rgb {
    Rgb { r: ((k / 256) * 16) as u8, g: (((k / 16) % 16) * 16) as u8, b: ((k % 16) * 16) as u8 }
}

/// Squared Euclidean distance between two colours in RGB space.
pub open spec fn dist_spec(a: Rgb, b: Rgb) -> int {
    (a.r - b.r) * (a.r - b.r) + (a.g - b.g) * (a.g - b.g) + (a.b - b.b) * (a.b - b.b)
}

impl Rgb {
    /// The colour black.
    pub fn black() -> (r: Rgb)
        ensures
            r == (Rgb { r: 0, g: 0, b: 0 }),
    {
        Rgb { r: 0, g: 0, b: 0 }
    }
}

/// ITU-R BT.601 luminance, scaled by 1000 so that it is exact.
pub fn luminance(c: Rgb) -> (l: u32)
    ensures
        l == luminance_spec(c),
{
    299 * (c.r as u32) + 587 * (c.g as u32) + 114 * (c.b as u32)
}

/// The bucket that a colour falls in once each channel keeps only its high nibble.
pub fn bucket(c: Rgb) -> (k: usize)
    ensures
        k == bucket_of(c),
        k < NUM_BUCKETS,
{
    (c.r as usize / 16) * 256 + (c.g as usize / 16) * 16 + c.b as usize / 16
}

/// The colour that stands for a bucket: each channel's high nibble, low nibble zero.
pub fn color_of_bucket(k: usize) -> (c: Rgb)
    requires
        k < NUM_BUCKETS,
    ensures
        c == bucket_color(k as int),
        bucket_of(c) == k,
{
    let c = Rgb { r: ((k / 256) * 16) as u8, g: (((k / 16) % 16) * 16) as u8, b: ((k % 16) * 16) as u8 };
    c
}

/// A bucket's colour is the coarse colour of every colour in it.
pub proof fn lemma_bucket_color(c: Rgb)
    ensures
        bucket_color(bucket_of(c)) == coarse_color(c),
{
}

/// A squared distance is never negative.
pub proof fn lemma_dist_nonneg(a: Rgb, b: Rgb)
    ensures
        dist_spec(a, b) >= 0,
{
    let dr = a.r - b.r;
    let dg = a.g - b.g;
    let db = a.b - b.b;
    assert(dist_spec(a, b) == dr * dr + dg * dg + db * db);
    assert(dr * dr >= 0 && dg * dg >= 0 && db * db >= 0) by (nonlinear_arith);
}

/// Only a colour itself is at squared distance zero from it.
pub proof fn lemma_dist_zero(a: Rgb, b: Rgb)
    ensures
        dist_spec(a, b) == 0 <==> a == b,
{
    let dr = a.r - b.r;
    let dg = a.g - b.g;
    let db = a.b - b.b;
    assert(dist_spec(a, b) == dr * dr + dg * dg + db * db);
    assert(dr * dr >= 0 && dg * dg >= 0 && db * db >= 0) by (nonlinear_arith);
    assert(dr * dr == 0 ==> dr == 0) by (nonlinear_arith);
    assert(dg * dg == 0 ==> dg == 0) by (nonlinear_arith);
    assert(db * db == 0 ==> db == 0) by (nonlinear_arith);
    if dist_spec(a, b) == 0 {
        assert(a.r == b.r && a.g == b.g && a.b == b.b);
        assert(a == b);
    }
    if a == b {
        assert(dr == 0 && dg == 0 && db == 0);
        assert(dr * dr == 0 && dg * dg == 0 && db * db == 0) by (nonlinear_arith)
            requires dr == 0 && dg == 0 && db == 0;
    }
}

/// Squared distance between two colours.
pub fn distance(a: Rgb, b: Rgb) -> (d: u32)
    ensures
        d == dist_spec(a, b),
{
    let dr: i32 = a.r as i32 - b.r as i32;
    let dg: i32 = a.g as i32 - b.g as i32;
    let db: i32 = a.b as i32 - b.b as i32;
    assert(dr * dr <= 65025) by (nonlinear_arith)
        requires -255 <= dr <= 255;
    assert(dg * dg <= 65025) by (nonlinear_arith)
        requires -255 <= dg <= 255;
    assert(db * db <= 65025) by (nonlinear_arith)
        requires -255 <= db <= 255;
    assert(dr * dr >= 0 && dg * dg >= 0 && db * db >= 0) by (nonlinear_arith);
    (dr * dr + dg * dg + db * db) as u32
}

} // verus!
