//! The quantizer: each pixel becomes the index of its nearest palette entry.
use vstd::prelude::*;
use crate::color::{Rgb, dist_spec, distance};

verus! {

/// `i` is the first palette entry at the least squared distance from `c`.
pub open spec fn is_nearest(c: Rgb, palette: Seq<Rgb>, i: int) -> bool {
    &&& 0 <= i < palette.len()
    &&& forall|j: int| 0 <= j < palette.len() ==> dist_spec(c, palette[i]) <= #[trigger] dist_spec(c, palette[j])
    &&& forall|j: int| 0 <= j < i ==> dist_spec(c, palette[i]) < #[trigger] dist_spec(c, palette[j])
}

/// The index of the palette entry nearest to `color` in squared RGB distance;
/// ties go to the lowest index.
pub fn nearest_index(color: Rgb, palette: &[Rgb]) -> (r: u8)
    requires
        1 <= palette.len() <= 256,
    ensures
        is_nearest(color, palette@, r as int),
{
    let mut min_dist: u32 = u32::MAX;
    let mut best: usize = 0;
    let mut i: usize = 0;
    let mut exact = false;
    while i < palette.len() && !exact
        invariant
            i <= palette.len() <= 256,
            i == 0 ==> min_dist == u32::MAX && best == 0,
            i > 0 ==> best < i && min_dist == dist_spec(color, palette@[best as int]),
            exact ==> i > 0 && min_dist == 0,
            forall|j: int| 0 <= j < i ==> min_dist <= #[trigger] dist_spec(color, palette@[j]),
            forall|j: int| 0 <= j < best ==> min_dist < #[trigger] dist_spec(color, palette@[j]),
        decreases palette.len() - i, if exact { 0int } else { 1int },
    {
        let d = distance(color, palette[i]);
        if d < min_dist {
            min_dist = d;
            best = i;
        }
        if d == 0 {
            exact = true;
        }
        i = i + 1;
    }
    proof {
        assert forall|j: int| 0 <= j < palette.len() implies min_dist <= #[trigger] dist_spec(color, palette@[j]) by {
            if j >= i {
                assert(dist_spec(color, palette@[j]) >= 0) by (nonlinear_arith);
            }
        }
    }
    best as u8
}

/// Every pixel of `raster`, in order, as the index of its nearest palette entry.
pub fn quantize(raster: &[Rgb], palette: &[Rgb]) -> (indices: Vec<u8>)
    requires
        1 <= palette.len() <= 256,
    ensures
        indices.len() == raster.len(),
        forall|p: int| 0 <= p < raster.len() ==> is_nearest(raster@[p], palette@, #[trigger] indices@[p] as int),
{
    let mut out: Vec<u8> = Vec::new();
    let mut p: usize = 0;
    while p < raster.len()
        invariant
            p <= raster.len(),
            1 <= palette.len() <= 256,
            out.len() == p,
            forall|q: int| 0 <= q < p ==> is_nearest(raster@[q], palette@, #[trigger] out@[q] as int),
        decreases raster.len() - p,
    {
        out.push(nearest_index(raster[p], palette));
        p = p + 1;
    }
    out
}

} // verus!
