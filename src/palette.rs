//! The palette builder: count coarse colours, keep the most frequent, order
//! them by luminance, and pad with black.
use vstd::prelude::*;
use vstd::set_lib::*;
use crate::color::{Rgb, NUM_BUCKETS, bucket, bucket_of, bucket_color, coarse_color, color_of_bucket, lemma_bucket_color, luminance, luminance_spec};

verus! {

/// How many pixels of `raster` fall in bucket `k`.
pub open spec fn bucket_count(raster: Seq<Rgb>, k: int) -> nat
    decreases raster.len(),
{
    if raster.len() == 0 {
        0
    } else {
        bucket_count(raster.drop_last(), k) + if bucket_of(raster.last()) == k { 1nat } else { 0nat }
    }
}

/// Bucket `k` holds at least one pixel of `raster`.
pub open spec fn present(raster: Seq<Rgb>, k: int) -> bool {
    0 <= k < NUM_BUCKETS && bucket_count(raster, k) > 0
}

/// The buckets that hold at least one pixel.
pub open spec fn present_set(raster: Seq<Rgb>) -> Set<int> {
    Set::new(|k: int| present(raster, k))
}

/// How many palette entries come from the raster; the rest are black.
pub open spec fn selected_len(raster: Seq<Rgb>, n: nat) -> nat {
    let d = present_set(raster).len();
    if n <= d { n } else { d }
}

/// Bucket `k` is among the colours kept in `chosen`.
pub open spec fn kept(chosen: Seq<Rgb>, k: int) -> bool {
    chosen.contains(bucket_color(k))
}

/// Bucket `a` holds more pixels of `raster` than bucket `b`, or as many and is lower.
pub open spec fn frequent_before(raster: Seq<Rgb>, a: int, b: int) -> bool {
    bucket_count(raster, a) > bucket_count(raster, b) || (bucket_count(raster, a) == bucket_count(raster, b) && a < b)
}

/// Colour `x` stands before colour `y` in a palette for `raster`: it is
/// brighter, or as bright and its bucket is `frequent_before` that of `y`.
pub open spec fn ranks_before(raster: Seq<Rgb>, x: Rgb, y: Rgb) -> bool {
    luminance_spec(x) > luminance_spec(y) || (luminance_spec(x) == luminance_spec(y) && frequent_before(
        raster,
        bucket_of(x),
        bucket_of(y),
    ))
}

/// `palette` is the palette of `n` colours for `raster`: its first
/// `selected_len` entries are distinct coarse colours of the raster, each
/// `frequent_before` every coarse colour left out, ordered by `ranks_before`
/// (non-increasing luminance, ties as frequency decides); the entries after
/// them are black.
pub open spec fn is_palette_for(raster: Seq<Rgb>, n: nat, palette: Seq<Rgb>) -> bool {
    let m = selected_len(raster, n);
    &&& palette.len() == n
    &&& forall|i: int| 0 <= i < m ==> present(raster, bucket_of(#[trigger] palette[i]))
        && palette[i] == coarse_color(palette[i])
    &&& palette.take(m as int).no_duplicates()
    &&& forall|i: int, j: int| 0 <= i < j < m ==> ranks_before(raster, #[trigger] palette[i], #[trigger] palette[j])
    &&& forall|i: int| m <= i < n ==> #[trigger] palette[i] == (Rgb { r: 0, g: 0, b: 0 })
    &&& forall|i: int, k: int|
        #![trigger palette[i], present(raster, k)]
        0 <= i < m && present(raster, k) && !kept(palette.take(m as int), k)
            ==> frequent_before(raster, bucket_of(palette[i]), k)
}

/// Bucket `a` is kept before bucket `b`: it is more frequent, or as frequent
/// and lower.
pub open spec fn beats(counts: Seq<usize>, a: int, b: int) -> bool {
    counts[a] > counts[b] || (counts[a] == counts[b] && a < b)
}

/// A bucket holds no more pixels than the raster has.
proof fn lemma_count_bound(raster: Seq<Rgb>, k: int)
    ensures
        bucket_count(raster, k) <= raster.len(),
    decreases raster.len(),
{
    if raster.len() > 0 {
        lemma_count_bound(raster.drop_last(), k);
    }
}

/// The non-empty buckets are among the 4096 buckets.
proof fn lemma_present_finite(raster: Seq<Rgb>)
    ensures
        present_set(raster).finite(),
        present_set(raster).subset_of(set_int_range(0, NUM_BUCKETS as int)),
{
    lemma_int_range(0, NUM_BUCKETS as int);
    lemma_len_subset(present_set(raster), set_int_range(0, NUM_BUCKETS as int));
}

/// How many pixels fall in each bucket.
fn count_buckets(raster: &[Rgb]) -> (counts: Vec<usize>)
    ensures
        counts.len() == NUM_BUCKETS,
        forall|k: int| 0 <= k < NUM_BUCKETS ==> counts@[k] == #[trigger] bucket_count(raster@, k),
{
    let mut counts: Vec<usize> = Vec::new();
    let mut k: usize = 0;
    while k < NUM_BUCKETS
        invariant
            k <= NUM_BUCKETS,
            counts.len() == k,
            forall|j: int| 0 <= j < k ==> counts@[j] == 0,
        decreases NUM_BUCKETS - k,
    {
        counts.push(0);
        k = k + 1;
    }
    let mut p: usize = 0;
    proof {
        assert(raster@.take(0) =~= Seq::<Rgb>::empty());
    }
    while p < raster.len()
        invariant
            p <= raster.len(),
            counts.len() == NUM_BUCKETS,
            forall|j: int| 0 <= j < NUM_BUCKETS ==> counts@[j] == #[trigger] bucket_count(raster@.take(p as int), j),
        decreases raster.len() - p,
    {
        let b = bucket(raster[p]);
        proof {
            assert(raster@.take(p as int + 1).drop_last() =~= raster@.take(p as int));
            lemma_count_bound(raster@.take(p as int), b as int);
        }
        let c = counts[b];
        counts.set(b, c + 1);
        proof {
            let next = raster@.take(p as int + 1);
            assert(next.last() == raster@[p as int]);
            assert forall|j: int| 0 <= j < NUM_BUCKETS implies counts@[j] == #[trigger] bucket_count(next, j) by {
                assert(bucket_count(next, j) == bucket_count(raster@.take(p as int), j) + if bucket_of(raster@[p as int]) == j { 1nat } else { 0nat });
            }
        }
        p = p + 1;
    }
    proof {
        assert(raster@.take(p as int) =~= raster@);
    }
    counts
}

/// The first bucket with the largest count in `cur`.
fn largest_bucket(cur: &Vec<usize>) -> (best: usize)
    requires
        cur.len() == NUM_BUCKETS,
    ensures
        best < NUM_BUCKETS,
        forall|k: int| 0 <= k < NUM_BUCKETS ==> cur@[k] <= #[trigger] cur@[best as int],
        forall|k: int| 0 <= k < best ==> #[trigger] cur@[k] < cur@[best as int],
{
    let mut best: usize = 0;
    let mut k: usize = 1;
    while k < NUM_BUCKETS
        invariant
            1 <= k <= NUM_BUCKETS,
            cur.len() == NUM_BUCKETS,
            best < k,
            forall|j: int| 0 <= j < k ==> cur@[j] <= #[trigger] cur@[best as int],
            forall|j: int| 0 <= j < best ==> #[trigger] cur@[j] < cur@[best as int],
        decreases NUM_BUCKETS - k,
    {
        if cur[k] > cur[best] {
            best = k;
        }
        k = k + 1;
    }
    best
}

/// Up to `n` distinct buckets of non-zero count, each more frequent than every
/// bucket left out, or as frequent and lower; fewer than `n` only when every
/// non-empty bucket is in.
fn select_frequent(counts: &Vec<usize>, n: usize) -> (sel: Vec<usize>)
    requires
        counts.len() == NUM_BUCKETS,
    ensures
        sel.len() <= n,
        sel@.no_duplicates(),
        forall|i: int| 0 <= i < sel.len() ==> #[trigger] sel@[i] < NUM_BUCKETS && counts@[sel@[i] as int] > 0,
        forall|i: int, k: int|
            #![trigger counts@[k], sel@[i]]
            0 <= i < sel.len() && 0 <= k < NUM_BUCKETS && !sel@.contains(k as usize) ==> beats(
                counts@,
                sel@[i] as int,
                k,
            ),
        sel.len() < n ==> forall|k: int| 0 <= k < NUM_BUCKETS && #[trigger] counts@[k] > 0 ==> sel@.contains(k as usize),
{
    let mut cur: Vec<usize> = counts.clone();
    let mut sel: Vec<usize> = Vec::new();
    let mut exhausted = false;
    proof {
        assert(cur@ =~= counts@);
    }
    while sel.len() < n && !exhausted
        invariant
            counts.len() == NUM_BUCKETS,
            cur.len() == NUM_BUCKETS,
            sel.len() <= n,
            sel@.no_duplicates(),
            forall|k: int| 0 <= k < NUM_BUCKETS ==> #[trigger] cur@[k] == if sel@.contains(k as usize) { 0 } else { counts@[k] },
            forall|i: int| 0 <= i < sel.len() ==> #[trigger] sel@[i] < NUM_BUCKETS && counts@[sel@[i] as int] > 0,
            forall|i: int, k: int|
            #![trigger cur@[k], sel@[i]]
                0 <= i < sel.len() && 0 <= k < NUM_BUCKETS ==> cur@[k] <= counts@[sel@[i] as int],
            exhausted ==> forall|k: int| 0 <= k < NUM_BUCKETS ==> #[trigger] cur@[k] == 0,
            forall|i: int, k: int|
                #![trigger counts@[k], sel@[i]]
                0 <= i < sel.len() && 0 <= k < NUM_BUCKETS && !sel@.contains(k as usize) ==> beats(
                    counts@,
                    sel@[i] as int,
                    k,
                ),
        decreases n - sel.len(), if exhausted { 0int } else { 1int },
    {
        let best = largest_bucket(&cur);
        if cur[best] == 0 {
            exhausted = true;
        } else {
            let ghost old_sel = sel@;
            let ghost old_cur = cur@;
            assert(!sel@.contains(best));
            sel.push(best);
            cur.set(best, 0);
            proof {
                assert forall|k: int| 0 <= k < NUM_BUCKETS && k != best as int implies #[trigger] sel@.contains(k as usize) == old_sel.contains(k as usize) by {
                            if sel@.contains(k as usize) {
                                let t = choose|t: int| 0 <= t < sel.len() && sel@[t] == k as usize;
                                assert(t < old_sel.len());
                                assert(old_sel[t] == k as usize);
                            }
                            if old_sel.contains(k as usize) {
                                let t = choose|t: int| 0 <= t < old_sel.len() && old_sel[t] == k as usize;
                                assert(sel@[t] == k as usize);
                            }
                }
                assert(sel@[sel.len() - 1] == best);
                assert forall|i: int, k: int|
                    #![trigger counts@[k], sel@[i]]
                    0 <= i < sel.len() && 0 <= k < NUM_BUCKETS && !sel@.contains(k as usize) implies beats(
                        counts@,
                        sel@[i] as int,
                        k,
                    ) by {
                    assert(k != best as int);
                    assert(!old_sel.contains(k as usize));
                    if i < old_sel.len() {
                        assert(sel@[i] == old_sel[i]);
                    } else {
                        assert(old_cur[k] == counts@[k]);
                        assert(old_cur[k] <= old_cur[best as int]);
                        if k < best {
                            assert(old_cur[k] < old_cur[best as int]);
                        }
                    }
                }
                assert forall|k: int| 0 <= k < NUM_BUCKETS implies #[trigger] cur@[k] == if sel@.contains(k as usize) { 0 } else { counts@[k] } by {
                    if k != best as int {
                        assert(sel@.contains(k as usize) == old_sel.contains(k as usize)) by {
                            if sel@.contains(k as usize) {
                                let t = choose|t: int| 0 <= t < sel.len() && sel@[t] == k as usize;
                                assert(t < old_sel.len());
                                assert(old_sel[t] == k as usize);
                            }
                            if old_sel.contains(k as usize) {
                                let t = choose|t: int| 0 <= t < old_sel.len() && old_sel[t] == k as usize;
                                assert(sel@[t] == k as usize);
                            }
                        }
                    } else {
                        assert(sel@[sel.len() - 1] == best);
                    }
                }
                assert forall|i: int, k: int|
            #![trigger cur@[k], sel@[i]]
                    0 <= i < sel.len() && 0 <= k < NUM_BUCKETS implies cur@[k] <= counts@[sel@[i] as int] by {
                    assert(cur@[k] <= old_cur[k]);
                    if i < old_sel.len() {
                        assert(sel@[i] == old_sel[i]);
                    } else {
                        assert(old_cur[k] <= old_cur[best as int]);
                    }
                }
            }
        }
    }
    proof {
        if sel.len() < n {
            assert forall|k: int| 0 <= k < NUM_BUCKETS && #[trigger] counts@[k] > 0 implies sel@.contains(k as usize) by {
                assert(cur@[k] == 0);
            }
        }
    }
    sel
}

/// Exchanging two entries keeps what a sequence holds, and keeps it free of repeats.
proof fn lemma_swap_keeps(s: Seq<Rgb>, a: int, b: int)
    requires
        0 <= a < s.len(),
        0 <= b < s.len(),
    ensures
        ({
            let t = s.update(a, s[b]).update(b, s[a]);
            &&& t.len() == s.len()
            &&& forall|x: Rgb| #[trigger] t.contains(x) == s.contains(x)
            &&& s.no_duplicates() ==> t.no_duplicates()
        }),
{
    let t = s.update(a, s[b]).update(b, s[a]);
    assert forall|x: Rgb| #[trigger] t.contains(x) == s.contains(x) by {
        if t.contains(x) {
            let i = choose|i: int| 0 <= i < t.len() && t[i] == x;
            if i == a {
                assert(s[b] == x);
            } else if i == b {
                assert(s[a] == x);
            } else {
                assert(s[i] == x);
            }
        }
        if s.contains(x) {
            let i = choose|i: int| 0 <= i < s.len() && s[i] == x;
            if i == a {
                assert(t[b] == x);
            } else if i == b {
                assert(t[a] == x);
            } else {
                assert(t[i] == x);
            }
        }
    }
}

/// Colour `x` stands before colour `y`: it is brighter, or as bright and its
/// bucket is kept before `y`'s.
pub open spec fn color_before(counts: Seq<usize>, x: Rgb, y: Rgb) -> bool {
    luminance_spec(x) > luminance_spec(y) || (luminance_spec(x) == luminance_spec(y) && beats(
        counts,
        bucket_of(x),
        bucket_of(y),
    ))
}

/// Whether colour `x` stands before colour `y`.
fn stands_before(counts: &Vec<usize>, x: Rgb, y: Rgb) -> (r: bool)
    requires
        counts.len() == NUM_BUCKETS,
    ensures
        r == color_before(counts@, x, y),
{
    let lx = luminance(x);
    let ly = luminance(y);
    if lx != ly {
        return lx > ly;
    }
    let bx = bucket(x);
    let by = bucket(y);
    counts[bx] > counts[by] || (counts[bx] == counts[by] && bx < by)
}

/// Orders distinct coarse colours by `color_before`: by non-increasing
/// luminance, then as their buckets were kept.
fn sort_by_rank(v: &mut Vec<Rgb>, counts: &Vec<usize>)
    requires
        counts.len() == NUM_BUCKETS,
        old(v)@.no_duplicates(),
        forall|i: int| 0 <= i < old(v).len() ==> #[trigger] old(v)@[i] == bucket_color(bucket_of(old(v)@[i])),
    ensures
        final(v).len() == old(v).len(),
        forall|x: Rgb| #[trigger] final(v)@.contains(x) == old(v)@.contains(x),
        final(v)@.no_duplicates(),
        forall|i: int, j: int| 0 <= i < j < final(v).len() ==> color_before(counts@, #[trigger] final(v)@[i], #[trigger] final(v)@[j]),
{
    let ghost orig = v@;
    let mut i: usize = 1;
    while i < v.len()
        invariant
            counts.len() == NUM_BUCKETS,
            v.len() == orig.len(),
            forall|x: Rgb| #[trigger] v@.contains(x) == orig.contains(x),
            v@.no_duplicates(),
            forall|t: int| 0 <= t < v.len() ==> #[trigger] v@[t] == bucket_color(bucket_of(v@[t])),
            1 <= i || v.len() == 0,
            forall|a: int, b: int| 0 <= a < b < i && b < v.len() ==> color_before(counts@, #[trigger] v@[a], #[trigger] v@[b]),
        decreases v.len() - i,
    {
        let mut j: usize = i;
        while j > 0 && stands_before(counts, v[j], v[j - 1])
            invariant
                counts.len() == NUM_BUCKETS,
                v.len() == orig.len(),
                forall|x: Rgb| #[trigger] v@.contains(x) == orig.contains(x),
                v@.no_duplicates(),
                forall|t: int| 0 <= t < v.len() ==> #[trigger] v@[t] == bucket_color(bucket_of(v@[t])),
                1 <= i < v.len(),
                j <= i,
                forall|a: int, b: int| 0 <= a < b <= i && a != j && b != j ==> color_before(counts@, #[trigger] v@[a], #[trigger] v@[b]),
                forall|b: int| j < b <= i ==> color_before(counts@, v@[j as int], #[trigger] v@[b]),
                0 < j < i ==> color_before(counts@, v@[j - 1], v@[j + 1]),
            decreases j,
        {
            let ghost before = v@;
            let a = v[j - 1];
            let b = v[j];
            v.set(j - 1, b);
            v.set(j, a);
            proof {
                lemma_swap_keeps(before, j - 1, j as int);
                assert(v@ =~= before.update(j - 1, before[j as int]).update(j as int, before[j - 1]));
            }
            j = j - 1;
        }
        proof {
            if j > 0 {
                assert(v@[j - 1] != v@[j as int]);
                assert(bucket_of(v@[j - 1]) != bucket_of(v@[j as int]));
                assert(color_before(counts@, v@[j - 1], v@[j as int]));
            }
        }
        i = i + 1;
    }
}

/// The palette of `n` colours for `raster`: the most frequent coarse colours
/// (each channel with its low four bits cleared), at most `n` of them, the lower
/// bucket kept at a tie in count; in order of non-increasing luminance, equal
/// luminance in the order they were kept; then black up to `n` entries.
pub fn build_palette(raster: &[Rgb], n: usize) -> (palette: Vec<Rgb>)
    ensures
        is_palette_for(raster@, n as nat, palette@),
{
    let counts = count_buckets(raster);
    let sel = select_frequent(&counts, n);
    let ghost m = selected_len(raster@, n as nat);
    proof {
        let si = Seq::new(sel.len() as nat, |i: int| sel@[i] as int);
        assert(si.no_duplicates()) by {
            assert forall|a: int, b: int| 0 <= a < si.len() && 0 <= b < si.len() && a != b implies si[a] != si[b] by {
                assert(sel@[a] != sel@[b]);
            }
        }
        si.unique_seq_to_set();
        lemma_present_finite(raster@);
        if sel.len() == n {
            assert(si.to_set().subset_of(present_set(raster@))) by {
                assert forall|k: int| si.to_set().contains(k) implies present_set(raster@).contains(k) by {
                    let t = choose|t: int| 0 <= t < si.len() && si[t] == k;
                    assert(sel@[t] < NUM_BUCKETS);
                }
            }
            lemma_len_subset(si.to_set(), present_set(raster@));
        } else {
            assert(si.to_set() =~= present_set(raster@)) by {
                assert forall|k: int| present_set(raster@).contains(k) implies si.to_set().contains(k) by {
                    assert(counts@[k] > 0);
                    assert(sel@.contains(k as usize));
                    let t = choose|t: int| 0 <= t < sel.len() && sel@[t] == k as usize;
                    assert(si[t] == k);
                }
                assert forall|k: int| si.to_set().contains(k) implies present_set(raster@).contains(k) by {
                    let t = choose|t: int| 0 <= t < si.len() && si[t] == k;
                    assert(sel@[t] < NUM_BUCKETS);
                }
            }
        }
        assert(sel.len() == m);
    }
    let mut colors: Vec<Rgb> = Vec::new();
    let mut i: usize = 0;
    while i < sel.len()
        invariant
            i <= sel.len(),
            colors.len() == i,
            forall|t: int| 0 <= t < sel.len() ==> #[trigger] sel@[t] < NUM_BUCKETS,
            forall|t: int| 0 <= t < i ==> #[trigger] colors@[t] == bucket_color(sel@[t] as int) && bucket_of(colors@[t]) == sel@[t],
        decreases sel.len() - i,
    {
        colors.push(color_of_bucket(sel[i]));
        i = i + 1;
    }
    proof {
        assert(colors@.no_duplicates()) by {
            assert forall|a: int, b: int| 0 <= a < colors.len() && 0 <= b < colors.len() && a != b implies colors@[a] != colors@[b] by {
                assert(sel@[a] != sel@[b]);
            }
        }
    }
    let ghost unsorted = colors@;
    sort_by_rank(&mut colors, &counts);
    let mut palette = colors;
    let ghost sorted = palette@;
    while palette.len() < n
        invariant
            sorted.len() == m <= n,
            m <= palette.len() <= n,
            palette@.take(m as int) =~= sorted,
            forall|t: int| m <= t < palette.len() ==> #[trigger] palette@[t] == (Rgb { r: 0, g: 0, b: 0 }),
        decreases n - palette.len(),
    {
        palette.push(Rgb::black());
    }
    proof {
        assert forall|a: int, b: int| 0 <= a < b < m implies ranks_before(raster@, #[trigger] palette@[a], #[trigger] palette@[b]) by {
            assert(sorted[a] == palette@[a]);
            assert(sorted[b] == palette@[b]);
            assert(color_before(counts@, sorted[a], sorted[b]));
            let ka = bucket_of(palette@[a]);
            let kb = bucket_of(palette@[b]);
            assert(counts@[ka] == bucket_count(raster@, ka));
            assert(counts@[kb] == bucket_count(raster@, kb));
        }
        assert forall|t: int| 0 <= t < m implies present(raster@, bucket_of(#[trigger] palette@[t]))
            && palette@[t] == coarse_color(palette@[t]) by {
            lemma_bucket_color(palette@[t]);
            assert(sorted[t] == palette@[t]);
            assert(sorted.contains(palette@[t]));
            assert(unsorted.contains(palette@[t]));
            let u = choose|u: int| 0 <= u < unsorted.len() && unsorted[u] == palette@[t];
            assert(counts@[sel@[u] as int] > 0);
        }
        assert forall|t: int, k: int|
            #![trigger palette@[t], present(raster@, k)]
            0 <= t < m && present(raster@, k) && !kept(palette@.take(m as int), k)
                implies frequent_before(raster@, bucket_of(palette@[t]), k) by {
            assert(sorted[t] == palette@[t]);
            assert(sorted.contains(palette@[t]));
            let u = choose|u: int| 0 <= u < unsorted.len() && unsorted[u] == palette@[t];
            assert(!sorted.contains(bucket_color(k)));
            assert(!unsorted.contains(bucket_color(k)));
            if sel@.contains(k as usize) {
                let w = choose|w: int| 0 <= w < sel.len() && sel@[w] == k as usize;
                assert(unsorted[w] == bucket_color(k));
            }
            assert(beats(counts@, sel@[u] as int, k));
            assert(counts@[k] == bucket_count(raster@, k));
            assert(counts@[sel@[u] as int] == bucket_count(raster@, sel@[u] as int));
        }
    }
    palette
}

/// Two sequences strictly ordered by `ranks_before` that hold the same colours
/// are equal.
proof fn lemma_ranked_unique(raster: Seq<Rgb>, a: Seq<Rgb>, b: Seq<Rgb>)
    requires
        a.len() == b.len(),
        forall|x: Rgb| #[trigger] a.contains(x) <==> b.contains(x),
        forall|i: int, j: int| 0 <= i < j < a.len() ==> ranks_before(raster, #[trigger] a[i], #[trigger] a[j]),
        forall|i: int, j: int| 0 <= i < j < b.len() ==> ranks_before(raster, #[trigger] b[i], #[trigger] b[j]),
    ensures
        a == b,
    decreases a.len(),
{
    if a.len() == 0 {
        assert(a =~= b);
    } else {
        assert(a.contains(a[0]));
        assert(b.contains(b[0]));
        assert(a.contains(b[0]));
        let j = choose|j: int| 0 <= j < b.len() && b[j] == a[0];
        let i = choose|i: int| 0 <= i < a.len() && a[i] == b[0];
        if a[0] != b[0] {
            assert(j > 0 && i > 0);
            assert(ranks_before(raster, b[0], b[j]));
            assert(ranks_before(raster, a[0], a[i]));
            assert(false);
        }
        let ta = a.drop_first();
        let tb = b.drop_first();
        assert forall|x: Rgb| #[trigger] ta.contains(x) <==> tb.contains(x) by {
            if ta.contains(x) {
                let t = choose|t: int| 0 <= t < ta.len() && ta[t] == x;
                assert(a[t + 1] == x);
                assert(ranks_before(raster, a[0], a[t + 1]));
                assert(x != b[0]);
                assert(a.contains(x));
                assert(b.contains(x));
                let u = choose|u: int| 0 <= u < b.len() && b[u] == x;
                assert(u != 0);
                assert(tb[u - 1] == x);
            }
            if tb.contains(x) {
                let t = choose|t: int| 0 <= t < tb.len() && tb[t] == x;
                assert(b[t + 1] == x);
                assert(ranks_before(raster, b[0], b[t + 1]));
                assert(x != a[0]);
                assert(b.contains(x));
                assert(a.contains(x));
                let u = choose|u: int| 0 <= u < a.len() && a[u] == x;
                assert(u != 0);
                assert(ta[u - 1] == x);
            }
        }
        assert forall|i: int, j: int| 0 <= i < j < ta.len() implies ranks_before(raster, #[trigger] ta[i], #[trigger] ta[j]) by {
            assert(ranks_before(raster, a[i + 1], a[j + 1]));
        }
        assert forall|i: int, j: int| 0 <= i < j < tb.len() implies ranks_before(raster, #[trigger] tb[i], #[trigger] tb[j]) by {
            assert(ranks_before(raster, b[i + 1], b[j + 1]));
        }
        lemma_ranked_unique(raster, ta, tb);
        assert(a =~= b) by {
            assert forall|t: int| 0 <= t < a.len() implies a[t] == b[t] by {
                if t > 0 {
                    assert(a[t] == ta[t - 1]);
                    assert(b[t] == tb[t - 1]);
                }
            }
        }
    }
}

/// Every colour kept in one palette for `raster` is kept in any other.
proof fn lemma_kept_within(raster: Seq<Rgb>, n: nat, p: Seq<Rgb>, q: Seq<Rgb>)
    requires
        is_palette_for(raster, n, p),
        is_palette_for(raster, n, q),
    ensures
        forall|x: Rgb| #[trigger] p.take(selected_len(raster, n) as int).contains(x) ==> q.take(
            selected_len(raster, n) as int,
        ).contains(x),
{
    let m = selected_len(raster, n);
    let a = p.take(m as int);
    let b = q.take(m as int);
    assert forall|x: Rgb| #[trigger] a.contains(x) implies b.contains(x) by {
        if !b.contains(x) {
            let i = choose|i: int| 0 <= i < a.len() && a[i] == x;
            assert(a[i] == p[i]);
            let k = bucket_of(x);
            lemma_bucket_color(x);
            assert(present(raster, k));
            assert(!kept(b, k));
            assert forall|y: Rgb| #[trigger] b.contains(y) implies a.remove(i).contains(y) by {
                let j = choose|j: int| 0 <= j < b.len() && b[j] == y;
                assert(b[j] == q[j]);
                assert(frequent_before(raster, bucket_of(q[j]), k));
                if !a.contains(y) {
                    let ky = bucket_of(y);
                    lemma_bucket_color(y);
                    assert(present(raster, ky));
                    assert(!kept(a, ky));
                    assert(frequent_before(raster, bucket_of(p[i]), ky));
                    assert(false);
                }
                let t = choose|t: int| 0 <= t < a.len() && a[t] == y;
                assert(t != i);
                if t < i {
                    assert(a.remove(i)[t] == y);
                } else {
                    assert(a.remove(i)[t - 1] == y);
                }
            }
            a.unique_seq_to_set();
            b.unique_seq_to_set();
            let ar = a.remove(i);
            assert(ar.no_duplicates()) by {
                assert forall|s: int, t: int| 0 <= s < ar.len() && 0 <= t < ar.len() && s != t implies ar[s] != ar[t] by {
                    let s2 = if s < i { s } else { s + 1 };
                    let t2 = if t < i { t } else { t + 1 };
                    assert(ar[s] == a[s2]);
                    assert(ar[t] == a[t2]);
                }
            }
            ar.unique_seq_to_set();
            assert(b.to_set().subset_of(ar.to_set()));
            lemma_len_subset(b.to_set(), ar.to_set());
            assert(false);
        }
    }
}

/// The palette is determined by the raster and `n`: two palettes that both meet
/// `is_palette_for` are the same.
pub proof fn lemma_palette_deterministic(raster: Seq<Rgb>, n: nat, p: Seq<Rgb>, q: Seq<Rgb>)
    requires
        is_palette_for(raster, n, p),
        is_palette_for(raster, n, q),
    ensures
        p == q,
{
    let m = selected_len(raster, n);
    lemma_kept_within(raster, n, p, q);
    lemma_kept_within(raster, n, q, p);
    let a = p.take(m as int);
    let b = q.take(m as int);
    assert forall|i: int, j: int| 0 <= i < j < a.len() implies ranks_before(raster, #[trigger] a[i], #[trigger] a[j]) by {
        assert(a[i] == p[i] && a[j] == p[j]);
    }
    assert forall|i: int, j: int| 0 <= i < j < b.len() implies ranks_before(raster, #[trigger] b[i], #[trigger] b[j]) by {
        assert(b[i] == q[i] && b[j] == q[j]);
    }
    lemma_ranked_unique(raster, a, b);
    assert(p =~= q) by {
        assert forall|t: int| 0 <= t < p.len() implies p[t] == q[t] by {
            if t < m {
                assert(p[t] == a[t] && q[t] == b[t]);
            }
        }
    }
}

} // verus!
