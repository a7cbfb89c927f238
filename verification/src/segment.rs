//! Clustering of depth samples into zones: a one-dimensional k-means over
//! eight-bit depth values, with a fixed bound on the number of rounds.

use vstd::prelude::*;
use crate::median::ascending;
use crate::median::ascending_is_ascending;
use crate::median::sorted;
use crate::pixels::gap;

verus! {

/// The number of times the centroids are recomputed at most.
pub const MAX_ROUNDS: u8 = 100;

/// A zone of depth: the least and the greatest sample of one cluster, or
/// `(None, None)` for a cluster without samples.
pub type Zone = (Option<u8>, Option<u8>);

/// Centroid `k` is the one nearest to `v`; among equally near ones, the
/// first.
pub open spec fn is_nearest(c: Seq<u32>, v: int, k: int) -> bool {
    &&& 0 <= k < c.len()
    &&& forall|j: int| 0 <= j < c.len() ==> gap(c[k] as int, v) <= gap(#[trigger] c[j] as int, v)
    &&& forall|j: int| 0 <= j < k ==> gap(c[k] as int, v) < gap(#[trigger] c[j] as int, v)
}

/// The index of the centroid that `v` is assigned to.
pub open spec fn nearest(c: Seq<u32>, v: int) -> int {
    choose|k: int| is_nearest(c, v, k)
}

/// A value is assigned to one centroid only.
pub proof fn nearest_is_unique(c: Seq<u32>, v: int, a: int, b: int)
    requires
        is_nearest(c, v, a),
        is_nearest(c, v, b),
    ensures
        a == b,
        a == nearest(c, v),
{
    let k = nearest(c, v);
    assert(is_nearest(c, v, k));
    if a < b {
        assert(gap(c[b] as int, v) < gap(c[a] as int, v));
    } else if b < a {
        assert(gap(c[a] as int, v) < gap(c[b] as int, v));
    }
    if a < k {
        assert(gap(c[k] as int, v) < gap(c[a] as int, v));
    } else if k < a {
        assert(gap(c[a] as int, v) < gap(c[k] as int, v));
    }
}

/// The best index among the first `n` centroids.
spec fn nearest_among(c: Seq<u32>, v: int, n: int) -> int
    decreases n,
{
    if n <= 1 {
        0
    } else {
        let b = nearest_among(c, v, n - 1);
        if gap(c[n - 1] as int, v) < gap(c[b] as int, v) {
            n - 1
        } else {
            b
        }
    }
}

proof fn nearest_among_is_nearest(c: Seq<u32>, v: int, n: int)
    requires
        1 <= n <= c.len(),
    ensures
        is_nearest(c.take(n), v, nearest_among(c, v, n)),
    decreases n,
{
    if n > 1 {
        nearest_among_is_nearest(c, v, n - 1);
        let b = nearest_among(c, v, n - 1);
        let k = nearest_among(c, v, n);
        assert forall|j: int| 0 <= j < n implies gap(c.take(n)[k] as int, v) <= gap(
            #[trigger] c.take(n)[j] as int,
            v,
        ) by {
            if j < n - 1 {
                assert(c.take(n - 1)[j] == c[j]);
            }
        }
        assert forall|j: int| 0 <= j < k implies gap(c.take(n)[k] as int, v) < gap(
            #[trigger] c.take(n)[j] as int,
            v,
        ) by {
            assert(c.take(n - 1)[j] == c[j]);
        }
    }
}

/// Where there is a centroid at all, every value is assigned to one.
pub proof fn nearest_exists(c: Seq<u32>, v: int)
    requires
        c.len() > 0,
    ensures
        is_nearest(c, v, nearest(c, v)),
{
    nearest_among_is_nearest(c, v, c.len() as int);
    assert(c.take(c.len() as int) == c);
}

/// How many of the first `n` samples are assigned to centroid `k`.
pub open spec fn cluster_count(samples: Seq<u8>, c: Seq<u32>, k: int, n: int) -> int
    decreases n,
{
    if n <= 0 {
        0
    } else {
        cluster_count(samples, c, k, n - 1) + if is_nearest(c, samples[n - 1] as int, k) {
            1int
        } else {
            0int
        }
    }
}

/// The sum of those of the first `n` samples that are assigned to centroid
/// `k`.
pub open spec fn cluster_sum(samples: Seq<u8>, c: Seq<u32>, k: int, n: int) -> int
    decreases n,
{
    if n <= 0 {
        0
    } else {
        cluster_sum(samples, c, k, n - 1) + if is_nearest(c, samples[n - 1] as int, k) {
            samples[n - 1] as int
        } else {
            0int
        }
    }
}

/// The centroid that replaces centroid `k`: the mean of its samples,
/// rounded down, or the centroid itself where it has no sample.
pub open spec fn cluster_mean(samples: Seq<u8>, c: Seq<u32>, k: int) -> u32 {
    if cluster_count(samples, c, k, samples.len() as int) == 0 {
        c[k]
    } else {
        (cluster_sum(samples, c, k, samples.len() as int) / cluster_count(
            samples,
            c,
            k,
            samples.len() as int,
        )) as u32
    }
}

/// One round: every centroid replaced by the mean of its cluster, and the
/// new centroids put in rising order.
pub open spec fn refined(samples: Seq<u8>, c: Seq<u32>) -> Seq<u32> {
    ascending(Seq::new(c.len(), |k: int| cluster_mean(samples, c, k)))
}

/// The centroids after at most `rounds` rounds, stopping at the first round
/// that changes nothing.
pub open spec fn settled(samples: Seq<u8>, c: Seq<u32>, rounds: nat) -> Seq<u32>
    decreases rounds,
{
    if rounds == 0 || refined(samples, c) == c {
        c
    } else {
        settled(samples, refined(samples, c), (rounds - 1) as nat)
    }
}

/// `lo` is the least of the samples.
pub open spec fn is_least(samples: Seq<u8>, lo: int) -> bool {
    &&& exists|i: int| 0 <= i < samples.len() && #[trigger] samples[i] == lo
    &&& forall|i: int| 0 <= i < samples.len() ==> lo <= #[trigger] samples[i]
}

/// `hi` is the greatest of the samples.
pub open spec fn is_greatest(samples: Seq<u8>, hi: int) -> bool {
    &&& exists|i: int| 0 <= i < samples.len() && #[trigger] samples[i] == hi
    &&& forall|i: int| 0 <= i < samples.len() ==> hi >= #[trigger] samples[i]
}

/// The least of the samples; zero where there is no sample.
pub open spec fn least(samples: Seq<u8>) -> int {
    if samples.len() == 0 {
        0
    } else {
        choose|lo: int| is_least(samples, lo)
    }
}

/// The greatest of the samples; zero where there is no sample.
pub open spec fn greatest(samples: Seq<u8>) -> int {
    if samples.len() == 0 {
        0
    } else {
        choose|hi: int| is_greatest(samples, hi)
    }
}

/// The centroids that the clustering starts from: `zones` values spread
/// evenly from the least sample to the greatest, both included.
pub open spec fn initial_centroids(samples: Seq<u8>, zones: int) -> Seq<u32> {
    Seq::new(
        zones as nat,
        |i: int| (least(samples) + i * (greatest(samples) - least(samples)) / (zones - 1)) as u32,
    )
}

/// The centroids that the zones are read from.
pub open spec fn final_centroids(samples: Seq<u8>, zones: int) -> Seq<u32> {
    settled(samples, initial_centroids(samples, zones), MAX_ROUNDS as nat)
}

/// `z` is the zone of centroid `k` over the first `n` samples.
pub open spec fn is_zone_upto(z: Zone, samples: Seq<u8>, c: Seq<u32>, k: int, n: int) -> bool {
    if forall|i: int| 0 <= i < n ==> !is_nearest(c, #[trigger] samples[i] as int, k) {
        z.0 is None && z.1 is None
    } else {
        &&& z.0 is Some
        &&& z.1 is Some
        &&& exists|i: int|
            0 <= i < n && is_nearest(c, #[trigger] samples[i] as int, k) && samples[i] == z.0.unwrap()
        &&& exists|i: int|
            0 <= i < n && is_nearest(c, #[trigger] samples[i] as int, k) && samples[i] == z.1.unwrap()
        &&& forall|i: int|
            0 <= i < n && is_nearest(c, #[trigger] samples[i] as int, k) ==> z.0.unwrap()
                <= samples[i] <= z.1.unwrap()
    }
}

/// `z` is the zone of centroid `k`: the least and the greatest of the
/// samples assigned to it, or `(None, None)` where none is.
pub open spec fn is_zone_of(z: Zone, samples: Seq<u8>, c: Seq<u32>, k: int) -> bool {
    is_zone_upto(z, samples, c, k, samples.len() as int)
}

/// How many of the samples are assigned to one of the first `m` centroids.
pub open spec fn assigned_count(samples: Seq<u8>, c: Seq<u32>, m: int) -> int
    decreases m,
{
    if m <= 0 {
        0
    } else {
        assigned_count(samples, c, m - 1) + cluster_count(samples, c, m - 1, samples.len() as int)
    }
}

spec fn assigned_upto(samples: Seq<u8>, c: Seq<u32>, m: int, n: int) -> int
    decreases m,
{
    if m <= 0 {
        0
    } else {
        assigned_upto(samples, c, m - 1, n) + cluster_count(samples, c, m - 1, n)
    }
}

proof fn assigned_grows(samples: Seq<u8>, c: Seq<u32>, m: int, n: int)
    requires
        c.len() > 0,
        0 <= m <= c.len(),
        0 <= n < samples.len(),
    ensures
        assigned_upto(samples, c, m, n + 1) == assigned_upto(samples, c, m, n) + if nearest(
            c,
            samples[n] as int,
        ) < m {
            1int
        } else {
            0int
        },
    decreases m,
{
    nearest_exists(c, samples[n] as int);
    if m > 0 {
        assigned_grows(samples, c, m - 1, n);
        if is_nearest(c, samples[n] as int, m - 1) {
            nearest_is_unique(c, samples[n] as int, m - 1, m - 1);
        }
    }
}

proof fn assigned_all(samples: Seq<u8>, c: Seq<u32>, n: int)
    requires
        c.len() > 0,
        0 <= n <= samples.len(),
    ensures
        assigned_upto(samples, c, c.len() as int, n) == n,
    decreases n,
{
    if n > 0 {
        assigned_all(samples, c, n - 1);
        assigned_grows(samples, c, c.len() as int, n - 1);
        nearest_exists(c, samples[n - 1] as int);
    } else {
        assigned_none(samples, c, c.len() as int);
    }
}

proof fn assigned_none(samples: Seq<u8>, c: Seq<u32>, m: int)
    ensures
        assigned_upto(samples, c, m, 0) == 0,
    decreases m,
{
    if m > 0 {
        assigned_none(samples, c, m - 1);
    }
}

proof fn assigned_upto_all(samples: Seq<u8>, c: Seq<u32>, m: int)
    ensures
        assigned_upto(samples, c, m, samples.len() as int) == assigned_count(samples, c, m),
    decreases m,
{
    if m > 0 {
        assigned_upto_all(samples, c, m - 1);
    }
}

/// Every sample belongs to one cluster: over all centroids, the sizes of
/// the clusters add up to the number of samples.
pub proof fn clusters_cover_all_samples(samples: Seq<u8>, c: Seq<u32>)
    requires
        c.len() > 0,
    ensures
        assigned_count(samples, c, c.len() as int) == samples.len(),
{
    assigned_all(samples, c, samples.len() as int);
    assigned_upto_all(samples, c, c.len() as int);
}

proof fn settled_keeps_length(samples: Seq<u8>, c: Seq<u32>, rounds: nat)
    ensures
        settled(samples, c, rounds).len() == c.len(),
    decreases rounds,
{
    if rounds == 0 || refined(samples, c) == c {
    } else {
        ascending_is_ascending(Seq::new(c.len(), |k: int| cluster_mean(samples, c, k)));
        settled_keeps_length(samples, refined(samples, c), (rounds - 1) as nat);
    }
}

/// For two zones or more, the clustering ends with as many centroids as
/// zones were asked for, and their clusters hold every sample once.
pub proof fn split_covers_all_samples(samples: Seq<u8>, zones: u8)
    requires
        zones >= 2,
    ensures
        final_centroids(samples, zones as int).len() == zones,
        assigned_count(samples, final_centroids(samples, zones as int), zones as int)
            == samples.len(),
{
    settled_keeps_length(samples, initial_centroids(samples, zones as int), MAX_ROUNDS as nat);
    clusters_cover_all_samples(samples, final_centroids(samples, zones as int));
}

fn gap_of(a: u32, b: u32) -> (d: u32)
    ensures
        d == gap(a as int, b as int),
{
    if a >= b {
        a - b
    } else {
        b - a
    }
}

/// The index of the centroid nearest to `v`, the first one on ties.
pub fn nearest_index(c: &Vec<u32>, v: u8) -> (k: usize)
    requires
        c@.len() > 0,
    ensures
        is_nearest(c@, v as int, k as int),
        k == nearest(c@, v as int),
{
    let mut best: usize = 0;
    let mut j: usize = 1;
    while j < c.len()
        invariant
            1 <= j <= c@.len(),
            best < j,
            forall|i: int| 0 <= i < j ==> gap(c@[best as int] as int, v as int) <= gap(
                #[trigger] c@[i] as int,
                v as int,
            ),
            forall|i: int| 0 <= i < best ==> gap(c@[best as int] as int, v as int) < gap(
                #[trigger] c@[i] as int,
                v as int,
            ),
        decreases c@.len() - j,
    {
        if gap_of(c[j], v as u32) < gap_of(c[best], v as u32) {
            best = j;
        }
        j = j + 1;
    }
    proof {
        nearest_is_unique(c@, v as int, best as int, best as int);
    }
    best
}

/// The least and the greatest sample; `(0, 0)` without samples.
fn extremes(samples: &Vec<u8>) -> (r: (u8, u8))
    ensures
        r.0 == least(samples@),
        r.1 == greatest(samples@),
        r.0 <= r.1,
{
    if samples.len() == 0 {
        return (0, 0);
    }
    let mut lo: u8 = samples[0];
    let mut hi: u8 = samples[0];
    let mut i: usize = 1;
    while i < samples.len()
        invariant
            1 <= i <= samples@.len(),
            lo <= hi,
            exists|j: int| 0 <= j < i && #[trigger] samples@[j] == lo,
            exists|j: int| 0 <= j < i && #[trigger] samples@[j] == hi,
            forall|j: int| 0 <= j < i ==> lo <= #[trigger] samples@[j] <= hi,
        decreases samples@.len() - i,
    {
        if samples[i] < lo {
            lo = samples[i];
        }
        if samples[i] > hi {
            hi = samples[i];
        }
        i = i + 1;
    }
    proof {
        assert(is_least(samples@, lo as int));
        assert(is_greatest(samples@, hi as int));
        let l = least(samples@);
        let g = greatest(samples@);
        assert(is_least(samples@, l));
        assert(is_greatest(samples@, g));
    }
    (lo, hi)
}

fn spread(samples: &Vec<u8>, zones: u8) -> (c: Vec<u32>)
    requires
        zones >= 2,
    ensures
        c@ == initial_centroids(samples@, zones as int),
{
    let (lo, hi) = extremes(samples);
    let width: u32 = (hi - lo) as u32;
    let parts: u32 = (zones - 1) as u32;
    let mut c: Vec<u32> = Vec::new();
    let mut i: u8 = 0;
    while i < zones
        invariant
            i <= zones,
            zones >= 2,
            parts == zones - 1,
            width == hi - lo,
            lo == least(samples@),
            hi == greatest(samples@),
            c@.len() == i,
            forall|j: int|
                0 <= j < i ==> c@[j] == (least(samples@) + j * (greatest(samples@) - least(
                    samples@,
                )) / (zones - 1)) as u32,
        decreases zones - i,
    {
        assert(i * width <= 255 * 255) by (nonlinear_arith)
            requires
                0 <= i <= 255,
                0 <= width <= 255,
        ;
        let offset: u32 = (i as u32) * width / parts;
        assert(offset <= 255 * 255);
        c.push(lo as u32 + offset);
        i = i + 1;
    }
    assert(c@ =~= initial_centroids(samples@, zones as int));
    c
}

proof fn sum_bounded(samples: Seq<u8>, c: Seq<u32>, k: int, n: int)
    requires
        0 <= n <= samples.len(),
    ensures
        0 <= cluster_count(samples, c, k, n) <= n,
        0 <= cluster_sum(samples, c, k, n) <= 255 * cluster_count(samples, c, k, n),
    decreases n,
{
    if n > 0 {
        sum_bounded(samples, c, k, n - 1);
    }
}

/// One round of the clustering.
fn refine(samples: &Vec<u8>, c: &Vec<u32>) -> (next: Vec<u32>)
    requires
        c@.len() > 0,
    ensures
        next@ == refined(samples@, c@),
        next@.len() == c@.len(),
{
    let zones: usize = c.len();
    let mut sums: Vec<u128> = Vec::new();
    let mut counts: Vec<usize> = Vec::new();
    let mut k: usize = 0;
    while k < zones
        invariant
            k <= zones,
            sums@.len() == k,
            counts@.len() == k,
            forall|j: int| 0 <= j < k ==> sums@[j] == 0 && counts@[j] == 0,
        decreases zones - k,
    {
        sums.push(0);
        counts.push(0);
        k = k + 1;
    }
    let mut i: usize = 0;
    while i < samples.len()
        invariant
            i <= samples@.len(),
            zones == c@.len(),
            zones > 0,
            sums@.len() == zones,
            counts@.len() == zones,
            forall|j: int|
                0 <= j < zones ==> #[trigger] sums@[j] == cluster_sum(samples@, c@, j, i as int),
            forall|j: int|
                0 <= j < zones ==> #[trigger] counts@[j] == cluster_count(
                    samples@,
                    c@,
                    j,
                    i as int,
                ),
        decreases samples@.len() - i,
    {
        let v: u8 = samples[i];
        let at: usize = nearest_index(c, v);
        proof {
            sum_bounded(samples@, c@, at as int, i as int);
            assert forall|j: int| 0 <= j < zones && j != at implies !is_nearest(
                c@,
                v as int,
                j,
            ) by {
                if is_nearest(c@, v as int, j) {
                    nearest_is_unique(c@, v as int, j, at as int);
                }
            }
        }
        let sum: u128 = sums[at] + v as u128;
        let count: usize = counts[at] + 1;
        sums.set(at, sum);
        counts.set(at, count);
        i = i + 1;
    }
    let mut means: Vec<u32> = Vec::new();
    let mut k: usize = 0;
    while k < zones
        invariant
            k <= zones,
            zones == c@.len(),
            sums@.len() == zones,
            counts@.len() == zones,
            means@.len() == k,
            forall|j: int|
                0 <= j < zones ==> #[trigger] sums@[j] == cluster_sum(
                    samples@,
                    c@,
                    j,
                    samples@.len() as int,
                ),
            forall|j: int|
                0 <= j < zones ==> #[trigger] counts@[j] == cluster_count(
                    samples@,
                    c@,
                    j,
                    samples@.len() as int,
                ),
            forall|j: int| 0 <= j < k ==> means@[j] == cluster_mean(samples@, c@, j),
        decreases zones - k,
    {
        if counts[k] == 0 {
            means.push(c[k]);
        } else {
            proof {
                sum_bounded(samples@, c@, k as int, samples@.len() as int);
                let s = sums@[k as int] as int;
                let n = counts@[k as int] as int;
                assert(0 <= s / n <= 255) by (nonlinear_arith)
                    requires
                        0 <= s <= 255 * n,
                        n > 0,
                ;
            }
            means.push((sums[k] / (counts[k] as u128)) as u32);
        }
        k = k + 1;
    }
    assert(means@ =~= Seq::new(c@.len(), |k: int| cluster_mean(samples@, c@, k)));
    sorted(&means)
}

fn same(a: &Vec<u32>, b: &Vec<u32>) -> (r: bool)
    ensures
        r == (a@ == b@),
{
    if a.len() != b.len() {
        return false;
    }
    let mut i: usize = 0;
    while i < a.len()
        invariant
            i <= a@.len(),
            a@.len() == b@.len(),
            forall|j: int| 0 <= j < i ==> a@[j] == b@[j],
        decreases a@.len() - i,
    {
        if a[i] != b[i] {
            return false;
        }
        i = i + 1;
    }
    assert(a@ =~= b@);
    true
}

/// The zones of the clusters about the centroids `c`, one for each
/// centroid in their order.
fn zones_of(samples: &Vec<u8>, c: &Vec<u32>) -> (out: Vec<Zone>)
    requires
        c@.len() > 0,
    ensures
        out@.len() == c@.len(),
        forall|k: int| 0 <= k < c@.len() ==> is_zone_of(#[trigger] out@[k], samples@, c@, k),
{
    let zones: usize = c.len();
    let mut out: Vec<Zone> = Vec::new();
    let mut k: usize = 0;
    while k < zones
        invariant
            k <= zones,
            out@.len() == k,
            forall|j: int| 0 <= j < k ==> is_zone_upto(#[trigger] out@[j], samples@, c@, j, 0),
        decreases zones - k,
    {
        out.push((None, None));
        k = k + 1;
    }
    let mut i: usize = 0;
    while i < samples.len()
        invariant
            i <= samples@.len(),
            zones == c@.len(),
            zones > 0,
            out@.len() == zones,
            forall|j: int|
                0 <= j < zones ==> is_zone_upto(#[trigger] out@[j], samples@, c@, j, i as int),
        decreases samples@.len() - i,
    {
        let v: u8 = samples[i];
        let at: usize = nearest_index(c, v);
        let before: Zone = out[at];
        let after: Zone = match before {
            (Some(lo), Some(hi)) => (
                Some(if v < lo { v } else { lo }),
                Some(if v > hi { v } else { hi }),
            ),
            _ => (Some(v), Some(v)),
        };
        proof {
            assert(is_zone_upto(before, samples@, c@, at as int, i as int));
            assert(is_nearest(c@, samples@[i as int] as int, at as int));
            assert(is_zone_upto(after, samples@, c@, at as int, i + 1)) by {
                if before.0 is Some {
                    let a = choose|a: int|
                        0 <= a < i && is_nearest(c@, #[trigger] samples@[a] as int, at as int)
                            && samples@[a] == before.0.unwrap();
                    let b = choose|b: int|
                        0 <= b < i && is_nearest(c@, #[trigger] samples@[b] as int, at as int)
                            && samples@[b] == before.1.unwrap();
                    assert(0 <= a < i + 1 && is_nearest(c@, samples@[a] as int, at as int));
                    assert(0 <= b < i + 1 && is_nearest(c@, samples@[b] as int, at as int));
                }
            }
            assert forall|j: int| 0 <= j < zones && j != at implies is_zone_upto(
                #[trigger] out@[j],
                samples@,
                c@,
                j,
                i + 1,
            ) by {
                assert(is_zone_upto(out@[j], samples@, c@, j, i as int));
                if is_nearest(c@, v as int, j) {
                    nearest_is_unique(c@, v as int, j, at as int);
                }
                if out@[j].0 is Some {
                    let a = choose|a: int|
                        0 <= a < i && is_nearest(c@, #[trigger] samples@[a] as int, j)
                            && samples@[a] == out@[j].0.unwrap();
                    let b = choose|b: int|
                        0 <= b < i && is_nearest(c@, #[trigger] samples@[b] as int, j)
                            && samples@[b] == out@[j].1.unwrap();
                    assert(0 <= a < i + 1 && is_nearest(c@, samples@[a] as int, j));
                    assert(0 <= b < i + 1 && is_nearest(c@, samples@[b] as int, j));
                }
            }
        }
        out.set(at, after);
        i = i + 1;
    }
    out
}

/// Clusters the samples into `zones` zones of depth. With fewer than two
/// zones the result is the one zone `(None, None)`, which stands for every
/// depth. Else the centroids start evenly spread from the least sample to
/// the greatest, are recomputed until a round changes nothing or
/// `MAX_ROUNDS` rounds are done, and each centroid, in rising order, gives
/// the zone of the samples assigned to it.
pub fn split(samples: &Vec<u8>, zones: u8) -> (res: Vec<Zone>)
    ensures
        zones < 2 ==> res@ == seq![(None::<u8>, None::<u8>)],
        zones >= 2 ==> res@.len() == zones,
        zones >= 2 ==> forall|k: int|
            0 <= k < zones ==> is_zone_of(
                #[trigger] res@[k],
                samples@,
                final_centroids(samples@, zones as int),
                k,
            ),
{
    if zones < 2 {
        let mut res: Vec<Zone> = Vec::new();
        res.push((None, None));
        assert(res@ =~= seq![(None::<u8>, None::<u8>)]);
        return res;
    }
    let mut centroids: Vec<u32> = spread(samples, zones);
    let ghost start = centroids@;
    let mut rounds: u8 = 0;
    let mut done: bool = false;
    while rounds < MAX_ROUNDS && !done
        invariant
            rounds <= MAX_ROUNDS,
            centroids@.len() == zones,
            zones >= 2,
            settled(samples@, start, MAX_ROUNDS as nat) == settled(
                samples@,
                centroids@,
                (MAX_ROUNDS - rounds) as nat,
            ),
            done ==> refined(samples@, centroids@) == centroids@,
        decreases MAX_ROUNDS - rounds + if done { 0int } else { 1int },
    {
        let next: Vec<u32> = refine(samples, &centroids);
        if same(&next, &centroids) {
            done = true;
        } else {
            centroids = next;
            rounds = rounds + 1;
        }
    }
    zones_of(samples, &centroids)
}

} // verus!
