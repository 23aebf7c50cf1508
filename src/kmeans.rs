//! The clustering engine: nearest-centroid assignment, mean update,
//! empty-cluster reseeding and a bounded convergence loop.
use crate::color::{sq_dist, Color};
use crate::draw::random_color;
use rand::rngs::StdRng;
use vstd::arithmetic::div_mod::{lemma_div_is_ordered, lemma_div_multiples_vanish};
use vstd::prelude::*;

verus! {

/// The sum of one channel over a sequence of colors.
pub open spec fn channel_sum(s: Seq<Color>, ch: int) -> int
    decreases s.len(),
{
    if s.len() == 0 {
        0
    } else {
        channel_sum(s.drop_last(), ch) + s.last().channel(ch)
    }
}

/// The component-wise arithmetic mean of a non-empty sequence of colors,
/// each channel truncated to the fixed-point grid.
pub open spec fn mean(s: Seq<Color>) -> Color {
    Color {
        r: (channel_sum(s, 0) / s.len() as int) as u16,
        g: (channel_sum(s, 1) / s.len() as int) as u16,
        b: (channel_sum(s, 2) / s.len() as int) as u16,
    }
}

/// Every color of the sequence is well formed.
pub open spec fn all_wf(s: Seq<Color>) -> bool {
    forall|i: int| 0 <= i < s.len() ==> #[trigger] s[i].wf()
}

/// `i` is the index of the centroid nearest to `p`; among centroids at equal
/// distance, the one with the lowest index.
pub open spec fn is_nearest(p: Color, cs: Seq<Color>, i: int) -> bool {
    &&& 0 <= i < cs.len()
    &&& forall|j: int| 0 <= j < cs.len() ==> sq_dist(p, cs[i]) <= sq_dist(p, #[trigger] cs[j])
    &&& forall|j: int| 0 <= j < i ==> sq_dist(p, cs[i]) < sq_dist(p, #[trigger] cs[j])
}

/// Each sample is labelled with its nearest centroid.
pub open spec fn is_assignment(samples: Seq<Color>, cs: Seq<Color>, labels: Seq<usize>) -> bool {
    &&& labels.len() == samples.len()
    &&& forall|i: int| 0 <= i < samples.len() ==> is_nearest(samples[i], cs, #[trigger] labels[i] as int)
}

/// The samples among the first `n` whose label is `c`, in sample order.
pub open spec fn members_upto(samples: Seq<Color>, labels: Seq<usize>, c: int, n: nat) -> Seq<Color>
    decreases n,
{
    if n == 0 {
        Seq::empty()
    } else {
        let prev = members_upto(samples, labels, c, (n - 1) as nat);
        if labels[n - 1] as int == c {
            prev.push(samples[n - 1])
        } else {
            prev
        }
    }
}

/// The cluster `c`: the samples labelled `c`, in sample order.
pub open spec fn members(samples: Seq<Color>, labels: Seq<usize>, c: int) -> Seq<Color> {
    members_upto(samples, labels, c, samples.len())
}

proof fn lemma_channel_sum_bounds(s: Seq<Color>, ch: int, bound: int)
    requires
        forall|i: int| 0 <= i < s.len() ==> #[trigger] s[i].channel(ch) <= bound,
    ensures
        0 <= channel_sum(s, ch) <= s.len() * bound,
    decreases s.len(),
{
    if s.len() > 0 {
        let t = s.drop_last();
        assert forall|i: int| 0 <= i < t.len() implies #[trigger] t[i].channel(ch) <= bound by {
            assert(t[i] == s[i]);
        }
        lemma_channel_sum_bounds(t, ch, bound);
        assert(s.last() == s[s.len() - 1]);
        assert(t.len() * bound + bound == s.len() * bound) by (nonlinear_arith)
            requires
                t.len() + 1 == s.len(),
        ;
    }
}

proof fn lemma_div_bound(sum: int, n: int, bound: int)
    requires
        0 <= sum <= n * bound,
        n > 0,
        bound >= 0,
    ensures
        0 <= sum / n <= bound,
{
    lemma_div_is_ordered(sum, n * bound, n);
    lemma_div_multiples_vanish(bound, n);
    lemma_div_is_ordered(0, sum, n);
}

/// The mean of well-formed colors is well formed, and no channel of it is
/// truncated by the cast to `u16`.
pub proof fn lemma_mean_wf(s: Seq<Color>)
    requires
        s.len() > 0,
        all_wf(s),
    ensures
        mean(s).wf(),
        mean(s).r == channel_sum(s, 0) / s.len() as int,
        mean(s).g == channel_sum(s, 1) / s.len() as int,
        mean(s).b == channel_sum(s, 2) / s.len() as int,
{
    let full = crate::color::FULL as int;
    assert forall|ch: int| 0 <= ch < 3 implies 0 <= #[trigger] (channel_sum(s, ch) / s.len() as int) <= full by {
        assert forall|i: int| 0 <= i < s.len() implies #[trigger] s[i].channel(ch) <= full by {
            assert(s[i].wf());
        }
        lemma_channel_sum_bounds(s, ch, full);
        lemma_div_bound(channel_sum(s, ch), s.len() as int, full);
    }
}

/// The mean of a non-empty cluster.
pub fn calc_new_centroid(cluster: &Vec<Color>) -> (c: Color)
    requires
        cluster.len() > 0,
        all_wf(cluster@),
    ensures
        c == mean(cluster@),
        c.wf(),
{
    let n = cluster.len();
    let mut sr: u128 = 0;
    let mut sg: u128 = 0;
    let mut sb: u128 = 0;
    let mut i: usize = 0;
    while i < n
        invariant
            n == cluster.len(),
            0 <= i <= n,
            sr == channel_sum(cluster@.take(i as int), 0),
            sg == channel_sum(cluster@.take(i as int), 1),
            sb == channel_sum(cluster@.take(i as int), 2),
            sr <= i * 0xffff,
            sg <= i * 0xffff,
            sb <= i * 0xffff,
        decreases n - i,
    {
        let p = cluster[i];
        proof {
            let t = cluster@.take(i + 1);
            assert(t.drop_last() =~= cluster@.take(i as int));
            assert(t.last() == p);
        }
        sr = sr + p.r as u128;
        sg = sg + p.g as u128;
        sb = sb + p.b as u128;
        i = i + 1;
    }
    proof {
        assert(cluster@.take(n as int) =~= cluster@);
        lemma_mean_wf(cluster@);
    }
    let nn = n as u128;
    Color { r: (sr / nn) as u16, g: (sg / nn) as u16, b: (sb / nn) as u16 }
}

/// The index of the centroid nearest to `p`, the lowest such index on ties.
pub fn nearest(p: &Color, cs: &Vec<Color>) -> (i: usize)
    requires
        cs.len() > 0,
    ensures
        is_nearest(*p, cs@, i as int),
{
    let mut best: usize = 0;
    let mut best_d: u64 = p.distance_sq(&cs[0]);
    let mut j: usize = 1;
    while j < cs.len()
        invariant
            1 <= j <= cs.len(),
            0 <= best < j,
            best_d == sq_dist(*p, cs@[best as int]),
            forall|m: int| 0 <= m < j ==> best_d <= sq_dist(*p, #[trigger] cs@[m]),
            forall|m: int| 0 <= m < best ==> best_d < sq_dist(*p, #[trigger] cs@[m]),
        decreases cs.len() - j,
    {
        let d = p.distance_sq(&cs[j]);
        if d < best_d {
            best = j;
            best_d = d;
        }
        j = j + 1;
    }
    best
}

/// Labels every sample with its nearest centroid.
pub fn assign(samples: &Vec<Color>, cs: &Vec<Color>) -> (labels: Vec<usize>)
    requires
        cs.len() > 0,
    ensures
        is_assignment(samples@, cs@, labels@),
{
    let mut labels: Vec<usize> = Vec::new();
    let mut i: usize = 0;
    while i < samples.len()
        invariant
            cs.len() > 0,
            0 <= i <= samples.len(),
            labels.len() == i,
            forall|m: int| 0 <= m < i ==> is_nearest(samples@[m], cs@, #[trigger] labels@[m] as int),
        decreases samples.len() - i,
    {
        let l = nearest(&samples[i], cs);
        labels.push(l);
        i = i + 1;
    }
    labels
}

/// The cluster `c`: the samples labelled `c`, in sample order.
pub fn cluster_of(samples: &Vec<Color>, labels: &Vec<usize>, c: usize) -> (out: Vec<Color>)
    requires
        labels.len() == samples.len(),
    ensures
        out@ == members(samples@, labels@, c as int),
{
    let mut out: Vec<Color> = Vec::new();
    let mut i: usize = 0;
    while i < samples.len()
        invariant
            labels.len() == samples.len(),
            0 <= i <= samples.len(),
            out@ == members_upto(samples@, labels@, c as int, i as nat),
        decreases samples.len() - i,
    {
        if labels[i] == c {
            out.push(samples[i]);
        }
        i = i + 1;
    }
    out
}

/// The distance between two channel values.
pub open spec fn gap(a: int, b: int) -> int {
    if a >= b {
        a - b
    } else {
        b - a
    }
}

/// Two colors are equal within tolerance `tol` on each channel.
pub open spec fn close(a: Color, b: Color, tol: int) -> bool {
    gap(a.r as int, b.r as int) <= tol && gap(a.g as int, b.g as int) <= tol && gap(
        a.b as int,
        b.b as int,
    ) <= tol
}

/// Two centroid sequences agree index by index within tolerance `tol`.
pub open spec fn all_close(a: Seq<Color>, b: Seq<Color>, tol: int) -> bool {
    &&& a.len() == b.len()
    &&& forall|i: int| 0 <= i < a.len() ==> close(#[trigger] a[i], b[i], tol)
}

fn channel_close(a: u16, b: u16, tol: u16) -> (r: bool)
    ensures
        r == (gap(a as int, b as int) <= tol),
{
    if a >= b {
        a - b <= tol
    } else {
        b - a <= tol
    }
}

/// Whether every new centroid equals the old one of the same index within
/// tolerance `tol`, channel by channel.
pub fn centroids_converged(old: &Vec<Color>, new: &Vec<Color>, tol: u16) -> (r: bool)
    requires
        old.len() == new.len(),
    ensures
        r == all_close(old@, new@, tol as int),
{
    let mut i: usize = 0;
    while i < old.len()
        invariant
            old.len() == new.len(),
            0 <= i <= old.len(),
            forall|m: int| 0 <= m < i ==> close(#[trigger] old@[m], new@[m], tol as int),
        decreases old.len() - i,
    {
        let a = old[i];
        let b = new[i];
        if !(channel_close(a.r, b.r, tol) && channel_close(a.g, b.g, tol) && channel_close(a.b, b.b, tol)) {
            return false;
        }
        i = i + 1;
    }
    true
}

proof fn lemma_members_wf(samples: Seq<Color>, labels: Seq<usize>, c: int, n: nat)
    requires
        n <= samples.len(),
        n <= labels.len(),
        all_wf(samples),
    ensures
        all_wf(members_upto(samples, labels, c, n)),
    decreases n,
{
    if n > 0 {
        lemma_members_wf(samples, labels, c, (n - 1) as nat);
        let prev = members_upto(samples, labels, c, (n - 1) as nat);
        if labels[n - 1] as int == c {
            let cur = prev.push(samples[n - 1]);
            assert forall|i: int| 0 <= i < cur.len() implies #[trigger] cur[i].wf() by {
                if i < prev.len() {
                    assert(cur[i] == prev[i]);
                } else {
                    assert(samples[n - 1].wf());
                }
            }
        }
    }
}

proof fn lemma_members_all(samples: Seq<Color>, labels: Seq<usize>, n: nat)
    requires
        n <= samples.len(),
        n <= labels.len(),
        forall|i: int| 0 <= i < n ==> #[trigger] labels[i] == 0,
    ensures
        members_upto(samples, labels, 0, n) == samples.take(n as int),
    decreases n,
{
    if n > 0 {
        lemma_members_all(samples, labels, (n - 1) as nat);
        assert(labels[n - 1] == 0);
        assert(samples.take(n as int) =~= samples.take(n - 1).push(samples[n - 1]));
    }
}

/// Every sample is at least as near to the centroid of its own cluster as to
/// any other centroid.
pub open spec fn is_stable(samples: Seq<Color>, cs: Seq<Color>, labels: Seq<usize>) -> bool {
    &&& labels.len() == samples.len()
    &&& forall|i: int, j: int|
        0 <= i < samples.len() && 0 <= j < cs.len() ==> 0 <= #[trigger] labels[i] < cs.len()
            && sq_dist(samples[i], cs[labels[i] as int]) <= sq_dist(samples[i], #[trigger] cs[j])
}

/// Nearest-centroid assignment is a function of the sample and the centroids:
/// two indices that are both nearest, with ties going to the lowest index, are
/// the same index.
pub proof fn lemma_nearest_unique(p: Color, cs: Seq<Color>, i: int, j: int)
    requires
        is_nearest(p, cs, i),
        is_nearest(p, cs, j),
    ensures
        i == j,
{
    if i < j {
        assert(sq_dist(p, cs[j]) < sq_dist(p, cs[i]));
    } else if j < i {
        assert(sq_dist(p, cs[i]) < sq_dist(p, cs[j]));
    }
}

/// Stability at convergence: when the labels assign every sample to its
/// nearest centroid of a round, and the centroids that round produced equal
/// those it started from (convergence with tolerance zero), no sample would
/// move to another cluster.
pub proof fn lemma_stable_at_convergence(
    samples: Seq<Color>,
    previous: Seq<Color>,
    centroids: Seq<Color>,
    labels: Seq<usize>,
)
    requires
        is_assignment(samples, previous, labels),
        all_close(previous, centroids, 0),
    ensures
        is_stable(samples, centroids, labels),
{
    assert(previous =~= centroids) by {
        assert forall|i: int| 0 <= i < previous.len() implies previous[i] == centroids[i] by {
            assert(close(previous[i], centroids[i], 0));
        }
    }
    assert forall|i: int, j: int|
        0 <= i < samples.len() && 0 <= j < centroids.len() implies 0 <= #[trigger] labels[i]
        < centroids.len() && sq_dist(samples[i], centroids[labels[i] as int]) <= sq_dist(
        samples[i],
        #[trigger] centroids[j],
    ) by {
        assert(is_nearest(samples[i], previous, labels[i] as int));
    }
}

/// One round of the engine: `labels` assigns every sample to its nearest
/// centroid of `previous`, and the new centroid of each non-empty cluster is
/// the mean of its members. The centroid of an empty cluster is a fresh random
/// draw, of which only that it lies in the unit cube is known.
pub open spec fn is_round(
    samples: Seq<Color>,
    previous: Seq<Color>,
    labels: Seq<usize>,
    centroids: Seq<Color>,
) -> bool {
    &&& previous.len() == centroids.len()
    &&& is_assignment(samples, previous, labels)
    &&& all_wf(previous)
    &&& all_wf(centroids)
    &&& forall|c: int|
        0 <= c < centroids.len() && members(samples, labels, c).len() > 0 ==> #[trigger] centroids[c]
            == mean(members(samples, labels, c))
}

/// What a successful run guarantees of its outcome `out`.
pub open spec fn is_outcome(samples: Seq<Color>, k: usize, tol: u16, max_iter: u32, out: Clustering) -> bool {
    &&& out.centroids.len() == k
    &&& is_round(samples, out.previous@, out.labels@, out.centroids@)
    &&& out.converged == all_close(out.previous@, out.centroids@, tol as int)
    &&& 1 <= out.iterations
    &&& (out.iterations <= max_iter || out.iterations == 1)
    &&& (!out.converged ==> out.iterations >= max_iter)
    &&& (out.converged && tol == 0 ==> is_stable(samples, out.centroids@, out.labels@))
    &&& (k == 1 ==> out.centroids@[0] == mean(samples))
}

/// Determinism of a round: two rounds over the same samples from the same
/// centroids assign every sample to the same cluster and give every non-empty
/// cluster the same new centroid; only the draws for empty clusters can differ.
pub proof fn lemma_round_deterministic(
    samples: Seq<Color>,
    previous: Seq<Color>,
    labels1: Seq<usize>,
    centroids1: Seq<Color>,
    labels2: Seq<usize>,
    centroids2: Seq<Color>,
)
    requires
        is_round(samples, previous, labels1, centroids1),
        is_round(samples, previous, labels2, centroids2),
    ensures
        labels1 == labels2,
        forall|c: int|
            0 <= c < centroids1.len() && members(samples, labels1, c).len() > 0 ==> #[trigger] centroids1[c]
                == centroids2[c],
{
    assert forall|i: int| 0 <= i < labels1.len() implies labels1[i] == labels2[i] by {
        assert(is_nearest(samples[i], previous, labels1[i] as int));
        assert(is_nearest(samples[i], previous, labels2[i] as int));
        lemma_nearest_unique(samples[i], previous, labels1[i] as int, labels2[i] as int);
    }
    assert(labels1 =~= labels2);
}

/// Why the engine refused to cluster.
#[derive(Clone, Copy, Debug, PartialEq, Eq, Structural)]
pub enum ClusterError {
    /// `k` is zero.
    InvalidParameter,
    /// There are no samples.
    EmptySampleSet,
}

/// The outcome of a clustering run.
#[derive(Debug)]
pub struct Clustering {
    /// The final centroids, one per cluster.
    pub centroids: Vec<Color>,
    /// The centroids that the last round assigned the samples to.
    pub previous: Vec<Color>,
    /// The cluster of each sample in the last round.
    pub labels: Vec<usize>,
    /// Whether the last round left every centroid in place within tolerance;
    /// when false, the iteration bound was reached and the centroids are a
    /// best effort.
    pub converged: bool,
    /// The number of rounds run.
    pub iterations: u32,
}

/// The default convergence tolerance: 0.01 of the full channel range.
pub const DEFAULT_TOL: u16 = 652;

/// The default bound on the number of rounds.
pub const DEFAULT_MAX_ITER: u32 = 300;

/// Draws `k` centroids uniformly from the unit cube.
pub fn random_centroids(k: usize, rng: &mut StdRng) -> (cs: Vec<Color>)
    ensures
        cs.len() == k,
        all_wf(cs@),
{
    let mut cs: Vec<Color> = Vec::new();
    let mut i: usize = 0;
    while i < k
        invariant
            0 <= i <= k,
            cs.len() == i,
            all_wf(cs@),
        decreases k - i,
    {
        let c = random_color(rng);
        cs.push(c);
        i = i + 1;
    }
    cs
}

/// The centroids of one round: the mean of each non-empty cluster of `labels`,
/// and a fresh random point for each empty one.
pub fn update_centroids(samples: &Vec<Color>, labels: &Vec<usize>, k: usize, rng: &mut StdRng) -> (next: Vec<Color>)
    requires
        labels.len() == samples.len(),
        all_wf(samples@),
    ensures
        next.len() == k,
        all_wf(next@),
        forall|c: int|
            0 <= c < k && members(samples@, labels@, c).len() > 0 ==> #[trigger] next@[c] == mean(
                members(samples@, labels@, c),
            ),
{
    let mut next: Vec<Color> = Vec::new();
    let mut c: usize = 0;
    while c < k
        invariant
            labels.len() == samples.len(),
            all_wf(samples@),
            0 <= c <= k,
            next.len() == c,
            all_wf(next@),
            forall|m: int|
                0 <= m < c && members(samples@, labels@, m).len() > 0 ==> #[trigger] next@[m] == mean(
                    members(samples@, labels@, m),
                ),
        decreases k - c,
    {
        let cl = cluster_of(samples, labels, c);
        if cl.len() > 0 {
            proof {
                lemma_members_wf(samples@, labels@, c as int, samples@.len());
            }
            let m = calc_new_centroid(&cl);
            next.push(m);
        } else {
            let r = random_color(rng);
            next.push(r);
        }
        c = c + 1;
    }
    next
}

/// Clusters the samples into `k` groups by k-means, drawing initial centroids
/// and reseeds from `rng`, until every centroid stays within `tol` of its
/// previous value or `max_iter` rounds have run (at least one round runs).
pub fn k_cluster_rgb_image(
    k: usize,
    samples: &Vec<Color>,
    tol: u16,
    max_iter: u32,
    rng: &mut StdRng,
) -> (res: Result<Clustering, ClusterError>)
    requires
        all_wf(samples@),
    ensures
        k == 0 ==> res == Err::<Clustering, ClusterError>(ClusterError::InvalidParameter),
        k > 0 && samples.len() == 0 ==> res == Err::<Clustering, ClusterError>(
            ClusterError::EmptySampleSet,
        ),
        k > 0 && samples.len() > 0 ==> res is Ok,
        res matches Ok(out) ==> is_outcome(samples@, k, tol, max_iter, out),
{
    if k == 0 {
        return Err(ClusterError::InvalidParameter);
    }
    if samples.len() == 0 {
        return Err(ClusterError::EmptySampleSet);
    }
    let mut centroids = random_centroids(k, rng);
    let mut iterations: u32 = 0;
    loop
        invariant
            k > 0,
            samples.len() > 0,
            all_wf(samples@),
            centroids.len() == k,
            all_wf(centroids@),
            iterations <= max_iter || iterations == 0,
            iterations == 0 || iterations < max_iter,
        decreases max_iter - iterations,
    {
        let labels = assign(samples, &centroids);
        let next = update_centroids(samples, &labels, k, rng);
        let conv = centroids_converged(&centroids, &next, tol);
        iterations = iterations + 1;
        if conv || iterations >= max_iter {
            proof {
                if conv && tol == 0 {
                    lemma_stable_at_convergence(samples@, centroids@, next@, labels@);
                }
                if k == 1 {
                    assert forall|i: int| 0 <= i < samples.len() implies #[trigger] labels@[i] == 0 by {
                        assert(is_nearest(samples@[i], centroids@, labels@[i] as int));
                    }
                    lemma_members_all(samples@, labels@, samples@.len());
                    assert(samples@.take(samples@.len() as int) =~= samples@);
                    assert(members(samples@, labels@, 0).len() > 0);
                }
            }
            return Ok(
                Clustering { centroids: next, previous: centroids, labels, converged: conv, iterations },
            );
        }
        centroids = next;
    }
}

} // verus!
