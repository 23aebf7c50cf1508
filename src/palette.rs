//! Hue ordering of a palette.
//!
//! The HSL hue of an 8-bit color is `60 * n / d` degrees for the integers
//! `(n, d)` of `hue_parts`; hues are compared exactly, as fractions.
use crate::color::{rgb8_of_color, Color, Rgb8};
use crate::kmeans::{all_wf, is_outcome, k_cluster_rgb_image, ClusterError, Clustering};
use rand::rngs::StdRng;
use vstd::prelude::*;

verus! {

/// The hue of `p` as a fraction: `60 * n / d` degrees, with `d > 0` and
/// `0 <= n < 6 * d`. A gray has hue 0. When two channels share the maximum,
/// red is taken before green and green before blue.
pub open spec fn hue_parts(p: Rgb8) -> (int, int) {
    let r = p.r as int;
    let g = p.g as int;
    let b = p.b as int;
    let mx = if r >= g && r >= b { r } else if g >= b { g } else { b };
    let mn = if r <= g && r <= b { r } else if g <= b { g } else { b };
    let d = mx - mn;
    if d == 0 {
        (0, 1)
    } else if r == mx {
        if g < b { (6 * d + g - b, d) } else { (g - b, d) }
    } else if g == mx {
        (2 * d + b - r, d)
    } else {
        (4 * d + r - g, d)
    }
}

/// The hue of `a` is at most that of `b`.
pub open spec fn hue_le(a: Rgb8, b: Rgb8) -> bool {
    hue_parts(a).0 * hue_parts(b).1 <= hue_parts(b).0 * hue_parts(a).1
}

/// The hue of `a` is below that of `b`.
pub open spec fn hue_lt(a: Rgb8, b: Rgb8) -> bool {
    hue_parts(a).0 * hue_parts(b).1 < hue_parts(b).0 * hue_parts(a).1
}

/// Entry `i` goes before entry `j` in a stable sort by hue.
pub open spec fn precedes(colors: Seq<Rgb8>, i: int, j: int) -> bool {
    hue_lt(colors[i], colors[j]) || (hue_le(colors[i], colors[j]) && hue_le(colors[j], colors[i])
        && i < j)
}

/// `order` lists the indices of `colors` by ascending hue, equal hues in their
/// original order. Exactly one sequence has this property.
pub open spec fn is_hue_order(colors: Seq<Rgb8>, order: Seq<usize>) -> bool {
    &&& order.len() == colors.len()
    &&& forall|m: int| 0 <= m < order.len() ==> #[trigger] order[m] < colors.len()
    &&& forall|a: int, b: int|
        0 <= a < b < order.len() ==> precedes(colors, #[trigger] order[a] as int, #[trigger] order[b] as int)
}

/// The hue sequence of the colors never decreases.
pub open spec fn hue_sorted(colors: Seq<Rgb8>) -> bool {
    forall|a: int, b: int| 0 <= a < b < colors.len() ==> hue_le(#[trigger] colors[a], #[trigger] colors[b])
}

proof fn lemma_hue_parts_range(p: Rgb8)
    ensures
        hue_parts(p).1 >= 1,
        hue_parts(p).1 <= 255,
        0 <= hue_parts(p).0 < 6 * hue_parts(p).1,
{
}

proof fn lemma_hue_le_trans(a: Rgb8, b: Rgb8, c: Rgb8)
    requires
        hue_le(a, b),
        hue_le(b, c),
    ensures
        hue_le(a, c),
{
    lemma_hue_parts_range(a);
    lemma_hue_parts_range(b);
    lemma_hue_parts_range(c);
    let (n1, d1) = hue_parts(a);
    let (n2, d2) = hue_parts(b);
    let (n3, d3) = hue_parts(c);
    assert(n1 * d3 <= n3 * d1) by (nonlinear_arith)
        requires
            n1 * d2 <= n2 * d1,
            n2 * d3 <= n3 * d2,
            d1 > 0,
            d2 > 0,
            d3 > 0,
    {
        assert(n1 * d2 * d3 <= n2 * d1 * d3);
        assert(n2 * d3 * d1 <= n3 * d2 * d1);
        assert(d2 * (n1 * d3) <= d2 * (n3 * d1));
    }
}

/// The hue of `p` as the fraction `(n, d)` of `hue_parts`.
pub fn hue_of(p: Rgb8) -> (h: (u32, u32))
    ensures
        h.0 == hue_parts(p).0,
        h.1 == hue_parts(p).1,
{
    let r = p.r as u32;
    let g = p.g as u32;
    let b = p.b as u32;
    let mx = if r >= g && r >= b { r } else if g >= b { g } else { b };
    let mn = if r <= g && r <= b { r } else if g <= b { g } else { b };
    let d = mx - mn;
    if d == 0 {
        (0, 1)
    } else if r == mx {
        if g < b { (6 * d + g - b, d) } else { (g - b, d) }
    } else if g == mx {
        (2 * d + b - r, d)
    } else {
        (4 * d + r - g, d)
    }
}

/// Whether the hue of `a` is below that of `b`.
pub fn hue_less(a: Rgb8, b: Rgb8) -> (r: bool)
    ensures
        r == hue_lt(a, b),
{
    let (na, da) = hue_of(a);
    let (nb, db) = hue_of(b);
    proof {
        lemma_hue_parts_range(a);
        lemma_hue_parts_range(b);
        assert(na * db <= 1530 * 255 && nb * da <= 1530 * 255) by (nonlinear_arith)
            requires
                na < 6 * da,
                da <= 255,
                nb < 6 * db,
                db <= 255,
        ;
    }
    na * db < nb * da
}

/// The indices of `colors` in ascending hue, equal hues kept in their
/// original order (a stable sort by hue).
pub fn hue_order(colors: &Vec<Rgb8>) -> (order: Vec<usize>)
    ensures
        is_hue_order(colors@, order@),
{
    let mut order: Vec<usize> = Vec::new();
    let mut i: usize = 0;
    while i < colors.len()
        invariant
            0 <= i <= colors.len(),
            order.len() == i,
            forall|m: int| 0 <= m < order.len() ==> #[trigger] order@[m] < i,
            forall|a: int, b: int|
                0 <= a < b < order.len() ==> precedes(colors@, #[trigger] order@[a] as int, #[trigger] order@[b] as int),
        decreases colors.len() - i,
    {
        let ci = colors[i];
        let mut pos: usize = order.len();
        while pos > 0 && hue_less(ci, colors[order[pos - 1]])
            invariant
                0 <= pos <= order.len(),
                order.len() == i,
                i < colors.len(),
                ci == colors@[i as int],
                forall|m: int| 0 <= m < order.len() ==> #[trigger] order@[m] < i,
                forall|m: int| pos <= m < order.len() ==> hue_lt(ci, colors@[#[trigger] order@[m] as int]),
            decreases pos,
        {
            pos = pos - 1;
        }
        proof {
            assert forall|m: int| 0 <= m < pos implies hue_le(colors@[#[trigger] order@[m] as int], ci) by {
                let last = order@[pos - 1] as int;
                assert(!hue_lt(ci, colors@[last]));
                if m < pos - 1 {
                    assert(precedes(colors@, order@[m] as int, order@[pos - 1] as int));
                    lemma_hue_le_trans(colors@[order@[m] as int], colors@[last], ci);
                }
            }
        }
        let ghost old_order = order@;
        order.insert(pos, i);
        proof {
            assert forall|a: int, b: int|
                0 <= a < b < order.len() implies precedes(colors@, #[trigger] order@[a] as int, #[trigger] order@[b] as int) by {
                if b < pos {
                    assert(precedes(colors@, old_order[a] as int, old_order[b] as int));
                } else if b == pos {
                    assert(hue_le(colors@[old_order[a] as int], ci));
                    assert(hue_lt(colors@[old_order[a] as int], ci) || hue_le(ci, colors@[old_order[a] as int]));
                } else if a > pos {
                    assert(precedes(colors@, old_order[a - 1] as int, old_order[b - 1] as int));
                } else if a == pos {
                    assert(hue_lt(ci, colors@[old_order[b - 1] as int]));
                } else {
                    assert(precedes(colors@, old_order[a] as int, old_order[b - 1] as int));
                }
            }
        }
        i = i + 1;
    }
    order
}

/// The 8-bit colors of a sequence of fixed-point colors.
pub open spec fn rgb8_seq(cs: Seq<Color>) -> Seq<Rgb8> {
    cs.map_values(|c: Color| rgb8_of_color(c))
}

/// The colors of `colors` taken in the order `order` lists them.
pub open spec fn reorder(colors: Seq<Rgb8>, order: Seq<usize>) -> Seq<Rgb8> {
    order.map_values(|i: usize| colors[i as int])
}

/// Monotonic hue: the colors taken in hue order have a non-decreasing hue
/// sequence.
pub proof fn lemma_hue_order_sorted(colors: Seq<Rgb8>, order: Seq<usize>)
    requires
        is_hue_order(colors, order),
    ensures
        hue_sorted(reorder(colors, order)),
{
    let out = reorder(colors, order);
    assert forall|a: int, b: int| 0 <= a < b < out.len() implies hue_le(#[trigger] out[a], #[trigger] out[b]) by {
        assert(precedes(colors, order[a] as int, order[b] as int));
    }
}

/// The palette of the centroids: each scaled to 8-bit channels (truncating),
/// then listed by ascending hue, equal hues in centroid order.
pub fn order_palette(centroids: &Vec<Color>) -> (palette: Vec<Rgb8>)
    requires
        all_wf(centroids@),
    ensures
        hue_sorted(palette@),
        exists|order: Seq<usize>|
            is_hue_order(rgb8_seq(centroids@), order) && palette@ == reorder(
                rgb8_seq(centroids@),
                order,
            ),
{
    let mut colors: Vec<Rgb8> = Vec::new();
    let mut i: usize = 0;
    while i < centroids.len()
        invariant
            all_wf(centroids@),
            0 <= i <= centroids.len(),
            colors@ == rgb8_seq(centroids@.take(i as int)),
        decreases centroids.len() - i,
    {
        assert(centroids@[i as int].wf());
        let p = centroids[i].to_rgb8();
        colors.push(p);
        proof {
            assert(rgb8_seq(centroids@.take(i + 1)) =~= rgb8_seq(centroids@.take(i as int)).push(p));
        }
        i = i + 1;
    }
    assert(centroids@.take(centroids.len() as int) =~= centroids@);
    let order = hue_order(&colors);
    let mut palette: Vec<Rgb8> = Vec::new();
    let mut m: usize = 0;
    while m < order.len()
        invariant
            is_hue_order(colors@, order@),
            0 <= m <= order.len(),
            palette@ == reorder(colors@, order@.take(m as int)),
        decreases order.len() - m,
    {
        let c = colors[order[m]];
        palette.push(c);
        proof {
            assert(reorder(colors@, order@.take(m + 1)) =~= reorder(colors@, order@.take(m as int)).push(c));
        }
        m = m + 1;
    }
    proof {
        assert(order@.take(order.len() as int) =~= order@);
        lemma_hue_order_sorted(colors@, order@);
    }
    palette
}

/// A clustering run together with its hue-ordered palette.
#[derive(Debug)]
pub struct Palette {
    /// The run that produced the centroids.
    pub clustering: Clustering,
    /// The centroids as 8-bit colors, in hue order.
    pub colors: Vec<Rgb8>,
}

/// Clusters the samples into `k` colors and orders them by hue.
pub fn extract_palette(
    k: usize,
    samples: &Vec<Color>,
    tol: u16,
    max_iter: u32,
    rng: &mut StdRng,
) -> (res: Result<Palette, ClusterError>)
    requires
        all_wf(samples@),
    ensures
        k == 0 ==> res == Err::<Palette, ClusterError>(ClusterError::InvalidParameter),
        k > 0 && samples.len() == 0 ==> res == Err::<Palette, ClusterError>(
            ClusterError::EmptySampleSet,
        ),
        k > 0 && samples.len() > 0 ==> res is Ok,
        res matches Ok(p) ==> {
            &&& is_outcome(samples@, k, tol, max_iter, p.clustering)
            &&& p.colors.len() == k
            &&& hue_sorted(p.colors@)
            &&& exists|order: Seq<usize>|
                is_hue_order(rgb8_seq(p.clustering.centroids@), order) && p.colors@ == reorder(
                    rgb8_seq(p.clustering.centroids@),
                    order,
                )
        },
{
    match k_cluster_rgb_image(k, samples, tol, max_iter, rng) {
        Ok(clustering) => {
            let colors = order_palette(&clustering.centroids);
            Ok(Palette { clustering, colors })
        },
        Err(e) => Err(e),
    }
}

} // verus!
