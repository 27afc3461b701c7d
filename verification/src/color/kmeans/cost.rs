//! The total squared distance of the pixels to their centroids, and why a
//! round does not raise it unless rounding gets in the way.

use vstd::prelude::*;
use crate::RgbaColor;
use crate::color::kmeans::model::{
    cluster_tally, dist_sq, lemma_cluster_tally, lemma_nearest_among, nearest, square, step,
};
use crate::color::tally::{Tally, lemma_mean_channels};

verus! {

/// The sum, over the pixels, of the squared distance of each pixel to the
/// centroid of `to` that has the index of the centroid of `by` nearest to
/// the pixel.
pub open spec fn assigned_cost(
    pixels: Seq<RgbaColor>,
    by: Seq<RgbaColor>,
    to: Seq<RgbaColor>,
) -> int
    decreases pixels.len(),
{
    if pixels.len() == 0 {
        0
    } else {
        assigned_cost(pixels.drop_last(), by, to) + dist_sq(
            to[nearest(pixels.last(), by)],
            pixels.last(),
        )
    }
}

/// The total squared distance of the pixels to their nearest centroids.
pub open spec fn cost(pixels: Seq<RgbaColor>, centroids: Seq<RgbaColor>) -> int {
    assigned_cost(pixels, centroids, centroids)
}

/// The sum of the squared distances to `c` of the pixels that `by`
/// assigns to cluster `j`.
pub open spec fn cluster_cost(
    pixels: Seq<RgbaColor>,
    by: Seq<RgbaColor>,
    j: int,
    c: RgbaColor,
) -> int
    decreases pixels.len(),
{
    if pixels.len() == 0 {
        0
    } else {
        cluster_cost(pixels.drop_last(), by, j, c) + (if nearest(pixels.last(), by) == j {
            dist_sq(c, pixels.last())
        } else {
            0
        })
    }
}

/// The squared length of a colour.
pub open spec fn norm_sq(p: RgbaColor) -> int {
    square(p.r as int) + square(p.g as int) + square(p.b as int) + square(p.a as int)
}

/// The sum of the squared lengths of the pixels of cluster `j`.
pub open spec fn cluster_sq(pixels: Seq<RgbaColor>, by: Seq<RgbaColor>, j: int) -> int
    decreases pixels.len(),
{
    if pixels.len() == 0 {
        0
    } else {
        cluster_sq(pixels.drop_last(), by, j) + (if nearest(pixels.last(), by) == j {
            norm_sq(pixels.last())
        } else {
            0
        })
    }
}

/// The inner product of a colour and the sums of a tally.
pub open spec fn dot(c: RgbaColor, t: Tally) -> int {
    c.r as int * t.r as int + c.g as int * t.g as int + c.b as int * t.b as int + c.a as int
        * t.a as int
}

/// Rounding the mean of `n` values with the sum `s` down does not make it
/// worse than `old`: `old` is not one above the rounded mean, or the
/// remainder is at most half of `n`.
pub open spec fn channel_harmless(n: int, s: int, old: int) -> bool {
    old != s / n + 1 || 2 * (s % n) <= n
}

/// In no channel of any cluster with pixels does the centroid stand one
/// above the rounded-down mean while the remainder of the division is more
/// than half the number of pixels.
pub open spec fn rounding_harmless(pixels: Seq<RgbaColor>, centroids: Seq<RgbaColor>) -> bool {
    forall|j: int|
        0 <= j < centroids.len() && (#[trigger] cluster_tally(pixels, centroids, j)).count > 0 ==> {
            let t = cluster_tally(pixels, centroids, j);
            &&& channel_harmless(t.count as int, t.r as int, centroids[j].r as int)
            &&& channel_harmless(t.count as int, t.g as int, centroids[j].g as int)
            &&& channel_harmless(t.count as int, t.b as int, centroids[j].b as int)
            &&& channel_harmless(t.count as int, t.a as int, centroids[j].a as int)
        }
}

/// Moving one centroid changes the cost by what it changes for the pixels
/// of its cluster.
proof fn lemma_replace_one(
    pixels: Seq<RgbaColor>,
    by: Seq<RgbaColor>,
    to: Seq<RgbaColor>,
    m: int,
    c: RgbaColor,
)
    requires
        0 <= m < to.len(),
        by.len() == to.len(),
    ensures
        assigned_cost(pixels, by, to.update(m, c)) + cluster_cost(pixels, by, m, to[m])
            == assigned_cost(pixels, by, to) + cluster_cost(pixels, by, m, c),
    decreases pixels.len(),
{
    if pixels.len() > 0 {
        lemma_replace_one(pixels.drop_last(), by, to, m, c);
        lemma_nearest_among(pixels.last(), by, by.len());
    }
}

/// The squared distance of two colours, multiplied out.
proof fn lemma_dist_expand(c: RgbaColor, p: RgbaColor)
    ensures
        dist_sq(c, p) == norm_sq(c) - 2 * (c.r as int * p.r as int + c.g as int * p.g as int
            + c.b as int * p.b as int + c.a as int * p.a as int) + norm_sq(p),
{
    let (cr, cg, cb, ca) = (c.r as int, c.g as int, c.b as int, c.a as int);
    let (pr, pg, pb, pa) = (p.r as int, p.g as int, p.b as int, p.a as int);
    assert((cr - pr) * (cr - pr) == cr * cr - 2 * (cr * pr) + pr * pr) by (nonlinear_arith);
    assert((cg - pg) * (cg - pg) == cg * cg - 2 * (cg * pg) + pg * pg) by (nonlinear_arith);
    assert((cb - pb) * (cb - pb) == cb * cb - 2 * (cb * pb) + pb * pb) by (nonlinear_arith);
    assert((ca - pa) * (ca - pa) == ca * ca - 2 * (ca * pa) + pa * pa) by (nonlinear_arith);
}

/// The cost of a cluster for a centroid `c`, from the sums of the cluster.
proof fn lemma_cluster_cost_form(pixels: Seq<RgbaColor>, by: Seq<RgbaColor>, j: int, c: RgbaColor)
    ensures
        cluster_cost(pixels, by, j, c) == cluster_sq(pixels, by, j) - 2 * dot(
            c,
            cluster_tally(pixels, by, j),
        ) + cluster_tally(pixels, by, j).count * norm_sq(c),
    decreases pixels.len(),
{
    if pixels.len() > 0 {
        let p = pixels.last();
        lemma_cluster_cost_form(pixels.drop_last(), by, j, c);
        if nearest(p, by) == j {
            let t = cluster_tally(pixels.drop_last(), by, j);
            lemma_dist_expand(c, p);
            let (cr, cg, cb, ca) = (c.r as int, c.g as int, c.b as int, c.a as int);
            let (pr, pg, pb, pa) = (p.r as int, p.g as int, p.b as int, p.a as int);
            let (tr, tg, tb, ta) = (t.r as int, t.g as int, t.b as int, t.a as int);
            assert(cr * (tr + pr) == cr * tr + cr * pr) by (nonlinear_arith);
            assert(cg * (tg + pg) == cg * tg + cg * pg) by (nonlinear_arith);
            assert(cb * (tb + pb) == cb * tb + cb * pb) by (nonlinear_arith);
            assert(ca * (ta + pa) == ca * ta + ca * pa) by (nonlinear_arith);
            let n = t.count as int;
            let q = norm_sq(c);
            assert((n + 1) * q == n * q + q) by (nonlinear_arith);
        }
    }
}

/// In one channel of a cluster of `n` pixels with the sum `s`, the
/// rounded-down mean `q` costs no more than `old` exactly where rounding
/// is harmless: the condition leaves out the cases in which the cost of
/// the channel rises, and no others.
pub proof fn lemma_channel_gain(n: int, s: int, old: int, q: int)
    requires
        n > 0,
        s >= 0,
        q == s / n,
    ensures
        channel_harmless(n, s, old) <==> n * (q * q) - 2 * (q * s) <= n * (old * old) - 2 * (old
            * s),
{
    let r = s % n;
    let d = old - q;
    assert(s == n * q + r && 0 <= r < n) by (nonlinear_arith)
        requires
            n > 0,
            s >= 0,
            q == s / n,
            r == s % n,
    ;
    let oo = old * old;
    let oq = old * q;
    let qq = q * q;
    let ro = old * r;
    let rq = q * r;
    assert(old * s == n * oq + ro) by (nonlinear_arith)
        requires
            s == n * q + r,
            oq == old * q,
            ro == old * r,
    ;
    assert(q * s == n * qq + rq) by (nonlinear_arith)
        requires
            s == n * q + r,
            qq == q * q,
            rq == q * r,
    ;
    assert(d * (n * d - 2 * r) == n * oo - 2 * (n * oq) + n * qq - 2 * ro + 2 * rq)
        by (nonlinear_arith)
        requires
            d == old - q,
            oo == old * old,
            oq == old * q,
            qq == q * q,
            ro == old * r,
            rq == q * r,
    ;
    assert((d != 1 || 2 * r <= n) <==> d * (n * d - 2 * r) >= 0) by (nonlinear_arith)
        requires
            n > 0,
            0 <= r < n,
    ;
}

/// The new centroid of a cluster costs its pixels no more than the old one.
proof fn lemma_cluster_gain(pixels: Seq<RgbaColor>, centroids: Seq<RgbaColor>, j: int)
    requires
        0 <= j < centroids.len(),
        rounding_harmless(pixels, centroids),
    ensures
        cluster_cost(pixels, centroids, j, step(pixels, centroids)[j]) <= cluster_cost(
            pixels,
            centroids,
            j,
            centroids[j],
        ),
{
    let t = cluster_tally(pixels, centroids, j);
    let old = centroids[j];
    let new = step(pixels, centroids)[j];
    lemma_cluster_cost_form(pixels, centroids, j, old);
    lemma_cluster_cost_form(pixels, centroids, j, new);
    lemma_cluster_tally(pixels, centroids, j);
    let n = t.count as int;
    let (tr, tg, tb, ta) = (t.r as int, t.g as int, t.b as int, t.a as int);
    let (nr, ng, nb, na) = (new.r as int, new.g as int, new.b as int, new.a as int);
    let (or, og, ob, oa) = (old.r as int, old.g as int, old.b as int, old.a as int);
    assert(dot(new, t) == nr * tr + ng * tg + nb * tb + na * ta);
    assert(dot(old, t) == or * tr + og * tg + ob * tb + oa * ta);
    assert(norm_sq(new) == nr * nr + ng * ng + nb * nb + na * na);
    assert(norm_sq(old) == or * or + og * og + ob * ob + oa * oa);
    if t.count > 0 {
        lemma_mean_channels(t);
        assert(new == t.mean());
        lemma_channel_gain(n, tr, or, nr);
        lemma_channel_gain(n, tg, og, ng);
        lemma_channel_gain(n, tb, ob, nb);
        lemma_channel_gain(n, ta, oa, na);
        assert(n * norm_sq(new) == n * (nr * nr) + n * (ng * ng) + n * (nb * nb) + n * (na * na))
            by (nonlinear_arith)
            requires
                norm_sq(new) == nr * nr + ng * ng + nb * nb + na * na,
        ;
        assert(n * norm_sq(old) == n * (or * or) + n * (og * og) + n * (ob * ob) + n * (oa * oa))
            by (nonlinear_arith)
            requires
                norm_sq(old) == or * or + og * og + ob * ob + oa * oa,
        ;
    } else {
        assert(t == Tally::zero());
        assert(dot(new, t) == 0 && dot(old, t) == 0) by (nonlinear_arith)
            requires
                tr == 0 && tg == 0 && tb == 0 && ta == 0,
                dot(new, t) == nr * tr + ng * tg + nb * tb + na * ta,
                dot(old, t) == or * tr + og * tg + ob * tb + oa * ta,
        ;
        assert(n * norm_sq(new) == 0 && n * norm_sq(old) == 0) by (nonlinear_arith)
            requires
                n == 0,
        ;
    }
}

/// The centroids of which the first `m` have moved already.
pub open spec fn partly_moved(old: Seq<RgbaColor>, new: Seq<RgbaColor>, m: int) -> Seq<RgbaColor> {
    Seq::new(
        old.len(),
        |j: int|
            if j < m {
                new[j]
            } else {
                old[j]
            },
    )
}

/// Moving the first `m` centroids, with the pixels assigned as before,
/// does not raise the cost.
proof fn lemma_move_some(pixels: Seq<RgbaColor>, centroids: Seq<RgbaColor>, m: int)
    requires
        0 <= m <= centroids.len(),
        rounding_harmless(pixels, centroids),
    ensures
        assigned_cost(
            pixels,
            centroids,
            partly_moved(centroids, step(pixels, centroids), m),
        ) <= cost(pixels, centroids),
    decreases m,
{
    let new = step(pixels, centroids);
    if m == 0 {
        assert(partly_moved(centroids, new, 0) =~= centroids);
    } else {
        lemma_move_some(pixels, centroids, m - 1);
        let before = partly_moved(centroids, new, m - 1);
        assert(partly_moved(centroids, new, m) =~= before.update(m - 1, new[m - 1]));
        lemma_replace_one(pixels, centroids, before, m - 1, new[m - 1]);
        lemma_cluster_gain(pixels, centroids, m - 1);
    }
}

/// Assigning each pixel to its nearest centroid costs no more than any
/// other assignment to the same centroids.
proof fn lemma_reassign(pixels: Seq<RgbaColor>, by: Seq<RgbaColor>, to: Seq<RgbaColor>)
    requires
        by.len() == to.len(),
        to.len() > 0,
    ensures
        cost(pixels, to) <= assigned_cost(pixels, by, to),
    decreases pixels.len(),
{
    if pixels.len() > 0 {
        lemma_reassign(pixels.drop_last(), by, to);
        lemma_nearest_among(pixels.last(), by, by.len());
        lemma_nearest_among(pixels.last(), to, to.len());
    }
}

/// A round does not raise the total squared distance of the pixels to
/// their nearest centroids, as long as rounding the means down is harmless
/// in the sense of `rounding_harmless`.
pub proof fn lemma_cost_falls(pixels: Seq<RgbaColor>, centroids: Seq<RgbaColor>)
    requires
        centroids.len() > 0,
        rounding_harmless(pixels, centroids),
    ensures
        cost(pixels, step(pixels, centroids)) <= cost(pixels, centroids),
{
    let new = step(pixels, centroids);
    lemma_move_some(pixels, centroids, centroids.len() as int);
    assert(partly_moved(centroids, new, centroids.len() as int) =~= new);
    lemma_reassign(pixels, centroids, new);
}

} // verus!
