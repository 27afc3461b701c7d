//! What K-means computes: the nearest centroid of a pixel, the pixels of a
//! cluster, one round of the iteration, and the rounds in sequence.

use vstd::prelude::*;
use crate::RgbaColor;
use crate::color::tally::{Tally, lemma_solid_mean, solid_tally};

verus! {

pub open spec fn square(x: int) -> int {
    x * x
}

/// The squared Euclidean distance of two colours in the space of their
/// four channels.
pub open spec fn dist_sq(c1: RgbaColor, c2: RgbaColor) -> int {
    square(c1.r as int - c2.r as int) + square(c1.g as int - c2.g as int) + square(
        c1.b as int - c2.b as int,
    ) + square(c1.a as int - c2.a as int)
}

/// The centroid among the first `n` that is nearest to `p`, the one with
/// the lowest index where several are as near.
pub open spec fn nearest_among(p: RgbaColor, centroids: Seq<RgbaColor>, n: nat) -> int
    decreases n,
{
    if n <= 1 {
        0
    } else {
        let best = nearest_among(p, centroids, (n - 1) as nat);
        if dist_sq(centroids[n - 1], p) < dist_sq(centroids[best], p) {
            n - 1
        } else {
            best
        }
    }
}

/// The index of the centroid that `p` is assigned to.
pub open spec fn nearest(p: RgbaColor, centroids: Seq<RgbaColor>) -> int {
    nearest_among(p, centroids, centroids.len())
}

/// The nearest centroid is as near as any other, and nearer than all
/// before it.
pub proof fn lemma_nearest_among(p: RgbaColor, centroids: Seq<RgbaColor>, n: nat)
    requires
        0 < n <= centroids.len(),
    ensures
        0 <= nearest_among(p, centroids, n) < n,
        forall|i: int|
            0 <= i < n ==> dist_sq(centroids[nearest_among(p, centroids, n)], p) <= dist_sq(
                #[trigger] centroids[i],
                p,
            ),
        forall|i: int|
            0 <= i < nearest_among(p, centroids, n) ==> dist_sq(
                centroids[nearest_among(p, centroids, n)],
                p,
            ) < dist_sq(#[trigger] centroids[i], p),
    decreases n,
{
    if n > 1 {
        lemma_nearest_among(p, centroids, (n - 1) as nat);
    }
}

/// The sums and the number of the pixels that are assigned to centroid `j`.
pub open spec fn cluster_tally(pixels: Seq<RgbaColor>, centroids: Seq<RgbaColor>, j: int) -> Tally
    decreases pixels.len(),
{
    if pixels.len() == 0 {
        Tally::zero()
    } else {
        let rest = cluster_tally(pixels.drop_last(), centroids, j);
        if nearest(pixels.last(), centroids) == j {
            rest.plus(pixels.last())
        } else {
            rest
        }
    }
}

/// A cluster holds no more pixels than there are, and its sums are bounded.
pub proof fn lemma_cluster_tally(pixels: Seq<RgbaColor>, centroids: Seq<RgbaColor>, j: int)
    ensures
        cluster_tally(pixels, centroids, j).count <= pixels.len(),
        cluster_tally(pixels, centroids, j).bounded(),
    decreases pixels.len(),
{
    if pixels.len() > 0 {
        lemma_cluster_tally(pixels.drop_last(), centroids, j);
    }
}

/// The centroid of a cluster without pixels.
pub open spec fn fallback() -> RgbaColor {
    RgbaColor { r: 0, g: 0, b: 0, a: 255 }
}

/// The centroid of a cluster: the mean of its pixels, each channel rounded
/// down, or the fallback where it has none.
pub open spec fn centroid_of(t: Tally) -> RgbaColor {
    if t.count > 0 {
        t.mean()
    } else {
        fallback()
    }
}

/// The centroids after one round: each pixel is assigned to its nearest
/// centroid, and each centroid moves to the mean of its pixels.
pub open spec fn step(pixels: Seq<RgbaColor>, centroids: Seq<RgbaColor>) -> Seq<RgbaColor> {
    Seq::new(centroids.len(), |j: int| centroid_of(cluster_tally(pixels, centroids, j)))
}

/// No centroid has moved by more than the threshold allows. Without a
/// threshold nothing ever counts as settled.
pub open spec fn settled(
    next: Seq<RgbaColor>,
    centroids: Seq<RgbaColor>,
    min_distance_sq: Option<u64>,
) -> bool {
    match min_distance_sq {
        Some(bound) => forall|j: int|
            0 <= j < centroids.len() ==> dist_sq(#[trigger] next[j], centroids[j]) <= bound,
        None => false,
    }
}

/// The centroids that `rounds` rounds at most lead to. The rounds end
/// early with the first round that moves no centroid by more than the
/// threshold; the centroids that this round has computed are the result.
pub open spec fn run(
    pixels: Seq<RgbaColor>,
    centroids: Seq<RgbaColor>,
    rounds: nat,
    min_distance_sq: Option<u64>,
) -> Seq<RgbaColor>
    decreases rounds,
{
    if rounds == 0 {
        centroids
    } else {
        let next = step(pixels, centroids);
        if settled(next, centroids, min_distance_sq) {
            next
        } else {
            run(pixels, next, (rounds - 1) as nat, min_distance_sq)
        }
    }
}

/// The centroids after `t` rounds, none of them cut short.
pub open spec fn trail(pixels: Seq<RgbaColor>, centroids: Seq<RgbaColor>, t: nat) -> Seq<RgbaColor>
    decreases t,
{
    if t == 0 {
        centroids
    } else {
        step(pixels, trail(pixels, centroids, (t - 1) as nat))
    }
}

/// The rounds leave the number of centroids as it is.
pub proof fn lemma_run_len(
    pixels: Seq<RgbaColor>,
    centroids: Seq<RgbaColor>,
    rounds: nat,
    min_distance_sq: Option<u64>,
)
    ensures
        run(pixels, centroids, rounds, min_distance_sq).len() == centroids.len(),
    decreases rounds,
{
    if rounds > 0 {
        lemma_run_len(pixels, step(pixels, centroids), (rounds - 1) as nat, min_distance_sq);
    }
}

/// The iteration stops with the first round that moves no centroid by
/// more than the threshold: where round `t + 1` of an iteration of more
/// than `t` rounds is such a round, the result is the centroids after
/// `u + 1` rounds for some `u <= t`, whatever number of rounds is allowed
/// beyond that; round `u + 1` is the first that moved no centroid by more
/// than the threshold.
pub proof fn lemma_run_stops(
    pixels: Seq<RgbaColor>,
    centroids: Seq<RgbaColor>,
    rounds: nat,
    min_distance_sq: Option<u64>,
    t: nat,
) -> (u: nat)
    requires
        t < rounds,
        settled(
            step(pixels, trail(pixels, centroids, t)),
            trail(pixels, centroids, t),
            min_distance_sq,
        ),
    ensures
        u <= t,
        run(pixels, centroids, rounds, min_distance_sq) == trail(pixels, centroids, u + 1),
        settled(
            trail(pixels, centroids, u + 1),
            trail(pixels, centroids, u),
            min_distance_sq,
        ),
        forall|v: nat|
            v < u ==> !settled(
                #[trigger] trail(pixels, centroids, v + 1),
                trail(pixels, centroids, v),
                min_distance_sq,
            ),
    decreases rounds,
{
    let next = step(pixels, centroids);
    assert(trail(pixels, centroids, 1) == step(pixels, trail(pixels, centroids, 0)));
    if settled(next, centroids, min_distance_sq) {
        0
    } else {
        lemma_trail_shift(pixels, centroids, t);
        let w = lemma_run_stops(pixels, next, (rounds - 1) as nat, min_distance_sq, (t - 1) as nat);
        lemma_trail_shift(pixels, centroids, w + 1);
        lemma_trail_shift(pixels, centroids, w + 2);
        assert forall|v: nat| v < w + 1 implies !settled(
            #[trigger] trail(pixels, centroids, v + 1),
            trail(pixels, centroids, v),
            min_distance_sq,
        ) by {
            if v > 0 {
                lemma_trail_shift(pixels, centroids, v);
                lemma_trail_shift(pixels, centroids, v + 1);
                assert(!settled(
                    trail(pixels, next, (v - 1) as nat + 1),
                    trail(pixels, next, (v - 1) as nat),
                    min_distance_sq,
                ));
            }
        }
        w + 1
    }
}

/// `t` rounds are one round and `t - 1` rounds after it.
pub proof fn lemma_trail_shift(pixels: Seq<RgbaColor>, centroids: Seq<RgbaColor>, t: nat)
    requires
        t > 0,
    ensures
        trail(pixels, centroids, t) == trail(pixels, step(pixels, centroids), (t - 1) as nat),
    decreases t,
{
    let next = step(pixels, centroids);
    assert(trail(pixels, centroids, t) == step(pixels, trail(pixels, centroids, (t - 1) as nat)));
    if t > 1 {
        lemma_trail_shift(pixels, centroids, (t - 1) as nat);
        assert(trail(pixels, next, (t - 1) as nat) == step(
            pixels,
            trail(pixels, next, (t - 2) as nat),
        ));
    } else {
        assert(trail(pixels, centroids, 0) == centroids);
        assert(trail(pixels, next, 0) == next);
    }
}

/// A centroid that no pixel is assigned to moves to the fallback colour.
pub proof fn lemma_empty_cluster(pixels: Seq<RgbaColor>, centroids: Seq<RgbaColor>, j: int)
    requires
        0 <= j < centroids.len(),
        cluster_tally(pixels, centroids, j).count == 0,
    ensures
        step(pixels, centroids)[j] == fallback(),
{
}

/// The iteration returns the centroids after some number `u` of rounds,
/// none cut short: at least one round where one is allowed, and fewer than
/// are allowed only where round `u` moved no centroid by more than the
/// threshold.
pub proof fn lemma_run_is_trail(
    pixels: Seq<RgbaColor>,
    centroids: Seq<RgbaColor>,
    rounds: nat,
    min_distance_sq: Option<u64>,
) -> (u: nat)
    ensures
        u <= rounds,
        rounds >= 1 ==> u >= 1,
        run(pixels, centroids, rounds, min_distance_sq) == trail(pixels, centroids, u),
        u < rounds ==> settled(
            trail(pixels, centroids, u),
            trail(pixels, centroids, (u - 1) as nat),
            min_distance_sq,
        ),
    decreases rounds,
{
    let next = step(pixels, centroids);
    assert(trail(pixels, centroids, 1) == step(pixels, trail(pixels, centroids, 0)));
    if rounds == 0 {
        0
    } else if settled(next, centroids, min_distance_sq) {
        1
    } else {
        let v = lemma_run_is_trail(pixels, next, (rounds - 1) as nat, min_distance_sq);
        lemma_trail_shift(pixels, centroids, v + 1);
        if v > 0 {
            lemma_trail_shift(pixels, centroids, v);
        }
        v + 1
    }
}

/// After at least one round every centroid returned is the mean of the
/// pixels of a cluster, or the fallback colour where the cluster has no
/// pixel: the result is one round on some centroids `before`.
pub proof fn lemma_run_centroids(
    pixels: Seq<RgbaColor>,
    centroids: Seq<RgbaColor>,
    rounds: nat,
    min_distance_sq: Option<u64>,
) -> (before: Seq<RgbaColor>)
    requires
        rounds >= 1,
    ensures
        before.len() == centroids.len(),
        run(pixels, centroids, rounds, min_distance_sq) == step(pixels, before),
        forall|j: int|
            0 <= j < centroids.len() ==> #[trigger] run(
                pixels,
                centroids,
                rounds,
                min_distance_sq,
            )[j] == centroid_of(cluster_tally(pixels, before, j)),
{
    let u = lemma_run_is_trail(pixels, centroids, rounds, min_distance_sq);
    let before = trail(pixels, centroids, (u - 1) as nat);
    lemma_trail_len(pixels, centroids, (u - 1) as nat);
    assert(trail(pixels, centroids, u) == step(pixels, before));
    before
}

/// The pixels of an image of one colour all belong to the cluster of the
/// centroid nearest to that colour.
pub proof fn lemma_solid_cluster(
    pixels: Seq<RgbaColor>,
    c: RgbaColor,
    centroids: Seq<RgbaColor>,
    j: int,
)
    requires
        forall|i: int| 0 <= i < pixels.len() ==> pixels[i] == c,
    ensures
        cluster_tally(pixels, centroids, j) == (if j == nearest(c, centroids) {
            solid_tally(c, pixels.len())
        } else {
            Tally::zero()
        }),
    decreases pixels.len(),
{
    if pixels.len() > 0 {
        let k = (pixels.len() - 1) as nat;
        lemma_solid_cluster(pixels.drop_last(), c, centroids, j);
        assert(solid_tally(c, k).plus(c) == solid_tally(c, k + 1)) by (nonlinear_arith);
    }
}

/// One round on an image of one colour moves the centroid nearest to the
/// colour onto it and every other centroid to the fallback colour.
pub proof fn lemma_solid_image_step(pixels: Seq<RgbaColor>, c: RgbaColor, centroids: Seq<RgbaColor>)
    requires
        pixels.len() > 0,
        centroids.len() > 0,
        forall|i: int| 0 <= i < pixels.len() ==> pixels[i] == c,
    ensures
        0 <= nearest(c, centroids) < centroids.len(),
        step(pixels, centroids)[nearest(c, centroids)] == c,
        forall|j: int|
            0 <= j < centroids.len() && j != nearest(c, centroids) ==> #[trigger] step(
                pixels,
                centroids,
            )[j] == fallback(),
{
    lemma_nearest_among(c, centroids, centroids.len());
    lemma_solid_mean(c, pixels.len());
    lemma_solid_cluster(pixels, c, centroids, nearest(c, centroids));
    assert forall|j: int|
        0 <= j < centroids.len() && j != nearest(c, centroids) implies #[trigger] step(
        pixels,
        centroids,
    )[j] == fallback() by {
        lemma_solid_cluster(pixels, c, centroids, j);
    }
}

/// An image of one colour yields that colour: after an iteration of at
/// least one round, one of the centroids is the colour of the image and
/// every other is the fallback colour.
pub proof fn lemma_solid_image_run(
    pixels: Seq<RgbaColor>,
    c: RgbaColor,
    centroids: Seq<RgbaColor>,
    rounds: nat,
    min_distance_sq: Option<u64>,
) -> (w: int)
    requires
        pixels.len() > 0,
        centroids.len() > 0,
        rounds >= 1,
        forall|i: int| 0 <= i < pixels.len() ==> pixels[i] == c,
    ensures
        0 <= w < centroids.len(),
        run(pixels, centroids, rounds, min_distance_sq)[w] == c,
        forall|j: int|
            0 <= j < centroids.len() && j != w ==> #[trigger] run(
                pixels,
                centroids,
                rounds,
                min_distance_sq,
            )[j] == fallback(),
{
    let before = lemma_run_centroids(pixels, centroids, rounds, min_distance_sq);
    lemma_solid_image_step(pixels, c, before);
    nearest(c, before)
}

/// Rounds leave the number of centroids as it is.
pub proof fn lemma_trail_len(pixels: Seq<RgbaColor>, centroids: Seq<RgbaColor>, t: nat)
    ensures
        trail(pixels, centroids, t).len() == centroids.len(),
    decreases t,
{
    if t > 0 {
        lemma_trail_len(pixels, centroids, (t - 1) as nat);
    }
}

/// The number of the first `k` clusters that have pixels.
pub open spec fn occupied(pixels: Seq<RgbaColor>, centroids: Seq<RgbaColor>, k: nat) -> nat
    decreases k,
{
    if k == 0 {
        0
    } else {
        occupied(pixels, centroids, (k - 1) as nat) + (if cluster_tally(
            pixels,
            centroids,
            k - 1,
        ).count > 0 {
            1nat
        } else {
            0nat
        })
    }
}

/// The number of the first `k` centroids that are not the fallback colour.
pub open spec fn off_fallback(centroids: Seq<RgbaColor>, k: nat) -> nat
    decreases k,
{
    if k == 0 {
        0
    } else {
        off_fallback(centroids, (k - 1) as nat) + (if centroids[k - 1] != fallback() {
            1nat
        } else {
            0nat
        })
    }
}

/// One pixel more occupies one cluster more at most.
proof fn lemma_occupied_grows(pixels: Seq<RgbaColor>, centroids: Seq<RgbaColor>, k: nat)
    requires
        pixels.len() > 0,
    ensures
        occupied(pixels, centroids, k) <= occupied(pixels.drop_last(), centroids, k) + (if nearest(
            pixels.last(),
            centroids,
        ) < k {
            1nat
        } else {
            0nat
        }),
    decreases k,
{
    if k > 0 {
        lemma_occupied_grows(pixels, centroids, (k - 1) as nat);
    }
}

/// No more clusters have pixels than there are pixels.
pub proof fn lemma_occupied(pixels: Seq<RgbaColor>, centroids: Seq<RgbaColor>, k: nat)
    ensures
        occupied(pixels, centroids, k) <= pixels.len(),
        occupied(pixels, centroids, k) <= k,
    decreases pixels.len(), k,
{
    if k > 0 {
        lemma_occupied(pixels, centroids, (k - 1) as nat);
    }
    if pixels.len() > 0 {
        lemma_occupied(pixels.drop_last(), centroids, k);
        lemma_occupied_grows(pixels, centroids, k);
    } else if k > 0 {
        assert(cluster_tally(pixels, centroids, k - 1).count == 0);
    }
}

/// After a round no more centroids are off the fallback colour than
/// clusters had pixels.
proof fn lemma_off_fallback(pixels: Seq<RgbaColor>, centroids: Seq<RgbaColor>, k: nat)
    requires
        k <= centroids.len(),
    ensures
        off_fallback(step(pixels, centroids), k) <= occupied(pixels, centroids, k),
    decreases k,
{
    if k > 0 {
        lemma_off_fallback(pixels, centroids, (k - 1) as nat);
    }
}

/// With more clusters than pixels, all centroids but as many as there are
/// pixels end on the fallback colour: after an iteration of at least one
/// round no more centroids are off the fallback colour than there are
/// pixels.
pub proof fn lemma_run_fallbacks(
    pixels: Seq<RgbaColor>,
    centroids: Seq<RgbaColor>,
    rounds: nat,
    min_distance_sq: Option<u64>,
)
    requires
        rounds >= 1,
    ensures
        off_fallback(
            run(pixels, centroids, rounds, min_distance_sq),
            centroids.len(),
        ) <= pixels.len(),
{
    let before = lemma_run_centroids(pixels, centroids, rounds, min_distance_sq);
    lemma_off_fallback(pixels, before, before.len());
    lemma_occupied(pixels, before, before.len());
}

} // verus!
