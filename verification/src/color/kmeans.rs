//! K-means quantizer: the pixels are clustered round K centroids in the
//! space of the four channels.

use rand::Rng;
use vstd::prelude::*;
use crate::{Image, RgbaColor};
use crate::color::{PaletteError, PrimanyColor};
use crate::color::kmeans::model::{
    cluster_tally, dist_sq, lemma_cluster_tally, lemma_run_len, nearest, nearest_among, run,
    settled, step,
};
use crate::color::tally::{Tally, lemma_mean_channels};

pub mod cost;
pub mod model;

verus! {

/// The thread-local generator of `rand`, which `rand::rng` hands out.
/// Nothing is known of its state.
#[verifier::external_type_specification]
#[verifier::external_body]
pub struct ExThreadRng(rand::rngs::ThreadRng);

/// Calls `rand::rng`, which returns a handle to the generator of the
/// current thread. No claim is made of the handle. The outside function
/// panics where the system's source of randomness cannot seed the
/// generator.
#[verifier::external_body]
fn thread_generator() -> (rng: rand::rngs::ThreadRng) {
    rand::rng()
}

/// Calls `rand::Rng::random_range` with the range `low..=high`, which
/// draws one value of the range. The range is not empty, so the call
/// itself does not panic; the generator reseeds itself after every 64 KiB
/// of output and panics where the system's source of randomness fails it
/// then. The contract claims that the value lies in the range, and no more.
#[verifier::external_body]
fn random_channel(rng: &mut rand::rngs::ThreadRng, low: u8, high: u8) -> (value: u8)
    requires
        low <= high,
    ensures
        low <= value <= high,
{
    rng.random_range(low..=high)
}

/// The K-means quantizer of one image. `init_centroid` is the number of
/// clusters, `iteration` the largest number of rounds, `min_distance_sq`
/// the square of the distance within which a centroid counts as settled;
/// without it the rounds never end early.
pub struct Kmeans {
    pub image: Image,
    pub init_centroid: u64,
    pub iteration: u64,
    pub min_distance_sq: Option<u64>,
}

/// The sums of one cluster while the pixels are passed through.
struct ClusterSum {
    r: u128,
    g: u128,
    b: u128,
    a: u128,
    count: u64,
}

impl View for ClusterSum {
    type V = Tally;

    closed spec fn view(&self) -> Tally {
        Tally {
            r: self.r as nat,
            g: self.g as nat,
            b: self.b as nat,
            a: self.a as nat,
            count: self.count as nat,
        }
    }
}

/// The squared Euclidean distance of two colours.
pub fn calc_dist_sq(color1: &RgbaColor, color2: &RgbaColor) -> (d: u32)
    ensures
        d == dist_sq(*color1, *color2),
        d <= 260100,
{
    let dr: i32 = color1.r as i32 - color2.r as i32;
    let dg: i32 = color1.g as i32 - color2.g as i32;
    let db: i32 = color1.b as i32 - color2.b as i32;
    let da: i32 = color1.a as i32 - color2.a as i32;
    assert(0 <= dr * dr <= 65025 && 0 <= dg * dg <= 65025 && 0 <= db * db <= 65025 && 0 <= da * da
        <= 65025) by (nonlinear_arith)
        requires
            -255 <= dr <= 255,
            -255 <= dg <= 255,
            -255 <= db <= 255,
            -255 <= da <= 255,
    ;
    (dr * dr + dg * dg + db * db + da * da) as u32
}

/// The index of the centroid nearest to `pixel`, the lowest where several
/// are as near.
pub fn nearest_index(pixel: &RgbaColor, centroids: &Vec<RgbaColor>) -> (index: usize)
    requires
        centroids@.len() > 0,
    ensures
        index == nearest(*pixel, centroids@),
        index < centroids@.len(),
{
    let mut best: usize = 0;
    let mut best_dist = calc_dist_sq(&centroids[0], pixel);
    let mut j: usize = 1;
    while j < centroids.len()
        invariant
            1 <= j <= centroids@.len(),
            best < j,
            best == nearest_among(*pixel, centroids@, j as nat),
            best_dist == dist_sq(centroids@[best as int], *pixel),
        decreases centroids@.len() - j,
    {
        let dist = calc_dist_sq(&centroids[j], pixel);
        if dist < best_dist {
            best = j;
            best_dist = dist;
        }
        j += 1;
    }
    best
}

impl Kmeans {
    pub fn new(
        image: Image,
        init_centroid: u64,
        iteration: u64,
        min_distance_sq: Option<u64>,
    ) -> (kmeans: Self)
        ensures
            kmeans.image == image,
            kmeans.init_centroid == init_centroid,
            kmeans.iteration == iteration,
            kmeans.min_distance_sq == min_distance_sq,
    {
        Self { image, init_centroid, iteration, min_distance_sq }
    }

    /// One round: every pixel is assigned to its nearest centroid, and the
    /// new centroid of each cluster is the mean of its pixels.
    pub fn step(&self, centroids: &Vec<RgbaColor>) -> (next: Vec<RgbaColor>)
        requires
            centroids@.len() > 0,
        ensures
            next@ == step(self.image.pixels@, centroids@),
    {
        let ghost pixels = self.image.pixels@;
        let k = centroids.len();
        let mut sums: Vec<ClusterSum> = Vec::new();
        let mut j: usize = 0;
        while j < k
            invariant
                j <= k,
                sums@.len() == j,
                forall|i: int| 0 <= i < j ==> (#[trigger] sums@[i])@ == Tally::zero(),
            decreases k - j,
        {
            sums.push(ClusterSum { r: 0, g: 0, b: 0, a: 0, count: 0 });
            j += 1;
        }
        let mut i: usize = 0;
        while i < self.image.pixels.len()
            invariant
                i <= self.image.pixels@.len(),
                pixels == self.image.pixels@,
                k == centroids@.len(),
                k > 0,
                sums@.len() == k,
                forall|c: int|
                    0 <= c < k ==> (#[trigger] sums@[c])@ == cluster_tally(
                        pixels.take(i as int),
                        centroids@,
                        c,
                    ),
            decreases self.image.pixels@.len() - i,
        {
            let pixel = self.image.pixels[i];
            let at = nearest_index(&pixel, centroids);
            proof {
                lemma_cluster_tally(pixels.take(i as int), centroids@, at as int);
                assert(pixels.take(i + 1).drop_last() =~= pixels.take(i as int));
                assert(pixels.take(i + 1).last() == pixel);
            }
            let sum = ClusterSum {
                r: sums[at].r + pixel.r as u128,
                g: sums[at].g + pixel.g as u128,
                b: sums[at].b + pixel.b as u128,
                a: sums[at].a + pixel.a as u128,
                count: sums[at].count + 1,
            };
            sums[at] = sum;
            i += 1;
        }
        assert(pixels.take(i as int) =~= pixels);
        let mut next: Vec<RgbaColor> = Vec::new();
        let mut c: usize = 0;
        while c < k
            invariant
                c <= k,
                k == centroids@.len(),
                sums@.len() == k,
                next@.len() == c,
                forall|x: int|
                    0 <= x < k ==> (#[trigger] sums@[x])@ == cluster_tally(pixels, centroids@, x),
                forall|x: int| 0 <= x < c ==> #[trigger] next@[x] == step(pixels, centroids@)[x],
            decreases k - c,
        {
            let sum = &sums[c];
            proof {
                lemma_cluster_tally(pixels, centroids@, c as int);
            }
            let color = if sum.count > 0 {
                let n = sum.count as u128;
                proof {
                    lemma_mean_channels(sum@);
                }
                RgbaColor {
                    r: (sum.r / n) as u8,
                    g: (sum.g / n) as u8,
                    b: (sum.b / n) as u8,
                    a: (sum.a / n) as u8,
                }
            } else {
                RgbaColor { r: 0, g: 0, b: 0, a: 255 }
            };
            next.push(color);
            c += 1;
        }
        assert(next@ =~= step(pixels, centroids@));
        next
    }

    /// Whether the round from `centroids` to `next` moved no centroid by
    /// more than the threshold allows.
    pub fn is_settled(&self, next: &Vec<RgbaColor>, centroids: &Vec<RgbaColor>) -> (at_rest: bool)
        requires
            next@.len() == centroids@.len(),
        ensures
            at_rest == settled(next@, centroids@, self.min_distance_sq),
    {
        match self.min_distance_sq {
            None => false,
            Some(bound) => {
                let mut j: usize = 0;
                while j < centroids.len()
                    invariant
                        j <= centroids@.len(),
                        next@.len() == centroids@.len(),
                        self.min_distance_sq == Some(bound),
                        forall|x: int|
                            0 <= x < j ==> dist_sq(#[trigger] next@[x], centroids@[x]) <= bound,
                    decreases centroids@.len() - j,
                {
                    if calc_dist_sq(&next[j], &centroids[j]) as u64 > bound {
                        assert(dist_sq(next@[j as int], centroids@[j as int]) > bound);
                        return false;
                    }
                    j += 1;
                }
                true
            },
        }
    }

    /// The centroids that the rounds lead to from the given ones: each
    /// round recomputes them, and the rounds end with the first that moves
    /// none by more than the threshold, or when `iteration` are done. With no
    /// centroid given, or not as many as `init_centroid`, the parameters
    /// are refused; after that, so is an image without pixels.
    pub fn refine(&self, initial: Vec<RgbaColor>) -> (result: Result<Vec<RgbaColor>, PaletteError>)
        ensures
            match result {
                Ok(centroids) => {
                    &&& initial@.len() > 0
                    &&& initial@.len() == self.init_centroid
                    &&& self.image.pixels@.len() > 0
                    &&& centroids@.len() == self.init_centroid
                    &&& centroids@ == run(
                        self.image.pixels@,
                        initial@,
                        self.iteration as nat,
                        self.min_distance_sq,
                    )
                },
                Err(PaletteError::InvalidParameters) => initial@.len() == 0 || initial@.len()
                    != self.init_centroid,
                Err(PaletteError::EmptyImage) => initial@.len() > 0 && initial@.len()
                    == self.init_centroid && self.image.pixels@.len() == 0,
            },
    {
        if initial.len() == 0 || initial.len() as u64 != self.init_centroid {
            return Err(PaletteError::InvalidParameters);
        }
        if self.image.pixels.len() == 0 {
            return Err(PaletteError::EmptyImage);
        }
        let ghost pixels = self.image.pixels@;
        let ghost first = initial@;
        let mut centroid = initial;
        let mut iteration = self.iteration;
        proof {
            lemma_run_len(pixels, first, self.iteration as nat, self.min_distance_sq);
        }
        while iteration > 0
            invariant
                pixels == self.image.pixels@,
                pixels.len() > 0,
                centroid@.len() == first.len(),
                first.len() > 0,
                first.len() == self.init_centroid,
                first == initial@,
                run(pixels, centroid@, iteration as nat, self.min_distance_sq) == run(
                    pixels,
                    first,
                    self.iteration as nat,
                    self.min_distance_sq,
                ),
            decreases iteration,
        {
            assert(run(pixels, centroid@, iteration as nat, self.min_distance_sq) == (if settled(
                step(pixels, centroid@),
                centroid@,
                self.min_distance_sq,
            ) {
                step(pixels, centroid@)
            } else {
                run(
                    pixels,
                    step(pixels, centroid@),
                    (iteration - 1) as nat,
                    self.min_distance_sq,
                )
            }));
            iteration -= 1;
            let new_centroid = self.step(&centroid);
            if self.is_settled(&new_centroid, &centroid) {
                return Ok(new_centroid);
            }
            centroid = new_centroid;
        }
        Ok(centroid)
    }

    /// `count` colours, each channel of each drawn at random from `0..=255`.
    pub fn random_centroids(count: usize) -> (initial: Vec<RgbaColor>)
        ensures
            initial@.len() == count,
    {
        let mut rng = thread_generator();
        let mut initial: Vec<RgbaColor> = Vec::new();
        let mut j: usize = 0;
        while j < count
            invariant
                j <= count,
                initial@.len() == j,
            decreases count - j,
        {
            let r = random_channel(&mut rng, 0, 255);
            let g = random_channel(&mut rng, 0, 255);
            let b = random_channel(&mut rng, 0, 255);
            let a = random_channel(&mut rng, 0, 255);
            initial.push(RgbaColor { r, g, b, a });
            j += 1;
        }
        initial
    }
}

impl PrimanyColor for Kmeans {
    /// The centroids that the rounds lead to from centroids drawn at
    /// random, as many as `init_centroid` and in the order of the clusters.
    /// A number of clusters of zero, or one that no vector can hold, is
    /// refused, and so is, after that, an image without pixels.
    fn get_primary_colors(&self) -> (result: Result<Vec<RgbaColor>, PaletteError>)
        ensures
            match result {
                Ok(centroids) => {
                    &&& 0 < self.init_centroid <= usize::MAX
                    &&& self.image.pixels@.len() > 0
                    &&& centroids@.len() == self.init_centroid
                    &&& exists|initial: Seq<RgbaColor>|
                        initial.len() == self.init_centroid && centroids@ == #[trigger] run(
                            self.image.pixels@,
                            initial,
                            self.iteration as nat,
                            self.min_distance_sq,
                        )
                },
                Err(PaletteError::InvalidParameters) => self.init_centroid == 0
                    || self.init_centroid > usize::MAX,
                Err(PaletteError::EmptyImage) => 0 < self.init_centroid <= usize::MAX
                    && self.image.pixels@.len() == 0,
            },
    {
        if self.init_centroid == 0 || self.init_centroid > usize::MAX as u64 {
            return Err(PaletteError::InvalidParameters);
        }
        if self.image.pixels.len() == 0 {
            return Err(PaletteError::EmptyImage);
        }
        let initial = Self::random_centroids(self.init_centroid as usize);
        self.refine(initial)
    }
}

} // verus!
