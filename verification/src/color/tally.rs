//! Channel sums and pixel counts, from which both quantizers take means.

use vstd::prelude::*;
use crate::RgbaColor;

verus! {

/// The channel sums and the number of a set of pixels.
pub struct Tally {
    pub r: nat,
    pub g: nat,
    pub b: nat,
    pub a: nat,
    pub count: nat,
}

impl Tally {
    pub open spec fn zero() -> Tally {
        Tally { r: 0, g: 0, b: 0, a: 0, count: 0 }
    }

    /// The tally with one more pixel of colour `c`.
    pub open spec fn plus(self, c: RgbaColor) -> Tally {
        Tally {
            r: self.r + c.r as nat,
            g: self.g + c.g as nat,
            b: self.b + c.b as nat,
            a: self.a + c.a as nat,
            count: self.count + 1,
        }
    }

    pub open spec fn merge(self, other: Tally) -> Tally {
        Tally {
            r: self.r + other.r,
            g: self.g + other.g,
            b: self.b + other.b,
            a: self.a + other.a,
            count: self.count + other.count,
        }
    }

    /// No channel sum exceeds what `count` pixels can add up to.
    pub open spec fn bounded(self) -> bool {
        &&& self.r <= 255 * self.count
        &&& self.g <= 255 * self.count
        &&& self.b <= 255 * self.count
        &&& self.a <= 255 * self.count
    }

    /// The channel-wise mean, rounded down. Meant for `count > 0`.
    pub open spec fn mean(self) -> RgbaColor {
        RgbaColor {
            r: (self.r / self.count) as u8,
            g: (self.g / self.count) as u8,
            b: (self.b / self.count) as u8,
            a: (self.a / self.count) as u8,
        }
    }
}

/// The tally of `k` pixels of colour `c`.
pub open spec fn solid_tally(c: RgbaColor, k: nat) -> Tally {
    Tally {
        r: k * c.r as nat,
        g: k * c.g as nat,
        b: k * c.b as nat,
        a: k * c.a as nat,
        count: k,
    }
}

/// The mean of pixels of one colour is that colour.
pub proof fn lemma_solid_mean(c: RgbaColor, k: nat)
    requires
        k > 0,
    ensures
        solid_tally(c, k).mean() == c,
        solid_tally(c, k).bounded(),
{
    let (r, g, b, a) = (c.r as int, c.g as int, c.b as int, c.a as int);
    let n = k as int;
    assert((n * r) / n == r && (n * g) / n == g && (n * b) / n == b && (n * a) / n == a && n * r
        <= 255 * n && n * g <= 255 * n && n * b <= 255 * n && n * a <= 255 * n) by (nonlinear_arith)
        requires
            n > 0,
            0 <= r <= 255,
            0 <= g <= 255,
            0 <= b <= 255,
            0 <= a <= 255,
    ;
}

/// The mean of bounded sums is a colour whose channels are the rounded-down
/// quotients.
pub proof fn lemma_mean_channels(t: Tally)
    requires
        t.bounded(),
        t.count > 0,
    ensures
        t.mean().r == t.r / t.count,
        t.mean().g == t.g / t.count,
        t.mean().b == t.b / t.count,
        t.mean().a == t.a / t.count,
{
    let n = t.count as int;
    let (r, g, b, a) = (t.r as int, t.g as int, t.b as int, t.a as int);
    assert(0 <= r / n <= 255 && 0 <= g / n <= 255 && 0 <= b / n <= 255 && 0 <= a / n <= 255)
        by (nonlinear_arith)
        requires
            n > 0,
            0 <= r <= 255 * n,
            0 <= g <= 255 * n,
            0 <= b <= 255 * n,
            0 <= a <= 255 * n,
    ;
}

} // verus!
