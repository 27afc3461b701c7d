//! The octree of an image of one colour: a single chain of nodes down to
//! one leaf, and a palette of that colour alone.

use vstd::prelude::*;
use crate::RgbaColor;
use crate::color::octree::growth::Growth;
use crate::color::octree::model::{
    Census, Tree, lemma_slot_range, lemma_sum_update, lemma_sum_zeros, slot,
};
use crate::color::octree::octree_record;
use crate::color::octree::ranking::{among, is_palette, lemma_pack_unpack, pack, record_leaf};
use crate::color::tally::{Tally, lemma_solid_mean, solid_tally};

verus! {

/// The tree below depth `level` that `k` pixels of colour `c` build: the
/// nodes on the route of `c`, each the only child of the one above, down
/// to the leaf that holds the pixels.
pub open spec fn chain(c: RgbaColor, k: nat, level: nat) -> Tree
    decreases 7 - level,
{
    if level >= 7 {
        Tree::Leaf(solid_tally(c, k))
    } else if k == 0 {
        Tree::fresh(level)
    } else {
        Tree::Inner(
            Seq::new(16, |i: int| None::<Tree>).update(
                slot(c, level),
                Some(chain(c, k, level + 1)),
            ),
        )
    }
}

/// One pixel more of the colour makes the chain of one pixel more.
pub proof fn lemma_chain_add(c: RgbaColor, k: nat, level: nat)
    requires
        level <= 7,
    ensures
        chain(c, k, level).add(c, level) == chain(c, k + 1, level),
    decreases 7 - level,
{
    assert(solid_tally(c, k).plus(c) == solid_tally(c, k + 1)) by (nonlinear_arith);
    if level < 7 {
        lemma_slot_range(c, level);
        lemma_chain_add(c, k, level + 1);
        let s = slot(c, level);
        let none = Seq::new(16, |i: int| None::<Tree>);
        let next = chain(c, k + 1, level + 1);
        if k == 0 {
            assert(chain(c, 0, level + 1) == Tree::fresh(level + 1)) by {
                assert(solid_tally(c, 0) == Tally::zero());
            }
        } else {
            let ch = none.update(s, Some(chain(c, k, level + 1)));
            assert(ch.update(s, Some(next)) =~= none.update(s, Some(next)));
        }
    }
}

/// A chain of at least one pixel has one leaf, which holds the pixels.
pub proof fn lemma_chain_census(c: RgbaColor, k: nat, level: nat)
    requires
        level <= 7,
        k >= 1,
    ensures
        chain(c, k, level).census() == (Census { leaves: 1, tally: solid_tally(c, k) }),
    decreases 7 - level,
{
    if level < 7 {
        lemma_slot_range(c, level);
        lemma_chain_census(c, k, level + 1);
        let s = slot(c, level);
        let t = chain(c, k, level);
        let zeros = Seq::new(16, |i: int| Census::zero());
        let v = chain(c, k, level + 1).census();
        assert(t.child_censuses() =~= zeros.update(s, v));
        lemma_sum_zeros(zeros);
        lemma_sum_update(zeros, s, v);
    }
}

/// Of the children of a chain only the one on the route has leaves to
/// enter into a record.
proof fn lemma_chain_children(c: RgbaColor, k: nat, level: nat, n: nat, record: Map<u32, u64>)
    requires
        level < 7,
        k >= 1,
        n <= 16,
    ensures
        chain(c, k, level).tally_children(n, record) == (if n > slot(c, level) {
            chain(c, k, level + 1).tally_into(record)
        } else {
            record
        }),
    decreases n,
{
    lemma_slot_range(c, level);
    if n > 0 {
        lemma_chain_children(c, k, level, (n - 1) as nat, record);
    }
}

/// A chain of at least one pixel enters its one leaf into a record.
pub proof fn lemma_chain_tally(c: RgbaColor, k: nat, level: nat, record: Map<u32, u64>)
    requires
        level <= 7,
        k >= 1,
    ensures
        chain(c, k, level).tally_into(record) == record_leaf(record, solid_tally(c, k)),
    decreases 7 - level,
{
    if level < 7 {
        lemma_slot_range(c, level);
        lemma_chain_children(c, k, level, 16, record);
        lemma_chain_tally(c, k, level + 1, record);
    }
}

/// The tree of an image of one colour is a chain, whatever the budget of
/// at least one leaf.
pub proof fn lemma_solid_grow(pixels: Seq<RgbaColor>, c: RgbaColor, limit: nat)
    requires
        limit >= 1,
        forall|i: int| 0 <= i < pixels.len() ==> pixels[i] == c,
    ensures
        Growth::grow(pixels, limit).tree == chain(c, pixels.len(), 0),
    decreases pixels.len(),
{
    if pixels.len() > 0 {
        let k = (pixels.len() - 1) as nat;
        lemma_solid_grow(pixels.drop_last(), c, limit);
        lemma_chain_add(c, k, 0);
        lemma_chain_census(c, k + 1, 0);
    }
}

/// An image of one colour has a palette of that colour alone: with at
/// least one pixel, a budget of at least one leaf and a palette of at
/// least one colour, the palette is the colour of the image.
pub proof fn lemma_solid_image_palette(
    pixels: Seq<RgbaColor>,
    c: RgbaColor,
    limit: nat,
    n: nat,
    s: Seq<RgbaColor>,
)
    requires
        0 < pixels.len() <= u64::MAX,
        forall|i: int| 0 <= i < pixels.len() ==> pixels[i] == c,
        limit >= 1,
        n >= 1,
        is_palette(s, octree_record(pixels, limit), n),
    ensures
        s == seq![c],
{
    let record = octree_record(pixels, limit);
    lemma_solid_grow(pixels, c, limit);
    lemma_chain_tally(c, pixels.len(), 0, Map::empty());
    lemma_solid_mean(c, pixels.len());
    assert(record =~= Map::<u32, u64>::empty().insert(pack(c), pixels.len() as u64));
    assert forall|i: int| 0 <= i < s.len() implies s[i] == c by {
        assert(record.contains_key(pack(s[i])));
        lemma_pack_unpack(s[i], 0);
        lemma_pack_unpack(c, 0);
    }
    if s.len() >= 2 {
        assert(pack(s[0]) == pack(s[1]));
    }
    if s.len() == 0 {
        assert(record.contains_key(pack(c)));
        assert(!among(s, pack(c)));
    }
    assert(s =~= seq![c]);
}

} // verus!
