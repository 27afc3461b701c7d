//! Octree quantizer: a tree over the colour space, built pixel by pixel and
//! pruned whenever it holds more leaves than the budget allows.

use std::collections::BTreeMap;
use vstd::prelude::*;
use crate::{Image, RgbaColor};
use crate::color::{PaletteError, PrimanyColor};
use crate::color::octree::growth::{
    Growth, backlog, deepest, lemma_budget_kept, lemma_idle_is_leaf, lemma_insert_tracks,
    lemma_reduce_effect, lemma_reduce_keeps, lemma_reduce_tracks, lemma_start_tracks,
    starts_with,
};
use crate::color::octree::model::{
    Census, Tree, census_sum, lemma_add_census, lemma_census_bounded, lemma_fresh_census,
    lemma_leaves_bound, lemma_slot_range, lemma_sum_bounded, lemma_sum_member, lemma_sum_prefix,
    lemma_wf_bounded, push_chain, route, slot,
};
use crate::color::octree::ranking::{
    color_key, held, is_palette, lemma_palette_unique, palette_of, rank,
};
use crate::color::octree::record::raise;
use crate::color::tally::Tally;

pub mod growth;
pub mod model;
pub mod ranking;
pub mod record;
pub mod solid;

verus! {

/// The bookkeeping that insertion and reduction share: the number of live
/// leaves, and for each depth `0..=6` the inner nodes of that depth in the
/// order of their creation. An inner node is entered as a colour that
/// routes to it.
pub struct Reducer {
    pub leaf_count: u64,
    pub to_reduce: Vec<Vec<RgbaColor>>,
}

impl Reducer {
    /// The registry as nested sequences.
    pub open spec fn pending(&self) -> Seq<Seq<RgbaColor>> {
        Seq::new(self.to_reduce@.len(), |l: int| self.to_reduce@[l]@)
    }

    /// The registry has its seven depths.
    pub open spec fn wf(&self) -> bool {
        self.to_reduce@.len() == 7
    }

    /// No leaf is counted and no node registered.
    pub open spec fn is_blank(&self) -> bool {
        &&& self.wf()
        &&& self.leaf_count == 0
        &&& forall|l: int| 0 <= l < 7 ==> #[trigger] self.pending()[l] == Seq::<RgbaColor>::empty()
    }

    /// The bookkeeping is in step with the tree below `root`, whose nodes
    /// are in order: the registry lists its inner nodes, each once, and the
    /// leaves are counted, with room in the counter for one more.
    pub open spec fn tracks(&self, root: OctreeNode) -> bool {
        &&& self.wf()
        &&& root.well_formed()
        &&& (Growth { tree: root@, pending: self.pending() }).tracks()
        &&& self.leaf_count == root@.census().leaves
        &&& self.leaf_count < u64::MAX
    }

    /// No leaf counted, nothing registered.
    pub fn new() -> (reducer: Self)
        ensures
            reducer.is_blank(),
    {
        let mut to_reduce: Vec<Vec<RgbaColor>> = Vec::new();
        let mut l: usize = 0;
        while l < 7
            invariant
                l <= 7,
                to_reduce@.len() == l,
                forall|k: int|
                    0 <= k < l ==> #[trigger] to_reduce@[k]@ == Seq::<RgbaColor>::empty(),
            decreases 7 - l,
        {
            to_reduce.push(Vec::new());
            l += 1;
        }
        Reducer { leaf_count: 0, to_reduce }
    }
}

/// One node of the tree. A leaf holds the channel sums and the number of
/// the pixels that reached it; an inner node owns up to 16 children.
#[derive(Debug)]
pub struct OctreeNode {
    pub children: Vec<Option<Box<OctreeNode>>>,
    pub is_leaf: bool,
    pub r: u128,
    pub g: u128,
    pub b: u128,
    pub a: u128,
    pub children_count: u64,
}

impl OctreeNode {
    /// The tree that this node is the root of. The children of a leaf do
    /// not count.
    pub open spec fn model(&self) -> Tree
        decreases self,
    {
        if self.is_leaf {
            Tree::Leaf(
                Tally {
                    r: self.r as nat,
                    g: self.g as nat,
                    b: self.b as nat,
                    a: self.a as nat,
                    count: self.children_count as nat,
                },
            )
        } else {
            Tree::Inner(
                Seq::new(
                    self.children@.len(),
                    |i: int|
                        if 0 <= i < self.children@.len() {
                            match self.children@[i] {
                                Some(child) => Some((*child).model()),
                                None => None,
                            }
                        } else {
                            None
                        },
                ),
            )
        }
    }
}

impl OctreeNode {
    /// The node is in order: it has its 16 child positions; a leaf has no
    /// child; an inner node holds no sums and no count of its own, and its
    /// children are in order.
    pub open spec fn well_formed(&self) -> bool
        decreases self,
    {
        &&& self.children@.len() == 16
        &&& if self.is_leaf {
            forall|i: int| 0 <= i < self.children@.len() ==> #[trigger] self.children@[i] is None
        } else {
            &&& self.r == 0
            &&& self.g == 0
            &&& self.b == 0
            &&& self.a == 0
            &&& self.children_count == 0
            &&& forall|i: int|
                0 <= i < self.children@.len() ==> match #[trigger] self.children@[i] {
                    Some(child) => (*child).well_formed(),
                    None => true,
                }
        }
    }
}

/// The tree of a node in order says all there is to say of the node: a
/// leaf holds the tally and no child; an inner node holds no sums, and
/// its children are those of the tree.
pub proof fn lemma_node_from_model(node: OctreeNode)
    requires
        node.well_formed(),
    ensures
        node.is_leaf <==> node@ is Leaf,
        node.children@.len() == 16,
        node.is_leaf ==> {
            &&& node@ == Tree::Leaf(
                Tally {
                    r: node.r as nat,
                    g: node.g as nat,
                    b: node.b as nat,
                    a: node.a as nat,
                    count: node.children_count as nat,
                },
            )
            &&& forall|i: int| 0 <= i < 16 ==> node.children@[i] is None
        },
        !node.is_leaf ==> {
            &&& node.r == 0 && node.g == 0 && node.b == 0 && node.a == 0
            &&& node.children_count == 0
            &&& node@->Inner_0.len() == 16
            &&& forall|i: int|
                0 <= i < 16 ==> match #[trigger] node.children@[i] {
                    Some(child) => node@->Inner_0[i] == Some((*child)@) && (*child).well_formed(),
                    None => node@->Inner_0[i] is None,
                }
        },
{
}

impl View for OctreeNode {
    type V = Tree;

    open spec fn view(&self) -> Tree {
        self.model()
    }
}

/// The child that `color` takes at `level`: the bit `7 - level` of each
/// channel, red highest.
pub fn child_index(color: &RgbaColor, level: usize) -> (index: usize)
    requires
        level <= 7,
    ensures
        index == slot(*color, level as nat),
        index < 16,
{
    let shift: u8 = 7 - level as u8;
    let r_bit: u8 = (color.r >> shift) & 1;
    let g_bit: u8 = (color.g >> shift) & 1;
    let b_bit: u8 = (color.b >> shift) & 1;
    let a_bit: u8 = (color.a >> shift) & 1;
    let index: u8 = (r_bit << 3) | (g_bit << 2) | (b_bit << 1) | a_bit;
    proof {
        lemma_slot_range(*color, level as nat);
    }
    index as usize
}

impl OctreeNode {
    /// A node without pixels for depth `level`: a leaf at depth 7, an inner
    /// node without children above it. The leaf is counted; the inner node
    /// is registered as reducible under `color`, which stands for any colour
    /// that routes to the node.
    pub fn new(level: usize, color: &RgbaColor, reducer: &mut Reducer) -> (node: Self)
        requires
            level <= 7,
            old(reducer).wf(),
            old(reducer).leaf_count < u64::MAX,
        ensures
            node.is_leaf == (level == 7),
            node.r == 0 && node.g == 0 && node.b == 0 && node.a == 0 && node.children_count == 0,
            node.children@.len() == 16,
            forall|i: int| 0 <= i < 16 ==> node.children@[i] is None,
            node.well_formed(),
            node@ == Tree::fresh(level as nat),
            node@.wf(level as nat),
            node@.bounded(),
            node@.census().tally == Tally::zero(),
            level == 0 && old(reducer).is_blank() ==> final(reducer).tracks(node),
            final(reducer).wf(),
            final(reducer).pending() == (if level < 7 {
                old(reducer).pending().update(
                    level as int,
                    old(reducer).pending()[level as int].push(*color),
                )
            } else {
                old(reducer).pending()
            }),
            final(reducer).leaf_count == old(reducer).leaf_count + (if level == 7 {
                1int
            } else {
                0int
            }),
    {
        let is_leaf = level == 7;
        if is_leaf {
            reducer.leaf_count += 1;
        } else {
            reducer.to_reduce[level].push(*color);
        }
        let mut children: Vec<Option<Box<OctreeNode>>> = Vec::with_capacity(16);
        let mut i: usize = 0;
        while i < 16
            invariant
                i <= 16,
                children@.len() == i,
                forall|k: int| 0 <= k < i ==> #[trigger] children@[k] is None,
            decreases 16 - i,
        {
            children.push(None);
            i += 1;
        }
        let node = OctreeNode {
            children,
            is_leaf,
            r: 0,
            g: 0,
            b: 0,
            a: 0,
            children_count: 0,
        };
        assert(reducer.pending() =~= (if level < 7 {
            old(reducer).pending().update(
                level as int,
                old(reducer).pending()[level as int].push(*color),
            )
        } else {
            old(reducer).pending()
        }));
        assert(node@ =~= Tree::fresh(level as nat)) by {
            if !is_leaf {
                assert(node@->Inner_0 =~= Seq::new(16, |i: int| None::<Tree>));
            }
        }
        proof {
            lemma_fresh_census(level as nat);
            lemma_wf_bounded(node@, level as nat);
            if level == 0 && old(reducer).is_blank() {
                assert(reducer.pending() =~= Growth::start(*color).pending);
                lemma_start_tracks(*color);
            }
        }
        node
    }

    /// Routes `color` from this node, which stands at depth `level`, down to
    /// a leaf and adds it there. Missing nodes on the way are created,
    /// counted and registered.
    pub fn add_color(&mut self, color: &RgbaColor, level: usize, reducer: &mut Reducer)
        requires
            old(self)@.wf(level as nat),
            old(self)@.census().tally.count < u64::MAX,
            old(reducer).wf(),
            old(self)@.first_new(*color, level as nat) <= 7 ==> old(reducer).leaf_count < u64::MAX,
        ensures
            final(self).is_leaf == old(self).is_leaf,
            old(self).is_leaf ==> {
                &&& final(self).children@ == old(self).children@
                &&& final(self).children_count == old(self).children_count + 1
                &&& final(self).r == old(self).r + color.r
                &&& final(self).g == old(self).g + color.g
                &&& final(self).b == old(self).b + color.b
                &&& final(self).a == old(self).a + color.a
            },
            !old(self).is_leaf ==> {
                &&& final(self).r == old(self).r
                &&& final(self).g == old(self).g
                &&& final(self).b == old(self).b
                &&& final(self).a == old(self).a
                &&& final(self).children_count == old(self).children_count
                &&& final(self).children@.len() == 16
                &&& final(self).children@[slot(*color, level as nat)] is Some
                &&& forall|j: int|
                    0 <= j < 16 && j != slot(*color, level as nat) ==> final(self).children@[j]
                        == old(self).children@[j]
            },
            old(self).well_formed() ==> final(self).well_formed(),
            final(self)@ == old(self)@.add(*color, level as nat),
            final(self)@.wf(level as nat),
            final(self)@.bounded(),
            final(self)@.census().tally == old(self)@.census().tally.plus(*color),
            level == 0 && old(reducer).tracks(*old(self)) ==> final(reducer).tracks(*final(self)),
            final(reducer).wf(),
            final(reducer).pending() == push_chain(
                old(reducer).pending(),
                *color,
                old(self)@.first_new(*color, level as nat),
            ),
            final(reducer).leaf_count == old(reducer).leaf_count + (if old(self)@.first_new(
                *color,
                level as nat,
            ) <= 7 {
                1int
            } else {
                0int
            }),
        decreases 7 - level,
    {
        proof {
            lemma_add_census(old(self)@, *color, level as nat);
            lemma_wf_bounded(old(self)@.add(*color, level as nat), level as nat);
            lemma_leaves_bound(old(self)@.add(*color, level as nat), level as nat);
            if level == 0 && old(reducer).tracks(*old(self)) {
                lemma_insert_tracks(
                    Growth { tree: old(self)@, pending: old(reducer).pending() },
                    *color,
                );
            }
        }
        if self.is_leaf {
            self.children_count += 1;
            self.r += color.r as u128;
            self.g += color.g as u128;
            self.b += color.b as u128;
            self.a += color.a as u128;
            assert(reducer.pending() =~= push_chain(old(reducer).pending(), *color, 8));
        } else {
            let index = child_index(color, level);
            let ghost kids = old(self)@->Inner_0;
            let ghost before = old(reducer).pending();
            proof {
                lemma_slot_range(*color, (level + 1) as nat);
                lemma_fresh_census((level + 1) as nat);
                lemma_sum_member(old(self)@.child_censuses(), index as int);
            }
            if self.children[index].is_none() {
                let child = OctreeNode::new(level + 1, color, reducer);
                self.children[index] = Some(Box::new(child));
            }
            let ghost middle = reducer.pending();
            let ghost start = match kids[index as int] {
                Some(t) => t,
                None => Tree::fresh((level + 1) as nat),
            };
            let ghost halfway = *self;
            assert(old(self).well_formed() ==> halfway.children@[index as int].unwrap(
            ).well_formed());
            match &mut self.children[index] {
                Some(child) => {
                    assert(child@ == start);
                    assert(start.census().tally.count <= old(self)@.census().tally.count);
                    child.add_color(color, level + 1, reducer);
                },
                None => {},
            }
            assert(forall|j: int|
                0 <= j < 16 && j != index ==> self.children@[j] == old(self).children@[j]);
            assert(old(self).well_formed() ==> self.well_formed()) by {
                if old(self).well_formed() {
                    assert forall|i: int|
                        0 <= i < self.children@.len() implies match #[trigger] self.children@[i] {
                        Some(child) => (*child).well_formed(),
                        None => true,
                    } by {
                        if i != index {
                            assert(self.children@[i] == old(self).children@[i]);
                        }
                    }
                }
            }
            assert(self@->Inner_0 =~= kids.update(
                index as int,
                Some(start.add(*color, (level + 1) as nat)),
            ));
            assert(reducer.pending() =~= push_chain(
                before,
                *color,
                old(self)@.first_new(*color, level as nat),
            ));
        }
    }

    /// Turns the inner node that the route of `color` reaches at depth
    /// `depth` into a leaf that holds what its children held, and returns
    /// the number of the children given up. This node stands at depth
    /// `level`; the children of the node to collapse are leaves.
    fn collapse(&mut self, color: &RgbaColor, level: usize, depth: usize) -> (removed: u64)
        requires
            old(self)@.wf(level as nat),
            level <= depth <= 6,
            old(self)@.inner_at(route(*color, level as nat, (depth - level) as nat)),
            old(self)@.at(route(*color, level as nat, (depth - level) as nat)).unwrap().flat(),
            old(self)@.census().tally.count <= u64::MAX,
        ensures
            old(self).well_formed() ==> final(self).well_formed(),
            final(self)@ == old(self)@.collapse(*color, level as nat, depth as nat),
            removed == old(self)@.at(
                route(*color, level as nat, (depth - level) as nat),
            ).unwrap().census().leaves,
        decreases depth - level,
    {
        let ghost q = route(*color, level as nat, (depth - level) as nat);
        let ghost kids = old(self)@->Inner_0;
        let ghost cs = old(self)@.child_censuses();
        if level == depth {
            assert(q =~= Seq::<int>::empty());
            let mut r: u128 = 0;
            let mut g: u128 = 0;
            let mut b: u128 = 0;
            let mut a: u128 = 0;
            let mut count: u64 = 0;
            let mut removed: u64 = 0;
            let mut i: usize = 0;
            proof {
                lemma_wf_bounded(self@, level as nat);
            }
            while i < 16
                invariant
                    i <= 16,
                    removed <= i,
                    *self == *old(self),
                    self@ == Tree::Inner(kids),
                    self@.wf(level as nat),
                    self@.flat(),
                    self.children@.len() == 16,
                    cs == self@.child_censuses(),
                    census_sum(cs).tally.count <= u64::MAX,
                    census_sum(cs.take(i as int)) == (Census {
                        leaves: removed as nat,
                        tally: Tally {
                            r: r as nat,
                            g: g as nat,
                            b: b as nat,
                            a: a as nat,
                            count: count as nat,
                        },
                    }),
                    census_sum(cs.take(i as int)).tally.bounded(),
                decreases 16 - i,
            {
                proof {
                    lemma_sum_prefix(cs, i + 1);
                    assert(cs.take(i + 1).drop_last() =~= cs.take(i as int));
                    assert(cs.take(i + 1).last() == cs[i as int]);
                    assert(kids[i as int] matches Some(x) ==> x is Leaf);
                    assert forall|k: int| 0 <= k < cs.take(i + 1).len() implies (
                    #[trigger] cs.take(i + 1)[k]).tally.bounded() by {
                        match kids[k] {
                            Some(x) => {
                                lemma_census_bounded(x, (level + 1) as nat);
                            },
                            None => {},
                        }
                    }
                    lemma_sum_bounded(cs.take(i + 1));
                }
                match &self.children[i] {
                    Some(child) => {
                        assert(child@ == kids[i as int].unwrap());
                        r += child.r;
                        g += child.g;
                        b += child.b;
                        a += child.a;
                        count += child.children_count;
                        removed += 1;
                    },
                    None => {},
                }
                i += 1;
            }
            assert(cs.take(16) =~= cs);
            self.is_leaf = true;
            self.r = r;
            self.g = g;
            self.b = b;
            self.a = a;
            self.children_count = count;
            let mut j: usize = 0;
            while j < 16
                invariant
                    j <= 16,
                    self.is_leaf,
                    self.r == r && self.g == g && self.b == b && self.a == a,
                    self.children_count == count,
                    self.children@.len() == 16,
                    forall|k: int| 0 <= k < j ==> #[trigger] self.children@[k] is None,
                decreases 16 - j,
            {
                self.children[j] = None;
                j += 1;
            }
            removed
        } else {
            let index = child_index(color, level);
            proof {
                assert(q[0] == index);
                assert(q.drop_first() =~= route(
                    *color,
                    (level + 1) as nat,
                    (depth - level - 1) as nat,
                ));
                lemma_sum_member(cs, index as int);
            }
            let ghost start = kids[index as int].unwrap();
            let mut removed: u64 = 0;
            assert(old(self).well_formed() ==> old(self).children@[index as int].unwrap(
            ).well_formed());
            match &mut self.children[index] {
                Some(child) => {
                    assert(child@ == start);
                    removed = child.collapse(color, level + 1, depth);
                },
                None => {},
            }
            assert(old(self).well_formed() ==> self.well_formed()) by {
                if old(self).well_formed() {
                    assert forall|i: int|
                        0 <= i < self.children@.len() implies match #[trigger] self.children@[i] {
                        Some(child) => (*child).well_formed(),
                        None => true,
                    } by {
                        if i != index {
                            assert(self.children@[i] == old(self).children@[i]);
                        }
                    }
                }
            }
            assert(self@->Inner_0 =~= kids.update(
                index as int,
                Some(start.collapse(*color, (level + 1) as nat, depth as nat)),
            ));
            removed
        }
    }

    /// One reduction of the tree that this node is the root of: of the
    /// inner nodes registered at the deepest depth that has any, the one
    /// registered last becomes a leaf with the sums and counts of its
    /// children, which are given up: as every leaf of a tree in order, it
    /// has 16 empty child positions afterwards. The nodes that lie neither
    /// below nor above it stay as they are. The leaf count falls by the
    /// number of the children given up and rises by one. Nothing changes
    /// where no node is registered.
    pub fn reduce_tree(&mut self, reducer: &mut Reducer)
        requires
            old(reducer).tracks(*old(self)),
            old(self)@.census().tally.count <= u64::MAX,
        ensures
            (Growth { tree: final(self)@, pending: final(reducer).pending() }) == (Growth {
                tree: old(self)@,
                pending: old(reducer).pending(),
            }).reduce(),
            final(reducer).tracks(*final(self)),
            final(self)@.bounded(),
            final(self)@.census().tally == old(self)@.census().tally,
            deepest(old(reducer).pending()) >= 0 ==> ({
                let l = deepest(old(reducer).pending());
                let q = route(old(reducer).pending()[l].last(), 0, l as nat);
                &&& old(self)@.inner_at(q)
                &&& old(self)@.at(q).unwrap().flat()
                &&& final(self)@.at(q) == Some(
                    Tree::Leaf(old(self)@.at(q).unwrap().census().tally),
                )
                &&& forall|p: Seq<int>|
                    !starts_with(p, q) && !starts_with(q, p) ==> #[trigger] final(self)@.at(p)
                        == old(self)@.at(p)
            }),
    {
        proof {
            let before = Growth { tree: old(self)@, pending: old(reducer).pending() };
            lemma_reduce_keeps(before);
            lemma_leaves_bound(before.reduce().tree, 0);
            if deepest(before.pending) >= 0 {
                lemma_reduce_effect(before);
            }
        }
        let ghost before = Growth { tree: self@, pending: reducer.pending() };
        let mut level: usize = 7;
        while level > 0 && reducer.to_reduce[level - 1].len() == 0
            invariant
                level <= 7,
                reducer.wf(),
                *reducer == *old(reducer),
                forall|k: int| level <= k < 7 ==> #[trigger] reducer.pending()[k].len() == 0,
            decreases level,
        {
            level -= 1;
        }
        if level == 0 {
            assert(deepest(before.pending) < 0);
            return ;
        }
        let depth = level - 1;
        assert(deepest(before.pending) == depth);
        proof {
            lemma_reduce_tracks(before);
            lemma_leaves_bound(self@, 0);
        }
        let entry = reducer.to_reduce[depth].pop().unwrap();
        assert(entry == before.pending[depth as int].last());
        let removed = self.collapse(&entry, 0, depth);
        reducer.leaf_count = reducer.leaf_count + 1 - removed;
        assert(reducer.pending() =~= before.pending.update(
            depth as int,
            before.pending[depth as int].drop_last(),
        ));
    }
}

impl OctreeNode {
    /// Enters every leaf below this node into the record: the pixels of
    /// the leaf are added to the count of its mean colour, each channel
    /// rounded down. A leaf without pixels is passed over. The children
    /// are visited in the order of their positions.
    pub fn colors_stats(&self, record: &mut BTreeMap<u32, u64>)
        requires
            self@.bounded(),
            forall|k: u32|
                #[trigger] held(old(record)@, k) + self@.census().tally.count <= u64::MAX,
        ensures
            final(record)@ == self@.tally_into(old(record)@),
            forall|k: u32|
                #[trigger] held(final(record)@, k) <= held(old(record)@, k)
                    + self@.census().tally.count,
        decreases self,
    {
        assert(held(record@, 0) + self@.census().tally.count <= u64::MAX);
        if self.is_leaf {
            if self.children_count > 0 {
                let n = self.children_count as u128;
                let (r, g, b, a) = (self.r / n, self.g / n, self.b / n, self.a / n);
                assert(r <= 255 && g <= 255 && b <= 255 && a <= 255) by (nonlinear_arith)
                    requires
                        n > 0,
                        self.r <= 255 * n,
                        self.g <= 255 * n,
                        self.b <= 255 * n,
                        self.a <= 255 * n,
                        r == self.r / n,
                        g == self.g / n,
                        b == self.b / n,
                        a == self.a / n,
                ;
                let color = RgbaColor { r: r as u8, g: g as u8, b: b as u8, a: a as u8 };
                let key = color_key(&color);
                assert(held(record@, key) + self@.census().tally.count <= u64::MAX);
                raise(record, key, self.children_count);
            }
        } else {
            let ghost cs = self@.child_censuses();
            let ghost kids = self@->Inner_0;
            let mut i: usize = 0;
            while i < self.children.len()
                invariant
                    i <= self.children@.len(),
                    !self.is_leaf,
                    self@.bounded(),
                    cs == self@.child_censuses(),
                    kids == self@->Inner_0,
                    census_sum(cs).tally.count == self@.census().tally.count,
                    forall|k: u32|
                        #[trigger] held(old(record)@, k) + self@.census().tally.count <= u64::MAX,
                    record@ == self@.tally_children(i as nat, old(record)@),
                    forall|k: u32|
                        #[trigger] held(record@, k) <= held(old(record)@, k) + census_sum(
                            cs.take(i as int),
                        ).tally.count,
                decreases self.children@.len() - i,
            {
                proof {
                    lemma_sum_prefix(cs, i + 1);
                    assert(cs.take(i + 1).drop_last() =~= cs.take(i as int));
                    assert(cs.take(i + 1).last() == cs[i as int]);
                }
                match &self.children[i] {
                    Some(child) => {
                        assert(child@ == kids[i as int].unwrap());
                        assert forall|k: u32| #[trigger]
                            held(record@, k) + child@.census().tally.count <= u64::MAX by {
                            assert(held(old(record)@, k) + self@.census().tally.count <= u64::MAX);
                        }
                        child.colors_stats(record);
                    },
                    None => {},
                }
                i += 1;
            }
            proof {
                assert(cs.take(i as int) =~= cs);
            }
        }
    }
}

/// The pixel count of each mean colour of the tree that the pixels build
/// under the leaf budget.
pub open spec fn octree_record(pixels: Seq<RgbaColor>, leaf_limit: nat) -> Map<u32, u64> {
    Growth::grow(pixels, leaf_limit).tree.tally_into(Map::empty())
}

/// The palette of an image is determined by its pixels, the leaf budget
/// and the palette size: two sequences that both are that palette are equal.
pub proof fn lemma_octree_deterministic(
    pixels: Seq<RgbaColor>,
    leaf_limit: nat,
    count: nat,
    first: Seq<RgbaColor>,
    second: Seq<RgbaColor>,
)
    requires
        is_palette(first, octree_record(pixels, leaf_limit), count),
        is_palette(second, octree_record(pixels, leaf_limit), count),
    ensures
        first == second,
{
    lemma_palette_unique(first, second, octree_record(pixels, leaf_limit), count);
}

/// The octree quantizer of one image: at most `leaf_limit` leaves are kept
/// while the tree is built, and the `primary_color_count` most frequent
/// colours of the finished tree are returned.
pub struct Octree {
    pub image: Image,
    pub leaf_limit: u32,
    pub primary_color_count: usize,
}

impl Octree {
    pub fn new(image: Image, leaf_limit: u32, primary_color_count: usize) -> (octree: Self)
        ensures
            octree.image == image,
            octree.leaf_limit == leaf_limit,
            octree.primary_color_count == primary_color_count,
    {
        Self { image, leaf_limit, primary_color_count }
    }

    /// Builds the tree of the image under the leaf budget.
    pub fn build(&self) -> (built: (OctreeNode, Reducer))
        requires
            self.leaf_limit > 0,
        ensures
            (Growth { tree: built.0@, pending: built.1.pending() }) == Growth::grow(
                self.image.pixels@,
                self.leaf_limit as nat,
            ),
            built.1.tracks(built.0),
            built.0@.bounded(),
            built.1.leaf_count <= self.leaf_limit,
            built.0@.census().tally.count == self.image.pixels@.len(),
    {
        let ghost pixels = self.image.pixels@;
        let ghost limit = self.leaf_limit as nat;
        let mut reducer = Reducer::new();
        let root_color = RgbaColor { r: 0, g: 0, b: 0, a: 0 };
        let mut root = OctreeNode::new(0, &root_color, &mut reducer);
        proof {
            assert(reducer.pending() =~= Growth::start(root_color).pending);
            assert(pixels.take(0) =~= Seq::<RgbaColor>::empty());
        }
        let mut i: usize = 0;
        while i < self.image.pixels.len()
            invariant
                i <= self.image.pixels.len(),
                pixels == self.image.pixels@,
                limit == self.leaf_limit as nat,
                limit >= 1,
                reducer.tracks(root),
                (Growth { tree: root@, pending: reducer.pending() }) == Growth::grow(
                    pixels.take(i as int),
                    limit,
                ),
            decreases self.image.pixels.len() - i,
        {
            let ghost inserted = Growth::grow(pixels.take(i as int), limit).insert(
                pixels[i as int],
            );
            proof {
                lemma_budget_kept(pixels, limit, i as int);
                lemma_leaves_bound(root@, 0);
                assert(pixels.take(i + 1).drop_last() =~= pixels.take(i as int));
            }
            root.add_color(&self.image.pixels[i], 0, &mut reducer);
            while reducer.leaf_count > self.leaf_limit as u64
                invariant
                    limit == self.leaf_limit as nat,
                    limit >= 1,
                    reducer.tracks(root),
                    (Growth { tree: root@, pending: reducer.pending() }).enforce(limit)
                        == inserted.enforce(limit),
                    root@.census().tally.count == i + 1,
                    i < self.image.pixels.len(),
                decreases backlog(reducer.pending()),
            {
                proof {
                    let current = Growth { tree: root@, pending: reducer.pending() };
                    if deepest(current.pending) < 0 {
                        lemma_idle_is_leaf(current);
                    }
                    lemma_reduce_tracks(current);
                }
                root.reduce_tree(&mut reducer);
            }
            i += 1;
        }
        proof {
            assert(pixels.take(i as int) =~= pixels);
            lemma_budget_kept(pixels, limit, i as int);
            lemma_wf_bounded(root@, 0);
        }
        (root, reducer)
    }
}

impl PrimanyColor for Octree {
    /// The palette of the image: the mean colours of the leaves of its
    /// tree, the one with the most pixels first; of two with as many
    /// pixels, the one with the smaller channels first, red compared
    /// before green, blue and alpha; no more than `primary_color_count`.
    /// A leaf budget or a palette size of zero is refused, and so is,
    /// after that, an image without pixels.
    fn get_primary_colors(&self) -> (result: Result<Vec<RgbaColor>, PaletteError>)
        ensures
            match result {
                Ok(colors) => {
                    &&& self.leaf_limit > 0
                    &&& self.primary_color_count > 0
                    &&& self.image.pixels@.len() > 0
                    &&& is_palette(
                        colors@,
                        octree_record(self.image.pixels@, self.leaf_limit as nat),
                        self.primary_color_count as nat,
                    )
                    &&& colors@ == palette_of(
                        octree_record(self.image.pixels@, self.leaf_limit as nat),
                        self.primary_color_count as nat,
                    )
                },
                Err(PaletteError::InvalidParameters) => self.leaf_limit == 0
                    || self.primary_color_count == 0,
                Err(PaletteError::EmptyImage) => self.leaf_limit > 0 && self.primary_color_count > 0
                    && self.image.pixels@.len() == 0,
            },
    {
        if self.leaf_limit == 0 || self.primary_color_count == 0 {
            return Err(PaletteError::InvalidParameters);
        }
        if self.image.pixels.len() == 0 {
            return Err(PaletteError::EmptyImage);
        }
        let (root, _reducer) = self.build();
        let mut record: BTreeMap<u32, u64> = BTreeMap::new();
        root.colors_stats(&mut record);
        Ok(rank(&record, self.primary_color_count))
    }
}

} // verus!
