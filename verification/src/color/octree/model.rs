//! The mathematical model of the octree: what a tree is, how a colour is
//! routed through it, and what insertion and reduction do to it.

use vstd::prelude::*;
use crate::RgbaColor;
use crate::color::tally::Tally;

verus! {

/// What a subtree holds: the number of its leaves and the sum of their
/// tallies.
pub struct Census {
    pub leaves: nat,
    pub tally: Tally,
}

impl Census {
    pub open spec fn zero() -> Census {
        Census { leaves: 0, tally: Tally::zero() }
    }

    pub open spec fn merge(self, other: Census) -> Census {
        Census { leaves: self.leaves + other.leaves, tally: self.tally.merge(other.tally) }
    }
}

/// The sum of a sequence of censuses.
pub open spec fn census_sum(s: Seq<Census>) -> Census
    decreases s.len(),
{
    if s.len() == 0 {
        Census::zero()
    } else {
        census_sum(s.drop_last()).merge(s.last())
    }
}

/// Each member of a sum is part of it.
pub proof fn lemma_sum_member(s: Seq<Census>, i: int)
    requires
        0 <= i < s.len(),
    ensures
        s[i].leaves <= census_sum(s).leaves,
        s[i].tally.count <= census_sum(s).tally.count,
    decreases s.len(),
{
    if i < s.len() - 1 {
        lemma_sum_member(s.drop_last(), i);
    }
}

/// A sum of nothing but zeros is zero.
pub proof fn lemma_sum_zeros(s: Seq<Census>)
    requires
        forall|i: int| 0 <= i < s.len() ==> #[trigger] s[i] == Census::zero(),
    ensures
        census_sum(s) == Census::zero(),
    decreases s.len(),
{
    if s.len() > 0 {
        lemma_sum_zeros(s.drop_last());
    }
}

/// Replacing one member of a sum changes the sum by the difference.
pub proof fn lemma_sum_update(s: Seq<Census>, i: int, v: Census)
    requires
        0 <= i < s.len(),
    ensures
        census_sum(s.update(i, v)).merge(s[i]) == census_sum(s).merge(v),
    decreases s.len(),
{
    let u = s.update(i, v);
    if i == s.len() - 1 {
        assert(u.drop_last() =~= s.drop_last());
    } else {
        assert(u.drop_last() =~= s.drop_last().update(i, v));
        lemma_sum_update(s.drop_last(), i, v);
    }
}

/// A sum of bounded tallies is bounded.
pub proof fn lemma_sum_bounded(s: Seq<Census>)
    requires
        forall|i: int| 0 <= i < s.len() ==> (#[trigger] s[i]).tally.bounded(),
    ensures
        census_sum(s).tally.bounded(),
    decreases s.len(),
{
    if s.len() > 0 {
        lemma_sum_bounded(s.drop_last());
    }
}

/// The sum of the first members of a sequence is part of the whole sum.
pub proof fn lemma_sum_prefix(s: Seq<Census>, i: int)
    requires
        0 <= i <= s.len(),
    ensures
        census_sum(s.take(i)).leaves <= census_sum(s).leaves,
        census_sum(s.take(i)).tally.count <= census_sum(s).tally.count,
    decreases s.len(),
{
    if i == s.len() {
        assert(s.take(i) =~= s);
    } else {
        assert(s.drop_last().take(i) =~= s.take(i));
        lemma_sum_prefix(s.drop_last(), i);
    }
}

/// A sum of members that each hold at most `each` leaves holds at most
/// that many for each member.
pub proof fn lemma_sum_leaves(s: Seq<Census>, each: nat)
    requires
        forall|i: int| 0 <= i < s.len() ==> (#[trigger] s[i]).leaves <= each,
    ensures
        census_sum(s).leaves <= s.len() * each,
    decreases s.len(),
{
    if s.len() > 0 {
        lemma_sum_leaves(s.drop_last(), each);
        assert((s.len() - 1) * each + each == s.len() * each) by (nonlinear_arith);
    }
}

/// The child that `c` takes at depth `level`: the bit `7 - level` of each
/// channel, red in bit 3 down to alpha in bit 0.
pub open spec fn slot(c: RgbaColor, level: nat) -> int {
    let shift = (7 - level) as u8;
    ((((c.r >> shift) & 1) << 3) | (((c.g >> shift) & 1) << 2) | (((c.b >> shift) & 1) << 1) | ((
    c.a >> shift) & 1)) as int
}

pub proof fn lemma_slot_range(c: RgbaColor, level: nat)
    requires
        level <= 7,
    ensures
        0 <= slot(c, level) < 16,
{
    let shift = (7 - level) as u8;
    let (r, g, b, a) = (c.r, c.g, c.b, c.a);
    assert(((((r >> shift) & 1) << 3) | (((g >> shift) & 1) << 2) | (((b >> shift) & 1) << 1) | ((a
        >> shift) & 1)) < 16) by (bit_vector);
}

/// A tree over the colour space. The children of an inner node are indexed
/// by `slot`.
pub enum Tree {
    Leaf(Tally),
    Inner(Seq<Option<Tree>>),
}

impl Tree {
    /// The node that is created for depth `level` before any pixel reaches it.
    pub open spec fn fresh(level: nat) -> Tree {
        if level >= 7 {
            Tree::Leaf(Tally::zero())
        } else {
            Tree::Inner(Seq::new(16, |i: int| None::<Tree>))
        }
    }

    /// The censuses of the 16 child positions of an inner node, an absent
    /// child counting as nothing.
    pub open spec fn child_censuses(self) -> Seq<Census>
        decreases self, 0nat,
    {
        match self {
            Tree::Leaf(_) => Seq::empty(),
            Tree::Inner(ch) => Seq::new(
                ch.len(),
                |i: int|
                    if 0 <= i < ch.len() {
                        match ch[i] {
                            Some(t) => t.census(),
                            None => Census::zero(),
                        }
                    } else {
                        Census::zero()
                    },
            ),
        }
    }

    /// The leaves below this node and the sum of what they gathered.
    pub open spec fn census(self) -> Census
        decreases self, 1nat,
    {
        match self {
            Tree::Leaf(t) => Census { leaves: 1, tally: t },
            Tree::Inner(ch) => census_sum(self.child_censuses()),
        }
    }

    /// A tree that can stand at depth `level`: leaves hold bounded tallies,
    /// inner nodes have 16 child positions and stand above depth 7.
    pub open spec fn wf(self, level: nat) -> bool
        decreases self,
    {
        match self {
            Tree::Leaf(t) => t.bounded() && level <= 7,
            Tree::Inner(ch) => {
                &&& level < 7
                &&& ch.len() == 16
                &&& forall|i: int|
                    0 <= i < ch.len() ==> match #[trigger] ch[i] {
                        Some(t) => t.wf(level + 1),
                        None => true,
                    }
            },
        }
    }

    /// The tree after one pixel of colour `c` has been routed from this
    /// node, at depth `level`, to its leaf. Missing nodes on the route are
    /// created.
    pub open spec fn add(self, c: RgbaColor, level: nat) -> Tree
        decreases 7 - level,
    {
        match self {
            Tree::Leaf(t) => Tree::Leaf(t.plus(c)),
            Tree::Inner(ch) => if level < 7 && 0 <= slot(c, level) < ch.len() {
                let child = match ch[slot(c, level)] {
                    Some(t) => t,
                    None => Tree::fresh(level + 1),
                };
                Tree::Inner(ch.update(slot(c, level), Some(child.add(c, level + 1))))
            } else {
                self
            },
        }
    }

    /// The depth of the first node that `add` creates on the route of `c`,
    /// or 8 where the route ends in a leaf that is there already.
    pub open spec fn first_new(self, c: RgbaColor, level: nat) -> nat
        decreases 7 - level,
    {
        match self {
            Tree::Leaf(_) => 8,
            Tree::Inner(ch) => if level < 7 && 0 <= slot(c, level) < ch.len() {
                match ch[slot(c, level)] {
                    Some(t) => t.first_new(c, level + 1),
                    None => level + 1,
                }
            } else {
                8
            },
        }
    }
}

/// The registry after `c` has been entered at every depth from `from` on.
pub open spec fn push_chain(pending: Seq<Seq<RgbaColor>>, c: RgbaColor, from: nat) -> Seq<
    Seq<RgbaColor>,
> {
    Seq::new(
        pending.len(),
        |l: int|
            if from <= l {
                pending[l].push(c)
            } else {
                pending[l]
            },
    )
}

/// A fresh node holds no pixel; it is one leaf at depth 7 and none above.
pub proof fn lemma_fresh_census(level: nat)
    ensures
        Tree::fresh(level).census().tally == Tally::zero(),
        Tree::fresh(level).census().leaves == (if level >= 7 {
            1nat
        } else {
            0nat
        }),
        Tree::fresh(level).wf(level) <==> level <= 7,
{
    if level < 7 {
        lemma_sum_zeros(Tree::fresh(level).child_censuses());
    }
}

/// The path of `len` child positions that `c` takes from depth `from` on.
pub open spec fn route(c: RgbaColor, from: nat, len: nat) -> Seq<int> {
    Seq::new(len, |k: int| slot(c, (from + k) as nat))
}

/// A path is a route exactly if its first step is and its rest is a route
/// from the next depth.
pub proof fn lemma_route_step(c: RgbaColor, level: nat, p: Seq<int>)
    requires
        p.len() > 0,
    ensures
        p == route(c, level, p.len()) <==> (p[0] == slot(c, level) && p.drop_first() == route(
            c,
            level + 1,
            (p.len() - 1) as nat,
        )),
{
    let q = p.drop_first();
    let whole = route(c, level, p.len());
    let rest = route(c, level + 1, (p.len() - 1) as nat);
    if p == whole {
        assert(q =~= rest);
    }
    if p[0] == slot(c, level) && q == rest {
        assert forall|k: int| 0 <= k < p.len() implies p[k] == whole[k] by {
            if k > 0 {
                assert(p[k] == q[k - 1]);
            }
        }
        assert(p =~= whole);
    }
}

impl Tree {
    /// The node that `path` leads to from this node, if there is one.
    pub open spec fn at(self, path: Seq<int>) -> Option<Tree>
        decreases path.len(),
    {
        if path.len() == 0 {
            Some(self)
        } else {
            match self {
                Tree::Leaf(_) => None,
                Tree::Inner(ch) => if 0 <= path[0] < ch.len() {
                    match ch[path[0]] {
                        Some(t) => t.at(path.drop_first()),
                        None => None,
                    }
                } else {
                    None
                },
            }
        }
    }

    /// `path` leads to an inner node.
    pub open spec fn inner_at(self, path: Seq<int>) -> bool {
        self.at(path) matches Some(Tree::Inner(_))
    }

    /// Every leaf holds a bounded tally, whatever the shape of the tree.
    pub open spec fn bounded(self) -> bool
        decreases self,
    {
        match self {
            Tree::Leaf(t) => t.bounded(),
            Tree::Inner(ch) => forall|i: int|
                0 <= i < ch.len() ==> match #[trigger] ch[i] {
                    Some(t) => t.bounded(),
                    None => true,
                },
        }
    }

    /// No child of this node is an inner node.
    pub open spec fn flat(self) -> bool {
        match self {
            Tree::Leaf(_) => true,
            Tree::Inner(ch) => forall|i: int|
                0 <= i < ch.len() ==> !(#[trigger] ch[i] matches Some(Tree::Inner(_))),
        }
    }

    /// The tree in which the node that the route of `c` reaches at depth
    /// `depth` has become a leaf that holds all that its subtree gathered.
    /// This node stands at depth `level`.
    pub open spec fn collapse(self, c: RgbaColor, level: nat, depth: nat) -> Tree
        decreases depth - level,
    {
        if level >= depth {
            Tree::Leaf(self.census().tally)
        } else {
            match self {
                Tree::Leaf(_) => self,
                Tree::Inner(ch) => if 0 <= slot(c, level) < ch.len() {
                    match ch[slot(c, level)] {
                        Some(t) => Tree::Inner(
                            ch.update(slot(c, level), Some(t.collapse(c, level + 1, depth))),
                        ),
                        None => self,
                    }
                } else {
                    self
                },
            }
        }
    }
}

/// In a well-formed tree every leaf holds a bounded tally.
pub proof fn lemma_wf_bounded(t: Tree, level: nat)
    requires
        t.wf(level),
    ensures
        t.bounded(),
    decreases t,
{
    match t {
        Tree::Leaf(_) => {},
        Tree::Inner(ch) => {
            assert forall|i: int| 0 <= i < ch.len() implies match #[trigger] ch[i] {
                Some(x) => x.bounded(),
                None => true,
            } by {
                match ch[i] {
                    Some(x) => {
                        lemma_wf_bounded(x, level + 1);
                    },
                    None => {},
                }
            }
        },
    }
}

/// What a well-formed tree gathered is bounded as every tally is.
pub proof fn lemma_census_bounded(t: Tree, level: nat)
    requires
        t.wf(level),
    ensures
        t.census().tally.bounded(),
    decreases t,
{
    match t {
        Tree::Leaf(_) => {},
        Tree::Inner(ch) => {
            let cs = t.child_censuses();
            assert forall|i: int| 0 <= i < cs.len() implies (#[trigger] cs[i]).tally.bounded() by {
                match ch[i] {
                    Some(x) => {
                        lemma_census_bounded(x, level + 1);
                    },
                    None => {},
                }
            }
            lemma_sum_bounded(cs);
        },
    }
}

/// Insertion keeps the tree well-formed, adds the pixel to what the tree
/// gathered, and adds one leaf exactly where it creates nodes.
pub proof fn lemma_add_census(t: Tree, c: RgbaColor, level: nat)
    requires
        t.wf(level),
    ensures
        t.add(c, level).wf(level),
        t.add(c, level).census().tally == t.census().tally.plus(c),
        t.add(c, level).census().leaves == t.census().leaves + (if t.first_new(c, level) <= 7 {
            1nat
        } else {
            0nat
        }),
        level < t.first_new(c, level),
    decreases 7 - level,
{
    match t {
        Tree::Leaf(_) => {},
        Tree::Inner(ch) => {
            lemma_slot_range(c, level);
            let s = slot(c, level);
            let child = match ch[s] {
                Some(x) => x,
                None => Tree::fresh(level + 1),
            };
            lemma_fresh_census(level + 1);
            lemma_add_census(child, c, level + 1);
            let grown = child.add(c, level + 1);
            let after = t.add(c, level);
            assert(after == Tree::Inner(ch.update(s, Some(grown))));
            let old_cs = t.child_censuses();
            let new_cs = after.child_censuses();
            assert(new_cs =~= old_cs.update(s, grown.census()));
            lemma_sum_update(old_cs, s, grown.census());
            if ch[s] is None && level + 1 < 7 {
                lemma_slot_range(c, level + 1);
            }
            assert(after.wf(level)) by {
                let nch = ch.update(s, Some(grown));
                assert forall|i: int| 0 <= i < nch.len() implies match #[trigger] nch[i] {
                    Some(x) => x.wf(level + 1),
                    None => true,
                } by {
                    if i != s {
                        assert(nch[i] == ch[i]);
                    }
                }
            }
        },
    }
}

/// Where insertion changes the tree: off the route of `c` nothing changes;
/// on it, the inner nodes are those that were there and those created
/// above depth 7.
pub proof fn lemma_add_at(t: Tree, c: RgbaColor, level: nat, p: Seq<int>)
    requires
        t.wf(level),
    ensures
        p != route(c, level, p.len()) ==> t.add(c, level).at(p) == t.at(p),
        p == route(c, level, p.len()) ==> (t.add(c, level).inner_at(p) <==> (t.inner_at(p) || (
        t.first_new(c, level) <= level + p.len() && level + p.len() < 7))),
        p == route(c, level, p.len()) && t.inner_at(p) ==> level + p.len() < t.first_new(c, level),
    decreases p.len(),
{
    lemma_add_census(t, c, level);
    if p.len() == 0 {
        assert(p =~= route(c, level, 0));
    } else {
        let q = p.drop_first();
        match t {
            Tree::Leaf(_) => {},
            Tree::Inner(ch) => {
                lemma_slot_range(c, level);
                let s = slot(c, level);
                let child = match ch[s] {
                    Some(x) => x,
                    None => Tree::fresh(level + 1),
                };
                let grown = child.add(c, level + 1);
                assert(t.add(c, level) == Tree::Inner(ch.update(s, Some(grown))));
                assert(route(c, level, p.len())[0] == s);
                if p[0] != s {
                } else {
                    lemma_fresh_census(level + 1);
                    lemma_add_at(child, c, level + 1, q);
                    lemma_add_census(child, c, level + 1);
                    assert(t.add(c, level).at(p) == grown.at(q));
                    lemma_route_step(c, level, p);
                    if ch[s] is None {
                        if level + 1 < 7 {
                            lemma_slot_range(c, level + 1);
                        }
                        if q.len() > 0 {
                            assert(child.at(q) is None);
                        } else {
                            assert(q =~= route(c, level + 1, 0));
                        }
                    }
                }
            },
        }
    }
}

/// Collapsing an inner node on the route of `c` keeps the tree well-formed
/// and keeps what it gathered; the leaves of the collapsed subtree are
/// replaced by one.
pub proof fn lemma_collapse_census(t: Tree, c: RgbaColor, level: nat, depth: nat)
    requires
        t.wf(level),
        level <= depth,
        t.inner_at(route(c, level, (depth - level) as nat)),
    ensures
        t.collapse(c, level, depth).wf(level),
        t.collapse(c, level, depth).census().tally == t.census().tally,
        t.collapse(c, level, depth).census().leaves + t.at(
            route(c, level, (depth - level) as nat),
        ).unwrap().census().leaves == t.census().leaves + 1,
    decreases depth - level,
{
    let q = route(c, level, (depth - level) as nat);
    lemma_census_bounded(t, level);
    if level < depth {
        match t {
            Tree::Leaf(_) => {},
            Tree::Inner(ch) => {
                lemma_slot_range(c, level);
                let s = slot(c, level);
                assert(q[0] == s);
                assert(q.drop_first() =~= route(c, level + 1, (depth - level - 1) as nat));
                let x = ch[s].unwrap();
                lemma_collapse_census(x, c, level + 1, depth);
                let folded = x.collapse(c, level + 1, depth);
                let after = t.collapse(c, level, depth);
                assert(after == Tree::Inner(ch.update(s, Some(folded))));
                let old_cs = t.child_censuses();
                let new_cs = after.child_censuses();
                assert(new_cs =~= old_cs.update(s, folded.census()));
                lemma_sum_update(old_cs, s, folded.census());
                assert(after.wf(level)) by {
                    let nch = ch.update(s, Some(folded));
                    assert forall|i: int| 0 <= i < nch.len() implies match #[trigger] nch[i] {
                        Some(y) => y.wf(level + 1),
                        None => true,
                    } by {
                        if i != s {
                            assert(nch[i] == ch[i]);
                        }
                    }
                }
            },
        }
    }
}

/// The collapsed node has become a leaf that holds what its subtree
/// gathered.
pub proof fn lemma_collapse_target(t: Tree, c: RgbaColor, level: nat, depth: nat)
    requires
        t.wf(level),
        level <= depth,
        t.inner_at(route(c, level, (depth - level) as nat)),
    ensures
        t.collapse(c, level, depth).at(route(c, level, (depth - level) as nat)) == Some(
            Tree::Leaf(t.at(route(c, level, (depth - level) as nat)).unwrap().census().tally),
        ),
    decreases depth - level,
{
    let q = route(c, level, (depth - level) as nat);
    if level < depth {
        match t {
            Tree::Leaf(_) => {},
            Tree::Inner(ch) => {
                lemma_slot_range(c, level);
                let s = slot(c, level);
                assert(q[0] == s);
                assert(q.drop_first() =~= route(c, level + 1, (depth - level - 1) as nat));
                lemma_collapse_target(ch[s].unwrap(), c, level + 1, depth);
            },
        }
    }
}

/// Where a collapse changes the tree: the collapsed node and all below it
/// are no inner nodes any more, the nodes above it stay inner nodes, and
/// nothing else changes.
pub proof fn lemma_collapse_at(t: Tree, c: RgbaColor, level: nat, depth: nat, p: Seq<int>)
    requires
        t.wf(level),
        level <= depth,
        t.inner_at(route(c, level, (depth - level) as nat)),
    ensures
        ({
            let len = (depth - level) as nat;
            let after = t.collapse(c, level, depth);
            if p.len() >= len && p.take(len as int) == route(c, level, len) {
                !after.inner_at(p)
            } else if p.len() < len && p == route(c, level, p.len()) {
                after.inner_at(p) && t.inner_at(p)
            } else {
                after.at(p) == t.at(p)
            }
        }),
    decreases depth - level,
{
    let len = (depth - level) as nat;
    let q = route(c, level, len);
    let after = t.collapse(c, level, depth);
    if level >= depth {
        assert(p.take(0) =~= q);
    } else {
        match t {
            Tree::Leaf(_) => {},
            Tree::Inner(ch) => {
                lemma_slot_range(c, level);
                let s = slot(c, level);
                assert(q[0] == s);
                assert(q.drop_first() =~= route(c, level + 1, (len - 1) as nat));
                let x = ch[s].unwrap();
                let folded = x.collapse(c, level + 1, depth);
                assert(after == Tree::Inner(ch.update(s, Some(folded))));
                if p.len() == 0 {
                    assert(p =~= route(c, level, 0));
                } else {
                    let pp = p.drop_first();
                    assert(route(c, level, p.len())[0] == s);
                    if p[0] != s {
                        if p.len() >= len {
                            assert(p.take(len as int)[0] == p[0]);
                        }
                    } else {
                        lemma_collapse_at(x, c, level + 1, depth, pp);
                        assert(after.at(p) == folded.at(pp));
                        assert(t.at(p) == x.at(pp));
                        if p.len() >= len {
                            assert(p.take(len as int).drop_first() =~= pp.take(len - 1));
                            lemma_route_step(c, level, p.take(len as int));
                        } else {
                            lemma_route_step(c, level, p);
                        }
                    }
                }
            },
        }
    }
}

/// The number of leaves that fit below a node at depth `level`.
pub open spec fn capacity(level: nat) -> nat
    decreases 7 - level,
{
    if level >= 7 {
        1
    } else {
        16 * capacity(level + 1)
    }
}

/// A well-formed tree holds no more leaves than fit below its root.
pub proof fn lemma_leaves_bound(t: Tree, level: nat)
    requires
        t.wf(level),
    ensures
        t.census().leaves <= capacity(level),
        capacity(0) == 268435456,
    decreases t,
{
    reveal_with_fuel(capacity, 9);
    match t {
        Tree::Leaf(_) => {},
        Tree::Inner(ch) => {
            let cs = t.child_censuses();
            assert forall|i: int| 0 <= i < cs.len() implies (#[trigger] cs[i]).leaves <= capacity(
                level + 1,
            ) by {
                match ch[i] {
                    Some(x) => {
                        lemma_leaves_bound(x, level + 1);
                    },
                    None => {},
                }
            }
            lemma_sum_leaves(cs, capacity(level + 1));
        },
    }
}

} // verus!
