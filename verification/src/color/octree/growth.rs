//! The tree together with its registry of reducible nodes: how both grow
//! with each pixel, how a reduction shrinks them, and why the leaf budget
//! is kept.

use vstd::prelude::*;
use crate::RgbaColor;
use crate::color::octree::model::{
    Tree, route, push_chain, lemma_add_at, lemma_add_census, lemma_collapse_at,
    lemma_collapse_census, lemma_collapse_target, lemma_fresh_census, lemma_wf_bounded,
};

verus! {

/// A tree and, for each depth `0..=6`, the colours under which the inner
/// nodes of that depth were registered, oldest first.
pub struct Growth {
    pub tree: Tree,
    pub pending: Seq<Seq<RgbaColor>>,
}

/// The deepest depth at which a node is registered, or -1 where none is.
pub open spec fn deepest(pending: Seq<Seq<RgbaColor>>) -> int {
    if pending.len() != 7 {
        -1
    } else if pending[6].len() > 0 {
        6
    } else if pending[5].len() > 0 {
        5
    } else if pending[4].len() > 0 {
        4
    } else if pending[3].len() > 0 {
        3
    } else if pending[2].len() > 0 {
        2
    } else if pending[1].len() > 0 {
        1
    } else if pending[0].len() > 0 {
        0
    } else {
        -1
    }
}

/// The number of registered nodes.
pub open spec fn backlog(pending: Seq<Seq<RgbaColor>>) -> nat {
    if pending.len() != 7 {
        0
    } else {
        pending[0].len() + pending[1].len() + pending[2].len() + pending[3].len()
            + pending[4].len() + pending[5].len() + pending[6].len()
    }
}

/// The path to the node that entry `i` of depth `l` stands for.
pub open spec fn entry_route(pending: Seq<Seq<RgbaColor>>, l: int, i: int) -> Seq<int> {
    route(pending[l][i], 0, l as nat)
}

/// Some entry of the registry stands for the node at `p`.
pub open spec fn listed(pending: Seq<Seq<RgbaColor>>, p: Seq<int>) -> bool {
    exists|i: int|
        0 <= i < pending[p.len() as int].len() && #[trigger] entry_route(
            pending,
            p.len() as int,
            i,
        ) == p
}

impl Growth {
    /// Before the first pixel: a root without children, registered at
    /// depth 0 under `root`. Every colour routes to the root, so the
    /// choice of `root` makes no difference to the tree.
    pub open spec fn start(root: RgbaColor) -> Growth {
        Growth {
            tree: Tree::fresh(0),
            pending: Seq::new(
                7,
                |l: int|
                    if l == 0 {
                        seq![root]
                    } else {
                        Seq::empty()
                    },
            ),
        }
    }

    /// One pixel more: it is added to the tree, and every inner node that
    /// this creates is registered under the pixel's colour.
    pub open spec fn insert(self, c: RgbaColor) -> Growth {
        Growth {
            tree: self.tree.add(c, 0),
            pending: push_chain(self.pending, c, self.tree.first_new(c, 0)),
        }
    }

    /// One reduction: of the nodes registered at the deepest depth that has
    /// any, the one registered last becomes a leaf and leaves the registry.
    /// Nothing changes where nothing is registered.
    pub open spec fn reduce(self) -> Growth {
        let l = deepest(self.pending);
        if l < 0 {
            self
        } else {
            Growth {
                tree: self.tree.collapse(self.pending[l].last(), 0, l as nat),
                pending: self.pending.update(l, self.pending[l].drop_last()),
            }
        }
    }

    /// Reductions are repeated while the tree holds more than `limit`
    /// leaves and a node is left to reduce.
    pub open spec fn enforce(self, limit: nat) -> Growth
        decreases backlog(self.pending),
    {
        if self.tree.census().leaves > limit && deepest(self.pending) >= 0 {
            self.reduce().enforce(limit)
        } else {
            self
        }
    }

    /// The tree and registry after the pixels have been inserted in order,
    /// the budget being enforced after each.
    pub open spec fn grow(pixels: Seq<RgbaColor>, limit: nat) -> Growth
        decreases pixels.len(),
    {
        if pixels.len() == 0 {
            Growth::start(RgbaColor { r: 0, g: 0, b: 0, a: 0 })
        } else {
            Growth::grow(pixels.drop_last(), limit).insert(pixels.last()).enforce(limit)
        }
    }

    /// The registry lists the inner nodes of the tree, each once: every
    /// entry leads to an inner node, no two entries of a depth lead to the
    /// same node, and every inner node has its entry.
    pub open spec fn tracks(self) -> bool {
        &&& self.tree.wf(0)
        &&& self.pending.len() == 7
        &&& forall|l: int, i: int|
            0 <= l < 7 && 0 <= i < self.pending[l].len() ==> self.tree.inner_at(
                #[trigger] entry_route(self.pending, l, i),
            )
        &&& forall|l: int, i: int, j: int|
            0 <= l < 7 && 0 <= i < j < self.pending[l].len() ==> #[trigger] entry_route(
                self.pending,
                l,
                i,
            ) != #[trigger] entry_route(self.pending, l, j)
        &&& forall|p: Seq<int>|
            p.len() < 7 && #[trigger] self.tree.inner_at(p) ==> listed(self.pending, p)
    }
}

/// An inner node of a well-formed tree stands above depth 7.
pub proof fn lemma_inner_depth(t: Tree, level: nat, p: Seq<int>)
    requires
        t.wf(level),
        t.inner_at(p),
    ensures
        level + p.len() < 7,
    decreases p.len(),
{
    if p.len() > 0 {
        match t {
            Tree::Leaf(_) => {},
            Tree::Inner(ch) => {
                lemma_inner_depth(ch[p[0]].unwrap(), level + 1, p.drop_first());
            },
        }
    }
}

/// One step more at the end of a path leads to the child at that position.
pub proof fn lemma_at_push(t: Tree, p: Seq<int>, s: int)
    ensures
        t.at(p.push(s)) == (match t.at(p) {
            Some(Tree::Inner(ch)) => if 0 <= s < ch.len() {
                ch[s]
            } else {
                None
            },
            _ => None,
        }),
    decreases p.len(),
{
    let ps = p.push(s);
    if p.len() == 0 {
        assert(ps.drop_first() =~= Seq::<int>::empty());
        match t {
            Tree::Leaf(_) => {},
            Tree::Inner(ch) => {
                if 0 <= s < ch.len() {
                    match ch[s] {
                        Some(x) => {
                            assert(x.at(ps.drop_first()) == Some(x));
                        },
                        None => {},
                    }
                }
            },
        }
    } else {
        assert(ps.drop_first() =~= p.drop_first().push(s));
        assert(ps[0] == p[0]);
        match t {
            Tree::Leaf(_) => {},
            Tree::Inner(ch) => {
                if 0 <= p[0] < ch.len() {
                    match ch[p[0]] {
                        Some(x) => {
                            lemma_at_push(x, p.drop_first(), s);
                        },
                        None => {},
                    }
                }
            },
        }
    }
}

/// The registry lists the root of the tree that holds no pixel yet.
pub proof fn lemma_start_tracks(root: RgbaColor)
    ensures
        Growth::start(root).tracks(),
        Growth::start(root).tree.census().leaves == 0,
        Growth::start(root).tree.census().tally.count == 0,
{
    let g = Growth::start(root);
    lemma_fresh_census(0);
    assert forall|l: int, i: int| 0 <= l < 7 && 0 <= i < g.pending[l].len() implies g.tree.inner_at(
        #[trigger] entry_route(g.pending, l, i),
    ) by {
        assert(l == 0);
        assert(entry_route(g.pending, l, i) =~= Seq::<int>::empty());
    }
    assert forall|p: Seq<int>| p.len() < 7 && #[trigger] g.tree.inner_at(p) implies listed(
        g.pending,
        p,
    ) by {
        if p.len() > 0 {
            assert(g.tree.at(p) is None);
        } else {
            assert(entry_route(g.pending, 0, 0) =~= p);
        }
    }
}

/// Insertion keeps the registry in step with the tree.
pub proof fn lemma_insert_tracks(g: Growth, c: RgbaColor)
    requires
        g.tracks(),
    ensures
        g.insert(c).tracks(),
{
    let t = g.tree;
    let f = t.first_new(c, 0);
    let h = g.insert(c);
    lemma_add_census(t, c, 0);
    assert forall|l: int, i: int| 0 <= l < 7 && 0 <= i < h.pending[l].len() implies h.tree.inner_at(
        #[trigger] entry_route(h.pending, l, i),
    ) by {
        let p = entry_route(h.pending, l, i);
        lemma_add_at(t, c, 0, p);
        if i < g.pending[l].len() {
            assert(p == entry_route(g.pending, l, i));
        }
    }
    assert forall|l: int, i: int, j: int|
        0 <= l < 7 && 0 <= i < j < h.pending[l].len() implies #[trigger] entry_route(
        h.pending,
        l,
        i,
    ) != #[trigger] entry_route(h.pending, l, j) by {
        assert(entry_route(h.pending, l, i) == entry_route(g.pending, l, i));
        if j < g.pending[l].len() {
            assert(entry_route(h.pending, l, j) == entry_route(g.pending, l, j));
        } else {
            lemma_add_at(t, c, 0, entry_route(g.pending, l, i));
        }
    }
    assert forall|p: Seq<int>| p.len() < 7 && #[trigger] h.tree.inner_at(p) implies listed(
        h.pending,
        p,
    ) by {
        let l = p.len() as int;
        lemma_add_at(t, c, 0, p);
        if t.inner_at(p) {
            let i = choose|i: int|
                0 <= i < g.pending[l].len() && #[trigger] entry_route(g.pending, l, i) == p;
            assert(entry_route(h.pending, l, i) == p);
        } else {
            let i = g.pending[l].len() as int;
            assert(entry_route(h.pending, l, i) == p);
        }
    }
}

/// A reduction keeps the registry in step with the tree and takes one
/// entry out of it. The node it collapses is an inner node whose children
/// are leaves.
pub proof fn lemma_reduce_tracks(g: Growth)
    requires
        g.tracks(),
        deepest(g.pending) >= 0,
    ensures
        g.reduce().tracks(),
        backlog(g.reduce().pending) < backlog(g.pending),
        g.reduce().tree.census().tally == g.tree.census().tally,
        ({
            let l = deepest(g.pending);
            let q = route(g.pending[l].last(), 0, l as nat);
            &&& g.tree.inner_at(q)
            &&& g.tree.at(q).unwrap().flat()
            &&& g.reduce().tree.census().leaves + g.tree.at(q).unwrap().census().leaves
                == g.tree.census().leaves + 1
        }),
{
    let t = g.tree;
    let l = deepest(g.pending);
    let last = g.pending[l].len() - 1;
    let e = g.pending[l].last();
    let q = route(e, 0, l as nat);
    let h = g.reduce();
    assert(q == entry_route(g.pending, l, last));
    lemma_collapse_census(t, e, 0, l as nat);
    assert forall|l2: int, i: int|
        0 <= l2 < 7 && 0 <= i < h.pending[l2].len() implies h.tree.inner_at(
        #[trigger] entry_route(h.pending, l2, i),
    ) by {
        let p = entry_route(h.pending, l2, i);
        assert(p == entry_route(g.pending, l2, i));
        lemma_collapse_at(t, e, 0, l as nat, p);
        if l2 == l {
            assert(p.take(l) =~= p);
        }
    }
    assert forall|l2: int, i: int, j: int|
        0 <= l2 < 7 && 0 <= i < j < h.pending[l2].len() implies #[trigger] entry_route(
        h.pending,
        l2,
        i,
    ) != #[trigger] entry_route(h.pending, l2, j) by {
        assert(entry_route(h.pending, l2, i) == entry_route(g.pending, l2, i));
        assert(entry_route(h.pending, l2, j) == entry_route(g.pending, l2, j));
    }
    assert forall|p: Seq<int>| p.len() < 7 && #[trigger] h.tree.inner_at(p) implies listed(
        h.pending,
        p,
    ) by {
        let l2 = p.len() as int;
        lemma_collapse_at(t, e, 0, l as nat, p);
        assert(t.inner_at(p));
        let i = choose|i: int|
            0 <= i < g.pending[l2].len() && #[trigger] entry_route(g.pending, l2, i) == p;
        if l2 == l && i == last {
            assert(p.take(l) =~= p);
        }
        assert(entry_route(h.pending, l2, i) == p);
    }
    let target = t.at(q).unwrap();
    match target {
        Tree::Leaf(_) => {},
        Tree::Inner(ch) => {
            assert forall|s: int| 0 <= s < ch.len() implies !(#[trigger] ch[s] matches Some(
                Tree::Inner(_),
            )) by {
                if ch[s] matches Some(Tree::Inner(_)) {
                    let below = q.push(s);
                    lemma_at_push(t, q, s);
                    assert(t.at(below) == ch[s]);
                    assert(t.inner_at(below));
                    lemma_inner_depth(t, 0, below);
                    assert(below.len() == l + 1);
                    assert(listed(g.pending, below));
                    let i = choose|i: int|
                        0 <= i < g.pending[l + 1].len() && #[trigger] entry_route(
                            g.pending,
                            l + 1,
                            i,
                        ) == below;
                    assert(false);
                }
            }
        },
    }
}

/// The path `p` begins with the path `q`.
pub open spec fn starts_with(p: Seq<int>, q: Seq<int>) -> bool {
    p.len() >= q.len() && p.take(q.len() as int) == q
}

/// What a reduction does to the tree: the node that it collapses has
/// become a leaf that holds what its children, all of them leaves, held;
/// every node that lies neither below nor above that node is as it was.
pub proof fn lemma_reduce_effect(g: Growth)
    requires
        g.tracks(),
        deepest(g.pending) >= 0,
    ensures
        ({
            let l = deepest(g.pending);
            let q = route(g.pending[l].last(), 0, l as nat);
            &&& g.tree.inner_at(q)
            &&& g.tree.at(q).unwrap().flat()
            &&& g.reduce().tree.at(q) == Some(Tree::Leaf(g.tree.at(q).unwrap().census().tally))
            &&& forall|p: Seq<int>|
                !starts_with(p, q) && !starts_with(q, p) ==> #[trigger] g.reduce().tree.at(p)
                    == g.tree.at(p)
        }),
{
    let l = deepest(g.pending);
    let e = g.pending[l].last();
    let q = route(e, 0, l as nat);
    lemma_reduce_tracks(g);
    lemma_collapse_target(g.tree, e, 0, l as nat);
    assert forall|p: Seq<int>|
        !starts_with(p, q) && !starts_with(q, p) implies #[trigger] g.reduce().tree.at(p)
        == g.tree.at(p) by {
        lemma_collapse_at(g.tree, e, 0, l as nat, p);
        if p.len() < q.len() {
            assert(q.take(p.len() as int) =~= route(e, 0, p.len()));
        }
    }
}

/// After a reduction, also one that found nothing to reduce, the registry
/// is in step with the tree and every leaf holds a bounded tally.
pub proof fn lemma_reduce_keeps(g: Growth)
    requires
        g.tracks(),
    ensures
        g.reduce().tracks(),
        g.reduce().tree.bounded(),
{
    if deepest(g.pending) >= 0 {
        lemma_reduce_tracks(g);
    }
    lemma_wf_bounded(g.reduce().tree, 0);
}

/// Where nothing is registered the tree is a single leaf.
pub proof fn lemma_idle_is_leaf(g: Growth)
    requires
        g.tracks(),
        deepest(g.pending) < 0,
    ensures
        g.tree is Leaf,
        g.tree.census().leaves == 1,
{
    let p = Seq::<int>::empty();
    if g.tree is Inner {
        assert(g.tree.inner_at(p));
        assert(listed(g.pending, p));
    }
}

/// Enforcing a budget of at least one leaf ends with a tree within the
/// budget, the registry still in step, and no pixel lost.
pub proof fn lemma_enforce(g: Growth, limit: nat)
    requires
        g.tracks(),
        limit >= 1,
    ensures
        g.enforce(limit).tracks(),
        g.enforce(limit).tree.census().leaves <= limit,
        g.enforce(limit).tree.census().tally == g.tree.census().tally,
    decreases backlog(g.pending),
{
    if g.tree.census().leaves > limit {
        if deepest(g.pending) >= 0 {
            lemma_reduce_tracks(g);
            lemma_enforce(g.reduce(), limit);
        } else {
            lemma_idle_is_leaf(g);
        }
    }
}

/// The leaf budget is kept: after each pixel of an image has been inserted
/// and the budget of at least one leaf enforced, the registry is in step
/// with the tree, the tree holds no more leaves than the budget allows,
/// and it holds every pixel inserted so far.
pub proof fn lemma_budget_kept(pixels: Seq<RgbaColor>, limit: nat, k: int)
    requires
        limit >= 1,
        0 <= k <= pixels.len(),
    ensures
        Growth::grow(pixels.take(k), limit).tracks(),
        Growth::grow(pixels.take(k), limit).tree.census().leaves <= limit,
        Growth::grow(pixels.take(k), limit).tree.census().tally.count == k,
    decreases k,
{
    if k == 0 {
        lemma_start_tracks(RgbaColor { r: 0, g: 0, b: 0, a: 0 });
    } else {
        let sofar = pixels.take(k);
        assert(sofar.drop_last() =~= pixels.take(k - 1));
        lemma_budget_kept(pixels, limit, k - 1);
        let g = Growth::grow(pixels.take(k - 1), limit);
        lemma_insert_tracks(g, sofar.last());
        lemma_add_census(g.tree, sofar.last(), 0);
        lemma_enforce(g.insert(sofar.last()), limit);
    }
}

} // verus!
