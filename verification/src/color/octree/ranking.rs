//! From the finished tree to the palette: the pixel count of each mean
//! colour, and the colours in the order of these counts.

use std::collections::BTreeMap;
use vstd::prelude::*;
use crate::RgbaColor;
use crate::color::octree::model::Tree;
use crate::color::tally::Tally;
use crate::color::octree::record::entries;

verus! {

/// The colour as one number, red in the highest byte.
pub open spec fn pack(c: RgbaColor) -> u32 {
    (c.r as int * 16777216 + c.g as int * 65536 + c.b as int * 256 + c.a as int) as u32
}

/// The colour that `pack` turns into `key`.
pub open spec fn unpack(key: u32) -> RgbaColor {
    RgbaColor {
        r: (key as int / 16777216) as u8,
        g: ((key as int / 65536) % 256) as u8,
        b: ((key as int / 256) % 256) as u8,
        a: (key as int % 256) as u8,
    }
}

/// `pack` and `unpack` undo each other.
pub proof fn lemma_pack_unpack(c: RgbaColor, key: u32)
    ensures
        unpack(pack(c)) == c,
        pack(unpack(key)) == key,
{
    let (r, g, b, a) = (c.r as u32, c.g as u32, c.b as u32, c.a as u32);
    let k = (r * 16777216 + g * 65536 + b * 256 + a) as u32;
    assert(k == pack(c));
    assert(k / 16777216 == r && (k / 65536) % 256 == g && (k / 256) % 256 == b && k % 256 == a)
        by (bit_vector)
        requires
            r < 256 && g < 256 && b < 256 && a < 256,
            k == r * 16777216 + g * 65536 + b * 256 + a,
    ;
    assert((key / 16777216) * 16777216 + ((key / 65536) % 256) * 65536 + ((key / 256) % 256) * 256
        + key % 256 == key && key / 16777216 < 256) by (bit_vector);
}

pub fn color_key(c: &RgbaColor) -> (key: u32)
    ensures
        key == pack(*c),
{
    c.r as u32 * 16777216 + c.g as u32 * 65536 + c.b as u32 * 256 + c.a as u32
}

pub fn key_color(key: u32) -> (c: RgbaColor)
    ensures
        c == unpack(key),
{
    RgbaColor {
        r: (key / 16777216) as u8,
        g: ((key / 65536) % 256) as u8,
        b: ((key / 256) % 256) as u8,
        a: (key % 256) as u8,
    }
}

/// The count on record for `key`, 0 where there is none.
pub open spec fn held(record: Map<u32, u64>, key: u32) -> nat {
    if record.contains_key(key) {
        record[key] as nat
    } else {
        0
    }
}

/// The record with `count` pixels more for `key`.
pub open spec fn raised(record: Map<u32, u64>, key: u32, count: u64) -> Map<u32, u64> {
    record.insert(key, (held(record, key) + count) as u64)
}

/// The record after a leaf has been entered: its pixels are added to the
/// count of its mean colour. A leaf without pixels is passed over.
pub open spec fn record_leaf(record: Map<u32, u64>, t: Tally) -> Map<u32, u64> {
    if t.count == 0 {
        record
    } else {
        raised(record, pack(t.mean()), t.count as u64)
    }
}

impl Tree {
    /// The record after every leaf of this tree has been entered.
    pub open spec fn tally_into(self, record: Map<u32, u64>) -> Map<u32, u64>
        decreases self, 1nat, 0nat,
    {
        match self {
            Tree::Leaf(t) => record_leaf(record, t),
            Tree::Inner(ch) => self.tally_children(ch.len(), record),
        }
    }

    /// The record after the leaves below the first `n` child positions of
    /// this node have been entered.
    pub open spec fn tally_children(self, n: nat, record: Map<u32, u64>) -> Map<u32, u64>
        decreases self, 0nat, n,
    {
        match self {
            Tree::Leaf(_) => record,
            Tree::Inner(ch) => if n == 0 || n > ch.len() {
                record
            } else {
                let before = self.tally_children((n - 1) as nat, record);
                match ch[n - 1] {
                    Some(t) => t.tally_into(before),
                    None => before,
                }
            },
        }
    }
}

/// `j` ranks before `k`: it has more pixels, or as many and the smaller key.
pub open spec fn precedes(record: Map<u32, u64>, j: u32, k: u32) -> bool {
    record[j] > record[k] || (record[j] == record[k] && j < k)
}

/// `key` is the key of one of the colours of `s`.
pub open spec fn among(s: Seq<RgbaColor>, key: u32) -> bool {
    exists|i: int| 0 <= i < s.len() && pack(#[trigger] s[i]) == key
}

/// `s` is the palette of `n` colours of `record`: colours on record only,
/// each ranking before those behind it, at most `n` of them, and whatever
/// colour on record is left out ranks behind all `n`.
pub open spec fn is_palette(s: Seq<RgbaColor>, record: Map<u32, u64>, n: nat) -> bool {
    &&& s.len() <= n
    &&& forall|i: int| 0 <= i < s.len() ==> record.contains_key(pack(#[trigger] s[i]))
    &&& forall|i: int, j: int|
        0 <= i < j < s.len() ==> precedes(record, pack(#[trigger] s[i]), pack(#[trigger] s[j]))
    &&& forall|k: u32|
        #[trigger] record.contains_key(k) && !among(s, k) ==> s.len() == n && (s.len() > 0
            ==> precedes(record, pack(s.last()), k))
}

/// The palette of `n` colours of `record`. There is one, as `rank` shows,
/// and no other, as `lemma_palette_unique` shows.
pub open spec fn palette_of(record: Map<u32, u64>, n: nat) -> Seq<RgbaColor> {
    choose|s: Seq<RgbaColor>| is_palette(s, record, n)
}

/// The colours of a palette come with falling pixel counts, and there are
/// no more of them than were asked for.
pub proof fn lemma_palette_ranked(s: Seq<RgbaColor>, record: Map<u32, u64>, n: nat)
    requires
        is_palette(s, record, n),
    ensures
        s.len() <= n,
        forall|i: int, j: int|
            0 <= i < j < s.len() ==> record[pack(#[trigger] s[i])] >= record[pack(
                #[trigger] s[j],
            )],
{
}

/// Two palettes of the same record and size agree on their first `i` colours.
proof fn lemma_palette_agree(
    s1: Seq<RgbaColor>,
    s2: Seq<RgbaColor>,
    record: Map<u32, u64>,
    n: nat,
    i: int,
)
    requires
        is_palette(s1, record, n),
        is_palette(s2, record, n),
        0 <= i <= s1.len(),
        i <= s2.len(),
    ensures
        forall|j: int| 0 <= j < i ==> s1[j] == s2[j],
    decreases i,
{
    if i > 0 {
        lemma_palette_agree(s1, s2, record, n, i - 1);
        let a = pack(s1[i - 1]);
        let b = pack(s2[i - 1]);
        lemma_pack_unpack(s1[i - 1], 0);
        lemma_pack_unpack(s2[i - 1], 0);
        if a != b {
            if precedes(record, a, b) {
                lemma_palette_gap(s1, s2, record, n, i - 1);
            } else {
                lemma_palette_gap(s2, s1, record, n, i - 1);
            }
        }
    }
}

/// Where two palettes agree below `i`, the colour of the first at `i` does
/// not rank before that of the second.
proof fn lemma_palette_gap(
    s1: Seq<RgbaColor>,
    s2: Seq<RgbaColor>,
    record: Map<u32, u64>,
    n: nat,
    i: int,
)
    requires
        is_palette(s1, record, n),
        is_palette(s2, record, n),
        0 <= i < s1.len(),
        i < s2.len(),
        forall|j: int| 0 <= j < i ==> s1[j] == s2[j],
    ensures
        !precedes(record, pack(s1[i]), pack(s2[i])),
{
    let a = pack(s1[i]);
    let b = pack(s2[i]);
    if !precedes(record, a, b) {
    } else if among(s2, a) {
        let j = choose|j: int| 0 <= j < s2.len() && pack(#[trigger] s2[j]) == a;
        if j < i {
            assert(precedes(record, pack(s1[j]), pack(s1[i])));
        } else {
            assert(precedes(record, pack(s2[i]), pack(s2[j])));
        }
    } else {
        assert(record.contains_key(a));
        if i < s2.len() - 1 {
            assert(precedes(record, pack(s2[i]), pack(s2[s2.len() - 1])));
        }
    }
}

/// A record has one palette of each size: two sequences that both are the
/// palette of `n` colours of `record` are equal.
pub proof fn lemma_palette_unique(
    s1: Seq<RgbaColor>,
    s2: Seq<RgbaColor>,
    record: Map<u32, u64>,
    n: nat,
)
    requires
        is_palette(s1, record, n),
        is_palette(s2, record, n),
    ensures
        s1 == s2,
{
    if s1.len() <= s2.len() {
        lemma_palette_agree(s1, s2, record, n, s1.len() as int);
        lemma_palette_longer(s1, s2, record, n);
    } else {
        lemma_palette_agree(s1, s2, record, n, s2.len() as int);
        lemma_palette_longer(s2, s1, record, n);
    }
    assert(s1 =~= s2);
}

/// Of two palettes of the same record and size that agree as far as both
/// go, the second does not go on where the first has ended.
proof fn lemma_palette_longer(
    s1: Seq<RgbaColor>,
    s2: Seq<RgbaColor>,
    record: Map<u32, u64>,
    n: nat,
)
    requires
        is_palette(s1, record, n),
        is_palette(s2, record, n),
        forall|j: int| 0 <= j < s1.len() && j < s2.len() ==> s1[j] == s2[j],
    ensures
        s2.len() <= s1.len(),
{
    let extra = s1.len() as int;
    let k = pack(s2[extra]);
    if s2.len() <= s1.len() {
    } else if among(s1, k) {
        let j = choose|j: int| 0 <= j < s1.len() && pack(#[trigger] s1[j]) == k;
        assert(precedes(record, pack(s2[j]), pack(s2[extra])));
    } else {
        assert(record.contains_key(k));
    }
}

/// One entry of the record.
#[derive(Clone, Copy)]
pub struct Entry {
    pub key: u32,
    pub count: u64,
}

/// `x` ranks before `y`, as `precedes` has it for the keys.
pub open spec fn before(x: Entry, y: Entry) -> bool {
    x.count > y.count || (x.count == y.count && x.key < y.key)
}

/// The palette of `limit` colours of the record.
pub fn rank(record: &BTreeMap<u32, u64>, limit: usize) -> (palette: Vec<RgbaColor>)
    ensures
        is_palette(palette@, record@, limit as nat),
        palette@ == palette_of(record@, limit as nat),
{
    let all = entries(record);
    let mut ranked: Vec<Entry> = Vec::new();
    let mut i: usize = 0;
    while i < all.len()
        invariant
            i <= all.len(),
            ranked@.len() == i,
            forall|x: int, y: int|
                0 <= x < y < all@.len() ==> (#[trigger] all@[x]).key < (#[trigger] all@[y]).key,
            forall|x: int, y: int|
                0 <= x < y < ranked@.len() ==> before(#[trigger] ranked@[x], #[trigger] ranked@[y]),
            forall|x: int| 0 <= x < i ==> ranked@.contains(#[trigger] all@[x]),
            forall|y: int|
                0 <= y < ranked@.len() ==> all@.take(i as int).contains(#[trigger] ranked@[y]),
        decreases all.len() - i,
    {
        let entry = all[i];
        let mut pos: usize = 0;
        while pos < ranked.len() && !(entry.count > ranked[pos].count || (entry.count
            == ranked[pos].count && entry.key < ranked[pos].key))
            invariant
                pos <= ranked@.len(),
                forall|y: int| 0 <= y < pos ==> !before(entry, #[trigger] ranked@[y]),
            decreases ranked@.len() - pos,
        {
            pos += 1;
        }
        let ghost prior = ranked@;
        ranked.insert(pos, entry);
        proof {
            assert forall|x: int, y: int| 0 <= x < y < ranked@.len() implies before(
                #[trigger] ranked@[x],
                #[trigger] ranked@[y],
            ) by {
                if x != pos && y != pos {
                    let px = if x < pos { x } else { x - 1 };
                    let py = if y < pos { y } else { y - 1 };
                    assert(before(prior[px], prior[py]));
                } else if x == pos {
                    assert(before(entry, prior[pos as int]));
                    if y - 1 > pos {
                        assert(before(prior[pos as int], prior[y - 1]));
                    }
                } else {
                    assert(all@.take(i as int).contains(prior[x]));
                    let w = choose|w: int|
                        0 <= w < i && #[trigger] all@.take(i as int)[w] == prior[x];
                    assert(all@[w].key != all@[i as int].key);
                    assert(!before(entry, prior[x]));
                }
            }
            assert forall|x: int| 0 <= x < i + 1 implies ranked@.contains(#[trigger] all@[x]) by {
                if x < i {
                    assert(prior.contains(all@[x]));
                    let y = choose|y: int| 0 <= y < prior.len() && #[trigger] prior[y] == all@[x];
                    let ny = if y < pos { y } else { y + 1 };
                    assert(ranked@[ny] == all@[x]);
                } else {
                    assert(ranked@[pos as int] == all@[x]);
                }
            }
            assert forall|y: int| 0 <= y < ranked@.len() implies all@.take(i + 1).contains(
                #[trigger] ranked@[y],
            ) by {
                if y == pos {
                    assert(all@.take(i + 1)[i as int] == ranked@[y]);
                } else {
                    let py = if y < pos { y } else { y - 1 };
                    assert(all@.take(i as int).contains(prior[py]));
                    let x = choose|x: int|
                        0 <= x < i && #[trigger] all@.take(i as int)[x] == prior[py];
                    assert(all@.take(i + 1)[x] == ranked@[y]);
                }
            }
        }
        i += 1;
    }
    let mut palette: Vec<RgbaColor> = Vec::new();
    let mut j: usize = 0;
    while j < ranked.len() && j < limit
        invariant
            j <= ranked@.len(),
            j <= limit,
            palette@.len() == j,
            forall|x: int| 0 <= x < j ==> pack(#[trigger] palette@[x]) == ranked@[x].key,
        decreases ranked@.len() - j,
    {
        let c = key_color(ranked[j].key);
        proof {
            lemma_pack_unpack(c, ranked@[j as int].key);
        }
        palette.push(c);
        j += 1;
    }
    proof {
        let s = palette@;
        assert(all@.take(all@.len() as int) =~= all@);
        assert forall|x: int| 0 <= x < s.len() implies record@.contains_key(
            pack(#[trigger] s[x]),
        ) by {
            assert(all@.contains(ranked@[x]));
        }
        assert forall|x: int, y: int| 0 <= x < y < s.len() implies precedes(
            record@,
            pack(#[trigger] s[x]),
            pack(#[trigger] s[y]),
        ) by {
            assert(all@.contains(ranked@[x]));
            assert(all@.contains(ranked@[y]));
            assert(before(ranked@[x], ranked@[y]));
        }
        assert forall|k: u32| #[trigger] record@.contains_key(k) && !among(s, k) implies s.len()
            == limit && (s.len() > 0 ==> precedes(record@, pack(s.last()), k)) by {
            let w = choose|w: int| 0 <= w < all@.len() && (#[trigger] all@[w]).key == k;
            assert(ranked@.contains(all@[w]));
            let y = choose|y: int| 0 <= y < ranked@.len() && #[trigger] ranked@[y] == all@[w];
            if y < s.len() {
                assert(pack(s[y]) == k);
            } else if s.len() > 0 {
                let last = s.len() - 1;
                assert(all@.contains(ranked@[last]));
                assert(before(ranked@[last], ranked@[y]));
            }
        }
    }
    proof {
        assert(is_palette(palette@, record@, limit as nat));
        lemma_palette_unique(palette@, palette_of(record@, limit as nat), record@, limit as nat);
    }
    palette
}

} // verus!
