//! The record of pixel counts as an ordered map, and the two things the
//! quantizer does with it: raise a count, and read all entries out.

use std::collections::BTreeMap;
use vstd::prelude::*;
use vstd::std_specs::btree::{increasing_seq, spec_btree_map_iter};
use vstd::std_specs::cmp::OrdSpec;
use vstd::std_specs::iter::IteratorSpec;
use crate::color::octree::ranking::{Entry, held, raised};

verus! {

/// Adds `count` pixels to what the record holds for `key`.
pub fn raise(record: &mut BTreeMap<u32, u64>, key: u32, count: u64)
    requires
        held(old(record)@, key) + count <= u64::MAX,
    ensures
        final(record)@ == raised(old(record)@, key, count),
{
    broadcast use vstd::laws_cmp::group_laws_cmp;

    let prior: u64 = match record.get(&key) {
        Some(n) => *n,
        None => 0,
    };
    record.insert(key, prior + count);
}

/// The entries of the record in the rising order of their keys: each key
/// once, with its count.
pub fn entries(record: &BTreeMap<u32, u64>) -> (out: Vec<Entry>)
    ensures
        forall|i: int|
            0 <= i < out@.len() ==> record@.contains_key((#[trigger] out@[i]).key)
                && record@[out@[i].key] == out@[i].count,
        forall|k: u32|
            record@.contains_key(k) ==> exists|i: int|
                0 <= i < out@.len() && (#[trigger] out@[i]).key == k,
        forall|i: int, j: int|
            0 <= i < j < out@.len() ==> (#[trigger] out@[i]).key < (#[trigger] out@[j]).key,
{
    broadcast use vstd::laws_cmp::group_laws_cmp;

    let mut out: Vec<Entry> = Vec::new();
    let ghost all = spec_btree_map_iter(record).remaining();
    for kv in it: record.iter()
        invariant
            it.seq() == all,
            all.no_duplicates(),
            increasing_seq(all.map_values(|kv: (&u32, &u64)| *kv.0)),
            out@.len() == it.index(),
            forall|j: int|
                0 <= j < out@.len() ==> (#[trigger] out@[j]).key == *all[j].0 && out@[j].count
                    == *all[j].1,
    {
        out.push(Entry { key: *kv.0, count: *kv.1 });
    }
    proof {
        assert forall|i: int| 0 <= i < out@.len() implies record@.contains_key(
            (#[trigger] out@[i]).key,
        ) && record@[out@[i].key] == out@[i].count by {
            assert(record@.contains_key(*all[i].0));
        }
        assert forall|k: u32| record@.contains_key(k) implies exists|i: int|
            0 <= i < out@.len() && (#[trigger] out@[i]).key == k by {
            assert(all.contains((&k, &record@[k])));
            let i = choose|i: int| 0 <= i < all.len() && all[i] == (&k, &record@[k]);
            assert(out@[i].key == k);
        }
        assert forall|i: int, j: int| 0 <= i < j < out@.len() implies (#[trigger] out@[i]).key < (
        #[trigger] out@[j]).key by {
            let keys = all.map_values(|kv: (&u32, &u64)| *kv.0);
            assert(keys[i] == *all[i].0);
            assert(keys[j] == *all[j].0);
            assert(keys[i].cmp_spec(&keys[j]) is Less);
        }
    }
    out
}

} // verus!
