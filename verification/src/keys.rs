//! The ordered map from sequence numbers to times, by what it holds: a
//! `Map<u32, u64>`.

use std::collections::BTreeMap;
use vstd::prelude::*;
use vstd::laws_cmp::obeys_cmp;
use vstd::std_specs::btree::increasing_seq;
use vstd::std_specs::cmp::OrdSpec;
use vstd::std_specs::iter::IteratorSpec;

verus! {

/// `s` runs strictly upward.
pub open spec fn ascending(s: Seq<u32>) -> bool {
    forall|i: int, j: int| 0 <= i < j < s.len() ==> s[i] < s[j]
}

/// References to `u32` are ordered as the numbers behind them are.
proof fn lemma_borrowed_keys_are_ordered()
    ensures
        obeys_cmp::<&u32>(),
{
    broadcast use vstd::laws_cmp::group_laws_cmp;
    broadcast use vstd::laws_eq::group_laws_eq;

    assert(obeys_cmp::<u32>());
    reveal(vstd::laws_cmp::obeys_cmp_partial_ord);
    reveal(vstd::laws_cmp::obeys_cmp_ord);
}

/// In an increasing sequence an earlier item compares as less than a later
/// one.
proof fn lemma_increasing_pair<K: Ord>(s: Seq<K>, i: int, j: int)
    requires
        obeys_cmp::<K>(),
        increasing_seq(s),
        0 <= i < j < s.len(),
    ensures
        s[i].cmp_spec(&s[j]) is Less,
{
    vstd::std_specs::btree::axiom_increasing_seq_meaning::<K>(s);
}

/// The keys of `m`, each once, from the smallest to the largest.
pub fn ascending_keys(m: &BTreeMap<u32, u64>) -> (v: Vec<u32>)
    ensures
        v@.to_set() == m@.dom(),
        v@.no_duplicates(),
        ascending(v@),
{
    broadcast use vstd::std_specs::btree::group_btree_axioms;

    let mut v: Vec<u32> = Vec::new();
    let ghost all = m.keys().remaining();
    assert(all.unref().to_set() == m@.dom());
    assert forall|i: int, j: int| 0 <= i < j < all.len() implies *all[i] < *all[j] by {
        lemma_borrowed_keys_are_ordered();
        lemma_increasing_pair::<&u32>(all, i, j);
    }
    for k in it: m.keys()
        invariant
            it.seq() == all,
            v@ == it.seq().take(it.index()).unref(),
    {
        v.push(*k);
    }
    assert(v@ == all.unref());
    v
}

/// Number of entries.
pub fn entry_count(m: &BTreeMap<u32, u64>) -> (n: usize)
    ensures
        n == m@.len(),
        m@.dom().finite(),
{
    broadcast use vstd::std_specs::btree::group_btree_axioms;
    broadcast use vstd::laws_cmp::group_laws_cmp;

    m.len()
}

/// The value under `key`, if there is one.
pub fn lookup(m: &BTreeMap<u32, u64>, key: u32) -> (r: Option<u64>)
    ensures
        m@.contains_key(key) ==> r == Some(m@[key]),
        !m@.contains_key(key) ==> r is None,
{
    broadcast use vstd::std_specs::btree::group_btree_axioms;
    broadcast use vstd::laws_cmp::group_laws_cmp;

    match m.get(&key) {
        Some(t) => Some(*t),
        None => None,
    }
}

/// Puts `value` under `key`, in place of what stood there.
pub fn store(m: &mut BTreeMap<u32, u64>, key: u32, value: u64)
    ensures
        final(m)@ == old(m)@.insert(key, value),
{
    broadcast use vstd::std_specs::btree::group_btree_axioms;
    broadcast use vstd::laws_cmp::group_laws_cmp;

    m.insert(key, value);
}

/// Takes out the entry under `key` and hands back its value.
pub fn take(m: &mut BTreeMap<u32, u64>, key: u32) -> (r: Option<u64>)
    ensures
        final(m)@ == old(m)@.remove(key),
        old(m)@.contains_key(key) ==> r == Some(old(m)@[key]),
        !old(m)@.contains_key(key) ==> r is None,
{
    broadcast use vstd::std_specs::btree::group_btree_axioms;
    broadcast use vstd::laws_cmp::group_laws_cmp;

    m.remove(&key)
}

} // verus!
