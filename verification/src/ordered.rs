//! The places of a working set, in rising order.
use crate::entity::SimEntity;
use std::collections::BTreeMap;
use vstd::prelude::*;
use vstd::std_specs::cmp::OrdSpec;
use vstd::std_specs::iter::IteratorSpec;

verus! {

/// Whether `keys` holds the places of `dom`, each once, in rising order.
pub open spec fn lists(keys: Seq<usize>, dom: Set<usize>) -> bool {
    &&& forall|i: int, j: int| 0 <= i < j < keys.len() ==> keys[i] < keys[j]
    &&& forall|k: usize| keys.contains(k) <==> dom.contains(k)
}

/// The first place that has not been come to when the first `i` of `keys`
/// were gone through.
pub open spec fn reached(keys: Seq<usize>, i: int) -> nat {
    if i <= 0 {
        0
    } else {
        (keys[i - 1] + 1) as nat
    }
}

/// Between one listed place and the next there is no place of `dom`, nor
/// is there one after the last.
pub proof fn lemma_gap(keys: Seq<usize>, dom: Set<usize>, i: int)
    requires
        lists(keys, dom),
        0 <= i <= keys.len(),
    ensures
        i < keys.len() ==> reached(keys, i) <= keys[i] && dom.contains(keys[i]),
        forall|k: usize|
            reached(keys, i) <= k && (i < keys.len() ==> k < keys[i]) ==> !dom.contains(k),
{
    if i < keys.len() {
        assert(keys.contains(keys[i]));
        if i > 0 {
            assert(keys[i - 1] < keys[i]);
        }
    }
    assert forall|k: usize|
        reached(keys, i) <= k && (i < keys.len() ==> k < keys[i]) implies !dom.contains(k) by {
        if dom.contains(k) {
            assert(keys.contains(k));
            let j = choose|j: int| 0 <= j < keys.len() && keys[j] == k;
            if j < i {
                if j < i - 1 {
                    assert(keys[j] < keys[i - 1]);
                }
            } else if j > i {
                assert(keys[i] < keys[j]);
            }
        }
    }
}

/// The places under which `m` holds an entity, in rising order.
pub fn keys_in_order(m: &BTreeMap<usize, SimEntity>) -> (r: Vec<usize>)
    ensures
        lists(r@, m@.dom()),
{
    let mut r: Vec<usize> = Vec::new();
    let probe = m.iter();
    let ghost all = probe.remaining();
    proof {
        vstd::std_specs::btree::axiom_spec_btree_map_iter(m);
    }
    for kv in it: m.iter()
        invariant
            it.seq() == all,
            r@.len() == it.index(),
            forall|i: int| 0 <= i < r@.len() ==> r@[i] == *all[i].0,
    {
        r.push(*kv.0);
    }
    proof {
        assert forall|i: int, j: int| 0 <= i < j < r@.len() implies r@[i] < r@[j] by {
            lemma_rising(all, i, j);
        }
        assert forall|k: usize| r@.contains(k) <==> m@.dom().contains(k) by {
            if r@.contains(k) {
                let i = choose|i: int| 0 <= i < r@.len() && r@[i] == k;
                assert(m@.contains_key(*all[i].0));
            }
            if m@.contains_key(k) {
                assert(all.contains((&k, &m@[k])));
                let i = choose|i: int| 0 <= i < all.len() && all[i] == (&k, &m@[k]);
                assert(r@[i] == k);
            }
        }
    }
    r
}

/// The keys of a sequence that rises do rise.
proof fn lemma_rising(all: Seq<(&usize, &SimEntity)>, i: int, j: int)
    requires
        vstd::std_specs::btree::increasing_seq(
            all.map_values(|kv: (&usize, &SimEntity)| *kv.0),
        ),
        0 <= i < j < all.len(),
    ensures
        *all[i].0 < *all[j].0,
{
    let keys = all.map_values(|kv: (&usize, &SimEntity)| *kv.0);
    vstd::std_specs::btree::axiom_increasing_seq_meaning(keys);
    assert(keys[i] == *all[i].0);
    assert(keys[j] == *all[j].0);
    assert(keys[i].cmp_spec(&keys[j]) is Less);
}

} // verus!
