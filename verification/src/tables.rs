//! Helpers for hash tables keyed by integers.
use vstd::prelude::*;
use vstd::std_specs::iter::IteratorSpec;
use std::collections::HashMap;

verus! {

/// The keys of a table, each once, in no particular order.
pub fn keys_u64<V>(m: &HashMap<u64, V>) -> (keys: Vec<u64>)
    ensures
        keys@.no_duplicates(),
        keys@.to_set() == m@.dom(),
{
    let mut keys: Vec<u64> = Vec::new();
    let ghost all: Seq<u64> = m.keys().remaining().unref();
    for k in it: m.keys()
        invariant
            it.seq().unref() == all,
            keys@.len() == it.index(),
            forall|i: int| 0 <= i < keys@.len() ==> keys@[i] == all[i],
    {
        keys.push(*k);
    }
    proof {
        assert(keys@ =~= all);
    }
    keys
}

/// The keys of a table, each once, in no particular order.
pub fn keys_u32<V>(m: &HashMap<u32, V>) -> (keys: Vec<u32>)
    ensures
        keys@.no_duplicates(),
        keys@.to_set() == m@.dom(),
{
    let mut keys: Vec<u32> = Vec::new();
    let ghost all: Seq<u32> = m.keys().remaining().unref();
    for k in it: m.keys()
        invariant
            it.seq().unref() == all,
            keys@.len() == it.index(),
            forall|i: int| 0 <= i < keys@.len() ==> keys@[i] == all[i],
    {
        keys.push(*k);
    }
    proof {
        assert(keys@ =~= all);
    }
    keys
}

/// The keys of a table, each once, in no particular order.
pub fn keys_u128<V>(m: &HashMap<u128, V>) -> (keys: Vec<u128>)
    ensures
        keys@.no_duplicates(),
        keys@.to_set() == m@.dom(),
{
    let mut keys: Vec<u128> = Vec::new();
    let ghost all: Seq<u128> = m.keys().remaining().unref();
    for k in it: m.keys()
        invariant
            it.seq().unref() == all,
            keys@.len() == it.index(),
            forall|i: int| 0 <= i < keys@.len() ==> keys@[i] == all[i],
    {
        keys.push(*k);
    }
    proof {
        assert(keys@ =~= all);
    }
    keys
}

} // verus!
