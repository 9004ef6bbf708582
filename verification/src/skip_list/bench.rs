//! The map interface that the benchmarks drive, and their set-up phase.

use vstd::prelude::*;

use super::skip_list::{current, law_read_after_write, SkipList};
use crate::rand::{iterate, Rand};
use std::collections::HashMap;

verus! {

/// A map from `u32` to `u32` that a benchmark can drive.
pub trait BenchList {
    /// The map the list holds.
    spec fn content(&self) -> Map<u32, u32>;

    /// Stores `value` under `key`.
    fn add(&mut self, key: u32, value: u32)
        ensures
            final(self).content() == old(self).content().insert(key, value),
    ;

    /// Drops `key`.
    fn remove(&mut self, key: u32)
        ensures
            final(self).content() == old(self).content().remove(key),
    ;

    /// The value stored under `key`, if any.
    fn get(&self, key: u32) -> (r: Option<u32>)
        ensures
            r == (if self.content().contains_key(key) {
                Some(self.content()[key])
            } else {
                None::<u32>
            }),
    ;
}

/// The map of the keys a marked list holds unremoved.
pub open spec fn marked_content(s: Seq<(i64, Option<u32>)>) -> Map<u32, u32> {
    Map::new(|k: u32| current(s, k) is Some, |k: u32| current(s, k).unwrap())
}

/// The map `m` after the first `n` draws from a generator in state `state`,
/// each reduced into `0..key_space` and stored under itself.
pub open spec fn filled(m: Map<u32, u32>, state: u64, n: nat, key_space: usize) -> Map<u32, u32>
    decreases n,
{
    if n == 0 {
        m
    } else {
        let k = (iterate(state, (n - 1) as nat) % (key_space as u64)) as u32;
        filled(m, state, (n - 1) as nat, key_space).insert(k, k)
    }
}

/// Law: filling stores every drawn key under itself: where each key of `m`
/// is stored under itself, each key of the filled map is too, and its keys are
/// those of `m` and the first `n` draws, each reduced into `0..key_space`.
pub proof fn law_filled_keys_map_to_themselves(m: Map<u32, u32>, state: u64, n: nat, key_space: usize)
    requires
        forall|k: u32| m.contains_key(k) ==> m[k] == k,
    ensures
        forall|k: u32| #[trigger] filled(m, state, n, key_space).contains_key(k) ==> filled(m, state, n, key_space)[k] == k,
        forall|k: u32|
            #[trigger] filled(m, state, n, key_space).contains_key(k) <==> (m.contains_key(k) || exists|i: nat|
                i < n && k == (iterate(state, i) % (key_space as u64)) as u32),
    decreases n,
{
    if n > 0 {
        let n1 = (n - 1) as nat;
        law_filled_keys_map_to_themselves(m, state, n1, key_space);
        let f = filled(m, state, n, key_space);
        let k0 = (iterate(state, n1) % (key_space as u64)) as u32;
        let f1 = filled(m, state, n1, key_space);
        assert(f == f1.insert(k0, k0));
        assert forall|k: u32| #[trigger] f.contains_key(k) implies f[k] == k by {
            if k != k0 {
                assert(f1.contains_key(k));
            }
        }
        assert forall|k: u32| #[trigger] f.contains_key(k) <==> (m.contains_key(k) || exists|i: nat|
            i < n && k == (iterate(state, i) % (key_space as u64)) as u32) by {
            if exists|i: nat| i < n && k == (iterate(state, i) % (key_space as u64)) as u32 {
                let i = choose|i: nat| i < n && k == (iterate(state, i) % (key_space as u64)) as u32;
                if i < n1 {
                    assert(filled(m, state, n1, key_space).contains_key(k));
                }
            }
            if filled(m, state, n1, key_space).contains_key(k) && !m.contains_key(k) {
                let i = choose|i: nat| i < n1 && k == (iterate(state, i) % (key_space as u64)) as u32;
                assert(i < n);
            }
            if k == k0 {
                assert(n1 < n);
            }
        }
    }
}

/// Fills `bench_list` with `size` draws of the generator reduced into
/// `0..key_space`, each stored under itself.
pub fn setup<T: BenchList>(bench_list: &mut T, size: usize, r: &mut Rand, key_space: usize)
    requires
        size == 0 || key_space > 0,
    ensures
        final(r).state() == iterate(old(r).state(), size as nat),
        final(bench_list).content() == filled(old(bench_list).content(), old(r).state(), size as nat, key_space),
        (forall|k: u32| old(bench_list).content().contains_key(k) ==> old(bench_list).content()[k] == k) ==> (forall|k: u32|
            final(bench_list).content().contains_key(k) ==> final(bench_list).content()[k] == k),
{
    let mut i: usize = 0;
    while i < size
        invariant
            i <= size,
            size == 0 || key_space > 0,
            r.state() == iterate(old(r).state(), i as nat),
            bench_list.content() == filled(old(bench_list).content(), old(r).state(), i as nat, key_space),
        decreases size - i,
    {
        let key = (r.next() % key_space as u64) as u32;
        bench_list.add(key, key);
        i += 1;
    }
    proof {
        if forall|k: u32| old(bench_list).content().contains_key(k) ==> old(bench_list).content()[k] == k {
            law_filled_keys_map_to_themselves(old(bench_list).content(), old(r).state(), size as nat, key_space);
        }
    }
}

impl BenchList for SkipList<u32> {
    open spec fn content(&self) -> Map<u32, u32> {
        marked_content(self@)
    }

    fn add(&mut self, key: u32, value: u32) {
        SkipList::add(self, key, value);
        proof {
            assert forall|k: u32| true implies #[trigger] current(self@, k) == (if k == key {
                Some(value)
            } else {
                current(old(self)@, k)
            }) by {
                law_read_after_write(old(self)@, key, value, k);
            }
            assert(marked_content(self@) =~= marked_content(old(self)@).insert(key, value));
        }
    }

    fn remove(&mut self, key: u32) {
        SkipList::remove(self, key);
        proof {
            assert forall|k: u32| true implies #[trigger] current(self@, k) == (if k == key {
                None
            } else {
                current(old(self)@, k)
            }) by {
                law_read_after_write(old(self)@, key, 0u32, k);
            }
            assert(marked_content(self@) =~= marked_content(old(self)@).remove(key));
        }
    }

    fn get(&self, key: u32) -> (r: Option<u32>) {
        SkipList::get(self, key)
    }
}

impl BenchList for HashMap<u32, u32> {
    open spec fn content(&self) -> Map<u32, u32> {
        self@
    }

    fn add(&mut self, key: u32, value: u32) {
        broadcast use vstd::std_specs::hash::group_hash_axioms;

        self.insert(key, value);
    }

    fn remove(&mut self, key: u32) {
        broadcast use vstd::std_specs::hash::group_hash_axioms;

        HashMap::remove(self, &key);
    }

    fn get(&self, key: u32) -> Option<u32> {
        broadcast use vstd::std_specs::hash::group_hash_axioms;

        match HashMap::get(self, &key) {
            Some(n) => Some(*n),
            None => None,
        }
    }
}

} // verus!
