//! A map from `u32` keys built on the ordered skip list. A removal only
//! marks the key as deleted; the node stays in place.

use vstd::prelude::*;

use super::entries::{get_entry, put_entry};
use super::list;

verus! {

/// A map from `u32` keys to copyable values.
pub struct SkipList<V: Copy> {
    list: list::SkipList<Option<V>>,
}

impl<V: Copy> View for SkipList<V> {
    type V = Seq<(i64, Option<V>)>;

    /// The pairs of the underlying list, `None` marking a removed key.
    closed spec fn view(&self) -> Seq<(i64, Option<V>)> {
        self.list@
    }
}

/// The value stored under `key` in `s`, unless it was removed.
pub open spec fn current<V>(s: Seq<(i64, Option<V>)>, key: u32) -> Option<V> {
    match get_entry(s, key as i64) {
        Some(Some(v)) => Some(v),
        _ => None,
    }
}

impl<V: Copy> SkipList<V> {
    /// The underlying list is always well formed.
    #[verifier::type_invariant]
    spec fn list_wf(&self) -> bool {
        self.list.wf()
    }

    /// An empty map.
    pub fn new() -> (r: Self)
        ensures
            r@ == Seq::<(i64, Option<V>)>::empty(),
    {
        SkipList { list: list::SkipList::new() }
    }

    /// Writes `w` under `key` in the underlying list.
    fn write(&mut self, key: u32, w: Option<V>)
        ensures
            final(self)@ == put_entry(old(self)@, key as i64, w),
    {
        proof {
            use_type_invariant(&*self);
        }
        let mut inner = list::SkipList::new();
        std::mem::swap(&mut inner, &mut self.list);
        inner.add(key as i64, w);
        self.list = inner;
    }

    /// Stores `value` under `key`.
    pub fn add(&mut self, key: u32, value: V)
        ensures
            final(self)@ == put_entry(old(self)@, key as i64, Some(value)),
    {
        self.write(key, Some(value));
    }

    /// The value stored under `key`, unless it is absent or removed.
    pub fn get(&self, key: u32) -> (r: Option<V>)
        ensures
            r == current(self@, key),
    {
        proof {
            use_type_invariant(self);
        }
        match self.list.get_value(key as i64) {
            Some(Some(v)) => Some(v),
            _ => None,
        }
    }

    /// Marks `key` as removed.
    pub fn remove(&mut self, key: u32)
        ensures
            final(self)@ == put_entry(old(self)@, key as i64, None),
    {
        self.write(key, None);
    }
}

/// Law: a read right after an add gives the value added; after a removal,
/// nothing; other keys read as before either way.
pub proof fn law_read_after_write<V>(s: Seq<(i64, Option<V>)>, key: u32, value: V, other: u32)
    ensures
        current(put_entry(s, key as i64, Some(value)), key) == Some(value),
        current(put_entry(s, key as i64, None), key) is None,
        other != key ==> current(put_entry(s, key as i64, Some(value)), other) == current(s, other),
        other != key ==> current(put_entry(s, key as i64, None), other) == current(s, other),
{
    super::entries::law_get_after_put(s, key as i64, Some(value));
    super::entries::law_get_after_put(s, key as i64, None);
    if other != key {
        super::entries::law_get_other_after_put(s, key as i64, Some(value), other as i64);
        super::entries::law_get_other_after_put(s, key as i64, None, other as i64);
    }
}

} // verus!
