//! The in-memory table: the latest write of each key, where a write is a
//! value or a deletion mark.

use vstd::prelude::*;

use crate::common::{KeyImp, ValueImp};
use crate::log::Log;

verus! {

/// The latest write of a key: a value, or a mark that the key was deleted.
pub enum ValueWithStats {
    Add(ValueImp),
    Delete,
}

/// A write seen as bytes: `Some(value)` or `None` for a deletion.
pub open spec fn write_view(w: ValueWithStats) -> Option<Seq<u8>> {
    match w {
        ValueWithStats::Add(v) => Some(v@),
        ValueWithStats::Delete => None,
    }
}

/// The write recorded for key `k`: the first record with that key.
pub open spec fn latest<W>(s: Seq<(Seq<u8>, W)>, k: Seq<u8>) -> Option<W>
    decreases s.len(),
{
    if s.len() == 0 {
        None
    } else if s[0].0 == k {
        Some(s[0].1)
    } else {
        latest(s.drop_first(), k)
    }
}

/// No key is recorded twice.
pub open spec fn keys_distinct<W>(s: Seq<(Seq<u8>, W)>) -> bool {
    forall|i: int, j: int| 0 <= i < j < s.len() ==> s[i].0 != s[j].0
}

/// The records that hold a value, as (key, value) pairs, in record order.
pub open spec fn live(s: Seq<(Seq<u8>, Option<Seq<u8>>)>) -> Seq<(Seq<u8>, Seq<u8>)>
    decreases s.len(),
{
    if s.len() == 0 {
        Seq::empty()
    } else {
        match s[0].1 {
            Some(v) => seq![(s[0].0, v)] + live(s.drop_first()),
            None => live(s.drop_first()),
        }
    }
}

/// The write recorded at a found position is the one `latest` gives.
pub proof fn lemma_latest_at<W>(s: Seq<(Seq<u8>, W)>, k: Seq<u8>, p: int)
    requires
        keys_distinct(s),
        0 <= p < s.len(),
        s[p].0 == k,
    ensures
        latest(s, k) == Some(s[p].1),
    decreases s.len(),
{
    if p > 0 {
        lemma_latest_at(s.drop_first(), k, p - 1);
    }
}

/// A key with no record has no write.
pub proof fn lemma_latest_absent<W>(s: Seq<(Seq<u8>, W)>, k: Seq<u8>)
    requires
        forall|i: int| 0 <= i < s.len() ==> s[i].0 != k,
    ensures
        latest(s, k) is None,
    decreases s.len(),
{
    if s.len() > 0 {
        lemma_latest_absent(s.drop_first(), k);
    }
}

/// The records after writing `w` under `k`: the record of `k` is replaced,
/// or a new one is appended.
pub open spec fn record<W>(s: Seq<(Seq<u8>, W)>, k: Seq<u8>, w: W) -> Seq<(Seq<u8>, W)> {
    if exists|i: int| 0 <= i < s.len() && s[i].0 == k {
        s.update(choose|i: int| 0 <= i < s.len() && s[i].0 == k, (k, w))
    } else {
        s.push((k, w))
    }
}

/// Law: after a write of `k`, reading `k` gives that write and every other
/// key reads as before; keys stay distinct.
pub proof fn law_latest_after_record<W>(s: Seq<(Seq<u8>, W)>, k: Seq<u8>, w: W, other: Seq<u8>)
    requires
        keys_distinct(s),
    ensures
        keys_distinct(record(s, k, w)),
        latest(record(s, k, w), k) == Some(w),
        other != k ==> latest(record(s, k, w), other) == latest(s, other),
{
    let r = record(s, k, w);
    if exists|i: int| 0 <= i < s.len() && s[i].0 == k {
        let p = choose|i: int| 0 <= i < s.len() && s[i].0 == k;
        assert(keys_distinct(r));
        lemma_latest_at(r, k, p);
        if other != k {
            if exists|q: int| 0 <= q < s.len() && s[q].0 == other {
                let q = choose|q: int| 0 <= q < s.len() && s[q].0 == other;
                lemma_latest_at(s, other, q);
                lemma_latest_at(r, other, q);
            } else {
                lemma_latest_absent(s, other);
                lemma_latest_absent(r, other);
            }
        }
    } else {
        assert(keys_distinct(r));
        lemma_latest_at(r, k, s.len() as int);
        if other != k {
            if exists|q: int| 0 <= q < s.len() && s[q].0 == other {
                let q = choose|q: int| 0 <= q < s.len() && s[q].0 == other;
                lemma_latest_at(s, other, q);
                lemma_latest_at(r, other, q);
            } else {
                lemma_latest_absent(s, other);
                lemma_latest_absent(r, other);
            }
        }
    }
}

/// Law: where each key is recorded once, the live pairs are exactly the
/// pairs a read finds, `(k, v)` being among them just when the latest write
/// of `k` is the value `v`, and no key occurs among them twice.
pub proof fn law_live_is_found(s: Seq<(Seq<u8>, Option<Seq<u8>>)>)
    requires
        keys_distinct(s),
    ensures
        forall|k: Seq<u8>, v: Seq<u8>| #[trigger] live(s).contains((k, v)) <==> latest(s, k) == Some(Some(v)),
        forall|i: int, j: int| 0 <= i < j < live(s).len() ==> live(s)[i].0 != live(s)[j].0,
    decreases s.len(),
{
    if s.len() > 0 {
        let t = s.drop_first();
        assert forall|i: int, j: int| 0 <= i < j < t.len() implies t[i].0 != t[j].0 by {
            assert(s[i + 1].0 != s[j + 1].0);
        }
        law_live_is_found(t);
        assert forall|j: int| 0 <= j < t.len() implies t[j].0 != s[0].0 by {
            assert(s[0].0 != s[j + 1].0);
        }
        lemma_latest_absent(t, s[0].0);
        let l = live(s);
        let lt = live(t);
        match s[0].1 {
            Some(v0) => {
                assert(l == seq![(s[0].0, v0)] + lt);
                assert forall|k: Seq<u8>, v: Seq<u8>| #[trigger] l.contains((k, v)) <==> latest(s, k) == Some(
                    Some(v),
                ) by {
                    if l.contains((k, v)) {
                        let i = choose|i: int| 0 <= i < l.len() && l[i] == (k, v);
                        if i > 0 {
                            assert(lt[i - 1] == (k, v));
                            assert(lt.contains((k, v)));
                        }
                    }
                    if latest(s, k) == Some(Some(v)) {
                        if k == s[0].0 {
                            assert(l[0] == (k, v));
                        } else {
                            assert(lt.contains((k, v)));
                            let i = choose|i: int| 0 <= i < lt.len() && lt[i] == (k, v);
                            assert(l[i + 1] == (k, v));
                        }
                    }
                }
                assert forall|i: int, j: int| 0 <= i < j < l.len() implies l[i].0 != l[j].0 by {
                    assert(l[j] == lt[j - 1]);
                    if i == 0 {
                        let pr = lt[j - 1];
                        assert(pr == (pr.0, pr.1));
                        assert(lt.contains((pr.0, pr.1)));
                        assert(latest(t, pr.0) == Some(Some(pr.1)));
                    } else {
                        assert(l[i] == lt[i - 1]);
                    }
                }
            },
            None => {
                assert(l == lt);
                assert forall|k: Seq<u8>, v: Seq<u8>| #[trigger] l.contains((k, v)) <==> latest(s, k) == Some(
                    Some(v),
                ) by {
                    if k == s[0].0 {
                        if lt.contains((k, v)) {
                            assert(latest(t, k) == Some(Some(v)));
                        }
                    }
                }
            },
        }
    }
}

/// Whether two byte strings are equal.
fn same_bytes(a: &[u8], b: &[u8]) -> (r: bool)
    ensures
        r == (a@ == b@),
{
    if a.len() != b.len() {
        return false;
    }
    let mut i: usize = 0;
    while i < a.len()
        invariant
            a@.len() == b@.len(),
            i <= a@.len(),
            forall|j: int| 0 <= j < i ==> a@[j] == b@[j],
        decreases a@.len() - i,
    {
        if a[i] != b[i] {
            return false;
        }
        i += 1;
    }
    assert(a@ =~= b@);
    true
}

/// The in-memory table of writes, with the log that records them.
pub struct MemTable<L: Log> {
    map: Vec<(KeyImp, ValueWithStats)>,
    log: L,
}

/// The records of `entries`, as bytes.
spec fn records_of(entries: Seq<(KeyImp, ValueWithStats)>) -> Seq<(Seq<u8>, Option<Seq<u8>>)> {
    entries.map_values(|e: (KeyImp, ValueWithStats)| (e.0@, write_view(e.1)))
}

impl<L: Log> View for MemTable<L> {
    type V = Seq<(Seq<u8>, Option<Seq<u8>>)>;

    /// The records of the table, one per key, in the order keys were first written.
    closed spec fn view(&self) -> Seq<(Seq<u8>, Option<Seq<u8>>)> {
        records_of(self.map@)
    }
}

impl<L: Log> MemTable<L> {
    pub closed spec fn wf(&self) -> bool {
        keys_distinct(self@)
    }

    /// A well-formed table records each key once.
    pub proof fn lemma_keys_distinct(&self)
        requires
            self.wf(),
        ensures
            keys_distinct(self@),
    {
    }

    /// An empty table that records to `l`.
    pub fn new(l: L) -> (r: Self)
        ensures
            r.wf(),
            r@ == Seq::<(Seq<u8>, Option<Seq<u8>>)>::empty(),
            keys_distinct(r@),
    {
        let r = MemTable { map: Vec::new(), log: l };
        assert(r@ =~= Seq::<(Seq<u8>, Option<Seq<u8>>)>::empty());
        r
    }

    /// The position of the record of `key`, if any.
    fn position(&self, key: &KeyImp) -> (r: Option<usize>)
        ensures
            match r {
                Some(i) => i < self@.len() && self@[i as int].0 == key@,
                None => forall|i: int| 0 <= i < self@.len() ==> self@[i].0 != key@,
            },
    {
        let mut i: usize = 0;
        while i < self.map.len()
            invariant
                i <= self.map@.len(),
                self@.len() == self.map@.len(),
                forall|j: int| 0 <= j < i ==> self@[j].0 != key@,
            decreases self.map@.len() - i,
        {
            if same_bytes(self.map[i].0.as_bytes(), key.as_bytes()) {
                return Some(i);
            }
            i += 1;
        }
        None
    }

    /// The value last written under `key`, unless it was deleted since.
    pub fn find(&self, key: &KeyImp) -> (r: Option<&ValueImp>)
        requires
            self.wf(),
        ensures
            match r {
                Some(v) => latest(self@, key@) == Some(Some(v@)),
                None => latest(self@, key@) is None || latest(self@, key@) == Some(None::<Seq<u8>>),
            },
    {
        match self.position(key) {
            None => {
                proof {
                    lemma_latest_absent(self@, key@);
                }
                None
            },
            Some(i) => {
                proof {
                    lemma_latest_at(self@, key@, i as int);
                }
                match &self.map[i].1 {
                    ValueWithStats::Delete => None,
                    ValueWithStats::Add(a) => Some(a),
                }
            },
        }
    }

    /// Records `w` as the latest write of `key`.
    fn put_record(&mut self, key: &KeyImp, w: ValueWithStats)
        requires
            old(self).wf(),
        ensures
            final(self).wf(),
            final(self)@ == record(old(self)@, key@, write_view(w)),
    {
        let ghost s = self@;
        let ghost wv = write_view(w);
        match self.position(key) {
            Some(i) => {
                self.map.set(i, (key.clone_key(), w));
                proof {
                    let p = choose|j: int| 0 <= j < s.len() && s[j].0 == key@;
                    assert(s[i as int].0 == key@);
                    if p != i {
                        assert(s[p].0 == s[i as int].0);
                    }
                    assert(self@ =~= s.update(i as int, (key@, wv)));
                    law_latest_after_record(s, key@, wv, key@);
                }
            },
            None => {
                self.map.push((key.clone_key(), w));
                proof {
                    assert(self@ =~= s.push((key@, wv)));
                    law_latest_after_record(s, key@, wv, key@);
                }
            },
        }
    }

    /// Writes `value` under `key`.
    pub fn add(&mut self, key: &KeyImp, value: ValueImp)
        requires
            old(self).wf(),
        ensures
            final(self).wf(),
            final(self)@ == record(old(self)@, key@, Some(value@)),
            keys_distinct(final(self)@),
    {
        self.put_record(key, ValueWithStats::Add(value));
    }

    /// Marks `key` as deleted.
    pub fn delete(&mut self, key: &KeyImp)
        requires
            old(self).wf(),
        ensures
            final(self).wf(),
            final(self)@ == record(old(self)@, key@, None::<Seq<u8>>),
            keys_distinct(final(self)@),
    {
        self.put_record(key, ValueWithStats::Delete);
    }

    /// The live pairs of the table, in the order keys were first written.
    pub fn iter(self) -> (r: MemTableIter)
        ensures
            r.remaining() == live(self@),
            self.wf() ==> forall|k: Seq<u8>, v: Seq<u8>|
                #[trigger] r.remaining().contains((k, v)) <==> latest(self@, k) == Some(Some(v)),
            self.wf() ==> forall|i: int, j: int|
                0 <= i < j < r.remaining().len() ==> r.remaining()[i].0 != r.remaining()[j].0,
    {
        proof {
            if self.wf() {
                law_live_is_found(self@);
            }
        }
        MemTableIter::new(self.map)
    }
}

/// The live pairs of a table, handed out one by one.
pub struct MemTableIter {
    s: Vec<(KeyImp, ValueWithStats)>,
    index: usize,
}

impl MemTableIter {
    #[verifier::type_invariant]
    spec fn index_in_bounds(&self) -> bool {
        self.index <= self.s@.len()
    }

    /// The pairs still to come.
    pub closed spec fn remaining(&self) -> Seq<(Seq<u8>, Seq<u8>)> {
        live(records_of(self.s@).skip(self.index as int))
    }

    fn new(m: Vec<(KeyImp, ValueWithStats)>) -> (r: Self)
        ensures
            r.remaining() == live(records_of(m@)),
    {
        let r = MemTableIter { s: m, index: 0 };
        assert(records_of(r.s@).skip(0) =~= records_of(r.s@));
        r
    }

    /// The next live pair, or `None` when none is left.
    pub fn next(&mut self) -> (r: Option<(KeyImp, ValueImp)>)
        ensures
            match r {
                Some(kv) => old(self).remaining().len() > 0 && (kv.0@, kv.1@) == old(
                    self,
                ).remaining()[0] && final(self).remaining() == old(self).remaining().drop_first(),
                None => old(self).remaining().len() == 0 && final(self).remaining() == old(
                    self,
                ).remaining(),
            },
    {
        proof {
            use_type_invariant(&*self);
        }
        loop
            invariant
                self.index <= self.s@.len(),
                self.s@ == old(self).s@,
                self.remaining() == old(self).remaining(),
            decreases self.s@.len() - self.index,
        {
            if self.index >= self.s.len() {
                proof {
                    assert(records_of(self.s@).skip(self.index as int) =~= Seq::<
                        (Seq<u8>, Option<Seq<u8>>),
                    >::empty());
                }
                return None;
            }
            let ghost rs = records_of(self.s@).skip(self.index as int);
            let i = self.index;
            self.index = self.index + 1;
            assert(records_of(self.s@).skip(self.index as int) =~= rs.drop_first());
            match &self.s[i].1 {
                ValueWithStats::Delete => {},
                ValueWithStats::Add(value) => {
                    let k = self.s[i].0.clone_key();
                    let v = value.clone_value();
                    return Some((k, v));
                },
            }
        }
    }
}

} // verus!
