//! A least-recently-used cache: a doubly linked recency list of entries and
//! a map from each key to its list node.

use vstd::prelude::*;

use std::collections::HashMap;
use std::rc::Rc;

verus! {

/// No key has two live entries. An entry is live when the key map points at
/// it; an entry that is not live stays queued until eviction reaches it.
pub open spec fn live_keys_distinct<E>(s: Seq<(u64, E, bool)>) -> bool {
    forall|i: int, j: int| 0 <= i < j < s.len() && s[i].2 && s[j].2 ==> s[i].0 != s[j].0
}

/// Every queued entry is live.
pub open spec fn all_live<E>(s: Seq<(u64, E, bool)>) -> bool {
    forall|i: int| 0 <= i < s.len() ==> #[trigger] s[i].2
}

/// The number of live entries: the number of keys the cache holds.
pub open spec fn live_count<E>(s: Seq<(u64, E, bool)>) -> nat
    decreases s.len(),
{
    if s.len() == 0 {
        0
    } else {
        live_count(s.drop_last()) + if s.last().2 {
            1nat
        } else {
            0nat
        }
    }
}

/// The value of the live entry of `k`.
pub open spec fn lookup<E>(s: Seq<(u64, E, bool)>, k: u64) -> Option<E>
    decreases s.len(),
{
    if s.len() == 0 {
        None
    } else if s[0].2 && s[0].0 == k {
        Some(s[0].1)
    } else {
        lookup(s.drop_first(), k)
    }
}

/// The entries after the key map forgets `k`: its live entry, if any, stays
/// queued but is no longer live.
pub open spec fn forget_key<E>(s: Seq<(u64, E, bool)>, k: u64) -> Seq<(u64, E, bool)> {
    Seq::new(s.len(), |i: int| (s[i].0, s[i].1, s[i].2 && s[i].0 != k))
}

/// The entries after a cache that holds `capacity` keys takes off the least
/// recently queued entry and forgets that entry's key, wherever the key's
/// live entry is.
pub open spec fn evicted<E>(s: Seq<(u64, E, bool)>, capacity: nat) -> Seq<(u64, E, bool)> {
    if live_count(s) == capacity && s.len() > 0 {
        forget_key(s.drop_first(), s[0].0)
    } else {
        s
    }
}

/// The entries, least recently used first, after `k` is put with value `e`:
/// after eviction, an earlier entry of `k` stays queued but is no longer
/// live, and the new entry is queued last.
pub open spec fn put_model<E>(s: Seq<(u64, E, bool)>, capacity: nat, k: u64, e: E) -> Seq<(u64, E, bool)> {
    forget_key(evicted(s, capacity), k).push((k, e, true))
}

/// The entries after a read of `k`: the live entry of `k`, if any, moves to
/// the back.
pub open spec fn touched<E>(s: Seq<(u64, E, bool)>, k: u64) -> Seq<(u64, E, bool)> {
    if exists|p: int| 0 <= p < s.len() && s[p].2 && s[p].0 == k {
        let p = choose|p: int| 0 <= p < s.len() && s[p].2 && s[p].0 == k;
        s.remove(p).push(s[p])
    } else {
        s
    }
}

proof fn lemma_live_count_push<E>(s: Seq<(u64, E, bool)>, x: (u64, E, bool))
    ensures
        live_count(s.push(x)) == live_count(s) + if x.2 {
            1nat
        } else {
            0nat
        },
{
    assert(s.push(x).drop_last() =~= s);
}

proof fn lemma_live_count_update<E>(s: Seq<(u64, E, bool)>, p: int, x: (u64, E, bool))
    requires
        0 <= p < s.len(),
    ensures
        live_count(s.update(p, x)) + (if s[p].2 {
            1int
        } else {
            0int
        }) == live_count(s) + (if x.2 {
            1int
        } else {
            0int
        }),
    decreases s.len(),
{
    let t = s.update(p, x);
    if p == s.len() - 1 {
        assert(t.drop_last() =~= s.drop_last());
    } else {
        lemma_live_count_update(s.drop_last(), p, x);
        assert(t.drop_last() =~= s.drop_last().update(p, x));
    }
}

proof fn lemma_live_count_remove<E>(s: Seq<(u64, E, bool)>, p: int)
    requires
        0 <= p < s.len(),
    ensures
        live_count(s.remove(p)) + (if s[p].2 {
            1int
        } else {
            0int
        }) == live_count(s),
    decreases s.len(),
{
    let t = s.remove(p);
    if p == s.len() - 1 {
        assert(t =~= s.drop_last());
    } else {
        lemma_live_count_remove(s.drop_last(), p);
        assert(t.drop_last() =~= s.drop_last().remove(p));
        assert(t.last() == s.last());
    }
}

/// The live entry of `k`, found at `p`, is the one `lookup` gives.
pub proof fn lemma_lookup_at<E>(s: Seq<(u64, E, bool)>, k: u64, p: int)
    requires
        live_keys_distinct(s),
        0 <= p < s.len(),
        s[p].2,
        s[p].0 == k,
    ensures
        lookup(s, k) == Some(s[p].1),
    decreases s.len(),
{
    if p > 0 {
        lemma_lookup_at(s.drop_first(), k, p - 1);
    }
}

/// A key with no live entry is not found.
pub proof fn lemma_lookup_absent<E>(s: Seq<(u64, E, bool)>, k: u64)
    requires
        forall|i: int| 0 <= i < s.len() ==> !(s[i].2 && s[i].0 == k),
    ensures
        lookup(s, k) is None,
    decreases s.len(),
{
    if s.len() > 0 {
        lemma_lookup_absent(s.drop_first(), k);
    }
}

/// Forgetting `k` keeps live keys distinct, leaves `k` with no live entry,
/// lowers the count by one exactly when `k` had a live entry, and keeps
/// every other key's value.
proof fn lemma_forget_key<E>(s: Seq<(u64, E, bool)>, k: u64)
    requires
        live_keys_distinct(s),
    ensures
        live_keys_distinct(forget_key(s, k)),
        forget_key(s, k).len() == s.len(),
        forall|i: int| 0 <= i < s.len() ==> !(forget_key(s, k)[i].2 && forget_key(s, k)[i].0 == k),
        live_count(forget_key(s, k)) + (if exists|p: int| 0 <= p < s.len() && s[p].2 && s[p].0 == k {
            1int
        } else {
            0int
        }) == live_count(s),
        forall|k2: u64| k2 != k ==> #[trigger] lookup(forget_key(s, k), k2) == lookup(s, k2),
{
    let f = forget_key(s, k);
    if exists|p: int| 0 <= p < s.len() && s[p].2 && s[p].0 == k {
        let p = choose|p: int| 0 <= p < s.len() && s[p].2 && s[p].0 == k;
        assert(f =~= s.update(p, (k, s[p].1, false))) by {
            assert forall|i: int| 0 <= i < s.len() && i != p implies f[i] == s[i] by {
                if s[i].2 && s[i].0 == k {
                    if i < p {
                        assert(s[i].0 != s[p].0);
                    } else {
                        assert(s[p].0 != s[i].0);
                    }
                }
            }
        }
        lemma_live_count_update(s, p, (k, s[p].1, false));
    } else {
        assert(f =~= s);
    }
    assert forall|k2: u64| k2 != k implies #[trigger] lookup(f, k2) == lookup(s, k2) by {
        if exists|q: int| 0 <= q < s.len() && s[q].2 && s[q].0 == k2 {
            let q = choose|q: int| 0 <= q < s.len() && s[q].2 && s[q].0 == k2;
            lemma_lookup_at(s, k2, q);
            lemma_lookup_at(f, k2, q);
        } else {
            lemma_lookup_absent(s, k2);
            lemma_lookup_absent(f, k2);
        }
    }
}

/// Eviction keeps live keys distinct.
proof fn lemma_evicted_distinct<E>(s: Seq<(u64, E, bool)>, capacity: nat)
    requires
        live_keys_distinct(s),
    ensures
        live_keys_distinct(evicted(s, capacity)),
{
    if live_count(s) == capacity && s.len() > 0 {
        let t = s.drop_first();
        assert(live_keys_distinct(t)) by {
            assert forall|i: int, j: int| 0 <= i < j < t.len() && t[i].2 && t[j].2 implies t[i].0 != t[j].0 by {
                assert(t[i] == s[i + 1] && t[j] == s[j + 1]);
            }
        }
        lemma_forget_key(t, s[0].0);
    }
}

/// The facts about a put that the laws share.
proof fn lemma_put_facts<E>(s: Seq<(u64, E, bool)>, capacity: nat, k: u64, e: E)
    requires
        live_keys_distinct(s),
    ensures
        live_keys_distinct(put_model(s, capacity, k, e)),
        lookup(put_model(s, capacity, k, e), k) == Some(e),
        forall|k2: u64| k2 != k ==> #[trigger] lookup(put_model(s, capacity, k, e), k2) == lookup(evicted(s, capacity), k2),
{
    let v = evicted(s, capacity);
    lemma_evicted_distinct(s, capacity);
    lemma_forget_key(v, k);
    let w = forget_key(v, k);
    let r = w.push((k, e, true));
    assert(live_keys_distinct(r)) by {
        assert forall|i: int, j: int| 0 <= i < j < r.len() && r[i].2 && r[j].2 implies r[i].0 != r[j].0 by {
            if j == w.len() {
                assert(r[i] == w[i]);
            } else {
                assert(r[i] == w[i] && r[j] == w[j]);
            }
        }
    }
    lemma_lookup_at(r, k, w.len() as int);
    assert forall|k2: u64| k2 != k implies #[trigger] lookup(r, k2) == lookup(v, k2) by {
        if exists|q: int| 0 <= q < w.len() && w[q].2 && w[q].0 == k2 {
            let q = choose|q: int| 0 <= q < w.len() && w[q].2 && w[q].0 == k2;
            lemma_lookup_at(w, k2, q);
            assert(r[q] == w[q]);
            lemma_lookup_at(r, k2, q);
        } else {
            lemma_lookup_absent(w, k2);
            assert forall|i: int| 0 <= i < r.len() implies !(r[i].2 && r[i].0 == k2) by {
                if i < w.len() {
                    assert(r[i] == w[i]);
                }
            }
            lemma_lookup_absent(r, k2);
        }
    }
}

/// Law: reading a key right after putting it gives the value put, and the
/// read changes nothing, the entry being the most recently used already.
pub proof fn law_get_after_put<E>(s: Seq<(u64, E, bool)>, capacity: nat, k: u64, e: E)
    requires
        live_keys_distinct(s),
    ensures
        lookup(put_model(s, capacity, k, e), k) == Some(e),
        touched(put_model(s, capacity, k, e), k) == put_model(s, capacity, k, e),
{
    lemma_put_facts(s, capacity, k, e);
    let r = put_model(s, capacity, k, e);
    let n = r.len() - 1;
    assert(r[n].2 && r[n].0 == k);
    let p = choose|p: int| 0 <= p < r.len() && r[p].2 && r[p].0 == k;
    if p != n {
        assert(r[p].0 != r[n].0);
    }
    assert(r.remove(n).push(r[n]) =~= r);
}

/// Law: a put keeps live keys distinct.
pub proof fn law_put_keeps_distinct<E>(s: Seq<(u64, E, bool)>, capacity: nat, k: u64, e: E)
    requires
        live_keys_distinct(s),
    ensures
        live_keys_distinct(put_model(s, capacity, k, e)),
{
    lemma_put_facts(s, capacity, k, e);
}

/// Law: while every queued entry is live and no held key is put again, a
/// cache within a positive capacity stays within it and every entry stays
/// live.
pub proof fn law_put_within_capacity<E>(s: Seq<(u64, E, bool)>, capacity: nat, k: u64, e: E)
    requires
        live_keys_distinct(s),
        all_live(s),
        0 < capacity,
        s.len() <= capacity,
        lookup(s, k) is None,
    ensures
        all_live(put_model(s, capacity, k, e)),
        put_model(s, capacity, k, e).len() <= capacity,
{
    lemma_all_live_count(s);
    lemma_all_live_absent(s, k);
    let v = evicted(s, capacity);
    if live_count(s) == capacity && s.len() > 0 {
        let t = s.drop_first();
        assert forall|i: int| 0 <= i < t.len() implies t[i].0 != s[0].0 by {
            assert(s[0].2 && s[i + 1].2);
            assert(s[0].0 != s[i + 1].0);
        }
        assert(v =~= t);
    }
    assert forall|i: int| 0 <= i < v.len() implies v[i].2 && v[i].0 != k by {
        if live_count(s) == capacity && s.len() > 0 {
            assert(v[i] == s[i + 1]);
        }
    }
    assert(forget_key(v, k) =~= v);
    let r = put_model(s, capacity, k, e);
    assert forall|i: int| 0 <= i < r.len() implies #[trigger] r[i].2 by {
        if i < v.len() {
            assert(r[i] == v[i]);
        }
    }
}

/// With every entry live, the count is the number of entries.
proof fn lemma_all_live_count<E>(s: Seq<(u64, E, bool)>)
    requires
        all_live(s),
    ensures
        live_count(s) == s.len(),
    decreases s.len(),
{
    if s.len() > 0 {
        assert(s.last().2);
        lemma_all_live_count(s.drop_last());
    }
}

/// With every entry live, a key that is not found has no entry.
proof fn lemma_all_live_absent<E>(s: Seq<(u64, E, bool)>, k: u64)
    requires
        all_live(s),
        live_keys_distinct(s),
        lookup(s, k) is None,
    ensures
        forall|i: int| 0 <= i < s.len() ==> s[i].0 != k,
{
    assert forall|i: int| 0 <= i < s.len() implies s[i].0 != k by {
        if s[i].0 == k {
            assert(s[i].2);
            lemma_lookup_at(s, k, i);
        }
    }
}

/// Law: putting a new key into a full cache whose entries are all live drops
/// the least recently used entry and appends the new one as the most
/// recently used.
pub proof fn law_put_evicts_least_recent<E>(s: Seq<(u64, E, bool)>, capacity: nat, k: u64, e: E)
    requires
        live_keys_distinct(s),
        all_live(s),
        s.len() == capacity,
        capacity > 0,
        lookup(s, k) is None,
    ensures
        put_model(s, capacity, k, e) == s.drop_first().push((k, e, true)),
{
    lemma_all_live_count(s);
    lemma_all_live_absent(s, k);
    let t = s.drop_first();
    assert forall|i: int| 0 <= i < t.len() implies t[i].0 != s[0].0 by {
        assert(s[0].2 && s[i + 1].2);
        assert(s[0].0 != s[i + 1].0);
    }
    assert(forget_key(t, s[0].0) =~= t);
    assert forall|i: int| 0 <= i < t.len() implies t[i].0 != k by {
        assert(t[i] == s[i + 1]);
    }
    assert(forget_key(t, k) =~= t);
}

/// Law: a put leaves every other key that survives eviction as it was.
pub proof fn law_put_keeps_others<E>(s: Seq<(u64, E, bool)>, capacity: nat, k: u64, e: E, other: u64)
    requires
        live_keys_distinct(s),
        other != k,
    ensures
        lookup(put_model(s, capacity, k, e), other) == lookup(evicted(s, capacity), other),
{
    lemma_put_facts(s, capacity, k, e);
}

/// Law: putting a key the cache holds leaves its earlier entry queued, no
/// longer live, so the queue grows by one whether or not the key was held.
pub proof fn law_put_queues_one_more<E>(s: Seq<(u64, E, bool)>, capacity: nat, k: u64, e: E)
    ensures
        put_model(s, capacity, k, e).len() == evicted(s, capacity).len() + 1,
{
}

/// Law: a read makes a present key the most recently used and changes no
/// key's value nor the number of keys held.
pub proof fn law_get_refreshes<E>(s: Seq<(u64, E, bool)>, k: u64, k2: u64)
    requires
        live_keys_distinct(s),
        lookup(s, k) is Some,
    ensures
        touched(s, k).last() == (k, lookup(s, k).unwrap(), true),
        lookup(touched(s, k), k2) == lookup(s, k2),
        touched(s, k).len() == s.len(),
        live_count(touched(s, k)) == live_count(s),
        live_keys_distinct(touched(s, k)),
{
    if exists|p: int| 0 <= p < s.len() && s[p].2 && s[p].0 == k {
        let p = choose|p: int| 0 <= p < s.len() && s[p].2 && s[p].0 == k;
        lemma_touch_at(s, k, p, k2);
    } else {
        lemma_lookup_absent(s, k);
    }
}

/// Moving the live entry of `k`, at `p`, to the back keeps every value, the
/// count and distinctness.
proof fn lemma_touch_at<E>(s: Seq<(u64, E, bool)>, k: u64, p: int, k2: u64)
    requires
        live_keys_distinct(s),
        0 <= p < s.len(),
        s[p].2,
        s[p].0 == k,
    ensures
        touched(s, k) == s.remove(p).push(s[p]),
        touched(s, k).last() == (k, lookup(s, k).unwrap(), true),
        lookup(touched(s, k), k2) == lookup(s, k2),
        touched(s, k).len() == s.len(),
        live_count(touched(s, k)) == live_count(s),
        live_keys_distinct(touched(s, k)),
{
    let q = choose|q: int| 0 <= q < s.len() && s[q].2 && s[q].0 == k;
    if q < p {
        assert(s[q].0 != s[p].0);
    } else if p < q {
        assert(s[p].0 != s[q].0);
    }
    lemma_lookup_at(s, k, p);
    let m = s.remove(p);
    let t = m.push(s[p]);
    lemma_live_count_remove(s, p);
    lemma_live_count_push(m, s[p]);
    // position of each entry of `t` in `s`
    assert forall|i: int| 0 <= i < t.len() implies #[trigger] t[i] == s[if i == t.len() - 1 {
        p
    } else if i < p {
        i
    } else {
        i + 1
    }] by {}
    assert(live_keys_distinct(t)) by {
        assert forall|i: int, j: int| 0 <= i < j < t.len() && t[i].2 && t[j].2 implies t[i].0 != t[j].0 by {
            let a = if i < p { i } else { i + 1 };
            let b = if j == t.len() - 1 { p } else if j < p { j } else { j + 1 };
            assert(t[i] == s[a]);
            assert(t[j] == s[b]);
            assert(a != b);
            if a < b {
                assert(s[a].0 != s[b].0);
            } else {
                assert(s[b].0 != s[a].0);
            }
        }
    }
    if exists|r: int| 0 <= r < s.len() && s[r].2 && s[r].0 == k2 {
        let r = choose|r: int| 0 <= r < s.len() && s[r].2 && s[r].0 == k2;
        lemma_lookup_at(s, k2, r);
        let r2 = if r == p { t.len() - 1 } else if r < p { r } else { r - 1 };
        assert(t[r2] == s[r]);
        lemma_lookup_at(t, k2, r2);
    } else {
        lemma_lookup_absent(s, k2);
        assert forall|i: int| 0 <= i < t.len() implies !(t[i].2 && t[i].0 == k2) by {
            let a = if i == t.len() - 1 { p } else if i < p { i } else { i + 1 };
            assert(t[i] == s[a]);
        }
        lemma_lookup_absent(t, k2);
    }
}

/// Law: the list is first in, first out: after appending `x`, the front is
/// the old front, or `x` when the list was empty, and taking the front off
/// leaves the rest in order followed by `x`.
pub proof fn law_first_in_first_out<K, E>(s: Seq<(K, E)>, x: (K, E))
    ensures
        s.push(x)[0] == (if s.len() > 0 {
            s[0]
        } else {
            x
        }),
        s.len() > 0 ==> s.push(x).drop_first() == s.drop_first().push(x),
{
    if s.len() > 0 {
        assert(s.push(x).drop_first() =~= s.drop_first().push(x));
    }
}

/// A node of the recency list: key, shared value and neighbour links.
struct ListNode<K, E> {
    k: K,
    e: Rc<E>,
    next: Option<usize>,
    before: Option<usize>,
}

/// The node in slot `id`.
spec fn slot_node<K, E>(slots: Seq<Option<ListNode<K, E>>>, id: int) -> ListNode<K, E> {
    slots[id]->Some_0
}

/// The slots along `order` hold nodes linked both ways from `head` to
/// `tail`; `pos` gives each slot's place in `order` (-1 off the list); the
/// slots in `free` are empty and listed once.
spec fn list_ok<K, E>(
    slots: Seq<Option<ListNode<K, E>>>,
    free: Seq<usize>,
    head: Option<usize>,
    tail: Option<usize>,
    order: Seq<usize>,
    pos: Seq<int>,
) -> bool {
    let n = order.len();
    &&& pos.len() == slots.len()
    &&& forall|i: int|
        0 <= i < n ==> #[trigger] order[i] < slots.len() && pos[order[i] as int] == i && slots[order[i] as int] is Some
    &&& forall|id: int|
        0 <= id < slots.len() ==> #[trigger] pos[id] >= -1 && (pos[id] >= 0 ==> pos[id] < n
            && order[pos[id]] == id)
    &&& forall|i: int|
        0 <= i < n ==> (#[trigger] slot_node(slots, order[i] as int)).next == (if i + 1 < n {
            Some(order[i + 1])
        } else {
            None::<usize>
        }) && slot_node(slots, order[i] as int).before == (if i > 0 {
            Some(order[i - 1])
        } else {
            None::<usize>
        })
    &&& head == (if n > 0 {
        Some(order[0])
    } else {
        None::<usize>
    })
    &&& tail == (if n > 0 {
        Some(order[n - 1])
    } else {
        None::<usize>
    })
    &&& forall|j: int| 0 <= j < free.len() ==> #[trigger] free[j] < slots.len() && slots[free[j] as int] is None
    &&& free.no_duplicates()
}

/// The (key, value) pairs along `order`.
spec fn entries_along<K, E>(slots: Seq<Option<ListNode<K, E>>>, order: Seq<usize>) -> Seq<(K, E)> {
    Seq::new(
        order.len(),
        |i: int| (slot_node(slots, order[i] as int).k, *slot_node(slots, order[i] as int).e),
    )
}

/// A doubly linked list of (key, value) entries. Nodes live in slots of an
/// arena; emptied slots are kept for reuse.
pub struct List<K: Copy, E> {
    slots: Vec<Option<ListNode<K, E>>>,
    free: Vec<usize>,
    head: Option<usize>,
    tail: Option<usize>,
    order: Ghost<Seq<usize>>,
    pos: Ghost<Seq<int>>,
}

/// The key and value of an entry taken from the cache or the list.
pub struct PopResult<K: Copy, E> {
    k: K,
    e: Rc<E>,
}

impl<K: Copy, E> PopResult<K, E> {
    /// The key of the entry.
    pub closed spec fn spec_key(&self) -> K {
        self.k
    }

    /// The value of the entry.
    pub closed spec fn spec_value(&self) -> E {
        *self.e
    }

    /// The entry of `node`; the value is shared, not copied.
    fn new(node: &ListNode<K, E>) -> (r: Self)
        ensures
            r.k == node.k,
            *r.e == *node.e,
    {
        PopResult { k: node.k, e: share(&node.e) }
    }

    /// The key of the entry.
    pub fn key(&self) -> (r: K)
        ensures
            r == self.spec_key(),
    {
        self.k
    }
}

impl<K: Copy, E> std::ops::Deref for PopResult<K, E> {
    type Target = E;

    fn deref(&self) -> (r: &E)
        ensures
            *r == self.spec_value(),
    {
        &*self.e
    }
}

/// `Rc::clone`: another pointer to the same value, so the value seen through
/// it equals the value seen through `r`.
#[verifier::external_body]
fn share<E>(r: &Rc<E>) -> (s: Rc<E>)
    ensures
        *s == **r,
{
    Rc::clone(r)
}

impl<K: Copy, E> List<K, E> {
    pub closed spec fn wf(&self) -> bool {
        list_ok(self.slots@, self.free@, self.head, self.tail, self.order@, self.pos@)
    }

    pub closed spec fn view(&self) -> Seq<(K, E)> {
        entries_along(self.slots@, self.order@)
    }

    /// The slots along the list, first to last.
    pub closed spec fn listed(&self) -> Seq<usize> {
        self.order@
    }

    /// Slot `id` holds a node that is not on the list.
    pub closed spec fn detached(&self, id: int) -> bool {
        &&& 0 <= id < self.slots@.len()
        &&& self.slots@[id] is Some
        &&& self.pos@[id] == -1
    }

    /// Slot `id` holds a node on the list.
    pub closed spec fn on_list(&self, id: int) -> bool {
        0 <= id < self.slots@.len() && self.pos@[id] >= 0
    }

    pub closed spec fn entry(&self, id: int) -> (K, E) {
        (slot_node(self.slots@, id).k, *slot_node(self.slots@, id).e)
    }

    pub fn new() -> (r: Self)
        ensures
            r.wf(),
            r.view() == Seq::<(K, E)>::empty(),
            r.listed() == Seq::<usize>::empty(),
    {
        let r = List {
            slots: Vec::new(),
            free: Vec::new(),
            head: None,
            tail: None,
            order: Ghost(Seq::empty()),
            pos: Ghost(Seq::empty()),
        };
        assert(r.view() =~= Seq::<(K, E)>::empty());
        r
    }

    /// Sets the `next` link of the node in slot `id`.
    fn set_next(&mut self, id: usize, next: Option<usize>)
        requires
            id < old(self).slots@.len(),
            old(self).slots@[id as int] is Some,
        ensures
            final(self).slots@.len() == old(self).slots@.len(),
            final(self).slots@[id as int] is Some,
            slot_node(final(self).slots@, id as int).next == next,
            slot_node(final(self).slots@, id as int).before == slot_node(old(self).slots@, id as int).before,
            slot_node(final(self).slots@, id as int).k == slot_node(old(self).slots@, id as int).k,
            slot_node(final(self).slots@, id as int).e == slot_node(old(self).slots@, id as int).e,
            forall|x: int| 0 <= x < old(self).slots@.len() && x != id ==> final(self).slots@[x] == old(self).slots@[x],
            final(self).free == old(self).free,
            final(self).head == old(self).head,
            final(self).tail == old(self).tail,
            final(self).order == old(self).order,
            final(self).pos == old(self).pos,
    {
        match &mut self.slots[id] {
            Some(n) => {
                n.next = next;
            },
            None => {},
        }
    }

    /// Sets the `before` link of the node in slot `id`.
    fn set_before(&mut self, id: usize, before: Option<usize>)
        requires
            id < old(self).slots@.len(),
            old(self).slots@[id as int] is Some,
        ensures
            final(self).slots@.len() == old(self).slots@.len(),
            final(self).slots@[id as int] is Some,
            slot_node(final(self).slots@, id as int).before == before,
            slot_node(final(self).slots@, id as int).next == slot_node(old(self).slots@, id as int).next,
            slot_node(final(self).slots@, id as int).k == slot_node(old(self).slots@, id as int).k,
            slot_node(final(self).slots@, id as int).e == slot_node(old(self).slots@, id as int).e,
            forall|x: int| 0 <= x < old(self).slots@.len() && x != id ==> final(self).slots@[x] == old(self).slots@[x],
            final(self).free == old(self).free,
            final(self).head == old(self).head,
            final(self).tail == old(self).tail,
            final(self).order == old(self).order,
            final(self).pos == old(self).pos,
    {
        match &mut self.slots[id] {
            Some(n) => {
                n.before = before;
            },
            None => {},
        }
    }

    /// Places a new node holding `k` and `e` in a free slot, off the list.
    fn allot(&mut self, k: K, e: Rc<E>) -> (id: usize)
        requires
            old(self).wf(),
        ensures
            final(self).wf(),
            final(self).order == old(self).order,
            final(self).view() == old(self).view(),
            final(self).detached(id as int),
            final(self).entry(id as int) == (k, *e),
            !old(self).on_list(id as int),
            forall|x: int|
                0 <= x < old(self).slots@.len() && x != id ==> final(self).slots@[x] == old(self).slots@[x]
                    && final(self).pos@[x] == old(self).pos@[x],
    {
        let node = ListNode { k, e, next: None, before: None };
        let ghost pre = *self;
        match self.free.pop() {
            Some(id) => {
                assert(pre.free@[pre.free@.len() - 1] == id);
                assert(pre.pos@[id as int] == -1) by {
                    if pre.pos@[id as int] >= 0 {
                        let q = pre.pos@[id as int];
                        assert(pre.order@[q] == id);
                    }
                }
                self.slots.set(id, Some(node));
                assert forall|j: int| 0 <= j < self.free@.len() implies #[trigger] self.free@[j] < self.slots@.len()
                    && self.slots@[self.free@[j] as int] is None by {
                    assert(pre.free@[j] == self.free@[j]);
                    assert(pre.free@[j] != pre.free@[pre.free@.len() - 1]);
                }
                assert(self.view() =~= pre.view()) by {
                    assert forall|i: int| 0 <= i < pre.order@.len() implies pre.order@[i] != id by {
                        assert(pre.pos@[pre.order@[i] as int] == i);
                    }
                }
                assert forall|i: int| 0 <= i < pre.order@.len() implies #[trigger] slot_node(
                    self.slots@,
                    pre.order@[i] as int,
                ) == slot_node(pre.slots@, pre.order@[i] as int) by {
                    assert(pre.pos@[pre.order@[i] as int] == i);
                }
                id
            },
            None => {
                let id = self.slots.len();
                self.slots.push(Some(node));
                self.pos = Ghost(pre.pos@.push(-1));
                assert forall|i: int| 0 <= i < pre.order@.len() implies #[trigger] slot_node(
                    self.slots@,
                    pre.order@[i] as int,
                ) == slot_node(pre.slots@, pre.order@[i] as int) by {
                    assert(pre.order@[i] < pre.slots@.len());
                }
                assert(self.view() =~= pre.view());
                id
            },
        }
    }

    /// Empties the slot of a node that is off the list, for reuse.
    fn release(&mut self, id: usize)
        requires
            old(self).wf(),
            old(self).detached(id as int),
        ensures
            final(self).wf(),
            final(self).order == old(self).order,
            final(self).pos == old(self).pos,
            final(self).view() == old(self).view(),
            forall|x: int| 0 <= x < old(self).slots@.len() && x != id ==> final(self).slots@[x] == old(self).slots@[x],
            final(self).slots@.len() == old(self).slots@.len(),
            final(self).slots@[id as int] is None,
            final(self).free@ == old(self).free@.push(id),
    {
        let ghost pre = *self;
        self.slots.set(id, None);
        self.free.push(id);
        assert forall|i: int| 0 <= i < pre.order@.len() implies #[trigger] slot_node(
            self.slots@,
            pre.order@[i] as int,
        ) == slot_node(pre.slots@, pre.order@[i] as int) && pre.order@[i] != id by {
            assert(pre.pos@[pre.order@[i] as int] == i);
        }
        assert forall|j: int| 0 <= j < self.free@.len() implies #[trigger] self.free@[j] < self.slots@.len()
            && self.slots@[self.free@[j] as int] is None by {
            if j < pre.free@.len() {
                assert(self.free@[j] == pre.free@[j]);
            }
        }
        assert(self.free@.no_duplicates()) by {
            assert forall|a: int, b: int| 0 <= a < b < self.free@.len() implies self.free@[a] != self.free@[b] by {
                if b == pre.free@.len() {
                    assert(pre.slots@[pre.free@[a] as int] is None);
                }
            }
        }
        assert(self.view() =~= pre.view());
    }

    /// Links a node that is off the list in as the last node.
    fn push_node_back(&mut self, node: usize)
        requires
            old(self).wf(),
            old(self).detached(node as int),
        ensures
            final(self).wf(),
            final(self).order@ == old(self).order@.push(node),
            final(self).view() == old(self).view().push(old(self).entry(node as int)),
            final(self).slots@.len() == old(self).slots@.len(),
            forall|x: int|
                0 <= x < old(self).slots@.len() ==> #[trigger] final(self).slots@[x] is Some == old(
                    self,
                ).slots@[x] is Some && (final(self).slots@[x] is Some ==> final(self).entry(x) == old(
                    self,
                ).entry(x)),
            forall|x: int|
                0 <= x < old(self).slots@.len() && x != node ==> #[trigger] final(self).pos@[x] == old(
                    self,
                ).pos@[x],
            final(self).pos@[node as int] == old(self).order@.len(),
    {
        let ghost pre = *self;
        let ghost n = pre.order@.len();
        match self.tail {
            None => {
                self.set_next(node, None);
                self.set_before(node, None);
                self.head = Some(node);
                self.tail = Some(node);
            },
            Some(t) => {
                assert(pre.order@[n - 1] == t);
                self.set_next(node, None);
                self.set_before(node, Some(t));
                self.set_next(t, Some(node));
                self.tail = Some(node);
            },
        }
        proof {
            self.order = Ghost(pre.order@.push(node));
            self.pos = Ghost(pre.pos@.update(node as int, n as int));
            assert forall|i: int| 0 <= i < n implies pre.order@[i] != node by {
                assert(pre.pos@[pre.order@[i] as int] == i);
            }
            assert forall|i: int| 0 <= i < n + 1 implies (#[trigger] slot_node(self.slots@, self.order@[i] as int)).next
                == (if i + 1 < n + 1 {
                Some(self.order@[i + 1])
            } else {
                None::<usize>
            }) && slot_node(self.slots@, self.order@[i] as int).before == (if i > 0 {
                Some(self.order@[i - 1])
            } else {
                None::<usize>
            }) by {
                if i < n {
                    let x = pre.order@[i];
                    assert(self.order@[i] == x);
                    assert(pre.pos@[x as int] == i);
                    let pn = slot_node(pre.slots@, x as int);
                    assert(pn.before == (if i > 0 {
                        Some(pre.order@[i - 1])
                    } else {
                        None::<usize>
                    }));
                    assert(x != node);
                    if i < n - 1 {
                        assert(pre.pos@[pre.order@[n - 1] as int] == n - 1);
                        assert(x != pre.order@[n - 1]);
                        assert(self.slots@[x as int] == pre.slots@[x as int]);
                    } else {
                        assert(x == pre.order@[n - 1]);
                    }
                }
            }
            assert forall|j: int| 0 <= j < self.free@.len() implies #[trigger] self.free@[j] < self.slots@.len()
                && self.slots@[self.free@[j] as int] is None by {
                assert(pre.slots@[pre.free@[j] as int] is None);
            }
            assert forall|i: int| 0 <= i < n + 1 implies #[trigger] self.order@[i] < self.slots@.len()
                && self.pos@[self.order@[i] as int] == i && self.slots@[self.order@[i] as int] is Some by {
                if i < n {
                    assert(pre.pos@[pre.order@[i] as int] == i);
                }
            }
            assert(self.view() =~= pre.view().push(pre.entry(node as int))) by {
                assert forall|i: int| 0 <= i < n implies #[trigger] slot_node(self.slots@, pre.order@[i] as int).k
                    == slot_node(pre.slots@, pre.order@[i] as int).k && slot_node(
                    self.slots@,
                    pre.order@[i] as int,
                ).e == slot_node(pre.slots@, pre.order@[i] as int).e by {
                    assert(pre.pos@[pre.order@[i] as int] == i);
                }
            }
        }
    }

    /// Appends a new entry at the back.
    pub fn push_back(&mut self, key: K, e: E)
        requires
            old(self).wf(),
        ensures
            final(self).wf(),
            final(self).view() == old(self).view().push((key, e)),
    {
        let node = self.allot(key, Rc::new(e));
        self.push_node_back(node);
    }

    /// Unlinks a node from the list; it stays in its slot, off the list.
    fn remove(&mut self, node: usize)
        requires
            old(self).wf(),
            old(self).on_list(node as int),
        ensures
            final(self).wf(),
            final(self).order@ == old(self).order@.remove(old(self).pos@[node as int]),
            final(self).view() == old(self).view().remove(old(self).pos@[node as int]),
            final(self).detached(node as int),
            final(self).entry(node as int) == old(self).entry(node as int),
            final(self).slots@.len() == old(self).slots@.len(),
            forall|x: int|
                0 <= x < old(self).slots@.len() ==> #[trigger] final(self).slots@[x] is Some == old(
                    self,
                ).slots@[x] is Some && (final(self).slots@[x] is Some ==> final(self).entry(x) == old(
                    self,
                ).entry(x)),
            forall|x: int|
                0 <= x < old(self).slots@.len() && x != node ==> #[trigger] final(self).pos@[x] == (if old(
                    self,
                ).pos@[x] > old(self).pos@[node as int] {
                    old(self).pos@[x] - 1
                } else {
                    old(self).pos@[x]
                }),
    {
        let ghost pre = *self;
        let ghost p = pre.pos@[node as int];
        let ghost n = pre.order@.len() as int;
        assert(pre.order@[p] == node);
        let (before, next) = match &self.slots[node] {
            Some(current) => (current.before, current.next),
            None => (None, None),
        };
        assert(before == slot_node(pre.slots@, pre.order@[p] as int).before);
        match before {
            Some(b) => {
                self.set_next(b, next);
            },
            None => {},
        }
        match next {
            Some(nx) => {
                self.set_before(nx, before);
            },
            None => {},
        }
        if self.head == Some(node) {
            self.head = next;
        }
        if self.tail == Some(node) {
            self.tail = before;
        }
        self.set_next(node, None);
        self.set_before(node, None);
        proof {
            let o2 = pre.order@.remove(p);
            self.order = Ghost(o2);
            self.pos = Ghost(
                Seq::new(
                    pre.pos@.len(),
                    |x: int|
                        if x == node {
                            -1
                        } else if pre.pos@[x] > p {
                            pre.pos@[x] - 1
                        } else {
                            pre.pos@[x]
                        },
                ),
            );
            pre.order@.remove_ensures(p);
            // every other listed node keeps its slot except for the links of its neighbours
            assert forall|i: int| 0 <= i < n - 1 implies #[trigger] o2[i] < self.slots@.len() && self.pos@[o2[i] as int]
                == i && self.slots@[o2[i] as int] is Some by {
                if i < p {
                    assert(o2[i] == pre.order@[i]);
                    assert(pre.pos@[pre.order@[i] as int] == i);
                } else {
                    assert(o2[i] == pre.order@[i + 1]);
                    assert(pre.pos@[pre.order@[i + 1] as int] == i + 1);
                }
            }
            assert forall|id: int| 0 <= id < self.slots@.len() implies #[trigger] self.pos@[id] >= -1 && (
            self.pos@[id] >= 0 ==> self.pos@[id] < n - 1 && o2[self.pos@[id]] == id) by {
                if id != node && pre.pos@[id] >= 0 {
                    assert(pre.order@[pre.pos@[id]] == id);
                    if pre.pos@[id] > p {
                        assert(o2[pre.pos@[id] - 1] == pre.order@[pre.pos@[id]]);
                    } else {
                        assert(pre.pos@[id] != p);
                    }
                }
            }
            assert forall|i: int| 0 <= i < n - 1 implies (#[trigger] slot_node(self.slots@, o2[i] as int)).next
                == (if i + 1 < n - 1 {
                Some(o2[i + 1])
            } else {
                None::<usize>
            }) && slot_node(self.slots@, o2[i] as int).before == (if i > 0 {
                Some(o2[i - 1])
            } else {
                None::<usize>
            }) by {
                let j = if i < p {
                    i
                } else {
                    i + 1
                };
                let x = pre.order@[j];
                assert(o2[i] == x);
                assert(pre.pos@[x as int] == j);
                let pn = slot_node(pre.slots@, x as int);
                assert(pn.next == (if j + 1 < n {
                    Some(pre.order@[j + 1])
                } else {
                    None::<usize>
                }));
                assert(pn.before == (if j > 0 {
                    Some(pre.order@[j - 1])
                } else {
                    None::<usize>
                }));
                assert(x != node);
                if i + 1 < n - 1 {
                    if i + 1 < p {
                        assert(o2[i + 1] == pre.order@[i + 1]);
                    } else {
                        assert(o2[i + 1] == pre.order@[i + 2]);
                    }
                }
                if i > 0 {
                    if i - 1 < p {
                        assert(o2[i - 1] == pre.order@[i - 1]);
                    } else {
                        assert(o2[i - 1] == pre.order@[i]);
                    }
                }
                if p > 0 {
                    assert(pre.pos@[pre.order@[p - 1] as int] == p - 1);
                }
                if p + 1 < n {
                    assert(pre.pos@[pre.order@[p + 1] as int] == p + 1);
                }
            }
            assert forall|j: int| 0 <= j < self.free@.len() implies #[trigger] self.free@[j] < self.slots@.len()
                && self.slots@[self.free@[j] as int] is None by {
                assert(pre.slots@[pre.free@[j] as int] is None);
            }
            if n > 1 {
                if p == 0 {
                    assert(pre.pos@[pre.order@[1] as int] == 1);
                }
                if p == n - 1 {
                    assert(pre.pos@[pre.order@[n - 2] as int] == n - 2);
                }
                assert(pre.pos@[pre.order@[0] as int] == 0);
                assert(pre.pos@[pre.order@[n - 1] as int] == n - 1);
            }
            assert(self.view() =~= pre.view().remove(p)) by {
                assert forall|i: int| 0 <= i < n - 1 implies #[trigger] slot_node(self.slots@, o2[i] as int).k
                    == slot_node(pre.slots@, o2[i] as int).k && slot_node(self.slots@, o2[i] as int).e
                    == slot_node(pre.slots@, o2[i] as int).e by {
                    if i < p {
                        assert(o2[i] == pre.order@[i]);
                    } else {
                        assert(o2[i] == pre.order@[i + 1]);
                    }
                }
            }
        }
    }

    /// Unlinks the first node and empties its slot; returns its entry.
    pub fn pop_front(&mut self) -> (r: Option<PopResult<K, E>>)
        requires
            old(self).wf(),
        ensures
            final(self).wf(),
            match r {
                None => old(self).view().len() == 0 && final(self).view() == old(self).view(),
                Some(res) => old(self).view().len() > 0 && (res.spec_key(), res.spec_value()) == old(
                    self,
                ).view()[0] && final(self).view() == old(self).view().drop_first(),
            },
            old(self).listed().len() > 0 ==> final(self).listed() == old(self).listed().drop_first(),
            old(self).listed().len() == 0 ==> final(self).listed() == old(self).listed(),
            forall|x: int|
                old(self).on_list(x) && x != old(self).listed()[0] ==> #[trigger] final(self).on_list(x)
                    && final(self).entry(x) == old(self).entry(x),
    {
        let head = self.head.take();
        match head {
            None => None,
            Some(n) => {
                self.head = Some(n);
                let ghost pre = *self;
                assert(pre.pos@[pre.order@[0] as int] == 0);
                let res = PopResult::new(self.slots[n].as_ref().unwrap());
                self.remove(n);
                self.release(n);
                assert(pre.view().remove(0) =~= pre.view().drop_first());
                assert(pre.order@.remove(0) =~= pre.order@.drop_first());
                Some(res)
            },
        }
    }
}

/// A cache of values by `u64` key that, when it holds `capacity` keys (and
/// the capacity is not 0), makes room by taking off the least recently
/// queued entry and forgetting its key. Putting a key it holds queues a new
/// entry and leaves the old one queued, no longer reachable by its key.
pub struct LRUBLockCache<E> {
    map: HashMap<u64, usize>,
    list: List<u64, E>,
    capacity: usize,
}

impl<E> View for LRUBLockCache<E> {
    type V = Seq<(u64, E, bool)>;

    /// The queued entries, least recently used first, each with whether the
    /// key map points at it.
    closed spec fn view(&self) -> Seq<(u64, E, bool)> {
        let lv = self.list.view();
        Seq::new(lv.len(), |i: int| (lv[i].0, lv[i].1, self.is_live(self.list.order@[i] as int)))
    }
}

impl<E> LRUBLockCache<E> {
    /// The key of the node in slot `id`.
    closed spec fn key_of(&self, id: int) -> u64 {
        slot_node(self.list.slots@, id).k
    }

    /// The key map points at the node in slot `id`.
    closed spec fn is_live(&self, id: int) -> bool {
        self.map@.contains_key(self.key_of(id)) && self.map@[self.key_of(id)] as int == id
    }

    /// The map sends each key it holds to a queued node with that key, and
    /// holds as many keys as there are live entries.
    pub closed spec fn wf(&self) -> bool {
        &&& self.list.wf()
        &&& forall|k: u64|
            #[trigger] self.map@.contains_key(k) ==> self.list.on_list(self.map@[k] as int)
                && self.key_of(self.map@[k] as int) == k
        &&& self.map@.dom().finite()
        &&& self.map@.len() == live_count(self@)
    }

    /// The number of keys the cache holds before it evicts.
    pub closed spec fn spec_capacity(&self) -> nat {
        self.capacity as nat
    }

    /// What the key map says of the entries.
    proof fn lemma_live_facts(&self)
        requires
            self.list.wf(),
            forall|k: u64|
                #[trigger] self.map@.contains_key(k) ==> self.list.on_list(self.map@[k] as int)
                    && self.key_of(self.map@[k] as int) == k,
        ensures
            live_keys_distinct(self@),
            self@.len() == self.list.order@.len(),
            forall|i: int|
                0 <= i < self@.len() ==> #[trigger] self@[i].0 == self.key_of(self.list.order@[i] as int)
                    && self@[i].2 == self.is_live(self.list.order@[i] as int),
            forall|k: u64|
                #[trigger] self.map@.contains_key(k) ==> 0 <= self.list.pos@[self.map@[k] as int] < self@.len()
                    && self.list.order@[self.list.pos@[self.map@[k] as int]] == self.map@[k]
                    && self@[self.list.pos@[self.map@[k] as int]].2
                    && self@[self.list.pos@[self.map@[k] as int]].0 == k,
            forall|k: u64|
                !self.map@.contains_key(k) ==> forall|i: int| 0 <= i < self@.len() ==> !(#[trigger] self@[i].2 && self@[i].0 == k),
    {
        let s = self@;
        assert forall|i: int, j: int| 0 <= i < j < s.len() && s[i].2 && s[j].2 implies s[i].0 != s[j].0 by {
            let a = self.list.order@[i];
            let b = self.list.order@[j];
            assert(self.list.pos@[a as int] == i);
            assert(self.list.pos@[b as int] == j);
        }
    }

    /// Law: no key has two live entries in a well-formed cache.
    pub proof fn law_live_keys_distinct(&self)
        requires
            self.wf(),
        ensures
            live_keys_distinct(self@),
    {
        self.lemma_live_facts();
    }

    /// An empty cache.
    pub fn new(capacity: usize) -> (r: Self)
        ensures
            r.wf(),
            r@ == Seq::<(u64, E, bool)>::empty(),
            live_keys_distinct(r@),
            r.spec_capacity() == capacity,
    {
        let r = LRUBLockCache { map: HashMap::new(), list: List::new(), capacity };
        assert(r.map@.dom() =~= Set::<u64>::empty());
        assert(r@ =~= Seq::<(u64, E, bool)>::empty());
        r
    }

    /// When the cache holds `capacity` keys, takes off the least recently
    /// queued entry and forgets its key.
    fn evict_if_full(&mut self)
        requires
            old(self).wf(),
        ensures
            final(self).wf(),
            final(self)@ == evicted(old(self)@, old(self).spec_capacity()),
            final(self).spec_capacity() == old(self).spec_capacity(),
    {
        broadcast use vstd::std_specs::hash::group_hash_axioms;

        if self.map.len() == self.capacity {
            let ghost pre = *self;
            let ghost s = pre@;
            proof {
                pre.lemma_live_facts();
            }
            let node = self.list.pop_front();
            if node.is_some() {
                let k = node.unwrap().key();
                let ghost h = pre.list.order@[0];
                assert(pre.list.pos@[h as int] == 0);
                assert(s[0].0 == k);
                self.map.remove(&k);
                proof {
                    let t = s.drop_first();
                    assert(self@ =~= forget_key(t, k)) by {
                        assert forall|i: int| 0 <= i < t.len() implies self@[i] == forget_key(t, k)[i] by {
                            let x = pre.list.order@[i + 1];
                            assert(self.list.order@[i] == x);
                            assert(pre.list.on_list(x as int));
                            assert(x != h);
                            assert(self.list.on_list(x as int));
                            assert(self.list.entry(x as int) == pre.list.entry(x as int));
                            assert(t[i] == s[i + 1]);
                        }
                    }
                    assert forall|k2: u64| #[trigger] self.map@.contains_key(k2) implies self.list.on_list(
                        self.map@[k2] as int,
                    ) && self.key_of(self.map@[k2] as int) == k2 by {
                        let x = pre.map@[k2];
                        assert(pre.list.on_list(x as int));
                        assert(x != h);
                        assert(self.list.on_list(x as int));
                        assert(self.list.entry(x as int) == pre.list.entry(x as int));
                    }
                    assert(live_keys_distinct(t)) by {
                        assert forall|i: int, j: int| 0 <= i < j < t.len() && t[i].2 && t[j].2 implies t[i].0
                            != t[j].0 by {
                            assert(t[i] == s[i + 1] && t[j] == s[j + 1]);
                        }
                    }
                    lemma_live_count_remove(s, 0);
                    assert(s.remove(0) =~= t);
                    lemma_forget_key(t, k);
                    if pre.map@.contains_key(k) {
                        let q = pre.list.pos@[pre.map@[k] as int];
                        if q > 0 {
                            assert(t[q - 1] == s[q]);
                            if s[0].2 {
                                assert(s[0].0 != s[q].0);
                            }
                        } else {
                            assert forall|p: int| 0 <= p < t.len() implies !(t[p].2 && t[p].0 == k) by {
                                assert(t[p] == s[p + 1]);
                                if t[p].2 && t[p].0 == k {
                                    assert(s[0].0 != s[p + 1].0);
                                }
                            }
                        }
                    } else {
                        assert forall|p: int| 0 <= p < t.len() implies !(t[p].2 && t[p].0 == k) by {
                            assert(t[p] == s[p + 1]);
                        }
                    }
                }
            } else {
                proof {
                    assert(self@ =~= s);
                }
            }
        }
    }

    /// Queues `e` under `key` as the most recently used entry; the key map
    /// now points at it, and an earlier entry of `key` stays queued.
    fn append(&mut self, key: u64, e: E)
        requires
            old(self).wf(),
        ensures
            final(self).wf(),
            final(self)@ == forget_key(old(self)@, key).push((key, e, true)),
            final(self).spec_capacity() == old(self).spec_capacity(),
    {
        broadcast use vstd::std_specs::hash::group_hash_axioms;

        let ghost pre = *self;
        let ghost s = pre@;
        proof {
            pre.lemma_live_facts();
            lemma_forget_key(s, key);
        }
        let node = self.list.allot(key, Rc::new(e));
        self.map.insert(key, node);
        self.list.push_node_back(node);
        proof {
            let n = s.len() as int;
            assert(self@ =~= forget_key(s, key).push((key, e, true))) by {
                assert forall|i: int| 0 <= i < n implies self@[i] == forget_key(s, key)[i] by {
                    let x = pre.list.order@[i];
                    assert(self.list.order@[i] == x);
                    assert(pre.list.pos@[x as int] == i);
                    assert(x != node);
                    assert(self.list.entry(x as int) == pre.list.entry(x as int));
                }
                assert(self.list.order@[n] == node);
            }
            assert forall|k2: u64| #[trigger] self.map@.contains_key(k2) implies self.list.on_list(
                self.map@[k2] as int,
            ) && self.key_of(self.map@[k2] as int) == k2 by {
                if k2 != key {
                    let x = pre.map@[k2];
                    assert(pre.list.on_list(x as int));
                    assert(x != node);
                    assert(self.list.entry(x as int) == pre.list.entry(x as int));
                }
            }
            lemma_live_count_push(forget_key(s, key), (key, e, true));
            if pre.map@.contains_key(key) {
                let q = pre.list.pos@[pre.map@[key] as int];
                assert(s[q].2 && s[q].0 == key);
            }
        }
    }

    /// Queues `e` under `key` as the most recently used entry. When the cache
    /// already holds `capacity` keys, it first takes off the least recently
    /// queued entry and forgets that entry's key. An earlier entry of `key`
    /// stays queued, no longer reachable by its key, until eviction reaches
    /// it.
    pub fn put(&mut self, key: u64, e: E)
        requires
            old(self).wf(),
        ensures
            final(self).wf(),
            final(self)@ == put_model(old(self)@, old(self).spec_capacity(), key, e),
            live_keys_distinct(final(self)@),
            final(self).spec_capacity() == old(self).spec_capacity(),
    {
        self.evict_if_full();
        self.append(key, e);
        proof {
            self.lemma_live_facts();
        }
    }

    /// The entry of `k`, if there is one; it becomes the most recently used.
    pub fn get(&mut self, k: u64) -> (r: Option<PopResult<u64, E>>)
        requires
            old(self).wf(),
        ensures
            final(self).wf(),
            final(self)@ == touched(old(self)@, k),
            live_keys_distinct(final(self)@),
            final(self).spec_capacity() == old(self).spec_capacity(),
            match r {
                Some(res) => res.spec_key() == k && lookup(old(self)@, k) == Some(res.spec_value()),
                None => lookup(old(self)@, k) is None,
            },
    {
        broadcast use vstd::std_specs::hash::group_hash_axioms;

        let ghost s0 = self@;
        proof {
            self.lemma_live_facts();
        }
        let ghost pre = *self;
        let index_option = self.map.get(&k);
        if index_option.is_some() {
            let i = *index_option.unwrap();
            let ghost p = self.list.pos@[i as int];
            assert(self.list.order@[p] == i);
            assert(s0[p].0 == k && s0[p].2);
            proof {
                lemma_touch_at(s0, k, p, k);
            }
            self.list.remove(i);
            self.list.push_node_back(i);
            let res = PopResult::new(self.list.slots[i].as_ref().unwrap());
            proof {
                assert(self.list.order@ =~= pre.list.order@.remove(p).push(i));
                assert(self@ =~= s0.remove(p).push(s0[p])) by {
                    assert forall|j: int| 0 <= j < self@.len() implies self@[j] == s0.remove(p).push(s0[p])[j] by {
                        let jj = if j < p {
                            j
                        } else if j < s0.len() - 1 {
                            j + 1
                        } else {
                            p
                        };
                        let x = pre.list.order@[jj];
                        assert(self.list.order@[j] == x);
                        assert(self.list.entry(x as int) == pre.list.entry(x as int));
                    }
                }
                assert forall|k2: u64| #[trigger] self.map@.contains_key(k2) implies self.list.on_list(
                    self.map@[k2] as int,
                ) && self.key_of(self.map@[k2] as int) == k2 by {
                    let x = pre.map@[k2];
                    assert(pre.list.on_list(x as int));
                    assert(self.list.entry(x as int) == pre.list.entry(x as int));
                }
                lemma_lookup_at(s0, k, p);
            }
            Some(res)
        } else {
            proof {
                assert(!exists|p: int| 0 <= p < s0.len() && s0[p].2 && s0[p].0 == k);
                lemma_lookup_absent(s0, k);
            }
            None
        }
    }
}

} // verus!
