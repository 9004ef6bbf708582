//! The mathematical model of an ordered map: a sequence of `(key, value)`
//! pairs, and the laws of reading and writing it.

use vstd::prelude::*;

verus! {

/// Keys increase strictly along the sequence, so no key occurs twice.
pub open spec fn strictly_sorted<V>(s: Seq<(i64, V)>) -> bool {
    forall|i: int, j: int| 0 <= i < j < s.len() ==> s[i].0 < s[j].0
}

/// The value stored under `k`: the first pair whose key is `k`.
pub open spec fn get_entry<V>(s: Seq<(i64, V)>, k: i64) -> Option<V>
    decreases s.len(),
{
    if s.len() == 0 {
        None
    } else if s[0].0 == k {
        Some(s[0].1)
    } else {
        get_entry(s.drop_first(), k)
    }
}

/// Writing `v` under `k`: the pair is replaced where the key is found, or
/// inserted before the first larger key.
pub open spec fn put_entry<V>(s: Seq<(i64, V)>, k: i64, v: V) -> Seq<(i64, V)>
    decreases s.len(),
{
    if s.len() == 0 {
        seq![(k, v)]
    } else if k < s[0].0 {
        seq![(k, v)] + s
    } else if k == s[0].0 {
        s.update(0, (k, v))
    } else {
        seq![s[0]] + put_entry(s.drop_first(), k, v)
    }
}

/// In a sorted sequence, writing at the position where `k` belongs is an
/// update of the pair found there or an insertion before it.
pub proof fn lemma_put_at<V>(s: Seq<(i64, V)>, k: i64, v: V, p: int)
    requires
        strictly_sorted(s),
        0 <= p <= s.len(),
        forall|i: int| 0 <= i < p ==> s[i].0 < k,
        p < s.len() ==> s[p].0 >= k,
    ensures
        put_entry(s, k, v) == (if p < s.len() && s[p].0 == k {
            s.update(p, (k, v))
        } else {
            s.insert(p, (k, v))
        }),
    decreases s.len(),
{
    if s.len() == 0 {
        assert(s.insert(p, (k, v)) =~= seq![(k, v)]);
    } else if p == 0 {
        if k < s[0].0 {
            assert(s.insert(0, (k, v)) =~= seq![(k, v)] + s);
        }
    } else {
        let t = s.drop_first();
        lemma_put_at(t, k, v, p - 1);
        if p < s.len() && s[p].0 == k {
            assert(seq![s[0]] + t.update(p - 1, (k, v)) =~= s.update(p, (k, v)));
        } else {
            assert(seq![s[0]] + t.insert(p - 1, (k, v)) =~= s.insert(p, (k, v)));
        }
    }
}

/// In a sorted sequence, the value under a key found at position `p` is the
/// value stored there.
pub proof fn lemma_get_at<V>(s: Seq<(i64, V)>, k: i64, p: int)
    requires
        strictly_sorted(s),
        0 <= p < s.len(),
        s[p].0 == k,
    ensures
        get_entry(s, k) == Some(s[p].1),
    decreases s.len(),
{
    if p > 0 {
        lemma_get_at(s.drop_first(), k, p - 1);
    }
}

/// A key that no pair carries has no value.
pub proof fn lemma_get_absent<V>(s: Seq<(i64, V)>, k: i64)
    requires
        forall|i: int| 0 <= i < s.len() ==> s[i].0 != k,
    ensures
        get_entry(s, k) is None,
    decreases s.len(),
{
    if s.len() > 0 {
        lemma_get_absent(s.drop_first(), k);
    }
}

/// Writing keeps every key above a bound that `k` and all old keys exceed.
proof fn lemma_put_above<V>(s: Seq<(i64, V)>, k: i64, v: V, b: i64)
    requires
        k > b,
        forall|i: int| 0 <= i < s.len() ==> s[i].0 > b,
    ensures
        forall|i: int| 0 <= i < put_entry(s, k, v).len() ==> put_entry(s, k, v)[i].0 > b,
    decreases s.len(),
{
    let r = put_entry(s, k, v);
    if s.len() == 0 {
        assert(r =~= seq![(k, v)]);
    } else if k < s[0].0 {
        assert forall|i: int| 0 <= i < r.len() implies r[i].0 > b by {
            if i > 0 {
                assert(r[i] == s[i - 1]);
            }
        }
    } else if k > s[0].0 {
        let t = s.drop_first();
        lemma_put_above(t, k, v, b);
        assert forall|i: int| 0 <= i < r.len() implies r[i].0 > b by {
            if i > 0 {
                assert(r[i] == put_entry(t, k, v)[i - 1]);
            }
        }
    }
}

/// Law: a read of the key just written gives the value written.
pub proof fn law_get_after_put<V>(s: Seq<(i64, V)>, k: i64, v: V)
    ensures
        get_entry(put_entry(s, k, v), k) == Some(v),
    decreases s.len(),
{
    if s.len() > 0 && k > s[0].0 {
        law_get_after_put(s.drop_first(), k, v);
        assert((seq![s[0]] + put_entry(s.drop_first(), k, v)).drop_first() =~= put_entry(
            s.drop_first(),
            k,
            v,
        ));
    }
}

/// Law: a write leaves every other key's value as it was.
pub proof fn law_get_other_after_put<V>(s: Seq<(i64, V)>, k: i64, v: V, other: i64)
    requires
        other != k,
    ensures
        get_entry(put_entry(s, k, v), other) == get_entry(s, other),
    decreases s.len(),
{
    let r = put_entry(s, k, v);
    if s.len() == 0 {
        assert(r.drop_first() =~= Seq::<(i64, V)>::empty());
        assert(get_entry(r, other) == get_entry(r.drop_first(), other));
    } else {
        if k < s[0].0 {
            assert(r.drop_first() =~= s);
            assert(get_entry(r, other) == get_entry(r.drop_first(), other));
        } else if k == s[0].0 {
            assert(r.drop_first() =~= s.drop_first());
            assert(get_entry(r, other) == get_entry(r.drop_first(), other));
        } else {
            law_get_other_after_put(s.drop_first(), k, v, other);
            assert(r.drop_first() =~= put_entry(s.drop_first(), k, v));
            assert(r[0] == s[0]);
        }
    }
}

/// Law: a write keeps the keys strictly sorted.
pub proof fn law_put_keeps_sorted<V>(s: Seq<(i64, V)>, k: i64, v: V)
    requires
        strictly_sorted(s),
    ensures
        strictly_sorted(put_entry(s, k, v)),
    decreases s.len(),
{
    if s.len() > 0 && k > s[0].0 {
        let t = s.drop_first();
        law_put_keeps_sorted(t, k, v);
        lemma_put_above(t, k, v, s[0].0);
        let r = put_entry(s, k, v);
        assert forall|i: int, j: int| 0 <= i < j < r.len() implies r[i].0 < r[j].0 by {
            if i > 0 {
                assert(r[i] == put_entry(t, k, v)[i - 1]);
            }
            assert(r[j] == put_entry(t, k, v)[j - 1]);
        }
    }
}

/// Law: a write adds one pair exactly when the key was absent.
pub proof fn law_put_len<V>(s: Seq<(i64, V)>, k: i64, v: V)
    requires
        strictly_sorted(s),
    ensures
        put_entry(s, k, v).len() == s.len() + (if get_entry(s, k) is None {
            1int
        } else {
            0int
        }),
    decreases s.len(),
{
    if s.len() > 0 {
        if k < s[0].0 {
            lemma_get_absent(s, k);
        } else if k > s[0].0 {
            law_put_len(s.drop_first(), k, v);
        }
    }
}

} // verus!
