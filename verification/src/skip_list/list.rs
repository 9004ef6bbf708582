//! The skip list: a sorted chain of base nodes and a stack of index levels.

use vstd::prelude::*;

use super::entries::{get_entry, lemma_get_absent, lemma_get_at, lemma_put_at, put_entry, strictly_sorted};
use super::node::{BaseNode, IndexNode, IndexNodeChild};
use crate::rand::SimpleRand;
use super::order_facts::lemma_level_numbers_ordered;
use std::collections::BTreeMap;

verus! {

/// The number of bits needed to write `n` in binary (0 for 0).
pub open spec fn bit_len(n: nat) -> nat
    decreases n,
{
    if n == 0 {
        0
    } else {
        1 + bit_len(n / 2)
    }
}

/// The highest level a new node may get in a list of `len` nodes:
/// the base-2 logarithm of `len`, rounded up, and 0 for an empty list.
pub open spec fn level_cap(len: nat) -> nat {
    if len == 0 {
        0
    } else {
        bit_len((len - 1) as nat)
    }
}

proof fn lemma_bit_len_le(n: nat)
    ensures
        bit_len(n) <= n,
    decreases n,
{
    if n > 0 {
        lemma_bit_len_le(n / 2);
    }
}

/// `2` raised to `n`.
pub open spec fn pow2(n: nat) -> nat
    decreases n,
{
    if n == 0 {
        1
    } else {
        2 * pow2((n - 1) as nat)
    }
}

proof fn lemma_bit_len_bounds(n: nat)
    ensures
        pow2(bit_len(n)) > n,
        bit_len(n) > 0 ==> pow2((bit_len(n) - 1) as nat) <= n,
    decreases n,
{
    if n > 0 {
        lemma_bit_len_bounds(n / 2);
    }
}

/// Law: the level cap of a non-empty list of `len` nodes is the base-2
/// logarithm of `len` rounded up: the least `c` with `2^c >= len`.
pub proof fn law_level_cap_is_ceil_log2(len: nat)
    requires
        len >= 1,
    ensures
        pow2(level_cap(len)) >= len,
        level_cap(len) > 0 ==> pow2((level_cap(len) - 1) as nat) < len,
{
    lemma_bit_len_bounds((len - 1) as nat);
}

/// The level cap of a list of `len` nodes: `ceil(log2(len))`, 0 when empty.
pub fn max_level(len: usize) -> (r: usize)
    ensures
        r == level_cap(len as nat),
        len > 0 ==> r < len,
{
    if len == 0 {
        return 0;
    }
    let mut m: usize = len - 1;
    let mut k: usize = 0;
    proof {
        lemma_bit_len_le((len - 1) as nat);
    }
    while m > 0
        invariant
            k + bit_len(m as nat) == bit_len((len - 1) as nat),
            bit_len((len - 1) as nat) <= len - 1,
        decreases m,
    {
        m = m / 2;
        k = k + 1;
    }
    k
}

/// Key of the base node at chain position `i`.
spec fn key_at<V>(base: Seq<BaseNode<V>>, order: Seq<usize>, i: int) -> i64 {
    base[order[i] as int].key
}

/// The base chain `order` covers the base arena (`bpos` gives each node's
/// position), is linked from `head` through the right neighbours and is
/// sorted by key.
spec fn base_chain_ok<V>(
    base: Seq<BaseNode<V>>,
    order: Seq<usize>,
    bpos: Seq<int>,
    head: Option<usize>,
) -> bool {
    let n = base.len();
    &&& order.len() == n
    &&& bpos.len() == n
    &&& forall|i: int| 0 <= i < n ==> #[trigger] order[i] < n && bpos[order[i] as int] == i
    &&& forall|id: int| 0 <= id < n ==> 0 <= #[trigger] bpos[id] < n && order[bpos[id]] == id
    &&& head == (if n == 0 {
        None::<usize>
    } else {
        Some(order[0])
    })
    &&& forall|i: int|
        0 <= i < n ==> (#[trigger] base[order[i] as int]).right == (if i + 1 < n {
            Some(order[i + 1])
        } else {
            None::<usize>
        })
    &&& forall|i: int, j: int|
        0 <= i < j < n ==> #[trigger] key_at(base, order, i) < #[trigger] key_at(base, order, j)
}

/// The child of index node `id` has the same key and lies one level down.
spec fn child_ok_of<V>(index: Seq<IndexNode>, lvl: Seq<int>, base: Seq<BaseNode<V>>, id: int) -> bool {
    let nd = index[id];
    if lvl[id] == 0 {
        match nd.child {
            IndexNodeChild::Base(b) => b < base.len() && base[b as int].key == nd.key,
            IndexNodeChild::Index(_) => false,
        }
    } else {
        match nd.child {
            IndexNodeChild::Index(c) => c < index.len() && lvl[c as int] == lvl[id] - 1
                && index[c as int].key == nd.key,
            IndexNodeChild::Base(_) => false,
        }
    }
}

/// Every index node lies on exactly one level chain (`lvl` and `ipos` give
/// its level and position), each chain starts at its head in `heads` and is
/// linked through the right neighbours, and every child is sound.
spec fn index_levels_ok<V>(
    index: Seq<IndexNode>,
    heads: Seq<usize>,
    levels: Seq<Seq<usize>>,
    lvl: Seq<int>,
    ipos: Seq<int>,
    base: Seq<BaseNode<V>>,
) -> bool {
    let n = index.len();
    &&& levels.len() == heads.len()
    &&& lvl.len() == n
    &&& ipos.len() == n
    &&& forall|l: int|
        0 <= l < levels.len() ==> (#[trigger] levels[l]).len() > 0 && levels[l][0] == heads[l]
    &&& forall|l: int, i: int|
        0 <= l < levels.len() && 0 <= i < levels[l].len() ==> #[trigger] levels[l][i] < n
            && lvl[levels[l][i] as int] == l && ipos[levels[l][i] as int] == i
    &&& forall|id: int|
        0 <= id < n ==> 0 <= #[trigger] lvl[id] < levels.len() && 0 <= ipos[id] < levels[lvl[id]].len()
            && levels[lvl[id]][ipos[id]] == id
    &&& forall|l: int, i: int|
        0 <= l < levels.len() && 0 <= i < levels[l].len() ==> (#[trigger] index[levels[l][i] as int]).right
            == (if i + 1 < levels[l].len() {
            Some(levels[l][i + 1])
        } else {
            None::<usize>
        })
    &&& forall|id: int| 0 <= id < n ==> #[trigger] child_ok_of(index, lvl, base, id)
}

/// Positions on the chains after `n` is inserted at position `p` of level `l`.
spec fn shifted_ipos(lvl: Seq<int>, ipos: Seq<int>, l: int, p: int) -> Seq<int> {
    Seq::new(
        (ipos.len() + 1) as nat,
        |id: int|
            if id == ipos.len() {
                p
            } else if lvl[id] == l && ipos[id] >= p {
                ipos[id] + 1
            } else {
                ipos[id]
            },
    )
}

/// The pairs of the base nodes along `order`.
spec fn entries_of<V>(base: Seq<BaseNode<V>>, order: Seq<usize>) -> Seq<(i64, V)> {
    Seq::new(order.len(), |i: int| (base[order[i] as int].key, base[order[i] as int].value))
}

/// Linking a new node in at chain position `q` inserts its pair there.
proof fn lemma_entries_insert<V>(
    base: Seq<BaseNode<V>>,
    order: Seq<usize>,
    base2: Seq<BaseNode<V>>,
    q: int,
    n: usize,
)
    requires
        0 <= q <= order.len(),
        forall|i: int| 0 <= i < order.len() ==> #[trigger] order[i] < base.len() && order[i] != n,
        forall|i: int|
            0 <= i < order.len() ==> (#[trigger] base2[order[i] as int]).key == base[order[i] as int].key
                && base2[order[i] as int].value == base[order[i] as int].value,
    ensures
        entries_of(base2, order.insert(q, n)) == entries_of(base, order).insert(
            q,
            (base2[n as int].key, base2[n as int].value),
        ),
{
    order.insert_ensures(q, n);
    let a = entries_of(base2, order.insert(q, n));
    let b = entries_of(base, order).insert(q, (base2[n as int].key, base2[n as int].value));
    assert forall|i: int| 0 <= i < a.len() implies a[i] == b[i] by {
        if i < q {
            assert(order.insert(q, n)[i] == order[i]);
        } else if i > q {
            assert(order.insert(q, n)[i] == order[i - 1]);
        }
    }
    assert(a =~= b);
}

/// Changing the value of the node at chain position `p` updates its pair.
proof fn lemma_entries_update<V>(
    base: Seq<BaseNode<V>>,
    order: Seq<usize>,
    base2: Seq<BaseNode<V>>,
    p: int,
)
    requires
        0 <= p < order.len(),
        order.no_duplicates(),
        forall|i: int|
            0 <= i < order.len() && i != p ==> (#[trigger] base2[order[i] as int]) == base[order[i] as int],
    ensures
        entries_of(base2, order) == entries_of(base, order).update(
            p,
            (base2[order[p] as int].key, base2[order[p] as int].value),
        ),
{
    let a = entries_of(base2, order);
    let b = entries_of(base, order).update(p, (base2[order[p] as int].key, base2[order[p] as int].value));
    assert forall|i: int| 0 <= i < a.len() implies a[i] == b[i] by {
        if i != p {
            assert(base2[order[i] as int] == base[order[i] as int]);
        }
    }
    assert(a =~= b);
}

/// The base chain stays sound when base node `n` (the next free position)
/// is linked in at chain position `q`, between keys below and above its own.
proof fn lemma_base_insert<V>(
    base: Seq<BaseNode<V>>,
    order: Seq<usize>,
    bpos: Seq<int>,
    head: Option<usize>,
    base2: Seq<BaseNode<V>>,
    head2: Option<usize>,
    q: int,
)
    requires
        base_chain_ok(base, order, bpos, head),
        0 <= q <= order.len(),
        base2.len() == base.len() + 1,
        base2.len() <= usize::MAX,
        forall|id: int|
            0 <= id < base.len() && !(q > 0 && id == order[q - 1]) ==> #[trigger] base2[id] == base[id],
        q > 0 ==> base2[order[q - 1] as int].right == Some(base.len() as usize),
        q > 0 ==> base2[order[q - 1] as int].key == base[order[q - 1] as int].key,
        q > 0 ==> base2[order[q - 1] as int].value == base[order[q - 1] as int].value,
        base2[base.len() as int].right == (if q < order.len() {
            Some(order[q])
        } else {
            None::<usize>
        }),
        q > 0 ==> key_at(base, order, q - 1) < base2[base.len() as int].key,
        q < order.len() ==> base2[base.len() as int].key < key_at(base, order, q),
        head2 == (if q == 0 {
            Some(base.len() as usize)
        } else {
            head
        }),
    ensures
        base_chain_ok(
            base2,
            order.insert(q, base.len() as usize),
            Seq::new(
                base2.len(),
                |id: int|
                    if id == base.len() {
                        q
                    } else if bpos[id] >= q {
                        bpos[id] + 1
                    } else {
                        bpos[id]
                    },
            ),
            head2,
        ),
        forall|i: int| 0 <= i < base.len() ==> base2[i].key == base[i].key,
{
    let n = base.len() as int;
    let nu = base.len() as usize;
    let order2 = order.insert(q, nu);
    let bpos2 = Seq::new(
        base2.len(),
        |id: int|
            if id == base.len() {
                q
            } else if bpos[id] >= q {
                bpos[id] + 1
            } else {
                bpos[id]
            },
    );
    order.insert_ensures(q, nu);
    assert forall|i: int| 0 <= i < n + 1 implies #[trigger] order2[i] < n + 1 && bpos2[order2[i] as int] == i by {
        if i < q {
            assert(order2[i] == order[i]);
        } else if i > q {
            assert(order2[i] == order[i - 1]);
        }
    }
    assert forall|id: int| 0 <= id < n + 1 implies 0 <= #[trigger] bpos2[id] < n + 1 && order2[bpos2[id]] == id by {
        if id < n {
            assert(order[bpos[id]] == id);
            if bpos[id] >= q {
                assert(order2[bpos[id] + 1] == order[bpos[id]]);
            }
        }
    }
    assert forall|i: int| 0 <= i < n + 1 implies (#[trigger] base2[order2[i] as int]).right == (if i + 1 < n + 1 {
        Some(order2[i + 1])
    } else {
        None::<usize>
    }) by {
        if i < q - 1 {
            assert(order2[i] == order[i]);
            assert(order2[i + 1] == order[i + 1]);
            assert(base[order[i] as int].right == Some(order[i + 1]));
            assert(bpos[order[i] as int] == i);
            assert(bpos[order[q - 1] as int] == q - 1);
        } else if i == q - 1 {
            assert(order2[i] == order[q - 1]);
        } else if i == q {
        } else {
            assert(order2[i] == order[i - 1]);
            assert(base[order[i - 1] as int].right == (if i < n {
                Some(order[i])
            } else {
                None::<usize>
            }));
            if i + 1 < n + 1 {
                assert(order2[i + 1] == order[i]);
            }
            if q > 0 {
                assert(bpos[order[i - 1] as int] == i - 1);
                assert(bpos[order[q - 1] as int] == q - 1);
            }
        }
    }
    assert forall|i: int, j: int| 0 <= i < j < n + 1 implies #[trigger] key_at(base2, order2, i)
        < #[trigger] key_at(base2, order2, j) by {
        let ki = if i < q {
            key_at(base, order, i)
        } else if i == q {
            base2[n].key
        } else {
            key_at(base, order, i - 1)
        };
        let kj = if j < q {
            key_at(base, order, j)
        } else if j == q {
            base2[n].key
        } else {
            key_at(base, order, j - 1)
        };
        if i < q {
            assert(order2[i] == order[i]);
        } else if i > q {
            assert(order2[i] == order[i - 1]);
        }
        if j < q {
            assert(order2[j] == order[j]);
        } else if j > q {
            assert(order2[j] == order[j - 1]);
        }
        assert(key_at(base2, order2, i) == ki);
        assert(key_at(base2, order2, j) == kj);
        if i < q && j < q {
            assert(key_at(base, order, i) < key_at(base, order, j));
        } else if i < q && j == q {
            if i < q - 1 {
                assert(key_at(base, order, i) < key_at(base, order, q - 1));
            }
        } else if i < q && j > q {
            assert(key_at(base, order, i) < key_at(base, order, j - 1)) by {
                if i < j - 1 {
                    assert(key_at(base, order, i) < key_at(base, order, j - 1));
                } else {
                    assert(i == j - 1);
                    assert(false);
                }
            }
        } else if i == q {
            if j - 1 > q {
                assert(key_at(base, order, q) < key_at(base, order, j - 1));
            }
        } else {
            assert(key_at(base, order, i - 1) < key_at(base, order, j - 1));
        }
    }
}

/// The base chain stays sound when values change but keys and links do not.
proof fn lemma_base_same_links<V>(
    base: Seq<BaseNode<V>>,
    order: Seq<usize>,
    bpos: Seq<int>,
    head: Option<usize>,
    base2: Seq<BaseNode<V>>,
)
    requires
        base_chain_ok(base, order, bpos, head),
        base2.len() == base.len(),
        forall|id: int|
            0 <= id < base.len() ==> (#[trigger] base2[id]).key == base[id].key && base2[id].right
                == base[id].right,
    ensures
        base_chain_ok(base2, order, bpos, head),
{
    assert forall|i: int| 0 <= i < order.len() implies (#[trigger] base2[order[i] as int]).right == (if i + 1 < order.len() {
        Some(order[i + 1])
    } else {
        None::<usize>
    }) by {
        assert(base[order[i] as int].right == base2[order[i] as int].right);
    }
    assert forall|i: int, j: int| 0 <= i < j < order.len() implies #[trigger] key_at(base2, order, i)
        < #[trigger] key_at(base2, order, j) by {
        assert(key_at(base, order, i) < key_at(base, order, j));
        assert(base2[order[i] as int].key == base[order[i] as int].key);
        assert(base2[order[j] as int].key == base[order[j] as int].key);
    }
}

/// Keys are distinct along each level, and every index key is the key of
/// some base node.
spec fn index_keys_ok<V>(index: Seq<IndexNode>, levels: Seq<Seq<usize>>, base: Seq<BaseNode<V>>) -> bool {
    &&& forall|l: int, i: int, j: int|
        0 <= l < levels.len() && 0 <= i < j < levels[l].len() ==> #[trigger] index[levels[l][i] as int].key
            != #[trigger] index[levels[l][j] as int].key
    &&& forall|id: int|
        #![trigger index[id]]
        0 <= id < index.len() ==> exists|b: int| #![trigger base[b]] 0 <= b < base.len() && base[b].key == index[id].key
}

/// Index keys stay sound when base nodes are added or relinked without their
/// keys changing.
proof fn lemma_keys_base_grow<V>(
    index: Seq<IndexNode>,
    levels: Seq<Seq<usize>>,
    b1: Seq<BaseNode<V>>,
    b2: Seq<BaseNode<V>>,
)
    requires
        index_keys_ok(index, levels, b1),
        b1.len() <= b2.len(),
        forall|i: int| 0 <= i < b1.len() ==> b2[i].key == b1[i].key,
    ensures
        index_keys_ok(index, levels, b2),
{
    assert forall|id: int| #![trigger index[id]] 0 <= id < index.len() implies exists|b: int| #![trigger b2[b]] 0 <= b < b2.len()
        && b2[b].key == index[id].key by {
        let b = choose|b: int| #![trigger b1[b]] 0 <= b < b1.len() && b1[b].key == index[id].key;
        assert(b2[b].key == b1[b].key);
    }
}

/// Index keys stay sound when a node with a key new to level `l`, and held by
/// base node `w`, is inserted into that level at position `p` (or forms a new
/// level when `l` is the number of levels), other keys unchanged.
#[verifier::rlimit(40)]
proof fn lemma_keys_insert<V>(
    index: Seq<IndexNode>,
    levels: Seq<Seq<usize>>,
    base: Seq<BaseNode<V>>,
    index2: Seq<IndexNode>,
    levels2: Seq<Seq<usize>>,
    l: int,
    p: int,
    w: int,
)
    requires
        index_keys_ok(index, levels, base),
        0 <= l <= levels.len(),
        l < levels.len() ==> 0 <= p <= levels[l].len(),
        l < levels.len() ==> levels2 == levels.update(l, levels[l].insert(p, index.len() as usize)),
        l == levels.len() ==> levels2 == levels.push(seq![index.len() as usize]),
        index.len() < usize::MAX,
        forall|l2: int, i: int| 0 <= l2 < levels.len() && 0 <= i < levels[l2].len() ==> #[trigger] levels[l2][i] < index.len(),
        index2.len() == index.len() + 1,
        forall|id: int| 0 <= id < index.len() ==> #[trigger] index2[id].key == index[id].key,
        0 <= w < base.len(),
        base[w].key == index2[index.len() as int].key,
        l < levels.len() ==> forall|i: int| 0 <= i < levels[l].len() ==> #[trigger] index[levels[l][i] as int].key
            != index2[index.len() as int].key,
    ensures
        index_keys_ok(index2, levels2, base),
{
    let n = index.len() as int;
    let nu = index.len() as usize;
    if l < levels.len() {
        levels[l].insert_ensures(p, nu);
    }
    assert forall|m: int, i: int, j: int| 0 <= m < levels2.len() && 0 <= i < j < levels2[m].len() implies #[trigger] index2[levels2[m][i] as int].key
        != #[trigger] index2[levels2[m][j] as int].key by {
        if m == l {
            if l < levels.len() {
                let a = if i < p { i } else if i > p { i - 1 } else { -1 };
                let b = if j < p { j } else if j > p { j - 1 } else { -1 };
                if i != p {
                    assert(levels2[m][i] == levels[l][a]);
                    assert(index2[levels[l][a] as int].key == index[levels[l][a] as int].key);
                }
                if j != p {
                    assert(levels2[m][j] == levels[l][b]);
                    assert(index2[levels[l][b] as int].key == index[levels[l][b] as int].key);
                }
                if i != p && j != p {
                    assert(index[levels[l][a] as int].key != index[levels[l][b] as int].key);
                }
            }
        } else {
            assert(levels2[m] == levels[m]);
            assert(index2[levels[m][i] as int].key == index[levels[m][i] as int].key);
            assert(index2[levels[m][j] as int].key == index[levels[m][j] as int].key);
        }
    }
    assert forall|id: int| #![trigger index2[id]] 0 <= id < index2.len() implies exists|b: int| #![trigger base[b]] 0 <= b < base.len()
        && base[b].key == index2[id].key by {
        if id < n {
            let b = choose|b: int| #![trigger base[b]] 0 <= b < base.len() && base[b].key == index[id].key;
            assert(base[b].key == index2[id].key);
        } else {
            assert(base[w].key == index2[id].key);
        }
    }
}

/// Index chains stay sound when base nodes are added or relinked without
/// their keys changing.
proof fn lemma_index_base_grow<V>(
    index: Seq<IndexNode>,
    heads: Seq<usize>,
    levels: Seq<Seq<usize>>,
    lvl: Seq<int>,
    ipos: Seq<int>,
    b1: Seq<BaseNode<V>>,
    b2: Seq<BaseNode<V>>,
)
    requires
        index_levels_ok(index, heads, levels, lvl, ipos, b1),
        b1.len() <= b2.len(),
        forall|i: int| 0 <= i < b1.len() ==> b2[i].key == b1[i].key,
    ensures
        index_levels_ok(index, heads, levels, lvl, ipos, b2),
{
    assert forall|id: int| 0 <= id < index.len() implies #[trigger] child_ok_of(index, lvl, b2, id) by {
        assert(child_ok_of(index, lvl, b1, id));
    }
}

/// Index chains stay sound when node `n` (the next free position) is linked
/// into level `l` at position `p`.
proof fn lemma_level_insert<V>(
    index: Seq<IndexNode>,
    heads: Seq<usize>,
    levels: Seq<Seq<usize>>,
    lvl: Seq<int>,
    ipos: Seq<int>,
    base: Seq<BaseNode<V>>,
    index2: Seq<IndexNode>,
    heads2: Seq<usize>,
    l: int,
    p: int,
)
    requires
        index_levels_ok(index, heads, levels, lvl, ipos, base),
        0 <= l < levels.len(),
        0 <= p <= levels[l].len(),
        index2.len() == index.len() + 1,
        index2.len() <= usize::MAX,
        forall|id: int|
            0 <= id < index.len() && !(p > 0 && id == levels[l][p - 1]) ==> #[trigger] index2[id]
                == index[id],
        p > 0 ==> index2[levels[l][p - 1] as int].right == Some(index.len() as usize),
        p > 0 ==> index2[levels[l][p - 1] as int].key == index[levels[l][p - 1] as int].key,
        p > 0 ==> index2[levels[l][p - 1] as int].child == index[levels[l][p - 1] as int].child,
        index2[index.len() as int].right == (if p < levels[l].len() {
            Some(levels[l][p])
        } else {
            None::<usize>
        }),
        child_ok_of(index2, lvl.push(l), base, index.len() as int),
        heads2 == (if p == 0 {
            heads.update(l, index.len() as usize)
        } else {
            heads
        }),
    ensures
        index_levels_ok(
            index2,
            heads2,
            levels.update(l, levels[l].insert(p, index.len() as usize)),
            lvl.push(l),
            shifted_ipos(lvl, ipos, l, p),
            base,
        ),
{
    let n = index.len() as int;
    let nu = index.len() as usize;
    let levels2 = levels.update(l, levels[l].insert(p, nu));
    let lvl2 = lvl.push(l);
    let ipos2 = shifted_ipos(lvl, ipos, l, p);
    levels[l].insert_ensures(p, nu);
    assert forall|m: int| 0 <= m < levels2.len() implies (#[trigger] levels2[m]).len() > 0
        && levels2[m][0] == heads2[m] by {
        if m == l {
            if p > 0 {
                assert(levels2[m][0] == levels[l][0]);
            }
        }
    }
    assert forall|m: int, i: int| 0 <= m < levels2.len() && 0 <= i < levels2[m].len() implies #[trigger] levels2[m][i]
        < n + 1 && lvl2[levels2[m][i] as int] == m && ipos2[levels2[m][i] as int] == i by {
        if m == l {
            if i < p {
                assert(levels2[m][i] == levels[l][i]);
            } else if i > p {
                assert(levels2[m][i] == levels[l][i - 1]);
            }
        } else {
            assert(levels2[m][i] == levels[m][i]);
        }
    }
    assert forall|id: int| 0 <= id < n + 1 implies 0 <= #[trigger] lvl2[id] < levels2.len() && 0
        <= ipos2[id] < levels2[lvl2[id]].len() && levels2[lvl2[id]][ipos2[id]] == id by {
        if id < n {
            let m = lvl[id];
            let i = ipos[id];
            assert(levels[m][i] == id);
            if m == l && i >= p {
                assert(levels2[m][i + 1] == levels[l][i]);
            }
        }
    }
    assert forall|m: int, i: int| 0 <= m < levels2.len() && 0 <= i < levels2[m].len() implies (#[trigger] index2[levels2[m][i] as int]).right
        == (if i + 1 < levels2[m].len() {
        Some(levels2[m][i + 1])
    } else {
        None::<usize>
    }) by {
        if m == l {
            if i < p - 1 {
                assert(levels2[m][i] == levels[l][i]);
                assert(levels2[m][i + 1] == levels[l][i + 1]);
                assert(index[levels[l][i] as int].right == Some(levels[l][i + 1]));
            } else if i == p - 1 {
                assert(levels2[m][i] == levels[l][p - 1]);
            } else if i == p {
                if p < levels[l].len() {
                    assert(levels2[m][i + 1] == levels[l][p]);
                }
            } else {
                assert(levels2[m][i] == levels[l][i - 1]);
                assert(index[levels[l][i - 1] as int].right == (if i < levels[l].len() {
                    Some(levels[l][i])
                } else {
                    None::<usize>
                }));
                if i + 1 < levels2[m].len() {
                    assert(levels2[m][i + 1] == levels[l][i]);
                }
                if p > 0 {
                    assert(ipos[levels[l][i - 1] as int] == i - 1);
                    assert(ipos[levels[l][p - 1] as int] == p - 1);
                    assert(levels[l][i - 1] != levels[l][p - 1]);
                }
            }
        } else {
            assert(levels2[m][i] == levels[m][i]);
            assert(index[levels[m][i] as int].right == (if i + 1 < levels[m].len() {
                Some(levels[m][i + 1])
            } else {
                None::<usize>
            }));
            if p > 0 {
                assert(lvl[levels[m][i] as int] == m);
                assert(lvl[levels[l][p - 1] as int] == l);
            }
        }
    }
    assert forall|id: int| 0 <= id < n + 1 implies #[trigger] child_ok_of(index2, lvl2, base, id) by {
        if id < n {
            assert(child_ok_of(index, lvl, base, id));
            match index[id].child {
                IndexNodeChild::Index(c) => {
                    if p > 0 && c == levels[l][p - 1] {
                    } else {
                        assert(index2[c as int] == index[c as int]);
                    }
                },
                IndexNodeChild::Base(_) => {},
            }
        }
    }
}

/// Index chains stay sound when node `n` (the next free position) forms a
/// new highest level of its own.
proof fn lemma_level_push<V>(
    index: Seq<IndexNode>,
    heads: Seq<usize>,
    levels: Seq<Seq<usize>>,
    lvl: Seq<int>,
    ipos: Seq<int>,
    base: Seq<BaseNode<V>>,
    index2: Seq<IndexNode>,
)
    requires
        index_levels_ok(index, heads, levels, lvl, ipos, base),
        index2.len() == index.len() + 1,
        index2.len() <= usize::MAX,
        forall|id: int| 0 <= id < index.len() ==> #[trigger] index2[id] == index[id],
        index2[index.len() as int].right == None::<usize>,
        child_ok_of(index2, lvl.push(levels.len() as int), base, index.len() as int),
    ensures
        index_levels_ok(
            index2,
            heads.push(index.len() as usize),
            levels.push(seq![index.len() as usize]),
            lvl.push(levels.len() as int),
            ipos.push(0),
            base,
        ),
{
    let n = index.len() as int;
    let levels2 = levels.push(seq![index.len() as usize]);
    let lvl2 = lvl.push(levels.len() as int);
    let ipos2 = ipos.push(0);
    assert forall|m: int, i: int| 0 <= m < levels2.len() && 0 <= i < levels2[m].len() implies (#[trigger] index2[levels2[m][i] as int]).right
        == (if i + 1 < levels2[m].len() {
        Some(levels2[m][i + 1])
    } else {
        None::<usize>
    }) by {
        if m < levels.len() {
            assert(levels2[m] == levels[m]);
            assert(levels[m][i] < n);
        }
    }
    assert forall|m: int, i: int| 0 <= m < levels2.len() && 0 <= i < levels2[m].len() implies #[trigger] levels2[m][i]
        < n + 1 && lvl2[levels2[m][i] as int] == m && ipos2[levels2[m][i] as int] == i by {
        if m < levels.len() {
            assert(levels2[m] == levels[m]);
        }
    }
    assert forall|id: int| 0 <= id < n + 1 implies 0 <= #[trigger] lvl2[id] < levels2.len() && 0
        <= ipos2[id] < levels2[lvl2[id]].len() && levels2[lvl2[id]][ipos2[id]] == id by {
        if id < n {
            assert(levels2[lvl[id]] == levels[lvl[id]]);
        }
    }
    assert forall|id: int| 0 <= id < n + 1 implies #[trigger] child_ok_of(index2, lvl2, base, id) by {
        if id < n {
            assert(child_ok_of(index, lvl, base, id));
            match index[id].child {
                IndexNodeChild::Index(c) => {
                    assert(index2[c as int] == index[c as int]);
                },
                IndexNodeChild::Base(_) => {},
            }
        }
    }
}


/// The level drawn for a new node of a list of `len` nodes: 0 under a cap of
/// 0, the cap itself when levels are always maximal, else the generator's
/// state reduced below the cap.
pub open spec fn level_draw(len: nat, always_max: bool, state: u64) -> int {
    if level_cap(len) == 0 {
        0
    } else if always_max {
        level_cap(len) as int
    } else {
        (state as int) % (level_cap(len) as int)
    }
}

/// Where a walk along keys `s` that starts at position `pos` stops: it moves
/// right while the next key is at most `key`.
pub open spec fn scan_keys(s: Seq<i64>, pos: int, key: i64) -> int
    decreases s.len() - pos,
{
    if 0 <= pos && pos + 1 < s.len() && s[pos + 1] <= key {
        scan_keys(s, pos + 1, key)
    } else {
        pos
    }
}

/// A position of key `k` in `s` (the only one where keys are distinct).
pub open spec fn pos_of(s: Seq<i64>, k: i64) -> int {
    choose|i: int| 0 <= i < s.len() && s[i] == k
}

/// The position on level `l` of the index levels `iv` (keys per level, the
/// lowest first) where a search for `key` stops: on the highest level the walk
/// starts at the head, on a lower one at the key where the walk stopped one
/// level up.
pub open spec fn path_pos(iv: Seq<Seq<i64>>, key: i64, l: int) -> int
    decreases iv.len() - l,
{
    if l + 1 < iv.len() {
        scan_keys(iv[l], pos_of(iv[l], iv[l + 1][path_pos(iv, key, l + 1)]), key)
    } else {
        scan_keys(iv[l], 0, key)
    }
}

/// The index levels `iv` (keys per level, the lowest first) after `key` gets
/// a tower of height `d`: on each existing level up to `d` it goes right of
/// where a search for `key` stops when `walks`, else at the head; each level
/// above the existing ones up to `d` holds `key` alone.
pub open spec fn tower_keys(iv: Seq<Seq<i64>>, key: i64, d: int, walks: bool) -> Seq<Seq<i64>> {
    Seq::new(
        if iv.len() > d + 1 {
            iv.len()
        } else {
            (d + 1) as nat
        },
        |l: int|
            if l > d {
                iv[l]
            } else if l < iv.len() {
                iv[l].insert(
                    if walks {
                        path_pos(iv, key, l) + 1
                    } else {
                        0
                    },
                    key,
                )
            } else {
                seq![key]
            },
    )
}

/// Keys strictly ascend along `s`.
pub open spec fn ascending(s: Seq<i64>) -> bool {
    forall|i: int, j: int| 0 <= i < j < s.len() ==> s[i] < s[j]
}

/// Every key on a level above the lowest is also on the level below it.
pub open spec fn levels_nested(iv: Seq<Seq<i64>>) -> bool {
    forall|l: int, i: int|
        #![trigger iv[l + 1][i]]
        0 <= l && l + 1 < iv.len() && 0 <= i < iv[l + 1].len() ==> iv[l].contains(iv[l + 1][i])
}

/// A walk that starts on a key at most `key` stops on such a key, and the
/// key after it, if any, is larger.
proof fn lemma_scan_bounds(s: Seq<i64>, pos: int, key: i64)
    requires
        0 <= pos < s.len(),
        s[pos] <= key,
    ensures
        pos <= scan_keys(s, pos, key) < s.len(),
        s[scan_keys(s, pos, key)] <= key,
        scan_keys(s, pos, key) + 1 < s.len() ==> s[scan_keys(s, pos, key) + 1] > key,
    decreases s.len() - pos,
{
    if pos + 1 < s.len() && s[pos + 1] <= key {
        lemma_scan_bounds(s, pos + 1, key);
    }
}

/// On nested, non-empty levels whose highest head is at most `key`, the
/// search stops on each level at a key at most `key` whose successor is
/// larger.
proof fn lemma_path_pos_bounds(iv: Seq<Seq<i64>>, key: i64, l: int)
    requires
        0 <= l < iv.len(),
        levels_nested(iv),
        forall|m: int| 0 <= m < iv.len() ==> #[trigger] iv[m].len() > 0,
        iv[iv.len() - 1][0] <= key,
    ensures
        0 <= path_pos(iv, key, l) < iv[l].len(),
        iv[l][path_pos(iv, key, l)] <= key,
        path_pos(iv, key, l) + 1 < iv[l].len() ==> iv[l][path_pos(iv, key, l) + 1] > key,
    decreases iv.len() - l,
{
    if l + 1 < iv.len() {
        lemma_path_pos_bounds(iv, key, l + 1);
        let pk = iv[l + 1][path_pos(iv, key, l + 1)];
        assert(iv[l].contains(pk));
        let q = pos_of(iv[l], pk);
        lemma_scan_bounds(iv[l], q, key);
    } else {
        lemma_scan_bounds(iv[l], 0, key);
    }
}

/// Inserting `key` where everything before is smaller and everything after
/// is larger keeps keys ascending.
proof fn lemma_insert_ascending(s: Seq<i64>, p: int, key: i64)
    requires
        ascending(s),
        0 <= p <= s.len(),
        forall|i: int| 0 <= i < p ==> s[i] < key,
        forall|i: int| p <= i < s.len() ==> s[i] > key,
    ensures
        ascending(s.insert(p, key)),
{
    s.insert_ensures(p, key);
}

/// Law: a tower keeps every index level in ascending order, and each level's
/// keys on the level below, when the levels were so before, `key` is on none
/// of them, and the tower either follows a search (the highest head being at
/// most `key`) or starts each level it reaches below that level's head.
pub proof fn law_tower_keeps_order(iv: Seq<Seq<i64>>, key: i64, d: int, walks: bool)
    requires
        0 <= d,
        forall|l: int| 0 <= l < iv.len() ==> #[trigger] iv[l].len() > 0 && ascending(iv[l]) && !iv[l].contains(key),
        levels_nested(iv),
        walks ==> iv.len() > 0 && iv[iv.len() - 1][0] <= key,
        !walks ==> forall|l: int| 0 <= l < iv.len() && l <= d ==> key < #[trigger] iv[l][0],
    ensures
        forall|l: int|
            0 <= l < tower_keys(iv, key, d, walks).len() ==> #[trigger] tower_keys(iv, key, d, walks)[l].len()
                > 0 && ascending(tower_keys(iv, key, d, walks)[l]),
        levels_nested(tower_keys(iv, key, d, walks)),
{
    let tk = tower_keys(iv, key, d, walks);
    assert forall|l: int| 0 <= l < tk.len() implies #[trigger] tk[l].len() > 0 && ascending(tk[l]) by {
        if l <= d && l < iv.len() {
            let s = iv[l];
            let p = if walks {
                path_pos(iv, key, l) + 1
            } else {
                0
            };
            if walks {
                lemma_path_pos_bounds(iv, key, l);
                let pp = path_pos(iv, key, l);
                assert forall|i: int| 0 <= i < p implies s[i] < key by {
                    if i < pp {
                        assert(s[i] < s[pp]);
                    }
                    assert(s[i] != key) by {
                        if s[i] == key {
                            assert(s.contains(key));
                        }
                    }
                }
                assert forall|i: int| p <= i < s.len() implies s[i] > key by {
                    if i > p {
                        assert(s[p] < s[i]);
                    }
                }
            } else {
                assert forall|i: int| p <= i < s.len() implies s[i] > key by {
                    if i > 0 {
                        assert(s[0] < s[i]);
                    }
                }
            }
            lemma_insert_ascending(s, p, key);
        }
    }
    assert forall|l: int, i: int|
        #![trigger tk[l + 1][i]]
        0 <= l && l + 1 < tk.len() && 0 <= i < tk[l + 1].len() implies tk[l].contains(tk[l + 1][i]) by {
        let x = tk[l + 1][i];
        let pl = if walks && l < iv.len() {
            path_pos(iv, key, l) + 1
        } else {
            0
        };
        let pu = if walks && l + 1 < iv.len() {
            path_pos(iv, key, l + 1) + 1
        } else {
            0
        };
        if walks && l < iv.len() && l <= d {
            lemma_path_pos_bounds(iv, key, l);
        }
        if walks && l + 1 < iv.len() && l + 1 <= d {
            lemma_path_pos_bounds(iv, key, l + 1);
        }
        // whether x is a key of the level above before the tower
        let old_up = l + 1 < iv.len() && (l + 1 > d || x != key);
        if old_up {
            let j = if l + 1 > d {
                i
            } else if i < pu {
                i
            } else {
                i - 1
            };
            if l + 1 <= d {
                iv[l + 1].insert_ensures(pu, key);
            }
            assert(x == iv[l + 1][j]);
            assert(iv[l].contains(iv[l + 1][j]));
            let q = choose|q: int| 0 <= q < iv[l].len() && iv[l][q] == x;
            if l <= d {
                iv[l].insert_ensures(pl, key);
                let q2 = if q < pl {
                    q
                } else {
                    q + 1
                };
                assert(tk[l][q2] == x);
            } else {
                assert(tk[l][q] == x);
            }
        } else {
            assert(x == key) by {
                if l + 1 < iv.len() {
                    iv[l + 1].insert_ensures(pu, key);
                }
            }
            if l < iv.len() {
                iv[l].insert_ensures(pl, key);
                assert(tk[l][pl] == key);
            } else {
                assert(tk[l][0] == key);
            }
        }
    }
}

/// In a sequence of distinct keys, the key at `i` is found at `i`.
proof fn lemma_pos_of(s: Seq<i64>, i: int)
    requires
        0 <= i < s.len(),
        forall|a: int, b: int| 0 <= a < b < s.len() ==> s[a] != s[b],
    ensures
        pos_of(s, s[i]) == i,
{
    let j = pos_of(s, s[i]);
    assert(0 <= j < s.len() && s[j] == s[i]);
    if j < i {
        assert(s[j] != s[i]);
    } else if i < j {
        assert(s[i] != s[j]);
    }
}

/// Level `l` after a tower of new index nodes `n0`, `n0 + 1`, ... up to
/// level `d` is added: on a level of the path (`path` holds one node per level,
/// the lowest last) the new node goes right of the path node, on another
/// existing level it becomes the head, and above the existing levels it forms
/// a level of its own.
spec fn tower_level(
    levels: Seq<Seq<usize>>,
    ipos: Seq<int>,
    path: Seq<usize>,
    n0: int,
    d: int,
    l: int,
) -> Seq<usize> {
    if l > d {
        levels[l]
    } else if l < levels.len() {
        let p = if l < path.len() {
            ipos[path[path.len() - 1 - l] as int] + 1
        } else {
            0
        };
        levels[l].insert(p, (n0 + l) as usize)
    } else {
        seq![(n0 + l) as usize]
    }
}

/// Which operation a search serves; searches for writes record the index
/// nodes they pass.
#[derive(Copy, Clone, PartialEq, Eq, Structural)]
pub enum Operation {
    Add,
    Get,
    Remove,
}

/// An ordered map from `i64` keys to values.
pub struct SkipList<V> {
    base: Vec<BaseNode<V>>,
    index: Vec<IndexNode>,
    indexes: Vec<usize>,
    base_head: Option<usize>,
    len: usize,
    r: SimpleRand,
    always_max: bool,
    order: Ghost<Seq<usize>>,
    bpos: Ghost<Seq<int>>,
    levels: Ghost<Seq<Seq<usize>>>,
    lvl: Ghost<Seq<int>>,
    ipos: Ghost<Seq<int>>,
}

impl<V> View for SkipList<V> {
    type V = Seq<(i64, V)>;

    /// The pairs of the base chain, in chain order.
    closed spec fn view(&self) -> Seq<(i64, V)> {
        entries_of(self.base@, self.order@)
    }
}

impl<V> SkipList<V> {
    /// Key of the base node at chain position `i`.
    closed spec fn kat(&self, i: int) -> i64 {
        key_at(self.base@, self.order@, i)
    }

    closed spec fn base_wf(&self) -> bool {
        base_chain_ok(self.base@, self.order@, self.bpos@, self.base_head)
    }

    closed spec fn child_ok(&self, id: int) -> bool {
        child_ok_of(self.index@, self.lvl@, self.base@, id)
    }

    closed spec fn index_wf(&self) -> bool {
        &&& index_levels_ok(self.index@, self.indexes@, self.levels@, self.lvl@, self.ipos@, self.base@)
        &&& index_keys_ok(self.index@, self.levels@, self.base@)
    }

    /// The list is well formed.
    pub closed spec fn wf(&self) -> bool {
        &&& self.base_wf()
        &&& self.index_wf()
        &&& self.len == self.order@.len()
    }

    /// The number of index levels.
    pub closed spec fn spec_level(&self) -> nat {
        self.indexes@.len()
    }

    /// Whether new nodes always get the highest level allowed.
    pub closed spec fn spec_always_max(&self) -> bool {
        self.always_max
    }

    proof fn lemma_view_sorted(&self)
        requires
            self.base_wf(),
        ensures
            strictly_sorted(self@),
            self@.len() == self.order@.len(),
            forall|i: int| 0 <= i < self@.len() ==> #[trigger] self@[i].0 == self.kat(i),
    {
        assert forall|i: int, j: int| 0 <= i < j < self@.len() implies self@[i].0 < self@[j].0 by {
            assert(self.kat(i) < self.kat(j));
        }
    }

    /// Law: the pairs of a well-formed list are in strictly ascending key
    /// order, so iteration yields keys in ascending order and no key twice.
    pub proof fn law_keys_ascend(&self)
        requires
            self.wf(),
        ensures
            strictly_sorted(self@),
    {
        self.lemma_view_sorted();
    }

    /// Law: `len` counts the distinct keys, so an add grows it by one exactly
    /// when the key was absent.
    pub proof fn law_len_after_add(&self, key: i64, value: V)
        requires
            self.wf(),
        ensures
            put_entry(self@, key, value).len() == self@.len() + (if get_entry(self@, key) is None {
                1int
            } else {
                0int
            }),
    {
        self.lemma_view_sorted();
        super::entries::law_put_len(self@, key, value);
    }

    /// A key that no base node holds is held by no index node either.
    proof fn lemma_key_not_indexed(&self, key: i64)
        requires
            self.wf(),
            forall|i: int| 0 <= i < self.order@.len() ==> self.kat(i) != key,
        ensures
            forall|id: int| 0 <= id < self.index@.len() ==> #[trigger] self.index@[id].key != key,
    {
        assert forall|id: int| 0 <= id < self.index@.len() implies #[trigger] self.index@[id].key != key by {
            let b = choose|b: int| #![trigger self.base@[b]] 0 <= b < self.base@.len() && self.base@[b].key
                == self.index@[id].key;
            let q = self.bpos@[b];
            assert(self.order@[q] == b);
            assert(self.kat(q) != key);
        }
    }

    /// An empty list whose new nodes get random levels.
    pub fn new() -> (r: SkipList<V>)
        ensures
            r.wf(),
            r@ == Seq::<(i64, V)>::empty(),
            r.spec_level() == 0,
            !r.spec_always_max(),
            r.rand_state() == crate::rand::step(42),
    {
        SkipList {
            base: Vec::new(),
            index: Vec::new(),
            indexes: Vec::new(),
            base_head: None,
            len: 0,
            r: SimpleRand::new(),
            always_max: false,
            order: Ghost(Seq::empty()),
            bpos: Ghost(Seq::empty()),
            levels: Ghost(Seq::empty()),
            lvl: Ghost(Seq::empty()),
            ipos: Ghost(Seq::empty()),
        }
    }

    /// An empty list whose new nodes always get the highest level allowed.
    pub fn with_max_level() -> (r: SkipList<V>)
        ensures
            r.wf(),
            r@ == Seq::<(i64, V)>::empty(),
            r.spec_level() == 0,
            r.spec_always_max(),
            r.rand_state() == crate::rand::step(42),
    {
        SkipList {
            base: Vec::new(),
            index: Vec::new(),
            indexes: Vec::new(),
            base_head: None,
            len: 0,
            r: SimpleRand::new(),
            always_max: true,
            order: Ghost(Seq::empty()),
            bpos: Ghost(Seq::empty()),
            levels: Ghost(Seq::empty()),
            lvl: Ghost(Seq::empty()),
            ipos: Ghost(Seq::empty()),
        }
    }

    /// The number of index levels.
    pub fn level(&self) -> (r: usize)
        ensures
            r == self.spec_level(),
    {
        self.indexes.len()
    }

    /// The number of keys.
    pub fn len(&self) -> (r: usize)
        requires
            self.wf(),
        ensures
            r == self@.len(),
    {
        self.len
    }

    fn inc_len(&mut self)
        requires
            old(self).len < usize::MAX,
        ensures
            final(self).len == old(self).len + 1,
            final(self).base == old(self).base,
            final(self).index == old(self).index,
            final(self).indexes == old(self).indexes,
            final(self).base_head == old(self).base_head,
            final(self).r == old(self).r,
            final(self).always_max == old(self).always_max,
            final(self).order == old(self).order,
            final(self).bpos == old(self).bpos,
            final(self).levels == old(self).levels,
            final(self).lvl == old(self).lvl,
            final(self).ipos == old(self).ipos,
    {
        self.len = self.len + 1;
    }

    pub fn is_empty(&self) -> (r: bool)
        requires
            self.wf(),
        ensures
            r == (self@.len() == 0),
    {
        self.len == 0
    }

    fn has_index_level(&self) -> (r: bool)
        ensures
            r == (self.spec_level() > 0),
    {
        self.indexes.len() > 0
    }

    /// The first base node.
    fn get_head_base(&self) -> (r: usize)
        requires
            self.wf(),
            self@.len() > 0,
        ensures
            r == self.order@[0],
            r < self.base@.len(),
    {
        self.base_head.unwrap()
    }

    /// The head of the highest index level.
    fn get_head_index(&self) -> (r: Option<usize>)
        requires
            self.wf(),
            self.spec_level() > 0,
        ensures
            r == Some(self.levels@[self.levels@.len() - 1][0]),
            r.unwrap() < self.index@.len(),
    {
        let top = self.indexes.len() - 1;
        Some(self.indexes[top])
    }

    /// From base node `start`, whose key is at most `key`, walks right to the
    /// last base node whose key is at most `key`.
    fn search_in_base(&self, key: i64, start: usize) -> (r: usize)
        requires
            self.wf(),
            start < self.base@.len(),
            self.base@[start as int].key <= key,
        ensures
            r < self.base@.len(),
            self.base@[r as int].key <= key,
            self.bpos@[r as int] + 1 < self.order@.len() ==> self.kat(self.bpos@[r as int] + 1) > key,
    {
        let mut cur = start;
        loop
            invariant
                self.wf(),
                cur < self.base@.len(),
                self.base@[cur as int].key <= key,
            decreases self.order@.len() - self.bpos@[cur as int],
        {
            let ghost p = self.bpos@[cur as int];
            assert(self.order@[p] == cur);
            assert(self.base@[self.order@[p] as int].right == self.base@[cur as int].right);
            match self.base[cur].right {
                Some(nx) => {
                    assert(nx == self.order@[p + 1]);
                    if self.base[nx].key <= key {
                        cur = nx;
                    } else {
                        return cur;
                    }
                },
                None => {
                    return cur;
                },
            }
        }
    }

    /// From index node `start`, whose key is at most `key`, walks right on
    /// its level to the last node whose key is at most `key`.
    fn find_less_node(&self, key: i64, start: usize) -> (r: usize)
        requires
            self.wf(),
            start < self.index@.len(),
            self.index@[start as int].key <= key,
        ensures
            r < self.index@.len(),
            self.lvl@[r as int] == self.lvl@[start as int],
            self.index@[r as int].key <= key,
            self.ipos@[start as int] <= self.ipos@[r as int],
            forall|j: int|
                self.ipos@[start as int] <= j <= self.ipos@[r as int] ==> #[trigger] self.index@[self.levels@[self.lvl@[start as int]][j] as int].key
                    <= key,
            self.ipos@[r as int] + 1 < self.levels@[self.lvl@[start as int]].len() ==> self.index@[self.levels@[self.lvl@[start as int]][self.ipos@[r as int] + 1] as int].key
                > key,
            self.index@[r as int].right matches Some(x) ==> x < self.index@.len() && self.index@[x as int].key > key,
            self.ipos@[r as int] == scan_keys(self.level_keys(self.lvl@[start as int]), self.ipos@[start as int], key),
    {
        let ghost l0 = self.lvl@[start as int];
        let ghost lk = self.level_keys(l0);
        let mut cur = start;
        loop
            invariant
                self.wf(),
                cur < self.index@.len(),
                self.lvl@[cur as int] == self.lvl@[start as int],
                self.index@[cur as int].key <= key,
                self.ipos@[start as int] <= self.ipos@[cur as int],
                forall|j: int|
                    self.ipos@[start as int] <= j <= self.ipos@[cur as int] ==> #[trigger] self.index@[self.levels@[self.lvl@[start as int]][j] as int].key
                        <= key,
                l0 == self.lvl@[start as int],
                lk == self.level_keys(l0),
                scan_keys(lk, self.ipos@[cur as int], key) == scan_keys(lk, self.ipos@[start as int], key),
            decreases self.levels@[self.lvl@[cur as int]].len() - self.ipos@[cur as int],
        {
            let ghost l = self.lvl@[cur as int];
            let ghost p = self.ipos@[cur as int];
            assert(self.levels@[l][p] == cur);
            assert(self.index@[self.levels@[l][p] as int].right == self.index@[cur as int].right);
            assert(lk.len() == self.levels@[l].len());
            match self.index[cur].right {
                Some(nx) => {
                    assert(nx == self.levels@[l][p + 1]);
                    assert(lk[p + 1] == self.index@[nx as int].key);
                    if self.index[nx].key <= key {
                        cur = nx;
                    } else {
                        return cur;
                    }
                },
                None => {
                    return cur;
                },
            }
        }
    }

    /// Descends from the head of the highest level to a base node whose key
    /// is at most `key`; for writes it also returns the index node it stopped
    /// at on each level, highest level first.
    fn search_by_index(&self, key: i64, op: Operation) -> (r: (usize, Vec<usize>))
        requires
            self.wf(),
            self.spec_level() > 0,
            self.index@[self.indexes@[self.indexes@.len() - 1] as int].key <= key,
        ensures
            r.0 < self.base@.len(),
            self.base@[r.0 as int].key <= key,
            self.index@[self.levels@[0][path_pos(self.index_view(), key, 0)] as int].child
                == IndexNodeChild::Base(r.0),
            op == Operation::Get ==> r.1@.len() == 0,
            op != Operation::Get ==> r.1@.len() == self.spec_level(),
            forall|j: int|
                0 <= j < r.1@.len() ==> #[trigger] r.1@[j] < self.index@.len() && self.lvl@[r.1@[j] as int]
                    == r.1@.len() - 1 - j && self.ipos@[r.1@[j] as int] == path_pos(
                    self.index_view(),
                    key,
                    r.1@.len() - 1 - j,
                ) && r.1@[j] == self.levels@[r.1@.len() - 1 - j][path_pos(
                    self.index_view(),
                    key,
                    r.1@.len() - 1 - j,
                )] && self.index@[r.1@[j] as int].key <= key && (self.index@[r.1@[j] as int].right matches Some(
                    x,
                ) ==> x < self.index@.len() && self.index@[x as int].key > key),
            r.1@.len() > 0 ==> self.index@[r.1@[r.1@.len() - 1] as int].child == IndexNodeChild::Base(r.0),
    {
        let ghost iv = self.index_view();
        let top = self.indexes.len() - 1;
        let mut current_index_node = self.indexes[top];
        let mut res: Vec<usize> = Vec::new();
        assert(self.levels@[top as int][0] == current_index_node);
        loop
            invariant
                self.wf(),
                self.spec_level() > 0,
                iv == self.index_view(),
                top == self.spec_level() - 1,
                current_index_node < self.index@.len(),
                self.index@[current_index_node as int].key <= key,
                self.lvl@[current_index_node as int] <= top,
                self.ipos@[current_index_node as int] == (if self.lvl@[current_index_node as int] == top {
                    0
                } else {
                    pos_of(
                        iv[self.lvl@[current_index_node as int]],
                        iv[self.lvl@[current_index_node as int] + 1][path_pos(
                            iv,
                            key,
                            self.lvl@[current_index_node as int] + 1,
                        )],
                    )
                }),
                op == Operation::Get ==> res@.len() == 0,
                op != Operation::Get ==> res@.len() == top - self.lvl@[current_index_node as int],
                forall|j: int|
                    0 <= j < res@.len() ==> #[trigger] res@[j] < self.index@.len() && self.lvl@[res@[j] as int]
                        == top - j && self.ipos@[res@[j] as int] == path_pos(iv, key, top - j) && res@[j]
                        == self.levels@[top - j][path_pos(iv, key, top - j)] && self.index@[res@[j] as int].key
                        <= key && (self.index@[res@[j] as int].right matches Some(x) ==> x
                        < self.index@.len() && self.index@[x as int].key > key),
            decreases self.lvl@[current_index_node as int],
        {
            let ghost cl = self.lvl@[current_index_node as int];
            let first_node = self.find_less_node(key, current_index_node);
            proof {
                assert(self.levels@.len() == self.spec_level());
                assert(iv[cl] == self.level_keys(cl));
                assert(self.ipos@[first_node as int] == path_pos(iv, key, cl));
                assert(self.levels@[cl][self.ipos@[first_node as int]] == first_node);
            }
            assert(self.child_ok(first_node as int));
            if op == Operation::Add || op == Operation::Remove {
                res.push(first_node);
            }
            match self.index[first_node].child {
                IndexNodeChild::Index(n) => {
                    proof {
                        self.lemma_level_keys_distinct(cl);
                        self.lemma_level_keys_distinct(cl - 1);
                        assert(iv[cl - 1] == self.level_keys(cl - 1));
                        let pn = self.ipos@[n as int];
                        assert(self.levels@[cl - 1][pn] == n);
                        assert(self.level_keys(cl - 1)[pn] == self.index@[n as int].key);
                        assert(iv[cl][path_pos(iv, key, cl)] == self.index@[first_node as int].key);
                        lemma_pos_of(self.level_keys(cl - 1), pn);
                    }
                    current_index_node = n;
                },
                IndexNodeChild::Base(n) => {
                    return (n, res);
                },
            }
        }
    }

    /// Where a search stops: `key` is found at the node it stopped at, or is
    /// absent.
    proof fn lemma_search_result(&self, key: i64, r: usize)
        requires
            self.wf(),
            r < self.base@.len(),
            self.base@[r as int].key <= key,
            self.bpos@[r as int] + 1 < self.order@.len() ==> self.kat(self.bpos@[r as int] + 1) > key,
        ensures
            self.base@[r as int].key == key ==> get_entry(self@, key) == Some(self.base@[r as int].value),
            self.base@[r as int].key != key ==> get_entry(self@, key) is None,
    {
        self.lemma_view_sorted();
        let p = self.bpos@[r as int];
        assert(self.order@[p] == r);
        if self.base@[r as int].key == key {
            lemma_get_at(self@, key, p);
        } else {
            assert forall|i: int| 0 <= i < self@.len() implies self@[i].0 != key by {
                if i < p {
                    assert(self.kat(i) < self.kat(p));
                } else if i > p {
                    assert(self.kat(p + 1) <= self.kat(i)) by {
                        if i > p + 1 {
                            assert(self.kat(p + 1) < self.kat(i));
                        }
                    }
                }
            }
            lemma_get_absent(self@, key);
        }
    }

    /// A key below the first key is absent.
    proof fn lemma_below_head(&self, key: i64)
        requires
            self.wf(),
            self@.len() > 0,
            key < self.kat(0),
        ensures
            get_entry(self@, key) is None,
    {
        self.lemma_view_sorted();
        assert forall|i: int| 0 <= i < self@.len() implies self@[i].0 != key by {
            if i > 0 {
                assert(self.kat(0) < self.kat(i));
            }
        }
        lemma_get_absent(self@, key);
    }

    /// The base node holding the largest key at most `key`, given that the
    /// list is not empty and its first key is at most `key`.
    fn find_base(&self, key: i64) -> (r: usize)
        requires
            self.wf(),
            self@.len() > 0,
            self.kat(0) <= key,
        ensures
            r < self.base@.len(),
            self.base@[r as int].key == key ==> get_entry(self@, key) == Some(self.base@[r as int].value),
            self.base@[r as int].key != key ==> get_entry(self@, key) is None,
    {
        let head = self.get_head_base();
        let node = if !self.has_index_level() || self.index[self.get_head_index().unwrap()].key > key {
            self.search_in_base(key, head)
        } else {
            let (base, _) = self.search_by_index(key, Operation::Get);
            self.search_in_base(key, base)
        };
        proof {
            self.lemma_search_result(key, node);
        }
        node
    }

    /// Applies `f` to the value stored under `key`, if there is one.
    pub fn map_value<T, F: Fn(&V) -> T>(&self, key: i64, f: F) -> (r: Option<T>)
        requires
            self.wf(),
            forall|v: V| f.requires((&v,)),
        ensures
            match r {
                None => get_entry(self@, key) is None,
                Some(t) => get_entry(self@, key) is Some && f.ensures(
                    (&get_entry(self@, key).unwrap(),),
                    t,
                ),
            },
    {
        if self.len() == 0 {
            proof {
                lemma_get_absent(self@, key);
            }
            return None;
        }
        let head = self.get_head_base();
        if self.base[head].key > key {
            proof {
                self.lemma_below_head(key);
            }
            return None;
        }
        let node_founded = self.find_base(key);
        if self.base[node_founded].key == key {
            Some(self.base[node_founded].map_value(f))
        } else {
            None
        }
    }

    /// The level of a new node: 0 in a list of at most one node; otherwise
    /// the level cap when levels are always maximal, else a draw of the
    /// generator reduced below the cap.
    fn random_level(&mut self) -> (r: usize)
        ensures
            r == level_draw(old(self).len as nat, old(self).always_max, old(self).r.state()),
            old(self).len > 0 ==> r < old(self).len,
            final(self).r.state() == (if level_cap(old(self).len as nat) == 0
                || old(self).always_max {
                old(self).r.state()
            } else {
                crate::rand::step(old(self).r.state())
            }),
            final(self).base == old(self).base,
            final(self).index == old(self).index,
            final(self).indexes == old(self).indexes,
            final(self).base_head == old(self).base_head,
            final(self).len == old(self).len,
            final(self).always_max == old(self).always_max,
            final(self).order == old(self).order,
            final(self).bpos == old(self).bpos,
            final(self).levels == old(self).levels,
            final(self).lvl == old(self).lvl,
            final(self).ipos == old(self).ipos,
    {
        let max_level = max_level(self.len);
        if max_level == 0 {
            return 0;
        }
        if self.always_max {
            max_level
        } else {
            let n = self.r.next() as usize % max_level;
            n
        }
    }

    /// Gives the new base node `new_node` a tower of index nodes with key
    /// `key`, one per level up to a random height. On each level the new node
    /// goes right of the node that `index_nodes` holds for that level (the
    /// lowest level last), or becomes the head of the level when the path
    /// holds none; a level above all existing ones is created for it.
    #[verifier::rlimit(100)]
    fn fix_index_nodes(&mut self, key: i64, index_nodes: Vec<usize>, new_node: usize)
        requires
            old(self).base_wf(),
            old(self).index_wf(),
            old(self).len <= old(self).order@.len(),
            new_node < old(self).base@.len(),
            old(self).base@[new_node as int].key == key,
            forall|id: int| 0 <= id < old(self).index@.len() ==> #[trigger] old(self).index@[id].key != key,
            forall|j: int|
                0 <= j < index_nodes@.len() ==> #[trigger] index_nodes@[j] < old(self).index@.len()
                    && old(self).lvl@[index_nodes@[j] as int] == index_nodes@.len() - 1 - j,
        ensures
            final(self).base_wf(),
            final(self).index_wf(),
            final(self).base == old(self).base,
            final(self).order == old(self).order,
            final(self).bpos == old(self).bpos,
            final(self).base_head == old(self).base_head,
            final(self).len == old(self).len,
            final(self).always_max == old(self).always_max,
            final(self).r.state() == (if level_cap(old(self).len as nat) == 0
                || old(self).always_max {
                old(self).r.state()
            } else {
                crate::rand::step(old(self).r.state())
            }),
            ({
                let d = level_draw(old(self).len as nat, old(self).always_max, old(self).r.state());
                let n0 = old(self).index@.len() as int;
                &&& final(self).index@.len() == n0 + d + 1
                &&& forall|id: int| 0 <= id < n0 ==> #[trigger] final(self).index@[id].key == old(self).index@[id].key
                &&& forall|l: int| 0 <= l <= d ==> #[trigger] final(self).index@[n0 + l].key == key
                &&& final(self).index@[n0].child == IndexNodeChild::Base(new_node)
                &&& forall|l: int|
                    0 < l <= d ==> #[trigger] final(self).index@[n0 + l].child == IndexNodeChild::Index(
                        (n0 + l - 1) as usize,
                    )
                &&& final(self).levels@.len() == (if old(self).levels@.len() > d + 1 {
                    old(self).levels@.len() as int
                } else {
                    d + 1
                })
                &&& forall|l: int|
                    0 <= l < final(self).levels@.len() ==> #[trigger] final(self).levels@[l] == tower_level(
                        old(self).levels@,
                        old(self).ipos@,
                        index_nodes@,
                        n0,
                        d,
                        l,
                    )
            }),
    {
        let ghost path0 = index_nodes@;
        let mut index_nodes = index_nodes;
        let mut child = IndexNodeChild::Base(new_node);
        let level = self.random_level();
        let ghost s0 = *self;
        let ghost n0 = self.index@.len() as int;
        let ghost d = level as int;
        let ghost plen = index_nodes@.len();
        assert(s0.index_wf());
        let mut i: usize = 0;
        assert(level < usize::MAX) by {
            if self.len > 0 {
                assert(level < self.len);
            }
        }
        while i < level + 1
            invariant
                self.base_wf(),
                self.index_wf(),
                self.base == old(self).base,
                self.order == old(self).order,
                self.bpos == old(self).bpos,
                self.base_head == old(self).base_head,
                self.len == old(self).len,
                self.always_max == old(self).always_max,
                level < usize::MAX,
                new_node < self.base@.len(),
                self.base@[new_node as int].key == key,
                i <= level + 1,
                self.levels@.len() >= i,
                forall|j: int|
                    0 <= j < index_nodes@.len() ==> #[trigger] index_nodes@[j] < self.index@.len()
                        && self.lvl@[index_nodes@[j] as int] == i + index_nodes@.len() - 1 - j,
                i == 0 ==> child == IndexNodeChild::Base(new_node),
                i > 0 ==> match child {
                    IndexNodeChild::Index(c) => c < self.index@.len() && self.lvl@[c as int] == i - 1
                        && self.index@[c as int].key == key,
                    IndexNodeChild::Base(_) => false,
                },
                i > 0 ==> child == IndexNodeChild::Index((n0 + i - 1) as usize),
                d == level,
                self.r == s0.r,
                s0.index_wf(),
                n0 == s0.index@.len(),
                s0.levels == old(self).levels,
                s0.ipos == old(self).ipos,
                s0.lvl == old(self).lvl,
                s0.index == old(self).index,
                path0.len() == plen,
                forall|j: int| 0 <= j < plen ==> #[trigger] path0[j] < n0,
                index_nodes@.len() == (if plen > i {
                    plen - i
                } else {
                    0
                }),
                forall|j: int| 0 <= j < index_nodes@.len() ==> #[trigger] index_nodes@[j] == path0[j],
                self.index@.len() == n0 + i,
                forall|id: int| 0 <= id < n0 ==> #[trigger] self.index@[id].key == s0.index@[id].key,
                forall|id: int| 0 <= id < n0 ==> #[trigger] s0.index@[id].key != key,
                forall|id: int| 0 <= id < n0 ==> #[trigger] self.lvl@[id] == s0.lvl@[id],
                forall|l: int| 0 <= l < i ==> #[trigger] self.index@[n0 + l].key == key,
                i > 0 ==> self.index@[n0].child == IndexNodeChild::Base(new_node),
                forall|l: int|
                    0 < l < i ==> #[trigger] self.index@[n0 + l].child == IndexNodeChild::Index(
                        (n0 + l - 1) as usize,
                    ),
                self.levels@.len() == (if s0.levels@.len() > i {
                    s0.levels@.len() as int
                } else {
                    i as int
                }),
                forall|l: int|
                    0 <= l < self.levels@.len() ==> #[trigger] self.levels@[l] == (if l < i {
                        tower_level(s0.levels@, s0.ipos@, path0, n0, d, l)
                    } else {
                        s0.levels@[l]
                    }),
            decreases level + 1 - i,
        {
            let ghost pre = *self;
            let n = self.index.len();
            let pop = index_nodes.pop();
            let new_index_node = match pop {
                Some(left) => {
                    let ghost l = i as int;
                    let ghost p = self.ipos@[left as int] + 1;
                    assert(self.levels@[l][p - 1] == left);
                    proof {
                        let j = plen - 1 - i;
                        assert(left == path0[j]);
                        assert(s0.lvl@[left as int] == l);
                        let q = s0.ipos@[left as int];
                        assert(s0.levels@[l][q] == left);
                        assert(self.levels@[l] == s0.levels@[l]);
                        assert(self.ipos@[self.levels@[l][q] as int] == q);
                        assert(p == q + 1);
                    }
                    let index_node = IndexNode::new(key, self.index[left].get_right_node(), child);
                    self.index.push(index_node);
                    let grown = self.index.len();
                    assert(grown == n + 1);
                    self.index[left].set_right(Some(n));
                    assert(child_ok_of(self.index@, pre.lvl@.push(l), self.base@, n as int)) by {
                        match child {
                            IndexNodeChild::Index(c) => {
                                assert(self.index@[c as int].key == pre.index@[c as int].key);
                            },
                            IndexNodeChild::Base(_) => {},
                        }
                    }
                    assert(self.index@[n as int].right == (if p < pre.levels@[l].len() {
                        Some(pre.levels@[l][p])
                    } else {
                        None::<usize>
                    }));
                    proof {
                        lemma_level_insert(
                            pre.index@,
                            pre.indexes@,
                            pre.levels@,
                            pre.lvl@,
                            pre.ipos@,
                            pre.base@,
                            self.index@,
                            self.indexes@,
                            l,
                            p,
                        );
                        assert forall|k: int| 0 <= k < pre.levels@[l].len() implies #[trigger] pre.index@[pre.levels@[l][k] as int].key
                            != self.index@[n as int].key by {
                            assert(pre.levels@[l] == s0.levels@[l]);
                            assert(pre.levels@[l][k] < n0);
                        }
                        lemma_keys_insert(
                            pre.index@,
                            pre.levels@,
                            pre.base@,
                            self.index@,
                            pre.levels@.update(l, pre.levels@[l].insert(p, n)),
                            l,
                            p,
                            new_node as int,
                        );
                        self.levels = Ghost(pre.levels@.update(l, pre.levels@[l].insert(p, n)));
                        self.lvl = Ghost(pre.lvl@.push(l));
                        self.ipos = Ghost(shifted_ipos(pre.lvl@, pre.ipos@, l, p));
                    }
                    n
                },
                None => {
                    let mut index_node = IndexNode::new(key, None, child);
                    if i < self.indexes.len() {
                        let head = self.indexes[i];
                        index_node.set_right(Some(head));
                        self.index.push(index_node);
                        let grown = self.index.len();
                        assert(grown == n + 1);
                        self.indexes.set(i, n);
                        proof {
                            let l = i as int;
                            lemma_level_insert(
                                pre.index@,
                                pre.indexes@,
                                pre.levels@,
                                pre.lvl@,
                                pre.ipos@,
                                pre.base@,
                                self.index@,
                                self.indexes@,
                                l,
                                0,
                            );
                            assert forall|k: int| 0 <= k < pre.levels@[l].len() implies #[trigger] pre.index@[pre.levels@[l][k] as int].key
                                != self.index@[n as int].key by {
                                assert(pre.levels@[l] == s0.levels@[l]);
                                assert(pre.levels@[l][k] < n0);
                            }
                            lemma_keys_insert(
                                pre.index@,
                                pre.levels@,
                                pre.base@,
                                self.index@,
                                pre.levels@.update(l, pre.levels@[l].insert(0, n)),
                                l,
                                0,
                                new_node as int,
                            );
                            self.levels = Ghost(pre.levels@.update(l, pre.levels@[l].insert(0, n)));
                            self.lvl = Ghost(pre.lvl@.push(l));
                            self.ipos = Ghost(shifted_ipos(pre.lvl@, pre.ipos@, l, 0));
                        }
                    } else {
                        self.index.push(index_node);
                        let grown = self.index.len();
                        assert(grown == n + 1);
                        self.indexes.push(n);
                        proof {
                            lemma_level_push(
                                pre.index@,
                                pre.indexes@,
                                pre.levels@,
                                pre.lvl@,
                                pre.ipos@,
                                pre.base@,
                                self.index@,
                            );
                            lemma_keys_insert(
                                pre.index@,
                                pre.levels@,
                                pre.base@,
                                self.index@,
                                pre.levels@.push(seq![n]),
                                pre.levels@.len() as int,
                                0,
                                new_node as int,
                            );
                            self.levels = Ghost(pre.levels@.push(seq![n]));
                            self.lvl = Ghost(pre.lvl@.push(pre.levels@.len() as int));
                            self.ipos = Ghost(pre.ipos@.push(0));
                        }
                    }
                    n
                },
            };
            child = IndexNodeChild::Index(new_index_node);
            i = i + 1;
        }
    }

    /// Stores `value` under `key`, given the base node `base_node` holding the
    /// largest key at most `key` and, for each index level, the index node the
    /// search stopped at (lowest level last).
    fn handle_add(&mut self, key: i64, value: V, base_node: usize, index_on_path: Vec<usize>)
        requires
            old(self).wf(),
            base_node < old(self).base@.len(),
            old(self).base@[base_node as int].key <= key,
            old(self).bpos@[base_node as int] + 1 < old(self).order@.len() ==> old(self).kat(
                old(self).bpos@[base_node as int] + 1,
            ) > key,
            index_on_path@.len() == 0 || index_on_path@.len() == old(self).spec_level(),
            forall|j: int|
                0 <= j < index_on_path@.len() ==> #[trigger] index_on_path@[j] < old(self).index@.len()
                    && old(self).lvl@[index_on_path@[j] as int] == index_on_path@.len() - 1 - j
                    && old(self).ipos@[index_on_path@[j] as int] == path_pos(
                    old(self).index_view(),
                    key,
                    index_on_path@.len() - 1 - j,
                ),
        ensures
            final(self).wf(),
            final(self)@ == put_entry(old(self)@, key, value),
            final(self).always_max == old(self).always_max,
            get_entry(old(self)@, key) is None ==> final(self).index_view() == tower_keys(
                old(self).index_view(),
                key,
                level_draw(old(self)@.len(), old(self).spec_always_max(), old(self).rand_state()),
                index_on_path@.len() > 0,
            ),
            get_entry(old(self)@, key) is None ==> final(self).rand_state() == (if level_cap(old(self)@.len())
                == 0 || old(self).spec_always_max() {
                old(self).rand_state()
            } else {
                crate::rand::step(old(self).rand_state())
            }),
            get_entry(old(self)@, key) is Some ==> final(self).index_view() == old(self).index_view()
                && final(self).rand_state() == old(self).rand_state(),
    {
        let ghost pre = *self;
        let ghost path = index_on_path@;
        let ghost p = self.bpos@[base_node as int];
        proof {
            self.lemma_view_sorted();
            assert(self.order@[p] == base_node);
        }
        let node_key = self.base[base_node].get_key();
        if key > node_key {
            let right = self.base[base_node].get_right_node();
            let n = self.base.len();
            let new_node = BaseNode::new(key, value, right);
            self.base.push(new_node);
            let grown = self.base.len();
            assert(grown == n + 1);
            self.base[base_node].set_right_node(Some(n));
            proof {
                let q = p + 1;
                assert(right == (if q < pre.order@.len() {
                    Some(pre.order@[q])
                } else {
                    None::<usize>
                }));
                lemma_base_insert(
                    pre.base@,
                    pre.order@,
                    pre.bpos@,
                    pre.base_head,
                    self.base@,
                    self.base_head,
                    q,
                );
                lemma_entries_insert(pre.base@, pre.order@, self.base@, q, n);
                lemma_index_base_grow(
                    pre.index@,
                    pre.indexes@,
                    pre.levels@,
                    pre.lvl@,
                    pre.ipos@,
                    pre.base@,
                    self.base@,
                );
                lemma_keys_base_grow(pre.index@, pre.levels@, pre.base@, self.base@);
                self.order = Ghost(pre.order@.insert(q, n));
                self.bpos = Ghost(
                    Seq::new(
                        self.base@.len(),
                        |id: int|
                            if id == pre.base@.len() {
                                q
                            } else if pre.bpos@[id] >= q {
                                pre.bpos@[id] + 1
                            } else {
                                pre.bpos@[id]
                            },
                    ),
                );
                assert forall|i: int| 0 <= i < q implies pre@[i].0 < key by {
                    if i < p {
                        assert(pre.kat(i) < pre.kat(p));
                    }
                }
                lemma_put_at(pre@, key, value, q);
                assert forall|i: int| 0 <= i < pre.order@.len() implies pre.kat(i) != key by {
                    if i < p {
                        assert(pre.kat(i) < pre.kat(p));
                    } else if i > p {
                        if i > p + 1 {
                            assert(pre.kat(p + 1) < pre.kat(i));
                        }
                    }
                }
                pre.lemma_key_not_indexed(key);
                lemma_get_absent(pre@, key);
            }
            let ghost bf = *self;
            self.fix_index_nodes(key, index_on_path, n);
            proof {
                bf.lemma_same_index_view(&pre);
                self.lemma_tower_view(&bf, key, path, level_draw(pre@.len(), pre.always_max, pre.r.state()));
            }
            let ghost af = *self;
            self.inc_len();
            proof {
                self.lemma_same_index_view(&af);
            }
        } else {
            self.base[base_node].set_value(value);
            proof {
                lemma_base_same_links(pre.base@, pre.order@, pre.bpos@, pre.base_head, self.base@);
                lemma_index_base_grow(
                    pre.index@,
                    pre.indexes@,
                    pre.levels@,
                    pre.lvl@,
                    pre.ipos@,
                    pre.base@,
                    self.base@,
                );
                lemma_keys_base_grow(pre.index@, pre.levels@, pre.base@, self.base@);
                assert(pre.order@.no_duplicates()) by {
                    assert forall|i: int, j: int| 0 <= i < j < pre.order@.len() implies pre.order@[i]
                        != pre.order@[j] by {
                        assert(pre.bpos@[pre.order@[i] as int] == i);
                        assert(pre.bpos@[pre.order@[j] as int] == j);
                    }
                }
                lemma_entries_update(pre.base@, pre.order@, self.base@, p);
                assert forall|i: int| 0 <= i < p implies pre@[i].0 < key by {
                    assert(pre.kat(i) < pre.kat(p));
                }
                lemma_put_at(pre@, key, value, p);
                lemma_get_at(pre@, key, p);
                self.lemma_same_index_view(&pre);
            }
        }
    }

    /// Stores `value` under `key`, replacing the value stored there before.
    pub fn add(&mut self, key: i64, value: V)
        requires
            old(self).wf(),
        ensures
            final(self).wf(),
            final(self)@ == put_entry(old(self)@, key, value),
            final(self).spec_always_max() == old(self).spec_always_max(),
            ({
                let ov = old(self)@;
                let iv = old(self).index_view();
                let grows = ov.len() > 0 && get_entry(ov, key) is None;
                let head = ov.len() > 0 && key < ov[0].0;
                let dl = if head {
                    ov.len() + 1
                } else {
                    ov.len()
                };
                let d = level_draw(dl, old(self).spec_always_max(), old(self).rand_state());
                let walks = !head && iv.len() > 0 && iv[iv.len() - 1][0] <= key;
                &&& final(self).index_view() == (if grows {
                    tower_keys(iv, key, d, walks)
                } else {
                    iv
                })
                &&& final(self).rand_state() == (if grows && level_cap(dl) != 0
                    && !old(self).spec_always_max() {
                    crate::rand::step(old(self).rand_state())
                } else {
                    old(self).rand_state()
                })
            }),
    {
        let ghost s0 = *self;
        proof {
            s0.lemma_view_sorted();
        }
        if self.is_empty() {
            let ghost pre = *self;
            let base_node = BaseNode::new(key, value, None);
            let n = self.base.len();
            self.base.push(base_node);
            self.base_head = Some(n);
            proof {
                lemma_base_insert(
                    pre.base@,
                    pre.order@,
                    pre.bpos@,
                    pre.base_head,
                    self.base@,
                    self.base_head,
                    0,
                );
                lemma_entries_insert(pre.base@, pre.order@, self.base@, 0, n);
                lemma_index_base_grow(
                    pre.index@,
                    pre.indexes@,
                    pre.levels@,
                    pre.lvl@,
                    pre.ipos@,
                    pre.base@,
                    self.base@,
                );
                lemma_keys_base_grow(pre.index@, pre.levels@, pre.base@, self.base@);
                self.order = Ghost(pre.order@.insert(0, n));
                self.bpos = Ghost(Seq::new(self.base@.len(), |id: int| 0int));
                assert(self.bpos@ =~= Seq::new(
                    self.base@.len(),
                    |id: int|
                        if id == pre.base@.len() {
                            0
                        } else if pre.bpos@[id] >= 0 {
                            pre.bpos@[id] + 1
                        } else {
                            pre.bpos@[id]
                        },
                ));
                lemma_put_at(pre@, key, value, 0);
            }
            let ghost af = *self;
            self.inc_len();
            proof {
                af.lemma_same_index_view(&s0);
                self.lemma_same_index_view(&af);
            }
            return;
        }
        // insert to head if key is less then head key
        let head = self.get_head_base();
        if self.base[head].get_key() > key {
            let ghost pre = *self;
            let n = self.base.len();
            let base_node = BaseNode::new(key, value, Some(head));
            self.base.push(base_node);
            let grown = self.base.len();
            assert(grown == n + 1);
            self.base_head = Some(n);
            proof {
                lemma_base_insert(
                    pre.base@,
                    pre.order@,
                    pre.bpos@,
                    pre.base_head,
                    self.base@,
                    self.base_head,
                    0,
                );
                lemma_entries_insert(pre.base@, pre.order@, self.base@, 0, n);
                lemma_index_base_grow(
                    pre.index@,
                    pre.indexes@,
                    pre.levels@,
                    pre.lvl@,
                    pre.ipos@,
                    pre.base@,
                    self.base@,
                );
                lemma_keys_base_grow(pre.index@, pre.levels@, pre.base@, self.base@);
                self.order = Ghost(pre.order@.insert(0, n));
                self.bpos = Ghost(
                    Seq::new(
                        self.base@.len(),
                        |id: int|
                            if id == pre.base@.len() {
                                0
                            } else if pre.bpos@[id] >= 0 {
                                pre.bpos@[id] + 1
                            } else {
                                pre.bpos@[id]
                            },
                    ),
                );
                pre.lemma_view_sorted();
                lemma_put_at(pre@, key, value, 0);
                assert forall|i: int| 0 <= i < pre.order@.len() implies pre.kat(i) != key by {
                    if i > 0 {
                        assert(pre.kat(0) < pre.kat(i));
                    }
                }
                pre.lemma_key_not_indexed(key);
                pre.lemma_below_head(key);
            }
            self.inc_len();
            let ghost bf = *self;
            self.fix_index_nodes(key, Vec::new(), n);
            proof {
                bf.lemma_same_index_view(&s0);
                self.lemma_tower_view(&bf, key, Seq::empty(), level_draw(bf.len as nat, bf.always_max, bf.r.state()));
            }
            return;
        }
        proof {
            let top = self.levels@.len() - 1;
            if self.spec_level() > 0 {
                assert(self.levels@[top][0] == self.indexes@[top]);
                assert(self.index_view()[top] == self.level_keys(top));
            }
        }
        // head index is more than key, visit base
        let (base_node, indexs) = if !self.has_index_level() || self.index[self.get_head_index().unwrap()].get_key() > key {
            let base_node = self.search_in_base(key, head);
            (base_node, Vec::new())
        } else {
            let (below, path) = self.search_by_index(key, Operation::Add);
            (self.search_in_base(key, below), path)
        };
        self.handle_add(key, value, base_node, indexs);
    }

    /// The keys along index level `l`, from its head.
    pub closed spec fn level_keys(&self, l: int) -> Seq<i64> {
        self.levels@[l].map_values(|id: usize| self.index@[id as int].key)
    }

    /// The keys of every index level, the lowest level first.
    pub open spec fn index_view(&self) -> Seq<Seq<i64>> {
        Seq::new(self.spec_level(), |l: int| self.level_keys(l))
    }

    /// Law: every index level is non-empty, holds each key at most once and
    /// only keys the list stores, and every key on a level above the lowest
    /// is also on the level below.
    pub proof fn law_index_levels_shape(&self)
        requires
            self.wf(),
        ensures
            levels_nested(self.index_view()),
            forall|l: int| 0 <= l < self.spec_level() ==> #[trigger] self.index_view()[l].len() > 0,
            forall|l: int, i: int, j: int|
                0 <= l < self.spec_level() && 0 <= i < j < self.index_view()[l].len() ==> #[trigger] self.index_view()[l][i]
                    != #[trigger] self.index_view()[l][j],
            forall|l: int, k: i64|
                0 <= l < self.spec_level() && #[trigger] self.index_view()[l].contains(k) ==> get_entry(self@, k) is Some,
    {
        let iv = self.index_view();
        assert(self.levels@.len() == self.spec_level());
        assert forall|l: int| 0 <= l < self.spec_level() implies #[trigger] iv[l].len() > 0 by {
            assert(iv[l] == self.level_keys(l));
        }
        assert forall|l: int, i: int, j: int|
            0 <= l < self.spec_level() && 0 <= i < j < iv[l].len() implies #[trigger] iv[l][i] != #[trigger] iv[l][j] by {
            assert(iv[l] == self.level_keys(l));
            self.lemma_level_keys_distinct(l);
        }
        assert forall|l: int, i: int|
            #![trigger iv[l + 1][i]]
            0 <= l && l + 1 < iv.len() && 0 <= i < iv[l + 1].len() implies iv[l].contains(iv[l + 1][i]) by {
            assert(iv[l + 1] == self.level_keys(l + 1));
            assert(iv[l] == self.level_keys(l));
            let id = self.levels@[l + 1][i];
            assert(self.lvl@[id as int] == l + 1);
            assert(self.child_ok(id as int));
            match self.index@[id as int].child {
                IndexNodeChild::Index(c) => {
                    let p = self.ipos@[c as int];
                    assert(self.levels@[l][p] == c);
                    assert(iv[l][p] == iv[l + 1][i]);
                },
                IndexNodeChild::Base(_) => {},
            }
        }
        self.lemma_view_sorted();
        assert forall|l: int, k: i64| 0 <= l < self.spec_level() && #[trigger] iv[l].contains(k) implies get_entry(
            self@,
            k,
        ) is Some by {
            assert(iv[l] == self.level_keys(l));
            let i = choose|i: int| 0 <= i < iv[l].len() && iv[l][i] == k;
            let id = self.levels@[l][i];
            assert(self.index@[id as int].key == k);
            let b = choose|b: int| #![trigger self.base@[b]] 0 <= b < self.base@.len() && self.base@[b].key
                == self.index@[id as int].key;
            let q = self.bpos@[b];
            assert(self.order@[q] == b);
            assert(self@[q].0 == k);
            lemma_get_at(self@, k, q);
        }
    }

    /// The state of the generator that draws levels.
    pub closed spec fn rand_state(&self) -> u64 {
        self.r.state()
    }

    /// The keys along each index level are distinct.
    proof fn lemma_level_keys_distinct(&self, l: int)
        requires
            self.index_wf(),
            0 <= l < self.levels@.len(),
        ensures
            self.level_keys(l).len() == self.levels@[l].len(),
            forall|i: int| 0 <= i < self.levels@[l].len() ==> #[trigger] self.level_keys(l)[i] == self.index@[self.levels@[l][i] as int].key,
            forall|a: int, b: int| 0 <= a < b < self.level_keys(l).len() ==> self.level_keys(l)[a] != self.level_keys(l)[b],
    {
        let s = self.level_keys(l);
        assert forall|a: int, b: int| 0 <= a < b < s.len() implies s[a] != s[b] by {
            assert(self.index@[self.levels@[l][a] as int].key != self.index@[self.levels@[l][b] as int].key);
        }
    }

    /// Lists with the same index arenas and levels show the same index levels.
    proof fn lemma_same_index_view(&self, other: &Self)
        requires
            self.index == other.index,
            self.indexes == other.indexes,
            self.levels == other.levels,
        ensures
            self.index_view() == other.index_view(),
    {
        assert forall|l: int| 0 <= l < self.spec_level() implies self.level_keys(l) == other.level_keys(l) by {
            assert(self.level_keys(l) =~= other.level_keys(l));
        }
        assert(self.index_view() =~= other.index_view());
    }

    /// The index levels after a tower of height `d` for `key` was added
    /// along the search path `path` (or at the heads when it is empty), from
    /// the arena-level account of the change.
    proof fn lemma_tower_view(&self, pre: &Self, key: i64, path: Seq<usize>, d: int)
        requires
            pre.index_wf(),
            self.index_wf(),
            0 <= d,
            path.len() == 0 || path.len() == pre.levels@.len(),
            forall|j: int|
                0 <= j < path.len() ==> #[trigger] path[j] < pre.index@.len() && pre.lvl@[path[j] as int]
                    == path.len() - 1 - j && pre.ipos@[path[j] as int] == path_pos(
                    pre.index_view(),
                    key,
                    path.len() - 1 - j,
                ),
            self.index@.len() == pre.index@.len() + d + 1,
            forall|id: int| 0 <= id < pre.index@.len() ==> #[trigger] self.index@[id].key == pre.index@[id].key,
            forall|l: int| 0 <= l <= d ==> #[trigger] self.index@[pre.index@.len() + l].key == key,
            self.levels@.len() == (if pre.levels@.len() > d + 1 {
                pre.levels@.len() as int
            } else {
                d + 1
            }),
            forall|l: int|
                0 <= l < self.levels@.len() ==> #[trigger] self.levels@[l] == tower_level(
                    pre.levels@,
                    pre.ipos@,
                    path,
                    pre.index@.len() as int,
                    d,
                    l,
                ),
        ensures
            self.index_view() == tower_keys(pre.index_view(), key, d, path.len() > 0),
    {
        let iv = pre.index_view();
        let tk = tower_keys(iv, key, d, path.len() > 0);
        let n0 = pre.index@.len() as int;
        assert forall|l: int| 0 <= l < self.levels@.len() implies self.level_keys(l) == tk[l] by {
            let lv = self.levels@[l];
            assert(lv == tower_level(pre.levels@, pre.ipos@, path, n0, d, l));
            if l <= d {
                let id = n0 + l;
                assert(self.levels@[self.lvl@[id]][self.ipos@[id]] == id);
                assert(((n0 + l) as usize) as int == n0 + l);
            }
            if l > d {
                assert forall|i: int| 0 <= i < lv.len() implies self.level_keys(l)[i] == pre.level_keys(l)[i] by {
                    assert(pre.levels@[l][i] < n0);
                }
                assert(self.level_keys(l) =~= pre.level_keys(l));
            } else if l < pre.levels@.len() {
                let pl = pre.levels@[l];
                let p = if l < path.len() {
                    pre.ipos@[path[path.len() - 1 - l] as int] + 1
                } else {
                    0
                };
                if l < path.len() {
                    let j = path.len() - 1 - l;
                    assert(pre.lvl@[path[j] as int] == l);
                    assert(0 <= pre.ipos@[path[j] as int] < pl.len());
                }
                assert(p == (if path.len() > 0 {
                    path_pos(iv, key, l) + 1
                } else {
                    0
                }));
                assert(lv == pl.insert(p, (n0 + l) as usize));
                let want = pre.level_keys(l).insert(p, key);
                assert forall|i: int| 0 <= i < lv.len() implies self.level_keys(l)[i] == want[i] by {
                    if i < p {
                        assert(pl[i] < n0);
                        assert(lv[i] == pl[i]);
                    } else if i > p {
                        assert(pl[i - 1] < n0);
                        assert(lv[i] == pl[i - 1]);
                    } else {
                        assert(lv[i] == n0 + l);
                    }
                }
                assert(self.level_keys(l) =~= want);
            } else {
                assert(self.level_keys(l) =~= seq![key]);
            }
        }
        assert(self.index_view() =~= tk);
    }

    /// The number of index nodes.
    pub closed spec fn index_len(&self) -> nat {
        self.index@.len()
    }

    /// The number of index nodes.
    pub fn index_count(&self) -> (r: usize)
        ensures
            r == self.index_len(),
    {
        self.index.len()
    }

    /// The index node at position `id`.
    pub closed spec fn index_at(&self, id: int) -> IndexNode {
        self.index@[id]
    }

    /// The index node at position `id`; its right neighbour is an index node too.
    pub fn get_index_node(&self, id: usize) -> (r: &IndexNode)
        requires
            self.wf(),
            id < self.index_len(),
        ensures
            *r == self.index_at(id as int),
            r.right matches Some(x) ==> x < self.index_len(),
    {
        let ghost l = self.lvl@[id as int];
        let ghost p = self.ipos@[id as int];
        assert(self.levels@[l][p] == id);
        assert(self.index@[self.levels@[l][p] as int].right == self.index@[id as int].right);
        &self.index[id]
    }

    /// Iterates the base nodes in key order.
    pub fn to_iter(&self) -> (r: BaseNodeIterator<'_, V>)
        requires
            self.wf(),
        ensures
            r.wf(),
            r.remaining() == self@,
    {
        BaseNodeIterator::new(self)
    }

    /// The level of index node `id`.
    pub closed spec fn level_of(&self, id: int) -> int {
        self.lvl@[id]
    }

    /// The position of index node `id` on its level, from the head.
    pub closed spec fn pos_in_level(&self, id: int) -> int {
        self.ipos@[id]
    }

    /// Iterates the index nodes of one level from node `id` to the end of
    /// its level.
    pub fn index_to_iter(&self, id: usize) -> (r: IndexNodeIterator<'_, V>)
        requires
            self.wf(),
            id < self.index_len(),
        ensures
            r.wf(),
            0 <= self.level_of(id as int) < self.spec_level(),
            0 <= self.pos_in_level(id as int) < self.index_view()[self.level_of(id as int)].len(),
            self.index_view()[self.level_of(id as int)][self.pos_in_level(id as int)] == self.index_at(
                id as int,
            ).key,
            r.remaining() == self.index_view()[self.level_of(id as int)].skip(self.pos_in_level(id as int)),
    {
        let ghost l = self.lvl@[id as int];
        let ghost p = self.ipos@[id as int];
        assert(self.levels@[l][p] == id);
        assert(self.index_view()[l] == self.level_keys(l));
        IndexNodeIterator { list: self, level: Ghost(l), node: Some(id), pos: Ghost(p) }
    }

    /// Iterates the index nodes of level `level` from its head.
    pub fn level_iter(&self, level: usize) -> (r: IndexNodeIterator<'_, V>)
        requires
            self.wf(),
            level < self.spec_level(),
        ensures
            r.wf(),
            r.remaining() == self.level_keys(level as int),
    {
        IndexNodeIterator {
            list: self,
            level: Ghost(level as int),
            node: Some(self.indexes[level]),
            pos: Ghost(0),
        }
    }
}

impl<V: Copy> SkipList<V> {
    /// The pairs and the index levels of the list, for display.
    pub fn to_graph(&self) -> (g: Graph<V>)
        requires
            self.wf(),
        ensures
            g.base@ == self@,
            g.index@.dom() == Set::new(|l: usize| l < self.spec_level()),
            forall|l: usize| l < self.spec_level() ==> (#[trigger] g.index@[l])@ == self.index_view()[l as int],
    {
        proof {
            lemma_level_numbers_ordered();
        }
        let mut graph = Graph::new();
        let mut iterator = self.to_iter();
        loop
            invariant
                iterator.wf(),
                graph.base@ + iterator.remaining() == self@,
                graph.index@ == Map::<usize, Vec<i64>>::empty(),
            ensures
                graph.base@ == self@,
                graph.index@ == Map::<usize, Vec<i64>>::empty(),
            decreases iterator.remaining().len(),
        {
            let ghost before = iterator.remaining();
            match iterator.next() {
                Some(node_iter) => {
                    let key = node_iter.get_key();
                    let value = node_iter.get_value();
                    graph.add_base_key(key, value);
                    assert(graph.base@ + iterator.remaining() =~= self@) by {
                        assert(before =~= seq![(key, value)] + iterator.remaining());
                    }
                },
                None => {
                    assert(graph.base@ =~= self@);
                    break;
                },
            }
        }
        let levels = self.level();
        let mut level_number: usize = 0;
        while level_number < levels
            invariant
                self.wf(),
                levels == self.spec_level(),
                level_number <= levels,
                graph.base@ == self@,
                graph.index@.dom() == Set::new(|l: usize| l < level_number),
                forall|l: usize| l < level_number ==> (#[trigger] graph.index@[l])@ == self.level_keys(l as int),
            decreases levels - level_number,
        {
            let mut vec: Vec<i64> = Vec::new();
            let mut nodes = self.level_iter(level_number);
            loop
                invariant
                    nodes.wf(),
                    vec@ + nodes.remaining() == self.level_keys(level_number as int),
                ensures
                    vec@ == self.level_keys(level_number as int),
                decreases nodes.remaining().len(),
            {
                let ghost before = nodes.remaining();
                match nodes.next() {
                    Some(node) => {
                        vec.push(node.get_key());
                        assert(vec@ + nodes.remaining() =~= self.level_keys(level_number as int)) by {
                            assert(before =~= seq![node.key] + nodes.remaining());
                        }
                    },
                    None => {
                        assert(vec@ =~= self.level_keys(level_number as int));
                        break;
                    },
                }
            }
            graph.index.insert(level_number, vec);
            assert(graph.index@.dom() =~= Set::new(|l: usize| l < level_number + 1));
            level_number = level_number + 1;
        }
        graph
    }

    /// The value stored under `key`, if there is one.
    pub fn get_value(&self, key: i64) -> (r: Option<V>)
        requires
            self.wf(),
        ensures
            r == get_entry(self@, key),
    {
        self.map_value(key, |v: &V| -> (c: V)
            ensures
                c == *v,
            { *v })
    }
}

/// Walks the base chain of a list in key order.
pub struct BaseNodeIterator<'a, V> {
    list: &'a SkipList<V>,
    node: Option<usize>,
    pos: Ghost<int>,
}

impl<'a, V> BaseNodeIterator<'a, V> {
    pub closed spec fn wf(&self) -> bool {
        &&& self.list.wf()
        &&& 0 <= self.pos@ <= self.list.order@.len()
        &&& self.node == (if self.pos@ < self.list.order@.len() {
            Some(self.list.order@[self.pos@])
        } else {
            None::<usize>
        })
    }

    /// The pairs still to come.
    pub closed spec fn remaining(&self) -> Seq<(i64, V)> {
        self.list@.skip(self.pos@)
    }

    /// An iterator from the first node of `list`.
    pub fn new(list: &'a SkipList<V>) -> (r: Self)
        requires
            list.wf(),
        ensures
            r.wf(),
            r.remaining() == list@,
    {
        let r = BaseNodeIterator { list, node: list.base_head, pos: Ghost(0) };
        assert(r.remaining() =~= list@);
        r
    }

    /// The next base node, or `None` at the end.
    pub fn next(&mut self) -> (r: Option<&'a BaseNode<V>>)
        requires
            old(self).wf(),
        ensures
            final(self).wf(),
            match r {
                None => old(self).remaining().len() == 0 && final(self).remaining() == old(
                    self,
                ).remaining(),
                Some(n) => old(self).remaining().len() > 0 && (n.key, n.value) == old(
                    self,
                ).remaining()[0] && final(self).remaining() == old(self).remaining().drop_first(),
            },
    {
        let list = self.list;
        match self.node {
            Some(n) => {
                let ghost p = self.pos@;
                assert(list.order@[p] == n);
                let node = &list.base[n];
                self.node = node.get_right_node();
                self.pos = Ghost(p + 1);
                assert(self.remaining() =~= old(self).remaining().drop_first());
                Some(node)
            },
            None => None,
        }
    }
}

/// Walks one index level of a list from its head.
pub struct IndexNodeIterator<'a, V> {
    list: &'a SkipList<V>,
    level: Ghost<int>,
    node: Option<usize>,
    pos: Ghost<int>,
}

impl<'a, V> IndexNodeIterator<'a, V> {
    pub closed spec fn wf(&self) -> bool {
        &&& self.list.wf()
        &&& 0 <= self.level@ < self.list.levels@.len()
        &&& 0 <= self.pos@ <= self.list.levels@[self.level@].len()
        &&& self.node == (if self.pos@ < self.list.levels@[self.level@].len() {
            Some(self.list.levels@[self.level@][self.pos@])
        } else {
            None::<usize>
        })
    }

    /// The keys still to come.
    pub closed spec fn remaining(&self) -> Seq<i64> {
        self.list.level_keys(self.level@).skip(self.pos@)
    }

    /// The next index node, or `None` at the end of the level.
    pub fn next(&mut self) -> (r: Option<&'a IndexNode>)
        requires
            old(self).wf(),
        ensures
            final(self).wf(),
            match r {
                None => old(self).remaining().len() == 0 && final(self).remaining() == old(
                    self,
                ).remaining(),
                Some(n) => old(self).remaining().len() > 0 && n.key == old(self).remaining()[0]
                    && final(self).remaining() == old(self).remaining().drop_first(),
            },
    {
        let list = self.list;
        match self.node {
            Some(n) => {
                let ghost p = self.pos@;
                let ghost l = self.level@;
                assert(list.levels@[l][p] == n);
                let node = &list.index[n];
                self.node = node.get_right_node();
                self.pos = Ghost(p + 1);
                assert(self.remaining() =~= old(self).remaining().drop_first());
                Some(node)
            },
            None => None,
        }
    }
}

/// The pairs and the index levels of a list, the keys of each level listed
/// from its head.
pub struct Graph<V> {
    pub base: Vec<(i64, V)>,
    pub index: BTreeMap<usize, Vec<i64>>,
}

impl<V> Graph<V> {
    /// An empty graph.
    pub fn new() -> (g: Graph<V>)
        ensures
            g.base@ == Seq::<(i64, V)>::empty(),
            g.index@ == Map::<usize, Vec<i64>>::empty(),
    {
        Graph { base: Vec::new(), index: BTreeMap::new() }
    }

    /// Appends a pair to the base listing.
    pub fn add_base_key(&mut self, k: i64, value: V)
        ensures
            final(self).base@ == old(self).base@.push((k, value)),
            final(self).index@ == old(self).index@,
    {
        self.base.push((k, value));
    }
}

/// The state of one operation on the list: the operation, its key, the value
/// of an add, and the index nodes passed on the way down.
struct Context<V> {
    op: Operation,
    key: i64,
    value: Option<V>,
    index_nodes_on_path: Vec<usize>,
}

impl<V> Context<V> {
    fn with_add_op(key: i64, value: V) -> (r: Context<V>)
        ensures
            r.op == Operation::Add,
            r.key == key,
            r.value == Some(value),
            r.index_nodes_on_path@.len() == 0,
    {
        Context { op: Operation::Add, key, value: Some(value), index_nodes_on_path: vec![] }
    }

    fn visit(&mut self, node: usize)
        ensures
            final(self).index_nodes_on_path@ == old(self).index_nodes_on_path@.push(node),
            final(self).op == old(self).op,
            final(self).key == old(self).key,
            final(self).value == old(self).value,
    {
        self.index_nodes_on_path.push(node);
    }
}

} // verus!
