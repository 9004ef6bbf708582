//! Facts about the ordering of level numbers, the keys of a graph's index.

use vstd::prelude::*;

verus! {

/// Level numbers (`usize`) are ordered as `BTreeMap` keys require.
pub proof fn lemma_level_numbers_ordered()
    ensures
        vstd::laws_cmp::obeys_cmp::<usize>(),
{
    broadcast use vstd::laws_cmp::group_laws_cmp;

}

} // verus!
