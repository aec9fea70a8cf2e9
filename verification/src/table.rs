//! Tables of (name, count) pairs with distinct names.

use vstd::prelude::*;

verus! {

/// Some pair of the table is keyed by `k`.
pub open spec fn counted(table: Seq<(Seq<char>, u64)>, k: Seq<char>) -> bool {
    exists|i: int| 0 <= i < table.len() && (#[trigger] table[i]).0 == k
}

/// No two pairs of the table share a name.
pub open spec fn distinct_names(table: Seq<(Seq<char>, u64)>) -> bool {
    forall|i: int, j: int|
        0 <= i < table.len() && 0 <= j < table.len() && i != j ==> (#[trigger] table[i]).0 != (
        #[trigger] table[j]).0
}

/// The position of the pair keyed by `k` (meaningful when `counted`).
pub open spec fn position(table: Seq<(Seq<char>, u64)>, k: Seq<char>) -> int {
    choose|i: int| 0 <= i < table.len() && (#[trigger] table[i]).0 == k
}

/// The count recorded for `k`, or zero.
pub open spec fn count_of(table: Seq<(Seq<char>, u64)>, k: Seq<char>) -> nat {
    if counted(table, k) {
        table[position(table, k)].1 as nat
    } else {
        0
    }
}

/// Views of the pairs of a table.
pub open spec fn table_views(v: Seq<(String, u64)>) -> Seq<(Seq<char>, u64)> {
    v.map_values(|p: (String, u64)| (p.0@, p.1))
}

/// The position and count of a name, in a table with distinct names.
pub proof fn lemma_position(table: Seq<(Seq<char>, u64)>, i: int)
    requires
        distinct_names(table),
        0 <= i < table.len(),
    ensures
        counted(table, table[i].0),
        position(table, table[i].0) == i,
        count_of(table, table[i].0) == table[i].1,
{
    assert(counted(table, table[i].0));
}

/// Index of the pair keyed by `k`, if any.
pub fn position_in(v: &Vec<(String, u64)>, k: &String) -> (r: Option<usize>)
    ensures
        match r {
            Some(i) => i < v@.len() && v@[i as int].0@ == k@,
            None => !counted(table_views(v@), k@),
        },
{
    let mut i: usize = 0;
    while i < v.len()
        invariant
            i <= v@.len(),
            forall|j: int| 0 <= j < i ==> (#[trigger] v@[j]).0@ != k@,
        decreases v@.len() - i,
    {
        if v[i].0 == *k {
            return Some(i);
        }
        i = i + 1;
    }
    proof {
        if counted(table_views(v@), k@) {
            let p = choose|p: int|
                0 <= p < table_views(v@).len() && (#[trigger] table_views(v@)[p]).0 == k@;
            assert(v@[p].0@ == k@);
        }
    }
    None
}

} // verus!
