//! An index of a snapshot's entries sorted by name, for lookups by binary search.

use vstd::prelude::*;

use crate::names::{
    lemma_name_lt_irreflexive, lemma_name_lt_total, lemma_name_lt_transitive, name_less, name_lt,
};
use crate::{has_key, lemma_lookup_first, lemma_lookup_none, lookup, ChordShape};

verus! {

broadcast use {vstd::seq_lib::group_to_multiset_ensures, vstd::multiset::group_multiset_axioms};

/// Entry `i` comes before entry `j`: its name comes first, or the names are
/// equal and `i` comes first.
pub open spec fn entry_before(entries: Seq<(String, ChordShape)>, i: int, j: int) -> bool {
    name_lt(entries[i].0@, entries[j].0@) || (entries[i].0@ == entries[j].0@ && i < j)
}

/// Every position names an entry.
pub open spec fn in_range(entries: Seq<(String, ChordShape)>, order: Seq<usize>) -> bool {
    forall|a: int| 0 <= a < order.len() ==> (#[trigger] order[a]) < entries.len()
}

/// No position names an entry that comes before the entry of an earlier position.
pub open spec fn sorted_positions(entries: Seq<(String, ChordShape)>, order: Seq<usize>) -> bool {
    forall|a: int, b: int|
        0 <= a < b < order.len() ==> !entry_before(
            entries,
            #[trigger] order[b] as int,
            #[trigger] order[a] as int,
        )
}

/// The indices `0..n`.
pub open spec fn all_indices(n: nat) -> Seq<usize> {
    Seq::new(n, |i: int| i as usize)
}

proof fn lemma_entry_before_order(entries: Seq<(String, ChordShape)>, i: int, j: int, k: int)
    ensures
        !(entry_before(entries, i, j) && entry_before(entries, j, i)),
        !entry_before(entries, i, i),
        i != j ==> entry_before(entries, i, j) || entry_before(entries, j, i),
        entry_before(entries, i, j) && entry_before(entries, j, k) ==> entry_before(
            entries,
            i,
            k,
        ),
{
    let (a, b, c) = (entries[i].0@, entries[j].0@, entries[k].0@);
    lemma_name_lt_total(a, b);
    lemma_name_lt_irreflexive(a);
    lemma_name_lt_irreflexive(b);
    if name_lt(a, b) && name_lt(b, c) {
        lemma_name_lt_transitive(a, b, c);
    }
}

/// An index of entries: their positions sorted by name, ties in entry order.
pub struct NameIndex {
    order: Vec<usize>,
}

impl NameIndex {
    /// The entry positions, in index order.
    pub closed spec fn positions(self) -> Seq<usize> {
        self.order@
    }

    /// The index holds each entry position once, sorted by name.
    pub open spec fn indexes(self, entries: Seq<(String, ChordShape)>) -> bool {
        &&& self.positions().to_multiset() == all_indices(entries.len()).to_multiset()
        &&& in_range(entries, self.positions())
        &&& sorted_positions(entries, self.positions())
    }

    /// Index the entries.
    pub fn new(entries: &Vec<(String, ChordShape)>) -> (ix: Self)
        ensures
            ix.indexes(entries@),
    {
        let mut all: Vec<usize> = Vec::new();
        let n = entries.len();
        let mut i: usize = 0;
        while i < n
            invariant
                n == entries@.len(),
                i <= n,
                all@ == all_indices(i as nat),
            decreases n - i,
        {
            all.push(i);
            assert(all@ =~= all_indices((i + 1) as nat));
            i = i + 1;
        }
        let order = merge_sort(entries, all);
        NameIndex { order }
    }

    /// Index of the first entry keyed by `name`, if any, found by binary search.
    pub fn find(&self, entries: &Vec<(String, ChordShape)>, name: &String) -> (r: Option<usize>)
        requires
            self.indexes(entries@),
        ensures
            match r {
                Some(i) => {
                    &&& i < entries@.len()
                    &&& entries@[i as int].0@ == name@
                    &&& forall|j: int| 0 <= j < i ==> #[trigger] entries@[j].0@ != name@
                    &&& lookup(entries@, name@) == Some(entries@[i as int].1)
                },
                None => {
                    &&& !has_key(entries@, name@)
                    &&& lookup(entries@, name@) == None::<ChordShape>
                },
            },
    {
        let ghost es = entries@;
        let ghost order = self.order@;
        let ghost k = name@;
        proof {
            assert(order.to_multiset().len() == order.len());
            assert(all_indices(es.len()).to_multiset().len() == all_indices(es.len()).len());
        }
        let n = self.order.len();
        let mut lo: usize = 0;
        let mut hi: usize = n;
        while lo < hi
            invariant
                es == entries@,
                order == self.order@,
                k == name@,
                n == order.len(),
                n == es.len(),
                self.indexes(es),
                lo <= hi <= n,
                forall|q: int| 0 <= q < lo ==> name_lt(es[#[trigger] order[q] as int].0@, k),
                forall|q: int| hi <= q < n ==> !name_lt(es[#[trigger] order[q] as int].0@, k),
            decreases hi - lo,
        {
            let mid = lo + (hi - lo) / 2;
            let at = self.order[mid];
            if name_less(&entries[at].0, name) {
                proof {
                    assert forall|q: int| 0 <= q <= mid implies name_lt(
                        es[#[trigger] order[q] as int].0@,
                        k,
                    ) by {
                        lemma_position_le(es, order, q, mid as int);
                        if name_lt(es[order[q] as int].0@, es[at as int].0@) {
                            lemma_name_lt_transitive(
                                es[order[q] as int].0@,
                                es[at as int].0@,
                                k,
                            );
                        }
                    }
                }
                lo = mid + 1;
            } else {
                proof {
                    assert forall|q: int| mid <= q < n implies !name_lt(
                        es[#[trigger] order[q] as int].0@,
                        k,
                    ) by {
                        lemma_position_le(es, order, mid as int, q);
                        if name_lt(es[order[q] as int].0@, k) && name_lt(
                            es[at as int].0@,
                            es[order[q] as int].0@,
                        ) {
                            lemma_name_lt_transitive(es[at as int].0@, es[order[q] as int].0@, k);
                        }
                    }
                }
                hi = mid;
            }
        }
        // Every entry sits at some position of the index.
        proof {
            assert forall|j: int| #![trigger es[j]] 0 <= j < es.len() implies exists|q: int|
                0 <= q < n && #[trigger] order[q] == j by {
                assert(all_indices(es.len())[j] == j as usize);
                assert(all_indices(es.len()).contains(j as usize));
                assert(all_indices(es.len()).to_multiset().count(j as usize) > 0);
                assert(order.to_multiset().count(j as usize) > 0);
                assert(order.contains(j as usize));
            }
        }
        if lo < n && entries[self.order[lo]].0 == *name {
            let found = self.order[lo];
            proof {
                assert forall|j: int| 0 <= j < found implies #[trigger] es[j].0@ != k by {
                    if es[j].0@ == k {
                        let q = choose|q: int| 0 <= q < n && #[trigger] order[q] == j;
                        lemma_name_lt_irreflexive(k);
                        assert(q >= lo);
                        if q > lo {
                            assert(!entry_before(es, order[q] as int, order[lo as int] as int));
                        }
                    }
                }
                lemma_lookup_first(es, k, found as int);
            }
            Some(found)
        } else {
            proof {
                assert forall|j: int| 0 <= j < es.len() implies #[trigger] es[j].0@ != k by {
                    if es[j].0@ == k {
                        let q = choose|q: int| 0 <= q < n && #[trigger] order[q] == j;
                        lemma_name_lt_irreflexive(k);
                        assert(q >= lo);
                        assert(lo < n);
                        let kl = es[order[lo as int] as int].0@;
                        lemma_position_le(es, order, lo as int, q);
                        lemma_name_lt_total(kl, k);
                        assert(name_lt(k, kl));
                    }
                }
                lemma_lookup_none(es, k);
            }
            None
        }
    }
}

/// In a sorted index, the name at an earlier position comes first or is equal.
proof fn lemma_position_le(entries: Seq<(String, ChordShape)>, order: Seq<usize>, a: int, b: int)
    requires
        sorted_positions(entries, order),
        in_range(entries, order),
        0 <= a <= b < order.len(),
    ensures
        name_lt(entries[order[a] as int].0@, entries[order[b] as int].0@) || entries[order[a] as int].0@
            == entries[order[b] as int].0@,
{
    if a < b {
        assert(!entry_before(entries, order[b] as int, order[a] as int));
        lemma_name_lt_total(entries[order[a] as int].0@, entries[order[b] as int].0@);
    }
}

/// `i` comes before `j`, computed.
fn precedes(entries: &Vec<(String, ChordShape)>, i: usize, j: usize) -> (r: bool)
    requires
        i < entries@.len(),
        j < entries@.len(),
    ensures
        r == entry_before(entries@, i as int, j as int),
{
    name_less(&entries[i].0, &entries[j].0) || (entries[i].0 == entries[j].0 && i < j)
}

fn merge_sort(entries: &Vec<(String, ChordShape)>, v: Vec<usize>) -> (r: Vec<usize>)
    requires
        in_range(entries@, v@),
    ensures
        r@.to_multiset() == v@.to_multiset(),
        in_range(entries@, r@),
        sorted_positions(entries@, r@),
    decreases v@.len(),
{
    if v.len() <= 1 {
        return v;
    }
    let mid = v.len() / 2;
    let mut left = v;
    let ghost whole = left@;
    let right = left.split_off(mid);
    assert(whole =~= left@ + right@);
    assert(in_range(entries@, left@) && in_range(entries@, right@)) by {
        assert forall|a: int| 0 <= a < left@.len() implies (#[trigger] left@[a]) < entries@.len() by {
            assert(left@[a] == whole[a]);
        }
        assert forall|a: int| 0 <= a < right@.len() implies (#[trigger] right@[a]) < entries@.len() by {
            assert(right@[a] == whole[a + left@.len()]);
        }
    }
    let ghost (lv, rv) = (left@, right@);
    let l = merge_sort(entries, left);
    let r = merge_sort(entries, right);
    let out = merge(entries, l, r);
    proof {
        vstd::seq_lib::lemma_multiset_commutative(lv, rv);
        vstd::seq_lib::lemma_multiset_commutative(l@, r@);
    }
    out
}

fn merge(entries: &Vec<(String, ChordShape)>, l: Vec<usize>, r: Vec<usize>) -> (out: Vec<usize>)
    requires
        in_range(entries@, l@),
        in_range(entries@, r@),
        sorted_positions(entries@, l@),
        sorted_positions(entries@, r@),
    ensures
        out@.to_multiset() == (l@ + r@).to_multiset(),
        in_range(entries@, out@),
        sorted_positions(entries@, out@),
{
    let ghost es = entries@;
    let mut out: Vec<usize> = Vec::new();
    let mut i: usize = 0;
    let mut j: usize = 0;
    while i < l.len() || j < r.len()
        invariant
            es == entries@,
            in_range(es, l@),
            in_range(es, r@),
            sorted_positions(es, l@),
            sorted_positions(es, r@),
            i <= l@.len(),
            j <= r@.len(),
            out@.to_multiset() == l@.take(i as int).to_multiset().add(
                r@.take(j as int).to_multiset(),
            ),
            in_range(es, out@),
            sorted_positions(es, out@),
            out@.len() > 0 ==> (i < l@.len() ==> !entry_before(
                es,
                l@[i as int] as int,
                out@.last() as int,
            )) && (j < r@.len() ==> !entry_before(es, r@[j as int] as int, out@.last() as int)),
        decreases l@.len() + r@.len() - i - j,
    {
        let take_left = j >= r.len() || (i < l.len() && !precedes(entries, r[j], l[i]));
        let x = if take_left {
            l[i]
        } else {
            r[j]
        };
        let ghost before = out@;
        proof {
            // `x` comes no earlier than anything already out.
            assert forall|a: int| 0 <= a < before.len() implies !entry_before(
                es,
                x as int,
                #[trigger] before[a] as int,
            ) by {
                let last = before.last();
                lemma_entry_before_order(es, x as int, before[a] as int, last as int);
                lemma_entry_before_order(es, before[a] as int, last as int, x as int);
                if a < before.len() - 1 {
                    assert(!entry_before(es, last as int, before[a] as int));
                }
            }
        }
        out.push(x);
        proof {
            assert(out@ == before.push(x));
            assert forall|a: int, b: int| 0 <= a < b < out@.len() implies !entry_before(
                es,
                #[trigger] out@[b] as int,
                #[trigger] out@[a] as int,
            ) by {
                if b < before.len() {
                    assert(out@[a] == before[a] && out@[b] == before[b]);
                } else {
                    assert(out@[a] == before[a]);
                }
            }
        }
        if take_left {
            proof {
                assert(l@.take(i + 1) =~= l@.take(i as int).push(x));
                if i + 1 < l@.len() {
                    assert(!entry_before(es, l@[i + 1] as int, l@[i as int] as int));
                }
            }
            i = i + 1;
        } else {
            proof {
                assert(r@.take(j + 1) =~= r@.take(j as int).push(x));
                if j + 1 < r@.len() {
                    assert(!entry_before(es, r@[j + 1] as int, r@[j as int] as int));
                }
                if i < l@.len() {
                    lemma_entry_before_order(es, r@[j as int] as int, l@[i as int] as int, 0);
                }
            }
            j = j + 1;
        }
    }
    proof {
        assert(l@.take(l@.len() as int) =~= l@);
        assert(r@.take(r@.len() as int) =~= r@);
        vstd::seq_lib::lemma_multiset_commutative(l@, r@);
    }
    out
}

} // verus!
