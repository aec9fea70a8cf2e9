//! Spectral: compare decision patterns across repos.
//!
//! Each snapshot becomes a decision vector, sorted by function name
//! (HARDCODE 1.0, MODEL 0.0, HYBRID 0.5, held doubled as 2, 0, 1). Two vectors are aligned on the union
//! of their function names, a name missing from one side counting 0.5 there,
//! and compared by cosine similarity. The dot product and squared norms are
//! computed exactly here (scaled by four); the square roots and the quotient
//! are left to the caller.

use vstd::prelude::*;

use crate::table::{count_of, counted, distinct_names, lemma_position, position_in, table_views};
use crate::names::{
    lemma_name_lt_irreflexive, lemma_name_lt_total, lemma_name_lt_transitive, name_less, name_lt,
};
use crate::{has_key, lemma_lookup_unique, lookup, ChordShape, MuscleMemory, Trit};

verus! {

/// Spectral analysis across multiple muscle memory snapshots.
pub struct Spectral;

/// Twice the weight of a decision: HARDCODE 1.0, MODEL 0.0, HYBRID 0.5.
pub open spec fn weight(t: Trit) -> u64 {
    match t {
        Trit::Hardcode => 2,
        Trit::Model => 0,
        Trit::Hybrid => 1,
    }
}

/// Twice the weight a function missing from a vector counts there (0.5).
pub open spec fn missing_weight() -> u64 {
    1
}

/// Executable `weight`.
pub fn trit_weight(t: Trit) -> (w: u64)
    ensures
        w == weight(t),
{
    match t {
        Trit::Hardcode => 2,
        Trit::Model => 0,
        Trit::Hybrid => 1,
    }
}

/// Decision vector of one snapshot: (function name, doubled weight) pairs.
pub struct DecisionVector {
    entries: Vec<(String, u64)>,
}

impl DecisionVector {
    /// The (name, doubled weight) pairs.
    pub closed spec fn table(self) -> Seq<(Seq<char>, u64)> {
        table_views(self.entries@)
    }

    /// The (name, doubled weight) pairs.
    pub fn entries(&self) -> (r: &Vec<(String, u64)>)
        ensures
            table_views(r@) == self.table(),
    {
        &self.entries
    }
}

/// The (name, doubled weight) pairs of a snapshot's entries, in entry order.
pub open spec fn decision_table(entries: Seq<(String, ChordShape)>) -> Seq<(Seq<char>, u64)> {
    entries.map_values(|e: (String, ChordShape)| (e.0@, weight(e.1.decision)))
}

/// `x` inserted into `s` before the first pair whose name comes after `x`'s.
pub open spec fn insert_by_name(s: Seq<(Seq<char>, u64)>, x: (Seq<char>, u64)) -> Seq<
    (Seq<char>, u64),
>
    decreases s.len(),
{
    if s.len() == 0 {
        seq![x]
    } else if name_lt(x.0, s[0].0) {
        seq![x] + s
    } else {
        seq![s[0]] + insert_by_name(s.drop_first(), x)
    }
}

/// The pairs of `t` sorted by name (stable: pairs of equal names keep their order).
pub open spec fn sorted_by_name(t: Seq<(Seq<char>, u64)>) -> Seq<(Seq<char>, u64)>
    decreases t.len(),
{
    if t.len() == 0 {
        Seq::empty()
    } else {
        insert_by_name(sorted_by_name(t.drop_last()), t.last())
    }
}

/// The names of the pairs are strictly increasing.
pub open spec fn names_increasing(s: Seq<(Seq<char>, u64)>) -> bool {
    forall|i: int, j: int| 0 <= i < j < s.len() ==> name_lt((#[trigger] s[i]).0, (#[trigger] s[j]).0)
}

/// The decision vector of a snapshot: its (name, doubled weight) pairs sorted by name.
pub open spec fn vector_table(entries: Seq<(String, ChordShape)>) -> Seq<(Seq<char>, u64)> {
    sorted_by_name(decision_table(entries))
}

proof fn lemma_insert_position(s: Seq<(Seq<char>, u64)>, x: (Seq<char>, u64), p: int)
    requires
        0 <= p <= s.len(),
        forall|j: int| 0 <= j < p ==> !name_lt(x.0, (#[trigger] s[j]).0),
        p == s.len() || name_lt(x.0, s[p].0),
    ensures
        insert_by_name(s, x) == s.insert(p, x),
    decreases p,
{
    if p == 0 {
        assert(insert_by_name(s, x) =~= s.insert(p, x));
    } else {
        let rest = s.drop_first();
        assert forall|j: int| 0 <= j < p - 1 implies !name_lt(x.0, (#[trigger] rest[j]).0) by {
            assert(rest[j] == s[j + 1]);
        }
        if p < s.len() {
            assert(rest[p - 1] == s[p]);
        }
        assert(!name_lt(x.0, s[0].0));
        lemma_insert_position(rest, x, p - 1);
        assert(insert_by_name(s, x) =~= s.insert(p, x));
    }
}

proof fn lemma_insert_by_name(s: Seq<(Seq<char>, u64)>, x: (Seq<char>, u64))
    ensures
        insert_by_name(s, x).len() == s.len() + 1,
        forall|j: int|
            0 <= j < insert_by_name(s, x).len() ==> #[trigger] insert_by_name(s, x)[j] == x
                || s.contains(insert_by_name(s, x)[j]),
        insert_by_name(s, x).contains(x),
        forall|y: (Seq<char>, u64)| s.contains(y) ==> insert_by_name(s, x).contains(y),
        names_increasing(s) && (forall|j: int| 0 <= j < s.len() ==> (#[trigger] s[j]).0 != x.0)
            ==> names_increasing(insert_by_name(s, x)),
    decreases s.len(),
{
    let r = insert_by_name(s, x);
    if s.len() == 0 {
        assert(r[0] == x);
    } else if name_lt(x.0, s[0].0) {
        assert(r =~= seq![x] + s);
        assert(r[0] == x);
        assert forall|j: int| 0 <= j < r.len() implies #[trigger] r[j] == x || s.contains(r[j]) by {
            if j > 0 {
                assert(r[j] == s[j - 1]);
            }
        }
        assert forall|y: (Seq<char>, u64)| s.contains(y) implies r.contains(y) by {
            let k = choose|k: int| 0 <= k < s.len() && s[k] == y;
            assert(r[k + 1] == y);
        }
        if names_increasing(s) {
            assert forall|i: int, j: int| 0 <= i < j < r.len() implies name_lt(
                (#[trigger] r[i]).0,
                (#[trigger] r[j]).0,
            ) by {
                if i == 0 {
                    if j > 1 {
                        assert(name_lt(s[0].0, s[j - 1].0));
                        lemma_name_lt_transitive(x.0, s[0].0, s[j - 1].0);
                    }
                } else {
                    assert(name_lt(s[i - 1].0, s[j - 1].0));
                }
            }
        }
    } else {
        let rest = s.drop_first();
        let rr = insert_by_name(rest, x);
        lemma_insert_by_name(rest, x);
        assert(r =~= seq![s[0]] + rr);
        assert forall|j: int| 0 <= j < r.len() implies #[trigger] r[j] == x || s.contains(r[j]) by {
            if j == 0 {
                assert(s.contains(s[0]));
            } else {
                assert(r[j] == rr[j - 1]);
                if rr[j - 1] != x {
                    let k = choose|k: int| 0 <= k < rest.len() && rest[k] == rr[j - 1];
                    assert(s[k + 1] == r[j]);
                }
            }
        }
        let k0 = choose|k: int| 0 <= k < rr.len() && rr[k] == x;
        assert(r[k0 + 1] == x);
        assert forall|y: (Seq<char>, u64)| s.contains(y) implies r.contains(y) by {
            let k = choose|k: int| 0 <= k < s.len() && s[k] == y;
            if k == 0 {
                assert(r[0] == y);
            } else {
                assert(rest[k - 1] == y);
                assert(rest.contains(y));
                let q = choose|q: int| 0 <= q < rr.len() && rr[q] == y;
                assert(r[q + 1] == y);
            }
        }
        if names_increasing(s) && (forall|j: int| 0 <= j < s.len() ==> (#[trigger] s[j]).0 != x.0) {
            assert(names_increasing(rest)) by {
                assert forall|i: int, j: int| 0 <= i < j < rest.len() implies name_lt(
                    (#[trigger] rest[i]).0,
                    (#[trigger] rest[j]).0,
                ) by {
                    assert(name_lt(s[i + 1].0, s[j + 1].0));
                }
            }
            assert forall|j: int| 0 <= j < rest.len() implies (#[trigger] rest[j]).0 != x.0 by {
                assert(s[j + 1].0 != x.0);
            }
            lemma_name_lt_total(s[0].0, x.0);
            assert(s[0].0 != x.0);
            assert forall|i: int, j: int| 0 <= i < j < r.len() implies name_lt(
                (#[trigger] r[i]).0,
                (#[trigger] r[j]).0,
            ) by {
                if i == 0 {
                    assert(r[j] == rr[j - 1]);
                    if rr[j - 1] == x {
                    } else {
                        let k = choose|k: int| 0 <= k < rest.len() && rest[k] == rr[j - 1];
                        assert(name_lt(s[0].0, s[k + 1].0));
                    }
                } else {
                    assert(r[i] == rr[i - 1] && r[j] == rr[j - 1]);
                }
            }
        }
    }
}

proof fn lemma_increasing_distinct(s: Seq<(Seq<char>, u64)>)
    requires
        names_increasing(s),
    ensures
        distinct_names(s),
{
    assert forall|i: int, j: int|
        0 <= i < s.len() && 0 <= j < s.len() && i != j implies (#[trigger] s[i]).0 != (
    #[trigger] s[j]).0 by {
        lemma_name_lt_irreflexive(s[i].0);
        if i < j {
            assert(name_lt(s[i].0, s[j].0));
        } else {
            assert(name_lt(s[j].0, s[i].0));
        }
    }
}

/// Sorting by name keeps exactly the pairs of the table, and a table with
/// distinct names comes out with strictly increasing names.
pub proof fn lemma_sorted_by_name(t: Seq<(Seq<char>, u64)>)
    ensures
        forall|y: (Seq<char>, u64)|
            #![trigger sorted_by_name(t).contains(y)]
            #![trigger t.contains(y)]
            sorted_by_name(t).contains(y) <==> t.contains(y),
        distinct_names(t) ==> names_increasing(sorted_by_name(t)),
    decreases t.len(),
{
    if t.len() > 0 {
        let v = t.drop_last();
        let x = t.last();
        let sv = sorted_by_name(v);
        lemma_sorted_by_name(v);
        lemma_insert_by_name(sv, x);
        let r = sorted_by_name(t);
        assert(r == insert_by_name(sv, x));
        assert forall|y: (Seq<char>, u64)| r.contains(y) <==> t.contains(y) by {
            if r.contains(y) {
                let k = choose|k: int| 0 <= k < r.len() && r[k] == y;
                assert(insert_by_name(sv, x)[k] == y);
                if y == x {
                    assert(t[t.len() - 1] == y);
                } else {
                    assert(sv.contains(y));
                    assert(v.contains(y));
                    let q = choose|q: int| 0 <= q < v.len() && v[q] == y;
                    assert(t[q] == y);
                }
            }
            if t.contains(y) {
                let k = choose|k: int| 0 <= k < t.len() && t[k] == y;
                if k < t.len() - 1 {
                    assert(v[k] == y);
                    assert(v.contains(y));
                    assert(sv.contains(y));
                } else {
                    assert(y == x);
                }
            }
        }
        if distinct_names(t) {
            assert(distinct_names(v)) by {
                assert forall|i: int, j: int|
                    0 <= i < v.len() && 0 <= j < v.len() && i != j implies (#[trigger] v[i]).0 != (
                #[trigger] v[j]).0 by {
                    assert(t[i].0 != t[j].0);
                }
            }
            assert forall|j: int| 0 <= j < sv.len() implies (#[trigger] sv[j]).0 != x.0 by {
                assert(sv.contains(sv[j]));
                assert(v.contains(sv[j]));
                let q = choose|q: int| 0 <= q < v.len() && v[q] == sv[j];
                assert(t[q].0 != t[t.len() - 1].0);
            }
        }
    }
}

/// Two tables with distinct names and the same pairs give the same names and counts.
pub proof fn lemma_same_pairs(t: Seq<(Seq<char>, u64)>, u: Seq<(Seq<char>, u64)>, k: Seq<char>)
    requires
        distinct_names(t),
        distinct_names(u),
        forall|y: (Seq<char>, u64)| u.contains(y) <==> t.contains(y),
    ensures
        counted(u, k) == counted(t, k),
        count_of(u, k) == count_of(t, k),
{
    if counted(t, k) {
        let i = choose|i: int| 0 <= i < t.len() && (#[trigger] t[i]).0 == k;
        assert(t.contains(t[i]));
        let j = choose|j: int| 0 <= j < u.len() && u[j] == t[i];
        lemma_position(t, i);
        lemma_position(u, j);
    }
    if counted(u, k) {
        let j = choose|j: int| 0 <= j < u.len() && (#[trigger] u[j]).0 == k;
        assert(u.contains(u[j]));
        let i = choose|i: int| 0 <= i < t.len() && t[i] == u[j];
        assert(t[i].0 == k);
    }
}

/// The decision vector of a snapshot: its (name, doubled weight) pairs,
/// sorted by name.
pub fn build_decision_vector(mm: &MuscleMemory) -> (v: DecisionVector)
    ensures
        v.table() == vector_table(mm.chords@),
        forall|y: (Seq<char>, u64)| v.table().contains(y) <==> decision_table(mm.chords@).contains(y),
        mm.has_unique_keys() ==> names_increasing(v.table()),
{
    let mut entries: Vec<(String, u64)> = Vec::new();
    let n = mm.chords.len();
    let ghost dt = decision_table(mm.chords@);
    let mut i: usize = 0;
    while i < n
        invariant
            n == mm.chords@.len(),
            dt == decision_table(mm.chords@),
            i <= n,
            table_views(entries@) == sorted_by_name(dt.take(i as int)),
        decreases n - i,
    {
        let key = &mm.chords[i].0;
        let w = trit_weight(mm.chords[i].1.decision);
        let ghost before = table_views(entries@);
        let mut p: usize = 0;
        while p < entries.len() && !name_less(key, &entries[p].0)
            invariant
                before == table_views(entries@),
                p <= entries@.len(),
                forall|j: int| 0 <= j < p ==> !name_lt(key@, (#[trigger] before[j]).0),
            decreases entries@.len() - p,
        {
            assert(before[p as int].0 == entries@[p as int].0@);
            p = p + 1;
        }
        proof {
            if p < entries@.len() {
                assert(before[p as int].0 == entries@[p as int].0@);
            }
            lemma_insert_position(before, (key@, w), p as int);
            assert(dt.take(i + 1).drop_last() =~= dt.take(i as int));
            assert(dt.take(i + 1).last() == (key@, w));
        }
        entries.insert(p, (key.clone(), w));
        assert(table_views(entries@) =~= before.insert(p as int, (key@, w)));
        i = i + 1;
    }
    assert(dt.take(n as int) =~= dt);
    proof {
        lemma_sorted_by_name(dt);
        if mm.has_unique_keys() {
            lemma_decision_table_valid(*mm);
        }
    }
    DecisionVector { entries }
}

/// Doubled weight of `k` in a vector, or the missing weight.
pub open spec fn weight_in(table: Seq<(Seq<char>, u64)>, k: Seq<char>) -> nat {
    if counted(table, k) {
        count_of(table, k)
    } else {
        missing_weight() as nat
    }
}

/// (dot, norm1, norm2), scaled by four, over the first `n` names of `w1`,
/// each aligned with its weight in `w2`.
pub open spec fn first_side_terms(w1: Seq<(Seq<char>, u64)>, w2: Seq<(Seq<char>, u64)>, n: nat) -> (
    nat,
    nat,
    nat,
)
    decreases n,
{
    if n == 0 || n > w1.len() {
        (0, 0, 0)
    } else {
        let (d, x, y) = first_side_terms(w1, w2, (n - 1) as nat);
        let a = w1[n - 1].1 as nat;
        let b = weight_in(w2, w1[n - 1].0);
        (d + a * b, x + a * a, y + b * b)
    }
}

/// (dot, norm1, norm2), scaled by four, over the first `n` names of `w2`
/// that `w1` lacks, each aligned with the missing weight in `w1`.
pub open spec fn second_side_terms(w1: Seq<(Seq<char>, u64)>, w2: Seq<(Seq<char>, u64)>, n: nat) -> (
    nat,
    nat,
    nat,
)
    decreases n,
{
    if n == 0 || n > w2.len() {
        (0, 0, 0)
    } else {
        let (d, x, y) = second_side_terms(w1, w2, (n - 1) as nat);
        if counted(w1, w2[n - 1].0) {
            (d, x, y)
        } else {
            let b = w2[n - 1].1 as nat;
            (d + b, x + 1, y + b * b)
        }
    }
}

/// (dot, norm1, norm2) of two aligned vectors, scaled by four.
pub open spec fn aligned_terms(w1: Seq<(Seq<char>, u64)>, w2: Seq<(Seq<char>, u64)>) -> (nat, nat, nat) {
    let (d1, x1, y1) = first_side_terms(w1, w2, w1.len());
    let (d2, x2, y2) = second_side_terms(w1, w2, w2.len());
    (d1 + d2, x1 + x2, y1 + y2)
}

/// The cosine similarity of two decision vectors, as far as it is exact.
#[derive(Debug, Clone, Copy, PartialEq, Eq, Structural)]
pub enum Similarity {
    /// Both vectors are zero: similarity 1.
    Identical,
    /// Exactly one vector is zero: similarity 0.
    Opposite,
    /// Similarity `dot / (sqrt(norm1) * sqrt(norm2))`; all three are scaled by four.
    Cosine { dot: u128, norm1: u128, norm2: u128 },
}

/// The similarity of two aligned vectors.
pub open spec fn similarity_of(w1: Seq<(Seq<char>, u64)>, w2: Seq<(Seq<char>, u64)>) -> Similarity {
    let (d, x, y) = aligned_terms(w1, w2);
    if x == 0 && y == 0 {
        Similarity::Identical
    } else if x == 0 || y == 0 {
        Similarity::Opposite
    } else {
        Similarity::Cosine { dot: d as u128, norm1: x as u128, norm2: y as u128 }
    }
}

proof fn lemma_small_products(a: nat, b: nat)
    requires
        a <= 2,
        b <= 2,
    ensures
        a * b <= 4,
{
    assert(a * b <= 4) by (nonlinear_arith)
        requires
            a <= 2,
            b <= 2,
    ;
}

/// Compute the cosine similarity between two decision vectors, on the union
/// of their function names (a missing function counts 0.5).
pub fn cosine_similarity(v1: &DecisionVector, v2: &DecisionVector) -> (s: Similarity)
    requires
        distinct_names(v1.table()),
        distinct_names(v2.table()),
        forall|i: int| 0 <= i < v1.table().len() ==> (#[trigger] v1.table()[i]).1 <= 2,
        forall|i: int| 0 <= i < v2.table().len() ==> (#[trigger] v2.table()[i]).1 <= 2,
    ensures
        s == similarity_of(v1.table(), v2.table()),
{
    let ghost w1 = v1.table();
    let ghost w2 = v2.table();
    let mut dot: u128 = 0;
    let mut norm1: u128 = 0;
    let mut norm2: u128 = 0;
    let n1 = v1.entries.len();
    let mut i: usize = 0;
    while i < n1
        invariant
            w1 == table_views(v1.entries@),
            w2 == table_views(v2.entries@),
            distinct_names(w2),
            forall|k: int| 0 <= k < w1.len() ==> (#[trigger] w1[k]).1 <= 2,
            forall|k: int| 0 <= k < w2.len() ==> (#[trigger] w2[k]).1 <= 2,
            n1 == w1.len(),
            i <= n1,
            (dot as nat, norm1 as nat, norm2 as nat) == first_side_terms(w1, w2, i as nat),
            dot <= 4 * i,
            norm1 <= 4 * i,
            norm2 <= 4 * i,
        decreases n1 - i,
    {
        let a = v1.entries[i].1;
        assert(w1[i as int].1 == a);
        let b: u64 = match position_in(&v2.entries, &v1.entries[i].0) {
            Some(j) => {
                proof {
                    lemma_position(w2, j as int);
                }
                v2.entries[j].1
            },
            None => 1,
        };
        assert(b as nat == weight_in(w2, w1[i as int].0));
        proof {
            lemma_small_products(a as nat, b as nat);
            lemma_small_products(a as nat, a as nat);
            lemma_small_products(b as nat, b as nat);
        }
        dot = dot + (a as u128) * (b as u128);
        norm1 = norm1 + (a as u128) * (a as u128);
        norm2 = norm2 + (b as u128) * (b as u128);
        i = i + 1;
    }
    let n2 = v2.entries.len();
    let mut j: usize = 0;
    while j < n2
        invariant
            w1 == table_views(v1.entries@),
            w2 == table_views(v2.entries@),
            forall|k: int| 0 <= k < w2.len() ==> (#[trigger] w2[k]).1 <= 2,
            n1 == w1.len(),
            n2 == w2.len(),
            j <= n2,
            ({
                let (d1, x1, y1) = first_side_terms(w1, w2, n1 as nat);
                let (d2, x2, y2) = second_side_terms(w1, w2, j as nat);
                dot as nat == d1 + d2 && norm1 as nat == x1 + x2 && norm2 as nat == y1 + y2
            }),
            dot <= 4 * n1 + 4 * j,
            norm1 <= 4 * n1 + 4 * j,
            norm2 <= 4 * n1 + 4 * j,
        decreases n2 - j,
    {
        let b = v2.entries[j].1;
        assert(w2[j as int].1 == b);
        match position_in(&v1.entries, &v2.entries[j].0) {
            Some(k) => {
                assert(w1[k as int].0 == w2[j as int].0);
                assert(counted(w1, w2[j as int].0));
            },
            None => {
                proof {
                    lemma_small_products(b as nat, b as nat);
                }
                dot = dot + b as u128;
                norm1 = norm1 + 1;
                norm2 = norm2 + (b as u128) * (b as u128);
            },
        }
        j = j + 1;
    }
    if norm1 == 0 && norm2 == 0 {
        Similarity::Identical
    } else if norm1 == 0 || norm2 == 0 {
        Similarity::Opposite
    } else {
        Similarity::Cosine { dot, norm1, norm2 }
    }
}


/// The similarity of two repos' snapshots.
#[derive(Debug, Clone)]
pub struct PairSimilarity {
    pub repo_a: String,
    pub repo_b: String,
    pub similarity: Similarity,
}

impl View for PairSimilarity {
    type V = (Seq<char>, Seq<char>, Similarity);

    open spec fn view(&self) -> (Seq<char>, Seq<char>, Similarity) {
        (self.repo_a@, self.repo_b@, self.similarity)
    }
}

pub open spec fn pair_views(s: Seq<PairSimilarity>) -> Seq<(Seq<char>, Seq<char>, Similarity)> {
    s.map_values(|p: PairSimilarity| p@)
}

/// The similarity of the snapshots `i` and `j`.
pub open spec fn pair_of(mems: Seq<MuscleMemory>, i: int, j: int) -> (Seq<char>, Seq<char>, Similarity) {
    (
        mems[i].repo@,
        mems[j].repo@,
        similarity_of(vector_table(mems[i].chords@), vector_table(mems[j].chords@)),
    )
}

/// The pairs `(i, k)` for `i < k < j`, in order of `k`.
pub open spec fn row_prefix(mems: Seq<MuscleMemory>, i: int, j: int) -> Seq<
    (Seq<char>, Seq<char>, Similarity),
>
    decreases j - i,
{
    if j <= i + 1 {
        Seq::empty()
    } else {
        row_prefix(mems, i, j - 1).push(pair_of(mems, i, j - 1))
    }
}

/// The pairs `(i, j)` with `i < n` and `i < j`, in lexicographic order.
pub open spec fn pairs_prefix(mems: Seq<MuscleMemory>, n: nat) -> Seq<
    (Seq<char>, Seq<char>, Similarity),
>
    decreases n,
{
    if n == 0 {
        Seq::empty()
    } else {
        pairs_prefix(mems, (n - 1) as nat) + row_prefix(mems, n - 1, mems.len() as int)
    }
}

/// Every pair `(i, j)` with `i < j`, in lexicographic order (the flattened upper triangle).
pub open spec fn all_pairs(mems: Seq<MuscleMemory>) -> Seq<(Seq<char>, Seq<char>, Similarity)> {
    pairs_prefix(mems, mems.len())
}

proof fn lemma_decision_table_valid(mm: MuscleMemory)
    requires
        mm.has_unique_keys(),
    ensures
        distinct_names(decision_table(mm.chords@)),
        forall|i: int|
            0 <= i < decision_table(mm.chords@).len() ==> (#[trigger] decision_table(
                mm.chords@,
            )[i]).1 <= 2,
{
    let t = decision_table(mm.chords@);
    assert forall|i: int, j: int|
        0 <= i < t.len() && 0 <= j < t.len() && i != j implies (#[trigger] t[i]).0 != (
    #[trigger] t[j]).0 by {
        assert(mm.chords@[i].0@ != mm.chords@[j].0@);
    }
}

proof fn lemma_vector_table_valid(mm: MuscleMemory)
    requires
        mm.has_unique_keys(),
    ensures
        distinct_names(vector_table(mm.chords@)),
        forall|i: int|
            0 <= i < vector_table(mm.chords@).len() ==> (#[trigger] vector_table(
                mm.chords@,
            )[i]).1 <= 2,
{
    let dt = decision_table(mm.chords@);
    let vt = vector_table(mm.chords@);
    lemma_decision_table_valid(mm);
    lemma_sorted_by_name(dt);
    lemma_increasing_distinct(vt);
    assert forall|i: int| 0 <= i < vt.len() implies (#[trigger] vt[i]).1 <= 2 by {
        assert(vt.contains(vt[i]));
        assert(dt.contains(vt[i]));
        let q = choose|q: int| 0 <= q < dt.len() && dt[q] == vt[i];
    }
}

impl Spectral {
    /// The similarity of every pair of snapshots `(i, j)` with `i < j`, in
    /// lexicographic order, each with the two repos' names.
    pub fn pairwise(mems: &[MuscleMemory]) -> (pairs: Vec<PairSimilarity>)
        requires
            forall|i: int| 0 <= i < mems@.len() ==> (#[trigger] mems@[i]).has_unique_keys(),
        ensures
            pair_views(pairs@) == all_pairs(mems@),
    {
        let n = mems.len();
        let mut vectors: Vec<DecisionVector> = Vec::new();
        let mut k: usize = 0;
        while k < n
            invariant
                n == mems@.len(),
                k <= n,
                vectors@.len() == k,
                forall|q: int|
                    0 <= q < k ==> (#[trigger] vectors@[q]).table() == vector_table(
                        mems@[q].chords@,
                    ),
            decreases n - k,
        {
            vectors.push(build_decision_vector(&mems[k]));
            k = k + 1;
        }

        let mut pairs: Vec<PairSimilarity> = Vec::new();
        let mut i: usize = 0;
        while i < n
            invariant
                n == mems@.len(),
                i <= n,
                vectors@.len() == n,
                forall|q: int|
                    0 <= q < n ==> (#[trigger] vectors@[q]).table() == vector_table(
                        mems@[q].chords@,
                    ),
                forall|q: int| 0 <= q < n ==> (#[trigger] mems@[q]).has_unique_keys(),
                pair_views(pairs@) == pairs_prefix(mems@, i as nat),
            decreases n - i,
        {
            let ghost before = pair_views(pairs@);
            let mut j: usize = i + 1;
            while j < n
                invariant
                    n == mems@.len(),
                    i < n,
                    i + 1 <= j <= n,
                    vectors@.len() == n,
                    forall|q: int|
                        0 <= q < n ==> (#[trigger] vectors@[q]).table() == vector_table(
                            mems@[q].chords@,
                        ),
                    forall|q: int| 0 <= q < n ==> (#[trigger] mems@[q]).has_unique_keys(),
                    pair_views(pairs@) == before + row_prefix(mems@, i as int, j as int),
                decreases n - j,
            {
                proof {
                    lemma_vector_table_valid(mems@[i as int]);
                    lemma_vector_table_valid(mems@[j as int]);
                }
                let sim = cosine_similarity(&vectors[i], &vectors[j]);
                let ghost mid = pair_views(pairs@);
                pairs.push(
                    PairSimilarity {
                        repo_a: mems[i].repo.clone(),
                        repo_b: mems[j].repo.clone(),
                        similarity: sim,
                    },
                );
                assert(pair_views(pairs@) =~= mid.push(pair_of(mems@, i as int, j as int)));
                assert(before + row_prefix(mems@, i as int, j + 1) =~= (before + row_prefix(
                    mems@,
                    i as int,
                    j as int,
                )).push(pair_of(mems@, i as int, j as int)));
                j = j + 1;
            }
            i = i + 1;
        }
        pairs
    }
}

proof fn lemma_matching_first_side(w1: Seq<(Seq<char>, u64)>, w2: Seq<(Seq<char>, u64)>, n: nat)
    requires
        n <= w1.len(),
        distinct_names(w1),
        distinct_names(w2),
        forall|k: Seq<char>| counted(w1, k) == counted(w2, k),
        forall|k: Seq<char>| #[trigger] count_of(w1, k) == count_of(w2, k),
    ensures
        first_side_terms(w1, w2, n).0 == first_side_terms(w1, w2, n).1,
        first_side_terms(w1, w2, n).1 == first_side_terms(w1, w2, n).2,
    decreases n,
{
    if n > 0 {
        lemma_matching_first_side(w1, w2, (n - 1) as nat);
        let key = w1[n - 1].0;
        lemma_position(w1, n - 1);
        assert(count_of(w1, key) == count_of(w2, key));
    }
}

proof fn lemma_matching_second_side(w1: Seq<(Seq<char>, u64)>, w2: Seq<(Seq<char>, u64)>, n: nat)
    requires
        n <= w2.len(),
        forall|k: Seq<char>| counted(w1, k) == counted(w2, k),
    ensures
        second_side_terms(w1, w2, n) == (0nat, 0nat, 0nat),
    decreases n,
{
    if n > 0 {
        lemma_matching_second_side(w1, w2, (n - 1) as nat);
        assert(counted(w2, w2[n - 1].0));
    }
}

/// Two snapshots (each a map) that hold the same functions with the same
/// decisions are fully similar: both vectors are zero, or the dot product
/// equals both squared norms (cosine 1).
pub proof fn law_same_decisions_full_similarity(a: MuscleMemory, b: MuscleMemory)
    requires
        a.has_unique_keys(),
        b.has_unique_keys(),
        forall|k: Seq<char>| has_key(a.chords@, k) == has_key(b.chords@, k),
        forall|k: Seq<char>|
            has_key(a.chords@, k) ==> (#[trigger] lookup(a.chords@, k)).unwrap().decision == lookup(
                b.chords@,
                k,
            ).unwrap().decision,
    ensures
        match similarity_of(vector_table(a.chords@), vector_table(b.chords@)) {
            Similarity::Identical => true,
            Similarity::Opposite => false,
            Similarity::Cosine { dot, norm1, norm2 } => dot == norm1 && norm1 == norm2,
        },
{
    let w1 = decision_table(a.chords@);
    let w2 = decision_table(b.chords@);
    let u1 = vector_table(a.chords@);
    let u2 = vector_table(b.chords@);
    lemma_decision_table_valid(a);
    lemma_decision_table_valid(b);
    assert forall|k: Seq<char>| counted(w1, k) == has_key(a.chords@, k) by {
        if counted(w1, k) {
            let i = choose|i: int| 0 <= i < w1.len() && (#[trigger] w1[i]).0 == k;
            assert(a.chords@[i].0@ == k);
        }
        if has_key(a.chords@, k) {
            let i = choose|i: int| 0 <= i < a.chords@.len() && #[trigger] a.chords@[i].0@ == k;
            assert(w1[i].0 == k);
        }
    }
    assert forall|k: Seq<char>| counted(w2, k) == has_key(b.chords@, k) by {
        if counted(w2, k) {
            let i = choose|i: int| 0 <= i < w2.len() && (#[trigger] w2[i]).0 == k;
            assert(b.chords@[i].0@ == k);
        }
        if has_key(b.chords@, k) {
            let i = choose|i: int| 0 <= i < b.chords@.len() && #[trigger] b.chords@[i].0@ == k;
            assert(w2[i].0 == k);
        }
    }
    assert forall|k: Seq<char>| #[trigger] count_of(w1, k) == count_of(w2, k) by {
        if counted(w1, k) {
            let i = choose|i: int| 0 <= i < w1.len() && (#[trigger] w1[i]).0 == k;
            lemma_position(w1, i);
            lemma_lookup_unique(a, i);
            let j = choose|j: int| 0 <= j < b.chords@.len() && #[trigger] b.chords@[j].0@ == k;
            lemma_lookup_unique(b, j);
            lemma_position(w2, j);
            assert(lookup(a.chords@, k).unwrap().decision == lookup(b.chords@, k).unwrap().decision);
        }
    }
    // Sorting by name keeps the names and counts.
    lemma_sorted_by_name(w1);
    lemma_sorted_by_name(w2);
    lemma_vector_table_valid(a);
    lemma_vector_table_valid(b);
    assert forall|k: Seq<char>| counted(u1, k) == counted(u2, k) by {
        lemma_same_pairs(w1, u1, k);
        lemma_same_pairs(w2, u2, k);
    }
    assert forall|k: Seq<char>| #[trigger] count_of(u1, k) == count_of(u2, k) by {
        lemma_same_pairs(w1, u1, k);
        lemma_same_pairs(w2, u2, k);
    }
    lemma_matching_first_side(u1, u2, u1.len());
    lemma_matching_second_side(u1, u2, u2.len());
}

proof fn lemma_insert_by_name_len(s: Seq<(Seq<char>, u64)>, x: (Seq<char>, u64))
    ensures
        insert_by_name(s, x).len() == s.len() + 1,
    decreases s.len(),
{
    if s.len() > 0 && !name_lt(x.0, s[0].0) {
        lemma_insert_by_name_len(s.drop_first(), x);
    }
}

proof fn lemma_sorted_by_name_len(t: Seq<(Seq<char>, u64)>)
    ensures
        sorted_by_name(t).len() == t.len(),
    decreases t.len(),
{
    if t.len() > 0 {
        lemma_sorted_by_name_len(t.drop_last());
        lemma_insert_by_name_len(sorted_by_name(t.drop_last()), t.last());
    }
}

proof fn lemma_terms_against_nothing(w1: Seq<(Seq<char>, u64)>, n: nat)
    requires
        n <= w1.len(),
    ensures
        first_side_terms(w1, Seq::empty(), n).2 == n,
    decreases n,
{
    if n > 0 {
        lemma_terms_against_nothing(w1, (n - 1) as nat);
        assert(!counted(Seq::<(Seq<char>, u64)>::empty(), w1[n - 1].0));
    }
}

/// Compared with a snapshot that holds no function, each function of the
/// first counts 0.5 on the other side: the second squared norm (scaled by
/// four) is the number of functions, so the result is never `Identical` when
/// the first snapshot has a function.
pub proof fn law_missing_functions_count_half(a: MuscleMemory, b: MuscleMemory)
    requires
        b.chords@.len() == 0,
    ensures
        aligned_terms(vector_table(a.chords@), vector_table(b.chords@)).2 == a.chords@.len(),
        a.chords@.len() > 0 ==> match similarity_of(
            vector_table(a.chords@),
            vector_table(b.chords@),
        ) {
            Similarity::Identical => false,
            Similarity::Opposite => true,
            Similarity::Cosine { dot, norm1, norm2 } => norm2 == a.chords@.len(),
        },
{
    let w1 = vector_table(a.chords@);
    let w2 = vector_table(b.chords@);
    assert(decision_table(b.chords@).len() == 0);
    assert(w2 =~= Seq::<(Seq<char>, u64)>::empty());
    lemma_sorted_by_name_len(decision_table(a.chords@));
    assert(w1.len() == a.chords@.len());
    lemma_terms_against_nothing(w1, w1.len());
    assert(second_side_terms(w1, w2, w2.len()) == (0nat, 0nat, 0nat));
    assert(a.chords.len() == a.chords@.len());
    assert(a.chords@.len() <= usize::MAX);
}

/// A snapshot (a map) compared with itself is fully similar.
pub proof fn law_self_similarity(a: MuscleMemory)
    requires
        a.has_unique_keys(),
    ensures
        match similarity_of(vector_table(a.chords@), vector_table(a.chords@)) {
            Similarity::Identical => true,
            Similarity::Opposite => false,
            Similarity::Cosine { dot, norm1, norm2 } => dot == norm1 && norm1 == norm2,
        },
{
    law_same_decisions_full_similarity(a, a);
}

// ---------------------------------------------------------------------------
// Symmetry of the aligned terms.
// ---------------------------------------------------------------------------

/// Some of the first `n` pairs of the table is named `k`.
pub open spec fn prefix_names(t: Seq<(Seq<char>, u64)>, k: Seq<char>, n: nat) -> bool {
    exists|j: int| 0 <= j < n && (#[trigger] t[j]).0 == k
}

proof fn lemma_counted_push(w: Seq<(Seq<char>, u64)>, e: (Seq<char>, u64), x: Seq<char>)
    ensures
        counted(w.push(e), x) == (counted(w, x) || e.0 == x),
{
    if counted(w.push(e), x) {
        let i = choose|i: int| 0 <= i < w.push(e).len() && (#[trigger] w.push(e)[i]).0 == x;
        if i < w.len() {
            assert(w[i] == w.push(e)[i]);
        }
    }
    if counted(w, x) {
        let i = choose|i: int| 0 <= i < w.len() && (#[trigger] w[i]).0 == x;
        assert(w.push(e)[i] == w[i]);
    }
    if e.0 == x {
        assert(w.push(e)[w.len() as int] == e);
    }
}

proof fn lemma_distinct_push(w: Seq<(Seq<char>, u64)>, e: (Seq<char>, u64))
    requires
        distinct_names(w),
        !counted(w, e.0),
    ensures
        distinct_names(w.push(e)),
{
    let v = w.push(e);
    assert forall|i: int, j: int|
        0 <= i < v.len() && 0 <= j < v.len() && i != j implies (#[trigger] v[i]).0 != (
    #[trigger] v[j]).0 by {
        if i < w.len() && j < w.len() {
            assert(w[i].0 != w[j].0);
        } else if i < w.len() {
            assert(v[i] == w[i]);
        } else {
            assert(v[j] == w[j]);
        }
    }
}

proof fn lemma_weight_in_push(w: Seq<(Seq<char>, u64)>, e: (Seq<char>, u64), x: Seq<char>)
    requires
        distinct_names(w),
        !counted(w, e.0),
    ensures
        x != e.0 ==> weight_in(w.push(e), x) == weight_in(w, x),
        x == e.0 ==> weight_in(w.push(e), x) == e.1 && weight_in(w, x) == 1,
{
    let v = w.push(e);
    lemma_distinct_push(w, e);
    lemma_counted_push(w, e, x);
    if x == e.0 {
        assert(v[w.len() as int] == e);
        lemma_position(v, w.len() as int);
    } else if counted(w, x) {
        let i = choose|i: int| 0 <= i < w.len() && (#[trigger] w[i]).0 == x;
        lemma_position(w, i);
        assert(v[i] == w[i]);
        lemma_position(v, i);
    }
}

proof fn lemma_first_prefix_stable(
    w1: Seq<(Seq<char>, u64)>,
    e: (Seq<char>, u64),
    w2: Seq<(Seq<char>, u64)>,
    m: nat,
)
    requires
        m <= w1.len(),
    ensures
        first_side_terms(w1.push(e), w2, m) == first_side_terms(w1, w2, m),
    decreases m,
{
    if m > 0 {
        lemma_first_prefix_stable(w1, e, w2, (m - 1) as nat);
        assert(w1.push(e)[m - 1] == w1[m - 1]);
    }
}

proof fn lemma_second_prefix_stable(
    w2: Seq<(Seq<char>, u64)>,
    w1: Seq<(Seq<char>, u64)>,
    e: (Seq<char>, u64),
    m: nat,
)
    requires
        m <= w1.len(),
    ensures
        second_side_terms(w2, w1.push(e), m) == second_side_terms(w2, w1, m),
    decreases m,
{
    if m > 0 {
        lemma_second_prefix_stable(w2, w1, e, (m - 1) as nat);
        assert(w1.push(e)[m - 1] == w1[m - 1]);
    }
}

/// Adding a name to the first table takes its term out of the second side.
proof fn lemma_second_drop(
    w1: Seq<(Seq<char>, u64)>,
    e: (Seq<char>, u64),
    w2: Seq<(Seq<char>, u64)>,
    n: nat,
)
    requires
        !counted(w1, e.0),
        distinct_names(w2),
        n <= w2.len(),
    ensures
        ({
            let (d, x, y) = second_side_terms(w1, w2, n);
            let (d2, x2, y2) = second_side_terms(w1.push(e), w2, n);
            let b = count_of(w2, e.0);
            if prefix_names(w2, e.0, n) {
                d == d2 + b && x == x2 + 1 && y == y2 + b * b
            } else {
                d == d2 && x == x2 && y == y2
            }
        }),
    decreases n,
{
    if n > 0 {
        lemma_second_drop(w1, e, w2, (n - 1) as nat);
        let name = w2[n - 1].0;
        lemma_counted_push(w1, e, name);
        if name == e.0 {
            lemma_position(w2, n - 1);
            assert(prefix_names(w2, e.0, n));
            assert(!prefix_names(w2, e.0, (n - 1) as nat)) by {
                if prefix_names(w2, e.0, (n - 1) as nat) {
                    let j = choose|j: int| 0 <= j < n - 1 && (#[trigger] w2[j]).0 == e.0;
                    assert(w2[j].0 != w2[n - 1].0);
                }
            }
        } else {
            assert(prefix_names(w2, e.0, n) == prefix_names(w2, e.0, (n - 1) as nat)) by {
                if prefix_names(w2, e.0, n) {
                    let j = choose|j: int| 0 <= j < n && (#[trigger] w2[j]).0 == e.0;
                    assert(j != n - 1);
                }
            }
        }
    }
}

/// Adding a name to the table a first side is aligned against changes its term there.
proof fn lemma_first_against_push(
    w2: Seq<(Seq<char>, u64)>,
    w1: Seq<(Seq<char>, u64)>,
    e: (Seq<char>, u64),
    n: nat,
)
    requires
        distinct_names(w1),
        !counted(w1, e.0),
        distinct_names(w2),
        n <= w2.len(),
    ensures
        ({
            let (d, x, y) = first_side_terms(w2, w1, n);
            let (d2, x2, y2) = first_side_terms(w2, w1.push(e), n);
            let b = count_of(w2, e.0);
            let a = e.1 as nat;
            if prefix_names(w2, e.0, n) {
                d2 + b == d + b * a && x2 == x && y2 + 1 == y + a * a
            } else {
                d2 == d && x2 == x && y2 == y
            }
        }),
    decreases n,
{
    if n > 0 {
        lemma_first_against_push(w2, w1, e, (n - 1) as nat);
        let name = w2[n - 1].0;
        lemma_weight_in_push(w1, e, name);
        if name == e.0 {
            lemma_position(w2, n - 1);
            assert(prefix_names(w2, e.0, n));
            assert(!prefix_names(w2, e.0, (n - 1) as nat)) by {
                if prefix_names(w2, e.0, (n - 1) as nat) {
                    let j = choose|j: int| 0 <= j < n - 1 && (#[trigger] w2[j]).0 == e.0;
                    assert(w2[j].0 != w2[n - 1].0);
                }
            }
        } else {
            assert(prefix_names(w2, e.0, n) == prefix_names(w2, e.0, (n - 1) as nat)) by {
                if prefix_names(w2, e.0, n) {
                    let j = choose|j: int| 0 <= j < n && (#[trigger] w2[j]).0 == e.0;
                    assert(j != n - 1);
                }
            }
        }
    }
}

proof fn lemma_terms_against_empty(w2: Seq<(Seq<char>, u64)>, n: nat)
    requires
        n <= w2.len(),
    ensures
        ({
            let (d, x, y) = second_side_terms(Seq::empty(), w2, n);
            let (d2, x2, y2) = first_side_terms(w2, Seq::empty(), n);
            d == d2 && x == y2 && y == x2
        }),
    decreases n,
{
    if n > 0 {
        lemma_terms_against_empty(w2, (n - 1) as nat);
        let b = w2[n - 1].1 as nat;
        assert(!counted(Seq::<(Seq<char>, u64)>::empty(), w2[n - 1].0));
        assert(b * 1 == b);
    }
}

proof fn lemma_prefix_names_all(w: Seq<(Seq<char>, u64)>, k: Seq<char>)
    ensures
        prefix_names(w, k, w.len()) == counted(w, k),
{
    if counted(w, k) {
        let i = choose|i: int| 0 <= i < w.len() && (#[trigger] w[i]).0 == k;
        assert(prefix_names(w, k, w.len()));
    }
}

/// Aligning `w2` against `w1` gives the dot product of aligning `w1` against
/// `w2`, with the two squared norms exchanged.
proof fn lemma_terms_swap(w1: Seq<(Seq<char>, u64)>, w2: Seq<(Seq<char>, u64)>)
    requires
        distinct_names(w1),
        distinct_names(w2),
    ensures
        aligned_terms(w2, w1) == (aligned_terms(w1, w2).0, aligned_terms(w1, w2).2, aligned_terms(
            w1,
            w2,
        ).1),
    decreases w1.len(),
{
    if w1.len() == 0 {
        assert(w1 =~= Seq::<(Seq<char>, u64)>::empty());
        lemma_terms_against_empty(w2, w2.len());
        assert(first_side_terms(w1, w2, w1.len()) == (0nat, 0nat, 0nat));
        assert(second_side_terms(w2, w1, w1.len()) == (0nat, 0nat, 0nat));
        let e0 = second_side_terms(Seq::<(Seq<char>, u64)>::empty(), w2, w2.len());
        let e1 = first_side_terms(w2, Seq::<(Seq<char>, u64)>::empty(), w2.len());
        assert(second_side_terms(w1, w2, w2.len()) == e0);
        assert(first_side_terms(w2, w1, w2.len()) == e1);
        assert(aligned_terms(w2, w1).0 == aligned_terms(w1, w2).0);
        assert(aligned_terms(w2, w1).1 == aligned_terms(w1, w2).2);
        assert(aligned_terms(w2, w1).2 == aligned_terms(w1, w2).1);
    } else {
        let v = w1.drop_last();
        let e = w1.last();
        assert(w1 =~= v.push(e));
        assert(distinct_names(v)) by {
            assert forall|i: int, j: int|
                0 <= i < v.len() && 0 <= j < v.len() && i != j implies (#[trigger] v[i]).0 != (
            #[trigger] v[j]).0 by {
                assert(w1[i].0 != w1[j].0);
            }
        }
        assert(!counted(v, e.0)) by {
            if counted(v, e.0) {
                let i = choose|i: int| 0 <= i < v.len() && (#[trigger] v[i]).0 == e.0;
                assert(w1[i].0 != w1[w1.len() - 1].0);
            }
        }
        lemma_terms_swap(v, w2);
        // The first side of (w1, w2): one more term.
        lemma_first_prefix_stable(v, e, w2, v.len());
        // The second side of (w1, w2): the term of e's name leaves it.
        lemma_second_drop(v, e, w2, w2.len());
        // The first side of (w2, w1): e's name now aligns with e's weight.
        lemma_first_against_push(w2, v, e, w2.len());
        // The second side of (w2, w1): e's term joins it unless w2 has the name.
        lemma_second_prefix_stable(w2, v, e, v.len());
        lemma_prefix_names_all(w2, e.0);
        let a = e.1 as nat;
        let b = weight_in(w2, e.0);
        assert(a * b == b * a) by (nonlinear_arith);
        let f12 = first_side_terms(w1, w2, w1.len());
        let fv2 = first_side_terms(v, w2, v.len());
        assert(f12 == (fv2.0 + a * b, fv2.1 + a * a, fv2.2 + b * b));
        let s12 = second_side_terms(w1, w2, w2.len());
        let sv2 = second_side_terms(v, w2, w2.len());
        let f21 = first_side_terms(w2, w1, w2.len());
        let f2v = first_side_terms(w2, v, w2.len());
        let s21 = second_side_terms(w2, w1, w1.len());
        let s2v = second_side_terms(w2, v, v.len());
        assert(aligned_terms(w1, w2) == (f12.0 + s12.0, f12.1 + s12.1, f12.2 + s12.2));
        assert(aligned_terms(w2, w1) == (f21.0 + s21.0, f21.1 + s21.1, f21.2 + s21.2));
        assert(aligned_terms(v, w2) == (fv2.0 + sv2.0, fv2.1 + sv2.1, fv2.2 + sv2.2));
        assert(aligned_terms(w2, v) == (f2v.0 + s2v.0, f2v.1 + s2v.1, f2v.2 + s2v.2));
        assert(f2v.0 + s2v.0 == fv2.0 + sv2.0);
        assert(f2v.1 + s2v.1 == fv2.2 + sv2.2);
        assert(f2v.2 + s2v.2 == fv2.1 + sv2.1);
        if counted(w2, e.0) {
            assert(count_of(w2, e.0) == b);
            assert(s21 == s2v);
            assert(sv2.0 == s12.0 + b && sv2.1 == s12.1 + 1 && sv2.2 == s12.2 + b * b);
            assert(f21.0 + b == f2v.0 + b * a && f21.1 == f2v.1 && f21.2 + 1 == f2v.2 + a * a);
            assert(f21.0 + s21.0 == f12.0 + s12.0);
            assert(f21.1 + s21.1 == f12.2 + s12.2);
            assert(f21.2 + s21.2 == f12.1 + s12.1);
        } else {
            assert(b == 1);
            assert(s21 == (s2v.0 + a, s2v.1 + 1, s2v.2 + a * a));
            assert(sv2 == s12);
            assert(f21 == f2v);
            assert(a * 1 == a);
            assert(b * b == 1) by (nonlinear_arith)
                requires
                    b == 1,
            ;
            assert(f21.0 + s21.0 == f12.0 + s12.0);
            assert(f21.1 + s21.1 == f12.2 + s12.2);
            assert(f21.2 + s21.2 == f12.1 + s12.1);
        }
    }
}

/// Similarity is symmetric: comparing `b` with `a` gives what comparing `a`
/// with `b` gives, with the two norms exchanged (the same cosine).
pub proof fn law_similarity_is_symmetric(a: MuscleMemory, b: MuscleMemory)
    requires
        a.has_unique_keys(),
        b.has_unique_keys(),
    ensures
        similarity_of(vector_table(b.chords@), vector_table(a.chords@)) == match similarity_of(
            vector_table(a.chords@),
            vector_table(b.chords@),
        ) {
            Similarity::Identical => Similarity::Identical,
            Similarity::Opposite => Similarity::Opposite,
            Similarity::Cosine { dot, norm1, norm2 } => Similarity::Cosine {
                dot,
                norm1: norm2,
                norm2: norm1,
            },
        },
{
    lemma_vector_table_valid(a);
    lemma_vector_table_valid(b);
    lemma_terms_swap(vector_table(a.chords@), vector_table(b.chords@));
}

} // verus!
