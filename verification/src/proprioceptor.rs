//! Proprioceptor: real-time monitoring of flex calls.

use vstd::prelude::*;

use crate::table::{
    count_of, counted, distinct_names, lemma_position, position, position_in, table_views,
};
use crate::text::{decimal, decimal_string};
use crate::{keys_of, string_views, ChordShape, F64Bits, FlexResult, MuscleMemory, Trit};

verus! {

broadcast use vstd::seq_lib::group_seq_properties;

/// The table after one more flex of `k`.
pub open spec fn bumped(table: Seq<(Seq<char>, u64)>, k: Seq<char>) -> Seq<(Seq<char>, u64)> {
    if counted(table, k) {
        let i = position(table, k);
        table.update(i, (k, (table[i].1 + 1) as u64))
    } else {
        table.push((k, 1u64))
    }
}

/// The window of recent flexes after one more flex of `k`: it keeps the last 100.
pub open spec fn slid(recent: Seq<Seq<char>>, k: Seq<char>) -> Seq<Seq<char>> {
    let r = recent.push(k);
    if r.len() > window_size() {
        r.drop_first()
    } else {
        r
    }
}

/// How many recent flexes the tracker keeps.
pub open spec fn window_size() -> nat {
    100
}

/// How many recent flexes are needed before a pattern shift can be seen.
pub open spec fn min_recent_for_shift() -> nat {
    20
}

/// How many top chords are compared.
pub open spec fn top_size() -> nat {
    10
}

/// How many occurrences of `x` the sequence holds.
pub open spec fn occurrences(s: Seq<Seq<char>>, x: Seq<char>) -> nat
    decreases s.len(),
{
    if s.len() == 0 {
        0
    } else {
        occurrences(s.drop_last(), x) + if s.last() == x {
            1nat
        } else {
            0nat
        }
    }
}

/// The first `k` elements of `s`, or all of them when there are fewer.
pub open spec fn leading(s: Seq<Seq<char>>, k: nat) -> Seq<Seq<char>> {
    if s.len() <= k {
        s
    } else {
        s.take(k as int)
    }
}

/// `top` is a choice of the (at most) `k` most frequent names of `recent`:
/// distinct names of `recent`, `k` of them unless `recent` has fewer distinct
/// names, none less frequent than a name left out. Ties may be broken either way.
pub open spec fn is_top(top: Seq<Seq<char>>, recent: Seq<Seq<char>>, k: nat) -> bool {
    &&& top.no_duplicates()
    &&& top.len() <= k
    &&& forall|i: int| 0 <= i < top.len() ==> recent.contains(#[trigger] top[i])
    &&& (top.len() == k || forall|x: Seq<char>| recent.contains(x) ==> top.contains(x))
    &&& forall|x: Seq<char>, y: Seq<char>|
        #![trigger top.contains(x), top.contains(y)]
        top.contains(x) && recent.contains(y) && !top.contains(y) ==> occurrences(recent, x)
            >= occurrences(recent, y)
}

/// How many names of `top` also appear in `base`.
pub open spec fn overlap(top: Seq<Seq<char>>, base: Seq<Seq<char>>) -> nat
    decreases top.len(),
{
    if top.len() == 0 {
        0
    } else {
        overlap(top.drop_last(), base) + if base.contains(top.last()) {
            1nat
        } else {
            0nat
        }
    }
}

/// `shifted` is a possible answer of the pattern check on this window and
/// baseline: never with fewer than 20 recent flexes; otherwise whether fewer
/// than three of some choice of the ten most frequent recent names are among
/// the first ten of the baseline.
pub open spec fn shift_outcome(recent: Seq<Seq<char>>, baseline: Seq<Seq<char>>, shifted: bool) -> bool {
    if recent.len() < min_recent_for_shift() {
        !shifted
    } else {
        exists|top: Seq<Seq<char>>|
            is_top(top, recent, top_size()) && shifted == (overlap(
                top,
                leading(baseline, top_size()),
            ) < 3)
    }
}

proof fn lemma_overlap_first_ten(top: Seq<Seq<char>>, base: Seq<Seq<char>>)
    ensures
        overlap(top, leading(base, top_size())) == top.filter(
            |x: Seq<char>| exists|j: int| 0 <= j < 10 && j < base.len() && #[trigger] base[j] == x,
        ).len(),
    decreases top.len(),
{
    reveal_with_fuel(Seq::<Seq<char>>::filter, 1);
    let pred = |x: Seq<char>| exists|j: int| 0 <= j < 10 && j < base.len() && #[trigger] base[j] == x;
    if top.len() > 0 {
        lemma_overlap_first_ten(top.drop_last(), base);
        let x = top.last();
        let lead = leading(base, top_size());
        if lead.contains(x) {
            let j = choose|j: int| 0 <= j < lead.len() && lead[j] == x;
            assert(base[j] == x);
            assert(pred(x));
        }
        if pred(x) {
            let j = choose|j: int| 0 <= j < 10 && j < base.len() && #[trigger] base[j] == x;
            assert(lead[j] == x);
        }
    }
}

proof fn lemma_occurrences_push(s: Seq<Seq<char>>, y: Seq<char>, x: Seq<char>)
    ensures
        occurrences(s.push(y), x) == occurrences(s, x) + if y == x {
            1nat
        } else {
            0nat
        },
{
    assert(s.push(y).drop_last() =~= s);
}

proof fn lemma_occurrences_bound(s: Seq<Seq<char>>, x: Seq<char>)
    ensures
        occurrences(s, x) <= s.len(),
        occurrences(s, x) > 0 <==> s.contains(x),
    decreases s.len(),
{
    if s.len() > 0 {
        lemma_occurrences_bound(s.drop_last(), x);
        assert(s =~= s.drop_last().push(s.last()));
        if s.drop_last().contains(x) {
            let i = choose|i: int| 0 <= i < s.drop_last().len() && s.drop_last()[i] == x;
            assert(s[i] == x);
        }
        if s.contains(x) && s.last() != x {
            let i = choose|i: int| 0 <= i < s.len() && s[i] == x;
            assert(s.drop_last()[i] == x);
        }
    }
}

proof fn lemma_overlap_push(top: Seq<Seq<char>>, y: Seq<char>, base: Seq<Seq<char>>)
    ensures
        overlap(top.push(y), base) == overlap(top, base) + if base.contains(y) {
            1nat
        } else {
            0nat
        },
{
    assert(top.push(y).drop_last() =~= top);
}

/// The (name, invocation count) pairs of a snapshot's entries, in order.
pub open spec fn entry_counts(entries: Seq<(String, ChordShape)>) -> Seq<(Seq<char>, u64)> {
    entries.map_values(|e: (String, ChordShape)| (e.0@, e.1.invocation_count))
}

proof fn lemma_unique_entry_counts(mm: MuscleMemory)
    requires
        mm.has_unique_keys(),
    ensures
        distinct_names(entry_counts(mm.chords@)),
{
    let t = entry_counts(mm.chords@);
    assert forall|i: int, j: int|
        0 <= i < t.len() && 0 <= j < t.len() && i != j implies (#[trigger] t[i]).0 != (
    #[trigger] t[j]).0 by {
        assert(mm.chords@[i].0@ != mm.chords@[j].0@);
    }
}

proof fn lemma_insert_to_multiset<A>(s: Seq<A>, p: int, x: A)
    requires
        0 <= p <= s.len(),
    ensures
        s.insert(p, x).to_multiset() == s.to_multiset().insert(x),
{
    broadcast use vstd::multiset::group_multiset_axioms;

    let t = s.insert(p, x);
    assert(t.remove(p) =~= s);
    t.to_multiset_ensures();
    assert(t[p] == x);
    assert(t.contains(x));
    assert(t.to_multiset().count(x) > 0);
    assert(t.to_multiset() =~= s.to_multiset().insert(x));
}

// ---------------------------------------------------------------------------
// The flex tracker.
// ---------------------------------------------------------------------------

/// Law: one more flex of `k` adds one to the lifetime count of `k` and leaves
/// every other count as it was; the window then ends with `k` and holds the
/// last flexes, at most 100 of them.
pub proof fn law_record_counts_and_window(
    table: Seq<(Seq<char>, u64)>,
    recent: Seq<Seq<char>>,
    k: Seq<char>,
)
    requires
        distinct_names(table),
        count_of(table, k) < u64::MAX,
        recent.len() <= 100,
    ensures
        count_of(bumped(table, k), k) == count_of(table, k) + 1,
        forall|x: Seq<char>| x != k ==> #[trigger] count_of(bumped(table, k), x) == count_of(table, x),
        slid(recent, k).len() == if recent.len() == 100 {
            100
        } else {
            recent.len() + 1
        },
        slid(recent, k).last() == k,
        slid(recent, k) == recent.push(k).subrange(
            recent.len() + 1 - slid(recent, k).len(),
            recent.len() + 1int,
        ),
{
    let b = bumped(table, k);
    if counted(table, k) {
        let i = position(table, k);
        lemma_position(table, i);
        assert(distinct_names(b)) by {
            assert forall|p: int, q: int|
                0 <= p < b.len() && 0 <= q < b.len() && p != q implies (#[trigger] b[p]).0 != (
            #[trigger] b[q]).0 by {
                assert(table[p].0 != table[q].0);
            }
        }
        lemma_position(b, i);
        assert forall|x: Seq<char>| x != k implies #[trigger] count_of(b, x) == count_of(
            table,
            x,
        ) by {
            if counted(table, x) {
                let j = position(table, x);
                lemma_position(table, j);
                lemma_position(b, j);
            } else if counted(b, x) {
                let j = position(b, x);
                assert(table[j].0 == x);
            }
        }
    } else {
        let n = table.len() as int;
        assert(b[n].0 == k);
        assert(distinct_names(b)) by {
            assert forall|p: int, q: int|
                0 <= p < b.len() && 0 <= q < b.len() && p != q implies (#[trigger] b[p]).0 != (
            #[trigger] b[q]).0 by {
                if p < n && q < n {
                    assert(table[p].0 != table[q].0);
                } else if p < n {
                    assert(b[p] == table[p]);
                } else {
                    assert(b[q] == table[q]);
                }
            }
        }
        lemma_position(b, n);
        assert forall|x: Seq<char>| x != k implies #[trigger] count_of(b, x) == count_of(
            table,
            x,
        ) by {
            if counted(table, x) {
                let j = position(table, x);
                lemma_position(table, j);
                assert(b[j] == table[j]);
                lemma_position(b, j);
            } else if counted(b, x) {
                let j = position(b, x);
                assert(j < n);
                assert(table[j].0 == x);
            }
        }
    }
    let r = recent.push(k);
    if r.len() > 100 {
        assert(slid(recent, k) =~= r.subrange(1, r.len() as int));
    } else {
        assert(slid(recent, k) =~= r.subrange(0, r.len() as int));
    }
}

/// Tracks recent flex history for pattern detection.
pub struct FlexTracker {
    /// How many times each chord has been flexed (lifetime).
    invocation_counts: Vec<(String, u64)>,
    /// Recent chord names (for pattern detection), oldest first.
    recent: Vec<String>,
    /// Baseline pattern: chord names, most-flexed first.
    baseline: Vec<String>,
}

impl FlexTracker {
    /// Lifetime flex counts, by chord name.
    pub closed spec fn count_table(self) -> Seq<(Seq<char>, u64)> {
        table_views(self.invocation_counts@)
    }

    /// The recent flexes, oldest first.
    pub closed spec fn recent_names(self) -> Seq<Seq<char>> {
        string_views(self.recent@)
    }

    /// The baseline ranking of chord names, most-flexed first.
    pub closed spec fn baseline_names(self) -> Seq<Seq<char>> {
        string_views(self.baseline@)
    }

    /// Names in the count table are distinct; the window holds at most 100 flexes.
    pub open spec fn wf(self) -> bool {
        &&& distinct_names(self.count_table())
        &&& self.recent_names().len() <= window_size()
    }

    /// A tracker for a snapshot: lifetime counts start at each chord's
    /// invocation count, the window is empty, and the baseline ranks the
    /// chords by invocation count, highest first (ties keep entry order).
    pub fn new(mm: &MuscleMemory) -> (t: Self)
        requires
            mm.has_unique_keys(),
        ensures
            t.wf(),
            t.count_table() == entry_counts(mm.chords@),
            t.recent_names().len() == 0,
            t.baseline_names().to_multiset() == keys_of(mm.chords@).to_multiset(),
            forall|a: int, b: int|
                0 <= a < b < t.baseline_names().len() ==> count_of(
                    t.count_table(),
                    #[trigger] t.baseline_names()[a],
                ) >= count_of(t.count_table(), #[trigger] t.baseline_names()[b]),
    {
        let ghost entries = mm.chords@;
        let mut counts: Vec<(String, u64)> = Vec::new();
        let mut ranked: Vec<(String, u64)> = Vec::new();
        let ghost mut names: Seq<Seq<char>> = Seq::empty();
        let n = mm.chords.len();
        let mut i: usize = 0;
        while i < n
            invariant
                n == entries.len(),
                entries == mm.chords@,
                i <= n,
                table_views(counts@) == entry_counts(entries.take(i as int)),
                table_views(ranked@).to_multiset() == table_views(counts@).to_multiset(),
                names == table_views(ranked@).map_values(|q: (Seq<char>, u64)| q.0),
                names.to_multiset() == keys_of(entries.take(i as int)).to_multiset(),
                forall|a: int, b: int|
                    0 <= a < b < ranked@.len() ==> (#[trigger] ranked@[a]).1 >= (
                    #[trigger] ranked@[b]).1,
            decreases n - i,
        {
            let key = &mm.chords[i].0;
            let c = mm.chords[i].1.invocation_count;
            let ghost counted_before = table_views(counts@);
            counts.push((key.clone(), c));
            let mut p: usize = 0;
            while p < ranked.len() && ranked[p].1 >= c
                invariant
                    p <= ranked@.len(),
                    forall|a: int| 0 <= a < p ==> (#[trigger] ranked@[a]).1 >= c,
                decreases ranked@.len() - p,
            {
                p = p + 1;
            }
            let ghost before = table_views(ranked@);
            ranked.insert(p, (key.clone(), c));
            proof {
                assert(entries.take(i + 1) =~= entries.take(i as int).push(entries[i as int]));
                assert(entry_counts(entries.take(i + 1)) =~= entry_counts(entries.take(i as int)).push(
                    (key@, c),
                ));
                assert(keys_of(entries.take(i + 1)) =~= keys_of(entries.take(i as int)).push(key@));
                assert(table_views(ranked@) =~= before.insert(p as int, (key@, c)));
                lemma_insert_to_multiset(before, p as int, (key@, c));
                assert(table_views(counts@) =~= counted_before.push((key@, c)));
                counted_before.to_multiset_ensures();
                let new_names = table_views(ranked@).map_values(|q: (Seq<char>, u64)| q.0);
                assert(new_names =~= names.insert(p as int, key@));
                lemma_insert_to_multiset(names, p as int, key@);
                names = new_names;
                assert forall|a: int, b: int|
                    0 <= a < b < ranked@.len() implies (#[trigger] ranked@[a]).1 >= (
                    #[trigger] ranked@[b]).1 by {
                    let rv = table_views(ranked@);
                    assert(rv[a].1 == ranked@[a].1 && rv[b].1 == ranked@[b].1);
                    if b == p {
                        assert(rv[a] == before[a]);
                    } else if a == p {
                        if b - 1 == p && p < before.len() {
                            assert(before[b - 1].1 < c);
                        } else {
                            assert(before[p as int].1 < c);
                            assert(before[p as int].1 >= before[b - 1].1);
                        }
                    } else if a < p {
                        if b < p {
                            assert(before[a].1 >= before[b].1);
                        } else {
                            assert(before[a].1 >= before[b - 1].1);
                        }
                    } else {
                        assert(before[a - 1].1 >= before[b - 1].1);
                    }
                }
            }
            i = i + 1;
        }
        assert(entries.take(n as int) =~= entries);
        let ghost table = table_views(counts@);
        proof {
            lemma_unique_entry_counts(*mm);
        }

        // The baseline: names of the ranking, in order.
        let mut baseline: Vec<String> = Vec::new();
        let mut r: usize = 0;
        while r < ranked.len()
            invariant
                r <= ranked@.len(),
                string_views(baseline@) == names.take(r as int),
                names == table_views(ranked@).map_values(|q: (Seq<char>, u64)| q.0),
            decreases ranked@.len() - r,
        {
            let ghost bb = string_views(baseline@);
            baseline.push(ranked[r].0.clone());
            assert(names[r as int] == ranked@[r as int].0@);
            assert(string_views(baseline@) =~= bb.push(ranked@[r as int].0@));
            assert(names.take(r + 1) =~= names.take(r as int).push(names[r as int]));
            assert(string_views(baseline@) =~= names.take(r + 1));
            r = r + 1;
        }
        assert(names.take(ranked@.len() as int) =~= names);
        proof {
            assert forall|a: int| 0 <= a < ranked@.len() implies count_of(
                table,
                #[trigger] names[a],
            ) == ranked@[a].1 by {
                let q = table_views(ranked@)[a];
                assert(table_views(ranked@).to_multiset().count(q) > 0);
                assert(table.to_multiset().count(q) > 0);
                assert(table.contains(q));
                let w = choose|w: int| 0 <= w < table.len() && table[w] == q;
                lemma_position(table, w);
            }
            assert forall|a: int, b: int|
                0 <= a < b < names.len() implies count_of(table, #[trigger] names[a]) >= count_of(
                table,
                #[trigger] names[b],
            ) by {
                assert(ranked@[a].1 >= ranked@[b].1);
            }
        }
        FlexTracker { invocation_counts: counts, recent: Vec::new(), baseline }
    }

    /// Record one flex of `chord_name`: its lifetime count grows by one (a
    /// new name starts at one), and it joins the window of the last 100 flexes.
    pub fn record(&mut self, chord_name: &str)
        requires
            old(self).wf(),
            count_of(old(self).count_table(), chord_name@) < u64::MAX,
        ensures
            final(self).wf(),
            final(self).count_table() == bumped(old(self).count_table(), chord_name@),
            final(self).recent_names() == slid(old(self).recent_names(), chord_name@),
            final(self).baseline_names() == old(self).baseline_names(),
            count_of(final(self).count_table(), chord_name@) == count_of(old(self).count_table(), chord_name@) + 1,
            forall|x: Seq<char>| x != chord_name@ ==> #[trigger] count_of(final(self).count_table(), x) == count_of(old(self).count_table(), x),
            final(self).recent_names().last() == chord_name@,
            final(self).recent_names().len() == if old(self).recent_names().len() == 100 {
                100
            } else {
                old(self).recent_names().len() + 1
            },
            final(self).recent_names() == old(self).recent_names().push(chord_name@).subrange(
                old(self).recent_names().len() + 1 - final(self).recent_names().len(),
                old(self).recent_names().len() + 1int,
            ),
    {
        let ghost table = self.count_table();
        proof {
            law_record_counts_and_window(table, self.recent_names(), chord_name@);
        }
        let name = String::from_str(chord_name);
        match position_in(&self.invocation_counts, &name) {
            Some(i) => {
                proof {
                    lemma_position(table, i as int);
                }
                let c = self.invocation_counts[i].1;
                self.invocation_counts.set(i, (name, c + 1));
                proof {
                    assert(self.count_table() =~= bumped(table, chord_name@));
                    assert forall|a: int, b: int|
                        0 <= a < self.count_table().len() && 0 <= b < self.count_table().len()
                            && a != b implies (#[trigger] self.count_table()[a]).0 != (
                    #[trigger] self.count_table()[b]).0 by {
                        assert(table[a].0 != table[b].0);
                    }
                }
            },
            None => {
                self.invocation_counts.push((name, 1));
                proof {
                    assert(self.count_table() =~= bumped(table, chord_name@));
                    assert forall|a: int, b: int|
                        0 <= a < self.count_table().len() && 0 <= b < self.count_table().len()
                            && a != b implies (#[trigger] self.count_table()[a]).0 != (
                    #[trigger] self.count_table()[b]).0 by {
                        if a < table.len() && b < table.len() {
                            assert(table[a].0 != table[b].0);
                        } else if a < table.len() {
                            assert(table[a] == self.count_table()[a]);
                        } else {
                            assert(table[b] == self.count_table()[b]);
                        }
                    }
                }
            },
        }
        let ghost before = self.recent_names();
        self.recent.push(String::from_str(chord_name));
        assert(string_views(self.recent@) =~= before.push(chord_name@));
        if self.recent.len() > 100 {
            self.recent.remove(0);
            assert(string_views(self.recent@) =~= before.push(chord_name@).drop_first());
        }
    }

    /// Check whether the recent pattern diverges from the baseline: with at
    /// least 20 recent flexes, fewer than three of the ten most frequent
    /// recent chords are among the first ten of the baseline.
    pub fn pattern_shifted(&self) -> (shifted: bool)
        requires
            self.wf(),
        ensures
            shift_outcome(self.recent_names(), self.baseline_names(), shifted),
            self.recent_names().len() < 20 ==> !shifted,
            self.recent_names().len() >= 20 ==> exists|top: Seq<Seq<char>>|
                #![trigger is_top(top, self.recent_names(), 10)]
                is_top(top, self.recent_names(), 10) && (shifted <==> top.filter(
                    |x: Seq<char>|
                        exists|j: int|
                            0 <= j < 10 && j < self.baseline_names().len()
                                && #[trigger] self.baseline_names()[j] == x,
                ).len() < 3),
    {
        if self.recent.len() < 20 {
            return false;
        }
        let ghost recent = self.recent_names();

        // Count recent frequencies, names in order of first appearance.
        let mut freq: Vec<(String, u64)> = Vec::new();
        let n = self.recent.len();
        let mut i: usize = 0;
        while i < n
            invariant
                n == self.recent@.len(),
                n <= window_size(),
                recent == self.recent_names(),
                i <= n,
                distinct_names(table_views(freq@)),
                forall|j: int|
                    0 <= j < freq@.len() ==> (#[trigger] freq@[j]).1 == occurrences(
                        recent.take(i as int),
                        freq@[j].0@,
                    ),
                forall|x: Seq<char>|
                    recent.take(i as int).contains(x) <==> counted(table_views(freq@), x),
            decreases n - i,
        {
            let name = &self.recent[i];
            let ghost prev = table_views(freq@);
            proof {
                assert(recent.take(i + 1) =~= recent.take(i as int).push(name@));
                assert forall|x: Seq<char>| #[trigger]
                    occurrences(recent.take(i + 1), x) == occurrences(recent.take(i as int), x)
                        + if name@ == x {
                        1nat
                    } else {
                        0nat
                    } by {
                    lemma_occurrences_push(recent.take(i as int), name@, x);
                }
            }
            match position_in(&freq, name) {
                Some(j) => {
                    proof {
                        lemma_position(prev, j as int);
                        lemma_occurrences_bound(recent.take(i as int), name@);
                    }
                    let c = freq[j].1;
                    freq.set(j, (name.clone(), c + 1));
                    proof {
                        let now = table_views(freq@);
                        assert(now.len() == prev.len());
                        assert forall|p: int| 0 <= p < now.len() implies (#[trigger] now[p]).0
                            == prev[p].0 by {
                            if p == j {
                                assert(prev[p].0 == name@);
                            }
                        }
                        assert forall|a: int, b: int|
                            0 <= a < now.len() && 0 <= b < now.len() && a != b implies (
                        #[trigger] now[a]).0 != (#[trigger] now[b]).0 by {
                            assert(prev[a].0 != prev[b].0);
                        }
                        assert forall|q: int| 0 <= q < freq@.len() implies (#[trigger] freq@[q]).1
                            == occurrences(recent.take(i + 1), freq@[q].0@) by {
                            assert(occurrences(recent.take(i + 1), freq@[q].0@) == occurrences(
                                recent.take(i as int),
                                freq@[q].0@,
                            ) + if name@ == freq@[q].0@ {
                                1nat
                            } else {
                                0nat
                            });
                            if q != j {
                                assert(prev[q].0 != prev[j as int].0);
                                assert(prev[q] == now[q]);
                            }
                        }
                        assert forall|x: Seq<char>|
                            recent.take(i + 1).contains(x) <==> counted(now, x) by {
                            if recent.take(i + 1).contains(x) {
                                let k = choose|k: int|
                                    0 <= k < recent.take(i + 1).len() && #[trigger] recent.take(i + 1)[k]
                                        == x;
                                if k < i {
                                    assert(recent.take(i as int)[k] == x);
                                    assert(recent.take(i as int).contains(x));
                                    assert(counted(prev, x));
                                    let p = choose|p: int|
                                        0 <= p < prev.len() && (#[trigger] prev[p]).0 == x;
                                    assert(now[p].0 == x);
                                } else {
                                    assert(now[j as int].0 == x);
                                }
                            }
                            if counted(now, x) {
                                let p = choose|p: int| 0 <= p < now.len() && (#[trigger] now[p]).0 == x;
                                assert(prev[p].0 == x);
                                assert(counted(prev, x));
                                let k = choose|k: int|
                                    0 <= k < recent.take(i as int).len() && #[trigger] recent.take(
                                        i as int,
                                    )[k] == x;
                                assert(recent.take(i + 1)[k] == x);
                            }
                        }
                    }
                },
                None => {
                    freq.push((name.clone(), 1));
                    proof {
                        let now = table_views(freq@);
                        assert(!recent.take(i as int).contains(name@));
                        lemma_occurrences_bound(recent.take(i as int), name@);
                        assert forall|a: int, b: int|
                            0 <= a < now.len() && 0 <= b < now.len() && a != b implies (
                        #[trigger] now[a]).0 != (#[trigger] now[b]).0 by {
                            if a < prev.len() && b < prev.len() {
                                assert(prev[a].0 != prev[b].0);
                            } else if a < prev.len() {
                                assert(now[a] == prev[a]);
                                assert(counted(prev, now[a].0));
                            } else {
                                assert(now[b] == prev[b]);
                                assert(counted(prev, now[b].0));
                            }
                        }
                        assert forall|q: int| 0 <= q < freq@.len() implies (#[trigger] freq@[q]).1
                            == occurrences(recent.take(i + 1), freq@[q].0@) by {
                            assert(occurrences(recent.take(i + 1), freq@[q].0@) == occurrences(
                                recent.take(i as int),
                                freq@[q].0@,
                            ) + if name@ == freq@[q].0@ {
                                1nat
                            } else {
                                0nat
                            });
                            if q < prev.len() {
                                assert(prev[q] == now[q]);
                                if prev[q].0 == name@ {
                                    assert(counted(prev, name@));
                                }
                            }
                        }
                        assert forall|x: Seq<char>|
                            recent.take(i + 1).contains(x) <==> counted(now, x) by {
                            if recent.take(i + 1).contains(x) {
                                let k = choose|k: int|
                                    0 <= k < recent.take(i + 1).len() && #[trigger] recent.take(i + 1)[k]
                                        == x;
                                if k < i {
                                    assert(recent.take(i as int)[k] == x);
                                    assert(recent.take(i as int).contains(x));
                                    assert(counted(prev, x));
                                    let p = choose|p: int|
                                        0 <= p < prev.len() && (#[trigger] prev[p]).0 == x;
                                    assert(now[p] == prev[p]);
                                    assert(now[p].0 == x);
                                } else {
                                    assert(now[prev.len() as int].0 == x);
                                }
                            }
                            if counted(now, x) {
                                let p = choose|p: int| 0 <= p < now.len() && (#[trigger] now[p]).0 == x;
                                if p < prev.len() {
                                    assert(prev[p].0 == x);
                                    assert(counted(prev, x));
                                    let k = choose|k: int|
                                        0 <= k < recent.take(i as int).len() && #[trigger] recent.take(
                                            i as int,
                                        )[k] == x;
                                    assert(recent.take(i + 1)[k] == x);
                                } else {
                                    assert(recent.take(i + 1)[i as int] == x);
                                }
                            }
                        }
                    }
                },
            }
            i = i + 1;
        }
        assert(recent.take(n as int) =~= recent);
        let ghost table = table_views(freq@);

        // Pick the ten most frequent names, most frequent first.
        let nf = freq.len();
        let mut taken: Vec<bool> = Vec::new();
        let mut z: usize = 0;
        while z < nf
            invariant
                z <= nf,
                taken@.len() == z,
                forall|j: int| 0 <= j < z ==> !(#[trigger] taken@[j]),
            decreases nf - z,
        {
            taken.push(false);
            z = z + 1;
        }
        let mut top: Vec<String> = Vec::new();
        let mut done = false;
        while !done && top.len() < 10
            invariant
                nf == freq@.len(),
                table == table_views(freq@),
                distinct_names(table),
                taken@.len() == nf,
                top@.len() <= 10,
                string_views(top@).no_duplicates(),
                forall|x: Seq<char>|
                    string_views(top@).contains(x) <==> exists|j: int|
                        0 <= j < nf && #[trigger] taken@[j] && table[j].0 == x,
                forall|a: int, b: int|
                    0 <= a < nf && 0 <= b < nf && #[trigger] taken@[a] && !#[trigger] taken@[b]
                        ==> table[a].1 >= table[b].1,
                done ==> forall|j: int| 0 <= j < nf ==> #[trigger] taken@[j],
            decreases 10 - top@.len() + if done {
                0int
            } else {
                1int
            },
        {
            // The first most frequent name not yet taken.
            let mut best: Option<usize> = None;
            let mut j: usize = 0;
            while j < nf
                invariant
                    nf == freq@.len(),
                    table == table_views(freq@),
                    taken@.len() == nf,
                    j <= nf,
                    match best {
                        Some(b) => {
                            &&& b < j
                            &&& !taken@[b as int]
                            &&& forall|k: int|
                                0 <= k < j && !#[trigger] taken@[k] ==> table[b as int].1
                                    >= table[k].1
                        },
                        None => forall|k: int| 0 <= k < j ==> #[trigger] taken@[k],
                    },
                decreases nf - j,
            {
                if !taken[j] {
                    match best {
                        Some(b) => {
                            if freq[j].1 > freq[b].1 {
                                best = Some(j);
                            }
                        },
                        None => {
                            best = Some(j);
                        },
                    }
                }
                j = j + 1;
            }
            match best {
                None => {
                    done = true;
                },
                Some(b) => {
                    let ghost before = string_views(top@);
                    let ghost taken_before = taken@;
                    taken.set(b, true);
                    top.push(freq[b].0.clone());
                    proof {
                        let now = string_views(top@);
                        assert(now =~= before.push(table[b as int].0));
                        assert(!before.contains(table[b as int].0)) by {
                            if before.contains(table[b as int].0) {
                                let k = choose|k: int|
                                    0 <= k < nf && #[trigger] taken_before[k] && table[k].0
                                        == table[b as int].0;
                                assert(k != b);
                            }
                        }
                        assert forall|x: Seq<char>|
                            now.contains(x) <==> exists|k: int|
                                0 <= k < nf && #[trigger] taken@[k] && table[k].0 == x by {
                            if now.contains(x) {
                                if x == table[b as int].0 {
                                    assert(taken@[b as int]);
                                } else {
                                    let p = choose|p: int| 0 <= p < now.len() && #[trigger] now[p] == x;
                                    assert(before[p] == x);
                                    assert(before.contains(x));
                                    let k = choose|k: int|
                                        0 <= k < nf && #[trigger] taken_before[k] && table[k].0
                                            == x;
                                    assert(taken@[k]);
                                }
                            }
                            if exists|k: int| 0 <= k < nf && #[trigger] taken@[k] && table[k].0 == x {
                                let k = choose|k: int|
                                    0 <= k < nf && #[trigger] taken@[k] && table[k].0 == x;
                                if k == b {
                                    assert(now[before.len() as int] == x);
                                } else {
                                    assert(taken_before[k]);
                                    assert(before.contains(x));
                                    let p = choose|p: int| 0 <= p < before.len() && #[trigger] before[p] == x;
                                    assert(now[p] == x);
                                }
                            }
                        }
                    }
                },
            }
        }
        let ghost top_names = string_views(top@);

        // Compare with the first ten of the baseline.
        let nb: usize = if self.baseline.len() < 10 {
            self.baseline.len()
        } else {
            10
        };
        let ghost base_top = leading(self.baseline_names(), top_size());
        assert(base_top =~= string_views(self.baseline@).take(nb as int));
        let mut hits: usize = 0;
        let mut t: usize = 0;
        while t < top.len()
            invariant
                top_names == string_views(top@),
                nb <= self.baseline@.len(),
                base_top == string_views(self.baseline@).take(nb as int),
                t <= top@.len(),
                hits == overlap(top_names.take(t as int), base_top),
                hits <= t,
            decreases top@.len() - t,
        {
            let mut found = false;
            let mut s: usize = 0;
            while s < nb
                invariant
                    nb <= self.baseline@.len(),
                    base_top == string_views(self.baseline@).take(nb as int),
                    t < top@.len(),
                    s <= nb,
                    found == exists|k: int| 0 <= k < s && #[trigger] base_top[k] == top@[t as int]@,
                decreases nb - s,
            {
                if self.baseline[s] == top[t] {
                    found = true;
                }
                assert(base_top[s as int] == self.baseline@[s as int]@);
                s = s + 1;
            }
            proof {
                assert(top_names.take(t + 1) =~= top_names.take(t as int).push(top@[t as int]@));
                lemma_overlap_push(top_names.take(t as int), top@[t as int]@, base_top);
                if found {
                    let k = choose|k: int| 0 <= k < nb && #[trigger] base_top[k] == top@[t as int]@;
                    assert(base_top.contains(top@[t as int]@));
                }
            }
            if found {
                hits = hits + 1;
            }
            t = t + 1;
        }
        proof {
            assert(top_names.take(top@.len() as int) =~= top_names);
            // The chosen names are a valid top ten of the window.
            assert forall|k: int| 0 <= k < top_names.len() implies recent.contains(
                #[trigger] top_names[k],
            ) by {
                assert(top_names.contains(top_names[k]));
                let j = choose|j: int| 0 <= j < nf && #[trigger] taken@[j] && table[j].0 == top_names[k];
                assert(counted(table, top_names[k]));
            }
            assert(top_names.len() == top_size() || forall|x: Seq<char>|
                recent.contains(x) ==> top_names.contains(x)) by {
                if top_names.len() != top_size() {
                    assert forall|x: Seq<char>| recent.contains(x) implies top_names.contains(
                        x,
                    ) by {
                        assert(recent.take(n as int).contains(x));
                        assert(counted(table, x));
                        let p = choose|p: int| 0 <= p < table.len() && (#[trigger] table[p]).0 == x;
                        assert(taken@[p]);
                    }
                }
            }
            assert forall|x: Seq<char>, y: Seq<char>|
                top_names.contains(x) && recent.contains(y) && !top_names.contains(
                    y,
                ) implies occurrences(recent, x) >= occurrences(recent, y) by {
                let a = choose|a: int| 0 <= a < nf && #[trigger] taken@[a] && table[a].0 == x;
                assert(recent.take(n as int).contains(y));
                assert(counted(table, y));
                let b = choose|b: int| 0 <= b < table.len() && (#[trigger] table[b]).0 == y;
                if taken@[b] {
                    assert(top_names.contains(y));
                }
                assert(freq@[a].1 == occurrences(recent, x));
                assert(freq@[b].1 == occurrences(recent, y));
            }
            assert(is_top(top_names, recent, top_size()));
            lemma_overlap_first_ten(top_names, self.baseline_names());
            assert(is_top(top_names, self.recent_names(), 10));
        }
        hits < 3
    }
}

// ---------------------------------------------------------------------------
// Alerts and the proprioceptor.
// ---------------------------------------------------------------------------

/// Kinds of alerts the proprioceptor can raise.
#[derive(Debug, Clone, Copy, PartialEq, Eq, Structural)]
pub enum AlertKind {
    /// Agent tried to flex a chord not in memory.
    FlexMiss,
    /// Flex returned low confidence for a HARDCODE chord.
    ConfidenceDrop,
    /// Agent is flexing different chords than usual.
    PatternShift,
    /// Same chord flexed too many times without refresh.
    MuscleFatigue,
}

/// What an alert was raised on: the readings a description of it reports.
#[derive(Debug, Clone, Copy, PartialEq, Eq, Structural)]
pub enum AlertEvidence {
    /// The chord is not in muscle memory.
    NotInMemory,
    /// The confidence returned and the threshold it fell below.
    LowConfidence { confidence: F64Bits, threshold: F64Bits },
    /// The recent pattern diverged from the baseline.
    ShiftedPattern,
    /// The lifetime flex count and the fatigue threshold it reached.
    Fatigue { count: u64, threshold: u64 },
}

/// An alert raised by the proprioceptor.
#[derive(Debug, Clone)]
pub struct Alert {
    /// Type of alert.
    pub kind: AlertKind,
    /// Which chord triggered the alert (`(global)` for a pattern shift).
    pub chord: String,
    /// The readings the alert was raised on.
    pub evidence: AlertEvidence,
}

impl View for Alert {
    type V = (AlertKind, Seq<char>, AlertEvidence);

    open spec fn view(&self) -> (AlertKind, Seq<char>, AlertEvidence) {
        (self.kind, self.chord@, self.evidence)
    }
}

/// The description of an alert, except a confidence drop (whose text prints
/// binary64 readings as decimals).
pub open spec fn alert_text(chord: Seq<char>, evidence: AlertEvidence) -> Option<Seq<char>> {
    match evidence {
        AlertEvidence::NotInMemory => Some(
            "Agent tried to flex '"@ + chord + "' which is not in muscle memory"@,
        ),
        AlertEvidence::LowConfidence { .. } => None,
        AlertEvidence::ShiftedPattern => Some(
            "Agent is flexing a significantly different pattern of chords"@,
        ),
        AlertEvidence::Fatigue { count, threshold } => Some(
            "Chord '"@ + chord + "' flexed "@ + decimal(count as nat)
                + " times without refresh (threshold: "@ + decimal(threshold as nat) + ")"@,
        ),
    }
}

impl Alert {
    /// The human-readable description of the alert; `None` for a confidence
    /// drop, whose text prints binary64 readings as decimals.
    pub fn description(&self) -> (r: Option<String>)
        ensures
            match r {
                Some(s) => alert_text(self.chord@, self.evidence) == Some(s@),
                None => alert_text(self.chord@, self.evidence) == None::<Seq<char>>,
            },
    {
        match self.evidence {
            AlertEvidence::NotInMemory => {
                let mut d = String::from_str("Agent tried to flex '");
                d.append(self.chord.as_str());
                d.append("' which is not in muscle memory");
                Some(d)
            },
            AlertEvidence::LowConfidence { .. } => None,
            AlertEvidence::ShiftedPattern => Some(
                String::from_str("Agent is flexing a significantly different pattern of chords"),
            ),
            AlertEvidence::Fatigue { count, threshold } => {
                let mut d = String::from_str("Chord '");
                d.append(self.chord.as_str());
                d.append("' flexed ");
                d.append(decimal_string(count as u128).as_str());
                d.append(" times without refresh (threshold: ");
                d.append(decimal_string(threshold as u128).as_str());
                d.append(")");
                Some(d)
            },
        }
    }
}

pub open spec fn alert_views(s: Seq<Alert>) -> Seq<(AlertKind, Seq<char>, AlertEvidence)> {
    s.map_values(|a: Alert| a@)
}

/// The chord name a pattern shift is reported under.
pub open spec fn global_name() -> Seq<char> {
    "(global)"@
}

/// The (name, decision) pairs of a snapshot's entries, in order.
pub open spec fn entry_decisions(entries: Seq<(String, ChordShape)>) -> Seq<(Seq<char>, Trit)> {
    entries.map_values(|e: (String, ChordShape)| (e.0@, e.1.decision))
}

/// The decision of the first pair named `k`, if any.
pub open spec fn decision_of(known: Seq<(Seq<char>, Trit)>, k: Seq<char>) -> Option<Trit>
    decreases known.len(),
{
    if known.len() == 0 {
        None
    } else if known[0].0 == k {
        Some(known[0].1)
    } else {
        decision_of(known.drop_first(), k)
    }
}

/// The alerts raised by one flex of a known chord, after it was recorded:
/// a confidence drop (HARDCODE chord, confidence below the threshold), then
/// fatigue (lifetime count at or above the threshold), then a pattern shift.
pub open spec fn flex_alerts(
    name: Seq<char>,
    decision: Trit,
    confidence: F64Bits,
    confidence_threshold: F64Bits,
    count: u64,
    fatigue_threshold: u64,
    shifted: bool,
) -> Seq<(AlertKind, Seq<char>, AlertEvidence)> {
    let drop = if decision == Trit::Hardcode && confidence.lt_spec(confidence_threshold) {
        seq![
            (
                AlertKind::ConfidenceDrop,
                name,
                AlertEvidence::LowConfidence { confidence, threshold: confidence_threshold },
            ),
        ]
    } else {
        Seq::empty()
    };
    let fatigue = if count >= fatigue_threshold {
        seq![
            (
                AlertKind::MuscleFatigue,
                name,
                AlertEvidence::Fatigue { count, threshold: fatigue_threshold },
            ),
        ]
    } else {
        Seq::empty()
    };
    let shift = if shifted {
        seq![(AlertKind::PatternShift, global_name(), AlertEvidence::ShiftedPattern)]
    } else {
        Seq::empty()
    };
    drop + fatigue + shift
}

/// Law: appending the alerts of one flex keeps what was pending, and a
/// confidence drop is among the new alerts exactly when the chord is HARDCODE
/// and the confidence is below the threshold; a HYBRID or MODEL chord never
/// gets one.
pub proof fn law_confidence_drop_only_for_hardcode(
    start: Seq<(AlertKind, Seq<char>, AlertEvidence)>,
    all: Seq<(AlertKind, Seq<char>, AlertEvidence)>,
    name: Seq<char>,
    decision: Trit,
    confidence: F64Bits,
    confidence_threshold: F64Bits,
    count: u64,
    fatigue_threshold: u64,
    shifted: bool,
)
    requires
        all == start + flex_alerts(
            name,
            decision,
            confidence,
            confidence_threshold,
            count,
            fatigue_threshold,
            shifted,
        ),
    ensures
        forall|k: int| 0 <= k < start.len() ==> #[trigger] all[k] == start[k],
        forall|k: int|
            start.len() <= k < all.len() && (#[trigger] all[k]).0 == AlertKind::ConfidenceDrop
                ==> decision == Trit::Hardcode && confidence.lt_spec(confidence_threshold),
        decision == Trit::Hardcode && confidence.lt_spec(confidence_threshold) ==> all.contains(
            (
                AlertKind::ConfidenceDrop,
                name,
                AlertEvidence::LowConfidence { confidence, threshold: confidence_threshold },
            ),
        ),
{
    let fa = flex_alerts(
        name,
        decision,
        confidence,
        confidence_threshold,
        count,
        fatigue_threshold,
        shifted,
    );
    let low = decision == Trit::Hardcode && confidence.lt_spec(confidence_threshold);
    let drop_len: int = if low {
        1
    } else {
        0
    };
    assert forall|k: int|
        start.len() <= k < all.len() && (#[trigger] all[k]).0
            == AlertKind::ConfidenceDrop implies low by {
        assert(all[k] == fa[k - start.len()]);
        if k - start.len() >= drop_len {
            assert(fa[k - start.len()].0 != AlertKind::ConfidenceDrop);
        }
    }
    if low {
        assert(all[start.len() as int] == fa[0]);
    }
}

/// Law: of the alerts appended by one flex of a known chord, a muscle-fatigue
/// alert comes exactly when the chord's count (after recording) is at or above
/// the fatigue threshold, a pattern-shift alert exactly when a shift was found,
/// and none is a flex miss.
pub proof fn law_flex_alert_grounds(
    start: Seq<(AlertKind, Seq<char>, AlertEvidence)>,
    all: Seq<(AlertKind, Seq<char>, AlertEvidence)>,
    name: Seq<char>,
    decision: Trit,
    confidence: F64Bits,
    confidence_threshold: F64Bits,
    count: u64,
    fatigue_threshold: u64,
    shifted: bool,
)
    requires
        all == start + flex_alerts(
            name,
            decision,
            confidence,
            confidence_threshold,
            count,
            fatigue_threshold,
            shifted,
        ),
    ensures
        forall|k: int|
            start.len() <= k < all.len() ==> (#[trigger] all[k]).0 != AlertKind::FlexMiss,
        forall|k: int|
            start.len() <= k < all.len() && (#[trigger] all[k]).0 == AlertKind::MuscleFatigue
                ==> count >= fatigue_threshold,
        count >= fatigue_threshold ==> all.contains(
            (
                AlertKind::MuscleFatigue,
                name,
                AlertEvidence::Fatigue { count, threshold: fatigue_threshold },
            ),
        ),
        forall|k: int|
            start.len() <= k < all.len() && (#[trigger] all[k]).0 == AlertKind::PatternShift
                ==> shifted,
        shifted ==> all.contains(
            (AlertKind::PatternShift, global_name(), AlertEvidence::ShiftedPattern),
        ),
{
    let fa = flex_alerts(
        name,
        decision,
        confidence,
        confidence_threshold,
        count,
        fatigue_threshold,
        shifted,
    );
    let low = decision == Trit::Hardcode && confidence.lt_spec(confidence_threshold);
    let d: int = if low {
        1
    } else {
        0
    };
    let f: int = if count >= fatigue_threshold {
        1
    } else {
        0
    };
    assert(fa.len() == d + f + (if shifted {
        1int
    } else {
        0int
    }));
    assert forall|k: int| start.len() <= k < all.len() implies {
        &&& (#[trigger] all[k]).0 != AlertKind::FlexMiss
        &&& all[k].0 == AlertKind::MuscleFatigue ==> count >= fatigue_threshold
        &&& all[k].0 == AlertKind::PatternShift ==> shifted
    } by {
        let j = k - start.len();
        assert(all[k] == fa[j]);
        if j < d {
            assert(fa[j].0 == AlertKind::ConfidenceDrop);
        } else if j < d + f {
            assert(fa[j].0 == AlertKind::MuscleFatigue);
        } else {
            assert(fa[j].0 == AlertKind::PatternShift);
        }
    }
    if count >= fatigue_threshold {
        assert(all[start.len() + d] == fa[d]);
    }
    if shifted {
        assert(all[start.len() + d + f] == fa[d + f]);
    }
}

/// Real-time proprioceptor for monitoring flex behavior.
pub struct Proprioceptor {
    /// The monitored chords: name and decision.
    chords: Vec<(String, Trit)>,
    tracker: FlexTracker,
    alerts: Vec<Alert>,
    /// Threshold for confidence drop alert (binary64 bits; the default is 0.5).
    pub confidence_threshold: F64Bits,
    /// Threshold for muscle fatigue (invocation count).
    pub fatigue_threshold: u64,
}

pub open spec fn decision_views(v: Seq<(String, Trit)>) -> Seq<(Seq<char>, Trit)> {
    v.map_values(|p: (String, Trit)| (p.0@, p.1))
}

/// The bit pattern of binary64 0.5.
pub open spec fn half_bits() -> u64 {
    0x3FE0_0000_0000_0000
}

impl Proprioceptor {
    /// The monitored chords, with their decisions.
    pub closed spec fn known(self) -> Seq<(Seq<char>, Trit)> {
        decision_views(self.chords@)
    }

    /// The flex tracker.
    pub closed spec fn tracker(self) -> FlexTracker {
        self.tracker
    }

    /// The alerts raised and not yet drained, oldest first.
    pub closed spec fn pending(self) -> Seq<(AlertKind, Seq<char>, AlertEvidence)> {
        alert_views(self.alerts@)
    }

    /// The confidence threshold: the public field `confidence_threshold`.
    pub closed spec fn confidence_limit(self) -> F64Bits {
        self.confidence_threshold
    }

    /// The fatigue threshold: the public field `fatigue_threshold`.
    pub closed spec fn fatigue_limit(self) -> u64 {
        self.fatigue_threshold
    }

    /// Set the confidence threshold; nothing else changes.
    pub fn set_confidence_threshold(&mut self, threshold: F64Bits)
        ensures
            final(self).confidence_limit() == threshold,
            final(self).fatigue_limit() == old(self).fatigue_limit(),
            final(self).known() == old(self).known(),
            final(self).tracker() == old(self).tracker(),
            final(self).pending() == old(self).pending(),
    {
        self.confidence_threshold = threshold;
    }

    /// Set the fatigue threshold; nothing else changes.
    pub fn set_fatigue_threshold(&mut self, threshold: u64)
        ensures
            final(self).fatigue_limit() == threshold,
            final(self).confidence_limit() == old(self).confidence_limit(),
            final(self).known() == old(self).known(),
            final(self).tracker() == old(self).tracker(),
            final(self).pending() == old(self).pending(),
    {
        self.fatigue_threshold = threshold;
    }

    pub open spec fn wf(self) -> bool {
        self.tracker().wf()
    }

    /// Create a new proprioceptor monitoring the given muscle memory, with a
    /// confidence threshold of 0.5 and a fatigue threshold of 1000.
    pub fn new(mm: &MuscleMemory) -> (p: Self)
        requires
            mm.has_unique_keys(),
        ensures
            p.wf(),
            p.known() == entry_decisions(mm.chords@),
            p.tracker().count_table() == entry_counts(mm.chords@),
            p.tracker().recent_names().len() == 0,
            p.tracker().baseline_names().to_multiset() == keys_of(mm.chords@).to_multiset(),
            forall|a: int, b: int|
                0 <= a < b < p.tracker().baseline_names().len() ==> count_of(
                    p.tracker().count_table(),
                    #[trigger] p.tracker().baseline_names()[a],
                ) >= count_of(p.tracker().count_table(), #[trigger] p.tracker().baseline_names()[b]),
            p.pending().len() == 0,
            p.confidence_limit().bits == half_bits(),
            p.fatigue_limit() == 1000,
    {
        let mut chords: Vec<(String, Trit)> = Vec::new();
        let n = mm.chords.len();
        let mut i: usize = 0;
        while i < n
            invariant
                n == mm.chords@.len(),
                i <= n,
                decision_views(chords@) == entry_decisions(mm.chords@.take(i as int)),
            decreases n - i,
        {
            let ghost cb = decision_views(chords@);
            chords.push((mm.chords[i].0.clone(), mm.chords[i].1.decision));
            assert(decision_views(chords@) =~= cb.push(
                (mm.chords@[i as int].0@, mm.chords@[i as int].1.decision),
            ));
            assert(mm.chords@.take(i + 1) =~= mm.chords@.take(i as int).push(mm.chords@[i as int]));
            assert(decision_views(chords@) =~= entry_decisions(mm.chords@.take(i + 1)));
            i = i + 1;
        }
        assert(mm.chords@.take(n as int) =~= mm.chords@);
        let p = Proprioceptor {
            chords,
            tracker: FlexTracker::new(mm),
            alerts: Vec::new(),
            confidence_threshold: F64Bits { bits: 0x3FE0_0000_0000_0000 },
            fatigue_threshold: 1000,
        };
        assert(p.pending() =~= Seq::<(AlertKind, Seq<char>, AlertEvidence)>::empty());
        p
    }

    /// Observe a flex result and check for anomalies.
    ///
    /// A flex of a chord not in memory raises a `FlexMiss` alert and changes
    /// nothing else. Otherwise the flex is recorded in the tracker and the
    /// alerts of `flex_alerts` are raised, in that order.
    pub fn observe(&mut self, result: &FlexResult)
        requires
            old(self).wf(),
            decision_of(old(self).known(), result.chord_name@) is Some ==> count_of(
                old(self).tracker().count_table(),
                result.chord_name@,
            ) < u64::MAX,
        ensures
            final(self).wf(),
            final(self).known() == old(self).known(),
            final(self).confidence_limit() == old(self).confidence_limit(),
            final(self).fatigue_limit() == old(self).fatigue_limit(),
            match decision_of(old(self).known(), result.chord_name@) {
                None => {
                    &&& final(self).tracker() == old(self).tracker()
                    &&& final(self).pending() == old(self).pending().push(
                        (AlertKind::FlexMiss, result.chord_name@, AlertEvidence::NotInMemory),
                    )
                },
                Some(decision) => {
                    let t = final(self).tracker();
                    &&& t.count_table() == bumped(
                        old(self).tracker().count_table(),
                        result.chord_name@,
                    )
                    &&& t.recent_names() == slid(
                        old(self).tracker().recent_names(),
                        result.chord_name@,
                    )
                    &&& t.baseline_names() == old(self).tracker().baseline_names()
                    &&& exists|shifted: bool|
                        shift_outcome(t.recent_names(), t.baseline_names(), shifted)
                            && final(self).pending() == old(self).pending() + flex_alerts(
                            result.chord_name@,
                            decision,
                            result.confidence,
                            old(self).confidence_limit(),
                            count_of(t.count_table(), result.chord_name@) as u64,
                            old(self).fatigue_limit(),
                            shifted,
                        )
                },
            },
            forall|k: int| 0 <= k < old(self).pending().len() ==> #[trigger] final(self).pending()[k] == old(self).pending()[k],
            forall|k: int| old(self).pending().len() <= k < final(self).pending().len() && (#[trigger] final(self).pending()[k]).0 == AlertKind::ConfidenceDrop ==> decision_of(old(self).known(), result.chord_name@) == Some(Trit::Hardcode) && result.confidence.lt_spec(old(self).confidence_limit()),
            decision_of(old(self).known(), result.chord_name@) == Some(Trit::Hardcode) && result.confidence.lt_spec(old(self).confidence_limit()) ==> final(self).pending().contains((AlertKind::ConfidenceDrop, result.chord_name@, AlertEvidence::LowConfidence { confidence: result.confidence, threshold: old(self).confidence_limit() })),
            forall|k: int| old(self).pending().len() <= k < final(self).pending().len() && (#[trigger] final(self).pending()[k]).0 == AlertKind::FlexMiss ==> decision_of(old(self).known(), result.chord_name@) is None,
            forall|k: int| old(self).pending().len() <= k < final(self).pending().len() && (#[trigger] final(self).pending()[k]).0 == AlertKind::MuscleFatigue ==> decision_of(old(self).known(), result.chord_name@) is Some && count_of(final(self).tracker().count_table(), result.chord_name@) >= old(self).fatigue_limit(),
            decision_of(old(self).known(), result.chord_name@) is Some && count_of(final(self).tracker().count_table(), result.chord_name@) >= old(self).fatigue_limit() ==> final(self).pending().contains((AlertKind::MuscleFatigue, result.chord_name@, AlertEvidence::Fatigue { count: count_of(final(self).tracker().count_table(), result.chord_name@) as u64, threshold: old(self).fatigue_limit() })),
    {
        let ghost start = self.pending();
        let name = &result.chord_name;
        // Check for flex miss.
        let found = find_decision(&self.chords, name);
        match found {
            None => {
                self.alerts.push(
                    Alert {
                        kind: AlertKind::FlexMiss,
                        chord: name.clone(),
                        evidence: AlertEvidence::NotInMemory,
                    },
                );
                assert(self.pending() =~= start.push(
                    (AlertKind::FlexMiss, name@, AlertEvidence::NotInMemory),
                ));
                assert(self.tracker() == old(self).tracker());
                assert(self.known() == old(self).known());
                assert(decision_of(old(self).known(), result.chord_name@) is None);
                assert(self.pending()[start.len() as int].0 == AlertKind::FlexMiss);
                assert(self.pending() == old(self).pending().push(
                    (AlertKind::FlexMiss, result.chord_name@, AlertEvidence::NotInMemory),
                ));
                return ;
            },
            Some(decision) => {
                let ghost t0 = self.tracker;
                // Check for confidence drop on HARDCODE chords.
                if decision == Trit::Hardcode && result.confidence.less_than(
                    self.confidence_threshold,
                ) {
                    self.alerts.push(
                        Alert {
                            kind: AlertKind::ConfidenceDrop,
                            chord: name.clone(),
                            evidence: AlertEvidence::LowConfidence {
                                confidence: result.confidence,
                                threshold: self.confidence_threshold,
                            },
                        },
                    );
                }
                let ghost after_drop = self.pending();

                // Track invocation.
                self.tracker.record(name.as_str());

                // Check for muscle fatigue.
                let count = match position_in(&self.tracker.invocation_counts, name) {
                    Some(i) => {
                        proof {
                            lemma_position(self.tracker.count_table(), i as int);
                        }
                        self.tracker.invocation_counts[i].1
                    },
                    None => 0,
                };
                if count >= self.fatigue_threshold {
                    self.alerts.push(
                        Alert {
                            kind: AlertKind::MuscleFatigue,
                            chord: name.clone(),
                            evidence: AlertEvidence::Fatigue {
                                count,
                                threshold: self.fatigue_threshold,
                            },
                        },
                    );
                }
                let ghost after_fatigue = self.pending();

                // Check for pattern shift.
                let shifted = self.tracker.pattern_shifted();
                if shifted {
                    self.alerts.push(
                        Alert {
                            kind: AlertKind::PatternShift,
                            chord: String::from_str("(global)"),
                            evidence: AlertEvidence::ShiftedPattern,
                        },
                    );
                }
                assert(self.pending() =~= start + flex_alerts(
                    name@,
                    decision,
                    result.confidence,
                    self.confidence_threshold,
                    count,
                    self.fatigue_threshold,
                    shifted,
                ));
                proof {
                    law_flex_alert_grounds(
                        start,
                        self.pending(),
                        name@,
                        decision,
                        result.confidence,
                        self.confidence_threshold,
                        count,
                        self.fatigue_threshold,
                        shifted,
                    );
                    law_confidence_drop_only_for_hardcode(
                        start,
                        self.pending(),
                        name@,
                        decision,
                        result.confidence,
                        self.confidence_threshold,
                        count,
                        self.fatigue_threshold,
                        shifted,
                    );
                }
            },
        }
    }

    /// Drain and return all pending alerts, oldest first.
    pub fn alerts(&mut self) -> (drained: Vec<Alert>)
        ensures
            alert_views(drained@) == old(self).pending(),
            final(self).pending().len() == 0,
            final(self).known() == old(self).known(),
            final(self).tracker() == old(self).tracker(),
            final(self).confidence_limit() == old(self).confidence_limit(),
            final(self).fatigue_limit() == old(self).fatigue_limit(),
    {
        let mut drained: Vec<Alert> = Vec::new();
        std::mem::swap(&mut drained, &mut self.alerts);
        assert(self.pending() =~= Seq::<(AlertKind, Seq<char>, AlertEvidence)>::empty());
        drained
    }
}

/// The decision of the first chord named `k`, if any.
fn find_decision(v: &Vec<(String, Trit)>, k: &String) -> (r: Option<Trit>)
    ensures
        r == decision_of(decision_views(v@), k@),
{
    let ghost views = decision_views(v@);
    let mut i: usize = 0;
    while i < v.len()
        invariant
            i <= v@.len(),
            views == decision_views(v@),
            decision_of(views, k@) == decision_of(views.skip(i as int), k@),
        decreases v@.len() - i,
    {
        let ghost rest = views.skip(i as int);
        assert(rest[0] == (v@[i as int].0@, v@[i as int].1));
        assert(rest.drop_first() =~= views.skip(i + 1));
        if v[i].0 == *k {
            return Some(v[i].1);
        }
        i = i + 1;
    }
    None
}

} // verus!
