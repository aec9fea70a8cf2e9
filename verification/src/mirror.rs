//! Mirror: compare two muscle memory snapshots and detect drift.

use vstd::prelude::*;

use crate::index::NameIndex;
use crate::{
    has_key, lemma_lookup_none, lemma_lookup_unique, lookup, ChordShape, MuscleMemory,
    Trit,
};

verus! {

/// A chord that changed its decision source between versions.
#[derive(Debug, Clone)]
pub struct DecisionShift {
    pub chord: String,
    pub from: Trit,
    pub to: Trit,
}

impl View for DecisionShift {
    type V = (Seq<char>, Trit, Trit);

    open spec fn view(&self) -> (Seq<char>, Trit, Trit) {
        (self.chord@, self.from, self.to)
    }
}

/// A chord whose source hash changed (implementation modified).
#[derive(Debug, Clone)]
pub struct ChangedChord {
    pub chord: String,
    pub old_hash: String,
    pub new_hash: String,
}

impl View for ChangedChord {
    type V = (Seq<char>, Seq<char>, Seq<char>);

    open spec fn view(&self) -> (Seq<char>, Seq<char>, Seq<char>) {
        (self.chord@, self.old_hash@, self.new_hash@)
    }
}

/// Full diff report between two muscle memory snapshots.
#[derive(Debug, Clone)]
pub struct MirrorReport {
    /// Chords whose source_hash changed.
    pub changed: Vec<ChangedChord>,
    /// New chords present in v2 but not v1.
    pub added: Vec<String>,
    /// Chords present in v1 but missing from v2.
    pub removed: Vec<String>,
    /// Chords whose decision source shifted.
    pub decision_shifts: Vec<DecisionShift>,
}

/// Compare two muscle memory snapshots.
pub struct Mirror;

/// Keys of the first `n` entries of `from` that no entry of `other` has, in order.
pub open spec fn missing_keys_prefix(
    from: Seq<(String, ChordShape)>,
    other: Seq<(String, ChordShape)>,
    n: nat,
) -> Seq<Seq<char>>
    decreases n,
{
    if n == 0 || n > from.len() {
        Seq::empty()
    } else {
        let prev = missing_keys_prefix(from, other, (n - 1) as nat);
        if has_key(other, from[n - 1].0@) {
            prev
        } else {
            prev.push(from[n - 1].0@)
        }
    }
}

/// Keys of `from`, in order, that no entry of `other` has.
pub open spec fn missing_keys(from: Seq<(String, ChordShape)>, other: Seq<(String, ChordShape)>) -> Seq<
    Seq<char>,
> {
    missing_keys_prefix(from, other, from.len())
}

/// Source-hash changes among the first `n` entries of `new`, in order.
pub open spec fn changed_prefix(
    old: Seq<(String, ChordShape)>,
    new: Seq<(String, ChordShape)>,
    n: nat,
) -> Seq<(Seq<char>, Seq<char>, Seq<char>)>
    decreases n,
{
    if n == 0 || n > new.len() {
        Seq::empty()
    } else {
        let prev = changed_prefix(old, new, (n - 1) as nat);
        let key = new[n - 1].0@;
        let c2 = new[n - 1].1;
        match lookup(old, key) {
            Some(c1) => if c1.source_hash@ != c2.source_hash@ {
                prev.push((key, c1.source_hash@, c2.source_hash@))
            } else {
                prev
            },
            None => prev,
        }
    }
}

/// Decision shifts among the first `n` entries of `new`, in order.
pub open spec fn shifts_prefix(
    old: Seq<(String, ChordShape)>,
    new: Seq<(String, ChordShape)>,
    n: nat,
) -> Seq<(Seq<char>, Trit, Trit)>
    decreases n,
{
    if n == 0 || n > new.len() {
        Seq::empty()
    } else {
        let prev = shifts_prefix(old, new, (n - 1) as nat);
        let key = new[n - 1].0@;
        let c2 = new[n - 1].1;
        match lookup(old, key) {
            Some(c1) => if c1.decision != c2.decision {
                prev.push((key, c1.decision, c2.decision))
            } else {
                prev
            },
            None => prev,
        }
    }
}

pub open spec fn changed_views(s: Seq<ChangedChord>) -> Seq<(Seq<char>, Seq<char>, Seq<char>)> {
    s.map_values(|c: ChangedChord| c@)
}

pub open spec fn shift_views(s: Seq<DecisionShift>) -> Seq<(Seq<char>, Trit, Trit)> {
    s.map_values(|d: DecisionShift| d@)
}

pub open spec fn name_views(s: Seq<String>) -> Seq<Seq<char>> {
    s.map_values(|x: String| x@)
}

impl MirrorReport {
    /// The report that `Mirror::compare` gives for two sequences of entries.
    pub open spec fn describes(self, old: Seq<(String, ChordShape)>, new: Seq<(String, ChordShape)>) -> bool {
        &&& name_views(self.removed@) == missing_keys(old, new)
        &&& name_views(self.added@) == missing_keys(new, old)
        &&& changed_views(self.changed@) == changed_prefix(old, new, new.len())
        &&& shift_views(self.decision_shifts@) == shifts_prefix(old, new, new.len())
    }

    /// Nothing was changed, added, removed or shifted.
    pub open spec fn is_empty(self) -> bool {
        &&& self.changed@.len() == 0
        &&& self.added@.len() == 0
        &&& self.removed@.len() == 0
        &&& self.decision_shifts@.len() == 0
    }
}

impl Mirror {
    /// Produce a full diff report between two versions.
    ///
    /// `removed`: keys of `v1`, in its order, that `v2` lacks. `added`: keys of
    /// `v2`, in its order, that `v1` lacks. `changed` and `decision_shifts`:
    /// for each entry of `v2`, in order, whose key `v1` has, the source-hash
    /// change and the decision change, where there is one.
    pub fn compare(v1: &MuscleMemory, v2: &MuscleMemory) -> (report: MirrorReport)
        ensures
            report.describes(v1.chords@, v2.chords@),
    {
        let mut changed: Vec<ChangedChord> = Vec::new();
        let mut added: Vec<String> = Vec::new();
        let mut removed: Vec<String> = Vec::new();
        let mut decision_shifts: Vec<DecisionShift> = Vec::new();
        let index1 = NameIndex::new(&v1.chords);
        let index2 = NameIndex::new(&v2.chords);

        // Find removed chords (in v1 but not v2).
        let n1 = v1.chords.len();
        let mut i: usize = 0;
        while i < n1
            invariant
                n1 == v1.chords@.len(),
                i <= n1,
                index2.indexes(v2.chords@),
                name_views(removed@) == missing_keys_prefix(v1.chords@, v2.chords@, i as nat),
            decreases n1 - i,
        {
            let name = &v1.chords[i].0;
            if index2.find(&v2.chords, name).is_none() {
                removed.push(name.clone());
            }
            assert(name_views(removed@) =~= missing_keys_prefix(
                v1.chords@,
                v2.chords@,
                (i + 1) as nat,
            ));
            i = i + 1;
        }

        // Find added chords and changed chords.
        let n2 = v2.chords.len();
        let mut j: usize = 0;
        while j < n2
            invariant
                n2 == v2.chords@.len(),
                j <= n2,
                index1.indexes(v1.chords@),
                name_views(added@) == missing_keys_prefix(v2.chords@, v1.chords@, j as nat),
                changed_views(changed@) == changed_prefix(v1.chords@, v2.chords@, j as nat),
                shift_views(decision_shifts@) == shifts_prefix(v1.chords@, v2.chords@, j as nat),
            decreases n2 - j,
        {
            let name = &v2.chords[j].0;
            let chord_v2 = &v2.chords[j].1;
            match index1.find(&v1.chords, name) {
                None => {
                    added.push(name.clone());
                },
                Some(k) => {
                    let chord_v1 = &v1.chords[k].1;
                    if !(chord_v1.source_hash == chord_v2.source_hash) {
                        changed.push(
                            ChangedChord {
                                chord: name.clone(),
                                old_hash: chord_v1.source_hash.clone(),
                                new_hash: chord_v2.source_hash.clone(),
                            },
                        );
                    }
                    if chord_v1.decision != chord_v2.decision {
                        decision_shifts.push(
                            DecisionShift {
                                chord: name.clone(),
                                from: chord_v1.decision,
                                to: chord_v2.decision,
                            },
                        );
                    }
                    proof {
                        assert(has_key(v1.chords@, name@)) by {
                            assert(v1.chords@[k as int].0@ == name@);
                        }
                    }
                },
            }
            assert(name_views(added@) =~= missing_keys_prefix(
                v2.chords@,
                v1.chords@,
                (j + 1) as nat,
            ));
            assert(changed_views(changed@) =~= changed_prefix(
                v1.chords@,
                v2.chords@,
                (j + 1) as nat,
            ));
            assert(shift_views(decision_shifts@) =~= shifts_prefix(
                v1.chords@,
                v2.chords@,
                (j + 1) as nat,
            ));
            j = j + 1;
        }

        MirrorReport { changed, added, removed, decision_shifts }
    }
}

proof fn lemma_missing_self_prefix(entries: Seq<(String, ChordShape)>, n: nat)
    requires
        n <= entries.len(),
    ensures
        missing_keys_prefix(entries, entries, n).len() == 0,
    decreases n,
{
    if n > 0 {
        lemma_missing_self_prefix(entries, (n - 1) as nat);
        assert(has_key(entries, entries[n - 1].0@));
    }
}

proof fn lemma_no_drift_prefix(mm: MuscleMemory, n: nat)
    requires
        mm.has_unique_keys(),
        n <= mm.chords@.len(),
    ensures
        changed_prefix(mm.chords@, mm.chords@, n).len() == 0,
        shifts_prefix(mm.chords@, mm.chords@, n).len() == 0,
    decreases n,
{
    if n > 0 {
        lemma_no_drift_prefix(mm, (n - 1) as nat);
        lemma_lookup_unique(mm, n - 1);
    }
}

/// Comparing a snapshot (whose keys are distinct, as in a map) with itself
/// reports no change, no addition, no removal and no decision shift.
pub proof fn law_compare_with_itself_is_empty(mm: MuscleMemory, report: MirrorReport)
    requires
        mm.has_unique_keys(),
        report.describes(mm.chords@, mm.chords@),
    ensures
        report.is_empty(),
{
    lemma_missing_self_prefix(mm.chords@, mm.chords@.len());
    lemma_no_drift_prefix(mm, mm.chords@.len());
    assert(name_views(report.removed@).len() == report.removed@.len());
    assert(name_views(report.added@).len() == report.added@.len());
    assert(changed_views(report.changed@).len() == report.changed@.len());
    assert(shift_views(report.decision_shifts@).len() == report.decision_shifts@.len());
}

/// What one comparison reports as added, the reverse comparison reports as
/// removed, in the same order.
pub proof fn law_added_is_reverse_removed(
    v1: MuscleMemory,
    v2: MuscleMemory,
    forward: MirrorReport,
    backward: MirrorReport,
)
    requires
        forward.describes(v1.chords@, v2.chords@),
        backward.describes(v2.chords@, v1.chords@),
    ensures
        name_views(forward.added@) == name_views(backward.removed@),
        name_views(forward.removed@) == name_views(backward.added@),
{
}

proof fn lemma_missing_membership(
    from: Seq<(String, ChordShape)>,
    other: Seq<(String, ChordShape)>,
    n: nat,
    k: Seq<char>,
)
    requires
        n <= from.len(),
    ensures
        missing_keys_prefix(from, other, n).contains(k) <==> (exists|i: int|
            0 <= i < n && #[trigger] from[i].0@ == k) && !has_key(other, k),
    decreases n,
{
    if n > 0 {
        lemma_missing_membership(from, other, (n - 1) as nat, k);
        let prev = missing_keys_prefix(from, other, (n - 1) as nat);
        if missing_keys_prefix(from, other, n).contains(k) {
            if !prev.contains(k) {
                let idx = choose|idx: int|
                    0 <= idx < missing_keys_prefix(from, other, n).len()
                        && missing_keys_prefix(from, other, n)[idx] == k;
                assert(idx == prev.len());
                assert(from[n - 1].0@ == k);
            }
        }
        if (exists|i: int| 0 <= i < n && #[trigger] from[i].0@ == k) && !has_key(other, k) {
            if !(exists|i: int| 0 <= i < n - 1 && #[trigger] from[i].0@ == k) {
                let i = choose|i: int| 0 <= i < n && #[trigger] from[i].0@ == k;
                assert(i == n - 1);
                assert(missing_keys_prefix(from, other, n) == prev.push(k));
                assert(missing_keys_prefix(from, other, n)[prev.len() as int] == k);
            } else {
                assert(prev.contains(k));
                let idx = choose|idx: int| 0 <= idx < prev.len() && prev[idx] == k;
                assert(missing_keys_prefix(from, other, n)[idx] == k);
            }
        }
    }
}

/// A key is reported as added exactly when the second snapshot has it and
/// the first does not, and as removed exactly when the first has it and the
/// second does not.
pub proof fn law_added_and_removed_keys(
    v1: MuscleMemory,
    v2: MuscleMemory,
    report: MirrorReport,
    k: Seq<char>,
)
    requires
        report.describes(v1.chords@, v2.chords@),
    ensures
        name_views(report.added@).contains(k) <==> has_key(v2.chords@, k) && !has_key(
            v1.chords@,
            k,
        ),
        name_views(report.removed@).contains(k) <==> has_key(v1.chords@, k) && !has_key(
            v2.chords@,
            k,
        ),
{
    lemma_missing_membership(v2.chords@, v1.chords@, v2.chords@.len(), k);
    lemma_missing_membership(v1.chords@, v2.chords@, v1.chords@.len(), k);
}

proof fn lemma_shift_membership(
    old: Seq<(String, ChordShape)>,
    new: Seq<(String, ChordShape)>,
    n: nat,
    x: (Seq<char>, Trit, Trit),
)
    requires
        n <= new.len(),
    ensures
        shifts_prefix(old, new, n).contains(x) <==> exists|j: int|
            0 <= j < n && (#[trigger] new[j]).0@ == x.0 && lookup(old, x.0) is Some && lookup(
                old,
                x.0,
            ).unwrap().decision == x.1 && new[j].1.decision == x.2 && x.1 != x.2,
    decreases n,
{
    if n > 0 {
        lemma_shift_membership(old, new, (n - 1) as nat, x);
        let prev = shifts_prefix(old, new, (n - 1) as nat);
        let cur = shifts_prefix(old, new, n);
        assert(cur == prev || cur == prev.push(cur.last()));
        if cur.contains(x) {
            let k = choose|k: int| 0 <= k < cur.len() && cur[k] == x;
            if k < prev.len() {
                assert(prev[k] == x);
                assert(prev.contains(x));
            } else {
                assert(new[n - 1].0@ == x.0);
            }
        }
        if exists|j: int|
            0 <= j < n && (#[trigger] new[j]).0@ == x.0 && lookup(old, x.0) is Some && lookup(
                old,
                x.0,
            ).unwrap().decision == x.1 && new[j].1.decision == x.2 && x.1 != x.2 {
            let j = choose|j: int|
                0 <= j < n && (#[trigger] new[j]).0@ == x.0 && lookup(old, x.0) is Some && lookup(
                    old,
                    x.0,
                ).unwrap().decision == x.1 && new[j].1.decision == x.2 && x.1 != x.2;
            if j < n - 1 {
                assert(prev.contains(x));
                let k = choose|k: int| 0 <= k < prev.len() && prev[k] == x;
                assert(cur[k] == x);
            } else {
                assert(cur == prev.push(x));
                assert(cur[prev.len() as int] == x);
            }
        }
    }
}

/// The decision of the chord keyed by `k`, if the snapshot has one.
pub open spec fn decision_at(entries: Seq<(String, ChordShape)>, k: Seq<char>) -> Option<Trit> {
    match lookup(entries, k) {
        Some(c) => Some(c.decision),
        None => None,
    }
}

/// Between two snapshots (each a map), a decision shift `from -> to` is
/// reported for a chord exactly when both hold it, with decision `from` in
/// the first and `to` in the second, and the two differ.
pub proof fn law_decision_shifts_are_exact(
    v1: MuscleMemory,
    v2: MuscleMemory,
    report: MirrorReport,
    k: Seq<char>,
    from: Trit,
    to: Trit,
)
    requires
        v2.has_unique_keys(),
        report.describes(v1.chords@, v2.chords@),
    ensures
        shift_views(report.decision_shifts@).contains((k, from, to)) <==> decision_at(
            v1.chords@,
            k,
        ) == Some(from) && decision_at(v2.chords@, k) == Some(to) && from != to,
{
    lemma_shift_membership(v1.chords@, v2.chords@, v2.chords@.len(), (k, from, to));
    if decision_at(v2.chords@, k) is Some {
        if !has_key(v2.chords@, k) {
            lemma_lookup_none(v2.chords@, k);
        }
        let j = choose|j: int| 0 <= j < v2.chords@.len() && #[trigger] v2.chords@[j].0@ == k;
        lemma_lookup_unique(v2, j);
    }
    if exists|j: int|
        0 <= j < v2.chords@.len() && (#[trigger] v2.chords@[j]).0@ == k && lookup(
            v1.chords@,
            k,
        ) is Some && lookup(v1.chords@, k).unwrap().decision == from && v2.chords@[j].1.decision
            == to && from != to {
        let j = choose|j: int|
            0 <= j < v2.chords@.len() && (#[trigger] v2.chords@[j]).0@ == k && lookup(
                v1.chords@,
                k,
            ) is Some && lookup(v1.chords@, k).unwrap().decision == from
                && v2.chords@[j].1.decision == to && from != to;
        lemma_lookup_unique(v2, j);
    }
}

/// Comparing in the other direction reverses every decision shift: between
/// two snapshots (each a map), `from -> to` is reported for a chord one way
/// exactly when `to -> from` is reported for it the other way.
pub proof fn law_decision_shifts_reverse(
    v1: MuscleMemory,
    v2: MuscleMemory,
    forward: MirrorReport,
    backward: MirrorReport,
    k: Seq<char>,
    from: Trit,
    to: Trit,
)
    requires
        v1.has_unique_keys(),
        v2.has_unique_keys(),
        forward.describes(v1.chords@, v2.chords@),
        backward.describes(v2.chords@, v1.chords@),
    ensures
        shift_views(forward.decision_shifts@).contains((k, from, to)) <==> shift_views(
            backward.decision_shifts@,
        ).contains((k, to, from)),
{
    law_decision_shifts_are_exact(v1, v2, forward, k, from, to);
    law_decision_shifts_are_exact(v2, v1, backward, k, to, from);
}

proof fn lemma_changed_membership(
    old: Seq<(String, ChordShape)>,
    new: Seq<(String, ChordShape)>,
    n: nat,
    x: (Seq<char>, Seq<char>, Seq<char>),
)
    requires
        n <= new.len(),
    ensures
        changed_prefix(old, new, n).contains(x) <==> exists|j: int|
            0 <= j < n && (#[trigger] new[j]).0@ == x.0 && lookup(old, x.0) is Some && lookup(
                old,
                x.0,
            ).unwrap().source_hash@ == x.1 && new[j].1.source_hash@ == x.2 && x.1 != x.2,
    decreases n,
{
    if n > 0 {
        lemma_changed_membership(old, new, (n - 1) as nat, x);
        let prev = changed_prefix(old, new, (n - 1) as nat);
        let cur = changed_prefix(old, new, n);
        assert(cur == prev || cur == prev.push(cur.last()));
        if cur.contains(x) {
            let k = choose|k: int| 0 <= k < cur.len() && cur[k] == x;
            if k < prev.len() {
                assert(prev[k] == x);
                assert(prev.contains(x));
            } else {
                assert(new[n - 1].0@ == x.0);
            }
        }
        if exists|j: int|
            0 <= j < n && (#[trigger] new[j]).0@ == x.0 && lookup(old, x.0) is Some && lookup(
                old,
                x.0,
            ).unwrap().source_hash@ == x.1 && new[j].1.source_hash@ == x.2 && x.1 != x.2 {
            let j = choose|j: int|
                0 <= j < n && (#[trigger] new[j]).0@ == x.0 && lookup(old, x.0) is Some && lookup(
                    old,
                    x.0,
                ).unwrap().source_hash@ == x.1 && new[j].1.source_hash@ == x.2 && x.1 != x.2;
            if j < n - 1 {
                assert(prev.contains(x));
                let k = choose|k: int| 0 <= k < prev.len() && prev[k] == x;
                assert(cur[k] == x);
            } else {
                assert(cur == prev.push(x));
                assert(cur[prev.len() as int] == x);
            }
        }
    }
}

/// The source hash of the chord keyed by `k`, if the snapshot has one.
pub open spec fn hash_at(entries: Seq<(String, ChordShape)>, k: Seq<char>) -> Option<Seq<char>> {
    match lookup(entries, k) {
        Some(c) => Some(c.source_hash@),
        None => None,
    }
}

/// Between two snapshots (each a map), a hash change `old_hash -> new_hash`
/// is reported for a chord exactly when both hold it, with `old_hash` in the
/// first and `new_hash` in the second, and the two differ.
pub proof fn law_changed_hashes_are_exact(
    v1: MuscleMemory,
    v2: MuscleMemory,
    report: MirrorReport,
    k: Seq<char>,
    old_hash: Seq<char>,
    new_hash: Seq<char>,
)
    requires
        v2.has_unique_keys(),
        report.describes(v1.chords@, v2.chords@),
    ensures
        changed_views(report.changed@).contains((k, old_hash, new_hash)) <==> hash_at(
            v1.chords@,
            k,
        ) == Some(old_hash) && hash_at(v2.chords@, k) == Some(new_hash) && old_hash != new_hash,
{
    lemma_changed_membership(v1.chords@, v2.chords@, v2.chords@.len(), (k, old_hash, new_hash));
    if hash_at(v2.chords@, k) is Some {
        if !has_key(v2.chords@, k) {
            lemma_lookup_none(v2.chords@, k);
        }
        let j = choose|j: int| 0 <= j < v2.chords@.len() && #[trigger] v2.chords@[j].0@ == k;
        lemma_lookup_unique(v2, j);
    }
    if exists|j: int|
        0 <= j < v2.chords@.len() && (#[trigger] v2.chords@[j]).0@ == k && lookup(
            v1.chords@,
            k,
        ) is Some && lookup(v1.chords@, k).unwrap().source_hash@ == old_hash
            && v2.chords@[j].1.source_hash@ == new_hash && old_hash != new_hash {
        let j = choose|j: int|
            0 <= j < v2.chords@.len() && (#[trigger] v2.chords@[j]).0@ == k && lookup(
                v1.chords@,
                k,
            ) is Some && lookup(v1.chords@, k).unwrap().source_hash@ == old_hash
                && v2.chords@[j].1.source_hash@ == new_hash && old_hash != new_hash;
        lemma_lookup_unique(v2, j);
    }
}

/// Comparing in the other direction swaps old and new hashes: between two
/// snapshots (each a map), `old_hash -> new_hash` is reported for a chord one
/// way exactly when `new_hash -> old_hash` is reported for it the other way.
pub proof fn law_changed_hashes_reverse(
    v1: MuscleMemory,
    v2: MuscleMemory,
    forward: MirrorReport,
    backward: MirrorReport,
    k: Seq<char>,
    old_hash: Seq<char>,
    new_hash: Seq<char>,
)
    requires
        v1.has_unique_keys(),
        v2.has_unique_keys(),
        forward.describes(v1.chords@, v2.chords@),
        backward.describes(v2.chords@, v1.chords@),
    ensures
        changed_views(forward.changed@).contains((k, old_hash, new_hash)) <==> changed_views(
            backward.changed@,
        ).contains((k, new_hash, old_hash)),
{
    law_changed_hashes_are_exact(v1, v2, forward, k, old_hash, new_hash);
    law_changed_hashes_are_exact(v2, v1, backward, k, new_hash, old_hash);
}

} // verus!
