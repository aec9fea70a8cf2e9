//! Coherence: check whether a muscle memory is internally consistent.

use vstd::prelude::*;

use crate::index::NameIndex;
use crate::text::{decimal, decimal_string};
use crate::{has_key, string_views, ChordShape, Issue, MuscleMemory, Severity, Trit};

verus! {

/// Coherence checker for muscle memory.
pub struct Coherence;

/// How `Debug` writes a decision.
pub open spec fn trit_debug(t: Trit) -> Seq<char> {
    match t {
        Trit::Hardcode => "Hardcode"@,
        Trit::Model => "Model"@,
        Trit::Hybrid => "Hybrid"@,
    }
}

pub open spec fn orphan_text() -> Seq<char> {
    "Orphan chord: calls nothing and nothing calls it"@
}

pub open spec fn broken_text(called: Seq<char>) -> Seq<char> {
    "Broken chain: calls '"@ + called + "' which is not in muscle memory"@
}

pub open spec fn safety_text(t: Trit) -> Seq<char> {
    "Safety-critical function has decision "@ + trit_debug(t) + " (should be HARDCODE)"@
}

pub open spec fn gap_text(edges: nat) -> Seq<char> {
    "High-connectivity function ("@ + decimal(edges) + " edges) has no tests"@
}

pub open spec fn inversion_text(callers: nat, priority: nat) -> Seq<char> {
    "Priority inversion: called by "@ + decimal(callers) + " functions but priority is "@
        + decimal(priority)
}

/// A chord that calls nothing and that nothing calls.
pub open spec fn is_orphan(chord: ChordShape) -> bool {
    chord.calls@.len() == 0 && chord.called_by@.len() == 0
}

/// A safety-critical chord whose decision is not HARDCODE.
pub open spec fn violates_safety(chord: ChordShape) -> bool {
    chord.safety_critical && chord.decision != Trit::Hardcode
}

/// Number of call-graph edges at a chord.
pub open spec fn connectivity(chord: ChordShape) -> nat {
    chord.calls@.len() + chord.called_by@.len()
}

/// A high-connectivity chord (five or more edges) without tests.
pub open spec fn has_test_gap(chord: ChordShape) -> bool {
    connectivity(chord) >= 5 && !chord.has_tests
}

/// A chord called by five or more functions but ranked below three.
pub open spec fn has_priority_inversion(chord: ChordShape) -> bool {
    chord.called_by@.len() >= 5 && chord.priority < 3
}

/// One critical issue for each call, in order, that names no chord of the snapshot.
pub open spec fn broken_issues(
    entries: Seq<(String, ChordShape)>,
    key: Seq<char>,
    calls: Seq<Seq<char>>,
) -> Seq<(Severity, Seq<char>, Seq<char>)>
    decreases calls.len(),
{
    if calls.len() == 0 {
        Seq::empty()
    } else {
        let prev = broken_issues(entries, key, calls.drop_last());
        if has_key(entries, calls.last()) {
            prev
        } else {
            prev.push((Severity::Critical, key, broken_text(calls.last())))
        }
    }
}

/// The issues found at one chord, in the order the checks run: orphan,
/// broken chains, safety violation, test gap, priority inversion.
pub open spec fn chord_issues(
    entries: Seq<(String, ChordShape)>,
    key: Seq<char>,
    chord: ChordShape,
) -> Seq<(Severity, Seq<char>, Seq<char>)> {
    let orphan = if is_orphan(chord) {
        seq![(Severity::Info, key, orphan_text())]
    } else {
        Seq::empty()
    };
    let safety = if violates_safety(chord) {
        seq![(Severity::Critical, key, safety_text(chord.decision))]
    } else {
        Seq::empty()
    };
    let gap = if has_test_gap(chord) {
        seq![(Severity::Warning, key, gap_text(connectivity(chord)))]
    } else {
        Seq::empty()
    };
    let inversion = if has_priority_inversion(chord) {
        seq![
            (
                Severity::Warning,
                key,
                inversion_text(chord.called_by@.len(), chord.priority as nat),
            ),
        ]
    } else {
        Seq::empty()
    };
    orphan + broken_issues(entries, key, string_views(chord.calls@)) + safety + gap + inversion
}

/// The issues of the first `n` entries, entry by entry.
pub open spec fn issues_of_prefix(entries: Seq<(String, ChordShape)>, n: nat) -> Seq<
    (Severity, Seq<char>, Seq<char>),
>
    decreases n,
{
    if n == 0 || n > entries.len() {
        Seq::empty()
    } else {
        issues_of_prefix(entries, (n - 1) as nat) + chord_issues(
            entries,
            entries[n - 1].0@,
            entries[n - 1].1,
        )
    }
}

/// The full coherence report of a snapshot.
pub open spec fn coherence_report(entries: Seq<(String, ChordShape)>) -> Seq<
    (Severity, Seq<char>, Seq<char>),
> {
    issues_of_prefix(entries, entries.len())
}

/// Views of a sequence of issues.
pub open spec fn issue_views(s: Seq<Issue>) -> Seq<(Severity, Seq<char>, Seq<char>)> {
    s.map_values(|i: Issue| i@)
}

fn trit_debug_str(t: Trit) -> (s: &'static str)
    ensures
        s@ == trit_debug(t),
{
    match t {
        Trit::Hardcode => "Hardcode",
        Trit::Model => "Model",
        Trit::Hybrid => "Hybrid",
    }
}

fn push_issue(issues: &mut Vec<Issue>, severity: Severity, chord: &String, description: String)
    ensures
        issue_views(final(issues)@) == issue_views(old(issues)@).push(
            (severity, chord@, description@),
        ),
{
    let issue = Issue { severity, chord: chord.clone(), description };
    issues.push(issue);
    assert(issue_views(issues@) =~= issue_views(old(issues)@).push(
        (severity, chord@, description@),
    ));
}

fn push_chord_issues(
    issues: &mut Vec<Issue>,
    entries: &Vec<(String, ChordShape)>,
    index: &NameIndex,
    name: &String,
    chord: &ChordShape,
)
    requires
        index.indexes(entries@),
    ensures
        issue_views(final(issues)@) == issue_views(old(issues)@) + chord_issues(
            entries@,
            name@,
            *chord,
        ),
{
    let ghost start = issue_views(issues@);
    let ghost calls = string_views(chord.calls@);

    // 1. Orphan chords: call nothing and nothing calls them.
    if chord.calls.len() == 0 && chord.called_by.len() == 0 {
        push_issue(
            issues,
            Severity::Info,
            name,
            String::from_str("Orphan chord: calls nothing and nothing calls it"),
        );
    }
    let ghost after_orphan = issue_views(issues@);

    // 2. Broken chains: calls a function not in memory.
    let n = chord.calls.len();
    let mut j: usize = 0;
    while j < n
        invariant
            n == chord.calls@.len(),
            j <= n,
            calls == string_views(chord.calls@),
            index.indexes(entries@),
            issue_views(issues@) == after_orphan + broken_issues(
                entries@,
                name@,
                calls.take(j as int),
            ),
        decreases n - j,
    {
        let called = &chord.calls[j];
        assert(calls.take(j + 1).drop_last() =~= calls.take(j as int));
        assert(calls.take(j + 1).last() == called@);
        match index.find(entries, called) {
            Some(_) => {},
            None => {
                let mut d = String::from_str("Broken chain: calls '");
                d.append(called.as_str());
                d.append("' which is not in muscle memory");
                push_issue(issues, Severity::Critical, name, d);
            },
        }
        j = j + 1;
    }
    assert(calls.take(n as int) =~= calls);
    let ghost after_broken = issue_views(issues@);

    // 3. Decision contradictions: safety-critical function not HARDCODE.
    if chord.safety_critical && chord.decision != Trit::Hardcode {
        let mut d = String::from_str("Safety-critical function has decision ");
        d.append(trit_debug_str(chord.decision));
        d.append(" (should be HARDCODE)");
        push_issue(issues, Severity::Critical, name, d);
    }
    let ghost after_safety = issue_views(issues@);

    // 4. Test gaps: five or more edges and no tests.
    let edges: u128 = chord.calls.len() as u128 + chord.called_by.len() as u128;
    if edges >= 5 && !chord.has_tests {
        let mut d = String::from_str("High-connectivity function (");
        d.append(decimal_string(edges).as_str());
        d.append(" edges) has no tests");
        push_issue(issues, Severity::Warning, name, d);
    }
    let ghost after_gap = issue_views(issues@);

    // 5. Priority inversions: called by many but ranked low.
    if chord.called_by.len() >= 5 && chord.priority < 3 {
        let mut d = String::from_str("Priority inversion: called by ");
        d.append(decimal_string(chord.called_by.len() as u128).as_str());
        d.append(" functions but priority is ");
        d.append(decimal_string(chord.priority as u128).as_str());
        push_issue(issues, Severity::Warning, name, d);
    }
    assert(issue_views(issues@) =~= start + chord_issues(entries@, name@, *chord));
}

/// A snapshot with nothing to warn about: every call names a chord of the
/// snapshot, and no chord violates safety, lacks tests at five or more
/// edges, or is ranked below three while five or more functions call it.
pub open spec fn is_sound(entries: Seq<(String, ChordShape)>) -> bool {
    forall|i: int|
        0 <= i < entries.len() ==> {
            let c = (#[trigger] entries[i]).1;
            &&& forall|j: int| 0 <= j < c.calls@.len() ==> has_key(entries, #[trigger] c.calls@[j]@)
            &&& !violates_safety(c)
            &&& !has_test_gap(c)
            &&& !has_priority_inversion(c)
        }
}

proof fn lemma_no_broken(entries: Seq<(String, ChordShape)>, key: Seq<char>, calls: Seq<Seq<char>>)
    requires
        forall|j: int| 0 <= j < calls.len() ==> has_key(entries, #[trigger] calls[j]),
    ensures
        broken_issues(entries, key, calls).len() == 0,
    decreases calls.len(),
{
    if calls.len() > 0 {
        lemma_no_broken(entries, key, calls.drop_last());
        assert(has_key(entries, calls[calls.len() - 1]));
    }
}

proof fn lemma_sound_prefix(entries: Seq<(String, ChordShape)>, n: nat)
    requires
        is_sound(entries),
        n <= entries.len(),
    ensures
        forall|k: int|
            0 <= k < issues_of_prefix(entries, n).len() ==> (#[trigger] issues_of_prefix(
                entries,
                n,
            )[k]).0 == Severity::Info,
    decreases n,
{
    if n > 0 {
        lemma_sound_prefix(entries, (n - 1) as nat);
        let c = entries[n - 1].1;
        let calls = string_views(c.calls@);
        assert forall|j: int| 0 <= j < calls.len() implies has_key(entries, #[trigger] calls[j]) by {
            assert(calls[j] == c.calls@[j]@);
        }
        lemma_no_broken(entries, entries[n - 1].0@, calls);
        let prev = issues_of_prefix(entries, (n - 1) as nat);
        let here = chord_issues(entries, entries[n - 1].0@, c);
        assert(issues_of_prefix(entries, n) == prev + here);
        assert forall|k: int| 0 <= k < here.len() implies (#[trigger] here[k]).0 == Severity::Info by {}
        assert forall|k: int|
            0 <= k < issues_of_prefix(entries, n).len() implies (#[trigger] issues_of_prefix(
            entries,
            n,
        )[k]).0 == Severity::Info by {
            if k < prev.len() {
                assert(issues_of_prefix(entries, n)[k] == prev[k]);
            } else {
                assert(issues_of_prefix(entries, n)[k] == here[k - prev.len()]);
            }
        }
    }
}

/// A sound snapshot yields no critical and no warning issue: at most the
/// informational orphan notices.
pub proof fn law_sound_memory_has_only_notices(mm: MuscleMemory)
    requires
        is_sound(mm.chords@),
    ensures
        forall|k: int|
            0 <= k < coherence_report(mm.chords@).len() ==> (#[trigger] coherence_report(
                mm.chords@,
            )[k]).0 == Severity::Info,
{
    lemma_sound_prefix(mm.chords@, mm.chords@.len());
}

proof fn lemma_prefix_grows(entries: Seq<(String, ChordShape)>, m: nat, n: nat)
    requires
        m <= n <= entries.len(),
    ensures
        issues_of_prefix(entries, m).is_prefix_of(issues_of_prefix(entries, n)),
    decreases n - m,
{
    if m < n {
        lemma_prefix_grows(entries, m, (n - 1) as nat);
        let a = issues_of_prefix(entries, m);
        let b = issues_of_prefix(entries, (n - 1) as nat);
        let c = issues_of_prefix(entries, n);
        assert(c == b + chord_issues(entries, entries[n - 1].0@, entries[n - 1].1));
        assert forall|k: int| 0 <= k < a.len() implies #[trigger] a[k] == c[k] by {
            assert(a[k] == b[k]);
        }
    }
}

proof fn lemma_report_contains(
    entries: Seq<(String, ChordShape)>,
    i: int,
    x: (Severity, Seq<char>, Seq<char>),
)
    requires
        0 <= i < entries.len(),
        chord_issues(entries, entries[i].0@, entries[i].1).contains(x),
    ensures
        coherence_report(entries).contains(x),
{
    let here = chord_issues(entries, entries[i].0@, entries[i].1);
    let upto = issues_of_prefix(entries, (i + 1) as nat);
    let prev = issues_of_prefix(entries, i as nat);
    assert(upto == prev + here);
    let k = choose|k: int| 0 <= k < here.len() && here[k] == x;
    assert(upto[prev.len() + k] == x);
    lemma_prefix_grows(entries, (i + 1) as nat, entries.len());
    assert(coherence_report(entries)[prev.len() + k] == x);
}

proof fn lemma_broken_contains(
    entries: Seq<(String, ChordShape)>,
    key: Seq<char>,
    calls: Seq<Seq<char>>,
    j: int,
)
    requires
        0 <= j < calls.len(),
        !has_key(entries, calls[j]),
    ensures
        broken_issues(entries, key, calls).contains((Severity::Critical, key, broken_text(calls[j]))),
    decreases calls.len(),
{
    let x = (Severity::Critical, key, broken_text(calls[j]));
    let prev = broken_issues(entries, key, calls.drop_last());
    if j < calls.len() - 1 {
        lemma_broken_contains(entries, key, calls.drop_last(), j);
        let k = choose|k: int| 0 <= k < prev.len() && prev[k] == x;
        if !has_key(entries, calls.last()) {
            assert(broken_issues(entries, key, calls)[k] == x);
        }
    } else {
        assert(broken_issues(entries, key, calls) == prev.push(x));
        assert(broken_issues(entries, key, calls)[prev.len() as int] == x);
    }
}

/// Each of the five checks reports what it finds at an entry: an orphan gets
/// an `Info` notice; each call naming no chord of the snapshot, a `Critical`
/// broken-chain issue; a safety-critical chord that is not HARDCODE, a
/// `Critical` issue; a chord with five or more edges and no tests, a
/// `Warning`; a chord called by five or more functions and ranked below
/// three, a `Warning`.
pub proof fn law_every_finding_is_reported(mm: MuscleMemory, i: int)
    requires
        0 <= i < mm.chords@.len(),
    ensures
        ({
            let entries = mm.chords@;
            let key = entries[i].0@;
            let c = entries[i].1;
            let report = coherence_report(entries);
            &&& c.calls@.len() == 0 && c.called_by@.len() == 0 ==> report.contains(
                (Severity::Info, key, orphan_text()),
            )
            &&& forall|j: int|
                0 <= j < c.calls@.len() && (forall|m: int|
                    0 <= m < entries.len() ==> #[trigger] entries[m].0@ != c.calls@[j]@)
                    ==> report.contains(
                    (Severity::Critical, key, broken_text(#[trigger] c.calls@[j]@)),
                )
            &&& c.safety_critical && c.decision != Trit::Hardcode ==> report.contains(
                (Severity::Critical, key, safety_text(c.decision)),
            )
            &&& c.calls@.len() + c.called_by@.len() >= 5 && !c.has_tests ==> report.contains(
                (
                    Severity::Warning,
                    key,
                    gap_text(c.calls@.len() + c.called_by@.len()),
                ),
            )
            &&& c.called_by@.len() >= 5 && c.priority < 3 ==> report.contains(
                (Severity::Warning, key, inversion_text(c.called_by@.len(), c.priority as nat)),
            )
        }),
{
    let entries = mm.chords@;
    let key = entries[i].0@;
    let c = entries[i].1;
    let here = chord_issues(entries, key, c);
    let calls = string_views(c.calls@);
    let orphan = if is_orphan(c) {
        seq![(Severity::Info, key, orphan_text())]
    } else {
        Seq::empty()
    };
    let broken = broken_issues(entries, key, calls);
    let safety = if violates_safety(c) {
        seq![(Severity::Critical, key, safety_text(c.decision))]
    } else {
        Seq::empty()
    };
    let gap = if has_test_gap(c) {
        seq![(Severity::Warning, key, gap_text(connectivity(c)))]
    } else {
        Seq::empty()
    };
    let inversion = if has_priority_inversion(c) {
        seq![(Severity::Warning, key, inversion_text(c.called_by@.len(), c.priority as nat))]
    } else {
        Seq::empty()
    };
    assert(here == orphan + broken + safety + gap + inversion);
    let base_safety: int = (orphan.len() + broken.len()) as int;
    let base_gap: int = base_safety + safety.len();
    let base_inv: int = base_gap + gap.len();
    if is_orphan(c) {
        assert(here[0] == orphan[0]);
        lemma_report_contains(entries, i, (Severity::Info, key, orphan_text()));
    }
    assert forall|j: int|
        0 <= j < c.calls@.len() && (forall|m: int|
            0 <= m < entries.len() ==> #[trigger] entries[m].0@ != c.calls@[j]@) implies coherence_report(
        entries,
    ).contains((Severity::Critical, key, broken_text(#[trigger] c.calls@[j]@))) by {
        assert(!has_key(entries, c.calls@[j]@));
        assert(calls[j] == c.calls@[j]@);
        lemma_broken_contains(entries, key, calls, j);
        let x = (Severity::Critical, key, broken_text(c.calls@[j]@));
        let k = choose|k: int| 0 <= k < broken.len() && broken[k] == x;
        assert(here[orphan.len() + k] == x);
        lemma_report_contains(entries, i, x);
    }
    if violates_safety(c) {
        assert(here[base_safety] == safety[0]);
        lemma_report_contains(entries, i, safety[0]);
    }
    if has_test_gap(c) {
        assert(here[base_gap] == gap[0]);
        lemma_report_contains(entries, i, gap[0]);
    }
    if has_priority_inversion(c) {
        assert(here[base_inv] == inversion[0]);
        lemma_report_contains(entries, i, inversion[0]);
    }
}

proof fn lemma_report_origin(entries: Seq<(String, ChordShape)>, n: nat, k: int)
    requires
        n <= entries.len(),
        0 <= k < issues_of_prefix(entries, n).len(),
    ensures
        exists|i: int|
            0 <= i < n && chord_issues(entries, (#[trigger] entries[i]).0@, entries[i].1).contains(
                issues_of_prefix(entries, n)[k],
            ),
    decreases n,
{
    let prev = issues_of_prefix(entries, (n - 1) as nat);
    let here = chord_issues(entries, entries[n - 1].0@, entries[n - 1].1);
    assert(issues_of_prefix(entries, n) == prev + here);
    if k < prev.len() {
        lemma_report_origin(entries, (n - 1) as nat, k);
        let i = choose|i: int|
            0 <= i < n - 1 && chord_issues(entries, (#[trigger] entries[i]).0@, entries[i].1).contains(
                prev[k],
            );
        assert(issues_of_prefix(entries, n)[k] == prev[k]);
        assert(chord_issues(entries, entries[i].0@, entries[i].1).contains(prev[k]));
    } else {
        assert(issues_of_prefix(entries, n)[k] == here[k - prev.len()]);
        assert(here.contains(here[k - prev.len()]));
    }
}

proof fn lemma_broken_origin(
    entries: Seq<(String, ChordShape)>,
    key: Seq<char>,
    calls: Seq<Seq<char>>,
    x: (Severity, Seq<char>, Seq<char>),
)
    requires
        broken_issues(entries, key, calls).contains(x),
    ensures
        x.0 == Severity::Critical,
        x.1 == key,
        exists|j: int|
            0 <= j < calls.len() && !has_key(entries, #[trigger] calls[j]) && x.2 == broken_text(
                calls[j],
            ),
    decreases calls.len(),
{
    let prev = broken_issues(entries, key, calls.drop_last());
    let cur = broken_issues(entries, key, calls);
    let k = choose|k: int| 0 <= k < cur.len() && cur[k] == x;
    if k < prev.len() {
        assert(cur[k] == prev[k]);
        assert(prev.contains(x));
        lemma_broken_origin(entries, key, calls.drop_last(), x);
        let j = choose|j: int|
            0 <= j < calls.drop_last().len() && !has_key(entries, #[trigger] calls.drop_last()[j])
                && x.2 == broken_text(calls.drop_last()[j]);
        assert(calls[j] == calls.drop_last()[j]);
    } else {
        assert(!has_key(entries, calls[calls.len() - 1]));
        assert(x.2 == broken_text(calls[calls.len() - 1]));
    }
}

/// Every issue of the report has its ground in an entry keyed by the issue's
/// chord, and its description names that ground: an `Info` issue, a chord
/// that calls nothing and that nothing calls; a `Critical` issue, a call
/// naming no key of the snapshot, or a safety-critical chord that is not
/// HARDCODE; a `Warning`, five or more edges without tests, or five or more
/// callers with a priority below three.
pub proof fn law_every_issue_is_grounded(mm: MuscleMemory, issues: Seq<Issue>, k: int)
    requires
        issue_views(issues) == coherence_report(mm.chords@),
        0 <= k < issues.len(),
    ensures
        exists|i: int|
            0 <= i < mm.chords@.len() && (#[trigger] mm.chords@[i]).0@ == issues[k].chord@ && {
                let c = mm.chords@[i].1;
                let d = issues[k].description@;
                match issues[k].severity {
                    Severity::Info => c.calls@.len() == 0 && c.called_by@.len() == 0 && d
                        == orphan_text(),
                    Severity::Critical => (exists|j: int|
                        0 <= j < c.calls@.len() && d == broken_text(c.calls@[j]@) && forall|m: int|
                            0 <= m < mm.chords@.len() ==> #[trigger] mm.chords@[m].0@
                                != (#[trigger] c.calls@[j])@) || (c.safety_critical && c.decision
                        != Trit::Hardcode && d == safety_text(c.decision)),
                    Severity::Warning => (c.calls@.len() + c.called_by@.len() >= 5 && !c.has_tests
                        && d == gap_text(c.calls@.len() + c.called_by@.len())) || (
                    c.called_by@.len() >= 5 && c.priority < 3 && d == inversion_text(
                        c.called_by@.len(),
                        c.priority as nat,
                    )),
                }
            },
{
    let entries = mm.chords@;
    let x = issues[k]@;
    assert(issue_views(issues)[k] == x);
    lemma_report_origin(entries, entries.len(), k);
    let i = choose|i: int|
        0 <= i < entries.len() && chord_issues(entries, (#[trigger] entries[i]).0@, entries[i].1).contains(
            x,
        );
    let key = entries[i].0@;
    let c = entries[i].1;
    let calls = string_views(c.calls@);
    let orphan = if is_orphan(c) {
        seq![(Severity::Info, key, orphan_text())]
    } else {
        Seq::empty()
    };
    let broken = broken_issues(entries, key, calls);
    let safety = if violates_safety(c) {
        seq![(Severity::Critical, key, safety_text(c.decision))]
    } else {
        Seq::empty()
    };
    let gap = if has_test_gap(c) {
        seq![(Severity::Warning, key, gap_text(connectivity(c)))]
    } else {
        Seq::empty()
    };
    let inversion = if has_priority_inversion(c) {
        seq![(Severity::Warning, key, inversion_text(c.called_by@.len(), c.priority as nat))]
    } else {
        Seq::empty()
    };
    let here = chord_issues(entries, key, c);
    assert(here == orphan + broken + safety + gap + inversion);
    let p = choose|p: int| 0 <= p < here.len() && here[p] == x;
    let b1: int = orphan.len() as int;
    let b2: int = b1 + broken.len();
    let b3: int = b2 + safety.len();
    let b4: int = b3 + gap.len();
    if p < b1 {
        assert(here[p] == orphan[p]);
    } else if p < b2 {
        assert(here[p] == broken[p - b1]);
        assert(broken.contains(x));
        lemma_broken_origin(entries, key, calls, x);
        let j = choose|j: int|
            0 <= j < calls.len() && !has_key(entries, #[trigger] calls[j]) && x.2 == broken_text(
                calls[j],
            );
        assert(calls[j] == c.calls@[j]@);
        assert forall|m: int| 0 <= m < entries.len() implies #[trigger] entries[m].0@
            != c.calls@[j]@ by {
            if entries[m].0@ == c.calls@[j]@ {
                assert(has_key(entries, calls[j]));
            }
        }
    } else if p < b3 {
        assert(here[p] == safety[p - b2]);
    } else if p < b4 {
        assert(here[p] == gap[p - b3]);
    } else {
        assert(here[p] == inversion[p - b4]);
    }
}

impl Coherence {
    /// Check a muscle memory snapshot for internal consistency issues.
    ///
    /// For each entry, in order: an `Info` issue if it is an orphan; a
    /// `Critical` issue for each call naming no key of the snapshot; a
    /// `Critical` issue if it is safety-critical but not HARDCODE; a `Warning`
    /// if it has five or more edges and no tests; a `Warning` if five or more
    /// functions call it and its priority is below three.
    pub fn check(mm: &MuscleMemory) -> (issues: Vec<Issue>)
        ensures
            issue_views(issues@) == coherence_report(mm.chords@),
    {
        let mut issues: Vec<Issue> = Vec::new();
        let index = NameIndex::new(&mm.chords);
        let n = mm.chords.len();
        let mut i: usize = 0;
        while i < n
            invariant
                n == mm.chords@.len(),
                i <= n,
                index.indexes(mm.chords@),
                issue_views(issues@) == issues_of_prefix(mm.chords@, i as nat),
            decreases n - i,
        {
            let entry = &mm.chords[i];
            push_chord_issues(&mut issues, &mm.chords, &index, &entry.0, &entry.1);
            i = i + 1;
        }
        issues
    }
}

} // verus!
