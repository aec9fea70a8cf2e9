//! Self-reflection and coherence checking for agent muscle memory.
//!
//! The library watches an agent's compiled reflexes (its "muscle memory"),
//! detects when they go stale or inconsistent, and recommends calibration
//! adjustments based on observed performance.
//!
//! A snapshot's chords are held as a sequence of `(key, chord)` entries; a
//! snapshot read from a map has pairwise distinct keys
//! (`MuscleMemory::has_unique_keys`). Floating-point readings are held by
//! their IEEE-754 bit patterns (`F64Bits`).

use vstd::prelude::*;

pub mod calibration;
pub mod coherence;
pub mod float_bits;
pub mod index;
pub mod mirror;
pub mod names;
pub mod proprioceptor;
pub mod spectral;
pub mod table;
pub mod text;

pub use float_bits::F64Bits;

verus! {

/// The decision source for a chord: how the agent resolves a function call.
#[derive(Debug, Clone, Copy, PartialEq, Eq, Hash, Structural)]
pub enum Trit {
    /// Always use the hardcoded path; no model invocation.
    Hardcode,
    /// Always delegate to the model.
    Model,
    /// Try hardcoded first, fall back to model on failure.
    Hybrid,
}

/// A single chord shape: the agent's knowledge about one function.
#[derive(Debug, Clone)]
pub struct ChordShape {
    /// Fully qualified function/method name.
    pub name: String,
    /// Decision source for this chord.
    pub decision: Trit,
    /// Hash of the source code this chord was built from.
    pub source_hash: String,
    /// Confidence score in [0, 1], by its binary64 bit pattern.
    pub confidence: F64Bits,
    /// Number of times this chord has been flexed (invoked).
    pub invocation_count: u64,
    /// Number of errors encountered during flex.
    pub error_count: u64,
    /// Average latency in milliseconds, by its binary64 bit pattern.
    pub avg_latency_ms: F64Bits,
    /// Functions this chord calls (outgoing edges).
    pub calls: Vec<String>,
    /// Functions that call this chord (incoming edges).
    pub called_by: Vec<String>,
    /// Whether this chord has associated tests.
    pub has_tests: bool,
    /// Whether this function is safety-critical.
    pub safety_critical: bool,
    /// Priority rank (higher = more important).
    pub priority: u32,
}

/// A complete muscle memory snapshot: the agent's compiled reflexes.
#[derive(Debug, Clone)]
pub struct MuscleMemory {
    /// Source repository this memory was built from.
    pub repo: String,
    /// Version tag or commit hash.
    pub version: String,
    /// Timestamp when this snapshot was taken.
    pub timestamp: String,
    /// All chord shapes, each under the function name that keys it.
    pub chords: Vec<(String, ChordShape)>,
}

/// Result of a single flex (invocation) call.
#[derive(Debug, Clone)]
pub struct FlexResult {
    /// Which chord was flexed.
    pub chord_name: String,
    /// Whether the flex succeeded.
    pub success: bool,
    /// Confidence returned by the flex, by its binary64 bit pattern.
    pub confidence: F64Bits,
    /// Latency in milliseconds, by its binary64 bit pattern.
    pub latency_ms: F64Bits,
}

/// Severity level for coherence issues.
#[derive(Debug, Clone, Copy, PartialEq, Eq, Structural)]
pub enum Severity {
    Critical,
    Warning,
    Info,
}

/// A single coherence issue found during checking.
#[derive(Debug, Clone)]
pub struct Issue {
    /// How severe this issue is.
    pub severity: Severity,
    /// Which chord has the issue.
    pub chord: String,
    /// Human-readable description.
    pub description: String,
}

impl View for Issue {
    type V = (Severity, Seq<char>, Seq<char>);

    open spec fn view(&self) -> (Severity, Seq<char>, Seq<char>) {
        (self.severity, self.chord@, self.description@)
    }
}

/// The name under which an entry of a snapshot is keyed.
pub open spec fn entry_key(e: (String, ChordShape)) -> Seq<char> {
    e.0@
}

/// The keys of a sequence of entries, in order.
pub open spec fn keys_of(entries: Seq<(String, ChordShape)>) -> Seq<Seq<char>> {
    entries.map_values(|e: (String, ChordShape)| e.0@)
}

/// Whether some entry is keyed by `k`.
pub open spec fn has_key(entries: Seq<(String, ChordShape)>, k: Seq<char>) -> bool {
    exists|i: int| 0 <= i < entries.len() && #[trigger] entries[i].0@ == k
}

/// The chord of the first entry keyed by `k`, if any (the only one when keys are distinct).
pub open spec fn lookup(entries: Seq<(String, ChordShape)>, k: Seq<char>) -> Option<ChordShape>
    decreases entries.len(),
{
    if entries.len() == 0 {
        None
    } else if entries[0].0@ == k {
        Some(entries[0].1)
    } else {
        lookup(entries.drop_first(), k)
    }
}

/// Views of a sequence of strings.
pub open spec fn string_views(s: Seq<String>) -> Seq<Seq<char>> {
    s.map_values(|x: String| x@)
}

impl MuscleMemory {
    /// The keys of this snapshot, in entry order.
    pub open spec fn keys(&self) -> Seq<Seq<char>> {
        keys_of(self.chords@)
    }

    /// The snapshot is a map: no two entries share a key.
    pub open spec fn has_unique_keys(&self) -> bool {
        forall|i: int, j: int|
            0 <= i < self.chords@.len() && 0 <= j < self.chords@.len() && i != j
                ==> #[trigger] self.chords@[i].0@ != #[trigger] self.chords@[j].0@
    }
}

/// `lookup` finds the first entry keyed by `k`.
pub proof fn lemma_lookup_first(entries: Seq<(String, ChordShape)>, k: Seq<char>, i: int)
    requires
        0 <= i < entries.len(),
        entries[i].0@ == k,
        forall|j: int| 0 <= j < i ==> #[trigger] entries[j].0@ != k,
    ensures
        lookup(entries, k) == Some(entries[i].1),
    decreases i,
{
    if i > 0 {
        let rest = entries.drop_first();
        assert forall|j: int| 0 <= j < i - 1 implies #[trigger] rest[j].0@ != k by {
            assert(rest[j] == entries[j + 1]);
        }
        lemma_lookup_first(rest, k, i - 1);
    }
}

/// `lookup` finds nothing when no entry is keyed by `k`.
pub proof fn lemma_lookup_none(entries: Seq<(String, ChordShape)>, k: Seq<char>)
    requires
        forall|j: int| 0 <= j < entries.len() ==> #[trigger] entries[j].0@ != k,
    ensures
        lookup(entries, k) == None::<ChordShape>,
    decreases entries.len(),
{
    if entries.len() > 0 {
        let rest = entries.drop_first();
        assert forall|j: int| 0 <= j < rest.len() implies #[trigger] rest[j].0@ != k by {
            assert(rest[j] == entries[j + 1]);
        }
        lemma_lookup_none(rest, k);
    }
}

/// With distinct keys, the entry keyed by `k` is the one `lookup` finds.
pub proof fn lemma_lookup_unique(mm: MuscleMemory, i: int)
    requires
        mm.has_unique_keys(),
        0 <= i < mm.chords@.len(),
    ensures
        lookup(mm.chords@, mm.chords@[i].0@) == Some(mm.chords@[i].1),
{
    let k = mm.chords@[i].0@;
    assert forall|j: int| 0 <= j < i implies #[trigger] mm.chords@[j].0@ != k by {
        assert(mm.chords@[i].0@ != mm.chords@[j].0@);
    }
    lemma_lookup_first(mm.chords@, k, i);
}

impl MuscleMemory {
    /// Whether no two entries share a key (a snapshot read from a map always passes).
    pub fn keys_are_unique(&self) -> (r: bool)
        ensures
            r == self.has_unique_keys(),
    {
        let n = self.chords.len();
        let mut i: usize = 0;
        while i < n
            invariant
                n == self.chords@.len(),
                i <= n,
                forall|a: int, b: int|
                    0 <= a < i && 0 <= b < n && a != b ==> #[trigger] self.chords@[a].0@
                        != #[trigger] self.chords@[b].0@,
            decreases n - i,
        {
            let mut j: usize = 0;
            while j < n
                invariant
                    n == self.chords@.len(),
                    i < n,
                    j <= n,
                    forall|a: int, b: int|
                        0 <= a < i && 0 <= b < n && a != b ==> #[trigger] self.chords@[a].0@
                            != #[trigger] self.chords@[b].0@,
                    forall|b: int|
                        0 <= b < j && b != i ==> self.chords@[i as int].0@
                            != #[trigger] self.chords@[b].0@,
                decreases n - j,
            {
                if j != i && self.chords[i].0 == self.chords[j].0 {
                    return false;
                }
                j = j + 1;
            }
            i = i + 1;
        }
        true
    }
}

} // verus!
