//! Calibration: re-tune decisions based on observed behavior.
//!
//! Looks at the invocation and error counts of each chord and recommends
//! decision adjustments. Error rates are compared exactly, as fractions.

use vstd::prelude::*;

use crate::{ChordShape, MuscleMemory, Trit};

verus! {

/// A non-negative fraction `numerator / denominator`.
#[derive(Debug, Clone, Copy, PartialEq, Eq, Structural)]
pub struct Fraction {
    pub numerator: u64,
    pub denominator: u64,
}

/// A recommended calibration adjustment.
///
/// The observed counts that led to it are kept, so that a reason can be
/// written for it (see `adjustment_rule`).
#[derive(Debug, Clone)]
pub struct CalibrationAdjustment {
    /// Which chord to adjust.
    pub chord: String,
    /// Current decision.
    pub current: Trit,
    /// Recommended new decision.
    pub recommended: Trit,
    /// Invocations observed for the chord.
    pub invocations: u64,
    /// Errors observed for the chord.
    pub errors: u64,
}

impl View for CalibrationAdjustment {
    type V = (Seq<char>, Trit, Trit, u64, u64);

    open spec fn view(&self) -> (Seq<char>, Trit, Trit, u64, u64) {
        (self.chord@, self.current, self.recommended, self.invocations, self.errors)
    }
}

/// Tracks observed flex statistics for calibration.
pub struct Calibration {
    /// Error rate threshold for downgrading, as a fraction (the default is 1/10).
    pub error_rate_threshold: Fraction,
    /// Minimum successful invocations (invocations less errors) before upgrading
    /// MODEL or HYBRID to HARDCODE.
    pub success_upgrade_threshold: u64,
}

/// Successful invocations: invocations less errors, or zero when errors exceed them.
pub open spec fn successes(total: u64, errors: u64) -> nat {
    if errors <= total {
        (total - errors) as nat
    } else {
        0
    }
}

/// Minimum invocations before a high error rate leads to a downgrade.
pub open spec fn min_downgrade_invocations() -> u64 {
    10
}

/// The error rate `errors / total` (zero when `total` is zero) is below `f`.
pub open spec fn rate_below(errors: u64, total: u64, f: Fraction) -> bool {
    if total == 0 {
        0 < f.numerator
    } else {
        errors * f.denominator < f.numerator * total
    }
}

/// The error rate `errors / total` (zero when `total` is zero) is above `f`.
pub open spec fn rate_above(errors: u64, total: u64, f: Fraction) -> bool {
    total != 0 && errors * f.denominator > f.numerator * total
}

impl Calibration {
    /// The decision recommended for a chord, if it should change.
    ///
    /// - MODEL to HARDCODE: enough successful invocations and error rate below the threshold
    /// - MODEL to HYBRID: error rate above the threshold with ten or more invocations
    /// - HARDCODE to HYBRID: error rate above the threshold with ten or more invocations
    /// - HYBRID to HARDCODE: enough successful invocations and error rate below the threshold
    /// - safety-critical chords are never adjusted
    pub open spec fn recommendation(self, chord: ChordShape) -> Option<Trit> {
        let total = chord.invocation_count;
        let errors = chord.error_count;
        let f = self.error_rate_threshold;
        let promote = successes(total, errors) >= self.success_upgrade_threshold && rate_below(
            errors,
            total,
            f,
        );
        let demote = rate_above(errors, total, f) && total >= min_downgrade_invocations();
        if chord.safety_critical {
            None
        } else {
            match chord.decision {
                Trit::Model => if promote {
                    Some(Trit::Hardcode)
                } else if demote {
                    Some(Trit::Hybrid)
                } else {
                    None
                },
                Trit::Hardcode => if demote {
                    Some(Trit::Hybrid)
                } else {
                    None
                },
                Trit::Hybrid => if promote {
                    Some(Trit::Hardcode)
                } else {
                    None
                },
            }
        }
    }

    /// The adjustment for one entry, if any.
    pub open spec fn adjustment(self, key: Seq<char>, chord: ChordShape) -> Option<
        (Seq<char>, Trit, Trit, u64, u64),
    > {
        match self.recommendation(chord) {
            Some(t) => Some(
                (key, chord.decision, t, chord.invocation_count, chord.error_count),
            ),
            None => None,
        }
    }

    /// The adjustments of the first `n` entries, in entry order.
    pub open spec fn plan_prefix(self, entries: Seq<(String, ChordShape)>, n: nat) -> Seq<
        (Seq<char>, Trit, Trit, u64, u64),
    >
        decreases n,
    {
        if n == 0 || n > entries.len() {
            Seq::empty()
        } else {
            let prev = self.plan_prefix(entries, (n - 1) as nat);
            match self.adjustment(entries[n - 1].0@, entries[n - 1].1) {
                Some(a) => prev.push(a),
                None => prev,
            }
        }
    }

    /// The adjustments recommended for a snapshot, in entry order.
    pub open spec fn plan(self, entries: Seq<(String, ChordShape)>) -> Seq<
        (Seq<char>, Trit, Trit, u64, u64),
    > {
        self.plan_prefix(entries, entries.len())
    }

    /// Create a new calibrator with default thresholds: error rate 1/10,
    /// 100 successful invocations before an upgrade.
    pub fn new() -> (c: Self)
        ensures
            c.error_rate_threshold == (Fraction { numerator: 1, denominator: 10 }),
            c.success_upgrade_threshold == 100,
    {
        Calibration {
            error_rate_threshold: Fraction { numerator: 1, denominator: 10 },
            success_upgrade_threshold: 100,
        }
    }

    /// Analyze muscle memory and recommend calibration adjustments, one per
    /// entry whose `recommendation` is a change, in entry order.
    pub fn calibrate(&self, mm: &MuscleMemory) -> (adjustments: Vec<CalibrationAdjustment>)
        requires
            self.error_rate_threshold.denominator > 0,
        ensures
            adjustment_views(adjustments@) == self.plan(mm.chords@),
    {
        let mut adjustments: Vec<CalibrationAdjustment> = Vec::new();
        let n = mm.chords.len();
        let mut i: usize = 0;
        while i < n
            invariant
                n == mm.chords@.len(),
                i <= n,
                adjustment_views(adjustments@) == self.plan_prefix(mm.chords@, i as nat),
            decreases n - i,
        {
            let entry = &mm.chords[i];
            match self.recommend(&entry.1) {
                Some(t) => {
                    let adj = CalibrationAdjustment {
                        chord: entry.0.clone(),
                        current: entry.1.decision,
                        recommended: t,
                        invocations: entry.1.invocation_count,
                        errors: entry.1.error_count,
                    };
                    adjustments.push(adj);
                },
                None => {},
            }
            assert(adjustment_views(adjustments@) =~= self.plan_prefix(
                mm.chords@,
                (i + 1) as nat,
            ));
            i = i + 1;
        }
        adjustments
    }

    /// Executable `recommendation`.
    fn recommend(&self, chord: &ChordShape) -> (r: Option<Trit>)
        ensures
            r == self.recommendation(*chord),
    {
        let total = chord.invocation_count;
        let errors = chord.error_count;
        let f = self.error_rate_threshold;
        let succeeded = if errors <= total {
            total - errors
        } else {
            0
        };
        let promote = succeeded >= self.success_upgrade_threshold && error_rate_below(
            errors,
            total,
            f,
        );
        let demote = error_rate_above(errors, total, f) && total >= 10;
        if chord.safety_critical {
            return None;
        }
        match chord.decision {
            Trit::Model => {
                if promote {
                    Some(Trit::Hardcode)
                } else if demote {
                    Some(Trit::Hybrid)
                } else {
                    None
                }
            },
            Trit::Hardcode => {
                if demote {
                    Some(Trit::Hybrid)
                } else {
                    None
                }
            },
            Trit::Hybrid => {
                if promote {
                    Some(Trit::Hardcode)
                } else {
                    None
                }
            },
        }
    }
}

/// Views of a sequence of adjustments.
pub open spec fn adjustment_views(s: Seq<CalibrationAdjustment>) -> Seq<
    (Seq<char>, Trit, Trit, u64, u64),
> {
    s.map_values(|a: CalibrationAdjustment| a@)
}

proof fn lemma_product_fits(a: u64, b: u64)
    ensures
        0 <= (a as int) * (b as int) <= u128::MAX,
{
    assert(0 <= (a as int) * (b as int) <= (u64::MAX as int) * (u64::MAX as int))
        by (nonlinear_arith);
}

/// `a * b < c * d`, computed without overflow.
fn products_lt(a: u64, b: u64, c: u64, d: u64) -> (r: bool)
    ensures
        r == (a * b < c * d),
{
    proof {
        lemma_product_fits(a, b);
        lemma_product_fits(c, d);
    }
    (a as u128) * (b as u128) < (c as u128) * (d as u128)
}

/// Executable `rate_below`.
pub fn error_rate_below(errors: u64, total: u64, f: Fraction) -> (r: bool)
    ensures
        r == rate_below(errors, total, f),
{
    if total == 0 {
        0 < f.numerator
    } else {
        products_lt(errors, f.denominator, f.numerator, total)
    }
}

/// Executable `rate_above`.
pub fn error_rate_above(errors: u64, total: u64, f: Fraction) -> (r: bool)
    ensures
        r == rate_above(errors, total, f),
{
    total != 0 && products_lt(f.numerator, total, errors, f.denominator)
}

proof fn lemma_plan_origin(
    cal: Calibration,
    entries: Seq<(String, ChordShape)>,
    n: nat,
    k: int,
)
    requires
        n <= entries.len(),
        0 <= k < cal.plan_prefix(entries, n).len(),
    ensures
        exists|i: int|
            0 <= i < n && cal.adjustment(entries[i].0@, (#[trigger] entries[i]).1) == Some(
                cal.plan_prefix(entries, n)[k],
            ),
    decreases n,
{
    let prev = cal.plan_prefix(entries, (n - 1) as nat);
    if k < prev.len() {
        lemma_plan_origin(cal, entries, (n - 1) as nat, k);
        let i = choose|i: int|
            0 <= i < n - 1 && cal.adjustment(entries[i].0@, (#[trigger] entries[i]).1) == Some(
                prev[k],
            );
        assert(cal.plan_prefix(entries, n)[k] == prev[k]);
        assert(cal.adjustment(entries[i].0@, entries[i].1) == Some(
            cal.plan_prefix(entries, n)[k],
        ));
    } else {
        assert(cal.adjustment(entries[n - 1].0@, entries[n - 1].1) == Some(
            cal.plan_prefix(entries, n)[k],
        ));
    }
}

/// Every recommended adjustment comes from an entry of the snapshot, under
/// its key, with its current decision and counts; that entry is not
/// safety-critical (safety-critical chords are never adjusted); the
/// recommendation differs from the current decision and is never MODEL; an
/// upgrade to HARDCODE has enough successful invocations and an error rate below the
/// threshold, and a downgrade to HYBRID has ten or more invocations and an
/// error rate above it.
pub proof fn law_adjustments_are_justified(cal: Calibration, mm: MuscleMemory, k: int)
    requires
        0 <= k < cal.plan(mm.chords@).len(),
    ensures
        ({
            let (name, current, recommended, total, errors) = cal.plan(mm.chords@)[k];
            exists|i: int|
                0 <= i < mm.chords@.len() && {
                    let e = #[trigger] mm.chords@[i];
                    &&& e.0@ == name
                    &&& e.1.decision == current
                    &&& e.1.invocation_count == total
                    &&& e.1.error_count == errors
                    &&& !e.1.safety_critical
                }
        }),
        ({
            let (name, current, recommended, total, errors) = cal.plan(mm.chords@)[k];
            let num = cal.error_rate_threshold.numerator;
            let den = cal.error_rate_threshold.denominator;
            &&& recommended != current
            &&& recommended != Trit::Model
            &&& recommended == Trit::Hardcode ==> (if errors <= total {
                total - errors
            } else {
                0
            }) >= cal.success_upgrade_threshold && (if total == 0 {
                0 < num
            } else {
                errors * den < num * total
            })
            &&& recommended == Trit::Hybrid ==> total >= 10 && total != 0 && errors * den > num
                * total
        }),
{
    lemma_plan_origin(cal, mm.chords@, mm.chords@.len(), k);
}

proof fn lemma_plan_contains(
    cal: Calibration,
    entries: Seq<(String, ChordShape)>,
    n: nat,
    i: int,
    x: (Seq<char>, Trit, Trit, u64, u64),
)
    requires
        n <= entries.len(),
        0 <= i < n,
        cal.adjustment(entries[i].0@, entries[i].1) == Some(x),
    ensures
        cal.plan_prefix(entries, n).contains(x),
    decreases n,
{
    let prev = cal.plan_prefix(entries, (n - 1) as nat);
    if i < n - 1 {
        lemma_plan_contains(cal, entries, (n - 1) as nat, i, x);
        let k = choose|k: int| 0 <= k < prev.len() && prev[k] == x;
        assert(cal.plan_prefix(entries, n)[k] == x);
    } else {
        assert(cal.plan_prefix(entries, n) == prev.push(x));
        assert(cal.plan_prefix(entries, n)[prev.len() as int] == x);
    }
}

/// Every chord that the rules move gets its adjustment: a chord that is not
/// safety-critical, not HARDCODE, with enough successful invocations and an
/// error rate below the threshold is recommended HARDCODE; one that is not
/// HYBRID, with ten or more invocations and an error rate above the
/// threshold is recommended HYBRID.
pub proof fn law_adjustments_are_complete(
    cal: Calibration,
    mm: MuscleMemory,
    adjustments: Seq<CalibrationAdjustment>,
    i: int,
)
    requires
        adjustment_views(adjustments) == cal.plan(mm.chords@),
        0 <= i < mm.chords@.len(),
    ensures
        ({
            let key = mm.chords@[i].0@;
            let c = mm.chords@[i].1;
            let total = c.invocation_count;
            let errors = c.error_count;
            let num = cal.error_rate_threshold.numerator;
            let den = cal.error_rate_threshold.denominator;
            let upgrade = c.decision != Trit::Hardcode && (if errors <= total {
                total - errors
            } else {
                0
            }) >= cal.success_upgrade_threshold && (if total == 0 {
                0 < num
            } else {
                errors * den < num * total
            });
            let downgrade = c.decision != Trit::Hybrid && total >= 10 && errors * den > num * total;
            &&& !c.safety_critical && upgrade ==> adjustment_views(adjustments).contains(
                (key, c.decision, Trit::Hardcode, total, errors),
            )
            &&& !c.safety_critical && downgrade ==> adjustment_views(adjustments).contains(
                (key, c.decision, Trit::Hybrid, total, errors),
            )
            &&& c.safety_critical ==> forall|k: int|
                0 <= k < adjustments.len() ==> (#[trigger] adjustments[k]).chord@ != key
                    || !mm.has_unique_keys()
        }),
{
    let entries = mm.chords@;
    let c = entries[i].1;
    let key = entries[i].0@;
    match cal.adjustment(key, c) {
        Some(x) => {
            lemma_plan_contains(cal, entries, entries.len(), i, x);
        },
        None => {},
    }
    if c.safety_critical && mm.has_unique_keys() {
        assert forall|k: int| 0 <= k < adjustments.len() implies (
        #[trigger] adjustments[k]).chord@ != key by {
            assert(adjustment_views(adjustments)[k] == adjustments[k]@);
            lemma_plan_origin(cal, entries, entries.len(), k);
            let j = choose|j: int|
                0 <= j < entries.len() && cal.adjustment(entries[j].0@, (#[trigger] entries[j]).1)
                    == Some(cal.plan(entries)[k]);
            if adjustments[k].chord@ == key {
                if j != i {
                    assert(entries[i].0@ != entries[j].0@);
                }
            }
        }
    }
}

impl Default for Calibration {
    fn default() -> (c: Self)
        ensures
            c.error_rate_threshold == (Fraction { numerator: 1, denominator: 10 }),
            c.success_upgrade_threshold == 100,
    {
        Self::new()
    }
}

} // verus!
