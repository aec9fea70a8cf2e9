use openmind_mirror::calibration::{error_rate_above, error_rate_below, Calibration, Fraction};
use openmind_mirror::{ChordShape, F64Bits, MuscleMemory, Trit};

fn bits(x: f64) -> F64Bits {
    F64Bits { bits: x.to_bits() }
}

fn make_chord(name: &str, decision: Trit, invocations: u64, errors: u64) -> ChordShape {
    ChordShape {
        name: name.to_string(),
        decision,
        source_hash: "hash".to_string(),
        confidence: bits(0.95),
        invocation_count: invocations,
        error_count: errors,
        avg_latency_ms: bits(1.0),
        calls: vec![],
        called_by: vec![],
        has_tests: true,
        safety_critical: false,
        priority: 5,
    }
}

fn make_mm(chords: Vec<ChordShape>) -> MuscleMemory {
    MuscleMemory {
        repo: "test".to_string(),
        version: "1.0".to_string(),
        timestamp: "now".to_string(),
        chords: chords.into_iter().map(|c| (c.name.clone(), c)).collect(),
    }
}

#[test]
fn test_upgrade_model_to_hardcode() {
    let mm = make_mm(vec![make_chord("foo", Trit::Model, 150, 0)]);
    let cal = Calibration::new();
    let adj = cal.calibrate(&mm);
    assert_eq!(adj.len(), 1);
    assert_eq!(adj[0].recommended, Trit::Hardcode);
    assert_eq!(adj[0].current, Trit::Model);
}

#[test]
fn test_downgrade_hardcode_to_hybrid() {
    let mm = make_mm(vec![make_chord("bar", Trit::Hardcode, 50, 10)]);
    let cal = Calibration::new();
    let adj = cal.calibrate(&mm);
    assert_eq!(adj.len(), 1);
    assert_eq!(adj[0].recommended, Trit::Hybrid);
    assert_eq!(adj[0].current, Trit::Hardcode);
}

#[test]
fn test_no_adjustment_safety_critical() {
    let mut chord = make_chord("critical", Trit::Model, 200, 0);
    chord.safety_critical = true;
    let mm = make_mm(vec![chord]);
    let cal = Calibration::new();
    let adj = cal.calibrate(&mm);
    assert!(adj.is_empty());
}

#[test]
fn test_upgrade_hybrid_to_hardcode() {
    let mm = make_mm(vec![make_chord("baz", Trit::Hybrid, 120, 2)]);
    let cal = Calibration::new();
    let adj = cal.calibrate(&mm);
    assert_eq!(adj.len(), 1);
    assert_eq!(adj[0].recommended, Trit::Hardcode);
}

#[test]
fn test_no_adjustment_insufficient_data() {
    let mm = make_mm(vec![make_chord("qux", Trit::Model, 10, 0)]);
    let cal = Calibration::new();
    let adj = cal.calibrate(&mm);
    assert!(adj.is_empty());
}

#[test]
fn calibration_defaults() {
    let cal = Calibration::new();
    assert_eq!(cal.error_rate_threshold, Fraction { numerator: 1, denominator: 10 });
    assert_eq!(cal.success_upgrade_threshold, 100);
    let d = Calibration::default();
    assert_eq!(d.error_rate_threshold, cal.error_rate_threshold);
    assert_eq!(d.success_upgrade_threshold, 100);
}

#[test]
fn model_with_high_error_rate_becomes_hybrid() {
    let mm = make_mm(vec![make_chord("flaky", Trit::Model, 20, 5)]);
    let adj = Calibration::new().calibrate(&mm);
    assert_eq!(adj.len(), 1);
    assert_eq!(adj[0].chord, "flaky");
    assert_eq!(adj[0].current, Trit::Model);
    assert_eq!(adj[0].recommended, Trit::Hybrid);
    assert_eq!(adj[0].invocations, 20);
    assert_eq!(adj[0].errors, 5);
}

#[test]
fn error_rate_exactly_at_threshold_is_left_alone() {
    // 10 errors in 100 invocations is exactly one in ten: neither below nor above.
    let mm = make_mm(vec![
        make_chord("edge_model", Trit::Model, 100, 10),
        make_chord("edge_hardcode", Trit::Hardcode, 100, 10),
        make_chord("edge_hybrid", Trit::Hybrid, 100, 10),
    ]);
    let adj = Calibration::new().calibrate(&mm);
    assert!(adj.is_empty());
}

#[test]
fn hardcode_needs_ten_invocations_to_downgrade() {
    let mm = make_mm(vec![
        make_chord("young", Trit::Hardcode, 9, 9),
        make_chord("old", Trit::Hardcode, 10, 9),
    ]);
    let adj = Calibration::new().calibrate(&mm);
    assert_eq!(adj.len(), 1);
    assert_eq!(adj[0].chord, "old");
    assert_eq!(adj[0].recommended, Trit::Hybrid);
}

#[test]
fn adjustments_follow_entry_order() {
    let mm = make_mm(vec![
        make_chord("a", Trit::Model, 150, 0),
        make_chord("b", Trit::Hardcode, 150, 0),
        make_chord("c", Trit::Hybrid, 150, 0),
        make_chord("d", Trit::Hardcode, 40, 20),
    ]);
    let adj = Calibration::new().calibrate(&mm);
    let got: Vec<(String, Trit, Trit)> =
        adj.iter().map(|a| (a.chord.clone(), a.current, a.recommended)).collect();
    assert_eq!(
        got,
        vec![
            ("a".to_string(), Trit::Model, Trit::Hardcode),
            ("c".to_string(), Trit::Hybrid, Trit::Hardcode),
            ("d".to_string(), Trit::Hardcode, Trit::Hybrid),
        ]
    );
}

#[test]
fn custom_thresholds_are_used() {
    let cal = Calibration {
        error_rate_threshold: Fraction { numerator: 1, denominator: 2 },
        success_upgrade_threshold: 5,
    };
    let mm = make_mm(vec![make_chord("m", Trit::Model, 6, 1)]);
    let adj = cal.calibrate(&mm);
    assert_eq!(adj.len(), 1);
    assert_eq!(adj[0].recommended, Trit::Hardcode);
}

#[test]
fn error_rate_comparisons() {
    let tenth = Fraction { numerator: 1, denominator: 10 };
    assert!(error_rate_below(0, 0, tenth));
    assert!(!error_rate_above(0, 0, tenth));
    assert!(error_rate_below(9, 100, tenth));
    assert!(!error_rate_below(10, 100, tenth));
    assert!(!error_rate_above(10, 100, tenth));
    assert!(error_rate_above(11, 100, tenth));
    assert!(error_rate_above(u64::MAX, u64::MAX, tenth));
    assert!(!error_rate_below(0, 0, Fraction { numerator: 0, denominator: 1 }));
}

#[test]
fn upgrade_counts_successful_invocations() {
    // 105 invocations with 9 errors: 96 successes, error rate below 1/10.
    let mm = make_mm(vec![make_chord("m", Trit::Model, 105, 9), make_chord("h", Trit::Hybrid, 105, 5)]);
    let adj = Calibration::new().calibrate(&mm);
    assert_eq!(adj.len(), 1);
    assert_eq!(adj[0].chord, "h");
    assert_eq!(adj[0].recommended, Trit::Hardcode);
}
