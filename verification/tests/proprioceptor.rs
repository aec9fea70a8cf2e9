use openmind_mirror::proprioceptor::{AlertEvidence, AlertKind, FlexTracker, Proprioceptor};
use openmind_mirror::{ChordShape, F64Bits, FlexResult, MuscleMemory, Trit};

fn bits(x: f64) -> F64Bits {
    F64Bits { bits: x.to_bits() }
}

fn make_chord(name: &str, decision: Trit) -> ChordShape {
    ChordShape {
        name: name.to_string(),
        decision,
        source_hash: "hash".to_string(),
        confidence: bits(0.95),
        invocation_count: 0,
        error_count: 0,
        avg_latency_ms: bits(1.0),
        calls: vec![],
        called_by: vec![],
        has_tests: true,
        safety_critical: false,
        priority: 5,
    }
}

fn make_mm(chords: Vec<ChordShape>) -> MuscleMemory {
    MuscleMemory {
        repo: "test".to_string(),
        version: "1.0".to_string(),
        timestamp: "now".to_string(),
        chords: chords.into_iter().map(|c| (c.name.clone(), c)).collect(),
    }
}

fn flex(name: &str, confidence: f64) -> FlexResult {
    FlexResult {
        chord_name: name.to_string(),
        success: true,
        confidence: bits(confidence),
        latency_ms: bits(1.0),
    }
}

#[test]
fn test_flex_miss() {
    let mm = make_mm(vec![make_chord("foo", Trit::Hardcode)]);
    let mut prop = Proprioceptor::new(&mm);
    prop.observe(&FlexResult {
        chord_name: "nonexistent".to_string(),
        success: true,
        confidence: bits(0.99),
        latency_ms: bits(1.0),
    });
    let alerts = prop.alerts();
    assert!(alerts.iter().any(|a| a.kind == AlertKind::FlexMiss));
}

#[test]
fn test_confidence_drop() {
    let mm = make_mm(vec![make_chord("foo", Trit::Hardcode)]);
    let mut prop = Proprioceptor::new(&mm);
    prop.confidence_threshold = bits(0.8);
    prop.observe(&FlexResult {
        chord_name: "foo".to_string(),
        success: true,
        confidence: bits(0.3),
        latency_ms: bits(1.0),
    });
    let alerts = prop.alerts();
    assert!(alerts.iter().any(|a| a.kind == AlertKind::ConfidenceDrop));
}

#[test]
fn test_muscle_fatigue() {
    let mut chord = make_chord("overworked", Trit::Hardcode);
    chord.invocation_count = 999;
    let mm = make_mm(vec![chord]);
    let mut prop = Proprioceptor::new(&mm);
    prop.fatigue_threshold = 1000;
    prop.observe(&FlexResult {
        chord_name: "overworked".to_string(),
        success: true,
        confidence: bits(0.99),
        latency_ms: bits(1.0),
    });
    let alerts = prop.alerts();
    assert!(alerts.iter().any(|a| a.kind == AlertKind::MuscleFatigue));
}

#[test]
fn test_no_alerts_on_normal_flex() {
    let mm = make_mm(vec![make_chord("foo", Trit::Hardcode)]);
    let mut prop = Proprioceptor::new(&mm);
    prop.observe(&FlexResult {
        chord_name: "foo".to_string(),
        success: true,
        confidence: bits(0.99),
        latency_ms: bits(1.0),
    });
    let alerts = prop.alerts();
    assert!(alerts.is_empty());
}

#[test]
fn defaults_of_a_new_proprioceptor() {
    let mm = make_mm(vec![make_chord("foo", Trit::Hardcode)]);
    let prop = Proprioceptor::new(&mm);
    assert_eq!(prop.confidence_threshold, bits(0.5));
    assert_eq!(prop.fatigue_threshold, 1000);
}

#[test]
fn alerts_are_drained() {
    let mm = make_mm(vec![make_chord("foo", Trit::Hardcode)]);
    let mut prop = Proprioceptor::new(&mm);
    prop.observe(&flex("ghost", 0.9));
    prop.observe(&flex("phantom", 0.9));
    let first = prop.alerts();
    assert_eq!(first.len(), 2);
    assert_eq!(first[0].chord, "ghost");
    assert_eq!(first[0].evidence, AlertEvidence::NotInMemory);
    assert_eq!(first[1].chord, "phantom");
    assert!(prop.alerts().is_empty());
}

#[test]
fn confidence_drop_only_for_hardcode_and_carries_readings() {
    let mm = make_mm(vec![make_chord("hard", Trit::Hardcode), make_chord("soft", Trit::Model)]);
    let mut prop = Proprioceptor::new(&mm);
    prop.observe(&flex("soft", 0.1));
    assert!(prop.alerts().is_empty());
    prop.observe(&flex("hard", 0.1));
    let alerts = prop.alerts();
    assert_eq!(alerts.len(), 1);
    assert_eq!(alerts[0].kind, AlertKind::ConfidenceDrop);
    assert_eq!(alerts[0].chord, "hard");
    assert_eq!(
        alerts[0].evidence,
        AlertEvidence::LowConfidence { confidence: bits(0.1), threshold: bits(0.5) }
    );
    // Equal to the threshold is not below it; NaN is never below anything.
    prop.observe(&flex("hard", 0.5));
    prop.observe(&flex("hard", f64::NAN));
    assert!(prop.alerts().is_empty());
}

#[test]
fn fatigue_reports_the_count() {
    let mut chord = make_chord("busy", Trit::Model);
    chord.invocation_count = 7;
    let mm = make_mm(vec![chord]);
    let mut prop = Proprioceptor::new(&mm);
    prop.fatigue_threshold = 9;
    prop.observe(&flex("busy", 1.0));
    assert!(prop.alerts().is_empty());
    prop.observe(&flex("busy", 1.0));
    let alerts = prop.alerts();
    assert_eq!(alerts.len(), 1);
    assert_eq!(alerts[0].evidence, AlertEvidence::Fatigue { count: 9, threshold: 9 });
}

#[test]
fn single_chord_window_is_a_shift() {
    let mm = make_mm(vec![make_chord("a", Trit::Hardcode)]);
    let mut t = FlexTracker::new(&mm);
    for _ in 0..150 {
        t.record("a");
    }
    // One chord can overlap the baseline in one place only, fewer than three.
    assert!(t.pattern_shifted());
}

#[test]
fn window_forgets_old_flexes() {
    let mm = make_mm(vec![
        make_chord("b1", Trit::Hardcode),
        make_chord("b2", Trit::Hardcode),
        make_chord("b3", Trit::Hardcode),
    ]);
    let mut t = FlexTracker::new(&mm);
    for _ in 0..40 {
        t.record("b1");
        t.record("b2");
        t.record("b3");
    }
    assert!(!t.pattern_shifted());
    // 120 flexes of twelve other chords push every baseline flex out of the window.
    for round in 0..10 {
        let _ = round;
        for k in 0..12 {
            t.record(&format!("s{}", k));
        }
    }
    assert!(t.pattern_shifted());
}

#[test]
fn pattern_shift_needs_twenty_flexes() {
    let mut chords = Vec::new();
    for name in ["b1", "b2", "b3", "b4", "b5"] {
        let mut c = make_chord(name, Trit::Hardcode);
        c.invocation_count = 100;
        chords.push(c);
    }
    let mm = make_mm(chords);
    let mut t = FlexTracker::new(&mm);
    for _ in 0..19 {
        t.record("stranger");
    }
    assert!(!t.pattern_shifted());
    t.record("stranger");
    assert!(t.pattern_shifted());
}

#[test]
fn no_pattern_shift_when_recent_matches_baseline() {
    let mut chords = Vec::new();
    for (i, name) in ["b1", "b2", "b3", "b4"].iter().enumerate() {
        let mut c = make_chord(name, Trit::Hardcode);
        c.invocation_count = 100 - i as u64;
        chords.push(c);
    }
    let mm = make_mm(chords);
    let mut t = FlexTracker::new(&mm);
    for _ in 0..10 {
        t.record("b1");
        t.record("b2");
        t.record("b3");
    }
    assert!(!t.pattern_shifted());
}

#[test]
fn pattern_shift_alert_is_global() {
    let mm = make_mm(vec![make_chord("base", Trit::Model), make_chord("other", Trit::Model)]);
    let mut prop = Proprioceptor::new(&mm);
    for _ in 0..19 {
        prop.observe(&flex("other", 1.0));
    }
    // Two chords only: both are in every top ten, so the overlap is two.
    let alerts = prop.alerts();
    assert!(alerts.is_empty());
    prop.observe(&flex("other", 1.0));
    let alerts = prop.alerts();
    assert_eq!(alerts.len(), 1);
    assert_eq!(alerts[0].kind, AlertKind::PatternShift);
    assert_eq!(alerts[0].chord, "(global)");
}

#[test]
fn alert_descriptions() {
    let mut chord = make_chord("busy", Trit::Hardcode);
    chord.invocation_count = 41;
    let mm = make_mm(vec![chord]);
    let mut prop = Proprioceptor::new(&mm);
    prop.set_fatigue_threshold(42);
    prop.set_confidence_threshold(bits(0.9));
    prop.observe(&flex("ghost", 1.0));
    prop.observe(&flex("busy", 0.5));
    let alerts = prop.alerts();
    assert_eq!(alerts.len(), 3);
    assert_eq!(
        alerts[0].description(),
        Some("Agent tried to flex 'ghost' which is not in muscle memory".to_string())
    );
    assert_eq!(alerts[1].kind, AlertKind::ConfidenceDrop);
    assert_eq!(alerts[1].description(), None);
    assert_eq!(
        alerts[2].description(),
        Some("Chord 'busy' flexed 42 times without refresh (threshold: 42)".to_string())
    );
    let shift = openmind_mirror::proprioceptor::Alert {
        kind: AlertKind::PatternShift,
        chord: "(global)".to_string(),
        evidence: AlertEvidence::ShiftedPattern,
    };
    assert_eq!(
        shift.description(),
        Some("Agent is flexing a significantly different pattern of chords".to_string())
    );
}

#[test]
fn threshold_setters() {
    let mm = make_mm(vec![make_chord("foo", Trit::Hardcode)]);
    let mut prop = Proprioceptor::new(&mm);
    prop.set_confidence_threshold(bits(0.25));
    prop.set_fatigue_threshold(3);
    assert_eq!(prop.confidence_threshold, bits(0.25));
    assert_eq!(prop.fatigue_threshold, 3);
    prop.observe(&flex("foo", 0.3));
    assert!(prop.alerts().is_empty());
}
