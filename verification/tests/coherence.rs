use openmind_mirror::coherence::Coherence;
use openmind_mirror::{ChordShape, F64Bits, MuscleMemory, Severity, Trit};

fn bits(x: f64) -> F64Bits {
    F64Bits { bits: x.to_bits() }
}

fn make_chord(name: &str, decision: Trit) -> ChordShape {
    ChordShape {
        name: name.to_string(),
        decision,
        source_hash: "hash".to_string(),
        confidence: bits(0.95),
        invocation_count: 0,
        error_count: 0,
        avg_latency_ms: bits(1.0),
        calls: vec![],
        called_by: vec![],
        has_tests: true,
        safety_critical: false,
        priority: 5,
    }
}

fn make_mm(chords: Vec<ChordShape>) -> MuscleMemory {
    MuscleMemory {
        repo: "test".to_string(),
        version: "1.0".to_string(),
        timestamp: "now".to_string(),
        chords: chords.into_iter().map(|c| (c.name.clone(), c)).collect(),
    }
}

#[test]
fn test_find_orphans() {
    let mm = make_mm(vec![make_chord("lonely", Trit::Hardcode)]);
    let issues = Coherence::check(&mm);
    assert!(issues.iter().any(|i| i.chord == "lonely" && matches!(i.severity, Severity::Info)));
}

#[test]
fn test_broken_chain() {
    let mut chord = make_chord("caller", Trit::Hardcode);
    chord.calls = vec!["nonexistent".to_string()];
    let mm = make_mm(vec![chord]);
    let issues = Coherence::check(&mm);
    assert!(issues
        .iter()
        .any(|i| i.chord == "caller" && matches!(i.severity, Severity::Critical)));
}

#[test]
fn test_safety_critical_not_hardcode() {
    let mut chord = make_chord("dangerous", Trit::Model);
    chord.safety_critical = true;
    let mm = make_mm(vec![chord]);
    let issues = Coherence::check(&mm);
    assert!(issues.iter().any(|i| i.chord == "dangerous"
        && matches!(i.severity, Severity::Critical)
        && i.description.contains("Safety-critical")));
}

#[test]
fn test_gap_high_connectivity_no_tests() {
    let mut chord = make_chord("hub", Trit::Hardcode);
    chord.calls = vec!["a".to_string(), "b".to_string(), "c".to_string()];
    chord.called_by = vec!["d".to_string(), "e".to_string()];
    chord.has_tests = false;
    let mm = make_mm(vec![chord]);
    let issues = Coherence::check(&mm);
    assert!(issues.iter().any(|i| i.chord == "hub"
        && matches!(i.severity, Severity::Warning)
        && i.description.contains("no tests")));
}

#[test]
fn test_priority_inversion() {
    let mut chord = make_chord("important", Trit::Hardcode);
    chord.called_by = vec!["a".to_string(), "b".to_string(), "c".to_string(), "d".to_string(), "e".to_string()];
    chord.priority = 1;
    let mm = make_mm(vec![chord]);
    let issues = Coherence::check(&mm);
    assert!(issues.iter().any(|i| i.chord == "important"
        && matches!(i.severity, Severity::Warning)
        && i.description.contains("Priority inversion")));
}

#[test]
fn test_clean_memory_no_issues() {
    let mut a = make_chord("a", Trit::Hardcode);
    a.calls = vec!["b".to_string()];
    a.has_tests = true;
    let mut b = make_chord("b", Trit::Model);
    b.called_by = vec!["a".to_string()];
    b.has_tests = true;
    let mm = make_mm(vec![a, b]);
    let issues = Coherence::check(&mm);
    // Should have no critical or warning issues (may have info for 'a' having callers)
    assert!(!issues
        .iter()
        .any(|i| matches!(i.severity, Severity::Critical | Severity::Warning)));
}

#[test]
fn issue_texts_are_exact() {
    let mut hub = make_chord("hub", Trit::Hybrid);
    hub.calls = vec!["missing".to_string(), "hub".to_string()];
    hub.called_by = vec![
        "a".to_string(),
        "b".to_string(),
        "c".to_string(),
        "d".to_string(),
        "e".to_string(),
    ];
    hub.has_tests = false;
    hub.safety_critical = true;
    hub.priority = 2;
    let lonely = make_chord("lonely", Trit::Hardcode);
    let mm = make_mm(vec![hub, lonely]);
    let issues = Coherence::check(&mm);
    let got: Vec<(Severity, String, String)> = issues
        .iter()
        .map(|i| (i.severity, i.chord.clone(), i.description.clone()))
        .collect();
    assert_eq!(
        got,
        vec![
            (
                Severity::Critical,
                "hub".to_string(),
                "Broken chain: calls 'missing' which is not in muscle memory".to_string()
            ),
            (
                Severity::Critical,
                "hub".to_string(),
                "Safety-critical function has decision Hybrid (should be HARDCODE)".to_string()
            ),
            (
                Severity::Warning,
                "hub".to_string(),
                "High-connectivity function (7 edges) has no tests".to_string()
            ),
            (
                Severity::Warning,
                "hub".to_string(),
                "Priority inversion: called by 5 functions but priority is 2".to_string()
            ),
            (
                Severity::Info,
                "lonely".to_string(),
                "Orphan chord: calls nothing and nothing calls it".to_string()
            ),
        ]
    );
}

#[test]
fn safety_critical_hardcode_is_fine() {
    let mut chord = make_chord("guarded", Trit::Hardcode);
    chord.safety_critical = true;
    chord.calls = vec!["guarded".to_string()];
    let mm = make_mm(vec![chord]);
    assert!(Coherence::check(&mm).is_empty());
}

#[test]
fn every_broken_call_is_reported() {
    let mut chord = make_chord("caller", Trit::Model);
    chord.calls = vec!["x".to_string(), "caller".to_string(), "y".to_string()];
    let mm = make_mm(vec![chord]);
    let issues = Coherence::check(&mm);
    let texts: Vec<&str> = issues.iter().map(|i| i.description.as_str()).collect();
    assert_eq!(
        texts,
        vec![
            "Broken chain: calls 'x' which is not in muscle memory",
            "Broken chain: calls 'y' which is not in muscle memory",
        ]
    );
}
