use openmind_mirror::mirror::Mirror;
use openmind_mirror::{ChordShape, F64Bits, MuscleMemory, Trit};

fn bits(x: f64) -> F64Bits {
    F64Bits { bits: x.to_bits() }
}

fn make_chord(name: &str, decision: Trit, hash: &str) -> ChordShape {
    ChordShape {
        name: name.to_string(),
        decision,
        source_hash: hash.to_string(),
        confidence: bits(0.95),
        invocation_count: 0,
        error_count: 0,
        avg_latency_ms: bits(1.0),
        calls: vec![],
        called_by: vec![],
        has_tests: true,
        safety_critical: false,
        priority: 5,
    }
}

fn make_mm(chords: Vec<ChordShape>) -> MuscleMemory {
    MuscleMemory {
        repo: "test".to_string(),
        version: "1.0".to_string(),
        timestamp: "now".to_string(),
        chords: chords.into_iter().map(|c| (c.name.clone(), c)).collect(),
    }
}

#[test]
fn test_detect_added_chords() {
    let v1 = make_mm(vec![make_chord("foo", Trit::Hardcode, "aaa")]);
    let v2 = make_mm(vec![
        make_chord("foo", Trit::Hardcode, "aaa"),
        make_chord("bar", Trit::Model, "bbb"),
    ]);
    let report = Mirror::compare(&v1, &v2);
    assert_eq!(report.added, vec!["bar"]);
    assert!(report.removed.is_empty());
    assert!(report.changed.is_empty());
}

#[test]
fn test_detect_removed_chords() {
    let v1 = make_mm(vec![
        make_chord("foo", Trit::Hardcode, "aaa"),
        make_chord("baz", Trit::Model, "ccc"),
    ]);
    let v2 = make_mm(vec![make_chord("foo", Trit::Hardcode, "aaa")]);
    let report = Mirror::compare(&v1, &v2);
    assert_eq!(report.removed, vec!["baz"]);
    assert!(report.added.is_empty());
}

#[test]
fn test_detect_changed_chords() {
    let v1 = make_mm(vec![make_chord("foo", Trit::Hardcode, "aaa")]);
    let v2 = make_mm(vec![make_chord("foo", Trit::Hardcode, "bbb")]);
    let report = Mirror::compare(&v1, &v2);
    assert_eq!(report.changed.len(), 1);
    assert_eq!(report.changed[0].chord, "foo");
    assert_eq!(report.changed[0].old_hash, "aaa");
    assert_eq!(report.changed[0].new_hash, "bbb");
}

#[test]
fn test_detect_decision_shift() {
    let v1 = make_mm(vec![make_chord("foo", Trit::Hardcode, "aaa")]);
    let v2 = make_mm(vec![make_chord("foo", Trit::Model, "aaa")]);
    let report = Mirror::compare(&v1, &v2);
    assert_eq!(report.decision_shifts.len(), 1);
    assert_eq!(report.decision_shifts[0].from, Trit::Hardcode);
    assert_eq!(report.decision_shifts[0].to, Trit::Model);
}

#[test]
fn test_identical_snapshots() {
    let v1 = make_mm(vec![
        make_chord("foo", Trit::Hardcode, "aaa"),
        make_chord("bar", Trit::Model, "bbb"),
    ]);
    let v2 = make_mm(vec![
        make_chord("foo", Trit::Hardcode, "aaa"),
        make_chord("bar", Trit::Model, "bbb"),
    ]);
    let report = Mirror::compare(&v1, &v2);
    assert!(report.changed.is_empty());
    assert!(report.added.is_empty());
    assert!(report.removed.is_empty());
    assert!(report.decision_shifts.is_empty());
}

#[test]
fn reverse_comparison_swaps_added_removed_and_shifts() {
    let v1 = make_mm(vec![
        make_chord("keep", Trit::Hardcode, "h1"),
        make_chord("gone", Trit::Model, "h2"),
        make_chord("moved", Trit::Hybrid, "h3"),
    ]);
    let v2 = make_mm(vec![
        make_chord("fresh", Trit::Model, "h4"),
        make_chord("moved", Trit::Hardcode, "h5"),
        make_chord("keep", Trit::Hardcode, "h1"),
    ]);
    let forward = Mirror::compare(&v1, &v2);
    let backward = Mirror::compare(&v2, &v1);
    assert_eq!(forward.added, vec!["fresh"]);
    assert_eq!(forward.removed, vec!["gone"]);
    assert_eq!(forward.added, backward.removed);
    assert_eq!(forward.removed, backward.added);
    assert_eq!(forward.changed.len(), 1);
    assert_eq!(forward.changed[0].chord, "moved");
    assert_eq!(forward.changed[0].old_hash, "h3");
    assert_eq!(forward.changed[0].new_hash, "h5");
    assert_eq!(backward.changed[0].old_hash, "h5");
    assert_eq!(forward.decision_shifts.len(), 1);
    assert_eq!(forward.decision_shifts[0].from, Trit::Hybrid);
    assert_eq!(forward.decision_shifts[0].to, Trit::Hardcode);
    assert_eq!(backward.decision_shifts[0].from, Trit::Hardcode);
    assert_eq!(backward.decision_shifts[0].to, Trit::Hybrid);
}

#[test]
fn added_and_removed_keep_snapshot_order() {
    let v1 = make_mm(vec![
        make_chord("z", Trit::Model, "1"),
        make_chord("a", Trit::Model, "1"),
    ]);
    let v2 = make_mm(vec![
        make_chord("m", Trit::Model, "1"),
        make_chord("b", Trit::Model, "1"),
    ]);
    let report = Mirror::compare(&v1, &v2);
    assert_eq!(report.removed, vec!["z", "a"]);
    assert_eq!(report.added, vec!["m", "b"]);
}
