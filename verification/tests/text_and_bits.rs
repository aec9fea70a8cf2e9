use openmind_mirror::index::NameIndex;
use openmind_mirror::text::decimal_string;
use openmind_mirror::{ChordShape, F64Bits, MuscleMemory, Trit};

fn b(x: f64) -> F64Bits {
    F64Bits { bits: x.to_bits() }
}

#[test]
fn decimal_rendering() {
    assert_eq!(decimal_string(0), "0");
    assert_eq!(decimal_string(7), "7");
    assert_eq!(decimal_string(10), "10");
    assert_eq!(decimal_string(1234567890), "1234567890");
    assert_eq!(decimal_string(u128::MAX), u128::MAX.to_string());
}

#[test]
fn float_bits_ordering() {
    assert!(b(0.3).less_than(b(0.8)));
    assert!(!b(0.8).less_than(b(0.3)));
    assert!(!b(0.5).less_than(b(0.5)));
    assert!(!b(-0.0).less_than(b(0.0)));
    assert!(!b(0.0).less_than(b(-0.0)));
    assert!(b(-1.0).less_than(b(0.5)));
    assert!(b(-2.0).less_than(b(-1.0)));
    assert!(!b(-1.0).less_than(b(-2.0)));
    assert!(b(-0.0).less_than(b(1e-300)));
    assert!(b(f64::NEG_INFINITY).less_than(b(f64::MIN)));
    assert!(b(f64::MAX).less_than(b(f64::INFINITY)));
    assert!(!b(f64::NAN).less_than(b(1.0)));
    assert!(!b(1.0).less_than(b(f64::NAN)));
    let pairs = [-3.5, -1.0, -0.0, 0.0, 1e-310, 0.25, 0.5, 2.0, f64::INFINITY];
    for x in pairs {
        for y in pairs {
            assert_eq!(b(x).less_than(b(y)), x < y);
        }
    }
}

fn chord(name: &str) -> ChordShape {
    ChordShape {
        name: name.to_string(),
        decision: Trit::Model,
        source_hash: "h".to_string(),
        confidence: b(1.0),
        invocation_count: 0,
        error_count: 0,
        avg_latency_ms: b(1.0),
        calls: vec![],
        called_by: vec![],
        has_tests: true,
        safety_critical: false,
        priority: 5,
    }
}

#[test]
fn unique_keys_check() {
    let mut mm = MuscleMemory {
        repo: "r".to_string(),
        version: "1".to_string(),
        timestamp: "t".to_string(),
        chords: vec![("a".to_string(), chord("a")), ("b".to_string(), chord("b"))],
    };
    assert!(mm.keys_are_unique());
    mm.chords.push(("a".to_string(), chord("a2")));
    assert!(!mm.keys_are_unique());
}

#[test]
fn name_index_finds_first_entry() {
    use_index();
}

fn use_index() {
    let entries = vec![
        ("m".to_string(), chord("m1")),
        ("b".to_string(), chord("b")),
        ("m".to_string(), chord("m2")),
        ("a".to_string(), chord("a")),
        ("z".to_string(), chord("z")),
    ];
    let index = NameIndex::new(&entries);
    assert_eq!(index.find(&entries, &"m".to_string()), Some(0));
    assert_eq!(index.find(&entries, &"a".to_string()), Some(3));
    assert_eq!(index.find(&entries, &"z".to_string()), Some(4));
    assert_eq!(index.find(&entries, &"c".to_string()), None);
    assert_eq!(index.find(&entries, &"".to_string()), None);
    assert_eq!(index.find(&entries, &"zz".to_string()), None);
    let empty: Vec<(String, ChordShape)> = vec![];
    assert_eq!(NameIndex::new(&empty).find(&empty, &"a".to_string()), None);
}
