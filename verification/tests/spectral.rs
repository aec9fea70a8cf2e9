use openmind_mirror::names::name_less;
use openmind_mirror::spectral::{build_decision_vector, cosine_similarity, trit_weight, Similarity, Spectral};
use openmind_mirror::{ChordShape, F64Bits, MuscleMemory, Trit};

fn bits(x: f64) -> F64Bits {
    F64Bits { bits: x.to_bits() }
}

fn make_chord(name: &str, decision: Trit) -> ChordShape {
    ChordShape {
        name: name.to_string(),
        decision,
        source_hash: "hash".to_string(),
        confidence: bits(0.95),
        invocation_count: 0,
        error_count: 0,
        avg_latency_ms: bits(1.0),
        calls: vec![],
        called_by: vec![],
        has_tests: true,
        safety_critical: false,
        priority: 5,
    }
}

fn make_mm(repo: &str, chords: Vec<ChordShape>) -> MuscleMemory {
    MuscleMemory {
        repo: repo.to_string(),
        version: "1.0".to_string(),
        timestamp: "now".to_string(),
        chords: chords.into_iter().map(|c| (c.name.clone(), c)).collect(),
    }
}

fn all(repo: &str, t: Trit) -> MuscleMemory {
    make_mm(
        repo,
        ["foo", "bar", "baz", "qux", "quux"].iter().map(|n| make_chord(n, t)).collect(),
    )
}

#[test]
fn decision_weights() {
    assert_eq!(trit_weight(Trit::Hardcode), 2);
    assert_eq!(trit_weight(Trit::Model), 0);
    assert_eq!(trit_weight(Trit::Hybrid), 1);
}

#[test]
fn identical_repos_are_fully_similar() {
    let mm1 = make_mm("repo1", vec![make_chord("foo", Trit::Hardcode), make_chord("bar", Trit::Model)]);
    let mm2 = make_mm("repo2", vec![make_chord("bar", Trit::Model), make_chord("foo", Trit::Hardcode)]);
    let pairs = Spectral::pairwise(&[mm1, mm2]);
    assert_eq!(pairs.len(), 1);
    assert_eq!(pairs[0].repo_a, "repo1");
    assert_eq!(pairs[0].repo_b, "repo2");
    assert_eq!(pairs[0].similarity, Similarity::Cosine { dot: 4, norm1: 4, norm2: 4 });
}

#[test]
fn divergent_repo_pairs() {
    let pairs = Spectral::pairwise(&[
        all("good1", Trit::Hardcode),
        all("good2", Trit::Hardcode),
        all("divergent", Trit::Model),
    ]);
    let got: Vec<(String, String, Similarity)> =
        pairs.iter().map(|p| (p.repo_a.clone(), p.repo_b.clone(), p.similarity)).collect();
    assert_eq!(
        got,
        vec![
            ("good1".to_string(), "good2".to_string(), Similarity::Cosine { dot: 20, norm1: 20, norm2: 20 }),
            ("good1".to_string(), "divergent".to_string(), Similarity::Opposite),
            ("good2".to_string(), "divergent".to_string(), Similarity::Opposite),
        ]
    );
}

#[test]
fn single_repo_has_no_pairs() {
    let pairs = Spectral::pairwise(&[make_mm("solo", vec![make_chord("foo", Trit::Hardcode)])]);
    assert!(pairs.is_empty());
}

#[test]
fn missing_functions_count_half() {
    // v1 = {foo: 1.0, bar: 0.5}; v2 = {foo: 0.0, baz: 1.0}; union: foo, bar, baz.
    // a = (1, 0.5, 0.5), b = (0, 0.5, 1): dot = 0.75, |a|^2 = 1.5, |b|^2 = 1.25.
    let v1 = build_decision_vector(&make_mm(
        "r1",
        vec![make_chord("foo", Trit::Hardcode), make_chord("bar", Trit::Hybrid)],
    ));
    let v2 = build_decision_vector(&make_mm(
        "r2",
        vec![make_chord("foo", Trit::Model), make_chord("baz", Trit::Hardcode)],
    ));
    assert_eq!(cosine_similarity(&v1, &v2), Similarity::Cosine { dot: 3, norm1: 6, norm2: 5 });
    assert_eq!(cosine_similarity(&v2, &v1), Similarity::Cosine { dot: 3, norm1: 5, norm2: 6 });
}

#[test]
fn zero_vectors() {
    let models = build_decision_vector(&make_mm("m", vec![make_chord("foo", Trit::Model)]));
    let empty = build_decision_vector(&make_mm("e", vec![]));
    assert_eq!(cosine_similarity(&models, &models), Similarity::Identical);
    assert_eq!(cosine_similarity(&empty, &empty), Similarity::Identical);
    let hard = build_decision_vector(&make_mm("h", vec![make_chord("foo", Trit::Hardcode)]));
    assert_eq!(cosine_similarity(&models, &hard), Similarity::Opposite);
}

#[test]
fn decision_vector_is_sorted_by_name() {
    let v = build_decision_vector(&make_mm(
        "r",
        vec![
            make_chord("zeta", Trit::Hardcode),
            make_chord("alpha", Trit::Model),
            make_chord("beta", Trit::Hybrid),
            make_chord("al", Trit::Hardcode),
            make_chord("Zed", Trit::Model),
        ],
    ));
    let got: Vec<(String, u64)> = v.entries().clone();
    assert_eq!(
        got,
        vec![
            ("Zed".to_string(), 0),
            ("al".to_string(), 2),
            ("alpha".to_string(), 0),
            ("beta".to_string(), 1),
            ("zeta".to_string(), 2),
        ]
    );
}

#[test]
fn name_order_matches_string_order() {
    let names = ["", "a", "ab", "b", "B", "é", "z", "aé", "a\u{10000}", "\u{ffff}"];
    for x in names {
        for y in names {
            assert_eq!(name_less(&x.to_string(), &y.to_string()), x < y, "{} {}", x, y);
        }
    }
}
