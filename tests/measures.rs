use hulth_eval::{evaluate, f1, EvalError, Measures, RankedTerm, Ratio, Score};

fn ranked(terms: &[&str]) -> Vec<RankedTerm> {
    terms
        .iter()
        .enumerate()
        .map(|(i, t)| RankedTerm::new(t.to_string(), Score::from_bits((10.0 - i as f64).to_bits())))
        .collect()
}

fn strings(v: &[&str]) -> Vec<String> {
    v.iter().map(|s| s.to_string()).collect()
}

fn value(r: Ratio) -> f64 {
    r.num as f64 / r.den as f64
}

#[test]
fn f1_is_zero_when_precision_is_zero() {
    let r = f1(Ratio::new(0, 4), Ratio::new(3, 5));
    assert_eq!(r.num, 0);
    assert!(r.den > 0);
}

#[test]
fn f1_is_zero_when_recall_is_zero() {
    let r = f1(Ratio::new(1, 2), Ratio::new(0, 7));
    assert_eq!(r.num, 0);
}

#[test]
fn f1_harmonic_mean() {
    let r = f1(Ratio::new(2, 3), Ratio::new(2, 2));
    assert_eq!(r, Ratio::new(8, 10));
    assert!((value(r) - 0.8).abs() < 1e-12);
}

#[test]
fn f1_of_equal_values_is_that_value() {
    let r = f1(Ratio::new(1, 4), Ratio::new(1, 4));
    assert!((value(r) - 0.25).abs() < 1e-12);
}

#[test]
fn f1_is_symmetric() {
    let p = Ratio::new(3, 7);
    let r = Ratio::new(5, 9);
    assert_eq!(f1(p, r), f1(r, p));
    let expected = 2.0 * (3.0 / 7.0) * (5.0 / 9.0) / (3.0 / 7.0 + 5.0 / 9.0);
    assert!((value(f1(p, r)) - expected).abs() < 1e-12);
}

#[test]
fn evaluate_scenario_network_security() {
    let m = evaluate(&ranked(&["network", "cloud", "security"]), &strings(&["network", "security"]))
        .unwrap();
    assert_eq!(m.precision, Ratio::new(2, 3));
    assert_eq!(m.recall, Ratio::new(2, 2));
    assert_eq!(m.f1, Ratio::new(4, 5));
    assert!((value(m.precision) - 2.0 / 3.0).abs() < 1e-12);
    assert!((value(m.recall) - 1.0).abs() < 1e-12);
    assert!((value(m.f1) - 0.8).abs() < 1e-12);
}

#[test]
fn evaluate_no_relevant_term() {
    let m = evaluate(&ranked(&["alpha", "beta"]), &strings(&["gamma"])).unwrap();
    assert_eq!(
        m,
        Measures { precision: Ratio::new(0, 2), recall: Ratio::new(0, 1), f1: Ratio::new(0, 1) }
    );
}

#[test]
fn evaluate_matching_is_exact() {
    let m = evaluate(&ranked(&["Network", "security "]), &strings(&["network", "security"])).unwrap();
    assert_eq!(m.precision.num, 0);
}

#[test]
fn evaluate_measures_in_unit_range() {
    let m = evaluate(&ranked(&["a", "b", "c", "d"]), &strings(&["b", "d", "e", "f", "g"])).unwrap();
    for r in [m.precision, m.recall, m.f1] {
        assert!(r.den > 0 && r.num <= r.den);
    }
    assert_eq!(m.precision, Ratio::new(2, 4));
    assert_eq!(m.recall, Ratio::new(2, 5));
    assert_eq!(m.f1, Ratio::new(4, 9));
}

#[test]
fn evaluate_empty_ranking() {
    let r = evaluate(&Vec::new(), &strings(&["network"]));
    assert!(matches!(r, Err(EvalError::EmptyRanking)));
}

#[test]
fn evaluate_empty_reference() {
    let r = evaluate(&ranked(&["network"]), &Vec::new());
    assert!(matches!(r, Err(EvalError::EmptyReference)));
}
