use std::cmp::Ordering;

use hulth_eval::{cmp_score, rank, RankedTerm, Score};

fn score(x: f64) -> Score {
    Score::from_bits(x.to_bits())
}

fn entry(term: &str, x: f64) -> RankedTerm {
    RankedTerm::new(term.to_string(), score(x))
}

#[test]
fn cmp_score_orders_higher_first() {
    assert_eq!(cmp_score(score(2.0), score(1.0)), Ordering::Less);
    assert_eq!(cmp_score(score(1.0), score(2.0)), Ordering::Greater);
    assert_eq!(cmp_score(score(-1.0), score(-3.5)), Ordering::Less);
    assert_eq!(cmp_score(score(0.25), score(-0.25)), Ordering::Less);
    assert_eq!(cmp_score(score(1.5), score(1.5)), Ordering::Equal);
}

#[test]
fn cmp_score_zeros_of_both_signs_are_equal() {
    assert_eq!(cmp_score(score(0.0), score(-0.0)), Ordering::Equal);
}

#[test]
fn cmp_score_nan_goes_last() {
    assert_eq!(cmp_score(score(f64::NAN), score(-1.0e300)), Ordering::Greater);
    assert_eq!(cmp_score(score(f64::NEG_INFINITY), score(f64::NAN)), Ordering::Less);
    assert_eq!(cmp_score(score(f64::NAN), score(f64::NAN)), Ordering::Equal);
}

#[test]
fn cmp_score_infinities() {
    assert_eq!(cmp_score(score(f64::INFINITY), score(f64::MAX)), Ordering::Less);
    assert_eq!(cmp_score(score(f64::NEG_INFINITY), score(f64::MIN)), Ordering::Greater);
}

#[test]
fn is_nan_score_matches_f64() {
    for x in [0.0, -0.0, 1.0, -2.5, f64::INFINITY, f64::NEG_INFINITY, f64::NAN, -f64::NAN] {
        assert_eq!(score(x).is_nan_score(), x.is_nan());
        assert_eq!(score(x).to_bits(), x.to_bits());
    }
}

#[test]
fn rank_orders_descending_with_nan_last() {
    let input = vec![
        entry("cloud", 0.5),
        entry("noise", f64::NAN),
        entry("network", 1.25),
        entry("the", -1.0),
        entry("security", 0.75),
        entry("zero", 0.0),
    ];
    let out = rank(input);
    let terms: Vec<&str> = out.iter().map(|t| t.term.as_str()).collect();
    assert_eq!(terms, vec!["network", "security", "cloud", "zero", "the", "noise"]);
}

#[test]
fn rank_keeps_every_entry() {
    let input = vec![entry("a", 1.0), entry("b", 1.0), entry("c", f64::NAN), entry("d", 2.0)];
    let out = rank(input);
    assert_eq!(out.len(), 4);
    let mut terms: Vec<String> = out.iter().map(|t| t.term.clone()).collect();
    assert_eq!(terms[0], "d");
    assert_eq!(terms[3], "c");
    terms.sort();
    assert_eq!(terms, vec!["a", "b", "c", "d"]);
}

#[test]
fn rank_empty() {
    assert!(rank(Vec::new()).is_empty());
}

#[test]
fn rank_is_non_increasing() {
    let values = [3.0, -7.0, 0.0, 12.5, 3.0, f64::NAN, -0.5, 100.0, f64::NAN, 1.0e-9];
    let input: Vec<RankedTerm> =
        values.iter().enumerate().map(|(i, v)| entry(&format!("t{}", i), *v)).collect();
    let out = rank(input);
    let scores: Vec<f64> = out.iter().map(|t| f64::from_bits(t.score.to_bits())).collect();
    let first_nan = scores.iter().position(|s| s.is_nan()).unwrap();
    assert_eq!(first_nan, 8);
    for w in scores[..first_nan].windows(2) {
        assert!(w[0] >= w[1]);
    }
    assert!(scores[first_nan..].iter().all(|s| s.is_nan()));
}
