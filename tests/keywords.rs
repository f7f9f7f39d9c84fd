use hulth_eval::{
    evaluate_document, reference_key, reference_tokens, EvalError, HulthDocumentKeywords,
    RankedTerm, Ratio, Score,
};

fn groups(v: &[&[&str]]) -> Vec<Vec<String>> {
    v.iter().map(|g| g.iter().map(|s| s.to_string()).collect()).collect()
}

fn ranked(terms: &[&str]) -> Vec<RankedTerm> {
    terms
        .iter()
        .map(|t| RankedTerm::new(t.to_string(), Score::from_bits(1.0f64.to_bits())))
        .collect()
}

#[test]
fn reference_key_strips_extension() {
    assert_eq!(reference_key("1234.json"), "1234");
    assert_eq!(reference_key("plain"), "plain");
    assert_eq!(reference_key(""), "");
}

#[test]
fn reference_key_strips_every_occurrence() {
    assert_eq!(reference_key("a.json.json"), "a");
    assert_eq!(reference_key("x.jsonl"), "xl");
    assert_eq!(reference_key(".json"), "");
    assert_eq!(reference_key("a..jsonjson"), "a.json");
    assert_eq!(reference_key("é.json"), "é");
}

#[test]
fn reference_tokens_split_phrases() {
    let t = reference_tokens(&groups(&[&["network security", "security"], &["cloud computing"]]));
    assert_eq!(t, vec!["network", "security", "cloud", "computing"]);
}

#[test]
fn reference_tokens_skip_extra_whitespace() {
    let t = reference_tokens(&groups(&[&["  data\tmining  ", "data"], &[""], &["mining\nrules"]]));
    assert_eq!(t, vec!["data", "mining", "rules"]);
}

#[test]
fn reference_tokens_keep_case() {
    let t = reference_tokens(&groups(&[&["Network network"]]));
    assert_eq!(t, vec!["Network", "network"]);
}

#[test]
fn reference_tokens_empty() {
    assert!(reference_tokens(&Vec::new()).is_empty());
}

#[test]
fn keywords_insert_and_get() {
    let mut k = HulthDocumentKeywords::new();
    assert!(k.get(&"a".to_string()).is_none());
    k.insert("a".to_string(), groups(&[&["x y"]]));
    k.insert("b".to_string(), groups(&[&["z"]]));
    assert_eq!(k.get(&"a".to_string()).unwrap(), &groups(&[&["x y"]]));
    assert_eq!(k.get(&"b".to_string()).unwrap(), &groups(&[&["z"]]));
    k.insert("a".to_string(), groups(&[&["w"]]));
    assert_eq!(k.get(&"a".to_string()).unwrap(), &groups(&[&["w"]]));
    assert!(k.get(&"c".to_string()).is_none());
}

#[test]
fn evaluate_document_uses_file_name_key() {
    let mut k = HulthDocumentKeywords::new();
    k.insert("doc1".to_string(), groups(&[&["network security"], &["network"]]));
    let m = evaluate_document(&k, "doc1.json", &ranked(&["network", "cloud", "security"])).unwrap();
    assert_eq!(m.precision, Ratio::new(2, 3));
    assert_eq!(m.recall, Ratio::new(2, 2));
    assert_eq!(m.f1, Ratio::new(4, 5));
}

#[test]
fn evaluate_document_missing_reference_names_key() {
    let mut k = HulthDocumentKeywords::new();
    k.insert("doc1".to_string(), groups(&[&["network"]]));
    match evaluate_document(&k, "doc2.json", &ranked(&["network"])) {
        Err(EvalError::MissingReference(key)) => assert_eq!(key, "doc2"),
        other => panic!("unexpected result {:?}", other),
    }
}

#[test]
fn evaluate_document_empty_reference_set() {
    let mut k = HulthDocumentKeywords::new();
    k.insert("doc1".to_string(), groups(&[&["   "]]));
    let r = evaluate_document(&k, "doc1.json", &ranked(&["network"]));
    assert!(matches!(r, Err(EvalError::EmptyReference)));
}
