use hulth_eval::{HulthDocument, HulthToken, Sentence};

fn token(word: &str, offset: i64) -> HulthToken {
    HulthToken::new(
        word.to_string(),
        word.to_lowercase(),
        offset,
        offset + word.len() as i64,
        "NN".to_string(),
    )
}

fn document() -> HulthDocument {
    HulthDocument::new(vec![
        Sentence::new(vec![token("Cloud", 0), token("security", 6)]),
        Sentence::new(vec![]),
        Sentence::new(vec![token("matters", 16), token(".", 23), token("Cloud", 25)]),
    ])
}

#[test]
fn flat_tokens_keep_order() {
    let doc = document();
    let flat = doc.get_flat_tokens();
    let words: Vec<&str> = flat.iter().map(|t| t.word.as_str()).collect();
    assert_eq!(words, vec!["Cloud", "security", "matters", ".", "Cloud"]);
    let offsets: Vec<usize> = flat.iter().map(|t| t.get_offset_begin()).collect();
    assert_eq!(offsets, vec![0, 6, 16, 23, 25]);
}

#[test]
fn content_is_flat_tokens() {
    let doc = document();
    let a: Vec<String> = doc.get_content().iter().map(|t| t.get_term()).collect();
    let b: Vec<String> = doc.get_flat_tokens().iter().map(|t| t.get_term()).collect();
    assert_eq!(a, b);
    assert_eq!(a.len(), 5);
}

#[test]
fn empty_document_has_no_tokens() {
    assert!(HulthDocument::new(vec![]).get_content().is_empty());
}

#[test]
fn document_id_is_empty() {
    assert_eq!(document().get_id(), "");
}

#[test]
fn token_accessors() {
    let t = token("Security", 42);
    assert_eq!(t.get_term(), "Security");
    assert_eq!(t.get_offset_begin(), 42);
    assert_eq!(t.get_pos(), None);
}

#[test]
fn token_clone_copies_fields() {
    let t = token("Mining", 7);
    let c = t.clone();
    assert_eq!(c.word, "Mining");
    assert_eq!(c.lemma, "mining");
    assert_eq!(c.offset_begin, 7);
    assert_eq!(c.offset_end, 13);
    assert_eq!(c.pos, "NN");
}
