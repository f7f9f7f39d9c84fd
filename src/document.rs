use vstd::prelude::*;

verus! {

/// One token of a tokenised text.
#[derive(Debug)]
pub struct HulthToken {
    pub word: String,
    pub lemma: String,
    pub offset_begin: i64,
    pub offset_end: i64,
    pub pos: String,
}

/// The tokens of one sentence, in text order.
#[derive(Debug)]
pub struct Sentence {
    pub tokens: Vec<HulthToken>,
}

/// A tokenised document: its sentences, in text order.
#[derive(Debug)]
pub struct HulthDocument {
    pub sentences: Vec<Sentence>,
}

impl HulthToken {
    pub fn new(word: String, lemma: String, offset_begin: i64, offset_end: i64, pos: String) -> (r:
        HulthToken)
        ensures
            r.word == word,
            r.lemma == lemma,
            r.offset_begin == offset_begin,
            r.offset_end == offset_end,
            r.pos == pos,
    {
        HulthToken { word, lemma, offset_begin, offset_end, pos }
    }

    /// A copy of the token, field by field.
    pub fn clone(&self) -> (r: Self)
        ensures
            r == *self,
    {
        HulthToken {
            word: self.word.clone(),
            lemma: self.lemma.clone(),
            offset_begin: self.offset_begin,
            offset_end: self.offset_end,
            pos: self.pos.clone(),
        }
    }

    /// The surface form, used for scoring and matching.
    pub fn get_term(&self) -> (r: String)
        ensures
            r@ == self.word@,
    {
        self.word.clone()
    }

    /// The position of the token in its source text.
    pub fn get_offset_begin(&self) -> (r: usize)
        requires
            0 <= self.offset_begin <= usize::MAX,
        ensures
            r as int == self.offset_begin,
    {
        self.offset_begin as usize
    }

    /// The part of speech, which scoring does not use.
    pub fn get_pos(&self) -> (r: Option<String>)
        ensures
            r is None,
    {
        None
    }
}

impl Sentence {
    pub fn new(tokens: Vec<HulthToken>) -> (r: Sentence)
        ensures
            r.tokens == tokens,
    {
        Sentence { tokens }
    }
}

/// The tokens of all sentences, one sentence after the other.
pub open spec fn flat_tokens(sentences: Seq<Sentence>) -> Seq<HulthToken> {
    sentences.map_values(|s: Sentence| s.tokens@).flatten()
}

impl HulthDocument {
    pub fn new(sentences: Vec<Sentence>) -> (r: HulthDocument)
        ensures
            r.sentences == sentences,
    {
        HulthDocument { sentences }
    }

    /// The tokens of every sentence in order, none dropped or moved.
    pub fn get_flat_tokens(&self) -> (r: Vec<Box<HulthToken>>)
        ensures
            r@.map_values(|t: Box<HulthToken>| *t) == flat_tokens(self.sentences@),
    {
        let ghost parts = self.sentences@.map_values(|s: Sentence| s.tokens@);
        let mut ret: Vec<Box<HulthToken>> = Vec::new();
        let mut i: usize = 0;
        while i < self.sentences.len()
            invariant
                i <= self.sentences@.len(),
                parts == self.sentences@.map_values(|s: Sentence| s.tokens@),
                ret@.map_values(|t: Box<HulthToken>| *t) == parts.take(i as int).flatten(),
            decreases self.sentences@.len() - i,
        {
            let tokens = &self.sentences[i].tokens;
            let ghost start = ret@.map_values(|t: Box<HulthToken>| *t);
            let mut j: usize = 0;
            while j < tokens.len()
                invariant
                    j <= tokens@.len(),
                    ret@.map_values(|t: Box<HulthToken>| *t) == start + tokens@.take(j as int),
                decreases tokens@.len() - j,
            {
                let t = tokens[j].clone();
                let ghost prev = ret@;
                ret.push(Box::new(t));
                assert(ret@.map_values(|t: Box<HulthToken>| *t) =~= prev.map_values(
                    |t: Box<HulthToken>| *t,
                ).push(tokens@[j as int]));
                assert(start + tokens@.take(j + 1) =~= (start + tokens@.take(j as int)).push(
                    tokens@[j as int],
                ));
                j = j + 1;
            }
            proof {
                assert(tokens@.take(j as int) =~= tokens@);
                assert(parts.take(i + 1) =~= parts.take(i as int).push(parts[i as int]));
                parts.take(i as int).lemma_flatten_push(parts[i as int]);
            }
            i = i + 1;
        }
        assert(parts.take(i as int) =~= parts);
        ret
    }

    /// The key of the document itself: empty, as documents are matched to
    /// their reference keywords by file name.
    pub fn get_id(&self) -> (r: String)
        ensures
            r@.len() == 0,
    {
        String::new()
    }

    /// The ordered token stream that is scored.
    pub fn get_content(&self) -> (r: Vec<Box<HulthToken>>)
        ensures
            r@.map_values(|t: Box<HulthToken>| *t) == flat_tokens(self.sentences@),
    {
        self.get_flat_tokens()
    }
}

} // verus!
