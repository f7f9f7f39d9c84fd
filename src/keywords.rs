use vstd::prelude::*;

use crate::measure::{contains_text, texts};

verus! {

/// Relies on `String::push`: appends one char at the end of the string.
#[verifier::external_body]
fn push_char(s: &mut String, c: char)
    ensures
        final(s)@ == old(s)@.push(c),
{
    s.push(c)
}

/// The extension that file names of documents carry.
pub open spec fn json_ext() -> Seq<char> {
    seq!['.', 'j', 's', 'o', 'n']
}

/// `s` with every occurrence of `pat` taken out, matches found from the left
/// and never overlapping.
pub open spec fn remove_all(s: Seq<char>, pat: Seq<char>) -> Seq<char>
    decreases s.len(),
{
    if s.len() == 0 {
        s
    } else if 0 < pat.len() <= s.len() && s.take(pat.len() as int) == pat {
        remove_all(s.skip(pat.len() as int), pat)
    } else {
        seq![s[0]] + remove_all(s.skip(1), pat)
    }
}

proof fn lemma_remove_all_step(s: Seq<char>, pat: Seq<char>, i: int)
    requires
        0 <= i < s.len(),
        pat.len() > 0,
    ensures
        (i + pat.len() <= s.len() && s.subrange(i, i + pat.len()) == pat) ==> remove_all(
            s.skip(i),
            pat,
        ) == remove_all(s.skip(i + pat.len()), pat),
        !(i + pat.len() <= s.len() && s.subrange(i, i + pat.len()) == pat) ==> remove_all(
            s.skip(i),
            pat,
        ) == seq![s[i]] + remove_all(s.skip(i + 1), pat),
{
    let t = s.skip(i);
    assert(t.len() > 0);
    if i + pat.len() <= s.len() {
        assert(t.take(pat.len() as int) =~= s.subrange(i, i + pat.len()));
        assert(t.skip(pat.len() as int) =~= s.skip(i + pat.len()));
    }
    assert(t.skip(1) =~= s.skip(i + 1));
}

/// The key under which a document's reference keywords are recorded: its file
/// name with every `.json` taken out.
pub fn reference_key(file_name: &str) -> (r: String)
    ensures
        r@ == remove_all(file_name@, json_ext()),
{
    let n = file_name.unicode_len();
    let mut out = String::new();
    let mut i: usize = 0;
    assert(file_name@.skip(0) =~= file_name@);
    assert(out@ + remove_all(file_name@, json_ext()) =~= remove_all(file_name@, json_ext()));
    while i < n
        invariant
            n == file_name@.len(),
            i <= n,
            out@ + remove_all(file_name@.skip(i as int), json_ext()) == remove_all(
                file_name@,
                json_ext(),
            ),
        decreases n - i,
    {
        proof {
            lemma_remove_all_step(file_name@, json_ext(), i as int);
        }
        let at_ext = n - i >= 5 && file_name.get_char(i) == '.' && file_name.get_char(i + 1)
            == 'j' && file_name.get_char(i + 2) == 's' && file_name.get_char(i + 3) == 'o'
            && file_name.get_char(i + 4) == 'n';
        proof {
            if i + 5 <= n {
                let sub = file_name@.subrange(i as int, i + 5);
                if at_ext {
                    assert(sub =~= json_ext());
                } else {
                    if sub == json_ext() {
                        assert(sub[0] == file_name@[i as int]);
                        assert(sub[1] == file_name@[i + 1]);
                        assert(sub[2] == file_name@[i + 2]);
                        assert(sub[3] == file_name@[i + 3]);
                        assert(sub[4] == file_name@[i + 4]);
                    }
                }
            }
        }
        if at_ext {
            i = i + 5;
        } else {
            let c = file_name.get_char(i);
            let ghost before = out@;
            push_char(&mut out, c);
            assert(out@ + remove_all(file_name@.skip(i + 1), json_ext()) =~= before + (seq![c]
                + remove_all(file_name@.skip(i + 1), json_ext())));
            i = i + 1;
        }
    }
    assert(file_name@.skip(i as int) =~= Seq::<char>::empty());
    assert(out@ + Seq::<char>::empty() =~= out@);
    out
}

/// The characters that separate the words of a keyphrase: ASCII whitespace.
pub open spec fn is_space(c: char) -> bool {
    c == ' ' || c == '\t' || c == '\n' || c == '\r' || c == '\x0C'
}

fn is_space_char(c: char) -> (r: bool)
    ensures
        r == is_space(c),
{
    c == ' ' || c == '\t' || c == '\n' || c == '\r' || c == '\x0C'
}

/// `s[i..j]` is a word of `s`: a non-empty run of non-space characters with a
/// space or an end of `s` on either side.
pub open spec fn word_at(s: Seq<char>, i: int, j: int) -> bool {
    &&& 0 <= i < j <= s.len()
    &&& forall|k: int| i <= k < j ==> !is_space(#[trigger] s[k])
    &&& (i == 0 || is_space(s[i - 1]))
    &&& (j == s.len() || is_space(s[j]))
}

/// `w` is one of the words of `s`.
pub open spec fn is_word_of(w: Seq<char>, s: Seq<char>) -> bool {
    exists|i: int, j: int| #[trigger] word_at(s, i, j) && w == s.subrange(i, j)
}

/// Adds to a set of tokens, held without repeats, each word of a phrase that
/// it does not hold yet.
fn add_words(phrase: &String, out: &mut Vec<String>)
    requires
        texts(old(out)@).no_duplicates(),
    ensures
        texts(final(out)@).no_duplicates(),
        forall|w: Seq<char>|
            texts(final(out)@).contains(w) <==> (texts(old(out)@).contains(w) || is_word_of(
                w,
                phrase@,
            )),
{
    let s: &str = phrase.as_str();
    let n = s.unicode_len();
    let mut start: usize = 0;
    let mut pos: usize = 0;
    while pos <= n
        invariant
            n == s@.len(),
            s@ == phrase@,
            start <= pos,
            start <= n,
            pos <= n + 1,
            pos <= n ==> forall|k: int| start <= k < pos ==> !is_space(#[trigger] s@[k]),
            start == 0 || is_space(s@[start - 1]),
            texts(out@).no_duplicates(),
            forall|w: Seq<char>|
                texts(out@).contains(w) ==> (texts(old(out)@).contains(w) || is_word_of(w, s@)),
            forall|w: Seq<char>| texts(old(out)@).contains(w) ==> texts(out@).contains(w),
            forall|i: int, j: int|
                word_at(s@, i, j) && j < pos ==> texts(out@).contains(#[trigger] s@.subrange(i, j)),
        decreases n + 1 - pos,
    {
        let at_end = pos == n;
        let boundary = at_end || is_space_char(s.get_char(pos));
        if boundary {
            if start < pos {
                let word = s.substring_char(start, pos).to_owned();
                proof {
                    assert(word_at(s@, start as int, pos as int));
                }
                let ghost before = out@;
                if !contains_text(out, &word) {
                    out.push(word);
                    proof {
                        assert(texts(out@) =~= texts(before).push(word@));
                        assert forall|i: int, j: int|
                            0 <= i < texts(out@).len() && 0 <= j < texts(out@).len() && i != j
                            implies texts(out@)[i] != texts(out@)[j] by {
                            if i < before.len() && j < before.len() {
                                assert(texts(before)[i] != texts(before)[j]);
                            } else if i < before.len() {
                                assert(texts(before)[i] == texts(out@)[i]);
                            } else {
                                assert(texts(before)[j] == texts(out@)[j]);
                            }
                        }
                    }
                }
                proof {
                    assert forall|w: Seq<char>| texts(out@).contains(w) implies (texts(
                        old(out)@,
                    ).contains(w) || is_word_of(w, s@)) by {
                        if w == word@ {
                            assert(word_at(s@, start as int, pos as int) && w == s@.subrange(
                                start as int,
                                pos as int,
                            ));
                        } else {
                            let k = choose|k: int| 0 <= k < texts(out@).len() && texts(out@)[k] == w;
                            assert(k < before.len());
                            assert(texts(before)[k] == w);
                        }
                    }
                    assert forall|w: Seq<char>| texts(old(out)@).contains(w) implies texts(
                        out@,
                    ).contains(w) by {
                        let k = choose|k: int| 0 <= k < texts(before).len() && texts(before)[k] == w;
                        assert(texts(out@)[k] == w);
                    }
                    assert(texts(out@).contains(word@)) by {
                        if texts(before).contains(word@) {
                            let k = choose|k: int|
                                0 <= k < texts(before).len() && texts(before)[k] == word@;
                            assert(texts(out@)[k] == word@);
                        } else {
                            assert(texts(out@)[before.len() as int] == word@);
                        }
                    }
                    assert forall|i: int, j: int|
                        word_at(s@, i, j) && j < pos + 1 implies texts(out@).contains(
                        #[trigger] s@.subrange(i, j),
                    ) by {
                        if j < pos {
                            let k = choose|k: int|
                                0 <= k < texts(before).len() && texts(before)[k] == s@.subrange(
                                    i,
                                    j,
                                );
                            assert(texts(out@)[k] == s@.subrange(i, j));
                        } else {
                            if i < start {
                                assert(!is_space(s@[start - 1]));
                            }
                            if start < i {
                                assert(!is_space(s@[i - 1]));
                            }
                        }
                    }
                }
            } else {
                proof {
                    assert forall|i: int, j: int|
                        word_at(s@, i, j) && j < pos + 1 implies texts(out@).contains(
                        #[trigger] s@.subrange(i, j),
                    ) by {
                        if j == pos {
                            assert(!is_space(s@[j - 1]));
                        }
                    }
                }
            }
            if pos == n {
                proof {
                    assert forall|w: Seq<char>|
                        texts(old(out)@).contains(w) || is_word_of(w, s@) implies texts(out@).contains(
                        w,
                    ) by {
                        if is_word_of(w, s@) && !texts(old(out)@).contains(w) {
                            let (i, j) = choose|i: int, j: int|
                                #[trigger] word_at(s@, i, j) && w == s@.subrange(i, j);
                            assert(j < pos + 1);
                        }
                    }
                }
                return;
            }
            start = pos + 1;
        } else {
            proof {
                assert forall|i: int, j: int|
                    word_at(s@, i, j) && j < pos + 1 implies texts(out@).contains(
                    #[trigger] s@.subrange(i, j),
                ) by {
                    if j == pos {
                        assert(is_space(s@[j]));
                    }
                }
            }
        }
        pos = pos + 1;
    }
}

/// `w` is a word of one of the phrases of one of the groups.
pub open spec fn is_reference_token(groups: Seq<Seq<Seq<char>>>, w: Seq<char>) -> bool {
    exists|g: int, p: int|
        0 <= g < groups.len() && 0 <= p < groups[g].len() && #[trigger] is_word_of(
            w,
            groups[g][p],
        )
}

/// The reference token set of one document: every word of every phrase of
/// every group of alternatives, each once.
pub fn reference_tokens(groups: &Vec<Vec<String>>) -> (r: Vec<String>)
    ensures
        texts(r@).no_duplicates(),
        forall|w: Seq<char>| texts(r@).contains(w) <==> is_reference_token(groups.deep_view(), w),
{
    let ghost gs = groups.deep_view();
    let mut out: Vec<String> = Vec::new();
    let mut g: usize = 0;
    while g < groups.len()
        invariant
            gs == groups.deep_view(),
            g <= groups@.len(),
            texts(out@).no_duplicates(),
            forall|w: Seq<char>|
                texts(out@).contains(w) <==> exists|h: int, p: int|
                    0 <= h < g && 0 <= p < gs[h].len() && #[trigger] is_word_of(w, gs[h][p]),
        decreases groups@.len() - g,
    {
        let group = &groups[g];
        let mut p: usize = 0;
        while p < group.len()
            invariant
                gs == groups.deep_view(),
                g < groups@.len(),
                *group == groups@[g as int],
                p <= group@.len(),
                texts(out@).no_duplicates(),
                forall|w: Seq<char>|
                    texts(out@).contains(w) <==> exists|h: int, q: int|
                        ((0 <= h < g && 0 <= q < gs[h].len()) || (h == g && 0 <= q < p))
                            && #[trigger] is_word_of(w, gs[h][q]),
            decreases group@.len() - p,
        {
            let ghost before = out@;
            add_words(&group[p], &mut out);
            proof {
                assert(gs[g as int][p as int] == group@[p as int]@);
                assert forall|w: Seq<char>| #[trigger] texts(out@).contains(w) implies exists|h: int, q: int|
                    ((0 <= h < g && 0 <= q < gs[h].len()) || (h == g && 0 <= q < p + 1))
                        && #[trigger] is_word_of(w, gs[h][q]) by {
                    if texts(before).contains(w) {
                        let (h, q) = choose|h: int, q: int|
                            ((0 <= h < g && 0 <= q < gs[h].len()) || (h == g && 0 <= q < p))
                                && #[trigger] is_word_of(w, gs[h][q]);
                        assert(is_word_of(w, gs[h][q]));
                    } else {
                        assert(is_word_of(w, group@[p as int]@));
                        assert(is_word_of(w, gs[g as int][p as int]));
                    }
                }
                assert forall|w: Seq<char>| (exists|h: int, q: int|
                    ((0 <= h < g && 0 <= q < gs[h].len()) || (h == g && 0 <= q < p + 1))
                        && #[trigger] is_word_of(w, gs[h][q])) implies #[trigger] texts(out@).contains(w) by {
                    let (h, q) = choose|h: int, q: int|
                        ((0 <= h < g && 0 <= q < gs[h].len()) || (h == g && 0 <= q < p + 1))
                            && #[trigger] is_word_of(w, gs[h][q]);
                    if h == g && q == p {
                        assert(is_word_of(w, group@[p as int]@));
                    } else {
                        assert(texts(before).contains(w));
                    }
                }
            }
            p = p + 1;
        }
        proof {
            assert forall|w: Seq<char>| texts(out@).contains(w) <==> exists|h: int, q: int|
                0 <= h < g + 1 && 0 <= q < gs[h].len() && #[trigger] is_word_of(w, gs[h][q]) by {
                if exists|h: int, q: int|
                    0 <= h < g + 1 && 0 <= q < gs[h].len() && #[trigger] is_word_of(w, gs[h][q]) {
                    let (h, q) = choose|h: int, q: int|
                        0 <= h < g + 1 && 0 <= q < gs[h].len() && #[trigger] is_word_of(w, gs[h][q]);
                    assert((0 <= h < g && 0 <= q < gs[h].len()) || (h == g && 0 <= q < p));
                }
            }
        }
        g = g + 1;
    }
    out
}

/// The reference keyphrases of a set of documents: under each key, the groups
/// of alternative phrases recorded for the document of that key.
pub struct HulthDocumentKeywords {
    keys: Vec<String>,
    groups: Vec<Vec<Vec<String>>>,
}

impl View for HulthDocumentKeywords {
    type V = Map<Seq<char>, Seq<Seq<Seq<char>>>>;

    /// The table as a map from key to groups of phrases.
    open spec fn view(&self) -> Map<Seq<char>, Seq<Seq<Seq<char>>>> {
        Map::new(
            |k: Seq<char>| self.key_seq().contains(k),
            |k: Seq<char>| self.groups_at(choose|i: int| 0 <= i < self.key_seq().len() && self.key_seq()[i] == k),
        )
    }
}

impl HulthDocumentKeywords {
    /// One entry per key, each key once.
    pub closed spec fn wf(&self) -> bool {
        &&& self.keys@.len() == self.groups@.len()
        &&& texts(self.keys@).no_duplicates()
    }

    /// The keys, in the order in which they were first inserted.
    pub closed spec fn key_seq(&self) -> Seq<Seq<char>> {
        texts(self.keys@)
    }

    /// The groups recorded under the key at position `i`.
    pub closed spec fn groups_at(&self, i: int) -> Seq<Seq<Seq<char>>> {
        self.groups@[i].deep_view()
    }

    pub fn new() -> (r: HulthDocumentKeywords)
        ensures
            r.wf(),
            r@ == Map::<Seq<char>, Seq<Seq<Seq<char>>>>::empty(),
    {
        let r = HulthDocumentKeywords { keys: Vec::new(), groups: Vec::new() };
        assert(r@ =~= Map::<Seq<char>, Seq<Seq<Seq<char>>>>::empty());
        r
    }

    /// Position of `key`, if it is recorded.
    fn find(&self, key: &String) -> (r: Option<usize>)
        requires
            self.wf(),
        ensures
            r is None ==> !self.key_seq().contains(key@),
            r is Some ==> r->Some_0 < self.key_seq().len() && self.key_seq()[r->Some_0 as int]
                == key@,
    {
        let mut i: usize = 0;
        while i < self.keys.len()
            invariant
                i <= self.keys@.len(),
                forall|k: int| 0 <= k < i ==> self.keys@[k]@ != key@,
            decreases self.keys@.len() - i,
        {
            if self.keys[i] == *key {
                return Some(i);
            }
            i = i + 1;
        }
        assert forall|k: int| 0 <= k < self.key_seq().len() implies self.key_seq()[k] != key@ by {
            assert(self.key_seq()[k] == self.keys@[k]@);
        }
        None
    }

    proof fn lemma_view_at(&self, i: int)
        requires
            self.wf(),
            0 <= i < self.key_seq().len(),
        ensures
            self@.contains_key(self.key_seq()[i]),
            self@[self.key_seq()[i]] == self.groups_at(i),
    {
        let k = self.key_seq()[i];
        let j = choose|j: int| 0 <= j < self.key_seq().len() && self.key_seq()[j] == k;
        assert(j == i);
    }

    /// Records `groups` under `key`, in place of what was recorded there.
    pub fn insert(&mut self, key: String, groups: Vec<Vec<String>>)
        requires
            old(self).wf(),
        ensures
            final(self).wf(),
            final(self)@ == old(self)@.insert(key@, groups.deep_view()),
    {
        let ghost k = key@;
        let ghost g = groups.deep_view();
        let ghost before = *self;
        match self.find(&key) {
            Some(i) => {
                self.groups.set(i, groups);
                proof {
                    assert(self.key_seq() == before.key_seq());
                    assert forall|j: int| 0 <= j < self.key_seq().len() && j != i implies
                        self.groups_at(j) == before.groups_at(j) by {}
                    assert forall|kk: Seq<char>| #[trigger] self@.contains_key(kk) implies
                        self@[kk] == before@.insert(k, g)[kk] by {
                        let j = choose|j: int| 0 <= j < self.key_seq().len() && self.key_seq()[j] == kk;
                        self.lemma_view_at(j);
                        before.lemma_view_at(j);
                    }
                    assert(self@ =~= before@.insert(k, g));
                }
            },
            None => {
                self.keys.push(key);
                self.groups.push(groups);
                proof {
                    assert(self.key_seq() =~= before.key_seq().push(k));
                    assert forall|a: int, b: int|
                        0 <= a < self.key_seq().len() && 0 <= b < self.key_seq().len() && a != b
                        implies self.key_seq()[a] != self.key_seq()[b] by {
                        if a < before.key_seq().len() && b < before.key_seq().len() {
                            assert(before.key_seq()[a] != before.key_seq()[b]);
                        }
                    }
                    assert forall|j: int| 0 <= j < before.key_seq().len() implies
                        self.groups_at(j) == before.groups_at(j) by {}
                    let n = before.key_seq().len() as int;
                    assert(self.groups_at(n) == g);
                    assert forall|kk: Seq<char>| #[trigger] self@.contains_key(kk) implies
                        self@[kk] == before@.insert(k, g)[kk] by {
                        let j = choose|j: int| 0 <= j < self.key_seq().len() && self.key_seq()[j] == kk;
                        self.lemma_view_at(j);
                        if j < n {
                            before.lemma_view_at(j);
                        }
                    }
                    assert forall|kk: Seq<char>| #[trigger] before@.insert(k, g).contains_key(kk)
                        implies self@.contains_key(kk) by {
                        if kk != k {
                            let j = choose|j: int| 0 <= j < before.key_seq().len() && before.key_seq()[j] == kk;
                            assert(self.key_seq()[j] == kk);
                        } else {
                            assert(self.key_seq()[n] == kk);
                        }
                    }
                    assert(self@ =~= before@.insert(k, g));
                }
            },
        }
    }

    /// The groups recorded under `key`, if any.
    pub fn get(&self, key: &String) -> (r: Option<&Vec<Vec<String>>>)
        requires
            self.wf(),
        ensures
            r is Some <==> self@.contains_key(key@),
            r is Some ==> r->Some_0.deep_view() == self@[key@],
    {
        match self.find(key) {
            Some(i) => {
                proof {
                    self.lemma_view_at(i as int);
                }
                Some(&self.groups[i])
            },
            None => None,
        }
    }
}

} // verus!
