use vstd::prelude::*;

use crate::keywords::{
    is_reference_token, json_ext, reference_key, reference_tokens, remove_all,
    HulthDocumentKeywords,
};
use crate::measure::{count_relevant, evaluate, measures_of, terms_of, texts, EvalError, Measures};
use crate::ranking::RankedTerm;

verus! {

/// The reference token set of a document whose groups of alternative phrases
/// are `groups`.
pub open spec fn reference_set(groups: Seq<Seq<Seq<char>>>) -> Set<Seq<char>> {
    Set::new(|w: Seq<char>| is_reference_token(groups, w))
}

/// Evaluates the full ranking of the document stored in the file `file_name`
/// against the reference keywords recorded under the file's key. A document
/// without a reference entry is an error that names its key.
pub fn evaluate_document(
    keywords: &HulthDocumentKeywords,
    file_name: &str,
    ranked: &Vec<RankedTerm>,
) -> (r: Result<Measures, EvalError>)
    requires
        keywords.wf(),
    ensures
        ({
            let key = remove_all(file_name@, json_ext());
            !keywords@.contains_key(key) ==> (r is Err && r->Err_0 is MissingReference
                && r->Err_0->MissingReference_0@ == key)
        }),
        ({
            let key = remove_all(file_name@, json_ext());
            let refs = reference_set(keywords@[key]);
            keywords@.contains_key(key) ==> {
                &&& refs.finite()
                &&& ranked@.len() == 0 ==> r == Err::<Measures, EvalError>(
                    EvalError::EmptyRanking,
                )
                &&& ranked@.len() > 0 && refs.len() == 0 ==> r == Err::<Measures, EvalError>(
                    EvalError::EmptyReference,
                )
                &&& ranked@.len() > 0 && refs.len() > 0 ==> r == Ok::<Measures, EvalError>(
                    measures_of(count_relevant(terms_of(ranked@), refs), ranked@.len(), refs.len()),
                )
            }
        }),
{
    let key = reference_key(file_name);
    match keywords.get(&key) {
        None => Err(EvalError::MissingReference(key)),
        Some(groups) => {
            let reference = reference_tokens(groups);
            proof {
                let refs = reference_set(groups.deep_view());
                assert(texts(reference@).to_set() =~= refs);
                texts(reference@).unique_seq_to_set();
            }
            evaluate(ranked, &reference)
        },
    }
}

} // verus!
