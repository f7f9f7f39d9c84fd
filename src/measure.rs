use vstd::prelude::*;

use crate::ranking::RankedTerm;

verus! {

/// A non-negative fraction `num / den`, held exactly.
#[derive(Clone, Copy, Debug, PartialEq, Eq, Structural)]
pub struct Ratio {
    pub num: u128,
    pub den: u128,
}

/// A fraction over the integers, as (numerator, denominator).
pub type Frac = (int, int);

pub open spec fn frac(r: Ratio) -> Frac {
    (r.num as int, r.den as int)
}

pub open spec fn frac_add(a: Frac, b: Frac) -> Frac {
    (a.0 * b.1 + b.0 * a.1, a.1 * b.1)
}

pub open spec fn frac_mul(a: Frac, b: Frac) -> Frac {
    (a.0 * b.0, a.1 * b.1)
}

pub open spec fn frac_div(a: Frac, b: Frac) -> Frac {
    (a.0 * b.1, a.1 * b.0)
}

/// Two fractions with non-zero denominators stand for the same number.
pub open spec fn same_value(a: Frac, b: Frac) -> bool {
    a.0 * b.1 == b.0 * a.1
}

impl Ratio {
    /// A value in `[0, 1]`.
    pub open spec fn is_unit(self) -> bool {
        self.den > 0 && self.num <= self.den
    }

    pub open spec fn is_zero(self) -> bool {
        self.num == 0
    }

    pub fn new(num: u128, den: u128) -> (r: Ratio)
        ensures
            r.num == num,
            r.den == den,
    {
        Ratio { num, den }
    }
}

/// The F1 measure of a precision and a recall, unreduced: zero where either
/// is zero, else `2pr / (p + r)` written over the two fractions.
pub open spec fn f1_frac(p: Ratio, r: Ratio) -> Frac {
    if p.num == 0 || r.num == 0 {
        (0, 1)
    } else {
        (2 * (p.num * r.num), p.num * r.den + r.num * p.den)
    }
}

/// A fraction with a positive denominator whose value lies in `[0, 1]`.
pub open spec fn frac_is_unit(f: Frac) -> bool {
    f.1 > 0 && 0 <= f.0 <= f.1
}

/// The sum of cross products that `f1_frac` takes as its denominator fits.
pub open spec fn f1_fits(p: Ratio, r: Ratio) -> bool {
    p.num * r.den + r.num * p.den <= u128::MAX
}

proof fn lemma_f1_bounds(p: Ratio, r: Ratio)
    requires
        p.is_unit(),
        r.is_unit(),
        p.num > 0,
        r.num > 0,
    ensures
        2 * (p.num * r.num) <= p.num * r.den + r.num * p.den,
        p.num * r.den + r.num * p.den > 0,
{
    assert(p.num * r.num <= p.num * r.den) by (nonlinear_arith)
        requires
            r.num <= r.den,
            p.num > 0,
    ;
    assert(p.num * r.num <= r.num * p.den) by (nonlinear_arith)
        requires
            p.num <= p.den,
            r.num > 0,
    ;
    assert(p.num * r.den > 0) by (nonlinear_arith)
        requires
            p.num > 0,
            r.den > 0,
    ;
}

/// The harmonic mean of a precision and a recall, zero where either is zero.
pub fn f1(precision: Ratio, recall: Ratio) -> (r: Ratio)
    requires
        precision.is_unit(),
        recall.is_unit(),
        f1_fits(precision, recall),
    ensures
        frac(r) == f1_frac(precision, recall),
        r.is_unit(),
{
    if precision.num == 0 || recall.num == 0 {
        return Ratio { num: 0, den: 1 };
    }
    proof {
        lemma_f1_bounds(precision, recall);
    }
    let den = precision.num * recall.den + recall.num * precision.den;
    let num = precision.num * recall.num * 2;
    Ratio { num, den }
}

/// F1 is zero whenever the precision or the recall is zero.
pub proof fn lemma_f1_zero(p: Ratio, r: Ratio)
    requires
        p.is_unit(),
        r.is_unit(),
        p.is_zero() || r.is_zero(),
    ensures
        f1_frac(p, r).0 == 0,
        frac_is_unit(f1_frac(p, r)),
{
}

/// For a precision and a recall in `(0, 1]`, F1 is `2pr / (p + r)`, and it
/// does not depend on which of the two is the precision.
pub proof fn lemma_f1_harmonic(p: Ratio, r: Ratio)
    requires
        p.is_unit(),
        r.is_unit(),
        !p.is_zero(),
        !r.is_zero(),
        f1_fits(p, r),
    ensures
        same_value(
            f1_frac(p, r),
            frac_div(frac_mul((2, 1), frac_mul(frac(p), frac(r))), frac_add(frac(p), frac(r))),
        ),
        f1_frac(p, r) == f1_frac(r, p),
        frac_is_unit(f1_frac(p, r)),
{
    lemma_f1_bounds(p, r);
    let a = p.num as int;
    let b = p.den as int;
    let c = r.num as int;
    let d = r.den as int;
    assert((2 * (a * c)) * ((1 * (b * d)) * (a * d + c * b)) == ((2 * (a * c)) * (b * d)) * (a
        * d + c * b)) by (nonlinear_arith);
    assert(c * a == a * c) by (nonlinear_arith);
    assert(c * b + a * d == a * d + c * b);
}

/// The text of each string.
pub open spec fn texts(v: Seq<String>) -> Seq<Seq<char>> {
    v.map_values(|s: String| s@)
}

/// The term of each ranked entry.
pub open spec fn terms_of(v: Seq<RankedTerm>) -> Seq<Seq<char>> {
    v.map_values(|t: RankedTerm| t.term@)
}

/// How many entries of `ranked` occur in `reference`.
pub open spec fn count_relevant(ranked: Seq<Seq<char>>, reference: Set<Seq<char>>) -> nat
    decreases ranked.len(),
{
    if ranked.len() == 0 {
        0
    } else {
        count_relevant(ranked.drop_last(), reference) + if reference.contains(ranked.last()) {
            1nat
        } else {
            0nat
        }
    }
}

/// Why a document could not be evaluated.
#[derive(Debug)]
pub enum EvalError {
    /// The ranking holds no term.
    EmptyRanking,
    /// The reference set holds no token.
    EmptyReference,
    /// No reference set is recorded under this key.
    MissingReference(String),
}

/// The measures of one document.
#[derive(Clone, Copy, Debug, PartialEq, Eq, Structural)]
pub struct Measures {
    pub precision: Ratio,
    pub recall: Ratio,
    pub f1: Ratio,
}

/// The measures of a ranking of `n_ranked` terms of which `relevant` are in a
/// reference set of `n_reference` tokens.
pub open spec fn measures_of(relevant: nat, n_ranked: nat, n_reference: nat) -> Measures {
    Measures {
        precision: Ratio { num: relevant as u128, den: n_ranked as u128 },
        recall: Ratio { num: relevant as u128, den: n_reference as u128 },
        f1: if relevant == 0 {
            Ratio { num: 0, den: 1 }
        } else {
            Ratio { num: (2 * relevant) as u128, den: (n_ranked + n_reference) as u128 }
        },
    }
}

/// Whether `t` is one of the strings of `v`.
pub fn contains_text(v: &Vec<String>, t: &String) -> (r: bool)
    ensures
        r == texts(v@).contains(t@),
{
    let mut j: usize = 0;
    while j < v.len()
        invariant
            j <= v@.len(),
            forall|k: int| 0 <= k < j ==> v@[k]@ != t@,
        decreases v@.len() - j,
    {
        if v[j] == *t {
            assert(texts(v@)[j as int] == t@);
            return true;
        }
        j = j + 1;
    }
    assert forall|k: int| 0 <= k < texts(v@).len() implies texts(v@)[k] != t@ by {
        assert(texts(v@)[k] == v@[k]@);
    }
    false
}

proof fn lemma_count_is_overlap(s: Seq<Seq<char>>, reference: Set<Seq<char>>)
    requires
        s.no_duplicates(),
    ensures
        count_relevant(s, reference) == s.to_set().intersect(reference).len(),
        s.to_set().intersect(reference).finite(),
    decreases s.len(),
{
    broadcast use vstd::set::group_set_axioms, vstd::seq_lib::seq_to_set_is_finite;

    if s.len() == 0 {
        assert(s.to_set().intersect(reference) =~= Set::empty());
    } else {
        let t = s.drop_last();
        let x = s.last();
        assert(s =~= t.push(x));
        assert(t.no_duplicates()) by {
            assert forall|i: int, j: int| 0 <= i < t.len() && 0 <= j < t.len() && i != j implies t[i]
                != t[j] by {
                assert(t[i] == s[i] && t[j] == s[j]);
            }
        }
        lemma_count_is_overlap(t, reference);
        t.lemma_push_to_set_commute(x);
        assert(!t.to_set().contains(x)) by {
            if t.contains(x) {
                let i = choose|i: int| 0 <= i < t.len() && t[i] == x;
                assert(s[i] == s[s.len() - 1]);
            }
        }
        let before = t.to_set().intersect(reference);
        if reference.contains(x) {
            assert(s.to_set().intersect(reference) =~= before.insert(x));
        } else {
            assert(s.to_set().intersect(reference) =~= before);
        }
    }
}

/// Of a ranking without repeated terms, no more terms are relevant than the
/// reference holds.
proof fn lemma_count_within_reference(s: Seq<Seq<char>>, reference: Seq<Seq<char>>)
    requires
        s.no_duplicates(),
    ensures
        count_relevant(s, reference.to_set()) <= reference.len(),
{
    broadcast use vstd::seq_lib::seq_to_set_is_finite;

    lemma_count_is_overlap(s, reference.to_set());
    vstd::set_lib::lemma_len_subset(s.to_set().intersect(reference.to_set()), reference.to_set());
    reference.lemma_cardinality_of_set();
}

/// Precision, recall and F1 of a full ranking against a reference token set:
/// the relevant terms are the entries of the ranking whose term is in the
/// reference; precision divides their number by the ranking's length, recall
/// by the reference's size.
pub fn evaluate(ranked: &Vec<RankedTerm>, reference: &Vec<String>) -> (r: Result<
    Measures,
    EvalError,
>)
    ensures
        ranked@.len() == 0 ==> r == Err::<Measures, EvalError>(EvalError::EmptyRanking),
        ranked@.len() > 0 && reference@.len() == 0 ==> r == Err::<Measures, EvalError>(
            EvalError::EmptyReference,
        ),
        ranked@.len() > 0 && reference@.len() > 0 ==> r == Ok::<Measures, EvalError>(
            measures_of(
                count_relevant(terms_of(ranked@), texts(reference@).to_set()),
                ranked@.len(),
                reference@.len(),
            ),
        ),
        r is Ok ==> r->Ok_0.precision.is_unit(),
        r is Ok ==> same_value(
            frac(r->Ok_0.f1),
            f1_frac(r->Ok_0.precision, r->Ok_0.recall),
        ),
        r is Ok && terms_of(ranked@).no_duplicates() ==> r->Ok_0.recall.is_unit()
            && r->Ok_0.f1.is_unit(),
{
    if ranked.len() == 0 {
        return Err(EvalError::EmptyRanking);
    }
    if reference.len() == 0 {
        return Err(EvalError::EmptyReference);
    }
    let mut relevant: u128 = 0;
    let mut i: usize = 0;
    while i < ranked.len()
        invariant
            i <= ranked@.len(),
            relevant == count_relevant(terms_of(ranked@).take(i as int), texts(reference@).to_set()),
            relevant <= i,
        decreases ranked@.len() - i,
    {
        let ghost prefix = terms_of(ranked@).take(i as int);
        assert(terms_of(ranked@).take(i + 1).drop_last() =~= prefix);
        if contains_text(reference, &ranked[i].term) {
            relevant = relevant + 1;
        }
        i = i + 1;
    }
    assert(terms_of(ranked@).take(i as int) =~= terms_of(ranked@));
    let n_ranked = ranked.len() as u128;
    let n_reference = reference.len() as u128;
    let precision = Ratio { num: relevant, den: n_ranked };
    let recall = Ratio { num: relevant, den: n_reference };
    let f1 = if relevant == 0 {
        Ratio { num: 0, den: 1 }
    } else {
        Ratio { num: 2 * relevant, den: n_ranked + n_reference }
    };
    let m = Measures { precision, recall, f1 };
    proof {
        let ghost c = relevant as int;
        let ghost a = n_ranked as int;
        let ghost b = n_reference as int;
        if relevant > 0 {
            assert((2 * c) * (c * b + c * a) == (2 * (c * c)) * (a + b)) by (nonlinear_arith);
        }
        if terms_of(ranked@).no_duplicates() {
            lemma_count_within_reference(terms_of(ranked@), texts(reference@));
        }
    }
    Ok(m)
}

} // verus!
