use vstd::multiset::Multiset;
use vstd::prelude::*;

verus! {

/// Bit pattern of the sign of an IEEE 754 double.
pub const SIGN_BIT: u64 = 0x8000_0000_0000_0000;

/// Bit pattern of a positive infinity: every larger magnitude is a NaN.
pub const INFINITY_BITS: u64 = 0x7FF0_0000_0000_0000;

/// A term score, held as the bit pattern of an IEEE 754 double.
///
/// Holding the bits keeps the value exact, NaN included, and lets the order
/// of scores be stated over integers.
#[derive(Clone, Copy, Debug, PartialEq, Eq, Structural)]
pub struct Score {
    pub bits: u64,
}

impl Score {
    /// Whether the sign bit is set.
    pub open spec fn negative(self) -> bool {
        self.bits >= SIGN_BIT
    }

    /// The bits without the sign: the magnitude in IEEE order.
    pub open spec fn magnitude(self) -> int {
        if self.negative() {
            self.bits - SIGN_BIT
        } else {
            self.bits as int
        }
    }

    /// Exponent all ones and a non-zero fraction.
    pub open spec fn is_nan(self) -> bool {
        self.magnitude() > INFINITY_BITS
    }

    pub open spec fn is_zero(self) -> bool {
        self.magnitude() == 0
    }

    /// The IEEE `<` on two scores that are not NaN: zeros of either sign are
    /// equal, and magnitudes order as their bit patterns do.
    pub open spec fn float_lt(self, other: Score) -> bool {
        if self.is_zero() && other.is_zero() {
            false
        } else if self.negative() && other.negative() {
            self.magnitude() > other.magnitude()
        } else if self.negative() {
            true
        } else if other.negative() {
            false
        } else {
            self.magnitude() < other.magnitude()
        }
    }

    /// An integer that orders scores as the ranking does: by value, with NaN
    /// below every other score.
    pub open spec fn key(self) -> int {
        if self.is_nan() {
            -(SIGN_BIT as int)
        } else if self.negative() {
            -self.magnitude()
        } else {
            self.magnitude()
        }
    }

    pub fn from_bits(bits: u64) -> (r: Score)
        ensures
            r.bits == bits,
    {
        Score { bits }
    }

    pub fn to_bits(&self) -> (r: u64)
        ensures
            r == self.bits,
    {
        self.bits
    }

    pub fn is_nan_score(&self) -> (r: bool)
        ensures
            r == self.is_nan(),
    {
        self.magnitude_exec() > INFINITY_BITS
    }

    fn magnitude_exec(&self) -> (r: u64)
        ensures
            r as int == self.magnitude(),
    {
        if self.bits >= SIGN_BIT {
            self.bits - SIGN_BIT
        } else {
            self.bits
        }
    }

    fn order_key(&self) -> (r: i64)
        ensures
            r as int == self.key(),
    {
        let m = self.magnitude_exec();
        if m > INFINITY_BITS {
            i64::MIN
        } else if self.bits >= SIGN_BIT {
            -(m as i64)
        } else {
            m as i64
        }
    }
}

/// The key orders scores that are not NaN exactly as the IEEE `<` does.
pub proof fn lemma_key_orders_values(a: Score, b: Score)
    requires
        !a.is_nan(),
        !b.is_nan(),
    ensures
        a.float_lt(b) <==> a.key() < b.key(),
{
}

/// The comparison that orders scores from the highest down, NaN last:
/// `Less` when `a` goes first, `Greater` when `b` does.
pub fn cmp_score(a: Score, b: Score) -> (r: std::cmp::Ordering)
    ensures
        (r == std::cmp::Ordering::Less) <==> a.key() > b.key(),
        (r == std::cmp::Ordering::Greater) <==> a.key() < b.key(),
        (r == std::cmp::Ordering::Equal) <==> a.key() == b.key(),
        !a.is_nan() && !b.is_nan() ==> ((r == std::cmp::Ordering::Less) <==> b.float_lt(a)),
        !a.is_nan() && !b.is_nan() ==> ((r == std::cmp::Ordering::Greater) <==> a.float_lt(b)),
        a.is_nan() && !b.is_nan() ==> r == std::cmp::Ordering::Greater,
        !a.is_nan() && b.is_nan() ==> r == std::cmp::Ordering::Less,
{
    let ka = a.order_key();
    let kb = b.order_key();
    if ka > kb {
        std::cmp::Ordering::Less
    } else if ka < kb {
        std::cmp::Ordering::Greater
    } else {
        std::cmp::Ordering::Equal
    }
}

/// A term with its score.
#[derive(Debug)]
pub struct RankedTerm {
    pub term: String,
    pub score: Score,
}

impl RankedTerm {
    pub fn new(term: String, score: Score) -> (r: RankedTerm)
        ensures
            r.term == term,
            r.score == score,
    {
        RankedTerm { term, score }
    }
}

/// Scores from the highest down, ties in any order.
pub open spec fn ordered_by_key(s: Seq<RankedTerm>) -> bool {
    forall|i: int, j: int| 0 <= i < j < s.len() ==> s[i].score.key() >= s[j].score.key()
}

/// Orders scored terms from the highest score down, with every NaN score after
/// all the others. The result holds the same entries, each once.
pub fn rank(terms: Vec<RankedTerm>) -> (r: Vec<RankedTerm>)
    ensures
        r@.to_multiset() == terms@.to_multiset(),
        r@.len() == terms@.len(),
        forall|i: int, j: int|
            0 <= i < j < r@.len() && !r@[i].score.is_nan() && !r@[j].score.is_nan()
                ==> !r@[i].score.float_lt(r@[j].score),
        forall|i: int, j: int| 0 <= i < j < r@.len() && r@[i].score.is_nan() ==> r@[j].score.is_nan(),
{
    broadcast use vstd::seq_lib::group_to_multiset_ensures;

    let mut rest = terms;
    let mut out: Vec<RankedTerm> = Vec::new();
    while rest.len() > 0
        invariant
            ordered_by_key(out@),
            out@.to_multiset().add(rest@.to_multiset()) == terms@.to_multiset(),
        decreases rest@.len(),
    {
        let ghost before = rest@;
        let item = rest.pop().unwrap();
        proof {
            assert(before =~= rest@.push(item));
            vstd::seq_lib::to_multiset_build(rest@, item);
        }
        let k = item.score.order_key();
        let mut pos: usize = 0;
        while pos < out.len() && out[pos].score.order_key() >= k
            invariant
                pos <= out@.len(),
                forall|i: int| 0 <= i < pos ==> out@[i].score.key() >= k,
            decreases out@.len() - pos,
        {
            pos = pos + 1;
        }
        let ghost prev = out@;
        out.insert(pos, item);
        proof {
            vstd::seq_lib::to_multiset_insert(prev, pos as int, item);
            assert forall|i: int, j: int| 0 <= i < j < out@.len() implies out@[i].score.key()
                >= out@[j].score.key() by {
                if j < pos {
                } else if j == pos {
                } else if i < pos {
                    assert(out@[i] == prev[i]);
                    assert(out@[j] == prev[j - 1]);
                    if pos < prev.len() {
                        assert(prev[pos as int].score.key() < k);
                        assert(prev[i].score.key() >= k);
                    }
                } else if i == pos {
                    assert(prev[pos as int].score.key() < k);
                } else {
                    assert(out@[i] == prev[i - 1]);
                }
            }
        }
    }
    proof {
        assert(rest@ =~= Seq::<RankedTerm>::empty());
        assert(rest@.to_multiset() =~= Multiset::empty());
        assert(out@.to_multiset().add(Multiset::empty()) =~= out@.to_multiset());
        assert forall|i: int, j: int|
            0 <= i < j < out@.len() && !out@[i].score.is_nan() && !out@[j].score.is_nan()
            implies !out@[i].score.float_lt(out@[j].score) by {
            lemma_key_orders_values(out@[i].score, out@[j].score);
        }
        vstd::seq_lib::to_multiset_len(out@);
        vstd::seq_lib::to_multiset_len(terms@);
    }
    out
}

} // verus!
