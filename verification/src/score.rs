//! Scores as exact fractions, and the order in which they rank.

use vstd::prelude::*;

verus! {

/// A score: the fraction `num / den`, kept as it was counted and never
/// reduced. A zero numerator is the score 0 whatever stands below it, and a
/// zero denominator under a positive numerator is a score above every finite
/// one.
#[derive(Clone, Copy, Debug, PartialEq, Eq)]
pub struct Score {
    /// What was counted.
    pub num: u64,
    /// Out of how many.
    pub den: u64,
}

impl Score {
    /// The denominator by which the score is compared: that of 0 is 1.
    pub open spec fn scale(self) -> int {
        if self.num == 0 {
            1
        } else {
            self.den as int
        }
    }

    /// `self` is a strictly higher score than `other`.
    pub open spec fn above(self, other: Score) -> bool {
        self.num * other.scale() > other.num * self.scale()
    }

    /// Neither score is above the other: they are the same fraction.
    pub open spec fn level_with(self, other: Score) -> bool {
        !self.above(other) && !other.above(self)
    }

    /// The score lies between 0 and 1, both included.
    pub open spec fn within_unit(self) -> bool {
        self.num <= self.scale()
    }

    /// The score 0.
    pub open spec fn nil() -> Score {
        Score { num: 0, den: 1 }
    }

    /// The share `count / total`, and 0 where there is nothing to take a share of.
    pub open spec fn share(count: nat, total: nat) -> Score {
        if total == 0 {
            Score::nil()
        } else {
            Score { num: count as u64, den: total as u64 }
        }
    }

    /// The score 0.
    pub fn zero() -> (s: Score)
        ensures
            s == Score::nil(),
    {
        Score { num: 0, den: 1 }
    }

    /// The fraction `num / den`.
    pub fn new(num: u64, den: u64) -> (s: Score)
        ensures
            s == (Score { num, den }),
    {
        Score { num, den }
    }

    /// The share `count / total`, and 0 where `total` is 0.
    pub fn ratio(count: u64, total: u64) -> (s: Score)
        ensures
            s == Score::share(count as nat, total as nat),
    {
        if total == 0 {
            Score { num: 0, den: 1 }
        } else {
            Score { num: count, den: total }
        }
    }

    /// The numerator as it was counted.
    pub fn numerator(&self) -> (n: u64)
        ensures
            n == self.num,
    {
        self.num
    }

    /// The denominator as it was counted.
    pub fn denominator(&self) -> (d: u64)
        ensures
            d == self.den,
    {
        self.den
    }

    /// Whether `self` is a strictly higher score than `other`.
    pub fn exceeds(&self, other: &Score) -> (higher: bool)
        ensures
            higher == self.above(*other),
    {
        let own: u64 = if self.num == 0 { 1 } else { self.den };
        let others: u64 = if other.num == 0 { 1 } else { other.den };
        proof {
            lemma_product_fits(self.num, others);
            lemma_product_fits(other.num, own);
        }
        let left: u128 = (self.num as u128) * (others as u128);
        let right: u128 = (other.num as u128) * (own as u128);
        left > right
    }
}

/// The product of two `u64` fits a `u128`.
proof fn lemma_product_fits(x: u64, y: u64)
    ensures
        x * y <= u128::MAX,
{
    assert(x * y <= 0xffff_ffff_ffff_ffff * 0xffff_ffff_ffff_ffff) by (nonlinear_arith)
        requires
            x <= 0xffff_ffff_ffff_ffff,
            y <= 0xffff_ffff_ffff_ffff,
    ;
}

/// No score is above itself.
pub proof fn lemma_above_irreflexive(a: Score)
    ensures
        !a.above(a),
{
}

/// Whatever lies between: if `a` is above `c`, then `a` is above `b` or `b` is
/// above `c`.
pub proof fn lemma_above_cotransitive(a: Score, b: Score, c: Score)
    ensures
        a.above(c) ==> a.above(b) || b.above(c),
{
    let (an, ad) = (a.num as int, a.scale());
    let (bn, bd) = (b.num as int, b.scale());
    let (cn, cd) = (c.num as int, c.scale());
    if !a.above(b) && !b.above(c) {
        if bd > 0 {
            assert(an * cd <= cn * ad) by (nonlinear_arith)
                requires
                    an * bd <= bn * ad,
                    bn * cd <= cn * bd,
                    bd > 0,
                    an >= 0,
                    bn >= 0,
                    cn >= 0,
                    ad >= 0,
                    cd >= 0,
            {
                assert(an * bd * cd <= bn * ad * cd);
                assert(bn * cd * ad <= cn * bd * ad);
                assert(bd * (an * cd) <= bd * (cn * ad));
            }
        } else {
            assert(bn > 0);
            assert(cd == 0) by (nonlinear_arith)
                requires
                    bn * cd <= cn * bd,
                    bd == 0,
                    bn > 0,
                    cd >= 0,
            ;
            assert(an * cd == 0) by (nonlinear_arith)
                requires
                    cd == 0,
            ;
            assert(cn * ad >= 0) by (nonlinear_arith)
                requires
                    cn >= 0,
                    ad >= 0,
            ;
        }
    }
}

/// The order of scores is transitive.
pub proof fn lemma_above_transitive(a: Score, b: Score, c: Score)
    requires
        a.above(b),
        b.above(c),
    ensures
        a.above(c),
{
    lemma_above_cotransitive(a, c, b);
    lemma_above_cotransitive(b, a, c);
    lemma_above_asymmetric(a, b);
    lemma_above_asymmetric(b, c);
}

/// Of two scores at most one is above the other.
pub proof fn lemma_above_asymmetric(a: Score, b: Score)
    ensures
        !(a.above(b) && b.above(a)),
{
}

/// The score at `chosen` is the first of the highest: none is above it, and
/// it is above all that come before it.
pub open spec fn first_highest(scores: Seq<Score>, chosen: int) -> bool {
    &&& 0 <= chosen < scores.len()
    &&& forall|t: int| 0 <= t < scores.len() ==> !(#[trigger] scores[t]).above(scores[chosen])
    &&& forall|t: int| 0 <= t < chosen ==> scores[chosen].above(#[trigger] scores[t])
}

/// One score only is the first of the highest.
pub proof fn lemma_first_highest_is_unique(scores: Seq<Score>, chosen: int, other: int)
    requires
        first_highest(scores, chosen),
        first_highest(scores, other),
    ensures
        chosen == other,
{
    if chosen < other {
        assert(scores[other].above(scores[chosen]));
    } else if other < chosen {
        assert(scores[chosen].above(scores[other]));
    }
}

/// The score 0 is above none.
pub proof fn lemma_nil_is_lowest(a: Score)
    ensures
        !Score::nil().above(a),
{
    assert(0 * a.scale() == 0) by (nonlinear_arith);
    assert(a.num * 1 >= 0) by (nonlinear_arith)
        requires
            a.num >= 0,
    ;
}

} // verus!
