//! Criteria that rate how much a byte sequence looks like text.

use vstd::prelude::*;
use crate::score::Score;

verus! {

/// A way to score a byte sequence: the higher the score, the more plausible
/// the bytes.
pub trait BytesCriterion {
    /// Whether `s` is a score that the criterion may give `bytes`. A criterion
    /// that says nothing of itself may give any score; one that is a function
    /// of the bytes admits that function's value alone.
    open spec fn admits(&self, bytes: Seq<u8>, s: Score) -> bool {
        true
    }

    /// Scores `bytes`.
    fn score(&self, bytes: &[u8]) -> (s: Score)
        ensures
            self.admits(bytes@, s),
    ;
}

/// The criterion is a function: it admits one score at most for each byte
/// sequence.
pub open spec fn is_function<C: BytesCriterion>(criterion: C) -> bool {
    forall|bytes: Seq<u8>, s1: Score, s2: Score|
        #![trigger criterion.admits(bytes, s1), criterion.admits(bytes, s2)]
        criterion.admits(bytes, s1) && criterion.admits(bytes, s2) ==> s1 == s2
}

/// A printable ASCII character, the space included.
pub open spec fn is_printable(b: u8) -> bool {
    0x20 <= b <= 0x7e
}

/// A Latin letter, a space, or one of `,` `.` `'` `!` `;` `:`.
pub open spec fn is_text(b: u8) -> bool {
    ||| 0x41 <= b <= 0x5a
    ||| 0x61 <= b <= 0x7a
    ||| b == 0x20
    ||| b == 0x2c
    ||| b == 0x2e
    ||| b == 0x27
    ||| b == 0x21
    ||| b == 0x3b
    ||| b == 0x3a
}

/// The criteria that the library brings along. Each is the share of the bytes
/// that it accepts, and 0 on an empty sequence.
#[derive(Clone, Copy, Debug, PartialEq, Eq)]
pub enum Criterion {
    /// Accepts the printable ASCII characters.
    PrintableBytes,
    /// Accepts the characters of plain prose.
    TextBytes,
    /// Accepts one byte only.
    CommonByte(u8),
}

impl Criterion {
    /// Whether the criterion counts the byte `b`.
    pub open spec fn accepts(self, b: u8) -> bool {
        match self {
            Criterion::PrintableBytes => is_printable(b),
            Criterion::TextBytes => is_text(b),
            Criterion::CommonByte(target) => b == target,
        }
    }

    /// How many of `bytes` the criterion counts.
    pub open spec fn accepted(self, bytes: Seq<u8>) -> nat {
        bytes.filter(|b: u8| self.accepts(b)).len()
    }

    /// The score of `bytes`: the share of the bytes that the criterion counts.
    pub open spec fn rate(self, bytes: Seq<u8>) -> Score {
        Score::share(self.accepted(bytes), bytes.len())
    }

    fn counts(&self, b: u8) -> (yes: bool)
        ensures
            yes == self.accepts(b),
    {
        match self {
            Criterion::PrintableBytes => b >= 0x20 && b <= 0x7e,
            Criterion::TextBytes => {
                (b >= 0x41 && b <= 0x5a) || (b >= 0x61 && b <= 0x7a) || b == 0x20 || b == 0x2c
                    || b == 0x2e || b == 0x27 || b == 0x21 || b == 0x3b || b == 0x3a
            },
            Criterion::CommonByte(target) => b == *target,
        }
    }
}

impl BytesCriterion for Criterion {
    open spec fn admits(&self, bytes: Seq<u8>, s: Score) -> bool {
        s == self.rate(bytes)
    }

    fn score(&self, bytes: &[u8]) -> (s: Score)
        ensures
            s.within_unit(),
            bytes@.len() == 0 ==> s == Score::nil(),
    {
        let mut count: usize = 0;
        let mut i: usize = 0;
        proof {
            reveal(Seq::filter);
            assert(bytes@.take(0) =~= Seq::<u8>::empty());
        }
        while i < bytes.len()
            invariant
                i <= bytes.len(),
                count <= i,
                count == self.accepted(bytes@.take(i as int)),
            decreases bytes.len() - i,
        {
            proof {
                reveal(Seq::filter);
                assert(bytes@.take(i + 1).drop_last() =~= bytes@.take(i as int));
            }
            if self.counts(bytes[i]) {
                count = count + 1;
            }
            i = i + 1;
        }
        proof {
            assert(bytes@.take(i as int) =~= bytes@);
        }
        Score::ratio(count as u64, bytes.len() as u64)
    }
}

/// Each of the criteria that the library brings along is a function of the
/// bytes.
pub proof fn lemma_criterion_is_function(criterion: Criterion)
    ensures
        is_function(criterion),
{
}

/// Each of these criteria gives scores between 0 and 1, and 0 to the empty
/// sequence.
pub proof fn lemma_rate_within_unit(criterion: Criterion, bytes: Seq<u8>)
    requires
        bytes.len() <= u64::MAX,
    ensures
        criterion.rate(bytes).within_unit(),
        bytes.len() == 0 ==> criterion.rate(bytes) == Score::nil(),
{
    bytes.lemma_filter_len(|b: u8| criterion.accepts(b));
}

/// A criterion made of a function or closure that takes every byte sequence.
pub struct FnCriterion<F: Fn(&[u8]) -> Score> {
    function: F,
}

impl<F: Fn(&[u8]) -> Score> FnCriterion<F> {
    #[verifier::type_invariant]
    spec fn takes_all(self) -> bool {
        forall|bytes: &[u8]| call_requires(self.function, (bytes,))
    }

    /// The function that scores.
    pub closed spec fn function(self) -> F {
        self.function
    }

    /// The criterion that scores as `function` does.
    pub fn new(function: F) -> (criterion: FnCriterion<F>)
        requires
            forall|bytes: &[u8]| call_requires(function, (bytes,)),
        ensures
            criterion.function() == function,
    {
        FnCriterion { function }
    }
}

impl<F: Fn(&[u8]) -> Score> BytesCriterion for FnCriterion<F> {
    open spec fn admits(&self, bytes: Seq<u8>, s: Score) -> bool {
        exists|slice: &[u8]| slice@ == bytes && call_ensures(self.function(), (slice,), s)
    }

    fn score(&self, bytes: &[u8]) -> (s: Score) {
        proof {
            use_type_invariant(self);
        }
        (self.function)(bytes)
    }
}

/// The share of printable ASCII characters in `bytes`.
pub fn printable_bytes(bytes: &[u8]) -> (s: Score)
    ensures
        s == Criterion::PrintableBytes.rate(bytes@),
        s.within_unit(),
        bytes@.len() == 0 ==> s == Score::nil(),
{
    Criterion::PrintableBytes.score(bytes)
}

/// The share of prose characters in `bytes`.
pub fn text_bytes(bytes: &[u8]) -> (s: Score)
    ensures
        s == Criterion::TextBytes.rate(bytes@),
        s.within_unit(),
        bytes@.len() == 0 ==> s == Score::nil(),
{
    Criterion::TextBytes.score(bytes)
}

/// The criterion that rates a sequence by its share of the byte `target`.
pub fn make_common_byte(target: u8) -> (c: Criterion)
    ensures
        c == Criterion::CommonByte(target),
{
    Criterion::CommonByte(target)
}

} // verus!
