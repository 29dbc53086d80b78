//! Estimating the length of a repeating key: every length of a range is
//! scored, and the lengths are ranked by their scores.

use vstd::prelude::*;
use crate::bytes::{bit_distance, hamming_distance, lemma_bit_distance_bound, MAX_BYTES};
use crate::score::{lemma_above_cotransitive, Score};

verus! {

/// A way to score a key length against a ciphertext: the higher the score,
/// the more likely the length.
pub trait KeysizeCriterion {
    /// Whether `s` is a score that the criterion may give the length `size`
    /// for `data`. A criterion that says nothing of itself may give any
    /// score; one that is a function of its arguments admits that function's
    /// value alone.
    open spec fn admits(&self, data: Seq<u8>, size: u32, s: Score) -> bool {
        true
    }

    /// Scores the key length `size` for `data`.
    fn score(&self, data: &[u8], size: u32) -> (s: Score)
        requires
            size >= 1,
            data@.len() <= MAX_BYTES,
        ensures
            self.admits(data@, size, s),
    ;
}

/// The `c`-th chunk of `size` bytes.
pub open spec fn chunk(data: Seq<u8>, size: int, c: int) -> Seq<u8> {
    data.subrange(c * size, (c + 1) * size)
}

/// The number of pairs that the whole chunks of `size` bytes form, each
/// chunk in one pair at most.
pub open spec fn chunk_pairs(len: int, size: int) -> int {
    (len / size) / 2
}

/// The sum of the bit distances within the first `pairs` pairs of chunks:
/// chunk 0 against chunk 1, chunk 2 against chunk 3, and so on.
pub open spec fn pair_distances(data: Seq<u8>, size: int, pairs: int) -> nat
    decreases pairs,
{
    if pairs <= 0 {
        0
    } else {
        pair_distances(data, size, pairs - 1) + bit_distance(
            chunk(data, size, 2 * (pairs - 1)),
            chunk(data, size, 2 * (pairs - 1) + 1),
        )
    }
}

/// The score of the key length `size` by bit distance: the inverse of the
/// mean distance of a pair of chunks, taken per byte of a chunk. That is the
/// bytes of a chunk times the number of pairs, over the sum of the distances.
/// Where the data is too short for one pair the score is 0, the lowest.
pub open spec fn hamming_score(data: Seq<u8>, size: u32) -> Score {
    let pairs = chunk_pairs(data.len() as int, size as int);
    if pairs == 0 {
        Score::nil()
    } else {
        Score { num: (pairs * size) as u64, den: pair_distances(data, size as int, pairs) as u64 }
    }
}

/// The chunks of the pair `p` lie within the data, one behind the other.
proof fn lemma_pair_within(len: int, size: int, p: int)
    requires
        size >= 1,
        0 <= p < chunk_pairs(len, size),
    ensures
        (2 * p + 2) * size <= len,
        2 * p * size + size == (2 * p + 1) * size,
        2 * p * size + size + size == (2 * p + 2) * size,
        (2 * p + 2) * size == 2 * ((p + 1) * size),
{
    let chunks = len / size;
    assert(2 * p + 2 <= chunks);
    assert(chunks * size <= len) by (nonlinear_arith)
        requires
            chunks == len / size,
            size >= 1,
    ;
    assert((2 * p + 2) * size <= chunks * size) by (nonlinear_arith)
        requires
            2 * p + 2 <= chunks,
            size >= 1,
    ;
    assert(2 * p * size + size == (2 * p + 1) * size) by (nonlinear_arith);
    assert(2 * p * size + size + size == (2 * p + 2) * size) by (nonlinear_arith);
    assert((2 * p + 2) * size == 2 * ((p + 1) * size)) by (nonlinear_arith);
}

/// Each pair adds eight bits at most for each byte of a chunk.
proof fn lemma_pair_distances_bound(data: Seq<u8>, size: int, pairs: int)
    requires
        size >= 1,
        0 <= pairs <= chunk_pairs(data.len() as int, size),
    ensures
        pair_distances(data, size, pairs) <= 8 * (pairs * size),
    decreases pairs,
{
    if pairs > 0 {
        let p = pairs - 1;
        lemma_pair_distances_bound(data, size, p);
        lemma_pair_within(data.len() as int, size, p);
        let first = chunk(data, size, 2 * p);
        let second = chunk(data, size, 2 * p + 1);
        assert(0 <= 2 * p * size) by (nonlinear_arith)
            requires
                p >= 0,
                size >= 1,
        ;
        assert(first.len() == size && second.len() == size);
        lemma_bit_distance_bound(first, second);
        assert(pairs * size == p * size + size) by (nonlinear_arith)
            requires
                pairs == p + 1,
        ;
    } else {
        assert(pairs * size == 0) by (nonlinear_arith)
            requires
                pairs == 0,
        ;
    }
}

/// Scores the key length `size` for `input` by the bit distance between
/// neighbouring chunks of that length (see [`hamming_score`]).
pub fn hamming_distance_criterion(input: &[u8], size: u32) -> (s: Score)
    requires
        size >= 1,
        input@.len() <= MAX_BYTES,
    ensures
        s == hamming_score(input@, size),
{
    let width = size as usize;
    let len = input.len();
    let pairs = len / width / 2;
    if pairs == 0 {
        return Score::zero();
    }
    let mut distances_sum: u64 = 0;
    let mut offset: usize = 0;
    let mut p: usize = 0;
    proof {
        assert(0 * (width as int) == 0) by (nonlinear_arith);
    }
    while p < pairs
        invariant
            width == size,
            width >= 1,
            len == input@.len(),
            len <= MAX_BYTES,
            pairs == chunk_pairs(input@.len() as int, width as int),
            p <= pairs,
            offset == 2 * (p * width),
            offset <= input@.len(),
            distances_sum == pair_distances(input@, width as int, p as int),
            distances_sum <= 8 * (p * width),
        decreases pairs - p,
    {
        proof {
            lemma_pair_within(input@.len() as int, width as int, p as int);
            lemma_pair_distances_bound(input@, width as int, p + 1);
            assert(2 * (p * width) == 2 * p * width) by (nonlinear_arith);
        }
        let first = &input[offset..offset + width];
        let second = &input[offset + width..offset + width + width];
        proof {
            assert(first@ == chunk(input@, width as int, 2 * p));
            assert(second@ == chunk(input@, width as int, 2 * p + 1));
        }
        distances_sum = distances_sum + hamming_distance(first, second);
        offset = offset + width + width;
        p = p + 1;
        proof {
            assert(2 * ((p - 1) * width) + width + width == 2 * (p * width))
                by (nonlinear_arith);
        }
    }
    Score::new((offset / 2) as u64, distances_sum)
}

/// The criterion that scores a key length by bit distance.
#[derive(Clone, Copy, Debug, PartialEq, Eq)]
pub struct HammingDistance;

impl KeysizeCriterion for HammingDistance {
    open spec fn admits(&self, data: Seq<u8>, size: u32, s: Score) -> bool {
        s == hamming_score(data, size)
    }

    fn score(&self, data: &[u8], size: u32) -> (s: Score) {
        hamming_distance_criterion(data, size)
    }
}

/// A criterion made of a function or closure that takes every key length
/// from 1 on and every data that a criterion is asked about.
pub struct FnKeysizeCriterion<F: Fn(&[u8], u32) -> Score> {
    function: F,
}

impl<F: Fn(&[u8], u32) -> Score> FnKeysizeCriterion<F> {
    #[verifier::type_invariant]
    spec fn takes_all(self) -> bool {
        forall|data: &[u8], size: u32|
            size >= 1 && data@.len() <= MAX_BYTES ==> call_requires(self.function, (data, size))
    }

    /// The function that scores.
    pub closed spec fn function(self) -> F {
        self.function
    }

    /// The criterion that scores as `function` does.
    pub fn new(function: F) -> (criterion: FnKeysizeCriterion<F>)
        requires
            forall|data: &[u8], size: u32|
                size >= 1 && data@.len() <= MAX_BYTES ==> call_requires(function, (data, size)),
        ensures
            criterion.function() == function,
    {
        FnKeysizeCriterion { function }
    }
}

impl<F: Fn(&[u8], u32) -> Score> KeysizeCriterion for FnKeysizeCriterion<F> {
    open spec fn admits(&self, data: Seq<u8>, size: u32, s: Score) -> bool {
        exists|slice: &[u8]| slice@ == data && call_ensures(self.function(), (slice, size), s)
    }

    fn score(&self, data: &[u8], size: u32) -> (s: Score) {
        proof {
            use_type_invariant(self);
        }
        (self.function)(data, size)
    }
}

/// A key length with the score it was given.
#[derive(Clone, Copy, Debug, PartialEq, Eq)]
pub struct KeysizeCandidate {
    /// The key length, in bytes.
    pub size: u32,
    /// The score of that length.
    pub score: Score,
}

/// The order of a ranking: the higher score comes first, and of two equal
/// scores the shorter key.
pub open spec fn ranks_before(x: KeysizeCandidate, y: KeysizeCandidate) -> bool {
    x.score.above(y.score) || (x.score.level_with(y.score) && x.size < y.size)
}

/// Each candidate ranks before all that follow it.
pub open spec fn is_ranked(ranking: Seq<KeysizeCandidate>) -> bool {
    forall|i: int, j: int|
        0 <= i < j < ranking.len() ==> ranks_before(#[trigger] ranking[i], #[trigger] ranking[j])
}

/// Of two candidates at most one ranks before the other.
pub proof fn lemma_ranks_before_asymmetric(x: KeysizeCandidate, y: KeysizeCandidate)
    ensures
        !(ranks_before(x, y) && ranks_before(y, x)),
{
}

/// Of two candidates for different key lengths one ranks before the other.
pub proof fn lemma_ranks_before_total(x: KeysizeCandidate, y: KeysizeCandidate)
    requires
        x.size != y.size,
    ensures
        ranks_before(x, y) || ranks_before(y, x),
{
}

/// The order of a ranking is transitive.
pub proof fn lemma_ranks_before_transitive(
    x: KeysizeCandidate,
    y: KeysizeCandidate,
    z: KeysizeCandidate,
)
    requires
        ranks_before(x, y),
        ranks_before(y, z),
    ensures
        ranks_before(x, z),
{
    lemma_above_cotransitive(x.score, y.score, z.score);
    lemma_above_cotransitive(y.score, z.score, x.score);
    lemma_above_cotransitive(z.score, x.score, y.score);
    lemma_above_cotransitive(x.score, z.score, y.score);
    lemma_above_cotransitive(y.score, x.score, z.score);
    lemma_above_cotransitive(z.score, y.score, x.score);
}

/// A ranking descends by score: no candidate has a score above that of one
/// before it.
pub proof fn lemma_ranked_descends(ranking: Seq<KeysizeCandidate>, i: int, j: int)
    requires
        is_ranked(ranking),
        0 <= i <= j < ranking.len(),
    ensures
        !ranking[j].score.above(ranking[i].score),
{
    if i < j {
        assert(ranks_before(ranking[i], ranking[j]));
    }
}

impl KeysizeCandidate {
    /// Whether `self` ranks before `other`.
    pub fn outranks(&self, other: &KeysizeCandidate) -> (before: bool)
        ensures
            before == ranks_before(*self, *other),
    {
        self.score.exceeds(&other.score) || (!other.score.exceeds(&self.score) && self.size
            < other.size)
    }
}

/// Puts `candidate` into its place in the ranking: behind the candidates that
/// rank before it and before the others. The ranking must be in order and
/// hold no candidate for the same key length yet.
pub fn insert_ranked(ranking: &mut Vec<KeysizeCandidate>, candidate: KeysizeCandidate)
    requires
        is_ranked(old(ranking)@),
        forall|i: int| 0 <= i < old(ranking)@.len() ==> old(ranking)@[i].size != candidate.size,
    ensures
        is_ranked(final(ranking)@),
        exists|place: int|
            0 <= place <= old(ranking)@.len() && #[trigger] old(ranking)@.insert(place, candidate)
                == final(ranking)@,
{
    let ghost before = ranking@;
    let mut place: usize = 0;
    while place < ranking.len() && !candidate.outranks(&ranking[place])
        invariant
            ranking@ == before,
            place <= before.len(),
            forall|i: int| 0 <= i < place ==> !ranks_before(candidate, #[trigger] before[i]),
        decreases before.len() - place,
    {
        place = place + 1;
    }
    ranking.insert(place, candidate);
    proof {
        let after = ranking@;
        assert(after == before.insert(place as int, candidate));
        assert forall|i: int, j: int| 0 <= i < j < after.len() implies ranks_before(
            #[trigger] after[i],
            #[trigger] after[j],
        ) by {
            if j < place {
                assert(ranks_before(before[i], before[j]));
            } else if j == place {
                lemma_ranks_before_total(before[i], candidate);
            } else if i < place {
                assert(ranks_before(before[i], before[j - 1]));
            } else if i == place {
                if j - 1 > place {
                    assert(ranks_before(before[place as int], before[j - 1]));
                    lemma_ranks_before_transitive(candidate, before[place as int], before[j - 1]);
                }
            } else {
                assert(ranks_before(before[i - 1], before[j - 1]));
            }
        }
    }
}

/// Why a range of key lengths was refused.
#[derive(Clone, Copy, Debug, PartialEq, Eq)]
pub enum RangeError {
    /// The shortest key length is 0.
    MinBelowOne,
    /// The longest key length is shorter than the shortest.
    MaxBelowMin,
}

/// What is wrong with the range of key lengths from `min` to `max`, if
/// anything is.
pub open spec fn range_fault(min: u32, max: u32) -> Option<RangeError> {
    if min < 1 {
        Some(RangeError::MinBelowOne)
    } else if max < min {
        Some(RangeError::MaxBelowMin)
    } else {
        None
    }
}

/// The ranking holds a candidate for the key length `size`.
pub open spec fn has_size(ranking: Seq<KeysizeCandidate>, size: u32) -> bool {
    exists|i: int| 0 <= i < ranking.len() && (#[trigger] ranking[i]).size == size
}

/// The ranking of the key lengths from `min` to `max` for `data`: one
/// candidate for each length, with a score that the criterion may give it,
/// in the order of [`ranks_before`].
pub open spec fn is_ranking<K: KeysizeCriterion>(
    ranking: Seq<KeysizeCandidate>,
    criterion: K,
    data: Seq<u8>,
    min: u32,
    max: u32,
) -> bool {
    &&& ranking.len() == max - min + 1
    &&& forall|i: int|
        0 <= i < ranking.len() ==> min <= (#[trigger] ranking[i]).size <= max && criterion.admits(
            data,
            ranking[i].size,
            ranking[i].score,
        )
    &&& forall|size: u32| min <= size <= max ==> #[trigger] has_size(ranking, size)
    &&& is_ranked(ranking)
}

/// The criterion is a function: it admits one score at most for each key
/// length and data.
pub open spec fn is_function<K: KeysizeCriterion>(criterion: K) -> bool {
    forall|data: Seq<u8>, size: u32, s1: Score, s2: Score|
        #![trigger criterion.admits(data, size, s1), criterion.admits(data, size, s2)]
        criterion.admits(data, size, s1) && criterion.admits(data, size, s2) ==> s1 == s2
}

/// Two sequences in ranking order that hold the same candidates are the same
/// sequence.
pub proof fn lemma_ranked_same_members(r1: Seq<KeysizeCandidate>, r2: Seq<KeysizeCandidate>)
    requires
        is_ranked(r1),
        is_ranked(r2),
        r1.len() == r2.len(),
        forall|i: int| 0 <= i < r1.len() ==> r2.contains(#[trigger] r1[i]),
        forall|j: int| 0 <= j < r2.len() ==> r1.contains(#[trigger] r2[j]),
    ensures
        r1 == r2,
    decreases r1.len(),
{
    if r1.len() == 0 {
        assert(r1 =~= r2);
    } else {
        let x = r1[0];
        let y = r2[0];
        assert(r2.contains(x));
        assert(r1.contains(y));
        let j = choose|j: int| 0 <= j < r2.len() && r2[j] == x;
        let k = choose|k: int| 0 <= k < r1.len() && r1[k] == y;
        if j > 0 && k > 0 {
            assert(ranks_before(r2[0], r2[j]));
            assert(ranks_before(r1[0], r1[k]));
        }
        assert(x == y);
        let t1 = r1.skip(1);
        let t2 = r2.skip(1);
        assert forall|i: int| 0 <= i < t1.len() implies t2.contains(#[trigger] t1[i]) by {
            assert(t1[i] == r1[i + 1]);
            assert(ranks_before(r1[0], r1[i + 1]));
            assert(r2.contains(r1[i + 1]));
            let m = choose|m: int| 0 <= m < r2.len() && r2[m] == r1[i + 1];
            assert(m > 0);
            assert(t2[m - 1] == r2[m]);
        }
        assert forall|i: int| 0 <= i < t2.len() implies t1.contains(#[trigger] t2[i]) by {
            assert(t2[i] == r2[i + 1]);
            assert(ranks_before(r2[0], r2[i + 1]));
            assert(r1.contains(r2[i + 1]));
            let m = choose|m: int| 0 <= m < r1.len() && r1[m] == r2[i + 1];
            assert(m > 0);
            assert(t1[m - 1] == r1[m]);
        }
        assert forall|a: int, b: int| 0 <= a < b < t1.len() implies ranks_before(
            #[trigger] t1[a],
            #[trigger] t1[b],
        ) by {
            assert(ranks_before(r1[a + 1], r1[b + 1]));
        }
        assert forall|a: int, b: int| 0 <= a < b < t2.len() implies ranks_before(
            #[trigger] t2[a],
            #[trigger] t2[b],
        ) by {
            assert(ranks_before(r2[a + 1], r2[b + 1]));
        }
        lemma_ranked_same_members(t1, t2);
        assert forall|i: int| 0 <= i < r1.len() implies r1[i] == r2[i] by {
            if i > 0 {
                assert(t1[i - 1] == r1[i]);
                assert(t2[i - 1] == r2[i]);
            }
        }
        assert(r1 =~= r2);
    }
}

/// Under a criterion that is a function, a range of key lengths has one
/// ranking only: estimating twice gives the same candidates in the same order.
pub proof fn lemma_ranking_is_unique<K: KeysizeCriterion>(
    criterion: K,
    data: Seq<u8>,
    min: u32,
    max: u32,
    r1: Seq<KeysizeCandidate>,
    r2: Seq<KeysizeCandidate>,
)
    requires
        is_function(criterion),
        is_ranking(r1, criterion, data, min, max),
        is_ranking(r2, criterion, data, min, max),
    ensures
        r1 == r2,
{
    lemma_ranking_members(criterion, data, min, max, r1, r2);
    lemma_ranking_members(criterion, data, min, max, r2, r1);
    lemma_ranked_same_members(r1, r2);
}

/// Under a criterion that is a function, what one ranking of a range holds
/// the other holds too.
proof fn lemma_ranking_members<K: KeysizeCriterion>(
    criterion: K,
    data: Seq<u8>,
    min: u32,
    max: u32,
    r1: Seq<KeysizeCandidate>,
    r2: Seq<KeysizeCandidate>,
)
    requires
        is_function(criterion),
        is_ranking(r1, criterion, data, min, max),
        is_ranking(r2, criterion, data, min, max),
    ensures
        forall|i: int| 0 <= i < r1.len() ==> r2.contains(#[trigger] r1[i]),
{
    assert forall|i: int| 0 <= i < r1.len() implies r2.contains(#[trigger] r1[i]) by {
        let size = r1[i].size;
        assert(has_size(r2, size));
        let j = choose|j: int| 0 <= j < r2.len() && (#[trigger] r2[j]).size == size;
        assert(criterion.admits(data, size, r1[i].score));
        assert(criterion.admits(data, size, r2[j].score));
        assert(r2[j] == r1[i]);
    }
}

/// The first candidate of a ranking is the likeliest: it ranks before every
/// other, and no candidate has a higher score.
pub proof fn lemma_ranking_top<K: KeysizeCriterion>(
    ranking: Seq<KeysizeCandidate>,
    criterion: K,
    data: Seq<u8>,
    min: u32,
    max: u32,
    i: int,
)
    requires
        is_ranking(ranking, criterion, data, min, max),
        0 < i < ranking.len(),
    ensures
        ranks_before(ranking[0], ranking[i]),
        !ranking[i].score.above(ranking[0].score),
{
}

/// The bit distance gives each key length one score.
pub proof fn lemma_hamming_distance_is_function()
    ensures
        is_function(HammingDistance),
{
}

/// The estimation of a key length: a criterion and the range of lengths that
/// it is asked about.
pub struct KeysizeAttack<K: KeysizeCriterion> {
    criterion: K,
    min_length: u32,
    max_length: u32,
}

impl KeysizeAttack<HammingDistance> {
    /// The estimation by bit distance over the key lengths from 1 to 32.
    pub fn new() -> (attack: KeysizeAttack<HammingDistance>)
        ensures
            attack.criterion() == HammingDistance,
            attack.min_length() == 1,
            attack.max_length() == 32,
    {
        KeysizeAttack { criterion: HammingDistance, min_length: 1, max_length: 32 }
    }
}

impl<K: KeysizeCriterion> KeysizeAttack<K> {
    /// The criterion that scores the key lengths.
    pub closed spec fn criterion(self) -> K {
        self.criterion
    }

    /// The shortest key length of the range.
    pub closed spec fn min_length(self) -> u32 {
        self.min_length
    }

    /// The longest key length of the range.
    pub closed spec fn max_length(self) -> u32 {
        self.max_length
    }

    /// The same estimation under another criterion.
    pub fn with_criterion<L: KeysizeCriterion>(self, criterion: L) -> (attack: KeysizeAttack<L>)
        ensures
            attack.criterion() == criterion,
            attack.min_length() == self.min_length(),
            attack.max_length() == self.max_length(),
    {
        KeysizeAttack { criterion, min_length: self.min_length, max_length: self.max_length }
    }

    /// The same estimation from the key length `min_length` on.
    pub fn with_min_length(self, min_length: u32) -> (attack: KeysizeAttack<K>)
        ensures
            attack.criterion() == self.criterion(),
            attack.min_length() == min_length,
            attack.max_length() == self.max_length(),
    {
        KeysizeAttack { criterion: self.criterion, min_length, max_length: self.max_length }
    }

    /// The same estimation up to the key length `max_length`.
    pub fn with_max_length(self, max_length: u32) -> (attack: KeysizeAttack<K>)
        ensures
            attack.criterion() == self.criterion(),
            attack.min_length() == self.min_length(),
            attack.max_length() == max_length,
    {
        KeysizeAttack { criterion: self.criterion, min_length: self.min_length, max_length }
    }

    /// Scores every key length of the range for `input` and ranks them, the
    /// likeliest first. A range that starts at 0 or ends before it starts is
    /// refused before any length is scored.
    pub fn result(&self, input: &[u8]) -> (ranked: Result<Vec<KeysizeCandidate>, RangeError>)
        requires
            input@.len() <= MAX_BYTES,
        ensures
            match ranked {
                Ok(ranking) => range_fault(self.min_length(), self.max_length()) is None
                    && is_ranking(
                    ranking@,
                    self.criterion(),
                    input@,
                    self.min_length(),
                    self.max_length(),
                ),
                Err(fault) => range_fault(self.min_length(), self.max_length()) == Some(fault),
            },
    {
        if self.min_length < 1 {
            return Err(RangeError::MinBelowOne);
        }
        if self.max_length < self.min_length {
            return Err(RangeError::MaxBelowMin);
        }
        let mut ranking: Vec<KeysizeCandidate> = Vec::new();
        let mut size: u32 = self.min_length;
        loop
            invariant_except_break
                1 <= self.min_length <= size <= self.max_length,
                input@.len() <= MAX_BYTES,
                ranking@.len() == size - self.min_length,
                forall|i: int|
                    0 <= i < ranking@.len() ==> self.min_length <= (#[trigger] ranking@[i]).size
                        < size && self.criterion.admits(
                        input@,
                        ranking@[i].size,
                        ranking@[i].score,
                    ),
                forall|s: u32| self.min_length <= s < size ==> #[trigger] has_size(ranking@, s),
                is_ranked(ranking@),
            ensures
                is_ranking(ranking@, self.criterion, input@, self.min_length, self.max_length),
            decreases self.max_length - size,
        {
            let score = self.criterion.score(input, size);
            let candidate = KeysizeCandidate { size, score };
            let ghost before = ranking@;
            insert_ranked(&mut ranking, candidate);
            proof {
                let place = choose|place: int|
                    0 <= place <= before.len() && #[trigger] before.insert(place, candidate)
                        == ranking@;
                let after = ranking@;
                assert(after == before.insert(place, candidate));
                assert forall|i: int| 0 <= i < after.len() implies self.min_length <= (
                #[trigger] after[i]).size <= size && self.criterion.admits(
                    input@,
                    after[i].size,
                    after[i].score,
                ) by {
                    if i < place {
                        assert(after[i] == before[i]);
                    } else if i > place {
                        assert(after[i] == before[i - 1]);
                    }
                }
                assert forall|s: u32| self.min_length <= s <= size implies #[trigger] has_size(
                    after,
                    s,
                ) by {
                    if s == size {
                        assert(after[place].size == s);
                    } else {
                        assert(has_size(before, s));
                        let i = choose|i: int|
                            0 <= i < before.len() && (#[trigger] before[i]).size == s;
                        if i < place {
                            assert(after[i].size == s);
                        } else {
                            assert(after[i + 1] == before[i]);
                            assert(after[i + 1].size == s);
                        }
                    }
                }
            }
            if size == self.max_length {
                break ;
            }
            size = size + 1;
        }
        Ok(ranking)
    }
}

} // verus!
