//! Breaking a repeating key: the likeliest key length is estimated, the
//! ciphertext is split into one column for each byte of the key, and each
//! column is broken as a one-byte XOR.

use vstd::prelude::*;
use crate::bytes::MAX_BYTES;
use crate::criteria::{is_function, BytesCriterion, Criterion};
use crate::keysize::{
    is_ranking, lemma_ranking_is_unique, range_fault, HammingDistance, KeysizeAttack,
    KeysizeCandidate, KeysizeCriterion, RangeError,
};
use crate::score::{
    first_highest, lemma_above_cotransitive, lemma_above_transitive,
    lemma_first_highest_is_unique, Score,
};
use crate::single_byte::{
    is_key_guess, is_scan_report, lemma_scan_recovers, lemma_scan_report_is_unique, stands_out,
    trial, SingleByteAttack,
};
use crate::xor::{lemma_xor_apply_involution, xor_apply, Xor};

verus! {

/// The number of positions below `len` that leave `offset` when divided by
/// `size`.
pub open spec fn column_len(len: int, size: int, offset: int) -> int {
    if offset < len {
        (len - offset + size - 1) / size
    } else {
        0
    }
}

/// The bytes of `data` at the positions that leave `offset` when divided by
/// `size`, in their order: the bytes that one byte of a key of `size` bytes
/// has encrypted.
pub open spec fn column(data: Seq<u8>, size: int, offset: int) -> Seq<u8> {
    Seq::new(column_len(data.len() as int, size, offset) as nat, |k: int| data[offset + k * size])
}

/// Each byte of `key` is one that the scan over the one-byte keys may report
/// for its column of `data`.
pub open spec fn is_recovered_key<C: BytesCriterion>(
    criterion: C,
    data: Seq<u8>,
    key: Seq<u8>,
) -> bool {
    forall|j: int|
        0 <= j < key.len() ==> is_key_guess(
            criterion,
            column(data, key.len() as int, j),
            #[trigger] key[j],
        )
}

/// Key and plaintext are what breaking `data` under a key of `size` bytes may
/// give: each byte of the key breaks its column, and the plaintext is the
/// data under the key.
pub open spec fn is_attempt<C: BytesCriterion>(
    criterion: C,
    data: Seq<u8>,
    size: u32,
    key: Seq<u8>,
    plaintext: Seq<u8>,
) -> bool {
    &&& key.len() == size
    &&& is_recovered_key(criterion, data, key)
    &&& plaintext == xor_apply(data, key)
}

/// `attempts` holds, for each of the `count` top candidates of the ranking
/// (for all of them, where they are fewer), what breaking `data` under its
/// key length may give, and `scores` a score that `rating` may give each
/// plaintext.
pub open spec fn are_attempts<C: BytesCriterion, R: BytesCriterion>(
    criterion: C,
    rating: R,
    data: Seq<u8>,
    ranking: Seq<KeysizeCandidate>,
    count: int,
    attempts: Seq<(Seq<u8>, Seq<u8>)>,
    scores: Seq<Score>,
) -> bool {
    &&& attempts.len() == scores.len()
    &&& attempts.len() == if count <= ranking.len() {
        count
    } else {
        ranking.len() as int
    }
    &&& forall|t: int|
        0 <= t < attempts.len() ==> is_attempt(
            criterion,
            data,
            ranking[t].size,
            (#[trigger] attempts[t]).0,
            attempts[t].1,
        )
    &&& forall|t: int|
        0 <= t < attempts.len() ==> rating.admits(attempts[t].1, #[trigger] scores[t])
}

/// The columns hold every byte of the data once: the byte at `i` is the
/// `i / size`-th of the column `i % size`.
pub proof fn lemma_column_holds(data: Seq<u8>, size: int, i: int)
    requires
        size >= 1,
        0 <= i < data.len(),
    ensures
        0 <= i / size < column(data, size, i % size).len(),
        column(data, size, i % size)[i / size] == data[i],
{
    let offset = i % size;
    let k = i / size;
    let len = data.len() as int;
    assert(i == k * size + offset && 0 <= offset < size && k >= 0) by (nonlinear_arith)
        requires
            offset == i % size,
            k == i / size,
            size >= 1,
            i >= 0,
    ;
    assert(k < (len - offset + size - 1) / size) by (nonlinear_arith)
        requires
            k * size + offset < len,
            size >= 1,
            k >= 0,
    ;
}

/// The places of a column lie within the data.
proof fn lemma_column_index(len: int, size: int, offset: int, k: int)
    requires
        size >= 1,
        0 <= offset,
        0 <= k < column_len(len, size, offset),
    ensures
        0 <= k * size,
        offset + k * size < len,
        (offset + k * size) % size == offset % size,
{
    assert(0 <= k * size && offset + k * size < len) by (nonlinear_arith)
        requires
            size >= 1,
            0 <= k < (len - offset + size - 1) / size,
    ;
    vstd::arithmetic::div_mod::lemma_mod_multiples_vanish(k, offset, size);
    assert(size * k + offset == offset + k * size) by (nonlinear_arith);
}

/// The column of an encrypted text is the column of the plaintext under one
/// byte of the key: the byte at the column's offset.
pub proof fn lemma_column_of_xor(plaintext: Seq<u8>, key: Seq<u8>, offset: int)
    requires
        0 <= offset < key.len(),
    ensures
        column(xor_apply(plaintext, key), key.len() as int, offset) == trial(
            column(plaintext, key.len() as int, offset),
            key[offset],
        ),
{
    let size = key.len() as int;
    let data = xor_apply(plaintext, key);
    let left = column(data, size, offset);
    let right = trial(column(plaintext, size, offset), key[offset]);
    assert(left.len() == right.len());
    assert forall|k: int| 0 <= k < left.len() implies left[k] == right[k] by {
        lemma_column_index(plaintext.len() as int, size, offset, k);
        assert(offset % size == offset) by (nonlinear_arith)
            requires
                0 <= offset < size,
        ;
        assert(seq![key[offset]][k % 1] == key[offset]);
    }
    assert(left =~= right);
}

/// A column is as long as its places are counted.
proof fn lemma_column_len(len: int, size: int, offset: int, k: int)
    requires
        size >= 1,
        k >= 0,
        0 <= offset,
        offset + k * size < len <= offset + k * size + size,
    ensures
        column_len(len, size, offset) == k + 1,
{
    assert(k * size >= 0) by (nonlinear_arith)
        requires
            k >= 0,
            size >= 1,
    ;
    assert((len - offset + size - 1) / size == k + 1) by (nonlinear_arith)
        requires
            k * size < len - offset <= k * size + size,
            size >= 1,
    ;
}

/// Collects the column of `input` at `offset` for a key of `size` bytes.
pub fn transpose_column(input: &[u8], size: usize, offset: usize) -> (bytes: Vec<u8>)
    requires
        size >= 1,
    ensures
        bytes@ == column(input@, size as int, offset as int),
{
    let len = input.len();
    let mut bytes: Vec<u8> = Vec::new();
    if offset >= len {
        assert(bytes@ =~= column(input@, size as int, offset as int));
        return bytes;
    }
    let mut i: usize = offset;
    let ghost mut k: int = 0;
    proof {
        assert(0 * (size as int) == 0) by (nonlinear_arith);
    }
    loop
        invariant_except_break
            len == input@.len(),
            size >= 1,
            k >= 0,
            i == offset + k * size,
            i < len,
            bytes@.len() == k,
            forall|m: int| 0 <= m < k ==> bytes@[m] == input@[offset + m * size],
        ensures
            bytes@ == column(input@, size as int, offset as int),
        decreases len - i,
    {
        let ghost before = bytes@;
        bytes.push(input[i]);
        proof {
            assert(forall|m: int| 0 <= m < k ==> bytes@[m] == before[m]);
            assert((k + 1) * size == k * size + size) by (nonlinear_arith);
        }
        if len - i <= size {
            proof {
                lemma_column_len(len as int, size as int, offset as int, k);
                assert(bytes@ =~= column(input@, size as int, offset as int));
            }
            break ;
        }
        i = i + size;
        proof {
            k = k + 1;
        }
    }
    bytes
}

/// The attack on a repeating key.
pub struct RepeatedAttack<C: BytesCriterion, K: KeysizeCriterion> {
    single_byte_attack: SingleByteAttack<C>,
    keysize_attack: KeysizeAttack<K>,
}

impl RepeatedAttack<Criterion, HammingDistance> {
    /// The attack that takes the key length from the bit distances over the
    /// lengths from 1 to 32, and rates the columns by their share of prose
    /// characters.
    pub fn new() -> (attack: RepeatedAttack<Criterion, HammingDistance>)
        ensures
            attack.single_byte_attack().criterion() == Criterion::TextBytes,
            attack.keysize_attack().criterion() == HammingDistance,
            attack.keysize_attack().min_length() == 1,
            attack.keysize_attack().max_length() == 32,
    {
        RepeatedAttack {
            single_byte_attack: SingleByteAttack::new(),
            keysize_attack: KeysizeAttack::new(),
        }
    }
}

impl<C: BytesCriterion, K: KeysizeCriterion> RepeatedAttack<C, K> {
    /// The attack that breaks the columns.
    pub closed spec fn single_byte_attack(self) -> SingleByteAttack<C> {
        self.single_byte_attack
    }

    /// The estimation that gives the key length.
    pub closed spec fn keysize_attack(self) -> KeysizeAttack<K> {
        self.keysize_attack
    }

    /// The same attack with the columns broken by `attack`.
    pub fn with_single_byte_attack<D: BytesCriterion>(self, attack: SingleByteAttack<D>) -> (made:
        RepeatedAttack<D, K>)
        ensures
            made.single_byte_attack() == attack,
            made.keysize_attack() == self.keysize_attack(),
    {
        RepeatedAttack { single_byte_attack: attack, keysize_attack: self.keysize_attack }
    }

    /// The same attack with the key length estimated by `attack`.
    pub fn with_keysize_attack<L: KeysizeCriterion>(self, attack: KeysizeAttack<L>) -> (made:
        RepeatedAttack<C, L>)
        ensures
            made.single_byte_attack() == self.single_byte_attack(),
            made.keysize_attack() == attack,
    {
        RepeatedAttack { single_byte_attack: self.single_byte_attack, keysize_attack: attack }
    }

    /// Breaks each of the `size` columns of `input` as a one-byte XOR and
    /// puts the key bytes together.
    pub fn recover_key(&self, input: &[u8], size: u32) -> (key: Vec<u8>)
        ensures
            key@.len() == size,
            is_recovered_key(self.single_byte_attack().criterion(), input@, key@),
    {
        let mut key: Vec<u8> = Vec::new();
        let mut offset: u32 = 0;
        while offset < size
            invariant
                offset <= size,
                key@.len() == offset,
                forall|j: int|
                    0 <= j < offset ==> is_key_guess(
                        self.single_byte_attack.criterion(),
                        column(input@, size as int, j),
                        #[trigger] key@[j],
                    ),
            decreases size - offset,
        {
            let block = transpose_column(input, size as usize, offset as usize);
            let guess = self.single_byte_attack.result(block.as_slice());
            let ghost before = key@;
            key.push(guess.0);
            assert(forall|j: int| 0 <= j < offset ==> key@[j] == before[j]);
            offset = offset + 1;
        }
        key
    }

    /// Breaks `input` under a key of `size` bytes: the key of the columns, and
    /// the input under that key.
    pub fn attempt(&self, input: &[u8], size: u32) -> (pair: (Vec<u8>, Vec<u8>))
        requires
            size >= 1,
        ensures
            is_attempt(self.single_byte_attack().criterion(), input@, size, pair.0@, pair.1@),
    {
        let key = self.recover_key(input, size);
        let decrypted = match Xor::new(key.as_slice()) {
            Ok(cipher) => cipher.decrypt(input),
            Err(_) => Vec::new(),
        };
        (key, decrypted)
    }

    /// Recovers the key and the plaintext of `input` from the
    /// `keysizes_count` top candidates of the key length estimation, or from
    /// all where they are fewer: each is tried, the plaintexts are rated by
    /// `result_criterion`, and the attempt with the highest score is
    /// reported. A later attempt replaces an earlier one only where it scores
    /// strictly higher. A range of key lengths that starts at 0 or ends
    /// before it starts is refused.
    pub fn result_among<R: BytesCriterion>(
        &self,
        input: &[u8],
        keysizes_count: usize,
        result_criterion: &R,
    ) -> (broken: Result<(Vec<u8>, Vec<u8>), RangeError>)
        requires
            keysizes_count >= 1,
            input@.len() <= MAX_BYTES,
        ensures
            match broken {
                Ok(pair) => range_fault(
                    self.keysize_attack().min_length(),
                    self.keysize_attack().max_length(),
                ) is None && is_choice_among(
                    *self,
                    *result_criterion,
                    keysizes_count as int,
                    input@,
                    pair.0@,
                    pair.1@,
                ),
                Err(fault) => range_fault(
                    self.keysize_attack().min_length(),
                    self.keysize_attack().max_length(),
                ) == Some(fault),
            },
    {
        let keysizes = match self.keysize_attack.result(input) {
            Ok(keysizes) => keysizes,
            Err(e) => {
                return Err(e);
            },
        };
        let tried = if keysizes_count <= keysizes.len() {
            keysizes_count
        } else {
            keysizes.len()
        };
        let mut best = self.attempt(input, keysizes[0].size);
        let mut top = result_criterion.score(best.1.as_slice());
        let ghost mut attempts: Seq<(Seq<u8>, Seq<u8>)> = seq![(best.0@, best.1@)];
        let ghost mut scores: Seq<Score> = seq![top];
        let ghost mut chosen: int = 0;
        let mut t: usize = 1;
        while t < tried
            invariant
                1 <= t <= tried <= keysizes@.len(),
                is_ranking(
                    keysizes@,
                    self.keysize_attack().criterion(),
                    input@,
                    self.keysize_attack().min_length(),
                    self.keysize_attack().max_length(),
                ),
                self.keysize_attack().min_length() >= 1,
                are_attempts(
                    self.single_byte_attack().criterion(),
                    *result_criterion,
                    input@,
                    keysizes@,
                    t as int,
                    attempts,
                    scores,
                ),
                first_highest(scores, chosen),
                attempts[chosen] == (best.0@, best.1@),
                top == scores[chosen],
            decreases tried - t,
        {
            let next = self.attempt(input, keysizes[t].size);
            let score = result_criterion.score(next.1.as_slice());
            let ghost attempts_before = attempts;
            let ghost scores_before = scores;
            proof {
                attempts = attempts.push((next.0@, next.1@));
                scores = scores.push(score);
                assert(forall|i: int| 0 <= i < t ==> attempts[i] == attempts_before[i]);
                assert(forall|i: int| 0 <= i < t ==> scores[i] == scores_before[i]);
            }
            if score.exceeds(&top) {
                proof {
                    assert forall|i: int| 0 <= i < scores.len() implies !(
                    #[trigger] scores[i]).above(score) by {
                        if i < t {
                            assert(!scores_before[i].above(top));
                            if scores[i].above(score) {
                                lemma_above_transitive(scores[i], score, top);
                            }
                        }
                    }
                    assert forall|i: int| 0 <= i < t implies score.above(#[trigger] scores[i]) by {
                        assert(!scores_before[i].above(top));
                        lemma_above_cotransitive(score, scores[i], top);
                    }
                    chosen = t as int;
                }
                best = next;
                top = score;
            } else {
                proof {
                    assert forall|i: int| 0 <= i < chosen implies scores[chosen].above(
                        #[trigger] scores[i],
                    ) by {
                        assert(scores_before[chosen].above(scores_before[i]));
                    }
                }
            }
            t = t + 1;
        }
        proof {
            assert(is_ranking(
                keysizes@,
                self.keysize_attack().criterion(),
                input@,
                self.keysize_attack().min_length(),
                self.keysize_attack().max_length(),
            ) && are_attempts(
                self.single_byte_attack().criterion(),
                *result_criterion,
                input@,
                keysizes@,
                keysizes_count as int,
                attempts,
                scores,
            ) && first_highest(scores, chosen) && attempts[chosen] == (best.0@, best.1@));
        }
        Ok(best)
    }

    /// Recovers the key and the plaintext of `input`. The key is as long as
    /// the top candidate of the key length estimation; its bytes are those
    /// that break the columns, each on its own; the plaintext is the input
    /// under that key. A range of key lengths that starts at 0 or ends before
    /// it starts is refused.
    ///
    /// The columns are broken independently and nothing checks them against
    /// each other: where the estimated length is wrong, each column still has
    /// its winner, and the report is a key that is wrong with a plaintext
    /// that is garbage.
    pub fn result(&self, input: &[u8]) -> (broken: Result<(Vec<u8>, Vec<u8>), RangeError>)
        requires
            input@.len() <= MAX_BYTES,
        ensures
            match broken {
                Ok(pair) => range_fault(
                    self.keysize_attack().min_length(),
                    self.keysize_attack().max_length(),
                ) is None && is_attack_result(*self, input@, pair.0@, pair.1@),
                Err(fault) => range_fault(
                    self.keysize_attack().min_length(),
                    self.keysize_attack().max_length(),
                ) == Some(fault),
            },
    {
        match self.keysize_attack.result(input) {
            Err(e) => Err(e),
            Ok(keysizes) => {
                let pair = self.attempt(input, keysizes[0].size);
                proof {
                    assert(is_ranking(
                        keysizes@,
                        self.keysize_attack().criterion(),
                        input@,
                        self.keysize_attack().min_length(),
                        self.keysize_attack().max_length(),
                    ) && pair.0@.len() == keysizes@[0].size);
                }
                Ok(pair)
            },
        }
    }
}

/// Key and plaintext are what the attack may report for `data` where it
/// tries the `count` top candidates: for some ranking of the key lengths they
/// are the attempt whose plaintext `rating` scores highest, and among equal
/// scores that of the better candidate.
pub open spec fn is_choice_among<C: BytesCriterion, K: KeysizeCriterion, R: BytesCriterion>(
    attack: RepeatedAttack<C, K>,
    rating: R,
    count: int,
    data: Seq<u8>,
    key: Seq<u8>,
    plaintext: Seq<u8>,
) -> bool {
    exists|
        ranking: Seq<KeysizeCandidate>,
        attempts: Seq<(Seq<u8>, Seq<u8>)>,
        scores: Seq<Score>,
        chosen: int,
    |
        #![trigger
            are_attempts(
                attack.single_byte_attack().criterion(),
                rating,
                data,
                ranking,
                count,
                attempts,
                scores,
            ),
            first_highest(scores, chosen),
        ]
        is_ranking(
            ranking,
            attack.keysize_attack().criterion(),
            data,
            attack.keysize_attack().min_length(),
            attack.keysize_attack().max_length(),
        ) && are_attempts(
            attack.single_byte_attack().criterion(),
            rating,
            data,
            ranking,
            count,
            attempts,
            scores,
        ) && first_highest(scores, chosen) && attempts[chosen] == (key, plaintext)
}

/// Key and plaintext are what the attack may report for `data`: for some
/// ranking of the key lengths the key is as long as the top candidate, each
/// of its bytes breaks its column, and the plaintext is the data under it.
pub open spec fn is_attack_result<C: BytesCriterion, K: KeysizeCriterion>(
    attack: RepeatedAttack<C, K>,
    data: Seq<u8>,
    key: Seq<u8>,
    plaintext: Seq<u8>,
) -> bool {
    &&& exists|ranking: Seq<KeysizeCandidate>|
        #![trigger is_ranking(
            ranking,
            attack.keysize_attack().criterion(),
            data,
            attack.keysize_attack().min_length(),
            attack.keysize_attack().max_length(),
        )]
        is_ranking(
            ranking,
            attack.keysize_attack().criterion(),
            data,
            attack.keysize_attack().min_length(),
            attack.keysize_attack().max_length(),
        ) && key.len() == ranking[0].size
    &&& is_recovered_key(attack.single_byte_attack().criterion(), data, key)
    &&& plaintext == xor_apply(data, key)
}

/// Under a criterion that is a function, breaking `data` under a key of
/// `size` bytes has one outcome only.
pub proof fn lemma_attempt_is_unique<C: BytesCriterion>(
    criterion: C,
    data: Seq<u8>,
    size: u32,
    first: (Seq<u8>, Seq<u8>),
    second: (Seq<u8>, Seq<u8>),
)
    requires
        is_function(criterion),
        is_attempt(criterion, data, size, first.0, first.1),
        is_attempt(criterion, data, size, second.0, second.1),
    ensures
        first == second,
{
    assert forall|j: int| 0 <= j < size implies first.0[j] == second.0[j] by {
        let bytes = column(data, size as int, j);
        assert(is_key_guess(criterion, bytes, first.0[j]));
        assert(is_key_guess(criterion, bytes, second.0[j]));
        let (score1, decrypted1) = choose|score: Score, decrypted: Seq<u8>|
            #![trigger is_scan_report(criterion, bytes, first.0[j], score, decrypted)]
            is_scan_report(criterion, bytes, first.0[j], score, decrypted);
        let (score2, decrypted2) = choose|score: Score, decrypted: Seq<u8>|
            #![trigger is_scan_report(criterion, bytes, second.0[j], score, decrypted)]
            is_scan_report(criterion, bytes, second.0[j], score, decrypted);
        lemma_scan_report_is_unique(
            criterion,
            bytes,
            (first.0[j], score1, decrypted1),
            (second.0[j], score2, decrypted2),
        );
    }
    assert(first.0 =~= second.0);
}

/// Under criteria that are functions the attack has one report only:
/// attacking twice gives the same key and the same plaintext.
pub proof fn lemma_attack_result_is_unique<C: BytesCriterion, K: KeysizeCriterion>(
    attack: RepeatedAttack<C, K>,
    data: Seq<u8>,
    first: (Seq<u8>, Seq<u8>),
    second: (Seq<u8>, Seq<u8>),
)
    requires
        is_function(attack.single_byte_attack().criterion()),
        crate::keysize::is_function(attack.keysize_attack().criterion()),
        is_attack_result(attack, data, first.0, first.1),
        is_attack_result(attack, data, second.0, second.1),
    ensures
        first == second,
{
    let estimation = attack.keysize_attack();
    let ranking1 = choose|ranking: Seq<KeysizeCandidate>|
        #![trigger is_ranking(
            ranking,
            estimation.criterion(),
            data,
            estimation.min_length(),
            estimation.max_length(),
        )]
        is_ranking(
            ranking,
            estimation.criterion(),
            data,
            estimation.min_length(),
            estimation.max_length(),
        ) && first.0.len() == ranking[0].size;
    let ranking2 = choose|ranking: Seq<KeysizeCandidate>|
        #![trigger is_ranking(
            ranking,
            estimation.criterion(),
            data,
            estimation.min_length(),
            estimation.max_length(),
        )]
        is_ranking(
            ranking,
            estimation.criterion(),
            data,
            estimation.min_length(),
            estimation.max_length(),
        ) && second.0.len() == ranking[0].size;
    lemma_ranking_is_unique(
        estimation.criterion(),
        data,
        estimation.min_length(),
        estimation.max_length(),
        ranking1,
        ranking2,
    );
    lemma_attempt_is_unique(
        attack.single_byte_attack().criterion(),
        data,
        ranking1[0].size,
        first,
        second,
    );
}

/// Under criteria that are functions the attack over the top candidates has
/// one report only.
pub proof fn lemma_choice_among_is_unique<
    C: BytesCriterion,
    K: KeysizeCriterion,
    R: BytesCriterion,
>(
    attack: RepeatedAttack<C, K>,
    rating: R,
    count: int,
    data: Seq<u8>,
    first: (Seq<u8>, Seq<u8>),
    second: (Seq<u8>, Seq<u8>),
)
    requires
        is_function(attack.single_byte_attack().criterion()),
        crate::keysize::is_function(attack.keysize_attack().criterion()),
        is_function(rating),
        is_choice_among(attack, rating, count, data, first.0, first.1),
        is_choice_among(attack, rating, count, data, second.0, second.1),
    ensures
        first == second,
{
    let estimation = attack.keysize_attack();
    let criterion = attack.single_byte_attack().criterion();
    let (ranking1, attempts1, scores1, chosen1) = choose|
        ranking: Seq<KeysizeCandidate>,
        attempts: Seq<(Seq<u8>, Seq<u8>)>,
        scores: Seq<Score>,
        chosen: int,
    |
        #![trigger
            are_attempts(criterion, rating, data, ranking, count, attempts, scores),
            first_highest(scores, chosen),
        ]
        is_ranking(
            ranking,
            estimation.criterion(),
            data,
            estimation.min_length(),
            estimation.max_length(),
        ) && are_attempts(criterion, rating, data, ranking, count, attempts, scores)
            && first_highest(scores, chosen) && attempts[chosen] == first;
    let (ranking2, attempts2, scores2, chosen2) = choose|
        ranking: Seq<KeysizeCandidate>,
        attempts: Seq<(Seq<u8>, Seq<u8>)>,
        scores: Seq<Score>,
        chosen: int,
    |
        #![trigger
            are_attempts(criterion, rating, data, ranking, count, attempts, scores),
            first_highest(scores, chosen),
        ]
        is_ranking(
            ranking,
            estimation.criterion(),
            data,
            estimation.min_length(),
            estimation.max_length(),
        ) && are_attempts(criterion, rating, data, ranking, count, attempts, scores)
            && first_highest(scores, chosen) && attempts[chosen] == second;
    lemma_ranking_is_unique(
        estimation.criterion(),
        data,
        estimation.min_length(),
        estimation.max_length(),
        ranking1,
        ranking2,
    );
    assert forall|t: int| 0 <= t < attempts1.len() implies attempts1[t] == attempts2[t]
        && scores1[t] == scores2[t] by {
        lemma_attempt_is_unique(criterion, data, ranking1[t].size, attempts1[t], attempts2[t]);
        assert(rating.admits(attempts1[t].1, scores1[t]));
        assert(rating.admits(attempts2[t].1, scores2[t]));
    }
    assert(scores1 =~= scores2);
    lemma_first_highest_is_unique(scores1, chosen1, chosen2);
}

/// Where one candidate is tried, the attack over the top candidates reports
/// what the attack on the top candidate reports.
pub proof fn lemma_choice_among_one<C: BytesCriterion, K: KeysizeCriterion, R: BytesCriterion>(
    attack: RepeatedAttack<C, K>,
    rating: R,
    data: Seq<u8>,
    key: Seq<u8>,
    plaintext: Seq<u8>,
)
    requires
        is_choice_among(attack, rating, 1, data, key, plaintext),
    ensures
        is_attack_result(attack, data, key, plaintext),
{
    let estimation = attack.keysize_attack();
    let criterion = attack.single_byte_attack().criterion();
    let (ranking, attempts, scores, chosen) = choose|
        ranking: Seq<KeysizeCandidate>,
        attempts: Seq<(Seq<u8>, Seq<u8>)>,
        scores: Seq<Score>,
        chosen: int,
    |
        #![trigger
            are_attempts(criterion, rating, data, ranking, 1, attempts, scores),
            first_highest(scores, chosen),
        ]
        is_ranking(
            ranking,
            estimation.criterion(),
            data,
            estimation.min_length(),
            estimation.max_length(),
        ) && are_attempts(criterion, rating, data, ranking, 1, attempts, scores)
            && first_highest(scores, chosen) && attempts[chosen] == (key, plaintext);
    assert(chosen == 0);
    assert(is_attempt(criterion, data, ranking[0].size, attempts[0].0, attempts[0].1));
    assert(is_ranking(
        ranking,
        estimation.criterion(),
        data,
        estimation.min_length(),
        estimation.max_length(),
    ) && key.len() == ranking[0].size);
}

/// The attack recovers a repeating key wherever the estimation ranks its
/// length first and, in each column, the plaintext stands out: its report on
/// the encrypted bytes is the key and the plaintext. Nothing holds the
/// columns together: where the length is wrong, or a column is won by a
/// wrong byte, the report is a wrong key and what it makes of the input.
pub proof fn lemma_attack_recovers<C: BytesCriterion, K: KeysizeCriterion>(
    attack: RepeatedAttack<C, K>,
    plaintext: Seq<u8>,
    key: Seq<u8>,
    report: (Seq<u8>, Seq<u8>),
)
    requires
        key.len() >= 1,
        is_attack_result(attack, xor_apply(plaintext, key), report.0, report.1),
        forall|ranking: Seq<KeysizeCandidate>|
            #![trigger is_ranking(
                ranking,
                attack.keysize_attack().criterion(),
                xor_apply(plaintext, key),
                attack.keysize_attack().min_length(),
                attack.keysize_attack().max_length(),
            )]
            is_ranking(
                ranking,
                attack.keysize_attack().criterion(),
                xor_apply(plaintext, key),
                attack.keysize_attack().min_length(),
                attack.keysize_attack().max_length(),
            ) ==> ranking[0].size == key.len(),
        forall|j: int|
            0 <= j < key.len() ==> stands_out(
                attack.single_byte_attack().criterion(),
                column(plaintext, key.len() as int, j),
                #[trigger] key[j],
            ),
    ensures
        report.0 == key,
        report.1 == plaintext,
{
    let criterion = attack.single_byte_attack().criterion();
    let data = xor_apply(plaintext, key);
    let size = key.len() as int;
    assert(report.0.len() == key.len());
    assert forall|j: int| 0 <= j < key.len() implies report.0[j] == key[j] by {
        let bytes = column(data, size, j);
        lemma_column_of_xor(plaintext, key, j);
        assert(is_key_guess(criterion, bytes, report.0[j]));
        let (score, decrypted) = choose|score: Score, decrypted: Seq<u8>|
            #![trigger is_scan_report(criterion, bytes, report.0[j], score, decrypted)]
            is_scan_report(criterion, bytes, report.0[j], score, decrypted);
        assert(stands_out(criterion, column(plaintext, size, j), key[j]));
        lemma_scan_recovers(
            criterion,
            column(plaintext, size, j),
            key[j],
            (report.0[j], score, decrypted),
        );
    }
    assert(report.0 =~= key);
    lemma_xor_apply_involution(plaintext, key);
}

} // verus!
