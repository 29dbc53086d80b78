//! Breaking a one-byte XOR key by trying all 256 of them.

use vstd::prelude::*;
use crate::criteria::{is_function, BytesCriterion, Criterion};
use crate::score::{first_highest, lemma_above_cotransitive, lemma_above_transitive, Score};
use crate::xor::{lemma_xor_apply_involution, xor_apply, Xor};

verus! {

/// The data under the one-byte key `key`.
pub open spec fn trial(data: Seq<u8>, key: u8) -> Seq<u8> {
    xor_apply(data, seq![key])
}

/// `scores` holds, for each of the 256 keys in turn, a score that the
/// criterion may give the data under that key.
pub open spec fn are_trial_scores<C: BytesCriterion>(
    criterion: C,
    data: Seq<u8>,
    scores: Seq<Score>,
) -> bool {
    &&& scores.len() == 256
    &&& forall|k: int| 0 <= k < 256 ==> criterion.admits(trial(data, k as u8), #[trigger] scores[k])
}

/// No score is above 0.
pub open spec fn none_scores(scores: Seq<Score>) -> bool {
    forall|j: int| 0 <= j < scores.len() ==> !(#[trigger] scores[j]).above(Score::nil())
}

/// The score at `k` wins: it is the first of the highest, and above 0.
pub open spec fn wins(scores: Seq<Score>, k: int) -> bool {
    first_highest(scores, k) && scores[k].above(Score::nil())
}

/// What the scan over the keys reports for the given scores: the winning key
/// with its score and its trial, or key 0 with score 0 and nothing decrypted
/// where no key scores above 0.
pub open spec fn is_best_guess(
    data: Seq<u8>,
    scores: Seq<Score>,
    key: u8,
    score: Score,
    decrypted: Seq<u8>,
) -> bool {
    if none_scores(scores) {
        key == 0 && score == Score::nil() && decrypted == Seq::<u8>::empty()
    } else {
        wins(scores, key as int) && score == scores[key as int] && decrypted == trial(data, key)
    }
}

/// Key, score and trial are what the scan over the keys may report for `data`
/// under `criterion`: its report for some scores that the criterion may give
/// the 256 trials.
pub open spec fn is_scan_report<C: BytesCriterion>(
    criterion: C,
    data: Seq<u8>,
    key: u8,
    score: Score,
    decrypted: Seq<u8>,
) -> bool {
    exists|scores: Seq<Score>|
        #![trigger are_trial_scores(criterion, data, scores)]
        are_trial_scores(criterion, data, scores) && is_best_guess(
            data,
            scores,
            key,
            score,
            decrypted,
        )
}

/// The key byte is one that the scan may report for `data` under `criterion`.
pub open spec fn is_key_guess<C: BytesCriterion>(criterion: C, data: Seq<u8>, key: u8) -> bool {
    exists|score: Score, decrypted: Seq<u8>|
        #![trigger is_scan_report(criterion, data, key, score, decrypted)]
        is_scan_report(criterion, data, key, score, decrypted)
}

/// At most one score wins, and none does where none is above 0.
pub proof fn lemma_winner_is_unique(scores: Seq<Score>, k: int, l: int)
    requires
        wins(scores, k),
    ensures
        !none_scores(scores),
        wins(scores, l) ==> l == k,
{
}

/// Under a criterion that is a function the scan has one report only: trying
/// the keys twice gives the same key, score and trial.
pub proof fn lemma_scan_report_is_unique<C: BytesCriterion>(
    criterion: C,
    data: Seq<u8>,
    first: (u8, Score, Seq<u8>),
    second: (u8, Score, Seq<u8>),
)
    requires
        is_function(criterion),
        is_scan_report(criterion, data, first.0, first.1, first.2),
        is_scan_report(criterion, data, second.0, second.1, second.2),
    ensures
        first == second,
{
    let scores1 = choose|scores: Seq<Score>|
        #![trigger are_trial_scores(criterion, data, scores)]
        are_trial_scores(criterion, data, scores) && is_best_guess(
            data,
            scores,
            first.0,
            first.1,
            first.2,
        );
    let scores2 = choose|scores: Seq<Score>|
        #![trigger are_trial_scores(criterion, data, scores)]
        are_trial_scores(criterion, data, scores) && is_best_guess(
            data,
            scores,
            second.0,
            second.1,
            second.2,
        );
    assert forall|k: int| 0 <= k < 256 implies scores1[k] == scores2[k] by {
        assert(criterion.admits(trial(data, k as u8), scores1[k]));
        assert(criterion.admits(trial(data, k as u8), scores2[k]));
    }
    assert(scores1 =~= scores2);
    if !none_scores(scores1) {
        lemma_winner_is_unique(scores1, first.0 as int, second.0 as int);
    }
}

/// Under `criterion` the bytes `plaintext` stand out against what any wrong
/// key makes of their encryption under `key`: whatever scores the criterion
/// may give, that of the plaintext is above 0 and above that of every other
/// trial.
pub open spec fn stands_out<C: BytesCriterion>(criterion: C, plaintext: Seq<u8>, key: u8) -> bool {
    &&& forall|own: Score|
        criterion.admits(plaintext, own) ==> (#[trigger] own.above(Score::nil()))
    &&& forall|wrong: u8, own: Score, other: Score|
        #![trigger
            criterion.admits(plaintext, own),
            criterion.admits(trial(trial(plaintext, key), wrong), other),
        ]
        wrong != key && criterion.admits(plaintext, own) && criterion.admits(
            trial(trial(plaintext, key), wrong),
            other,
        ) ==> own.above(other)
}

/// The scan recovers a one-byte key wherever the plaintext stands out: its
/// report on the encrypted bytes is the key and the plaintext.
pub proof fn lemma_scan_recovers<C: BytesCriterion>(
    criterion: C,
    plaintext: Seq<u8>,
    key: u8,
    report: (u8, Score, Seq<u8>),
)
    requires
        stands_out(criterion, plaintext, key),
        is_scan_report(criterion, trial(plaintext, key), report.0, report.1, report.2),
    ensures
        report.0 == key,
        report.2 == plaintext,
{
    let data = trial(plaintext, key);
    let scores = choose|scores: Seq<Score>|
        #![trigger are_trial_scores(criterion, data, scores)]
        are_trial_scores(criterion, data, scores) && is_best_guess(
            data,
            scores,
            report.0,
            report.1,
            report.2,
        );
    lemma_xor_apply_involution(plaintext, seq![key]);
    assert(trial(data, key) == plaintext);
    let own = scores[key as int];
    assert(criterion.admits(trial(data, key as int as u8), own));
    assert(own.above(Score::nil()));
    if report.0 != key {
        let other = scores[report.0 as int];
        assert(criterion.admits(trial(data, report.0 as int as u8), other));
        assert(own.above(other));
    }
}

/// Picks the winner among `scores`: the first of the highest ones, if it is
/// above 0.
pub fn best_trial(scores: &[Score]) -> (best: Option<usize>)
    ensures
        best matches Some(k) ==> wins(scores@, k as int),
        best is None ==> none_scores(scores@),
{
    let mut best: Option<usize> = None;
    let mut top = Score::zero();
    let mut i: usize = 0;
    while i < scores.len()
        invariant
            i <= scores.len(),
            best is None ==> top == Score::nil() && none_scores(scores@.take(i as int)),
            best matches Some(k) ==> k < i && top == scores@[k as int] && wins(
                scores@.take(i as int),
                k as int,
            ),
        decreases scores.len() - i,
    {
        let ghost seen = scores@.take(i as int);
        let ghost next = scores@.take(i + 1);
        let candidate = scores[i];
        assert(forall|j: int| 0 <= j < i ==> seen[j] == next[j]);
        if candidate.exceeds(&top) {
            proof {
                if let Some(k) = best {
                    lemma_above_transitive(candidate, top, Score::nil());
                }
                assert forall|j: int| 0 <= j < next.len() implies !(#[trigger] next[j]).above(
                    candidate,
                ) by {
                    if j < i {
                        assert(!seen[j].above(top));
                        if next[j].above(candidate) {
                            lemma_above_transitive(next[j], candidate, top);
                        }
                    }
                }
                assert forall|j: int| 0 <= j < i implies candidate.above(#[trigger] next[j]) by {
                    assert(!seen[j].above(top));
                    lemma_above_cotransitive(candidate, next[j], top);
                }
            }
            best = Some(i);
            top = candidate;
        } else {
            proof {
                if let Some(k) = best {
                    assert(seen[k as int].above(Score::nil()));
                    assert forall|j: int| 0 <= j < k implies next[k as int].above(
                        #[trigger] next[j],
                    ) by {
                        assert(seen[k as int].above(seen[j]));
                    }
                }
            }
        }
        i = i + 1;
    }
    assert(scores@.take(i as int) =~= scores@);
    best
}

/// Decrypts `input` under the one-byte key `key`.
pub fn decrypt_with(input: &[u8], key: u8) -> (decrypted: Vec<u8>)
    ensures
        decrypted@ == trial(input@, key),
{
    let key_bytes: Vec<u8> = vec![key];
    assert(key_bytes@ =~= seq![key]);
    match Xor::new(key_bytes.as_slice()) {
        Ok(cipher) => cipher.decrypt(input),
        Err(_) => Vec::new(),
    }
}

/// The attack on a one-byte key: every key is tried and the trials are rated
/// by a criterion.
pub struct SingleByteAttack<C: BytesCriterion> {
    criterion: C,
}

impl SingleByteAttack<Criterion> {
    /// The attack that rates trials by their share of prose characters.
    pub fn new() -> (attack: SingleByteAttack<Criterion>)
        ensures
            attack.criterion() == Criterion::TextBytes,
    {
        SingleByteAttack { criterion: Criterion::TextBytes }
    }
}

impl<C: BytesCriterion> SingleByteAttack<C> {
    /// The criterion that rates the trials.
    pub closed spec fn criterion(self) -> C {
        self.criterion
    }

    /// The same attack under the criterion `bc`.
    pub fn with_criterion<D: BytesCriterion>(self, bc: D) -> (attack: SingleByteAttack<D>)
        ensures
            attack.criterion() == bc,
    {
        SingleByteAttack { criterion: bc }
    }

    /// The scores of the 256 trials, in the order of the keys.
    pub fn trial_scores(&self, input: &[u8]) -> (scores: Vec<Score>)
        ensures
            are_trial_scores(self.criterion(), input@, scores@),
    {
        let mut scores: Vec<Score> = Vec::new();
        let mut k: u16 = 0;
        while k < 256
            invariant
                k <= 256,
                scores@.len() == k,
                forall|j: int|
                    0 <= j < k ==> self.criterion.admits(
                        trial(input@, j as u8),
                        #[trigger] scores@[j],
                    ),
            decreases 256 - k,
        {
            let decrypted = decrypt_with(input, k as u8);
            let score = self.criterion.score(decrypted.as_slice());
            let ghost before = scores@;
            scores.push(score);
            assert(forall|j: int| 0 <= j < k ==> scores@[j] == before[j]);
            k = k + 1;
        }
        scores
    }

    /// Tries every key from 0 to 255 and reports the best: the key, the score
    /// of its trial and the trial itself. A later key replaces an earlier one
    /// only where it scores strictly higher, and the first must score above 0:
    /// where none does, the report is key 0, score 0 and no bytes.
    pub fn result(&self, input: &[u8]) -> (guess: (u8, Score, Vec<u8>))
        ensures
            is_scan_report(self.criterion(), input@, guess.0, guess.1, guess.2@),
            is_key_guess(self.criterion(), input@, guess.0),
    {
        let scores = self.trial_scores(input);
        match best_trial(scores.as_slice()) {
            Some(k) => {
                let key = k as u8;
                let decrypted = decrypt_with(input, key);
                proof {
                    lemma_winner_is_unique(scores@, k as int, k as int);
                    assert(is_best_guess(input@, scores@, key, scores@[k as int], decrypted@));
                    assert(is_scan_report(
                        self.criterion,
                        input@,
                        key,
                        scores@[k as int],
                        decrypted@,
                    ));
                }
                (key, scores[k], decrypted)
            },
            None => {
                let decrypted: Vec<u8> = Vec::new();
                proof {
                    assert(is_best_guess(input@, scores@, 0, Score::nil(), decrypted@));
                    assert(is_scan_report(self.criterion, input@, 0, Score::nil(), decrypted@));
                }
                (0, Score::zero(), decrypted)
            },
        }
    }
}

/// Breaks a one-byte key under the criterion `scorer` and reports the key and
/// what it decrypts to (see [`SingleByteAttack::result`]).
pub fn single_byte_decrypted<C: BytesCriterion>(bytes: &[u8], scorer: C) -> (guess: (u8, Vec<u8>))
    ensures
        exists|score: Score|
            #![trigger is_scan_report(scorer, bytes@, guess.0, score, guess.1@)]
            is_scan_report(scorer, bytes@, guess.0, score, guess.1@),
        is_key_guess(scorer, bytes@, guess.0),
{
    let attack = SingleByteAttack { criterion: scorer };
    let (key, score, decrypted) = attack.result(bytes);
    let guess = (key, decrypted);
    assert(is_scan_report(scorer, bytes@, guess.0, score, guess.1@));
    guess
}

} // verus!
