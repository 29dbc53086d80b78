use cryt::bytes::hamming_distance;
use cryt::criteria::{BytesCriterion, Criterion, FnCriterion};
use cryt::keysize::{
    hamming_distance_criterion, insert_ranked, FnKeysizeCriterion, HammingDistance, KeysizeAttack,
    KeysizeCandidate, KeysizeCriterion, RangeError,
};
use cryt::repeated::{transpose_column, RepeatedAttack};
use cryt::score::Score;
use cryt::single_byte::{best_trial, single_byte_decrypted, SingleByteAttack};
use cryt::xor::{repeated_xor, Xor};

fn as_f32(score: Score) -> f32 {
    score.numerator() as f32 / score.denominator() as f32
}

/// The inverse of the mean distance of a pair, per byte of a chunk, in the
/// order in which the floating point operations are to be done.
fn inverse_mean_distance(score: Score, size: u32) -> f32 {
    let pairs = score.numerator() / size as u64;
    1.0 / (score.denominator() as f32 / pairs as f32 / size as f32)
}

struct CountOf(u8);

impl BytesCriterion for CountOf {
    fn score(&self, bytes: &[u8]) -> Score {
        Score::new(bytes.iter().filter(|&&b| b == self.0).count() as u64, 1)
    }
}

struct CountAnyOf(&'static str);

impl BytesCriterion for CountAnyOf {
    fn score(&self, bytes: &[u8]) -> Score {
        let known = self.0.as_bytes();
        Score::new(bytes.iter().filter(|&&b| known.iter().any(|&c| c == b)).count() as u64, 1)
    }
}

struct Never;

impl BytesCriterion for Never {
    fn score(&self, _: &[u8]) -> Score {
        Score::new(0, 7)
    }
}

struct Favourite(u32);

impl KeysizeCriterion for Favourite {
    fn score(&self, _: &[u8], keysize: u32) -> Score {
        if keysize == self.0 {
            Score::new(2, 1)
        } else {
            Score::new(1, keysize as u64)
        }
    }
}

struct Flat;

impl KeysizeCriterion for Flat {
    fn score(&self, _: &[u8], keysize: u32) -> Score {
        Score::new(keysize as u64, 2 * keysize as u64)
    }
}

#[test]
fn xor_single_byte_decryption_retuns_byte_with_highest_score() {
    let input = "eeeee English text with lots of 'e' eeeeeeee".as_bytes();
    let key = &['x' as u8];
    let encrypted = &(Xor::new(key).unwrap()).encrypt(input);

    let scorer = |i: &[u8]| {
        Score::new(i.iter().filter(|&&b| b == 'e' as u8).collect::<Vec<_>>().len() as u64, 1)
    };

    let attack = SingleByteAttack::new().with_criterion(FnCriterion::new(scorer));

    let (key, score, decrypted) = attack.result(encrypted);

    assert_eq!(key, 'x' as u8);
    assert_eq!(as_f32(score), 15.0);
    assert_eq!(decrypted, input);
}

#[test]
fn lib_single_byte_decryption_retuns_byte_with_highest_score() {
    let input = "eeeee English text with lots of 'e' eeeeeeee".as_bytes();
    let key = &['x' as u8][..];
    let encrypted = &repeated_xor(input, key).unwrap()[..];

    fn scorer(input: &[u8]) -> Score {
        Score::new(input.into_iter().filter(|&&b| b == 0x65).collect::<Vec<_>>().len() as u64, 1)
    }

    let (key, decrypted) = single_byte_decrypted(encrypted, FnCriterion::new(scorer));

    assert_eq!(key, 'x' as u8);
    assert_eq!(decrypted, input);
}

#[test]
fn test_repeated_xor_keysize() {
    let keysize_scorer = |_: &[u8], keysize: u32| {
        if keysize == 8 {
            Score::new(2, 1)
        } else {
            Score::new(1, keysize as u64)
        }
    };

    let result = KeysizeAttack::new()
        .with_min_length(1)
        .with_max_length(10)
        .with_criterion(FnKeysizeCriterion::new(keysize_scorer))
        .result("test".as_bytes())
        .unwrap();

    let result: Vec<(u32, f32)> = result.iter().map(|c| (c.size, as_f32(c.score))).collect();

    assert_eq!(
        result,
        [
            (8, 2.0),
            (1, 1.0 / 1.0),
            (2, 1.0 / 2.0),
            (3, 1.0 / 3.0),
            (4, 1.0 / 4.0),
            (5, 1.0 / 5.0),
            (6, 1.0 / 6.0),
            (7, 1.0 / 7.0),
            (9, 1.0 / 9.0),
            (10, 1.0 / 10.0)
        ]
    )
}

#[test]
fn hamming_distance_criterion_with_input_multiple_of_size() {
    let input = Vec::from("some random text in eng!".as_bytes());
    let score = hamming_distance_criterion(&input, 6);

    let expected = 1.0
        / (((hamming_distance("some r".as_bytes(), "andom ".as_bytes())
            + hamming_distance("text i".as_bytes(), "n eng!".as_bytes())) as f32
            / 2.0)
            / 6.0);

    assert_eq!(inverse_mean_distance(score, 6), expected);
    assert_eq!(score, Score::new(2 * 6, 33));
}

#[test]
fn hamming_distance_criterion_with_input_not_multiple_of_size() {
    let input = Vec::from("some random text!!XX".as_bytes());
    let score = hamming_distance_criterion(&input, 3);

    let expected = 1.0
        / (((hamming_distance("som".as_bytes(), "e r".as_bytes())
            + hamming_distance("and".as_bytes(), "om ".as_bytes())
            + hamming_distance("tex".as_bytes(), "t!!".as_bytes())) as f32
            / 3.0)
            / 3.0);

    assert_eq!(inverse_mean_distance(score, 3), expected);
    assert_eq!(score, Score::new(3 * 3, 26));
}

#[test]
fn hamming_distance_criterion_with_input_pairs_not_multiple_of_2() {
    let input = Vec::from("some random tex!".as_bytes());
    let score = hamming_distance_criterion(&input, 3);

    let expected = 1.0
        / (((hamming_distance("som".as_bytes(), "e r".as_bytes())
            + hamming_distance("and".as_bytes(), "om ".as_bytes())) as f32
            / 2.0)
            / 3.0);

    assert_eq!(inverse_mean_distance(score, 3), expected);
    assert_eq!(score, Score::new(2 * 3, 20));
}

#[test]
fn repeated_xor_decrypted() {
    let plain_text = "this text is encrypted with repeated xor".as_bytes();
    let key = "SeCreT".as_bytes();
    let input = Xor::new(key).unwrap().encrypt(plain_text);

    let keysize_scorer = move |_: &[u8], keysize: u32| {
        if keysize == key.len() as u32 {
            Score::new(2, 1)
        } else {
            Score::new(1, keysize as u64)
        }
    };

    let xor_scorer = |input: &[u8]| {
        Score::new(
            input
                .iter()
                .filter(|&&b| {
                    "this text is encrypted with repeated xor".as_bytes().iter().any(|&c| c == b)
                })
                .count() as u64,
            1,
        )
    };

    let (resultkey, decrypted) = RepeatedAttack::new()
        .with_single_byte_attack(
            SingleByteAttack::new().with_criterion(FnCriterion::new(xor_scorer)),
        )
        .with_keysize_attack(
            KeysizeAttack::new()
                .with_min_length(1)
                .with_max_length(15)
                .with_criterion(FnKeysizeCriterion::new(keysize_scorer)),
        )
        .result(&input)
        .unwrap();

    assert_eq!(Vec::from(key), resultkey);
    assert_eq!(Vec::from(plain_text), decrypted);
}

#[test]
fn single_byte_attack_finds_the_key_of_a_sentence() {
    let sentence = "Every evening the eleven elders met beneath the elm tree.".as_bytes();
    let encrypted = Xor::new(&[0x78]).unwrap().encrypt(sentence);
    let (key, _, decrypted) =
        SingleByteAttack::new().with_criterion(CountOf(b'e')).result(&encrypted);
    assert_eq!(key, 0x78);
    assert_eq!(decrypted, sentence);
}

#[test]
fn single_byte_attack_with_the_default_criterion() {
    let sentence = "It was a bright cold day in April, and the clocks were striking.".as_bytes();
    let encrypted = Xor::new(&[0xa7]).unwrap().encrypt(sentence);
    let (key, score, decrypted) = SingleByteAttack::new().result(&encrypted);
    assert_eq!(key, 0xa7);
    assert_eq!(score, Score::new(64, 64));
    assert_eq!(decrypted, sentence);
}

#[test]
fn single_byte_attack_without_a_positive_score_reports_key_zero() {
    let (key, score, decrypted) =
        SingleByteAttack::new().with_criterion(Never).result("anything".as_bytes());
    assert_eq!(key, 0);
    assert_eq!(score, Score::zero());
    assert_eq!(decrypted, Vec::<u8>::new());

    let (key, score, decrypted) = SingleByteAttack::new().result(&[]);
    assert_eq!(key, 0);
    assert_eq!(score, Score::zero());
    assert_eq!(decrypted, Vec::<u8>::new());
}

#[test]
fn single_byte_attack_keeps_the_first_of_equal_scores() {
    // under the keys 0x00 and 0x20 the byte 0x20 or 0x00 is counted once
    struct SpaceOrNul;
    impl BytesCriterion for SpaceOrNul {
        fn score(&self, bytes: &[u8]) -> Score {
            Score::new(bytes.iter().filter(|&&b| b == 0x20 || b == 0x00).count() as u64, 4)
        }
    }
    let (key, score, decrypted) =
        SingleByteAttack::new().with_criterion(SpaceOrNul).result(&[0x20, 0x41]);
    assert_eq!(key, 0x00);
    assert_eq!(score, Score::new(1, 4));
    assert_eq!(decrypted, [0x20, 0x41]);
}

#[test]
fn best_trial_takes_the_first_of_the_highest() {
    let s = |n, d| Score::new(n, d);
    assert_eq!(best_trial(&[]), None);
    assert_eq!(best_trial(&[s(0, 1), s(0, 0), s(0, 9)]), None);
    assert_eq!(best_trial(&[s(0, 1), s(1, 3), s(2, 6), s(1, 4)]), Some(1));
    assert_eq!(best_trial(&[s(1, 2), s(2, 3), s(4, 6), s(3, 4), s(6, 8)]), Some(3));
    assert_eq!(best_trial(&[s(5, 1), s(1, 0), s(9, 1), s(2, 0)]), Some(1));
    assert_eq!(best_trial(&[s(u64::MAX, 1), s(u64::MAX, 2), s(u64::MAX - 1, 1)]), Some(0));
}

#[test]
fn scores_order_as_fractions() {
    let s = |n, d| Score::new(n, d);
    assert!(s(1, 2).exceeds(&s(1, 3)));
    assert!(!s(1, 3).exceeds(&s(1, 2)));
    assert!(!s(1, 2).exceeds(&s(2, 4)));
    assert!(!s(2, 4).exceeds(&s(1, 2)));
    assert!(s(1, 0).exceeds(&s(u64::MAX, 1)));
    assert!(!s(1, 0).exceeds(&s(7, 0)));
    assert!(!s(0, 0).exceeds(&s(0, 1)));
    assert!(!s(0, 1).exceeds(&s(0, 0)));
    assert!(s(1, u64::MAX).exceeds(&s(0, 0)));
    assert!(s(u64::MAX, u64::MAX - 1).exceeds(&s(u64::MAX - 1, u64::MAX - 2)) == false);
    assert!(s(u64::MAX - 1, u64::MAX - 2).exceeds(&s(u64::MAX, u64::MAX - 1)));
    assert_eq!(Score::ratio(3, 0), Score::zero());
    assert_eq!(Score::ratio(0, 0), Score::zero());
    assert_eq!(Score::ratio(3, 4), Score::new(3, 4));
}

#[test]
fn keysize_ranking_puts_the_favourite_first() {
    let ranking =
        KeysizeAttack::new().with_criterion(Favourite(8)).result("test".as_bytes()).unwrap();
    assert_eq!(ranking.len(), 32);
    assert_eq!(ranking[0], KeysizeCandidate { size: 8, score: Score::new(2, 1) });
    assert_eq!(ranking[1].size, 1);
    assert_eq!(ranking[31].size, 32);
    for pair in ranking.windows(2) {
        assert!(!pair[1].score.exceeds(&pair[0].score));
    }
}

#[test]
fn keysize_ranking_breaks_ties_by_the_shorter_key() {
    let ranking = KeysizeAttack::new()
        .with_criterion(Flat)
        .with_min_length(3)
        .with_max_length(7)
        .result(&[])
        .unwrap();
    let sizes: Vec<u32> = ranking.iter().map(|c| c.size).collect();
    assert_eq!(sizes, [3, 4, 5, 6, 7]);
    assert_eq!(ranking[4].score, Score::new(7, 14));
}

#[test]
fn keysize_estimation_twice_gives_the_same_ranking() {
    let text = "Burning 'em, if you ain't quick and nimble, I go crazy when I hear a cymbal";
    let input = Xor::new("ICE".as_bytes()).unwrap().encrypt(text.as_bytes());
    let attack = KeysizeAttack::new().with_max_length(12);
    let first = attack.result(&input).unwrap();
    let second = attack.result(&input).unwrap();
    assert_eq!(first, second);
    assert_eq!(first.len(), 12);
    let mut sizes: Vec<u32> = first.iter().map(|c| c.size).collect();
    sizes.sort();
    assert_eq!(sizes, (1..=12).collect::<Vec<u32>>());
    for pair in first.windows(2) {
        assert!(!pair[1].score.exceeds(&pair[0].score));
        assert!(pair[0].score.exceeds(&pair[1].score) || pair[0].size < pair[1].size);
    }
}

#[test]
fn keysize_range_is_checked_first() {
    let attack = KeysizeAttack::new();
    assert_eq!(attack.with_min_length(0).result(&[1, 2, 3]), Err(RangeError::MinBelowOne));
    let attack = KeysizeAttack::new();
    assert_eq!(
        attack.with_min_length(0).with_max_length(0).result(&[1, 2, 3]),
        Err(RangeError::MinBelowOne)
    );
    let attack = KeysizeAttack::new();
    assert_eq!(
        attack.with_min_length(5).with_max_length(4).result(&[1, 2, 3]),
        Err(RangeError::MaxBelowMin)
    );
    let attack = KeysizeAttack::new();
    let one = attack.with_min_length(5).with_max_length(5).result(&[1, 2, 3]).unwrap();
    assert_eq!(one, [KeysizeCandidate { size: 5, score: Score::zero() }]);
    let attack = RepeatedAttack::new().with_keysize_attack(KeysizeAttack::new().with_min_length(0));
    assert_eq!(attack.result(&[1, 2, 3]), Err(RangeError::MinBelowOne));
    let attack = RepeatedAttack::new()
        .with_keysize_attack(KeysizeAttack::new().with_min_length(9).with_max_length(8));
    assert_eq!(attack.result(&[1, 2, 3]), Err(RangeError::MaxBelowMin));
}

#[test]
fn hamming_distance_criterion_of_short_or_uniform_input() {
    // fewer than two whole chunks: the lowest score
    assert_eq!(hamming_distance_criterion("abcde".as_bytes(), 3), Score::zero());
    assert_eq!(hamming_distance_criterion(&[], 1), Score::zero());
    assert_eq!(HammingDistance.score("abc".as_bytes(), 2), Score::zero());
    // equal chunks: no distance under a positive numerator, above every finite score
    let uniform = hamming_distance_criterion("abcabcabcabc".as_bytes(), 3);
    assert_eq!(uniform, Score::new(6, 0));
    assert!(uniform.exceeds(&Score::new(u64::MAX, 1)));
    // one pair, the third chunk is left alone
    assert_eq!(hamming_distance_criterion(&[0x00, 0xff, 0x0f], 1), Score::new(1, 8));
}

#[test]
fn insert_ranked_goes_behind_equal_scores() {
    let c = |size, n, d| KeysizeCandidate { size, score: Score::new(n, d) };
    let mut ranking = Vec::new();
    insert_ranked(&mut ranking, c(1, 1, 2));
    insert_ranked(&mut ranking, c(2, 3, 4));
    insert_ranked(&mut ranking, c(3, 2, 4));
    insert_ranked(&mut ranking, c(4, 0, 1));
    insert_ranked(&mut ranking, c(5, 1, 0));
    insert_ranked(&mut ranking, c(6, 3, 4));
    assert_eq!(
        ranking,
        [c(5, 1, 0), c(2, 3, 4), c(6, 3, 4), c(1, 1, 2), c(3, 2, 4), c(4, 0, 1)]
    );
    // a shorter key goes before the longer ones of its score
    insert_ranked(&mut ranking, c(0, 4, 8));
    assert_eq!(
        ranking,
        [c(5, 1, 0), c(2, 3, 4), c(6, 3, 4), c(0, 4, 8), c(1, 1, 2), c(3, 2, 4), c(4, 0, 1)]
    );
    assert!(c(2, 3, 4).outranks(&c(6, 3, 4)));
    assert!(!c(6, 3, 4).outranks(&c(2, 6, 8)));
    assert!(c(9, 1, 1).outranks(&c(2, 3, 4)));
}

#[test]
fn columns_take_every_nth_byte() {
    let input = [0u8, 1, 2, 3, 4, 5, 6, 7, 8, 9];
    assert_eq!(transpose_column(&input, 3, 0), [0, 3, 6, 9]);
    assert_eq!(transpose_column(&input, 3, 1), [1, 4, 7]);
    assert_eq!(transpose_column(&input, 3, 2), [2, 5, 8]);
    assert_eq!(transpose_column(&input, 1, 0), input);
    assert_eq!(transpose_column(&input, 10, 9), [9]);
    assert_eq!(transpose_column(&input, 12, 10), []);
    assert_eq!(transpose_column(&input, 12, 11), []);
    assert_eq!(transpose_column(&[], 1, 0), []);
}

const NOVEL: &str = "It is a truth universally acknowledged, that a single man in possession \
    of a good fortune, must be in want of a wife. However little known the feelings or \
    views of such a man may be on his first entering a neighbourhood, this truth is so \
    well fixed in the minds of the surrounding families, that he is considered the \
    rightful property of some one or other of their daughters. My dear Mr. Bennet, said \
    his lady to him one day, have you heard that Netherfield Park is let at last? Mr. \
    Bennet replied that he had not. But it is, returned she; for Mrs. Long has just been \
    here, and she told me all about it. Mr. Bennet made no answer. Do you not want to \
    know who has taken it? cried his wife impatiently. You want to tell me, and I have \
    no objection to hearing it. This was invitation enough.";

#[test]
fn repeated_attack_recovers_a_six_byte_key_end_to_end() {
    let plain_text = NOVEL.as_bytes();
    let key = "Secret".as_bytes();
    let input = Xor::new(key).unwrap().encrypt(plain_text);

    let (resultkey, decrypted) = RepeatedAttack::new()
        .with_single_byte_attack(SingleByteAttack::new().with_criterion(CountAnyOf(NOVEL)))
        .with_keysize_attack(KeysizeAttack::new().with_min_length(1).with_max_length(15))
        .result(&input)
        .unwrap();

    assert_eq!(resultkey, key);
    assert_eq!(decrypted, plain_text);
}

#[test]
fn repeated_attack_with_the_criteria_it_starts_with() {
    let plain_text = NOVEL.as_bytes();
    let key = [0x4b, 0x1e, 0xf3, 0x77, 0x0a, 0xc5];
    let input = Xor::new(&key).unwrap().encrypt(plain_text);

    // over the lengths from 1 to 32 a multiple of the key length comes first
    let ranking = KeysizeAttack::new().result(&input).unwrap();
    assert_eq!(ranking.len(), 32);
    assert_eq!(ranking[0].size, 30);
    let ranking = KeysizeAttack::new().with_max_length(15).result(&input).unwrap();
    assert_eq!(ranking.len(), 15);
    assert_eq!(ranking[0].size, 6);

    let (resultkey, decrypted) = RepeatedAttack::new()
        .with_keysize_attack(KeysizeAttack::new().with_max_length(15))
        .result(&input)
        .unwrap();
    assert_eq!(resultkey, key);
    assert_eq!(decrypted, plain_text);
}

#[test]
fn repeated_attack_on_a_wrong_length_reports_a_wrong_key() {
    let plain_text = NOVEL.as_bytes();
    let key = "Secret".as_bytes();
    let input = Xor::new(key).unwrap().encrypt(plain_text);

    let (resultkey, decrypted) = RepeatedAttack::new()
        .with_keysize_attack(KeysizeAttack::new().with_criterion(Favourite(5)))
        .result(&input)
        .unwrap();

    assert_eq!(resultkey.len(), 5);
    assert_ne!(decrypted, plain_text);
    assert_eq!(decrypted, Xor::new(&resultkey).unwrap().encrypt(&input));
}

#[test]
fn repeated_attack_recovers_key_with_a_criterion_of_the_known_alphabet() {
    let plain_text = "we hold these truths to be self evident. all of them. each and every \
        one of them, held and upheld."
        .as_bytes();
    let key = "kEyKeY".as_bytes();
    let input = Xor::new(key).unwrap().encrypt(plain_text);

    let (resultkey, decrypted) = RepeatedAttack::new()
        .with_single_byte_attack(SingleByteAttack::new().with_criterion(CountAnyOf(
            "we hold these truths to be self evident. all of them. each and every one of \
             them, held and upheld.",
        )))
        .with_keysize_attack(
            KeysizeAttack::new()
                .with_min_length(1)
                .with_max_length(15)
                .with_criterion(Favourite(6)),
        )
        .result(&input)
        .unwrap();

    assert_eq!(resultkey, key);
    assert_eq!(decrypted, plain_text);
}

struct ShareOf(u8);

impl BytesCriterion for ShareOf {
    fn score(&self, bytes: &[u8]) -> Score {
        Score::ratio(bytes.iter().filter(|&&b| b == self.0).count() as u64, bytes.len() as u64)
    }
}

struct Preferring(u32, u32);

impl KeysizeCriterion for Preferring {
    fn score(&self, _: &[u8], keysize: u32) -> Score {
        if keysize == self.0 {
            Score::new(3, 1)
        } else if keysize == self.1 {
            Score::new(2, 1)
        } else {
            Score::new(1, keysize as u64 + 1)
        }
    }
}

#[test]
fn trying_one_candidate_is_the_plain_attack() {
    let plain_text = "this text is encrypted with repeated xor".as_bytes();
    let key = "SeCreT".as_bytes();
    let input = Xor::new(key).unwrap().encrypt(plain_text);
    let attack = RepeatedAttack::new()
        .with_single_byte_attack(
            SingleByteAttack::new()
                .with_criterion(CountAnyOf("this text is encrypted with repeated xor")),
        )
        .with_keysize_attack(
            KeysizeAttack::new().with_max_length(15).with_criterion(Preferring(6, 4)),
        );
    let plain = attack.result(&input).unwrap();
    assert_eq!(attack.result_among(&input, 1, &Never), Ok(plain.clone()));
    assert_eq!(plain.0, key);
    assert_eq!(plain.1, plain_text);
}

#[test]
fn trying_more_candidates_keeps_the_best_rated_plaintext() {
    let plain_text = "this text is encrypted with repeated xor".as_bytes();
    let key = "SeCreT".as_bytes();
    let input = Xor::new(key).unwrap().encrypt(plain_text);
    // the estimation prefers the wrong length 4, then the right one
    let attack = RepeatedAttack::new()
        .with_single_byte_attack(
            SingleByteAttack::new()
                .with_criterion(CountAnyOf("this text is encrypted with repeated xor")),
        )
        .with_keysize_attack(
            KeysizeAttack::new().with_max_length(15).with_criterion(Preferring(4, 6)),
        );
    let (wrong_key, wrong_text) = attack.result(&input).unwrap();
    assert_eq!(wrong_key.len(), 4);
    assert_ne!(wrong_text, plain_text);
    assert_eq!(attack.attempt(&input, 4), (wrong_key.clone(), wrong_text.clone()));

    let rating = Criterion::TextBytes;
    assert_eq!(
        attack.result_among(&input, 1, &rating),
        Ok((wrong_key.clone(), wrong_text.clone()))
    );
    let (best_key, best_text) = attack.result_among(&input, 2, &rating).unwrap();
    assert_eq!(best_key, key);
    assert_eq!(best_text, plain_text);
    let (best_key, best_text) = attack.result_among(&input, 1000, &rating).unwrap();
    assert_eq!(best_key, key);
    assert_eq!(best_text, plain_text);

    // a rating that tells nothing apart keeps the better candidate
    assert_eq!(attack.result_among(&input, 5, &Never), Ok((wrong_key, wrong_text)));
    // and so does one under which the first attempt is level with the best
    let spaces = ShareOf(0x20);
    assert_eq!(
        attack.result_among(&input[..12], 2, &spaces).unwrap().0.len(),
        if spaces.score(&attack.attempt(&input[..12], 6).1)
            .exceeds(&spaces.score(&attack.attempt(&input[..12], 4).1))
        {
            6
        } else {
            4
        }
    );
}

#[test]
fn trying_candidates_checks_the_range_first() {
    let attack = RepeatedAttack::new().with_keysize_attack(KeysizeAttack::new().with_min_length(0));
    assert_eq!(attack.result_among(&[1, 2, 3], 3, &Never), Err(RangeError::MinBelowOne));
    let attack = RepeatedAttack::new()
        .with_keysize_attack(KeysizeAttack::new().with_min_length(3).with_max_length(2));
    assert_eq!(attack.result_among(&[1, 2, 3], 3, &Never), Err(RangeError::MaxBelowMin));
}

#[test]
fn recovered_key_is_as_long_as_asked() {
    let attack = RepeatedAttack::new();
    assert_eq!(attack.recover_key(&[], 3), [0, 0, 0]);
    // of the keys that turn a column into letters from a to f, the lowest is kept
    let attack = attack.with_single_byte_attack(
        SingleByteAttack::new().with_criterion(CountAnyOf("abcdefABCDEF")),
    );
    let input = Xor::new(&[0x01, 0x02]).unwrap().encrypt("aAbBcCdDeEfF".as_bytes());
    assert_eq!(attack.recover_key(&input, 2), [0x01, 0x02]);
    assert_eq!(attack.attempt(&input, 2).1, "aAbBcCdDeEfF".as_bytes());
    let input = Xor::new(&[0x21, 0x22]).unwrap().encrypt("aAbBcCdDeEfF".as_bytes());
    assert_eq!(attack.recover_key(&input, 2), [0x01, 0x02]);
    assert_eq!(attack.attempt(&input, 2).1, "AaBbCcDdEeFf".as_bytes());
}

#[test]
fn closures_and_criteria_of_ones_own_score_alike() {
    let input = "eleven bees, three eels".as_bytes();
    let counted = FnCriterion::new(|i: &[u8]| {
        Score::new(i.iter().filter(|&&b| b == b'e').count() as u64, 1)
    });
    assert_eq!(counted.score(input), CountOf(b'e').score(input));
    assert_eq!(counted.score(input), Score::new(9, 1));
    let flat =
        FnKeysizeCriterion::new(|_: &[u8], size: u32| Score::new(size as u64, 2 * size as u64));
    assert_eq!(flat.score(input, 7), Flat.score(input, 7));
}
