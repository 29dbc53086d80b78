use cryt::bytes::{bits_on, hamming_distance};

#[test]
fn lib_test_hamming_distance() {
    let input1 = "this is a test".as_bytes();
    let input2 = "wokka wokka!!!".as_bytes();

    assert_eq!(hamming_distance(input1, input2), 37);
}

#[test]
fn bytes_test_hamming_distance() {
    let input1 = "this is a test".as_bytes();
    let input2 = "wokka wokka!!!".as_bytes();

    assert_eq!(hamming_distance(&input1, &input2), 37);
}

#[test]
fn bits_on_counts_every_bit() {
    assert_eq!(bits_on(0x00), 0);
    assert_eq!(bits_on(0x01), 1);
    assert_eq!(bits_on(0x80), 1);
    assert_eq!(bits_on(0xa5), 4);
    assert_eq!(bits_on(0xff), 8);
}

#[test]
fn distance_is_symmetric() {
    let a = [0x00u8, 0xff, 0x0f, 0x31];
    let b = [0x10u8, 0x0f, 0xf0, 0x32];
    assert_eq!(hamming_distance(&a, &b), hamming_distance(&b, &a));
    assert_eq!(hamming_distance(&a, &b), 1 + 4 + 8 + 2);
}

#[test]
fn distance_to_itself_is_zero() {
    let a = "any bytes at all".as_bytes();
    assert_eq!(hamming_distance(a, a), 0);
}

#[test]
fn distance_of_empty_input_is_zero() {
    assert_eq!(hamming_distance(&[], &[1, 2, 3]), 0);
    assert_eq!(hamming_distance(&[1, 2, 3], &[]), 0);
    assert_eq!(hamming_distance(&[], &[]), 0);
}

#[test]
fn shorter_input_is_repeated() {
    // 0xff against 0x00 0x0f 0x00: 8 + 4 + 8 bits, whichever side is short
    assert_eq!(hamming_distance(&[0xff], &[0x00, 0x0f, 0x00]), 20);
    assert_eq!(hamming_distance(&[0x00, 0x0f, 0x00], &[0xff]), 20);
    assert_eq!(hamming_distance(&[0xff, 0x00], &[0x00, 0x00, 0x00]), 16);
}
