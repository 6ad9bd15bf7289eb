//! Bodies typed and shown in hexadecimal.

use mikui::kafka::hex::{decode, encode};

#[test]
fn reads_the_shapes_dumps_actually_print() {
    let expected = vec![0x1a, 0x2b, 0x3c];
    for text in [
        "1a2b3c", "1a 2b 3c", "1a:2b:3c", "1a-2b-3c", "0x1a2b3c", " 1A2B3C ",
    ] {
        assert_eq!(decode(text).unwrap(), expected, "{text:?}");
    }
}

#[test]
fn empty_input_is_an_empty_body_not_an_error() {
    assert_eq!(decode("").unwrap(), Vec::<u8>::new());
    assert_eq!(decode("   ").unwrap(), Vec::<u8>::new());
}

#[test]
fn a_typo_is_reported_with_its_position_not_skipped() {
    let error = decode("1a2g3c").unwrap_err();
    assert!(error.contains("'g'"), "{error}");
    assert!(error.contains("position 4"), "{error}");
}

#[test]
fn odd_digit_count_is_reported() {
    let error = decode("1a2").unwrap_err();
    assert!(error.contains("odd"), "{error}");
}

#[test]
fn position_points_into_the_original_text() {
    let error = decode("0x1a 2z").unwrap_err();
    assert!(error.contains("position 7"), "{error}");
}

#[test]
fn prints_upper_case_pairs_separated_by_spaces() {
    assert_eq!(encode(&[0x1a, 0x2b, 0x3c]), "1A 2B 3C");
    assert_eq!(encode(&[0x0f, 0x00, 0xff]), "0F 00 FF");
    assert_eq!(encode(&[0x01]), "01");
    assert_eq!(encode(&[]), "");
}

#[test]
fn what_is_printed_reads_back_as_the_same_bytes() {
    let bytes: Vec<u8> = (0..=255u8).collect();
    assert_eq!(decode(&encode(&bytes)).unwrap(), bytes);
}

#[test]
fn errors_are_exact() {
    assert!(decode("  1a 2\n").unwrap_err().contains("odd"));
    assert!(decode("\\'").unwrap_err().contains(r"'\\'"));
    assert_eq!(decode("0X1A").unwrap(), vec![0x1a]);
    // White space in front counts.
    assert!(decode("  z").unwrap_err().contains("position 3"));
}
