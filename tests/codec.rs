use base58_crt::base58::{base58_to_int, int_to_base58, DecodeError};
use base58_crt::trinary::{int_to_trinary, trinary_to_int};

#[test]
fn decode_known_text() {
    assert_eq!(base58_to_int("3KMUV7snH6wU48zt"), Ok(654996940358353959041587265));
}

#[test]
fn decode_single_symbols() {
    assert_eq!(base58_to_int("1"), Ok(0));
    assert_eq!(base58_to_int("2"), Ok(1));
    assert_eq!(base58_to_int("z"), Ok(57));
    assert_eq!(base58_to_int("21"), Ok(58));
}

#[test]
fn decode_empty_is_zero() {
    assert_eq!(base58_to_int(""), Ok(0));
}

#[test]
fn decode_rejects_excluded_characters() {
    for bad in ['0', 'I', 'O', 'l'] {
        let text = format!("3KM{}UV", bad);
        assert_eq!(base58_to_int(&text), Err(DecodeError::InvalidCharacter(bad)));
    }
}

#[test]
fn decode_reports_first_invalid_character() {
    assert_eq!(base58_to_int("ab-c+"), Err(DecodeError::InvalidCharacter('-')));
    assert_eq!(base58_to_int("é"), Err(DecodeError::InvalidCharacter('é')));
}

#[test]
fn decode_overflow() {
    let text = "z".repeat(22);
    assert_eq!(base58_to_int(&text), Err(DecodeError::Overflow));
    let fits = "z".repeat(21);
    assert!(base58_to_int(&fits).is_ok());
}

#[test]
fn decode_invalid_beats_overflow() {
    let text = format!("{}0", "z".repeat(30));
    assert_eq!(base58_to_int(&text), Err(DecodeError::InvalidCharacter('0')));
}

#[test]
fn encode_zero_is_first_symbol() {
    assert_eq!(int_to_base58(0), "1");
}

#[test]
fn encode_small_values() {
    assert_eq!(int_to_base58(57), "z");
    assert_eq!(int_to_base58(58), "21");
    assert_eq!(int_to_base58(1000), "JF");
}

#[test]
fn encode_largest_value() {
    assert_eq!(int_to_base58(u128::MAX), "YcVfxkQb6JRzqk5kF2tNLv");
    assert_eq!(base58_to_int("YcVfxkQb6JRzqk5kF2tNLv"), Ok(u128::MAX));
}

#[test]
fn base58_round_trip_texts() {
    for text in ["3KMUV7snH6wU48zt", "1", "z", "2NEpo7TZRRrLZSi2U", "YcVfxkQb6JRzqk5kF2tNLv"] {
        let v = base58_to_int(text).unwrap();
        assert_eq!(int_to_base58(v), text);
    }
}

#[test]
fn base58_leading_zero_symbols_are_dropped() {
    let v = base58_to_int("11z").unwrap();
    assert_eq!(int_to_base58(v), "z");
}

#[test]
fn trinary_small_value() {
    let d = int_to_trinary(5);
    assert_eq!(d.len(), 60);
    assert!(d[..58].iter().all(|&x| x == 0));
    assert_eq!(d[58], 1);
    assert_eq!(d[59], 2);
    assert_eq!(trinary_to_int(&d), 5);
}

#[test]
fn trinary_round_trip_values() {
    let top = 3u128.pow(60) - 1;
    for n in [0u128, 1, 2, 3, 80, 654996940358353959041587265, top] {
        let d = int_to_trinary(n);
        assert!(d.iter().all(|&x| x < 3));
        assert_eq!(trinary_to_int(&d), n);
    }
    assert!(int_to_trinary(top).iter().all(|&x| x == 2));
}

#[test]
fn trinary_truncates_high_digits() {
    let n = 3u128.pow(60) + 5;
    assert_eq!(trinary_to_int(&int_to_trinary(n)), 5);
}
