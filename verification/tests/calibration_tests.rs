use rangefinder::calibration::{
    calibration_entries, is_space_byte, pair_tokens, parse_position, split_tokens,
    CalibrationError, Entry,
};
use rangefinder::lookup::{Distance, LookupTable};

#[test]
fn white_space_is_blank_or_control() {
    for byte in [b' ', b'\t', b'\n', 0x0b, 0x0c, b'\r'] {
        assert!(is_space_byte(byte));
    }
    for byte in [0u8, 8, 14, 31, 33, b'0', b'a', 0x85, 0xa0, 255] {
        assert!(!is_space_byte(byte));
    }
}

#[test]
fn text_is_cut_at_white_space() {
    assert_eq!(split_tokens(b"10 2.0\n20\t4.0"), vec![(0, 2), (3, 6), (7, 9), (10, 13)]);
    assert_eq!(split_tokens(b"  a \r\n bc  "), vec![(2, 3), (7, 9)]);
    assert_eq!(split_tokens(b"abc"), vec![(0, 3)]);
    assert_eq!(split_tokens(b""), Vec::new());
    assert_eq!(split_tokens(b" \n\t "), Vec::new());
    assert_eq!(split_tokens(b"a b"), vec![(0, 1), (2, 3)]);
}

#[test]
fn position_is_a_whole_number() {
    assert_eq!(parse_position(b"0"), Some(0));
    assert_eq!(parse_position(b"2591"), Some(2591));
    assert_eq!(parse_position(b"007"), Some(7));
    assert_eq!(parse_position(b"+15"), Some(15));
    assert_eq!(parse_position(b""), None);
    assert_eq!(parse_position(b"+"), None);
    assert_eq!(parse_position(b"-1"), None);
    assert_eq!(parse_position(b"1.5"), None);
    assert_eq!(parse_position(b"12a"), None);
    assert_eq!(parse_position(b"++1"), None);
    assert_eq!(parse_position(b"1+"), None);
}

#[test]
fn position_must_fit() {
    let most = usize::MAX.to_string();
    assert_eq!(parse_position(most.as_bytes()), Some(usize::MAX));
    let mut more = most.clone();
    more.push('0');
    assert_eq!(parse_position(more.as_bytes()), None);
    assert_eq!(parse_position(b"99999999999999999999999999999999999999999999"), None);
    assert_eq!(parse_position(b"9999999999999999999999999999999999999999999x"), None);
}

#[test]
fn tokens_come_in_pairs() {
    let text = b"10 2.0 20 4.0";
    assert_eq!(
        calibration_entries(text),
        Ok(vec![
            Entry { position: 10, distance_start: 3, distance_end: 6 },
            Entry { position: 20, distance_start: 10, distance_end: 13 },
        ])
    );
    assert_eq!(calibration_entries(b""), Ok(Vec::new()));
    assert_eq!(calibration_entries(b"\n"), Ok(Vec::new()));
}

#[test]
fn odd_token_count_is_an_error() {
    assert_eq!(calibration_entries(b"10 2.0 20"), Err(CalibrationError::OddTokenCount));
    assert_eq!(calibration_entries(b"10"), Err(CalibrationError::OddTokenCount));
}

#[test]
fn bad_position_is_an_error() {
    assert_eq!(
        calibration_entries(b"10 2.0 x 4.0"),
        Err(CalibrationError::BadPosition { token: 2 })
    );
    assert_eq!(calibration_entries(b"1.5 2.0"), Err(CalibrationError::BadPosition { token: 0 }));
    // The position is read before the distance is missed.
    assert_eq!(calibration_entries(b"10 2.0 x"), Err(CalibrationError::BadPosition { token: 2 }));
}

#[test]
fn pairing_follows_the_tokens_given() {
    let text = b"7 a 8 b";
    let tokens = split_tokens(text);
    assert_eq!(
        pair_tokens(text, &tokens),
        Ok(vec![
            Entry { position: 7, distance_start: 2, distance_end: 3 },
            Entry { position: 8, distance_start: 6, distance_end: 7 },
        ])
    );
    assert_eq!(pair_tokens(text, &vec![(0, 1)]), Err(CalibrationError::OddTokenCount));
    assert_eq!(pair_tokens(text, &Vec::new()), Ok(Vec::new()));
}

#[test]
fn calibration_text_becomes_a_table() {
    let text = b"10 2.0\n20 4.0\n";
    let entries = calibration_entries(text).unwrap();
    let mut samples = Vec::new();
    for entry in entries {
        let word = std::str::from_utf8(&text[entry.distance_start..entry.distance_end]).unwrap();
        let distance: f64 = word.parse().unwrap();
        samples.push((entry.position, (distance * 1000.0).round() as i64));
    }
    let table = LookupTable::calibrated(2592, &samples).unwrap();
    assert_eq!(table.dist(15), Distance::Interpolated { numerator: 30000, denominator: 10 });
    assert_eq!(table.dist(10), Distance::Exact(2000));
    assert_eq!(table.dist(9), Distance::OutOfRange);
    assert_eq!(table.dist(2591), Distance::OutOfRange);
}
