use op1_patch::keys::{parse_keys, parse_semitones, ListError, NumberError};
use std::num::IntErrorKind;

fn list(entries: &[&str]) -> Vec<String> {
    entries.iter().map(|e| e.to_string()).collect()
}

fn kind_of(e: &IntErrorKind) -> NumberError {
    match e {
        IntErrorKind::Empty => NumberError::Empty,
        IntErrorKind::InvalidDigit => NumberError::InvalidDigit,
        IntErrorKind::PosOverflow => NumberError::PosOverflow,
        IntErrorKind::NegOverflow => NumberError::NegOverflow,
        _ => panic!("another kind of error"),
    }
}

#[test]
fn keys_are_listed_one_by_one() {
    assert_eq!(parse_keys(&list(&["1", "2", "13", "14"])), Ok(vec![1, 2, 13, 14]));
    assert_eq!(parse_keys(&list(&[])), Ok(vec![]));
    assert_eq!(parse_keys(&list(&["0", "255", "+5", "007"])), Ok(vec![0, 255, 5, 7]));
}

#[test]
fn a_colon_stands_for_all_keys_between() {
    assert_eq!(
        parse_keys(&list(&["1:7", "13:19"])),
        Ok(vec![1, 2, 3, 4, 5, 6, 7, 13, 14, 15, 16, 17, 18, 19])
    );
    assert_eq!(parse_keys(&list(&["7:4", "9:9", "24"])), Ok(vec![7, 6, 5, 4, 9, 24]));
    assert_eq!(parse_keys(&list(&["+2:03"])), Ok(vec![2, 3]));
}

#[test]
fn a_key_that_is_no_number_is_refused() {
    let number = |at, kind| Err(ListError::Number(at, kind));
    assert_eq!(parse_keys(&list(&["256"])), number(0, NumberError::PosOverflow));
    assert_eq!(parse_keys(&list(&["1", "x"])), number(1, NumberError::InvalidDigit));
    assert_eq!(parse_keys(&list(&["1", "2", ""])), number(2, NumberError::Empty));
    assert_eq!(parse_keys(&list(&["1:"])), number(0, NumberError::Empty));
    assert_eq!(parse_keys(&list(&[":1"])), number(0, NumberError::Empty));
    assert_eq!(parse_keys(&list(&["3", "1:x"])), number(1, NumberError::InvalidDigit));
    assert_eq!(parse_keys(&list(&["x:300"])), number(0, NumberError::InvalidDigit));
    assert_eq!(parse_keys(&list(&["-1"])), number(0, NumberError::InvalidDigit));
    assert_eq!(parse_keys(&list(&["+"])), number(0, NumberError::InvalidDigit));
    assert_eq!(parse_keys(&list(&["1 "])), number(0, NumberError::InvalidDigit));
    assert_eq!(parse_keys(&list(&["\u{661}"])), number(0, NumberError::InvalidDigit));
    assert_eq!(parse_keys(&list(&["999x"])), number(0, NumberError::PosOverflow));
    assert_eq!(parse_keys(&list(&["25x"])), number(0, NumberError::InvalidDigit));
}

#[test]
fn an_entry_with_two_colons_is_refused() {
    assert_eq!(parse_keys(&list(&["1", "1:2:3"])), Err(ListError::Invalid(1)));
    assert_eq!(parse_keys(&list(&["::"])), Err(ListError::Invalid(0)));
    assert_eq!(parse_keys(&list(&["x:y:z", "256"])), Err(ListError::Invalid(0)));
    assert_eq!(parse_semitones(&list(&["1:2:"])), Err(ListError::Invalid(0)));
}

#[test]
fn the_first_entry_that_cannot_be_taken_decides() {
    assert_eq!(
        parse_keys(&list(&["1", "300", "1:2:3"])),
        Err(ListError::Number(1, NumberError::PosOverflow))
    );
}

#[test]
fn semitones_may_be_negative() {
    assert_eq!(parse_semitones(&list(&["-7:-1"])), Ok(vec![-7, -6, -5, -4, -3, -2, -1]));
    assert_eq!(parse_semitones(&list(&["2:-2", "-128", "127", "+3", "-0"])), Ok(vec![2, 1, 0, -1, -2, -128, 127, 3, 0]));
    let number = |at, kind| Err(ListError::Number(at, kind));
    assert_eq!(parse_semitones(&list(&["-129"])), number(0, NumberError::NegOverflow));
    assert_eq!(parse_semitones(&list(&["128"])), number(0, NumberError::PosOverflow));
    assert_eq!(parse_semitones(&list(&["-"])), number(0, NumberError::InvalidDigit));
    assert_eq!(parse_semitones(&list(&["--1"])), number(0, NumberError::InvalidDigit));
    assert_eq!(parse_semitones(&list(&["1.5"])), number(0, NumberError::InvalidDigit));
}

#[test]
fn numbers_are_read_as_the_standard_library_reads_them() {
    let texts = [
        "", "0", "7", "255", "256", "1000", "+0", "+255", "+256", "-0", "-1", "+", "-", "++1",
        "00000000000000000000255", "00000000000000000000256", "12a", "a12", " 1", "1 ", "1_0",
        "0x10", "99999999999999999999999999", "-99999999999999999999999999", "127", "128",
        "-128", "-129", "+-1", "-+1", "1:2",
    ];
    for text in texts {
        if !text.contains(':') {
            let ours = parse_keys(&list(&[text]));
            match text.parse::<u8>() {
                Ok(n) => assert_eq!(ours, Ok(vec![n]), "{:?}", text),
                Err(e) => {
                    assert_eq!(ours, Err(ListError::Number(0, kind_of(e.kind()))), "{:?}", text)
                }
            }
            let ours = parse_semitones(&list(&[text]));
            match text.parse::<i8>() {
                Ok(n) => assert_eq!(ours, Ok(vec![n]), "{:?}", text),
                Err(e) => {
                    assert_eq!(ours, Err(ListError::Number(0, kind_of(e.kind()))), "{:?}", text)
                }
            }
        }
    }
}
