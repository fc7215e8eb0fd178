use ball_game::number::IntErrorKind;
use ball_game::parse_input::{char_is_whitespace, parse_number_selection, SelectionError};

fn parse(s: &str) -> Result<Vec<u32>, SelectionError> {
    parse_number_selection(&s.to_string())
}

#[test]
fn selection_of_single_numbers() {
    assert_eq!(parse("1 2 3").unwrap(), vec![1, 2, 3]);
}

#[test]
fn selection_is_sorted() {
    assert_eq!(parse("3 1 2").unwrap(), vec![1, 2, 3]);
    assert_eq!(parse("10 4-6 1").unwrap(), vec![1, 4, 5, 10]);
}

#[test]
fn selection_range_leaves_out_upper_bound() {
    assert_eq!(parse("1-4").unwrap(), vec![1, 2, 3]);
}

#[test]
fn selection_lists_each_amount_once() {
    assert_eq!(parse("2 2 1-3 2").unwrap(), vec![1, 2]);
}

#[test]
fn selection_of_empty_text_is_empty() {
    assert_eq!(parse("").unwrap(), Vec::<u32>::new());
    assert_eq!(parse(" \t\n ").unwrap(), Vec::<u32>::new());
}

#[test]
fn selection_splits_on_unicode_whitespace() {
    assert_eq!(parse("1\u{3000}2\u{a0}3\u{2028}4").unwrap(), vec![1, 2, 3, 4]);
}

#[test]
fn selection_allows_plus_sign() {
    assert_eq!(parse("+5 +1-+3").unwrap(), vec![1, 2, 5]);
}

#[test]
fn selection_invalid_range() {
    match parse("1 1-2-3") {
        Err(SelectionError::InvalidRange(w)) => assert_eq!(w, "1-2-3"),
        other => panic!("unexpected {:?}", other),
    }
    assert_eq!(parse("--").unwrap_err().message(), "Invalid range: --");
}

#[test]
fn selection_equal_bounds_is_refused() {
    match parse("5-5") {
        Err(SelectionError::Number(k)) => assert_eq!(k, IntErrorKind::InvalidDigit),
        other => panic!("unexpected {:?}", other),
    }
}

#[test]
fn selection_reverse_range() {
    assert!(matches!(parse("5-3"), Err(SelectionError::ReverseRange)));
    assert_eq!(parse("5-3").unwrap_err().message(), "Reverse range is not allowed");
}

#[test]
fn selection_bad_numbers() {
    assert!(matches!(parse("a"), Err(SelectionError::Number(IntErrorKind::InvalidDigit))));
    assert!(matches!(parse("-3"), Err(SelectionError::Number(IntErrorKind::Empty))));
    assert!(matches!(parse("3-"), Err(SelectionError::Number(IntErrorKind::Empty))));
    assert!(matches!(
        parse("99999999999"),
        Err(SelectionError::Number(IntErrorKind::PosOverflow))
    ));
    assert!(matches!(parse("+"), Err(SelectionError::Number(IntErrorKind::InvalidDigit))));
}

#[test]
fn selection_first_bad_word_decides() {
    assert!(matches!(parse("1 x 5-3"), Err(SelectionError::Number(IntErrorKind::InvalidDigit))));
    assert!(matches!(parse("5-3 x"), Err(SelectionError::ReverseRange)));
}

#[test]
fn selection_messages_match_std() {
    for (text, word) in [("a", "a"), ("", ""), ("99999999999", "99999999999")] {
        let ours = match parse(&format!("1-{}", word)) {
            Err(e) => e.message(),
            Ok(v) => panic!("unexpected {:?} for {}", v, text),
        };
        let std_message = word.parse::<u32>().unwrap_err().to_string();
        assert_eq!(ours, std_message);
    }
}

#[test]
fn whitespace_matches_std() {
    for code in 0u32..0x110000 {
        if let Some(c) = char::from_u32(code) {
            assert_eq!(char_is_whitespace(c), c.is_whitespace(), "U+{:04X}", code);
        }
    }
}

#[test]
fn selection_reads_back_from_its_rendering() {
    for text in ["3 1 2", "1-4 10 7-9", "0 4294967295", "", "5 5 5"] {
        let v = parse(text).unwrap();
        let rendered = v.iter().map(|x| x.to_string()).collect::<Vec<_>>().join(" ");
        assert_eq!(parse(&rendered).unwrap(), v);
    }
}

#[test]
fn selection_ignores_word_order_and_repeats() {
    assert_eq!(parse("1-3 7 5").unwrap(), parse("5  7\t1-3 7").unwrap());
    assert!(parse("x 1").is_err() && parse("1 1 x").is_err());
}
