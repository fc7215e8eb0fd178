use ball_game::number::{parse_u32, IntErrorKind};

fn std_kind(s: &str) -> Result<u32, IntErrorKind> {
    s.parse::<u32>().map_err(|e| match e.kind() {
        std::num::IntErrorKind::Empty => IntErrorKind::Empty,
        std::num::IntErrorKind::InvalidDigit => IntErrorKind::InvalidDigit,
        std::num::IntErrorKind::PosOverflow => IntErrorKind::PosOverflow,
        other => panic!("unexpected kind {:?}", other),
    })
}

#[test]
fn parse_u32_values() {
    assert_eq!(parse_u32("0"), Ok(0));
    assert_eq!(parse_u32("007"), Ok(7));
    assert_eq!(parse_u32("+42"), Ok(42));
    assert_eq!(parse_u32("4294967295"), Ok(u32::MAX));
}

#[test]
fn parse_u32_errors() {
    assert_eq!(parse_u32(""), Err(IntErrorKind::Empty));
    assert_eq!(parse_u32("+"), Err(IntErrorKind::InvalidDigit));
    assert_eq!(parse_u32("-"), Err(IntErrorKind::InvalidDigit));
    assert_eq!(parse_u32("-1"), Err(IntErrorKind::InvalidDigit));
    assert_eq!(parse_u32("4294967296"), Err(IntErrorKind::PosOverflow));
    assert_eq!(parse_u32("12a"), Err(IntErrorKind::InvalidDigit));
    assert_eq!(parse_u32(" 1"), Err(IntErrorKind::InvalidDigit));
}

#[test]
fn parse_u32_first_problem_decides() {
    assert_eq!(parse_u32("99999999999x"), Err(IntErrorKind::PosOverflow));
    assert_eq!(parse_u32("x99999999999"), Err(IntErrorKind::InvalidDigit));
}

#[test]
fn parse_u32_matches_std() {
    let samples = [
        "", "+", "-", "0", "1", "+0", "-0", "++1", "+-1", "00000000000000000001",
        "4294967295", "4294967296", "42949672950", "99999999999x", "x1", "1x", "١٢",
        "12 ", "٣", "65536", "+4294967295", "429496729a",
    ];
    for s in samples {
        assert_eq!(parse_u32(s), std_kind(s), "{:?}", s);
    }
}

#[test]
fn int_error_messages_match_std() {
    assert_eq!(IntErrorKind::Empty.message(), "".parse::<u32>().unwrap_err().to_string());
    assert_eq!(IntErrorKind::InvalidDigit.message(), "x".parse::<u32>().unwrap_err().to_string());
    assert_eq!(
        IntErrorKind::PosOverflow.message(),
        "4294967296".parse::<u32>().unwrap_err().to_string()
    );
}
