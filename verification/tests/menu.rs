use ball_game::menu::{switch_to_game, MenuError};
use ball_game::number::IntErrorKind;
use ball_game::parse_input::SelectionError;

fn start(count: &str, range: &str) -> Result<ball_game::game::Game, MenuError> {
    switch_to_game(&count.to_string(), &range.to_string())
}

#[test]
fn menu_starts_game() {
    let g = start("10", "1-4").unwrap();
    assert_eq!(g.rules.ball_count, 10);
    assert_eq!(g.rules.allowed_take_variants, vec![1, 2, 3]);
    assert_eq!(g.strategy, vec![1, 2, 3, 0, 1, 2, 3, 0, 1, 2]);
    assert_eq!(g.position, 0);
}

#[test]
fn menu_requires_range() {
    let e = start("10", "").unwrap_err();
    assert!(matches!(e, MenuError::EmptyRange));
    assert_eq!(e.message(), "Please input range");
    // The range is checked before the ball count.
    assert!(matches!(start("abc", ""), Err(MenuError::EmptyRange)));
}

#[test]
fn menu_reports_selection_error() {
    assert!(matches!(
        start("abc", "3-1"),
        Err(MenuError::Selection(SelectionError::ReverseRange))
    ));
    assert_eq!(start("10", "3-1").unwrap_err().message(), "Reverse range is not allowed");
}

#[test]
fn menu_reports_bad_ball_count() {
    assert!(matches!(start("abc", "1"), Err(MenuError::BallCount(IntErrorKind::InvalidDigit))));
    assert!(matches!(start("", "1"), Err(MenuError::BallCount(IntErrorKind::Empty))));
    assert_eq!(
        start(" 5", "1").unwrap_err().message(),
        "invalid digit found in string"
    );
}

#[test]
fn menu_limits_ball_count() {
    assert!(matches!(start("667", "1"), Err(MenuError::TooManyBalls)));
    assert_eq!(start("667", "1").unwrap_err().message(), "Too many balls");
    assert_eq!(start("666", "1").unwrap().rules.ball_count, 666);
}

#[test]
fn menu_accepts_whitespace_only_range() {
    let g = start("5", "  ").unwrap();
    assert!(g.rules.allowed_take_variants.is_empty());
    assert_eq!(g.strategy, vec![0, 0, 0, 0, 0]);
}
