//! Starting a game from what the player typed in the main menu.
use vstd::prelude::*;
use crate::game::MAX_BALLS;
use crate::game::Game;
use crate::number::{IntErrorKind, spec_parse_u32, parse_u32};
use crate::parse_input::{
    SelectionError,
    SpecSelectionError,
    parse_number_selection,
    selection_values,
    strictly_increasing,
};
use crate::algorithm::strategy_table;

verus! {

/// Why a game could not be started from the menu's input, as a value of the
/// specification.
pub enum SpecMenuError {
    /// No allowed amounts were typed.
    EmptyRange,
    /// The allowed amounts could not be read.
    Selection(SpecSelectionError),
    /// The number of balls could not be read.
    BallCount(IntErrorKind),
    /// More balls than `MAX_BALLS`.
    TooManyBalls,
}

/// Why a game could not be started from the menu's input.
#[derive(Debug)]
pub enum MenuError {
    /// No allowed amounts were typed.
    EmptyRange,
    /// The allowed amounts could not be read.
    Selection(SelectionError),
    /// The number of balls could not be read.
    BallCount(IntErrorKind),
    /// More balls than `MAX_BALLS`.
    TooManyBalls,
}

impl View for MenuError {
    type V = SpecMenuError;

    open spec fn view(&self) -> SpecMenuError {
        match self {
            MenuError::EmptyRange => SpecMenuError::EmptyRange,
            MenuError::Selection(e) => SpecMenuError::Selection(e@),
            MenuError::BallCount(e) => SpecMenuError::BallCount(*e),
            MenuError::TooManyBalls => SpecMenuError::TooManyBalls,
        }
    }
}

impl MenuError {
    /// The message that describes the error.
    pub fn message(&self) -> (text: String)
        ensures
            self@ is EmptyRange ==> text@ == "Please input range"@,
            self@ is TooManyBalls ==> text@ == "Too many balls"@,
            self@ is Selection ==> text@ == self@->Selection_0.spec_message(),
            self@ is BallCount ==> text@ == self@->BallCount_0.spec_message(),
    {
        proof {
            reveal_strlit("Please input range");
            reveal_strlit("Too many balls");
        }
        match self {
            MenuError::EmptyRange => String::from_str("Please input range"),
            MenuError::Selection(e) => e.message(),
            MenuError::BallCount(e) => e.message(),
            MenuError::TooManyBalls => String::from_str("Too many balls"),
        }
    }
}

/// The error the menu gives for the typed number of balls `ball_count_text`
/// and allowed amounts `range_text`, checked in this order: no allowed
/// amounts typed, allowed amounts unreadable, number of balls unreadable,
/// too many balls; `None` when a game can start.
pub open spec fn menu_error(ball_count_text: Seq<char>, range_text: Seq<char>) -> Option<
    SpecMenuError,
> {
    if range_text.len() == 0 {
        Some(SpecMenuError::EmptyRange)
    } else if selection_values(range_text) is Err {
        Some(SpecMenuError::Selection(selection_values(range_text)->Err_0))
    } else if spec_parse_u32(ball_count_text) is Err {
        Some(SpecMenuError::BallCount(spec_parse_u32(ball_count_text)->Err_0))
    } else if spec_parse_u32(ball_count_text)->Ok_0 > MAX_BALLS {
        Some(SpecMenuError::TooManyBalls)
    } else {
        None
    }
}

/// Starts a game from the menu's input: the number of balls and the allowed
/// amounts as the player typed them. The new game has the typed number of
/// balls and the allowed amounts read from the text, sorted and each listed
/// once.
pub fn switch_to_game(ball_count_text: &String, range_text: &String) -> (r: Result<Game, MenuError>)
    ensures
        match r {
            Ok(game) => {
                &&& menu_error(ball_count_text@, range_text@) is None
                &&& spec_parse_u32(ball_count_text@) == Ok::<u32, IntErrorKind>(
                    game.rules.ball_count,
                )
                &&& game.rules.ball_count <= MAX_BALLS
                &&& strictly_increasing(game.rules.allowed_take_variants@)
                &&& forall|x: u32|
                    game.rules.allowed_take_variants@.contains(x) <==> selection_values(
                        range_text@,
                    )->Ok_0.contains(x)
                &&& game.strategy@ == strategy_table(
                    game.rules.ball_count as nat,
                    game.rules.allowed_take_variants@,
                )
                &&& game.position == 0
                &&& !game.player_turn
                &&& game.wf()
            },
            Err(e) => menu_error(ball_count_text@, range_text@) == Some(e@),
        },
{
    if range_text.as_str().is_empty() {
        return Err(MenuError::EmptyRange);
    }
    let range = match parse_number_selection(range_text) {
        Ok(v) => v,
        Err(e) => {
            return Err(MenuError::Selection(e));
        },
    };
    let ball_count: u32 = match parse_u32(ball_count_text.as_str()) {
        Ok(v) => v,
        Err(e) => {
            return Err(MenuError::BallCount(e));
        },
    };
    if ball_count > MAX_BALLS {
        return Err(MenuError::TooManyBalls);
    }
    Ok(Game::new(ball_count, range))
}


/// A typed number of balls above `MAX_BALLS` is refused with `TooManyBalls`
/// once the allowed amounts are typed and read; a game only ever starts with
/// at most `MAX_BALLS` balls.
pub proof fn lemma_ball_count_limit(ball_count_text: Seq<char>, range_text: Seq<char>)
    ensures
        range_text.len() > 0 && selection_values(range_text) is Ok && spec_parse_u32(
            ball_count_text,
        ) is Ok && spec_parse_u32(ball_count_text)->Ok_0 > MAX_BALLS ==> menu_error(
            ball_count_text,
            range_text,
        ) == Some(SpecMenuError::TooManyBalls),
        menu_error(ball_count_text, range_text) is None ==> spec_parse_u32(ball_count_text) is Ok
            && spec_parse_u32(ball_count_text)->Ok_0 <= MAX_BALLS,
{
}

/// Each check comes before the next: no typed amounts gives `EmptyRange`
/// whatever the ball count, and unreadable amounts give their own error
/// whatever the ball count.
pub proof fn lemma_menu_check_order(ball_count_text: Seq<char>, range_text: Seq<char>)
    ensures
        range_text.len() == 0 ==> menu_error(ball_count_text, range_text) == Some(
            SpecMenuError::EmptyRange,
        ),
        range_text.len() > 0 && selection_values(range_text) is Err ==> menu_error(
            ball_count_text,
            range_text,
        ) == Some(SpecMenuError::Selection(selection_values(range_text)->Err_0)),
        range_text.len() > 0 && selection_values(range_text) is Ok && spec_parse_u32(
            ball_count_text,
        ) is Err ==> menu_error(ball_count_text, range_text) == Some(
            SpecMenuError::BallCount(spec_parse_u32(ball_count_text)->Err_0),
        ),
{
}

} // verus!
