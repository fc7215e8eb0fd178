//! The state of a game between the player and the computer and the moves
//! that change it.
use vstd::prelude::*;
use crate::algorithm::{calculate_strategy, strategy_table, winning_take};
use crate::number::{decimal, decimal_string};

verus! {

/// The largest number of balls a game may start with.
pub const MAX_BALLS: u32 = 666;

/// The smallest number of balls a game is meant to start with.
pub const MIN_BALLS: u32 = 2;

/// Flipping a flag in place.
pub trait Togglable {
    /// Replaces the value by its opposite.
    fn toggle(&mut self);
}

impl Togglable for bool {
    fn toggle(&mut self)
        ensures
            *final(self) == !*old(self),
    {
        *self = !*self;
    }
}

/// The rules a game is played by.
#[derive(Debug)]
pub struct GameRules {
    /// The number of balls on the table when the game starts.
    pub ball_count: u32,
    /// The numbers of balls a move may take.
    pub allowed_take_variants: Vec<u32>,
}

impl Default for GameRules {
    /// No balls and no allowed amounts.
    fn default() -> (rules: GameRules)
        ensures
            rules.ball_count == 0,
            rules.allowed_take_variants@.len() == 0,
    {
        GameRules { ball_count: 0, allowed_take_variants: Vec::new() }
    }
}

/// What the ball-selection controls need to know about the game in progress.
#[derive(Debug, Clone, Copy, PartialEq, Eq, Structural)]
pub struct CurrentGame {
    /// Whether the player may select balls now.
    pub can_select_balls: bool,
    /// How many balls are selected.
    pub balls_selected: u32,
    /// The most balls a move may take.
    pub balls_selected_max: u32,
}

/// The largest element of a nonempty list.
pub open spec fn seq_max(s: Seq<u32>) -> u32
    decreases s.len(),
{
    if s.len() <= 1 {
        s[0]
    } else {
        let m: u32 = seq_max(s.drop_last());
        if s.last() > m {
            s.last()
        } else {
            m
        }
    }
}

/// `seq_max` is an element of the list and no element exceeds it.
pub proof fn lemma_seq_max(s: Seq<u32>)
    requires
        s.len() > 0,
    ensures
        s.contains(seq_max(s)),
        forall|i: int| 0 <= i < s.len() ==> #[trigger] s[i] <= seq_max(s),
    decreases s.len(),
{
    if s.len() > 1 {
        lemma_seq_max(s.drop_last());
        assert(s.drop_last().contains(seq_max(s.drop_last())));
        let k: int = choose|k: int| 0 <= k < s.drop_last().len() && s.drop_last()[k] == seq_max(s.drop_last());
        assert(s[k] == s.drop_last()[k]);
        assert forall|i: int| 0 <= i < s.len() implies #[trigger] s[i] <= seq_max(s) by {
            if i < s.len() - 1 {
                assert(s[i] == s.drop_last()[i]);
            }
        }
    } else {
        assert(s[0] == seq_max(s));
    }
}

/// A game between the player and the computer: its rules, the computer's
/// strategy table, how many balls are left and whose turn it is.
#[derive(Debug)]
pub struct Game {
    /// The rules the game is played by.
    pub rules: GameRules,
    /// How many balls the computer takes from a pile of `i + 1` balls.
    pub strategy: Vec<u32>,
    /// How many balls are left on the pile.
    pub position: u32,
    /// Whether it is the player's turn.
    pub player_turn: bool,
}

impl Default for Game {
    /// A game without balls or allowed amounts, with an empty strategy
    /// table, an empty pile and the computer to move.
    fn default() -> (game: Game)
        ensures
            game.rules.ball_count == 0,
            game.rules.allowed_take_variants@.len() == 0,
            game.strategy@.len() == 0,
            game.position == 0,
            !game.player_turn,
            game.wf(),
    {
        let game = Game {
            rules: GameRules::default(),
            strategy: Vec::new(),
            position: 0,
            player_turn: false,
        };
        assert(game.strategy@ =~= strategy_table(0, game.rules.allowed_take_variants@));
        game
    }
}

impl Game {
    /// The strategy table belongs to the rules and the pile never holds more
    /// balls than at the start.
    pub open spec fn wf(&self) -> bool {
        &&& self.strategy@ == strategy_table(
            self.rules.ball_count as nat,
            self.rules.allowed_take_variants@,
        )
        &&& self.position <= self.rules.ball_count
    }

    /// A game with the given rules and the computer's strategy for them,
    /// before it begins: no balls on the pile and the computer to move.
    pub fn new(ball_count: u32, allowed_take_variants: Vec<u32>) -> (game: Game)
        ensures
            game.rules.ball_count == ball_count,
            game.rules.allowed_take_variants@ == allowed_take_variants@,
            game.strategy@ == strategy_table(ball_count as nat, allowed_take_variants@),
            game.position == 0,
            !game.player_turn,
            game.wf(),
    {
        let strategy = calculate_strategy(ball_count, &allowed_take_variants);
        Game {
            rules: GameRules { ball_count, allowed_take_variants },
            strategy,
            position: 0,
            player_turn: false,
        }
    }

    /// Begins the game: all balls are on the pile, and the player moves
    /// first exactly when the last entry of the strategy table is 0, which
    /// for a well-formed game means the starting pile gives the mover no
    /// winning move.
    /// Returns what the ball-selection controls start from.
    pub fn begin_game(&mut self) -> (state: CurrentGame)
        requires
            old(self).strategy@.len() > 0,
            old(self).rules.allowed_take_variants@.len() > 0,
        ensures
            final(self).rules == old(self).rules,
            final(self).strategy == old(self).strategy,
            final(self).position == old(self).rules.ball_count,
            final(self).player_turn == (old(self).strategy@.last() == 0),
            old(self).wf() ==> final(self).wf() && final(self).player_turn == (winning_take(
                old(self).rules.allowed_take_variants@,
                old(self).rules.ball_count as nat,
            ) == 0),
            state == (CurrentGame {
                can_select_balls: final(self).player_turn,
                balls_selected: 0,
                balls_selected_max: seq_max(old(self).rules.allowed_take_variants@),
            }),
    {
        self.position = self.rules.ball_count;
        let last: usize = self.strategy.len() - 1;
        self.player_turn = self.strategy[last] == 0;
        let allowed = &self.rules.allowed_take_variants;
        let mut max: u32 = allowed[0];
        let mut i: usize = 1;
        assert(allowed@.take(1) =~= seq![allowed@[0]]);
        while i < allowed.len()
            invariant
                1 <= i <= allowed@.len(),
                max == seq_max(allowed@.take(i as int)),
            decreases allowed@.len() - i,
        {
            assert(allowed@.take(i + 1).drop_last() =~= allowed@.take(i as int));
            if allowed[i] > max {
                max = allowed[i];
            }
            i = i + 1;
        }
        assert(allowed@.take(i as int) =~= allowed@);
        CurrentGame { can_select_balls: self.player_turn, balls_selected: 0, balls_selected_max: max }
    }

    /// The player's move with `selected` balls: accepted exactly when
    /// `selected` is an allowed amount; then the balls leave the pile and the
    /// turn passes to the computer. A refused move changes nothing.
    pub fn next_turn(&mut self, selected: u32) -> (accepted: bool)
        requires
            old(self).rules.allowed_take_variants@.contains(selected) ==> selected
                <= old(self).position,
        ensures
            accepted == old(self).rules.allowed_take_variants@.contains(selected),
            final(self).rules == old(self).rules,
            final(self).strategy == old(self).strategy,
            accepted ==> final(self).position == old(self).position - selected
                && final(self).player_turn == !old(self).player_turn,
            !accepted ==> final(self).position == old(self).position
                && final(self).player_turn == old(self).player_turn,
            old(self).wf() ==> final(self).wf(),
    {
        let allowed = &self.rules.allowed_take_variants;
        let mut i: usize = 0;
        let mut found = false;
        while i < allowed.len()
            invariant
                i <= allowed@.len(),
                found == allowed@.take(i as int).contains(selected),
            decreases allowed@.len() - i,
        {
            let ghost t = allowed@.take(i + 1);
            assert(t =~= allowed@.take(i as int).push(allowed@[i as int]));
            if allowed[i] == selected {
                found = true;
                assert(t[i as int] == selected);
            }
            assert(found == t.contains(selected)) by {
                if t.contains(selected) && allowed@[i as int] != selected {
                    let q: int = choose|q: int| 0 <= q < t.len() && t[q] == selected;
                    assert(allowed@.take(i as int)[q] == selected);
                }
                if allowed@.take(i as int).contains(selected) {
                    let q: int = choose|q: int| 0 <= q < i && allowed@.take(i as int)[q] == selected;
                    assert(t[q] == selected);
                }
            }
            i = i + 1;
        }
        assert(allowed@.take(i as int) =~= allowed@);
        if found {
            self.position = self.position - selected;
            self.player_turn.toggle();
        }
        found
    }

    /// The computer's move: it takes the number of balls its strategy table
    /// gives for the current pile (for a well-formed game, a winning move
    /// when one exists, else 0) and the turn passes to the player. Returns
    /// the number taken.
    pub fn perform_computed_turn(&mut self) -> (taken: u32)
        requires
            1 <= old(self).position <= old(self).strategy@.len(),
            old(self).strategy@[old(self).position - 1] <= old(self).position,
        ensures
            taken == old(self).strategy@[old(self).position - 1],
            final(self).rules == old(self).rules,
            final(self).strategy == old(self).strategy,
            final(self).position == old(self).position - taken,
            final(self).player_turn == !old(self).player_turn,
            old(self).wf() ==> final(self).wf() && taken == winning_take(
                old(self).rules.allowed_take_variants@,
                old(self).position as nat,
            ),
    {
        let taken: u32 = self.strategy[(self.position as usize) - 1];
        self.position = self.position - taken;
        self.player_turn.toggle();
        taken
    }

    /// The label that says whose turn it is.
    pub fn turn_text(&self) -> (text: String)
        ensures
            text@ == if self.player_turn {
                "Your turn"@
            } else {
                "Wait..."@
            },
    {
        proof {
            reveal_strlit("Your turn");
            reveal_strlit("Wait...");
        }
        if self.player_turn {
            String::from_str("Your turn")
        } else {
            String::from_str("Wait...")
        }
    }

    /// The label that says how many balls are left, such as `"7 balls left"`.
    pub fn ball_count_text(&self) -> (text: String)
        ensures
            text@ == decimal(self.position as nat) + " balls left"@,
    {
        let mut text = decimal_string(self.position);
        text.append(" balls left");
        text
    }
}

} // verus!
