use ball_game::game::{CurrentGame, Game, Togglable};
use ball_game::number::decimal_string;

#[test]
fn toggle_flips() {
    let mut b = false;
    b.toggle();
    assert!(b);
    b.toggle();
    assert!(!b);
}

#[test]
fn new_game_computes_strategy() {
    let g = Game::new(10, vec![1, 2, 3]);
    assert_eq!(g.rules.ball_count, 10);
    assert_eq!(g.rules.allowed_take_variants, vec![1, 2, 3]);
    assert_eq!(g.strategy, vec![1, 2, 3, 0, 1, 2, 3, 0, 1, 2]);
    assert_eq!(g.position, 0);
    assert!(!g.player_turn);
}

#[test]
fn computer_starts_from_winning_pile() {
    let mut g = Game::new(10, vec![1, 2, 3]);
    let state = g.begin_game();
    assert_eq!(
        state,
        CurrentGame { can_select_balls: false, balls_selected: 0, balls_selected_max: 3 }
    );
    assert_eq!(g.position, 10);
    assert!(!g.player_turn);
}

#[test]
fn player_starts_from_losing_pile() {
    let mut g = Game::new(8, vec![3, 1, 2]);
    let state = g.begin_game();
    assert!(g.player_turn);
    assert!(state.can_select_balls);
    assert_eq!(state.balls_selected_max, 3);
}

#[test]
fn computed_turn_takes_winning_move() {
    let mut g = Game::new(10, vec![1, 2, 3]);
    g.begin_game();
    assert_eq!(g.perform_computed_turn(), 2);
    assert_eq!(g.position, 8);
    assert!(g.player_turn);
}

#[test]
fn player_move_must_be_allowed() {
    let mut g = Game::new(10, vec![1, 2, 3]);
    g.begin_game();
    g.perform_computed_turn();
    assert!(!g.next_turn(5));
    assert_eq!(g.position, 8);
    assert!(g.player_turn);
    assert!(!g.next_turn(0));
    assert!(g.next_turn(3));
    assert_eq!(g.position, 5);
    assert!(!g.player_turn);
}

#[test]
fn computer_wins_against_every_reply() {
    // Whatever the player takes, the computer empties the pile.
    fn play(g: &Game, depth: u32) {
        if g.position == 0 {
            // The computer made the last move.
            assert!(g.player_turn);
            return;
        }
        assert!(depth < 100);
        for take in 1..=3u32 {
            if take <= g.position {
                let mut h = Game::new(g.rules.ball_count, g.rules.allowed_take_variants.clone());
                h.position = g.position;
                h.player_turn = g.player_turn;
                assert!(h.next_turn(take));
                assert!(h.position > 0, "the player must not take the last ball");
                let taken = h.perform_computed_turn();
                assert!(taken > 0);
                play(&h, depth + 1);
            }
        }
    }
    let mut g = Game::new(13, vec![1, 2, 3]);
    g.begin_game();
    g.perform_computed_turn();
    play(&g, 0);
}

#[test]
fn labels() {
    let mut g = Game::new(8, vec![1, 2, 3]);
    g.begin_game();
    assert_eq!(g.turn_text(), "Your turn");
    assert_eq!(g.ball_count_text(), "8 balls left");
    assert!(g.next_turn(3));
    assert_eq!(g.turn_text(), "Wait...");
    assert_eq!(g.ball_count_text(), "5 balls left");
}

#[test]
fn decimal_matches_to_string() {
    for n in [0u32, 1, 9, 10, 11, 99, 100, 101, 666, 1000, 65535, 4294967295] {
        assert_eq!(decimal_string(n), n.to_string());
    }
    for n in (0..100_000u32).step_by(7) {
        assert_eq!(decimal_string(n), n.to_string());
    }
}

#[test]
fn default_game_is_empty() {
    let g = Game::default();
    assert_eq!(g.rules.ball_count, 0);
    assert!(g.rules.allowed_take_variants.is_empty());
    assert!(g.strategy.is_empty());
    assert_eq!(g.position, 0);
    assert!(!g.player_turn);
}

#[test]
fn begin_game_reads_last_table_entry() {
    let mut g = Game::new(4, vec![1, 2, 3]);
    g.begin_game();
    assert!(g.player_turn);
    assert_eq!(g.position, 4);
}
