//! The ball-taking game: two players take turns removing an allowed number of
//! balls from a pile, and whoever takes the last ball wins. This library holds
//! the rules, the computer's strategy, the reading of the menu's input and the
//! arrangement of the balls on the screen.
pub mod algorithm;
pub mod balls;
pub mod game;
pub mod layout;
pub mod menu;
pub mod number;
pub mod parse_input;
