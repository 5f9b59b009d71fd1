//! Rules engine for a Kniffel-style dice game: pure category scoring, the
//! turn and roll state machine over an ordered roster, and the stored
//! (record) form of games and players.

pub mod game_logic;
pub mod records;
pub mod scoring;
