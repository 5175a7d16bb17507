//! A single-table, turn-based Texas Hold'em engine: a ledger of chips and
//! cards, a seven-card hand evaluator and the betting state machine that
//! drives a hand from the blinds to the showdown.
pub mod error;
pub mod card;
pub mod bank;
pub mod random;
pub mod collect;
pub mod sweep;
pub mod deck;
pub mod player;
pub mod seat;
pub mod turn;
pub mod trace;
pub mod game;
pub mod round;
pub mod settle;
pub mod event;
pub mod laws;
pub mod runs;
pub mod house;
pub mod opening;
