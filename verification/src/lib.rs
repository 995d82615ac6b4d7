//! Core of a four-player trick-taking card game (Hokm): the card model,
//! the dealing/trick state machine, and the rule-based player strategies.

pub mod cards;
pub mod game;
pub mod players;
