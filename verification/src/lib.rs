//! Solver's companion for a seven-letter word puzzle: it works out the puzzle's
//! letters from the answer list, keeps the ledger of found words, reads and
//! writes the save text, and decides what an interactive session does with
//! each input event and what it draws.

pub mod cli;
pub mod codec;
pub mod ledger;
pub mod letters;
pub mod live_value;
pub mod markup;
pub mod puzzle;
pub mod render;
pub mod session;
pub mod text;
