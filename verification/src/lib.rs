//! A Reversi game engine: an 8x8 board model, legal-move generation with
//! flip computation, a turn/pass/terminal state machine, and move history
//! with undo.

pub mod board;
pub mod manager;
