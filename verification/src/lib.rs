//! A rules engine for the game of Go: board state, move legality, captures,
//! undo history and scoring, with the text vocabulary of the Go Text Protocol.

pub mod stone;
pub mod grid;
pub mod board;
pub mod region;
pub mod capture;
pub mod score;
pub mod game;
pub mod model;
pub mod workspace;
pub mod text;
pub mod gtp;
pub mod protocol;
pub mod command;
