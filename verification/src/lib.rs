//! A trainer for chess openings.
//!
//! The games a player has played make up a repertoire: a tree of lines, each
//! with the number of games that went through it. A drill walks the tree.
//! The player moves for one side and the session answers for the other with
//! replies from the repertoire, and every move of the player is assessed:
//! in preparation, a deviation, or past the end of what is known.
//!
//! - [`corpus`]: games and lines as sequences, and the counts that a
//!   repertoire keeps, with their laws.
//! - [`graph`]: the repertoire graph, grown game by game.
//! - [`session`]: the drill.
//! - [`notation`]: moves to algebraic notation and back.
//! - [`rules`]: the border to the `chess` crate, which knows the rules.
//! - [`moves`]: squares, pieces and moves as plain values.
//! - [`ingest`]: from the record of a game to its moves.
//! - [`trainer`]: what clicks and drags do to the game on the screen.
//! - [`settings`]: what is remembered between runs.
//! - [`store`]: the repertoire and the settings as text, for keeping.

pub mod corpus;
pub mod graph;
pub mod ingest;
pub mod moves;
pub mod notation;
pub mod rules;
pub mod session;
pub mod settings;
pub mod store;
pub mod trainer;
