//! Core engine of a Minesweeper game.
//!
//! The crate owns the board: a randomized mine layout with derived
//! adjacency counts, and the per-cell reveal/flag state machine with
//! chain (flood) reveal of empty regions and win/loss detection.
//! Rendering and input handling are left to the caller, which feeds
//! intents in and reads per-cell state back out.

pub mod board;
pub mod engine;
pub mod generate;
pub mod laws;
pub mod types;

pub use board::Board;
pub use types::BoardError;
pub use types::BoardOptions;
pub use types::CellContent;
pub use types::CellState;
pub use types::Coordinate;
pub use types::GameOutcome;
pub use types::GameState;
pub use types::RevealReport;
