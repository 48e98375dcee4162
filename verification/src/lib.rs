//! Legal move generation for shogi, with verified contracts.

pub mod bitboard;
pub mod color;
pub mod hand;
pub mod movegen;
pub mod piece;
pub mod position;
pub mod shogi_move;
pub mod square;
pub mod tables;
pub mod utils;
pub mod zobrist;

pub use color::Color;
pub use position::{PartialPosition, Position};
pub use shogi_move::{Move, MoveType};
pub use square::{File, Rank, Square};
