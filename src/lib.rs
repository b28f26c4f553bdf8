//! A piece-table text buffer: an editable text kept as an immutable original
//! buffer, an append-only add buffer, and an ordered list of pieces that
//! select the visible runs of those two buffers.
pub mod lemmas;
pub mod piece;
pub mod table;
pub mod text;

pub use piece::{Piece, Source};
pub use table::{EditError, PieceTable};
