//! A verified chess rules engine.
//!
//! The engine keeps an 8x8 board, enumerates legal moves for the side to
//! move (including castling, en passant and promotion), applies moves, and
//! classifies the game as ongoing, won, or drawn (stalemate, fifty turns
//! without a capture, threefold repetition).
#![allow(non_camel_case_types)]

pub mod attack;
pub mod board;
pub mod game;
pub mod legal;
pub mod notation;
pub mod pieces;

pub use board::Board;
pub use game::start;
pub use game::Game;
pub use notation::decode_notation;
pub use notation::decode_promotion;
pub use notation::demap_fen;
pub use notation::encode_notation;
pub use notation::map_fen;
pub use notation::ChessError;
pub use pieces::Color;
pub use pieces::GameState;
pub use pieces::Piece;
pub use pieces::PieceType;
pub use pieces::Position;
pub use pieces::PositionContent;
