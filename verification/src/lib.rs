//! A 19x19 Go board engine under Tromp-Taylor rules.
//!
//! The board keeps stone groups as cycles threaded through a `next_vertex`
//! array, maintains an incremental Zobrist hash with a bounded superko
//! history, answers legality and ladder queries, scores terminal positions,
//! and assembles feature planes for a neural network.

pub mod color;
pub mod geometry;
pub mod counting;
pub mod zobrist;
pub mod small_set;
pub mod circular_buf;
pub mod group;
pub mod liberty;
pub mod moves;
pub mod board;
pub mod ladder;
pub mod territory;
pub mod features;
pub mod display;
