//! A chess engine whose priors come from a small language model that writes a
//! structured trace about the position.
//!
//! The purpose is teaching a human, not maximising playing strength. The library
//! holds what the engine decides and computes; starting engine processes, files,
//! threads and the network's tensors are left to the program around it.
//!
//! * [`chess`], [`rules`] and [`geometry`]: boards, positions and the moves of the game.
//! * [`vocab`], [`encoding`], [`features`], [`motifs`] and [`trace`]: what the model
//!   reads and writes. [`reading`], [`oracle`] and [`outlook`] state what it means on
//!   the board.
//! * [`score`], [`eval`], [`symmetry`], [`ordering`], [`alphabeta`], [`minimax`] and
//!   [`judgement`]: the hand-crafted evaluation and the search over it.
//! * [`teacher`], [`dialogue`], [`seeds`], [`records`] and [`datagen`]: labelling
//!   positions with an external engine.
//! * [`nn`]: the shape of the network.
//! * [`text`] and [`sums`]: characters, numbers in text, and sums over the board.

pub mod alphabeta;
pub mod chess;
pub mod datagen;
pub mod dialogue;
pub mod encoding;
pub mod eval;
pub mod features;
pub mod geometry;
pub mod judgement;
pub mod minimax;
pub mod motifs;
pub mod nn;
pub mod oracle;
pub mod ordering;
pub mod outlook;
pub mod reading;
pub mod records;
pub mod rules;
pub mod score;
pub mod seeds;
pub mod sums;
pub mod symmetry;
pub mod teacher;
pub mod text;
pub mod trace;
pub mod vocab;
