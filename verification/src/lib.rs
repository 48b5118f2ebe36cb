//! Lazy generation of the `k`-permutations of a sequence whose length is
//! discovered while it is consumed.
//!
//! The permutations come out in the lexicographic order of their position
//! tuples. [`order`] defines that order, [`counting`] counts what is left,
//! [`complete`] steps through the order once the length is known, and
//! [`permutations`](mod@permutations) drives both over a
//! [`lazy_buffer::LazyBuffer`].

pub mod complete;
pub mod counting;
pub mod lazy_buffer;
pub mod order;
pub mod permutations;
pub mod size_hint;

pub use crate::permutations::{permutations, Permutations};
