//! A small verified catalog of played games.
//!
//! The library keeps an ordered collection of game records, validates
//! every mutation (unique names, ratings restricted to 1..=5, play
//! counts that never go below zero), and renders the collection to a
//! JSON text that it can read back unchanged.

pub mod clock;
pub mod codec;
pub mod game;
pub mod rating;
pub mod store;
pub mod text;
