//! Deduce an unknown country from a known one and an approximate
//! great-circle distance between them.
//!
//! The library holds country boundaries as plain integer coordinates
//! (microdegrees), computes the minimum great-circle distance between two
//! boundaries in whole meters, caches that distance per unordered pair of
//! names, and filters candidate countries against a distance band that
//! widens step by step until a candidate appears or a ceiling is reached.
//! Reading the boundary file and talking to the user are left to the
//! program around the library.

pub mod cache;
pub mod geometry;
pub mod parse;
pub mod search;
pub mod store;
pub mod text;
