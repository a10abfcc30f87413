//! A first-order Markov text generator: a weighted transition table over
//! word tokens, with sentence boundaries as an explicit sentinel.

pub mod command;
pub mod generate;
pub mod laws;
pub mod lemmas;
pub mod model;
pub mod oauth;
pub mod sampling;
pub mod table;
pub mod token;
pub mod words;
