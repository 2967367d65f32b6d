use vstd::prelude::*;

pub mod guesser;
pub mod laws;

pub use guesser::Guesser;
