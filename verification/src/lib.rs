//! A Viterbi-based morphological analyzer (tokenizer) with verified
//! dictionary handling, lattice construction and path search.
#![allow(unused_imports)]

pub mod dictionary;
pub mod errors;
pub mod legacy;
pub mod mapping;
pub mod sentence;
pub mod text;
pub mod tokenizer;

pub use crate::dictionary::{Dictionary, SystemDictionaryBuilder};
pub use crate::tokenizer::Tokenizer;
