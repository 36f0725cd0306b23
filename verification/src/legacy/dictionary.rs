//! Dictionary parts of the earlier format.
pub mod connector;
pub mod lexicon;
pub mod mapper;
