//! Data structures of dictionaries of the earlier binary format, and their
//! conversion into the current ones.
pub mod dictionary;
