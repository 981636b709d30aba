//! XML documents: a flat, verified view of a parsed document for reading,
//! and an event list that is rendered to bytes for writing.
pub mod tree;
pub mod writer;
