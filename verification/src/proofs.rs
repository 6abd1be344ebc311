//! The lemmas behind the laws of the library: how the lexer, the
//! indentation resolver and the tree builder read what the writer wrote.
pub mod building;
pub mod desugar;
pub mod document;
pub mod follow;
pub mod frames;
pub mod lexing;
pub mod nesting;
pub mod reading;
pub mod restore;
pub mod roundtrip;
pub mod shape;
