//! A small JSON-like document library: a tokenizer, a recursive-descent
//! parser into a tree of values, and a writer that renders a tree as
//! canonical single-line text.
//!
//! Every stage has a mathematical model (`spec_tokenize`, `spec_parse`,
//! `render`) and each executable function is proved to compute exactly its
//! model. Three further modules prove what holds of the stages together:
//! `whitespace` (whitespace between tokens does not matter), `roundtrip`
//! (parsing what was written gives the tree back) and `canonical` (what the
//! parser can give, and that writing a parsed document normalizes it).
pub mod text;
pub mod tokenizer;
pub mod parser;
pub mod writer;
pub mod whitespace;
pub mod roundtrip;
pub mod canonical;
