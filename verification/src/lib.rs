//! Verified core of the AETHER cognitive architecture: the byte-pair
//! tokenizer, the shared error type, the integer rules of every component's
//! configuration, matrix and vector shapes, the flat parameter view, the
//! attention window, and the command-line parsing rules.

pub mod text;
pub mod error;
pub mod bpe;
pub mod tokenizer;
pub mod attention;
pub mod cli;
pub mod laws;
pub mod config;
pub mod shape;
pub mod params;
