//! Compiles programs of the eight-symbol tape language (`+ - > < . , [ ]`)
//! into a flat bytecode and runs that bytecode on a byte tape.
//!
//! The pipeline: [`parse`] reads source text into a [`Node`] tree; the series
//! pass ([`Node::optimize_series`]) and the pattern pass
//! ([`Node::optimize_loops`]) rewrite it; [`Node::compile_bytecode`] numbers
//! its nodes breadth-first and flattens it into [`SimOperation`]s; a
//! [`Machine`] runs them.

pub mod bytecode;
pub mod layout;
pub mod machine;
pub mod numbering;
pub mod optimize;
pub mod parser;
pub mod tree;

pub use bytecode::{NumberedNode, SimOperation};
pub use machine::{run, Effect, Fault, Machine, Run, Stop};
pub use parser::{parse, parse_bf, ParseError};
pub use tree::Node;
