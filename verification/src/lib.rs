//! Front end of a schema compiler for a small interface-definition language
//! that describes wire-format records: enumerations, fixed-layout structs and
//! messages built from primitive and user-defined fields, including explicit
//! bit-field widths for sub-byte packing.
//!
//! The pipeline runs strictly left to right:
//!
//! - [`lexer`] turns source text into a token sequence with source positions,
//! - [`parser`] consumes the tokens and builds an [`ast::OnyxModule`],
//! - [`resolver`] computes the exact bit width and byte footprint of every
//!   definition, rejects undefined references and reference cycles, and
//!   produces a dependency-respecting emission order.
//!
//! Code generators (see [`generators`]) consume the resolved module together
//! with the resolver's size table and emit target-language sources.

pub mod ast;
pub mod generators;
pub mod lexer;
pub mod parser;
pub mod resolver;
pub mod text;
