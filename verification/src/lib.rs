//! A verified storage layer for an embeddable SQL engine.
//!
//! The crate provides the canonical key codec that maps a table name and a
//! logical row key to one order-preserving physical key and back, an
//! in-memory row store and schema catalog that implement the engine's
//! read, write and schema-evolution capability contracts, and the
//! auto-increment identifier protocol for unkeyed inserts.

pub mod ast_builder;
pub mod data;
pub mod error;
pub mod hex;
pub mod keys;
pub mod lex;
pub mod store;
