//! An embedded, schema-driven document database engine.
//!
//! Applications declare named collections, each with a typed schema, a
//! primary key, a version and optional index/required/encrypted field lists.
//! The engine offers create/update/find/findById/count/delete operations and
//! runs every document through an ordered hook chain (defaults, migration,
//! integrity, optional encryption) on write, and through the inverse chain on
//! read.

pub mod canon;
pub mod collection;
pub mod database;
pub mod defaults;
pub mod encryption;
pub mod error;
pub mod eval;
pub mod inmemory;
pub mod integrity;
pub mod migration;
pub mod operation;
pub mod parse;
pub mod property;
pub mod query;
pub mod schema;
pub mod storage;
pub mod trusted;
pub mod value;

pub use value::{Value, Val};
