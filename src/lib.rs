//! A codec for JVM class files: parsing the binary format into a resolved
//! model and writing that model back, with a freshly interned constant pool.

pub mod error;
pub mod reader;
pub mod writer;
pub mod mutf8;
pub mod constant_pool;
pub mod list;
pub mod access;
pub mod code;
pub mod attributes;
pub mod members;
pub mod class;
