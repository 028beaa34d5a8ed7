//! A small single-user SQL engine: a parser for CREATE TABLE, INSERT and
//! SELECT, the text formats of schema and data files, the storage rules of a
//! table directory, and the evaluation of WHERE conditions and projections.
//! Reading and writing the files is left to the caller, which hands the
//! library what it found and carries out what the library decides.

pub mod ast;
pub mod codec;
pub mod executor;
pub mod parser;
pub mod storage;
pub mod text;
