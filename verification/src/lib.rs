//! A small verified SQL table store: typed values, a binary row codec,
//! a B+-tree index with size-driven leaf splits, a paged storage layer,
//! and the table and database layers that tie them together.
use vstd::prelude::*;

pub mod value;
pub mod executor;
pub mod database;
pub mod table;
pub mod pager;
pub mod bptree;
pub mod codec;
pub mod schema;

verus! {

use crate::value::TableValue;

/// Why the schema of a `CREATE TABLE` was rejected.
#[derive(Debug)]
pub enum SchemaFault {
    DuplicateColumn,
    NoColumns,
    NoPrimaryKey,
    MultiplePrimaryKeys,
    EmptyName,
    NameTooLong,
}

/// The error kinds surfaced by the library. `DuplicateKey` carries the
/// offending key so callers can report it.
#[derive(Debug)]
pub enum ErrorKind {
    SchemaInvalid(SchemaFault),
    TableExists,
    UnknownTable,
    UnknownColumn,
    DuplicateKey(TableValue),
    TypeMismatch,
    ArityMismatch,
    NullPrimaryKey,
    PageTooSmall,
    Full,
    Io,
    Corrupt,
}

} // verus!
