//! The statement layer: the abstract syntax the parser produces, and the
//! executor that maps each statement onto the database.
use vstd::prelude::*;

use crate::database::{
    db_has_table, db_index_of, db_table_name, db_wf, flush_ok, flushed_entry, has_flushed,
    Database,
};
use crate::pager::{lowered_schema, new_header_model, pager_new_ok, pager_new_sized, RecordID};
use crate::schema::{schema_valid, Schema};
use crate::table::{insert_effect, insert_named_effect, projection_effect, table_rows};
use crate::value::TableValue;
use crate::ErrorKind;

verus! {

/// The column list of a `SELECT`: everything, or named columns.
#[derive(Debug)]
pub enum ColumnSet {
    WildCard,
    Names(Vec<String>),
}

/// A meta-command of the command loop.
#[derive(Debug, PartialEq, Eq, Structural)]
pub enum MetaCommand {
    Exit,
}

/// A parsed `SELECT`.
#[derive(Debug)]
pub struct Selection {
    pub table_name: String,
    pub columns: ColumnSet,
}

impl Selection {
    /// Builds a selection.
    pub fn new(table_name: &str, columns: ColumnSet) -> (s: Selection)
        ensures
            s.table_name@ == table_name@,
            s.columns == columns,
    {
        Selection { table_name: table_name.to_owned(), columns }
    }

    /// A selection carries no further constraints; it is always valid.
    pub fn validate(&self) -> (r: Result<(), ErrorKind>)
        ensures
            r is Ok,
    {
        Ok(())
    }
}

/// A parsed `INSERT`: the values, and the column names when given.
#[derive(Debug)]
pub struct Insertion {
    pub table_name: String,
    pub column_names: Option<Vec<String>>,
    pub values: Vec<TableValue>,
}

impl Insertion {
    /// Builds an insertion.
    pub fn new(table_name: &str, column_names: Option<Vec<String>>, values: Vec<TableValue>) -> (s:
        Insertion)
        ensures
            s.table_name@ == table_name@,
            s.column_names == column_names,
            s.values == values,
    {
        Insertion { table_name: table_name.to_owned(), column_names, values }
    }

    /// Checks the insertion: when column names are given, there must be as
    /// many values as names.
    pub fn validate(&self) -> (r: Result<(), ErrorKind>)
        ensures
            r is Ok <==> match self.column_names {
                Some(ns) => ns@.len() == self.values@.len(),
                None => true,
            },
            r matches Err(e) ==> e is ArityMismatch,
    {
        match &self.column_names {
            None => Ok(()),
            Some(ns) => {
                if ns.len() == self.values.len() {
                    Ok(())
                } else {
                    Err(ErrorKind::ArityMismatch)
                }
            },
        }
    }
}

/// A parsed SQL statement.
#[derive(Debug)]
pub enum SQLStatement {
    Create(Schema),
    Insert(Insertion),
    Select(Selection),
}

/// A parsed input line: a meta-command or a statement.
#[derive(Debug)]
pub enum Ast {
    MetaCommand(MetaCommand),
    SQLStatement(SQLStatement),
}

/// The executor: it owns the database and maps statements onto it.
#[derive(Debug)]
pub struct Executor {
    pub db: Database,
}

/// Well-formedness of the executor: its database is well-formed.
pub open spec fn executor_wf(e: Executor) -> bool {
    db_wf(e.db)
}

impl Executor {
    /// An executor over an empty database with the given page size.
    pub fn new(page_byte_size: u32) -> (e: Executor)
        ensures
            executor_wf(e),
            e.db.tables@.len() == 0,
    {
        Executor { db: Database::new(page_byte_size) }
    }

    /// An executor over an existing database.
    pub fn with_database(db: Database) -> (e: Executor)
        requires
            db_wf(db),
        ensures
            executor_wf(e),
            e.db == db,
    {
        Executor { db }
    }

    /// Creates the table a `CREATE TABLE` describes: fails with
    /// `TableExists` exactly when the name's key is taken, and otherwise
    /// succeeds exactly when a store for the schema can be created; the
    /// new table is appended, empty.
    pub fn add_table(&mut self, schema: Schema) -> (r: Result<(), ErrorKind>)
        requires
            executor_wf(*old(self)),
        ensures
            executor_wf(*final(self)),
            final(self).db.page_byte_size == old(self).db.page_byte_size,
            r is Err ==> final(self).db.tables@ == old(self).db.tables@,
            db_has_table(old(self).db, schema@.table_name) <==> (r matches Err(e)
                && e is TableExists),
            !db_has_table(old(self).db, schema@.table_name) ==> (r is Ok <==> pager_new_ok(
                schema@,
                old(self).db.page_byte_size,
            )),
            !db_has_table(old(self).db, schema@.table_name) && pager_new_sized(
                schema@,
                old(self).db.page_byte_size,
            ) && !schema_valid(schema@) ==> (r matches Err(e) && e is SchemaInvalid),
            !db_has_table(old(self).db, schema@.table_name) && crate::pager::header_valid_schema(
                schema@,
            ) && 5 + crate::codec::spec_row_size(schema@.columns) > old(self).db.page_byte_size
                ==> (r matches Err(e) && e is PageTooSmall),
            r is Ok ==> ({
                let t = final(self).db.tables@[final(self).db.tables@.len() - 1];
                &&& final(self).db.tables@ == old(self).db.tables@.push(t)
                &&& t.pager.header@ == new_header_model(
                    lowered_schema(schema@),
                    old(self).db.page_byte_size,
                )
                &&& table_rows(t).len() == 0
                &&& db_has_table(final(self).db, schema@.table_name)
            }),
    {
        self.db.create_table(schema)
    }

    /// Whether the named table exists.
    pub fn table_exists(&self, table_name: &String) -> (r: bool)
        requires
            executor_wf(*self),
        ensures
            r == db_has_table(self.db, table_name@),
    {
        self.db.table_exists(table_name)
    }

    /// Performs an `INSERT`: fails with `UnknownTable` exactly when the
    /// table is missing; with names given, as many values must come
    /// (`ArityMismatch`); otherwise the named table changes exactly as the
    /// table layer's positional or named insert states, and no other
    /// table changes.
    pub fn insert(&mut self, insertion: Insertion) -> (r: Result<RecordID, ErrorKind>)
        requires
            executor_wf(*old(self)),
        ensures
            executor_wf(*final(self)),
            final(self).db.page_byte_size == old(self).db.page_byte_size,
            !db_has_table(old(self).db, insertion.table_name@) <==> (r matches Err(e)
                && e is UnknownTable),
            !db_has_table(old(self).db, insertion.table_name@) ==> *final(self) == *old(self),
            db_has_table(old(self).db, insertion.table_name@) && (insertion.column_names matches
                Some(ns) && ns.deep_view().len() != insertion.values.deep_view().len()) ==> (
            r matches Err(e) && e is ArityMismatch && *final(self) == *old(self)),
            db_has_table(old(self).db, insertion.table_name@) && insertion.column_names is None
                ==> ({
                let i = db_index_of(old(self).db, insertion.table_name@);
                &&& insert_effect(
                    old(self).db.tables@[i],
                    final(self).db.tables@[i],
                    insertion.values.deep_view(),
                    r,
                )
                &&& final(self).db.tables@ == old(self).db.tables@.update(
                    i,
                    final(self).db.tables@[i],
                )
            }),
            db_has_table(old(self).db, insertion.table_name@) && (insertion.column_names matches
                Some(ns) && ns.deep_view().len() == insertion.values.deep_view().len()) ==> ({
                let i = db_index_of(old(self).db, insertion.table_name@);
                &&& (insertion.column_names matches Some(ns) && insert_named_effect(
                    old(self).db.tables@[i],
                    final(self).db.tables@[i],
                    ns.deep_view(),
                    insertion.values.deep_view(),
                    r,
                ))
                &&& final(self).db.tables@ == old(self).db.tables@.update(
                    i,
                    final(self).db.tables@[i],
                )
            }),
    {
        let Insertion { table_name, column_names, values } = insertion;
        if !self.db.table_exists(&table_name) {
            return Err(ErrorKind::UnknownTable);
        }
        match self.validate_lengths(&column_names, &values) {
            Err(e) => {
                proof {
                    assert(db_has_table(old(self).db, table_name@));
                }
                Err(e)
            },
            Ok(()) => {
                match column_names {
                    None => self.db.insert(&table_name, values),
                    Some(names) => self.db.insert_named(&table_name, &names, values),
                }
            },
        }
    }

    /// Checks that as many values as column names were supplied.
    fn validate_lengths(&self, column_names: &Option<Vec<String>>, values: &Vec<TableValue>) -> (r:
        Result<(), ErrorKind>)
        ensures
            r is Ok <==> match column_names {
                Some(ns) => ns@.len() == values@.len(),
                None => true,
            },
            r matches Err(e) ==> e is ArityMismatch,
    {
        match column_names {
            None => Ok(()),
            Some(ns) => {
                if ns.len() == values.len() {
                    Ok(())
                } else {
                    Err(ErrorKind::ArityMismatch)
                }
            },
        }
    }

    /// Performs a `SELECT`: fails with `UnknownTable` exactly when the
    /// table is missing; the wildcard yields all its rows in storage
    /// order, and a name list the projection the table layer states.
    pub fn select(&self, selection: &Selection) -> (r: Result<Vec<Vec<TableValue>>, ErrorKind>)
        requires
            executor_wf(*self),
        ensures
            !db_has_table(self.db, selection.table_name@) <==> (r matches Err(e)
                && e is UnknownTable),
            db_has_table(self.db, selection.table_name@) ==> ({
                let t = self.db.tables@[db_index_of(self.db, selection.table_name@)];
                match selection.columns {
                    ColumnSet::WildCard => r matches Ok(out) && out.deep_view() == table_rows(t),
                    ColumnSet::Names(ns) => projection_effect(t, ns.deep_view(), r),
                }
            }),
    {
        match &selection.columns {
            ColumnSet::WildCard => self.db.select_all(&selection.table_name),
            ColumnSet::Names(names) => self.db.select_columns(&selection.table_name, names),
        }
    }

    /// Flushes every table: one named byte image per table whose header
    /// still fits its page, for the caller to persist; the first failure
    /// is reported beside the images that succeeded.
    pub fn flush(&self) -> (r: (Vec<(String, Vec<u8>)>, Option<ErrorKind>))
        requires
            executor_wf(*self),
        ensures
            forall|k: int| 0 <= k < r.0@.len() ==> flushed_entry(self.db, #[trigger] r.0@[k]),
            forall|i: int|
                0 <= i < self.db.tables@.len() && flush_ok(#[trigger] self.db.tables@[i])
                    ==> has_flushed(self.db, r.0@, i),
            (r.1 is None <==> forall|i: int|
                0 <= i < self.db.tables@.len() ==> flush_ok(#[trigger] self.db.tables@[i])),
            r.1 matches Some(e) ==> e is PageTooSmall,
            forall|k1: int, k2: int| 0 <= k1 < k2 < r.0@.len() ==> (#[trigger] r.0@[k1]).0@ != (
            #[trigger] r.0@[k2]).0@,
    {
        self.db.flush_all()
    }
}

} // verus!
