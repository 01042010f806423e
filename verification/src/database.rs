//! The database: the set of tables, keyed case-insensitively by their
//! schema names, with creation, routing of inserts and selects, and flush
//! of every table.
use vstd::prelude::*;

use crate::pager::{lowered_schema, new_header_model, pager_new_ok, pager_new_sized, Pager, RecordID};
use crate::schema::{schema_valid, Schema};
use crate::table::{
    insert_effect, insert_named_effect, projection_effect, table_rows, table_wf, Table,
};
use crate::value::{lower_seq, str_eq_ignore_case, TableValue, ValueModel};
use crate::ErrorKind;

verus! {

/// A database: its tables and the page size new table files are created
/// with.
#[derive(Debug)]
pub struct Database {
    pub tables: Vec<Table>,
    pub page_byte_size: u32,
}

/// The name of the table at an index, as its schema records it.
pub open spec fn db_table_name(d: Database, i: int) -> Seq<char> {
    d.tables@[i].pager.header@.schema.table_name
}

/// The key a table is stored under: its name in lower case, so that
/// uniqueness and lookup ignore case.
pub open spec fn db_key(d: Database, i: int) -> Seq<char> {
    lower_seq(db_table_name(d, i))
}

/// Well-formedness: every table is well-formed and no two share a key.
pub open spec fn db_wf(d: Database) -> bool {
    &&& forall|i: int| 0 <= i < d.tables@.len() ==> table_wf(#[trigger] d.tables@[i])
    &&& forall|i: int, j: int| 0 <= i < j < d.tables@.len() ==> db_key(d, i) != db_key(d, j)
}

/// Some table is stored under the name's key.
pub open spec fn db_has_table(d: Database, name: Seq<char>) -> bool {
    exists|i: int| 0 <= i < d.tables@.len() && db_key(d, i) == lower_seq(name)
}

/// The index of the table stored under the name's key.
pub open spec fn db_index_of(d: Database, name: Seq<char>) -> int {
    choose|i: int| 0 <= i < d.tables@.len() && db_key(d, i) == lower_seq(name)
}

/// An entry of `flush_all`'s result: the name and byte image of one of
/// the database's tables.
pub open spec fn flushed_entry(d: Database, e: (String, Vec<u8>)) -> bool {
    exists|i: int|
        0 <= i < d.tables@.len() && #[trigger] db_table_name(d, i) == e.0@ && e.1@
            == crate::pager::spec_file_image(d.tables@[i].pager)
}

/// Some entry of `out` carries table `i`'s name and byte image.
pub open spec fn has_flushed(d: Database, out: Seq<(String, Vec<u8>)>, i: int) -> bool {
    exists|k: int|
        0 <= k < out.len() && (#[trigger] out[k]).0@ == db_table_name(d, i) && out[k].1@
            == crate::pager::spec_file_image(d.tables@[i].pager)
}

/// A table whose byte image `flush` can produce: its header still fits
/// its page and the whole image fits the address space.
pub open spec fn flush_ok(t: Table) -> bool {
    &&& 5 + crate::pager::enc_header(t.pager.header@).len() <= t.pager.header.page_byte_size
    &&& (t.pager.pages@.len() + 1) * (t.pager.header.page_byte_size as int) <= usize::MAX
}

impl Database {
    /// An empty database.
    pub fn new(page_byte_size: u32) -> (d: Database)
        ensures
            db_wf(d),
            d.tables@.len() == 0,
            d.page_byte_size == page_byte_size,
    {
        Database { tables: Vec::new(), page_byte_size }
    }

    /// Index of the table stored under the name, if any; lookup ignores
    /// ASCII case.
    fn find_table(&self, name: &String) -> (r: Option<usize>)
        requires
            db_wf(*self),
        ensures
            r matches Some(i) ==> i < self.tables@.len() && db_key(*self, i as int) == lower_seq(
                name@,
            ) && i as int == db_index_of(*self, name@),
            r is None ==> !db_has_table(*self, name@),
            r is Some <==> db_has_table(*self, name@),
    {
        let n = self.tables.len();
        let mut i: usize = 0;
        while i < n
            invariant
                i <= n,
                n == self.tables@.len(),
                db_wf(*self),
                forall|j: int| 0 <= j < i ==> db_key(*self, j) != lower_seq(name@),
            decreases n - i,
        {
            let tn = self.tables[i].name();
            if str_eq_ignore_case(tn, name) {
                proof {
                    assert(db_has_table(*self, name@)) by {
                        assert(db_key(*self, i as int) == lower_seq(name@));
                    }
                    let w = db_index_of(*self, name@);
                    if w != i {
                        assert(db_key(*self, w) == db_key(*self, i as int));
                    }
                }
                return Some(i);
            }
            i = i + 1;
        }
        None
    }

    /// Whether a table is stored under the name, ignoring ASCII case.
    pub fn table_exists(&self, name: &String) -> (r: bool)
        requires
            db_wf(*self),
        ensures
            r == db_has_table(*self, name@),
    {
        match self.find_table(name) {
            Some(_) => true,
            None => false,
        }
    }

    /// Adds an already-built table. Fails with `TableExists` exactly when
    /// a table is already stored under its name's key.
    pub fn add_table(&mut self, table: Table) -> (r: Result<(), ErrorKind>)
        requires
            db_wf(*old(self)),
            table_wf(table),
        ensures
            db_wf(*final(self)),
            r is Err <==> db_has_table(*old(self), table.pager.header@.schema.table_name),
            r matches Err(e) ==> e is TableExists && *final(self) == *old(self),
            r is Ok ==> final(self).tables@ == old(self).tables@.push(table),
            final(self).page_byte_size == old(self).page_byte_size,
    {
        let name_taken = {
            let nm = table.name();
            self.table_exists(nm)
        };
        if name_taken {
            return Err(ErrorKind::TableExists);
        }
        let ghost pre = self.tables@;
        self.tables.push(table);
        proof {
            assert forall|i: int, j: int| 0 <= i < j < self.tables@.len() implies db_key(*self, i)
                != db_key(*self, j) by {
                if j < pre.len() {
                    assert(self.tables@[i] == pre[i] && self.tables@[j] == pre[j]);
                    assert(db_key(*old(self), i) != db_key(*old(self), j));
                } else {
                    assert(self.tables@[j] == table);
                    if db_key(*self, i) == db_key(*self, j) {
                        assert(self.tables@[i] == pre[i]);
                        assert(db_key(*old(self), i) == lower_seq(
                            table.pager.header@.schema.table_name,
                        ));
                        assert(db_has_table(*old(self), table.pager.header@.schema.table_name));
                    }
                }
            }
            assert forall|i: int| 0 <= i < self.tables@.len() implies table_wf(
                #[trigger] self.tables@[i],
            ) by {
                if i < pre.len() {
                    assert(self.tables@[i] == pre[i]);
                }
            }
        }
        Ok(())
    }

    /// Creates a table for the schema with a fresh store: fails with
    /// `TableExists` when the name's key is taken, and otherwise succeeds
    /// exactly when a store for the schema can be created; the new table
    /// is appended, empty, with the schema and the derived capacity.
    pub fn create_table(&mut self, schema: Schema) -> (r: Result<(), ErrorKind>)
        requires
            db_wf(*old(self)),
        ensures
            db_wf(*final(self)),
            final(self).page_byte_size == old(self).page_byte_size,
            r is Err ==> final(self).tables@ == old(self).tables@,
            db_has_table(*old(self), schema@.table_name) <==> (r matches Err(e)
                && e is TableExists),
            !db_has_table(*old(self), schema@.table_name) ==> (r is Ok <==> pager_new_ok(
                schema@,
                old(self).page_byte_size,
            )),
            !db_has_table(*old(self), schema@.table_name) && pager_new_sized(
                schema@,
                old(self).page_byte_size,
            ) && !schema_valid(schema@) ==> (r matches Err(e) && e is SchemaInvalid),
            !db_has_table(*old(self), schema@.table_name) && crate::pager::header_valid_schema(
                schema@,
            ) && 5 + crate::codec::spec_row_size(schema@.columns) > old(self).page_byte_size ==> (
            r matches Err(e) && e is PageTooSmall),
            r is Ok ==> ({
                let t = final(self).tables@[final(self).tables@.len() - 1];
                &&& final(self).tables@ == old(self).tables@.push(t)
                &&& t.pager.header@ == new_header_model(
                    lowered_schema(schema@),
                    old(self).page_byte_size,
                )
                &&& table_rows(t).len() == 0
                &&& db_has_table(*final(self), schema@.table_name)
            }),
    {
        if self.table_exists(&schema.table_name) {
            return Err(ErrorKind::TableExists);
        }
        let pbs = self.page_byte_size;
        match Pager::new(schema, pbs) {
            Err(e) => {
                proof {
                    assert(!(e is TableExists));
                }
                Err(e)
            },
            Ok(pager) => {
                let table = Table::new(pager);
                let ghost tname = table.pager.header@.schema.table_name;
                proof {
                    crate::value::lemma_lower_idempotent(schema@.table_name);
                }
                match self.add_table(table) {
                    Err(e) => {
                        // Unreachable: the key was just checked to be free.
                        proof {
                            assert(false);
                        }
                        Err(e)
                    },
                    Ok(()) => {
                        proof {
                            let last = final(self).tables@.len() - 1;
                            assert(db_key(*self, last) == lower_seq(tname));
                        }
                        Ok(())
                    },
                }
            },
        }
    }

    /// Routes a positional insert to the table stored under the name.
    /// Fails with `UnknownTable` exactly when none is; otherwise that
    /// table changes as `insert_row` states and no other table changes.
    pub fn insert(&mut self, table_name: &String, row: Vec<TableValue>) -> (r: Result<
        RecordID,
        ErrorKind,
    >)
        requires
            db_wf(*old(self)),
        ensures
            db_wf(*final(self)),
            final(self).page_byte_size == old(self).page_byte_size,
            !db_has_table(*old(self), table_name@) <==> (r matches Err(e) && e is UnknownTable),
            !db_has_table(*old(self), table_name@) ==> *final(self) == *old(self),
            db_has_table(*old(self), table_name@) ==> ({
                let i = db_index_of(*old(self), table_name@);
                &&& insert_effect(
                    old(self).tables@[i],
                    final(self).tables@[i],
                    row.deep_view(),
                    r,
                )
                &&& final(self).tables@ == old(self).tables@.update(i, final(self).tables@[i])
            }),
    {
        let idx = match self.find_table(table_name) {
            None => {
                return Err(ErrorKind::UnknownTable);
            },
            Some(i) => i,
        };
        let ghost pre = self.tables@;
        let r = self.tables[idx].insert_row(row);
        proof {
            assert(self.tables@ =~= pre.update(idx as int, self.tables@[idx as int]));
            lemma_db_update_wf(*old(self), *self, idx as int);
            crate::table::lemma_insert_effect_kinds(
                old(self).tables@[idx as int],
                self.tables@[idx as int],
                row.deep_view(),
                r,
            );
        }
        r
    }

    /// Routes a named insert to the table stored under the name. Fails
    /// with `UnknownTable` exactly when none is; otherwise that table
    /// changes as `insert_row_with_named_columns` states and no other
    /// table changes.
    pub fn insert_named(
        &mut self,
        table_name: &String,
        column_names: &Vec<String>,
        values: Vec<TableValue>,
    ) -> (r: Result<RecordID, ErrorKind>)
        requires
            db_wf(*old(self)),
        ensures
            db_wf(*final(self)),
            final(self).page_byte_size == old(self).page_byte_size,
            !db_has_table(*old(self), table_name@) <==> (r matches Err(e) && e is UnknownTable),
            !db_has_table(*old(self), table_name@) ==> *final(self) == *old(self),
            db_has_table(*old(self), table_name@) ==> ({
                let i = db_index_of(*old(self), table_name@);
                &&& insert_named_effect(
                    old(self).tables@[i],
                    final(self).tables@[i],
                    column_names.deep_view(),
                    values.deep_view(),
                    r,
                )
                &&& final(self).tables@ == old(self).tables@.update(i, final(self).tables@[i])
            }),
    {
        let idx = match self.find_table(table_name) {
            None => {
                return Err(ErrorKind::UnknownTable);
            },
            Some(i) => i,
        };
        let ghost pre = self.tables@;
        let r = self.tables[idx].insert_row_with_named_columns(column_names, values);
        proof {
            assert(self.tables@ =~= pre.update(idx as int, self.tables@[idx as int]));
            lemma_db_update_wf(*old(self), *self, idx as int);
            crate::table::lemma_insert_named_effect_kinds(
                old(self).tables@[idx as int],
                self.tables@[idx as int],
                column_names.deep_view(),
                values.deep_view(),
                r,
            );
        }
        r
    }

    /// All rows of the table stored under the name, in storage order.
    /// Fails with `UnknownTable` exactly when none is.
    pub fn select_all(&self, table_name: &String) -> (r: Result<Vec<Vec<TableValue>>, ErrorKind>)
        requires
            db_wf(*self),
        ensures
            !db_has_table(*self, table_name@) <==> (r matches Err(e) && e is UnknownTable),
            r is Err <==> !db_has_table(*self, table_name@),
            r matches Ok(out) ==> out.deep_view() == table_rows(
                self.tables@[db_index_of(*self, table_name@)],
            ),
    {
        match self.find_table(table_name) {
            None => Err(ErrorKind::UnknownTable),
            Some(i) => {
                let out = self.tables[i].select_rows();
                Ok(out)
            },
        }
    }

    /// The named columns of the named table's rows, in the requested
    /// order. Fails with `UnknownTable` exactly when the table is
    /// missing, and otherwise behaves as the table's projection states.
    pub fn select_columns(&self, table_name: &String, names: &Vec<String>) -> (r: Result<
        Vec<Vec<TableValue>>,
        ErrorKind,
    >)
        requires
            db_wf(*self),
        ensures
            !db_has_table(*self, table_name@) <==> (r matches Err(e) && e is UnknownTable),
            db_has_table(*self, table_name@) ==> projection_effect(
                self.tables@[db_index_of(*self, table_name@)],
                names.deep_view(),
                r,
            ),
    {
        match self.find_table(table_name) {
            None => Err(ErrorKind::UnknownTable),
            Some(i) => self.tables[i].select_rows_with_named_columns(names),
        }
    }

    /// The byte image of every table whose header still fits its page,
    /// each under its name, for the caller to persist; flushing goes on
    /// after a failure, and the first error is reported beside the images
    /// that succeeded.
    #[verifier::rlimit(100)]
    #[verifier::spinoff_prover]
    pub fn flush_all(&self) -> (r: (Vec<(String, Vec<u8>)>, Option<ErrorKind>))
        requires
            db_wf(*self),
        ensures
            forall|k: int| 0 <= k < r.0@.len() ==> flushed_entry(*self, #[trigger] r.0@[k]),
            forall|i: int|
                0 <= i < self.tables@.len() && flush_ok(#[trigger] self.tables@[i])
                    ==> has_flushed(*self, r.0@, i),
            (r.1 is None <==> forall|i: int|
                0 <= i < self.tables@.len() ==> flush_ok(#[trigger] self.tables@[i])),
            r.1 matches Some(e) ==> e is PageTooSmall,
            forall|k1: int, k2: int| 0 <= k1 < k2 < r.0@.len() ==> (#[trigger] r.0@[k1]).0@ != (
            #[trigger] r.0@[k2]).0@,
    {
        let mut out: Vec<(String, Vec<u8>)> = Vec::new();
        let mut first_err: Option<ErrorKind> = None;
        let ghost mut idxs: Seq<int> = Seq::empty();
        let n = self.tables.len();
        let mut i: usize = 0;
        while i < n
            invariant
                i <= n,
                n == self.tables@.len(),
                db_wf(*self),
                idxs.len() == out@.len(),
                forall|k: int| 0 <= k < idxs.len() ==> 0 <= #[trigger] idxs[k] < i as int,
                forall|k1: int, k2: int| 0 <= k1 < k2 < idxs.len() ==> idxs[k1] < idxs[k2],
                forall|k: int|
                    0 <= k < out@.len() ==> (#[trigger] out@[k]).0@ == db_table_name(
                        *self,
                        idxs[k],
                    ) && out@[k].1@ == crate::pager::spec_file_image(self.tables@[idxs[k]].pager),
                forall|t: int|
                    0 <= t < i && flush_ok(#[trigger] self.tables@[t]) ==> exists|k: int|
                        0 <= k < idxs.len() && idxs[k] == t,
                first_err is None <==> forall|t: int|
                    0 <= t < i ==> flush_ok(#[trigger] self.tables@[t]),
                first_err matches Some(e) ==> e is PageTooSmall,
            decreases n - i,
        {
            let nm = self.tables[i].name().clone();
            let ghost nmv = nm@;
            proof {
                assert(nmv == db_table_name(*self, i as int));
            }
            match self.tables[i].flush() {
                Ok(img) => {
                    let ghost imgv = img@;
                    let ghost pre_out = out@;
                    let ghost pre_idxs = idxs;
                    out.push((nm, img));
                    proof {
                        idxs = idxs.push(i as int);
                        assert forall|k: int| 0 <= k < out@.len() implies (
                        #[trigger] out@[k]).0@ == db_table_name(*self, idxs[k]) && out@[k].1@
                            == crate::pager::spec_file_image(self.tables@[idxs[k]].pager) by {
                            if k < pre_out.len() {
                                assert(out@[k] == pre_out[k]);
                                assert(idxs[k] == pre_idxs[k]);
                            } else {
                                assert(out@[k].0@ == nmv);
                                assert(out@[k].1@ == imgv);
                                assert(idxs[k] == i as int);
                            }
                        }
                        assert forall|t: int|
                            0 <= t < i + 1 && flush_ok(#[trigger] self.tables@[t]) implies exists|
                            k: int,
                        |
                            0 <= k < idxs.len() && idxs[k] == t by {
                            if t < i as int {
                                let k0 = choose|k0: int|
                                    0 <= k0 < pre_idxs.len() && pre_idxs[k0] == t;
                                assert(idxs[k0] == t);
                            } else {
                                assert(idxs[idxs.len() - 1] == t);
                            }
                        }
                    }
                },
                Err(e) => {
                    proof {
                        assert(!flush_ok(self.tables@[i as int]));
                    }
                    if first_err.is_none() {
                        first_err = Some(e);
                    }
                },
            }
            i = i + 1;
        }
        proof {
            assert forall|k: int| 0 <= k < out@.len() implies flushed_entry(
                *self,
                #[trigger] out@[k],
            ) by {
                assert(db_table_name(*self, idxs[k]) == out@[k].0@);
            }
            assert forall|t: int|
                0 <= t < self.tables@.len() && flush_ok(#[trigger] self.tables@[t]) implies
                has_flushed(*self, out@, t) by {
                let k0 = choose|k0: int| 0 <= k0 < idxs.len() && idxs[k0] == t;
                assert(out@[k0].0@ == db_table_name(*self, t));
                assert(out@[k0].1@ == crate::pager::spec_file_image(self.tables@[t].pager));
            }
            assert forall|k1: int, k2: int| 0 <= k1 < k2 < out@.len() implies (
            #[trigger] out@[k1]).0@ != (#[trigger] out@[k2]).0@ by {
                assert(idxs[k1] < idxs[k2]);
                assert(db_key(*self, idxs[k1]) != db_key(*self, idxs[k2]));
                if db_table_name(*self, idxs[k1]) == db_table_name(*self, idxs[k2]) {
                    assert(lower_seq(db_table_name(*self, idxs[k1])) == lower_seq(
                        db_table_name(*self, idxs[k2]),
                    ));
                }
            }
        }
        (out, first_err)
    }
}

/// Replacing one table by a well-formed table with the same schema keeps
/// the database well-formed.
proof fn lemma_db_update_wf(old_d: Database, d: Database, idx: int)
    requires
        db_wf(old_d),
        0 <= idx < old_d.tables@.len(),
        d.tables@ == old_d.tables@.update(idx, d.tables@[idx]),
        d.page_byte_size == old_d.page_byte_size,
        table_wf(d.tables@[idx]),
        db_table_name(d, idx) == db_table_name(old_d, idx),
    ensures
        db_wf(d),
{
    assert forall|i: int| 0 <= i < d.tables@.len() implies table_wf(#[trigger] d.tables@[i]) by {
        if i != idx {
            assert(d.tables@[i] == old_d.tables@[i]);
        }
    }
    assert forall|i: int, j: int| 0 <= i < j < d.tables@.len() implies db_key(d, i) != db_key(
        d,
        j,
    ) by {
        if i != idx {
            assert(d.tables@[i] == old_d.tables@[i]);
        }
        if j != idx {
            assert(d.tables@[j] == old_d.tables@[j]);
        }
        assert(db_key(old_d, i) != db_key(old_d, j));
    }
}

} // verus!
