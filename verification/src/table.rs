//! The table layer: binds a schema to the paged store, validates incoming
//! rows, fills named inserts out to positional rows, and projects selected
//! columns.
use vstd::prelude::*;

use crate::pager::{append_shape, pager_rows, pager_wf, Pager, RecordID};
use crate::schema::{row_matches_columns, Column, ColumnModel, Schema};
use crate::value::{TableValue, ValueModel};
use crate::ErrorKind;

verus! {

/// A column together with its position in the schema.
#[derive(Debug, Clone)]
pub struct IndexedColumn {
    pub column: Column,
    pub index: usize,
}

/// Read access to a column's name.
pub trait ColumnName {
    fn name(&self) -> &String;
}

impl ColumnName for IndexedColumn {
    fn name(&self) -> (n: &String) {
        &self.column.name
    }
}

/// A table: the paged store that owns its schema.
#[derive(Debug)]
pub struct Table {
    pub pager: Pager,
}

/// Well-formedness of a table: its store is well-formed, which includes a
/// valid schema, and keeps the append shape, so rows sit in insertion
/// order.
pub open spec fn table_wf(t: Table) -> bool {
    pager_wf(t.pager) && append_shape(t.pager)
}

/// The schema columns of a table.
pub open spec fn table_columns(t: Table) -> Seq<ColumnModel> {
    t.pager.header@.schema.columns
}

/// The stored rows of a table, in ascending page and slot order.
pub open spec fn table_rows(t: Table) -> Seq<Seq<ValueModel>> {
    pager_rows(t.pager)
}

/// The primary-key column of the table.
pub open spec fn pk_col(t: Table) -> int {
    choose|i: int| 0 <= i < table_columns(t).len() && table_columns(t)[i].is_primary_key
}

/// Some stored row carries the row's primary-key value.
pub open spec fn key_present(t: Table, row: Seq<ValueModel>) -> bool {
    exists|u: int|
        0 <= u < table_rows(t).len() && (#[trigger] table_rows(t)[u]).len() == table_columns(
            t,
        ).len() && table_rows(t)[u][pk_col(t)] == row[pk_col(t)]
}

/// A page with an empty slot exists or one more can still be allocated,
/// so a positional insert of an admissible new row must succeed.
pub open spec fn can_store(t: Table) -> bool {
    t.pager.header@.free_pages.len() > 0 || t.pager.header.num_pages < u32::MAX
}

/// What `insert_row` does, relating the table before and after the call to
/// the row model and the result: exactly one error kind for each way the
/// row can be refused, the stored multiset gaining exactly the row on
/// success, and success owed whenever the row is admissible, new, and the
/// store has room.
pub open spec fn insert_effect(
    t0: Table,
    t1: Table,
    rv: Seq<ValueModel>,
    r: Result<RecordID, ErrorKind>,
) -> bool {
    let cols = table_columns(t0);
    &&& table_wf(t1)
    &&& t1.pager.header@.schema == t0.pager.header@.schema
    &&& match r {
        Err(e) => {
            &&& table_rows(t1) == table_rows(t0)
            &&& (e is ArityMismatch <==> rv.len() != cols.len())
            &&& (e is TypeMismatch <==> rv.len() == cols.len() && !row_matches_columns(rv, cols))
            &&& (e is DuplicateKey <==> row_matches_columns(rv, cols) && key_present(t0, rv))
            &&& (e matches ErrorKind::DuplicateKey(k) ==> k@ == rv[pk_col(t0)])
            &&& (e is Full <==> row_matches_columns(rv, cols) && !key_present(t0, rv)
                && !can_store(t0))
        },
        Ok(_) => {
            &&& row_matches_columns(rv, cols)
            &&& !key_present(t0, rv)
            &&& table_rows(t1) == table_rows(t0).push(rv)
            &&& table_rows(t1).to_multiset() == table_rows(t0).to_multiset().insert(rv)
        },
    }
    &&& (row_matches_columns(rv, cols) && !key_present(t0, rv) && can_store(t0) ==> r is Ok)
}

/// First index holding the name among the given column names, if any.
pub open spec fn find_name(names: Seq<Seq<char>>, nm: Seq<char>) -> int
    decreases names.len(),
{
    if names.len() == 0 {
        -1
    } else if names[0] == nm {
        0
    } else {
        let r = find_name(names.drop_first(), nm);
        if r < 0 {
            -1
        } else {
            r + 1
        }
    }
}

/// The positional row a named insert builds: each column takes the value
/// bound to the first occurrence of its name, and `Null` where no name
/// binds it.
pub open spec fn named_row(
    cols: Seq<ColumnModel>,
    names: Seq<Seq<char>>,
    vals: Seq<ValueModel>,
) -> Seq<ValueModel> {
    Seq::new(
        cols.len(),
        |i: int|
            if find_name(names, cols[i].name) >= 0 {
                vals[find_name(names, cols[i].name)]
            } else {
                ValueModel::Null
            },
    )
}

/// What `insert_row_with_named_columns` does: arity, unknown-column and
/// null-primary-key failures exactly when their conditions hold, and
/// otherwise the effect of a positional insert of the built row.
pub open spec fn insert_named_effect(
    t0: Table,
    t1: Table,
    nm: Seq<Seq<char>>,
    vm: Seq<ValueModel>,
    r: Result<RecordID, ErrorKind>,
) -> bool {
    let cols = table_columns(t0);
    let built = named_row(cols, nm, vm);
    &&& table_wf(t1)
    &&& t1.pager.header@.schema == t0.pager.header@.schema
    &&& (r is Err ==> table_rows(t1) == table_rows(t0))
    &&& ((nm.len() != vm.len() || nm.len() > cols.len()) <==> (r matches Err(e)
        && e is ArityMismatch))
    &&& (nm.len() == vm.len() && nm.len() <= cols.len() ==> ((exists|j: int|
        0 <= j < nm.len() && find_col(cols, #[trigger] nm[j]) < 0) <==> (r matches Err(e)
        && e is UnknownColumn)))
    &&& (nm.len() == vm.len() && nm.len() <= cols.len() && (forall|j: int|
        0 <= j < nm.len() ==> find_col(cols, #[trigger] nm[j]) >= 0) ==> ((built[pk_col(
        t0,
    )] is Null) <==> (r matches Err(e) && e is NullPrimaryKey)))
    &&& (nm.len() == vm.len() && nm.len() <= cols.len() && (forall|j: int|
        0 <= j < nm.len() ==> find_col(cols, #[trigger] nm[j]) >= 0) && !(built[pk_col(
        t0,
    )] is Null) ==> insert_effect(t0, t1, built, r))
}

/// What `select_rows_with_named_columns` returns: success exactly when
/// every name is a column, and then one projected row per stored row, each
/// column in the requested order.
pub open spec fn projection_effect(
    t: Table,
    nm: Seq<Seq<char>>,
    r: Result<Vec<Vec<TableValue>>, ErrorKind>,
) -> bool {
    &&& ((forall|j: int| 0 <= j < nm.len() ==> find_col(table_columns(t), #[trigger] nm[j]) >= 0)
        <==> r is Ok)
    &&& (r matches Ok(out) ==> {
        &&& out.deep_view().len() == table_rows(t).len()
        &&& forall|i: int, j: int|
            0 <= i < out.deep_view().len() && 0 <= j < nm.len() ==> (
            #[trigger] out.deep_view()[i][j]) == table_rows(t)[i][find_col(
                table_columns(t),
                nm[j],
            )]
    })
    &&& (r matches Err(e) ==> e is UnknownColumn)
}

/// A failed positional insert is refused for exactly one of its four
/// reasons; no other error kind can come back.
pub proof fn lemma_insert_effect_kinds(
    t0: Table,
    t1: Table,
    rv: Seq<ValueModel>,
    r: Result<RecordID, ErrorKind>,
)
    requires
        insert_effect(t0, t1, rv, r),
    ensures
        r matches Err(e) ==> (e is ArityMismatch || e is TypeMismatch || e is DuplicateKey
            || e is Full),
{
    let cols = table_columns(t0);
    match r {
        Err(e) => {
            if rv.len() != cols.len() {
            } else if !row_matches_columns(rv, cols) {
            } else if key_present(t0, rv) {
            } else if !can_store(t0) {
            } else {
                assert(r is Ok);
            }
        },
        Ok(_) => {},
    }
}

/// A failed named insert is refused for exactly one of its reasons; no
/// other error kind can come back.
pub proof fn lemma_insert_named_effect_kinds(
    t0: Table,
    t1: Table,
    nm: Seq<Seq<char>>,
    vm: Seq<ValueModel>,
    r: Result<RecordID, ErrorKind>,
)
    requires
        insert_named_effect(t0, t1, nm, vm, r),
    ensures
        r matches Err(e) ==> (e is ArityMismatch || e is UnknownColumn || e is NullPrimaryKey
            || e is TypeMismatch || e is DuplicateKey || e is Full),
{
    let cols = table_columns(t0);
    match r {
        Err(e) => {
            if nm.len() != vm.len() || nm.len() > cols.len() {
            } else if exists|j: int| 0 <= j < nm.len() && find_col(cols, #[trigger] nm[j]) < 0 {
            } else if named_row(cols, nm, vm)[pk_col(t0)] is Null {
            } else {
                lemma_insert_effect_kinds(t0, t1, named_row(cols, nm, vm), r);
            }
        },
        Ok(_) => {},
    }
}

/// `find_name` finds an index holding the name exactly when one exists.
pub proof fn lemma_find_name(names: Seq<Seq<char>>, nm: Seq<char>)
    ensures
        find_name(names, nm) >= 0 ==> find_name(names, nm) < names.len() && names[find_name(
            names,
            nm,
        )] == nm,
        find_name(names, nm) < 0 ==> forall|i: int| 0 <= i < names.len() ==> names[i] != nm,
    decreases names.len(),
{
    if names.len() > 0 && names[0] != nm {
        lemma_find_name(names.drop_first(), nm);
        let r = find_name(names.drop_first(), nm);
        if r >= 0 {
            assert(names.drop_first()[r] == names[r + 1]);
        } else {
            assert forall|i: int| 0 <= i < names.len() implies names[i] != nm by {
                if i > 0 {
                    assert(names.drop_first()[i - 1] == names[i]);
                }
            }
        }
    }
}

/// Binding one more name in front of the list overwrites its column.
proof fn lemma_named_row_cons(
    cols: Seq<ColumnModel>,
    names: Seq<Seq<char>>,
    vals: Seq<ValueModel>,
    n0: Seq<char>,
    v0: ValueModel,
)
    requires
        crate::schema::distinct_names(cols),
        0 <= find_col(cols, n0) < cols.len(),
        cols[find_col(cols, n0)].name == n0,
        names.len() == vals.len(),
    ensures
        named_row(cols, seq![n0] + names, seq![v0] + vals) == named_row(cols, names, vals).update(
            find_col(cols, n0),
            v0,
        ),
{
    let lhs = named_row(cols, seq![n0] + names, seq![v0] + vals);
    let rhs = named_row(cols, names, vals).update(find_col(cols, n0), v0);
    assert forall|i: int| 0 <= i < cols.len() implies lhs[i] == rhs[i] by {
        let cn = cols[i].name;
        assert((seq![n0] + names)[0] == n0);
        if cn == n0 {
            assert(i == find_col(cols, n0)) by {
                lemma_find_col(cols, n0);
                if i != find_col(cols, n0) {
                    assert(cols[i].name == cols[find_col(cols, n0)].name);
                }
            }
            assert(find_name(seq![n0] + names, cn) == 0);
            assert((seq![v0] + vals)[0] == v0);
        } else {
            assert((seq![n0] + names).drop_first() =~= names);
            lemma_find_name(names, cn);
            if find_name(names, cn) >= 0 {
                assert(find_name(seq![n0] + names, cn) == find_name(names, cn) + 1);
                assert((seq![v0] + vals)[find_name(names, cn) + 1] == vals[find_name(names, cn)]);
            } else {
                assert(find_name(seq![n0] + names, cn) < 0);
            }
        }
    }
    assert(lhs =~= rhs);
}

/// First column of the model with the given name, if any.
pub open spec fn find_col(cols: Seq<ColumnModel>, name: Seq<char>) -> int
    decreases cols.len(),
{
    if cols.len() == 0 {
        -1
    } else if cols[0].name == name {
        0
    } else {
        let r = find_col(cols.drop_first(), name);
        if r < 0 {
            -1
        } else {
            r + 1
        }
    }
}

/// `find_col` finds an index holding the name exactly when one exists.
pub proof fn lemma_find_col(cols: Seq<ColumnModel>, name: Seq<char>)
    ensures
        find_col(cols, name) >= 0 ==> find_col(cols, name) < cols.len() && cols[find_col(
            cols,
            name,
        )].name == name,
        find_col(cols, name) < 0 ==> forall|i: int| 0 <= i < cols.len() ==> (
        #[trigger] cols[i]).name != name,
    decreases cols.len(),
{
    if cols.len() > 0 && cols[0].name != name {
        lemma_find_col(cols.drop_first(), name);
        let r = find_col(cols.drop_first(), name);
        if r >= 0 {
            assert(cols.drop_first()[r] == cols[r + 1]);
        } else {
            assert forall|i: int| 0 <= i < cols.len() implies (#[trigger] cols[i]).name != name by {
                if i > 0 {
                    assert(cols.drop_first()[i - 1] == cols[i]);
                }
            }
        }
    }
}

/// Finds a column by name.
fn col_search(schema: &Schema, name: &String) -> (r: Option<usize>)
    ensures
        r matches Some(i) ==> i as int == find_col(schema@.columns, name@),
        r is Some <==> find_col(schema@.columns, name@) >= 0,
{
    let n = schema.columns.len();
    let mut i: usize = 0;
    while i < n
        invariant
            i <= n,
            n == schema.columns.len(),
            forall|j: int| 0 <= j < i ==> (#[trigger] schema@.columns[j]).name != name@,
        decreases n - i,
    {
        proof {
            assert(schema@.columns[i as int] == schema.columns@[i as int]@);
        }
        if schema.columns[i].name == *name {
            proof {
                lemma_find_col_prefix(schema@.columns, name@, i as int);
            }
            return Some(i);
        }
        i = i + 1;
    }
    proof {
        lemma_find_col(schema@.columns, name@);
        if find_col(schema@.columns, name@) >= 0 {
            assert(false);
        }
    }
    None
}

/// If the name first occurs at `i`, `find_col` returns `i`.
proof fn lemma_find_col_prefix(cols: Seq<ColumnModel>, name: Seq<char>, i: int)
    requires
        0 <= i < cols.len(),
        cols[i].name == name,
        forall|j: int| 0 <= j < i ==> (#[trigger] cols[j]).name != name,
    ensures
        find_col(cols, name) == i,
    decreases i,
{
    if i > 0 {
        assert forall|j: int| 0 <= j < i - 1 implies (#[trigger] cols.drop_first()[j]).name
            != name by {
            assert(cols.drop_first()[j] == cols[j + 1]);
        }
        assert(cols.drop_first()[i - 1] == cols[i]);
        lemma_find_col_prefix(cols.drop_first(), name, i - 1);
    }
}

impl Table {
    /// Binds the table to an existing store.
    pub fn new(pager: Pager) -> (t: Table)
        requires
            pager_wf(pager),
            append_shape(pager),
        ensures
            table_wf(t),
            t.pager == pager,
            table_columns(t) == pager.header@.schema.columns,
            table_rows(t) == crate::pager::pager_rows(pager),
    {
        Table { pager }
    }

    /// The table's name; for a well-formed table the store records it
    /// lower-cased, so the returned name is its own lower-casing.
    pub fn name(&self) -> (n: &String)
        ensures
            n@ == self.pager.header@.schema.table_name,
            table_wf(*self) ==> n@ == crate::value::lower_seq(n@),
    {
        &self.pager.header.schema.table_name
    }

    /// The columns of the table, each with its position.
    pub fn columns(&self) -> (out: Vec<IndexedColumn>)
        ensures
            out@.len() == table_columns(*self).len(),
            forall|i: int| 0 <= i < out@.len() ==> (#[trigger] out@[i]).column@ == table_columns(
                *self,
            )[i] && out@[i].index == i,
    {
        let mut out: Vec<IndexedColumn> = Vec::new();
        let n = self.pager.header.schema.columns.len();
        let mut i: usize = 0;
        while i < n
            invariant
                i <= n,
                n == self.pager.header.schema.columns.len(),
                out@.len() == i,
                forall|j: int| 0 <= j < i ==> (#[trigger] out@[j]).column@ == table_columns(
                    *self,
                )[j] && out@[j].index == j,
            decreases n - i,
        {
            proof {
                assert(table_columns(*self)[i as int] == self.pager.header.schema.columns@[
                    i as int]@);
            }
            out.push(
                IndexedColumn { column: self.pager.header.schema.columns[i].dup(), index: i },
            );
            i = i + 1;
        }
        out
    }

    /// Stores one positional row. The row must have one value per column
    /// (`ArityMismatch` otherwise), each matching its column's declared
    /// type (`TypeMismatch` otherwise), and carry a new primary key
    /// (`DuplicateKey` otherwise); a page is allocated first when none has
    /// an empty slot, and the row is appended after every stored row.
    pub fn insert_row(&mut self, row: Vec<TableValue>) -> (r: Result<RecordID, ErrorKind>)
        requires
            table_wf(*old(self)),
        ensures
            insert_effect(*old(self), *final(self), row.deep_view(), r),
    {
        if row.len() != self.pager.header.schema.columns.len() {
            return Err(ErrorKind::ArityMismatch);
        }
        if !self.pager.header.schema.row_matches(&row) {
            return Err(ErrorKind::TypeMismatch);
        }
        let pk = self.pager.header.schema.pk_index();
        proof {
            assert(table_columns(*self)[pk as int].is_primary_key);
            assert(exists|i: int|
                0 <= i < table_columns(*self).len() && table_columns(*self)[i].is_primary_key);
            if pk_col(*self) != pk as int {
                crate::schema::lemma_pk_unique(table_columns(*self), pk_col(*self), pk as int);
            }
            assert(pk_col(*self) == pk as int);
        }
        let existing = self.pager.rows();
        let ghost ex = existing.deep_view();
        let m = existing.len();
        let mut t: usize = 0;
        while t < m
            invariant
                t <= m,
                m == existing@.len(),
                ex == existing.deep_view(),
                ex == table_rows(*self),
                self == old(self),
                table_wf(*self),
                (pk as int) < table_columns(*self).len(),
                pk_col(*self) == pk as int,
                row_matches_columns(row.deep_view(), table_columns(*self)),
                row@.len() == table_columns(*self).len(),
                forall|u: int| 0 <= u < t ==> (#[trigger] ex[u]).len()
                    == table_columns(*self).len() ==> ex[u][pk as int] != row.deep_view()[pk as int],
            decreases m - t,
        {
            proof {
                crate::pager::lemma_rows_match(self.pager, t as int);
                assert(ex[t as int] == existing@[t as int].deep_view());
            }
            let o = crate::value::value_cmp(&existing[t][pk], &row[pk]);
            if let core::cmp::Ordering::Equal = o {
                proof {
                    assert(existing@[t as int]@[pk as int]@ == ex[t as int][pk as int]);
                    assert(row@[pk as int]@ == row.deep_view()[pk as int]);
                    assert(key_present(*self, row.deep_view())) by {
                        assert(table_rows(*self)[t as int][pk as int] == row.deep_view()[
                            pk as int]);
                    }
                }
                return Err(ErrorKind::DuplicateKey(row[pk].dup()));
            }
            t = t + 1;
        }
        proof {
            assert(!key_present(*self, row.deep_view())) by {
                if key_present(*self, row.deep_view()) {
                    let u = choose|u: int|
                        0 <= u < table_rows(*self).len() && table_rows(*self)[u].len()
                            == table_columns(*self).len() && table_rows(*self)[u][pk_col(
                            *self,
                        )] == row.deep_view()[pk_col(*self)];
                    assert(pk_col(*self) == pk as int);
                    assert(ex[u].len() == table_columns(*self).len());
                    assert(existing@[u]@[pk as int]@ == ex[u][pk as int]);
                }
            }
        }
        if !self.pager.has_free_pages() {
            let ghost pre_alloc = self.pager;
            match self.pager.allocate_page() {
                Err(e) => {
                    return Err(e);
                },
                Ok(()) => {},
            }
            proof {
                // Allocation from an empty free list keeps the shape: the
                // free list is now just the new, all-empty last page.
                assert(self.pager.header@.free_pages =~= seq![
                    (pre_alloc.header.num_pages + 1) as u32,
                ]);
                assert forall|i: int, s1: int, s2: int|
                    0 <= i < self.pager.pages@.len() && 0 <= s1 < s2 < crate::codec::page_model(
                        self.pager.pages@[i],
                    ).len() && (#[trigger] crate::codec::page_model(
                        self.pager.pages@[i],
                    )[s2]) is Some implies (#[trigger] crate::codec::page_model(
                    self.pager.pages@[i],
                )[s1]) is Some by {
                    if i < pre_alloc.pages@.len() {
                        assert(self.pager.pages@[i] == pre_alloc.pages@[i]);
                    } else {
                        assert(!(crate::codec::page_model(self.pager.pages@[i])[s2] is Some));
                    }
                }
                assert(append_shape(self.pager));
            }
        }
        let ghost before = *self;
        proof {
            assert(append_shape(before.pager));
        }
        let ghost rv = row.deep_view();
        match self.pager.insert(row) {
            Err(e) => {
                // Unreachable: a page with an empty slot exists here.
                proof {
                    assert(false);
                }
                Err(e)
            },
            Ok(rid) => {
                proof {
                    lemma_insert_rows(before.pager, self.pager, rid, rv);
                    lemma_table_insert_step(before.pager, self.pager, rid, rv);
                    assert(table_rows(before) == table_rows(*old(self)));
                }
                Ok(rid)
            },
        }
    }

    /// Stores one named row: every named column must exist
    /// (`UnknownColumn`), no more names than columns may be given and as
    /// many values as names (`ArityMismatch`), and the primary key must be
    /// bound to a non-null value (`NullPrimaryKey`). The stored row is the
    /// positional row that binds each column to its first named value and
    /// fills the rest with `Null`; it is then inserted as `insert_row`
    /// states.
    #[verifier::rlimit(100)]
    pub fn insert_row_with_named_columns(
        &mut self,
        names: &Vec<String>,
        values: Vec<TableValue>,
    ) -> (r: Result<RecordID, ErrorKind>)
        requires
            table_wf(*old(self)),
        ensures
            insert_named_effect(
                *old(self),
                *final(self),
                names.deep_view(),
                values.deep_view(),
                r,
            ),
    {
        let ghost cols = table_columns(*old(self));
        let ghost nm = names.deep_view();
        let ghost vals0 = values.deep_view();
        if names.len() != values.len() || names.len() > self.pager.header.schema.columns.len() {
            return Err(ErrorKind::ArityMismatch);
        }
        let ncols = self.pager.header.schema.columns.len();
        let n = names.len();
        let mut row: Vec<TableValue> = Vec::new();
        let mut f: usize = 0;
        while f < ncols
            invariant
                f <= ncols,
                row@.len() == f,
                forall|i: int| 0 <= i < f ==> (#[trigger] row@[i]) is Null,
            decreases ncols - f,
        {
            row.push(TableValue::Null);
            f = f + 1;
        }
        proof {
            assert(nm.subrange(n as int, n as int) =~= Seq::<Seq<char>>::empty());
            assert(vals0.subrange(n as int, n as int) =~= Seq::<ValueModel>::empty());
            assert(row.deep_view() =~= named_row(
                cols,
                nm.subrange(n as int, n as int),
                vals0.subrange(n as int, n as int),
            ));
            assert(crate::schema::distinct_names(cols));
        }
        let mut vwork = values;
        let mut k: usize = n;
        while k > 0
            invariant
                k <= n,
                n == nm.len(),
                nm == names.deep_view(),
                vals0 == values.deep_view(),
                n <= ncols,
                vwork.deep_view() == vals0.subrange(0, k as int),
                vwork@.len() == k,
                row@.len() == ncols,
                self == old(self),
                table_wf(*self),
                cols == table_columns(*self),
                ncols == cols.len(),
                ncols == self.pager.header.schema.columns.len(),
                crate::schema::distinct_names(cols),
                n == vals0.len(),
                forall|j: int| k <= j < n ==> find_col(cols, #[trigger] nm[j]) >= 0,
                row.deep_view() == named_row(
                    cols,
                    nm.subrange(k as int, n as int),
                    vals0.subrange(k as int, n as int),
                ),
            decreases k,
        {
            k = k - 1;
            let v = match vwork.pop() {
                Some(v) => v,
                None => {
                    proof {
                        assert(false);
                    }
                    TableValue::Null
                },
            };
            let ghost vv = v@;
            proof {
                assert(vv == vals0[k as int]) by {
                    assert(vals0.subrange(0, k + 1)[k as int] == vals0[k as int]);
                }
                assert(vwork.deep_view() =~= vals0.subrange(0, k as int));
            }
            match col_search(&self.pager.header.schema, &names[k]) {
                None => {
                    proof {
                        lemma_find_col(cols, nm[k as int]);
                        assert(find_col(cols, nm[k as int]) < 0);
                    }
                    return Err(ErrorKind::UnknownColumn);
                },
                Some(idx) => {
                    proof {
                        lemma_find_col(cols, nm[k as int]);
                    }
                    let ghost pre_row = row.deep_view();
                    row[idx] = v;
                    proof {
                        assert(row.deep_view() =~= pre_row.update(idx as int, vv));
                        lemma_named_row_cons(
                            cols,
                            nm.subrange(k + 1, n as int),
                            vals0.subrange(k + 1, n as int),
                            nm[k as int],
                            vals0[k as int],
                        );
                        assert(nm.subrange(k as int, n as int) =~= seq![nm[k as int]]
                            + nm.subrange(k + 1, n as int));
                        assert(vals0.subrange(k as int, n as int) =~= seq![vals0[k as int]]
                            + vals0.subrange(k + 1, n as int));
                        assert(row.deep_view() == named_row(
                            cols,
                            nm.subrange(k as int, n as int),
                            vals0.subrange(k as int, n as int),
                        ));
                    }
                },
            }
        }
        let ghost built = named_row(cols, nm, vals0);
        proof {
            assert(nm.subrange(0, n as int) =~= nm);
            assert(vals0.subrange(0, n as int) =~= vals0);
            assert(row.deep_view() == built);
        }
        let pk = self.pager.header.schema.pk_index();
        proof {
            assert(cols[pk as int].is_primary_key);
            assert(exists|i: int| 0 <= i < cols.len() && cols[i].is_primary_key);
            if pk_col(*self) != pk as int {
                crate::schema::lemma_pk_unique(cols, pk_col(*self), pk as int);
            }
            assert(pk_col(*self) == pk as int);
        }
        let is_null = match &row[pk] {
            TableValue::Null => true,
            _ => false,
        };
        proof {
            assert(row@[pk as int]@ == built[pk as int]);
        }
        if is_null {
            return Err(ErrorKind::NullPrimaryKey);
        }
        self.insert_row(row)
    }

    /// One copy of every stored row, in ascending page and slot order.
    pub fn select_rows(&self) -> (out: Vec<Vec<TableValue>>)
        ensures
            out.deep_view() == table_rows(*self),
    {
        self.pager.rows()
    }

    /// The stored rows restricted to the named columns, in the order the
    /// names were given. Fails with `UnknownColumn` exactly when some name
    /// is not a column.
    #[verifier::rlimit(100)]
    pub fn select_rows_with_named_columns(&self, names: &Vec<String>) -> (r: Result<
        Vec<Vec<TableValue>>,
        ErrorKind,
    >)
        requires
            table_wf(*self),
        ensures
            projection_effect(*self, names.deep_view(), r),
    {
        let ghost nmv = names.deep_view();
        let mut indices: Vec<usize> = Vec::new();
        let n = names.len();
        let mut j: usize = 0;
        while j < n
            invariant
                j <= n,
                n == nmv.len(),
                nmv == names.deep_view(),
                indices@.len() == j,
                table_wf(*self),
                forall|t: int| 0 <= t < j ==> ((#[trigger] indices@[t]) as int == find_col(
                    table_columns(*self),
                    nmv[t],
                ) && find_col(table_columns(*self), nmv[t]) >= 0 && (indices@[t] as int)
                    < table_columns(*self).len()),
            decreases n - j,
        {
            proof {
                assert(nmv[j as int] == names@[j as int]@);
            }
            match col_search(&self.pager.header.schema, &names[j]) {
                None => {
                    proof {
                        lemma_find_col(table_columns(*self), nmv[j as int]);
                        assert(find_col(table_columns(*self), nmv[j as int]) < 0);
                    }
                    return Err(ErrorKind::UnknownColumn);
                },
                Some(idx) => {
                    proof {
                        lemma_find_col(table_columns(*self), nmv[j as int]);
                    }
                    let ghost pre_idx = indices@;
                    indices.push(idx);
                    proof {
                        assert forall|t: int| 0 <= t < j + 1 implies ((
                        #[trigger] indices@[t]) as int == find_col(
                            table_columns(*self),
                            nmv[t],
                        ) && find_col(table_columns(*self), nmv[t]) >= 0 && (
                        indices@[t] as int) < table_columns(*self).len()) by {
                            if t < j {
                                assert(indices@[t] == pre_idx[t]);
                            } else {
                                assert(indices@[t] == idx);
                            }
                        }
                    }
                },
            }
            j = j + 1;
        }
        proof {
            assert forall|t: int| 0 <= t < nmv.len() implies find_col(
                table_columns(*self),
                #[trigger] nmv[t],
            ) >= 0 by {
                assert(indices@[t] as int == find_col(table_columns(*self), nmv[t]));
            }
        }
        let all = self.pager.rows();
        let ghost allv = all.deep_view();
        let mut out: Vec<Vec<TableValue>> = Vec::new();
        let m = all.len();
        let mut i: usize = 0;
        while i < m
            invariant
                i <= m,
                m == all@.len(),
                allv == all.deep_view(),
                allv == table_rows(*self),
                table_wf(*self),
                out@.len() == i,
                indices@.len() == nmv.len(),
                nmv == names.deep_view(),
                forall|t: int| 0 <= t < indices@.len() ==> ((#[trigger] indices@[t]) as int
                    == find_col(table_columns(*self), nmv[t]) && (indices@[t] as int)
                    < table_columns(*self).len()),
                forall|a: int| 0 <= a < i ==> (#[trigger] out@[a]).deep_view().len()
                    == indices@.len(),
                forall|a: int, b: int|
                    #![trigger out@[a], indices@[b]]
                    0 <= a < i && 0 <= b < indices@.len() ==> out@[a].deep_view()[b]
                        == allv[a][indices@[b] as int],
            decreases m - i,
        {
            let mut prow: Vec<TableValue> = Vec::new();
            let nk = indices.len();
            let mut b: usize = 0;
            proof {
                assert(allv[i as int] == all@[i as int].deep_view());
                crate::pager::lemma_rows_match(self.pager, i as int);
            }
            while b < nk
                invariant
                    b <= nk,
                    i < m,
                    m == all@.len(),
                    allv == all.deep_view(),
                    nk == indices@.len(),
                    prow@.len() == b,
                    allv[i as int].len() == table_columns(*self).len(),
                    allv[i as int] == all@[i as int].deep_view(),
                    forall|t: int| 0 <= t < indices@.len() ==> ((#[trigger] indices@[t]) as int)
                        < table_columns(*self).len(),
                    forall|t: int| 0 <= t < b ==> (#[trigger] prow@[t])@ == allv[i as int][indices@[
                        t] as int],
                decreases nk - b,
            {
                let idx = indices[b];
                let v = all[i][idx].dup();
                let ghost vv = v@;
                proof {
                    assert(all.deep_view()[i as int] == all@[i as int].deep_view());
                    assert(all@[i as int].deep_view()[idx as int] == all@[i as int]@[idx as int]@);
                }
                prow.push(v);
                proof {
                    assert(prow@[b as int]@ == vv);
                }
                b = b + 1;
            }
            let ghost prowv = prow.deep_view();
            proof {
                assert forall|t: int| 0 <= t < nk implies prowv[t] == allv[i as int][indices@[
                    t] as int] by {
                    assert(prowv[t] == prow@[t]@);
                }
                assert(prowv.len() == nk);
            }
            out.push(prow);
            i = i + 1;
        }
        proof {
            assert forall|a: int, jj: int|
                0 <= a < out.deep_view().len() && 0 <= jj < nmv.len() implies (
            #[trigger] out.deep_view()[a][jj]) == table_rows(*self)[a][find_col(
                table_columns(*self),
                nmv[jj],
            )] by {
                assert(out.deep_view()[a] == out@[a].deep_view());
                assert(out@[a].deep_view()[jj] == allv[a][indices@[jj] as int]);
            }
        }
        Ok(out)
    }

    /// The byte image to persist; delegates to the store and succeeds
    /// exactly when it does.
    pub fn flush(&self) -> (r: Result<Vec<u8>, ErrorKind>)
        requires
            table_wf(*self),
        ensures
            r matches Ok(img) ==> img@ == crate::pager::spec_file_image(self.pager),
            r is Ok <==> 5 + crate::pager::enc_header(self.pager.header@).len()
                <= self.pager.header.page_byte_size && (self.pager.pages@.len() + 1) * (
            self.pager.header.page_byte_size as int) <= usize::MAX,
            r matches Err(e) ==> e is PageTooSmall,
    {
        self.pager.flush()
    }
}

/// Under the append shape, storing a row lands in the last page after
/// every stored row, so the row sequence is extended at its end, and the
/// shape is kept.
#[verifier::rlimit(100)]
#[verifier::spinoff_prover]
proof fn lemma_table_insert_step(old_q: Pager, q: Pager, rid: RecordID, rv: Seq<ValueModel>)
    requires
        pager_wf(old_q),
        append_shape(old_q),
        pager_wf(q),
        old_q.header@.free_pages.len() >= 1,
        rid.page_number as int == old_q.header@.free_pages.last() as int,
        1 <= rid.page_number as int <= old_q.header@.num_pages,
        old_q.header@.num_pages as int == old_q.pages@.len(),
        0 <= rid.slot < crate::codec::page_model(old_q.pages@[rid.page_number - 1]).len(),
        crate::codec::page_model(old_q.pages@[rid.page_number - 1])[rid.slot as int] is None,
        forall|t: int| 0 <= t < rid.slot ==> !((#[trigger] crate::codec::page_model(
            old_q.pages@[rid.page_number - 1],
        )[t]) is None),
        q.pages@.len() == old_q.pages@.len(),
        crate::codec::page_model(q.pages@[rid.page_number - 1]) == crate::codec::page_model(
            old_q.pages@[rid.page_number - 1],
        ).update(rid.slot as int, Some(rv)),
        forall|i: int|
            0 <= i < old_q.pages@.len() && i != rid.page_number - 1 ==> q.pages@[i]
                == old_q.pages@[i],
        q.header.num_pages == old_q.header.num_pages,
        q.header@.free_pages == (if crate::pager::page_has_empty(
            crate::codec::page_model(q.pages@[rid.page_number - 1]),
        ) {
            old_q.header@.free_pages
        } else {
            old_q.header@.free_pages.drop_last()
        }),
    ensures
        pager_rows(q) == pager_rows(old_q).push(rv),
        append_shape(q),
{
    let p = rid.page_number as int;
    let sl = rid.slot as int;
    let pm = crate::codec::page_model(old_q.pages@[p - 1]);
    let npm = crate::codec::page_model(q.pages@[p - 1]);
    // The free list is at most the last page, so the row lands there.
    assert(old_q.header@.free_pages.len() == 1);
    assert(p == old_q.header@.num_pages as int);
    assert(p == old_q.pages@.len());
    // Everything after the filled slot is empty.
    assert forall|t: int| sl < t < pm.len() implies !((#[trigger] pm[t]) is Some) by {
        if pm[t] is Some {
            assert(pm[sl] is Some);
        }
    }
    lemma_pages_rows_split(old_q.pages@, p - 1);
    lemma_pages_rows_split(q.pages@, p - 1);
    assert(q.pages@.subrange(0, p - 1) =~= old_q.pages@.subrange(0, p - 1));
    assert(q.pages@.subrange(p, q.pages@.len() as int) =~= old_q.pages@.subrange(
        p,
        old_q.pages@.len() as int,
    ));
    assert(old_q.pages@.subrange(p, p) =~= Seq::<Vec<Option<Vec<TableValue>>>>::empty());
    assert(crate::pager::pages_rows(old_q.pages@.subrange(p, p)) == Seq::<Seq<ValueModel>>::empty());
    lemma_page_rows_update(pm, sl, rv);
    let before = crate::pager::page_rows(pm.subrange(0, sl));
    let after = crate::pager::page_rows(pm.subrange(sl + 1, pm.len() as int));
    assert(after =~= Seq::<Seq<ValueModel>>::empty()) by {
        assert forall|t: int| 0 <= t < pm.subrange(sl + 1, pm.len() as int).len() implies (
        #[trigger] pm.subrange(sl + 1, pm.len() as int)[t]) is None by {
            assert(pm.subrange(sl + 1, pm.len() as int)[t] == pm[sl + 1 + t]);
        }
        crate::pager::lemma_empty_page_rows(pm.subrange(sl + 1, pm.len() as int));
    }
    let a = crate::pager::pages_rows(old_q.pages@.subrange(0, p - 1));
    assert(pager_rows(old_q) == a + (before + after) + Seq::<Seq<ValueModel>>::empty());
    assert(pager_rows(q) == a + (before + (seq![rv] + after)) + Seq::<Seq<ValueModel>>::empty());
    assert(pager_rows(q) =~= pager_rows(old_q).push(rv));
    // The shape is kept: the filled page stays a front-run of rows and
    // the free list stays at most the last page.
    assert forall|i: int, s1: int, s2: int|
        0 <= i < q.pages@.len() && 0 <= s1 < s2 < crate::codec::page_model(q.pages@[i]).len()
            && (#[trigger] crate::codec::page_model(q.pages@[i])[s2]) is Some implies (
    #[trigger] crate::codec::page_model(q.pages@[i])[s1]) is Some by {
        if i == p - 1 {
            if s1 == sl {
            } else if s2 == sl {
                assert(!(pm[s1] is None));
            } else {
                assert(npm[s2] == pm[s2] && npm[s1] == pm[s1]);
                if pm[s2] is Some {
                    if s2 > sl {
                        assert(!(pm[s2] is Some));
                    }
                    assert(!(pm[s1] is None)) by {
                        if s1 > sl {
                            assert(pm[s1] is Some || !(pm[s1] is Some));
                            if !(pm[s1] is Some) {
                                assert(pm[s2] is Some && s1 < s2);
                                assert(pm[s1] is Some);
                            }
                        }
                    }
                }
            }
        } else {
            assert(q.pages@[i] == old_q.pages@[i]);
        }
    }
    assert(q.header@.free_pages.len() == 0 || (q.header@.free_pages.len() == 1
        && q.header@.free_pages[0] == q.header@.num_pages)) by {
        if crate::pager::page_has_empty(npm) {
        } else {
            assert(q.header@.free_pages =~= old_q.header@.free_pages.drop_last());
        }
    }
}

/// Inserting a row into a free slot adds exactly that row to the stored
/// multiset.
proof fn lemma_insert_rows(old_q: Pager, q: Pager, rid: RecordID, rv: Seq<ValueModel>)
    requires
        pager_wf(old_q),
        pager_wf(q),
        old_q.header@.free_pages.len() >= 1,
        rid.page_number as int == old_q.header@.free_pages.last() as int,
        1 <= rid.page_number as int <= old_q.header@.num_pages,
        0 <= rid.slot < crate::codec::page_model(old_q.pages@[rid.page_number - 1]).len(),
        crate::codec::page_model(old_q.pages@[rid.page_number - 1])[rid.slot as int] is None,
        q.pages@.len() == old_q.pages@.len(),
        crate::codec::page_model(q.pages@[rid.page_number - 1]) == crate::codec::page_model(
            old_q.pages@[rid.page_number - 1],
        ).update(rid.slot as int, Some(rv)),
        forall|i: int|
            0 <= i < old_q.pages@.len() && i != rid.page_number - 1 ==> q.pages@[i]
                == old_q.pages@[i],
    ensures
        pager_rows(q).to_multiset() == pager_rows(old_q).to_multiset().insert(rv),
{
    let p = rid.page_number as int;
    lemma_pages_rows_split(old_q.pages@, p - 1);
    lemma_pages_rows_split(q.pages@, p - 1);
    assert(q.pages@.subrange(0, p - 1) =~= old_q.pages@.subrange(0, p - 1));
    assert(q.pages@.subrange(p, q.pages@.len() as int) =~= old_q.pages@.subrange(
        p,
        old_q.pages@.len() as int,
    ));
    let pm = crate::codec::page_model(old_q.pages@[p - 1]);
    let npm = crate::codec::page_model(q.pages@[p - 1]);
    lemma_page_rows_update(pm, rid.slot as int, rv);
    let a = crate::pager::pages_rows(old_q.pages@.subrange(0, p - 1));
    let c = crate::pager::pages_rows(old_q.pages@.subrange(p, old_q.pages@.len() as int));
    let before = crate::pager::page_rows(pm.subrange(0, rid.slot as int));
    let after = crate::pager::page_rows(
        pm.subrange(rid.slot as int + 1, pm.len() as int),
    );
    assert(pager_rows(old_q) == a + (before + after) + c);
    assert(pager_rows(q) == a + (before + (seq![rv] + after)) + c);
    assert(pager_rows(q).to_multiset() =~= pager_rows(old_q).to_multiset().insert(rv)) by {
        vstd::seq_lib::lemma_multiset_commutative(a + (before + (seq![rv] + after)), c);
        vstd::seq_lib::lemma_multiset_commutative(a, before + (seq![rv] + after));
        vstd::seq_lib::lemma_multiset_commutative(before, seq![rv] + after);
        vstd::seq_lib::lemma_multiset_commutative(seq![rv], after);
        vstd::seq_lib::lemma_multiset_commutative(a + (before + after), c);
        vstd::seq_lib::lemma_multiset_commutative(a, before + after);
        vstd::seq_lib::lemma_multiset_commutative(before, after);
        assert(seq![rv].to_multiset() =~= vstd::multiset::Multiset::empty().insert(rv)) by {
            let se = Seq::<Seq<ValueModel>>::empty();
            se.to_multiset_ensures();
            assert(se.to_multiset().len() == 0);
            assert(se.to_multiset() =~= vstd::multiset::Multiset::empty());
            assert(se.push(rv) =~= seq![rv]);
        }
    }
}

/// The rows of a run of pages split at any page.
proof fn lemma_pages_rows_split(ps: Seq<Vec<Option<Vec<TableValue>>>>, c: int)
    requires
        0 <= c < ps.len(),
    ensures
        crate::pager::pages_rows(ps) == crate::pager::pages_rows(ps.subrange(0, c))
            + crate::pager::page_rows(crate::codec::page_model(ps[c]))
            + crate::pager::pages_rows(ps.subrange(c + 1, ps.len() as int)),
    decreases c,
{
    if c == 0 {
        assert(ps.subrange(0, 0) =~= Seq::<Vec<Option<Vec<TableValue>>>>::empty());
        assert(crate::pager::pages_rows(ps.subrange(0, 0)) == Seq::<Seq<ValueModel>>::empty());
        assert(ps.subrange(1, ps.len() as int) =~= ps.drop_first());
        assert(crate::pager::pages_rows(ps) =~= crate::pager::pages_rows(ps.subrange(0, 0))
            + crate::pager::page_rows(crate::codec::page_model(ps[0]))
            + crate::pager::pages_rows(ps.subrange(1, ps.len() as int)));
    } else {
        let t = ps.drop_first();
        lemma_pages_rows_split(t, c - 1);
        assert(t[c - 1] == ps[c]);
        assert(t.subrange(0, c - 1) =~= ps.subrange(1, c));
        assert(t.subrange(c, t.len() as int) =~= ps.subrange(c + 1, ps.len() as int));
        assert(ps.subrange(0, c).drop_first() =~= ps.subrange(1, c));
        assert(ps.subrange(0, c)[0] == ps[0]);
        assert(crate::pager::pages_rows(ps.subrange(0, c)) =~= crate::pager::page_rows(
            crate::codec::page_model(ps[0]),
        ) + crate::pager::pages_rows(ps.subrange(1, c)));
        assert(crate::pager::pages_rows(ps) =~= crate::pager::pages_rows(ps.subrange(0, c))
            + crate::pager::page_rows(crate::codec::page_model(ps[c]))
            + crate::pager::pages_rows(ps.subrange(c + 1, ps.len() as int)));
    }
}

/// Filling an empty slot splits the page's rows around the new row.
proof fn lemma_page_rows_update(pm: Seq<Option<Seq<ValueModel>>>, s: int, rv: Seq<ValueModel>)
    requires
        0 <= s < pm.len(),
        pm[s] is None,
    ensures
        crate::pager::page_rows(pm) == crate::pager::page_rows(pm.subrange(0, s))
            + crate::pager::page_rows(pm.subrange(s + 1, pm.len() as int)),
        crate::pager::page_rows(pm.update(s, Some(rv))) == crate::pager::page_rows(
            pm.subrange(0, s),
        ) + (seq![rv] + crate::pager::page_rows(pm.subrange(s + 1, pm.len() as int))),
    decreases s,
{
    let npm = pm.update(s, Some(rv));
    if s == 0 {
        assert(pm.subrange(0, 0) =~= Seq::<Option<Seq<ValueModel>>>::empty());
        assert(crate::pager::page_rows(pm.subrange(0, 0)) == Seq::<Seq<ValueModel>>::empty());
        assert(pm.subrange(1, pm.len() as int) =~= pm.drop_first());
        assert(crate::pager::page_rows(pm) =~= crate::pager::page_rows(pm.subrange(0, 0))
            + crate::pager::page_rows(pm.subrange(1, pm.len() as int)));
        assert(npm.drop_first() =~= pm.drop_first());
        assert(crate::pager::page_rows(npm) =~= crate::pager::page_rows(pm.subrange(0, 0)) + (
        seq![rv] + crate::pager::page_rows(pm.subrange(1, pm.len() as int))));
    } else {
        let t = pm.drop_first();
        lemma_page_rows_update(t, s - 1, rv);
        assert(t.subrange(0, s - 1) =~= pm.subrange(1, s));
        assert(t.subrange(s, t.len() as int) =~= pm.subrange(s + 1, pm.len() as int));
        assert(pm.subrange(0, s).drop_first() =~= pm.subrange(1, s));
        assert(pm.subrange(0, s)[0] == pm[0]);
        assert(npm.drop_first() =~= t.update(s - 1, Some(rv)));
        match pm[0] {
            Some(r0) => {
                assert(crate::pager::page_rows(pm.subrange(0, s)) =~= seq![r0]
                    + crate::pager::page_rows(pm.subrange(1, s)));
                assert(crate::pager::page_rows(pm) =~= crate::pager::page_rows(pm.subrange(0, s))
                    + crate::pager::page_rows(pm.subrange(s + 1, pm.len() as int)));
                assert(crate::pager::page_rows(npm) =~= crate::pager::page_rows(
                    pm.subrange(0, s),
                ) + (seq![rv] + crate::pager::page_rows(pm.subrange(s + 1, pm.len() as int))));
            },
            None => {
                assert(crate::pager::page_rows(pm.subrange(0, s)) =~= crate::pager::page_rows(
                    pm.subrange(1, s),
                ));
                assert(crate::pager::page_rows(pm) =~= crate::pager::page_rows(pm.subrange(0, s))
                    + crate::pager::page_rows(pm.subrange(s + 1, pm.len() as int)));
                assert(crate::pager::page_rows(npm) =~= crate::pager::page_rows(
                    pm.subrange(0, s),
                ) + (seq![rv] + crate::pager::page_rows(pm.subrange(s + 1, pm.len() as int))));
            },
        }
    }
}

} // verus!
