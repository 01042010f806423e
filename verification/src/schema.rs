//! Column definitions and table schemas, with the validation rules a
//! `CREATE TABLE` must pass: at least one column, no duplicate column names,
//! and exactly one primary key.
use vstd::prelude::*;

use crate::value::{model_matches_type, DataType, TableValue};
use crate::{ErrorKind, SchemaFault};

verus! {

/// Mathematical model of a column definition.
pub struct ColumnModel {
    pub name: Seq<char>,
    pub datatype: DataType,
    pub is_primary_key: bool,
}

/// A named, typed column; at most one column of a schema is the primary key.
#[derive(Debug, Clone)]
pub struct Column {
    pub name: String,
    pub datatype: DataType,
    pub is_primary_key: bool,
}

impl View for Column {
    type V = ColumnModel;

    open spec fn view(&self) -> ColumnModel {
        ColumnModel { name: self.name@, datatype: self.datatype, is_primary_key: self.is_primary_key }
    }
}

impl DeepView for Column {
    type V = ColumnModel;

    open spec fn deep_view(&self) -> ColumnModel {
        self.view()
    }
}

impl Column {
    /// Builds a column from its parts.
    pub fn new(name: &str, datatype: DataType, is_primary_key: bool) -> (c: Column)
        ensures
            c@.name == name@,
            c@.datatype == datatype,
            c@.is_primary_key == is_primary_key,
    {
        Column { name: name.to_owned(), datatype, is_primary_key }
    }

    /// Exact copy of the column.
    pub fn dup(&self) -> (c: Column)
        ensures
            c@ == self@,
    {
        Column { name: self.name.clone(), datatype: self.datatype, is_primary_key: self.is_primary_key }
    }
}

/// Mathematical model of a schema.
pub struct SchemaModel {
    pub table_name: Seq<char>,
    pub columns: Seq<ColumnModel>,
}

/// A table schema: a non-empty table name and its ordered columns.
#[derive(Debug, Clone)]
pub struct Schema {
    pub table_name: String,
    pub columns: Vec<Column>,
}

impl View for Schema {
    type V = SchemaModel;

    open spec fn view(&self) -> SchemaModel {
        SchemaModel { table_name: self.table_name@, columns: self.columns.deep_view() }
    }
}

/// How many columns of the model are marked as the primary key.
pub open spec fn pk_count(cols: Seq<ColumnModel>) -> int
    decreases cols.len(),
{
    if cols.len() == 0 {
        0
    } else {
        pk_count(cols.drop_last()) + if cols.last().is_primary_key {
            1int
        } else {
            0int
        }
    }
}

/// All column names of the model are distinct.
pub open spec fn distinct_names(cols: Seq<ColumnModel>) -> bool {
    forall|i: int, j: int| 0 <= i < j < cols.len() ==> cols[i].name != cols[j].name
}

/// A schema the database accepts: at least one column, distinct column
/// names, and exactly one primary key.
pub open spec fn schema_valid(s: SchemaModel) -> bool {
    &&& s.table_name.len() > 0
    &&& s.columns.len() > 0
    &&& distinct_names(s.columns)
    &&& pk_count(s.columns) == 1
}

/// A row is admissible under the columns when it has one value per column
/// and each value matches its column's declared type.
pub open spec fn row_matches_columns(row: Seq<crate::value::ValueModel>, cols: Seq<ColumnModel>) -> bool {
    &&& row.len() == cols.len()
    &&& forall|i: int| 0 <= i < row.len() ==> model_matches_type(#[trigger] row[i], cols[i].datatype)
}

impl Schema {
    /// Builds a schema from a table name and its columns.
    pub fn new(table_name: &str, columns: Vec<Column>) -> (s: Schema)
        ensures
            s@.table_name == table_name@,
            s@.columns == columns.deep_view(),
    {
        Schema { table_name: table_name.to_owned(), columns }
    }

    /// Exact copy of the schema.
    pub fn dup(&self) -> (s: Schema)
        ensures
            s@ == self@,
    {
        let mut cols: Vec<Column> = Vec::new();
        let mut i: usize = 0;
        while i < self.columns.len()
            invariant
                i <= self.columns.len(),
                cols.len() == i,
                forall|j: int| 0 <= j < i ==> cols@[j]@ == self.columns@[j]@,
            decreases self.columns.len() - i,
        {
            cols.push(self.columns[i].dup());
            i = i + 1;
        }
        let s = Schema { table_name: self.table_name.clone(), columns: cols };
        proof {
            assert(s@.columns =~= self@.columns);
        }
        s
    }

    /// Checks the schema. Returns `Ok` exactly on valid schemas; otherwise
    /// the fault names the first rule broken, checked in the order: empty
    /// name, no columns, duplicate column names, then primary-key count.
    pub fn validate(&self) -> (r: Result<(), ErrorKind>)
        ensures
            r is Ok <==> schema_valid(self@),
            r matches Err(e) ==> e is SchemaInvalid,
    {
        if self.table_name.as_str().unicode_len() == 0 {
            return Err(ErrorKind::SchemaInvalid(SchemaFault::EmptyName));
        }
        if self.columns.len() == 0 {
            return Err(ErrorKind::SchemaInvalid(SchemaFault::NoColumns));
        }
        let n = self.columns.len();
        let mut i: usize = 0;
        while i < n
            invariant
                i <= n,
                n == self.columns.len(),
                forall|p: int, q: int| 0 <= p < q < i ==> self@.columns[p].name != self@.columns[q].name,
            decreases n - i,
        {
            let mut j: usize = 0;
            while j < i
                invariant
                    j <= i,
                    i < n,
                    n == self.columns.len(),
                    forall|q: int| 0 <= q < j ==> self@.columns[q].name != self@.columns[i as int].name,
                decreases i - j,
            {
                if self.columns[j].name == self.columns[i].name {
                    proof {
                        assert(self@.columns[j as int].name == self.columns@[j as int]@.name);
                        assert(self@.columns[i as int].name == self.columns@[i as int]@.name);
                        assert(!distinct_names(self@.columns));
                    }
                    return Err(ErrorKind::SchemaInvalid(SchemaFault::DuplicateColumn));
                }
                j = j + 1;
            }
            i = i + 1;
        }
        let mut pk: u64 = 0;
        let mut k: usize = 0;
        while k < n
            invariant
                k <= n,
                n == self.columns.len(),
                pk as int == pk_count(self@.columns.subrange(0, k as int)),
                pk <= k,
            decreases n - k,
        {
            proof {
                assert(self@.columns.subrange(0, k + 1 as int).drop_last() =~= self@.columns.subrange(
                    0,
                    k as int,
                ));
            }
            if self.columns[k].is_primary_key {
                pk = pk + 1;
            }
            k = k + 1;
        }
        proof {
            assert(self@.columns.subrange(0, n as int) =~= self@.columns);
        }
        if pk == 0 {
            Err(ErrorKind::SchemaInvalid(SchemaFault::NoPrimaryKey))
        } else if pk > 1 {
            Err(ErrorKind::SchemaInvalid(SchemaFault::MultiplePrimaryKeys))
        } else {
            Ok(())
        }
    }

    /// Index of the primary-key column of a valid schema.
    pub fn pk_index(&self) -> (idx: usize)
        requires
            schema_valid(self@),
        ensures
            idx < self@.columns.len(),
            self@.columns[idx as int].is_primary_key,
    {
        let n = self.columns.len();
        let mut k: usize = 0;
        while k < n
            invariant
                k <= n,
                n == self.columns.len(),
                schema_valid(self@),
                pk_count(self@.columns.subrange(0, k as int)) == 0,
            decreases n - k,
        {
            proof {
                assert(self@.columns.subrange(0, k + 1 as int).drop_last() =~= self@.columns.subrange(
                    0,
                    k as int,
                ));
            }
            if self.columns[k].is_primary_key {
                return k;
            }
            k = k + 1;
        }
        proof {
            assert(self@.columns.subrange(0, n as int) =~= self@.columns);
        }
        0
    }

    /// Checks a row against the schema: one value per column, each matching
    /// its column's type.
    pub fn row_matches(&self, row: &Vec<TableValue>) -> (r: bool)
        ensures
            r == row_matches_columns(row.deep_view(), self@.columns),
    {
        if row.len() != self.columns.len() {
            return false;
        }
        let n = row.len();
        let mut i: usize = 0;
        while i < n
            invariant
                i <= n,
                n == row.len(),
                n == self.columns.len(),
                forall|j: int| 0 <= j < i ==> model_matches_type(
                    #[trigger] row.deep_view()[j],
                    self@.columns[j].datatype,
                ),
            decreases n - i,
        {
            if !crate::value::value_matches_type(&row[i], &self.columns[i].datatype) {
                proof {
                    assert(row.deep_view()[i as int] == row@[i as int]@);
                    assert(self@.columns[i as int].datatype == self.columns@[i as int]@.datatype);
                }
                return false;
            }
            i = i + 1;
        }
        true
    }
}

/// Byte-size summary of a schema under the codec: the worst-case encoded
/// size of one row, and the fixed envelope a row array adds.
pub struct TableSerializationSize {
    pub row_size: u64,
    pub vector_size: u64,
}


/// The primary-key count is never negative.
pub proof fn lemma_pk_count_nonneg(cols: Seq<ColumnModel>)
    ensures
        pk_count(cols) >= 0,
    decreases cols.len(),
{
    if cols.len() > 0 {
        lemma_pk_count_nonneg(cols.drop_last());
    }
}

/// A column marked primary makes the count positive.
pub proof fn lemma_pk_at_least(cols: Seq<ColumnModel>, i: int)
    requires
        0 <= i < cols.len(),
        cols[i].is_primary_key,
    ensures
        pk_count(cols) >= 1,
    decreases cols.len(),
{
    lemma_pk_count_nonneg(cols);
    if i < cols.len() - 1 {
        assert(cols.drop_last()[i] == cols[i]);
        lemma_pk_at_least(cols.drop_last(), i);
        lemma_pk_count_nonneg(cols.drop_last());
    } else {
        lemma_pk_count_nonneg(cols.drop_last());
    }
}

/// Two distinct primary-key columns make the count at least two; with a
/// valid schema the primary-key column is therefore unique.
pub proof fn lemma_pk_unique(cols: Seq<ColumnModel>, i: int, j: int)
    requires
        0 <= i < cols.len(),
        0 <= j < cols.len(),
        i != j,
        cols[i].is_primary_key,
        cols[j].is_primary_key,
    ensures
        pk_count(cols) >= 2,
    decreases cols.len(),
{
    let a = if i < j {
        i
    } else {
        j
    };
    let b = if i < j {
        j
    } else {
        i
    };
    if b == cols.len() - 1 {
        assert(cols.drop_last()[a] == cols[a]);
        lemma_pk_at_least(cols.drop_last(), a);
        assert(pk_count(cols) == pk_count(cols.drop_last()) + 1);
    } else {
        assert(cols.drop_last()[a] == cols[a]);
        assert(cols.drop_last()[b] == cols[b]);
        lemma_pk_unique(cols.drop_last(), a, b);
    }
}
} // verus!
