//! The table data model: ordered, named, typed columns with aligned rows.

use vstd::prelude::*;

verus! {

/// The cells of one column. A column's scalar type is inferred once, when the
/// column is built: either every cell is a 64-bit integer, or the cells are
/// kept as raw text.
#[derive(Debug)]
pub enum ColumnData {
    Ints(Vec<i64>),
    Texts(Vec<String>),
}

/// Mathematical model of a column's cells.
#[verifier::ext_equal]
pub enum ColDataModel {
    Ints(Seq<i64>),
    Texts(Seq<Seq<char>>),
}

/// A named column.
#[derive(Debug)]
pub struct Column {
    pub name: String,
    pub data: ColumnData,
}

/// Mathematical model of a named column.
#[verifier::ext_equal]
pub struct ColModel {
    pub name: Seq<char>,
    pub data: ColDataModel,
}

/// A rectangular table: an ordered sequence of named columns whose cell
/// sequences all have the same length (the row count).
#[derive(Debug)]
pub struct Table {
    pub cols: Vec<Column>,
}

impl View for ColumnData {
    type V = ColDataModel;

    open spec fn view(&self) -> ColDataModel {
        match self {
            ColumnData::Ints(v) => ColDataModel::Ints(v@),
            ColumnData::Texts(v) => ColDataModel::Texts(v@.map_values(|s: String| s@)),
        }
    }
}

impl View for Column {
    type V = ColModel;

    open spec fn view(&self) -> ColModel {
        ColModel { name: self.name@, data: self.data@ }
    }
}

/// The model of a sequence of columns.
pub open spec fn cols_view(v: Seq<Column>) -> Seq<ColModel> {
    v.map_values(|c: Column| c@)
}

impl View for Table {
    type V = Seq<ColModel>;

    open spec fn view(&self) -> Seq<ColModel> {
        cols_view(self.cols@)
    }
}

/// One cell as a plain value: an integer or a piece of text.
#[verifier::ext_equal]
pub enum CellModel {
    I(i64),
    T(Seq<char>),
}

/// The cell of a column at row `i`.
pub open spec fn cell_model(d: ColDataModel, i: int) -> CellModel {
    match d {
        ColDataModel::Ints(v) => CellModel::I(v[i]),
        ColDataModel::Texts(v) => CellModel::T(v[i]),
    }
}

/// Whether some cell of the column equals `c`.
pub open spec fn data_contains(d: ColDataModel, c: CellModel) -> bool {
    exists|i: int| 0 <= i < col_len(d) && #[trigger] cell_model(d, i) == c
}

/// Number of cells a column holds.
pub open spec fn col_len(d: ColDataModel) -> nat {
    match d {
        ColDataModel::Ints(v) => v.len(),
        ColDataModel::Texts(v) => v.len(),
    }
}

/// Whether a column's inferred type is numeric.
pub open spec fn col_is_numeric(d: ColDataModel) -> bool {
    d is Ints
}

/// Row count of a table: the length of its first column (0 for the transient
/// zero-column table).
pub open spec fn table_rows(t: Seq<ColModel>) -> nat {
    if t.len() == 0 {
        0
    } else {
        col_len(t[0].data)
    }
}

/// Well-formedness: at least one column, all columns the same length, and
/// column names unique.
pub open spec fn table_wf(t: Seq<ColModel>) -> bool {
    &&& t.len() >= 1
    &&& forall|j: int| 0 <= j < t.len() ==> col_len(#[trigger] t[j].data) == table_rows(t)
    &&& forall|j1: int, j2: int|
        0 <= j1 < j2 < t.len() ==> (#[trigger] t[j1].name) != (#[trigger] t[j2].name)
}

/// Two tables have compatible schemas: same number of columns, in the same
/// order, with the same names and the same inferred types.
pub open spec fn schema_eq(a: Seq<ColModel>, b: Seq<ColModel>) -> bool {
    &&& a.len() == b.len()
    &&& forall|j: int|
        0 <= j < a.len() ==> (#[trigger] a[j]).name == (#[trigger] b[j]).name
            && (col_is_numeric(a[j].data) <==> col_is_numeric(b[j].data))
}

/// A table's schema as plain values: each column's name and whether it is
/// numeric.
pub open spec fn schema_model(t: Seq<ColModel>) -> Seq<(Seq<char>, bool)> {
    t.map_values(|c: ColModel| (c.name, col_is_numeric(c.data)))
}

impl Table {
    /// Whether this table is well formed.
    pub open spec fn wf(&self) -> bool {
        table_wf(self@)
    }

    /// The number of rows.
    pub fn rows(&self) -> (n: usize)
        requires
            self.wf(),
        ensures
            n == table_rows(self@),
    {
        match &self.cols[0].data {
            ColumnData::Ints(v) => v.len(),
            ColumnData::Texts(v) => v.len(),
        }
    }

    /// The number of columns.
    pub fn columns(&self) -> (n: usize)
        ensures
            n == self@.len(),
    {
        self.cols.len()
    }
}

} // verus!
