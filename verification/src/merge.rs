//! The merge engine: vertical concatenation of an incoming table onto the
//! current one, guarded by schema compatibility.

use vstd::prelude::*;

use crate::table::{
    CellModel, ColDataModel, ColModel, Column, ColumnData, Table, cell_model, col_is_numeric,
    col_len, schema_eq, schema_model, table_rows, table_wf,
};
use crate::text::str_eq;

verus! {

/// One column of a schema, as plain values.
#[derive(Debug)]
pub struct SchemaEntry {
    pub name: String,
    pub numeric: bool,
}

impl View for SchemaEntry {
    type V = (Seq<char>, bool);

    open spec fn view(&self) -> (Seq<char>, bool) {
        (self.name@, self.numeric)
    }
}

/// The model of a schema listing.
pub open spec fn schema_entries_view(v: Seq<SchemaEntry>) -> Seq<(Seq<char>, bool)> {
    v.map_values(|e: SchemaEntry| e@)
}

/// Why a merge failed: the two tables' schemas do not line up. Both schemas
/// are carried for the caller to report.
#[derive(Debug)]
pub enum MergeError {
    SchemaMismatch { current: Vec<SchemaEntry>, incoming: Vec<SchemaEntry> },
}

/// Whether merging succeeds: always onto an absent table, otherwise exactly
/// when the schemas are compatible.
pub open spec fn spec_merge_ok(cur: Option<Seq<ColModel>>, inc: Seq<ColModel>) -> bool {
    match cur {
        None => true,
        Some(a) => schema_eq(a, inc),
    }
}

/// Two same-typed columns' cells, the first column's first.
pub open spec fn concat_data(x: ColDataModel, y: ColDataModel) -> ColDataModel {
    match (x, y) {
        (ColDataModel::Ints(u), ColDataModel::Ints(v)) => ColDataModel::Ints(u + v),
        (ColDataModel::Texts(u), ColDataModel::Texts(v)) => ColDataModel::Texts(u + v),
        _ => x,
    }
}

/// The concatenation of two schema-compatible tables: the current table's
/// columns, each extended below by the incoming table's same column.
pub open spec fn merged_cols(a: Seq<ColModel>, b: Seq<ColModel>) -> Seq<ColModel> {
    Seq::new(a.len(), |j: int| ColModel { name: a[j].name, data: concat_data(a[j].data, b[j].data) })
}

/// What a merge produces when it succeeds: the incoming table itself when
/// there is no current table, else the concatenation.
pub open spec fn spec_merge(cur: Option<Seq<ColModel>>, inc: Seq<ColModel>) -> Seq<ColModel>
    recommends
        spec_merge_ok(cur, inc),
{
    match cur {
        None => inc,
        Some(a) => merged_cols(a, inc),
    }
}

/// The model of an optional current table.
pub open spec fn opt_table_view(cur: Option<&Table>) -> Option<Seq<ColModel>> {
    match cur {
        Some(t) => Some(t@),
        None => None,
    }
}

/// A table's schema as plain entries.
pub fn schema_of(t: &Table) -> (v: Vec<SchemaEntry>)
    ensures
        schema_entries_view(v@) == schema_model(t@),
{
    let mut v: Vec<SchemaEntry> = Vec::new();
    let mut j: usize = 0;
    while j < t.cols.len()
        invariant
            0 <= j <= t@.len(),
            v@.len() == j,
            forall|q: int| 0 <= q < j ==> (#[trigger] v@[q])@ == (t@[q].name, col_is_numeric(t@[q].data)),
        decreases t@.len() - j,
    {
        let numeric = match &t.cols[j].data {
            ColumnData::Ints(_) => true,
            ColumnData::Texts(_) => false,
        };
        v.push(SchemaEntry { name: t.cols[j].name.clone(), numeric });
        j += 1;
    }
    proof {
        assert(schema_entries_view(v@) =~~= schema_model(t@));
    }
    v
}

/// Whether the two tables' schemas are compatible.
fn schemas_match(a: &Table, b: &Table) -> (r: bool)
    ensures
        r == schema_eq(a@, b@),
{
    if a.cols.len() != b.cols.len() {
        return false;
    }
    let mut j: usize = 0;
    while j < a.cols.len()
        invariant
            a@.len() == b@.len(),
            0 <= j <= a@.len(),
            forall|q: int|
                0 <= q < j ==> (#[trigger] a@[q]).name == b@[q].name && (col_is_numeric(a@[q].data)
                    <==> col_is_numeric(b@[q].data)),
        decreases a@.len() - j,
    {
        proof {
            assert(a@[j as int] == a.cols@[j as int]@);
            assert(b@[j as int] == b.cols@[j as int]@);
        }
        if !str_eq(a.cols[j].name.as_str(), b.cols[j].name.as_str()) {
            return false;
        }
        let na = match &a.cols[j].data {
            ColumnData::Ints(_) => true,
            ColumnData::Texts(_) => false,
        };
        let nb = match &b.cols[j].data {
            ColumnData::Ints(_) => true,
            ColumnData::Texts(_) => false,
        };
        if na != nb {
            return false;
        }
        j += 1;
    }
    true
}

/// Merge the incoming table onto the current one: the incoming table itself
/// when no current table exists, else the vertical concatenation with the
/// current table's rows first. A schema mismatch fails, carrying both
/// schemas; nothing else fails.
#[verifier::loop_isolation(false)]
pub fn merge(current: Option<&Table>, incoming: Table) -> (r: Result<Table, MergeError>)
    requires
        (current matches Some(a) ==> a.wf()),
        incoming.wf(),
    ensures
        (match r {
            Ok(t) => spec_merge_ok(opt_table_view(current), incoming@) && t@ == spec_merge(
                opt_table_view(current),
                incoming@,
            ) && t.wf(),
            Err(e) => !spec_merge_ok(opt_table_view(current), incoming@) && (e matches
                MergeError::SchemaMismatch { current: cs, incoming: is } && current matches Some(a)
                && schema_entries_view(cs@) == schema_model(a@) && schema_entries_view(is@)
                == schema_model(incoming@)),
        }),
{
    let a = match current {
        None => {
            return Ok(incoming);
        },
        Some(a) => a,
    };
    if !schemas_match(a, &incoming) {
        return Err(
            MergeError::SchemaMismatch { current: schema_of(a), incoming: schema_of(&incoming) },
        );
    }
    let mut cols: Vec<Column> = Vec::new();
    let mut j: usize = 0;
    while j < a.cols.len()
        invariant
            0 <= j <= a@.len(),
            cols@.len() == j,
            forall|q: int| 0 <= q < j ==> (#[trigger] cols@[q])@ == merged_cols(a@, incoming@)[q],
        decreases a@.len() - j,
    {
        proof {
            assert(col_len(a@[j as int].data) == table_rows(a@));
            assert(col_len(incoming@[j as int].data) == table_rows(incoming@));
            assert(col_is_numeric(a@[j as int].data) <==> col_is_numeric(incoming@[j as int].data));
        }
        let data: ColumnData = match (&a.cols[j].data, &incoming.cols[j].data) {
            (ColumnData::Ints(u), ColumnData::Ints(v)) => {
                let mut w = u.clone();
                let mut v2 = v.clone();
                w.append(&mut v2);
                ColumnData::Ints(w)
            },
            (ColumnData::Texts(u), ColumnData::Texts(v)) => {
                let mut w = u.clone();
                let mut v2 = v.clone();
                w.append(&mut v2);
                proof {
                    assert(w@.map_values(|s: String| s@) =~= u@.map_values(|s: String| s@)
                        + v@.map_values(|s: String| s@));
                }
                ColumnData::Texts(w)
            },
            _ => {
                proof {
                    assert(false);
                }
                ColumnData::Ints(Vec::new())
            },
        };
        let col = Column { name: a.cols[j].name.clone(), data };
        proof {
            assert(col@ =~~= merged_cols(a@, incoming@)[j as int]);
        }
        cols.push(col);
        j += 1;
    }
    let t = Table { cols };
    proof {
        assert(t@ =~~= merged_cols(a@, incoming@));
        lemma_merge_append(a@, incoming@);
    }
    Ok(t)
}

/// Merging onto an absent current table is the identity: the incoming table
/// comes back unchanged.
pub proof fn lemma_merge_identity(b: Seq<ColModel>)
    ensures
        spec_merge_ok(None, b),
        spec_merge(None, b) == b,
{
}

/// Merging two schema-compatible tables concatenates them: the result keeps
/// the current table's schema, its row count is the two row counts' sum,
/// every row of the current table comes first unchanged, and every row of the
/// incoming table follows unchanged.
pub proof fn lemma_merge_append(a: Seq<ColModel>, b: Seq<ColModel>)
    requires
        table_wf(a),
        table_wf(b),
        schema_eq(a, b),
    ensures
        table_wf(merged_cols(a, b)),
        merged_cols(a, b).len() == a.len(),
        table_rows(merged_cols(a, b)) == table_rows(a) + table_rows(b),
        forall|j: int| 0 <= j < a.len() ==> (#[trigger] merged_cols(a, b)[j]).name == a[j].name,
        forall|j: int|
            0 <= j < a.len() ==> col_is_numeric((#[trigger] merged_cols(a, b)[j]).data)
                == col_is_numeric(a[j].data),
        forall|j: int, i: int|
            0 <= j < a.len() && 0 <= i < table_rows(a) ==> #[trigger] cell_model(
                merged_cols(a, b)[j].data,
                i,
            ) == cell_model(a[j].data, i),
        forall|j: int, i: int|
            0 <= j < a.len() && 0 <= i < table_rows(b) ==> #[trigger] cell_model(
                merged_cols(a, b)[j].data,
                table_rows(a) + i,
            ) == cell_model(b[j].data, i),
{
    let m = merged_cols(a, b);
    assert forall|j: int| 0 <= j < m.len() implies col_len(#[trigger] m[j].data) == table_rows(a)
        + table_rows(b) by {
        assert(col_len(a[j].data) == table_rows(a));
        assert(col_len(b[j].data) == table_rows(b));
    }
    assert(table_rows(m) == table_rows(a) + table_rows(b));
}

/// A schema mismatch always fails: merging onto a present table whose schema
/// differs from the incoming one's is never accepted.
pub proof fn lemma_merge_mismatch(a: Seq<ColModel>, b: Seq<ColModel>)
    requires
        !schema_eq(a, b),
    ensures
        !spec_merge_ok(Some(a), b),
{
}

} // verus!
