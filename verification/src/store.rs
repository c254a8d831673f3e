//! The shared state store: the single current table, replaced atomically by
//! each accepted submission and left untouched by a failed one. The caller
//! serializes submissions; each `apply_*` call is one whole critical section.

use vstd::prelude::*;

use crate::aggregate::{
    AggError, aggregate_sum, col_index, has_col, spec_aggregate_cols,
};
use crate::codec::{encode, spec_encode};
use crate::merge::{
    MergeError, lemma_merge_append, merge, opt_table_view, schema_entries_view, spec_merge,
    spec_merge_ok,
};
use crate::table::{ColModel, Table, schema_eq, schema_model, table_rows, table_wf};

verus! {

/// Why a submission was rejected.
#[derive(Debug)]
pub enum ApplyError {
    Merge(MergeError),
    Agg(AggError),
}

/// The shared state: the current table, absent until the first accepted
/// submission, and the output location fixed at startup.
pub struct Store {
    pub table: Option<Table>,
    pub output_path: Option<String>,
}

impl Store {
    /// Invariant: a present current table is well formed.
    pub open spec fn wf(&self) -> bool {
        match self.table {
            Some(t) => t.wf(),
            None => true,
        }
    }

    /// The model of the current table.
    pub open spec fn model(&self) -> Option<Seq<ColModel>> {
        match self.table {
            Some(t) => Some(t@),
            None => None,
        }
    }

    /// A store with no current table and no output location.
    pub fn new() -> (s: Store)
        ensures
            s.wf(),
            s.model() is None,
            s.output_path is None,
    {
        Store { table: None, output_path: None }
    }

    /// A store seeded at startup with a table and an output location.
    pub fn seeded(t: Table, path: Option<String>) -> (s: Store)
        requires
            t.wf(),
        ensures
            s.wf(),
            s.model() == Some(t@),
            s.output_path == path,
    {
        Store { table: Some(t), output_path: path }
    }

    /// Commit one collate submission: merge the incoming table onto the
    /// current one and render the new state. On a schema mismatch the store
    /// is left exactly as it was and both schemas are reported.
    pub fn apply_collate(&mut self, incoming: Table) -> (r: Result<String, ApplyError>)
        requires
            old(self).wf(),
            incoming.wf(),
        ensures
            final(self).wf(),
            final(self).output_path == old(self).output_path,
            spec_merge_ok(old(self).model(), incoming@) ==> (r matches Ok(text)
                && final(self).model() == Some(spec_merge(old(self).model(), incoming@)) && text@
                == spec_encode(spec_merge(old(self).model(), incoming@), true)),
            !spec_merge_ok(old(self).model(), incoming@) ==> (r matches Err(e) && e matches
                ApplyError::Merge(me) && me matches MergeError::SchemaMismatch {
                    current: cs,
                    incoming: ins,
                } && old(self).table matches Some(cur) && *final(self) == *old(self)
                && schema_entries_view(cs@) == schema_model(cur@) && schema_entries_view(ins@)
                == schema_model(incoming@)),
    {
        let cur = self.table.as_ref();
        proof {
            assert(opt_table_view(cur) == old(self).model());
        }
        match merge(cur, incoming) {
            Ok(t) => {
                let text = encode(&t, true);
                self.table = Some(t);
                Ok(text)
            },
            Err(e) => Err(ApplyError::Merge(e)),
        }
    }

    /// Commit one aggregate submission. The first accepted submission is
    /// committed by assignment, unreduced, exactly as a collate is. Every
    /// later one is merged onto the current table, grouped by the incoming
    /// table's first column and summed, and that reduced table is committed
    /// and rendered. On a schema mismatch the store is left exactly as it
    /// was.
    pub fn apply_aggregate(&mut self, incoming: Table) -> (r: Result<String, ApplyError>)
        requires
            old(self).wf(),
            incoming.wf(),
        ensures
            final(self).wf(),
            final(self).output_path == old(self).output_path,
            old(self).model() is None ==> (r matches Ok(text) && final(self).model() == Some(
                incoming@,
            ) && text@ == spec_encode(incoming@, true)),
            (old(self).model() matches Some(cur) && schema_eq(cur, incoming@)) ==> (r matches Ok(
                text,
            ) && final(self).model() == Some(
                spec_aggregate_cols(spec_merge(old(self).model(), incoming@), 0),
            ) && text@ == spec_encode(
                spec_aggregate_cols(spec_merge(old(self).model(), incoming@), 0),
                true,
            )),
            !spec_merge_ok(old(self).model(), incoming@) ==> (r matches Err(e) && e matches
                ApplyError::Merge(me) && me matches MergeError::SchemaMismatch {
                    current: cs,
                    incoming: ins,
                } && old(self).table matches Some(cur) && *final(self) == *old(self)
                && schema_entries_view(cs@) == schema_model(cur@) && schema_entries_view(ins@)
                == schema_model(incoming@)),
    {
        let ghost inc: Seq<ColModel> = incoming@;
        let key = incoming.cols[0].name.clone();
        proof {
            assert(inc[0] == incoming.cols@[0]@);
            assert(key@ == inc[0].name);
        }
        if self.table.is_none() {
            let text = encode(&incoming, true);
            self.table = Some(incoming);
            return Ok(text);
        }
        let cur = self.table.as_ref();
        proof {
            assert(opt_table_view(cur) == old(self).model());
        }
        match merge(cur, incoming) {
            Ok(m) => {
                proof {
                    let gm = m@;
                    assert(gm[0].name == key@) by {
                        match old(self).model() {
                            Some(a) => {
                                assert(schema_eq(a, inc));
                            },
                            None => {},
                        }
                    }
                    assert(has_col(gm, key@));
                    let ci = col_index(gm, key@);
                    assert(0 <= ci < gm.len() && gm[ci].name == key@);
                    if ci != 0 {
                        assert(gm[0].name == gm[ci].name);
                        assert(false);
                    }
                }
                match aggregate_sum(&m, key.as_str()) {
                    Ok(a) => {
                        let text = encode(&a, true);
                        self.table = Some(a);
                        Ok(text)
                    },
                    Err(e) => {
                        proof {
                            assert(false);
                        }
                        Err(ApplyError::Agg(e))
                    },
                }
            },
            Err(e) => Err(ApplyError::Merge(e)),
        }
    }
}

/// Submitting one payload twice by collate, starting from no state, doubles
/// the row count and keeps the schema: both submissions are accepted, and the
/// final table is the payload stacked on itself.
pub proof fn lemma_collate_twice(b: Seq<ColModel>)
    requires
        table_wf(b),
    ensures
        spec_merge_ok(None, b),
        spec_merge_ok(Some(spec_merge(None, b)), b),
        table_wf(spec_merge(Some(spec_merge(None, b)), b)),
        table_rows(spec_merge(Some(spec_merge(None, b)), b)) == 2 * table_rows(b),
        schema_model(spec_merge(Some(spec_merge(None, b)), b)) == schema_model(b),
{
    lemma_merge_append(b, b);
    let m = spec_merge(Some(spec_merge(None, b)), b);
    assert(schema_model(m) =~~= schema_model(b));
}

/// The table reached by a run of collate submissions, each merged onto the
/// last, starting from no state.
pub open spec fn collate_all(subs: Seq<Seq<ColModel>>) -> Option<Seq<ColModel>>
    decreases subs.len(),
{
    if subs.len() == 0 {
        None
    } else {
        Some(spec_merge(collate_all(subs.drop_last()), subs.last()))
    }
}

/// No lost updates: when any number of well-formed single-row submissions of
/// one common schema are committed one at a time — and the store's exclusive
/// access admits exactly one commit at a time, in some order — every
/// submission is accepted and the final table holds exactly one row per
/// submission, whatever the order was.
pub proof fn lemma_collate_sequence(subs: Seq<Seq<ColModel>>, s0: Seq<ColModel>)
    requires
        subs.len() >= 1,
        forall|i: int| 0 <= i < subs.len() ==> table_wf(#[trigger] subs[i]),
        forall|i: int| 0 <= i < subs.len() ==> schema_eq(s0, #[trigger] subs[i]),
        forall|i: int| 0 <= i < subs.len() ==> table_rows(#[trigger] subs[i]) == 1,
    ensures
        collate_all(subs) matches Some(m) && table_wf(m) && table_rows(m) == subs.len()
            && schema_eq(s0, m),
        forall|i: int|
            0 <= i < subs.len() ==> spec_merge_ok(
                collate_all(subs.take(i)),
                #[trigger] subs[i],
            ),
    decreases subs.len(),
{
    if subs.len() == 1 {
        assert(collate_all(subs.drop_last()) is None);
        assert(collate_all(subs) == Some(subs[0]));
        assert(subs.take(0) =~= Seq::<Seq<ColModel>>::empty());
    } else {
        let prev = subs.drop_last();
        lemma_collate_sequence(prev, s0);
        let m0 = collate_all(prev)->Some_0;
        let b = subs.last();
        assert(schema_eq(s0, b));
        assert(schema_eq(m0, b)) by {
            assert(forall|j: int|
                0 <= j < m0.len() ==> (#[trigger] m0[j]).name == s0[j].name && (
                crate::table::col_is_numeric(m0[j].data) <==> crate::table::col_is_numeric(
                    s0[j].data,
                )));
        }
        lemma_merge_append(m0, b);
        let m = spec_merge(Some(m0), b);
        assert(collate_all(subs) == Some(m));
        assert(table_rows(m) == subs.len());
        assert(schema_eq(s0, m));
        assert forall|i: int| 0 <= i < subs.len() implies spec_merge_ok(
            collate_all(subs.take(i)),
            #[trigger] subs[i],
        ) by {
            if i < subs.len() - 1 {
                assert(subs.take(i) =~= prev.take(i));
                assert(prev[i] == subs[i]);
            } else {
                assert(subs.take(i) =~= prev);
            }
        }
    }
}

} // verus!
