//! The aggregation engine: group a table's rows by the distinct values of a
//! key column, in first-seen order, and sum every other numeric column within
//! each group. Non-numeric, non-key columns are dropped. Sums wrap around the
//! 64-bit signed range.

use vstd::prelude::*;
use vstd::arithmetic::div_mod::{
    lemma_add_mod_noop, lemma_fundamental_div_mod, lemma_mod_add_multiples_vanish, lemma_mod_bound,
    lemma_mod_sub_multiples_vanish, lemma_mod_twice,
};
use vstd::wrapping::i64_specs;

use crate::table::{
    ColDataModel, ColModel, Column, ColumnData, Table, cell_model, col_is_numeric,
    col_len, cols_view, data_contains, table_rows, table_wf,
};
use crate::text::{str_eq, strs_view};

verus! {

/// Why an aggregation failed.
#[derive(Clone, Copy, Debug, PartialEq, Eq, Structural)]
pub enum AggError {
    /// The key column's name is not a column of the table.
    UnknownKeyColumn,
    /// The requested operator is recognized but permanently unsupported.
    Unsupported,
}

/// The operator applied to each group of rows.
#[derive(Clone, Copy, Debug, PartialEq, Eq, Structural)]
pub enum AggregateOperation {
    Sum,
    Mean,
}

/// The distinct values of `s`, each at the position of its first occurrence.
pub open spec fn dedup<A>(s: Seq<A>) -> Seq<A>
    decreases s.len(),
{
    if s.len() == 0 {
        Seq::<A>::empty()
    } else if s.drop_last().contains(s.last()) {
        dedup(s.drop_last())
    } else {
        dedup(s.drop_last()).push(s.last())
    }
}

/// The sum of `vs[i]` over every row `i` whose key `ks[i]` is `k`.
pub open spec fn sum_where<A>(ks: Seq<A>, vs: Seq<i64>, k: A) -> int
    recommends
        ks.len() == vs.len(),
    decreases ks.len(),
{
    if ks.len() == 0 || vs.len() == 0 {
        0
    } else {
        sum_where(ks.drop_last(), vs.drop_last(), k) + (if ks.last() == k {
            vs.last() as int
        } else {
            0
        })
    }
}

/// The key column after grouping: its distinct values in first-seen order.
pub open spec fn group_keys(d: ColDataModel) -> ColDataModel {
    match d {
        ColDataModel::Ints(ks) => ColDataModel::Ints(dedup(ks)),
        ColDataModel::Texts(ks) => ColDataModel::Texts(dedup(ks)),
    }
}

/// How many groups the key column yields.
pub open spec fn group_count(d: ColDataModel) -> nat {
    col_len(group_keys(d))
}

/// One group's wrapped sums for a value column, one per distinct key.
pub open spec fn summed_against<A>(ks: Seq<A>, vs: Seq<i64>) -> Seq<i64> {
    dedup(ks).map_values(|k: A| i64_specs::signed_crop(sum_where(ks, vs, k)))
}

/// The grouped sums of a value column against the key column `keyd`.
pub open spec fn summed_data(keyd: ColDataModel, vs: Seq<i64>) -> Seq<i64> {
    match keyd {
        ColDataModel::Ints(ks) => summed_against(ks, vs),
        ColDataModel::Texts(ks) => summed_against(ks, vs),
    }
}

/// The aggregated versions of the non-key numeric columns, in table order.
pub open spec fn agg_others(t: Seq<ColModel>, ki: int, keyd: ColDataModel) -> Seq<ColModel>
    decreases t.len(),
{
    if t.len() == 0 {
        Seq::<ColModel>::empty()
    } else {
        let init = agg_others(t.drop_last(), ki, keyd);
        let j = t.len() - 1;
        if j == ki {
            init
        } else {
            match t[j].data {
                ColDataModel::Ints(vs) => init.push(
                    ColModel { name: t[j].name, data: ColDataModel::Ints(summed_data(keyd, vs)) },
                ),
                ColDataModel::Texts(_) => init,
            }
        }
    }
}

/// The whole aggregated table: the grouped key column first, then every other
/// numeric column summed per group.
pub open spec fn spec_aggregate_cols(t: Seq<ColModel>, ki: int) -> Seq<ColModel> {
    seq![ColModel { name: t[ki].name, data: group_keys(t[ki].data) }] + agg_others(
        t,
        ki,
        t[ki].data,
    )
}

/// Whether some column of `t` is named `key`.
pub open spec fn has_col(t: Seq<ColModel>, key: Seq<char>) -> bool {
    exists|j: int| 0 <= j < t.len() && (#[trigger] t[j]).name == key
}

/// The position of the column named `key`.
pub open spec fn col_index(t: Seq<ColModel>, key: Seq<char>) -> int {
    choose|j: int| 0 <= j < t.len() && (#[trigger] t[j]).name == key
}

/// Wrapped addition continues a wrapped running sum: adding `v` to the wrap
/// of `s` wraps `s + v`.
pub proof fn lemma_crop_add(s: int, v: i64)
    ensures
        i64_specs::wrapping_add(i64_specs::signed_crop(s), v) == i64_specs::signed_crop(s + v),
{
    let m = 0x1_0000_0000_0000_0000 as int;
    let c = i64_specs::signed_crop(s) as int;
    let w = i64_specs::wrapping_add(i64_specs::signed_crop(s), v) as int;
    let z = i64_specs::signed_crop(s + v) as int;
    lemma_mod_bound(s, m);
    lemma_mod_bound(s + v, m);
    // c, w and z are all congruent to their sources modulo 2^64.
    lemma_mod_twice(s, m);
    lemma_mod_sub_multiples_vanish(s % m, m);
    assert(c % m == s % m);
    lemma_mod_twice(s + v, m);
    lemma_mod_sub_multiples_vanish((s + v) % m, m);
    assert(z % m == (s + v) % m);
    lemma_mod_sub_multiples_vanish(c + v, m);
    lemma_mod_add_multiples_vanish(c + v, m);
    assert(w % m == (c + v) % m);
    lemma_add_mod_noop(c, v as int, m);
    lemma_add_mod_noop(s, v as int, m);
    assert((c + v) % m == (s + v) % m);
    // Both are in the signed 64-bit window and congruent, hence equal.
    lemma_fundamental_div_mod(w, m);
    lemma_fundamental_div_mod(z, m);
    assert(w - z == m * (w / m) - m * (z / m));
    assert(w - z == m * (w / m - z / m)) by (nonlinear_arith)
        requires
            w - z == m * (w / m) - m * (z / m),
    ;
    assert(w == z) by (nonlinear_arith)
        requires
            w - z == m * (w / m - z / m),
            -m < w - z < m,
            m > 0,
    ;
}

/// A value occurs among the distinct keys exactly when it occurs among the
/// keys.
pub proof fn lemma_dedup_contains<A>(s: Seq<A>, x: A)
    ensures
        dedup(s).contains(x) == s.contains(x),
    decreases s.len(),
{
    if s.len() > 0 {
        let d = s.drop_last();
        lemma_dedup_contains(d, x);
        if s.contains(x) {
            let i = choose|i: int| 0 <= i < s.len() && s[i] == x;
            if i < s.len() - 1 {
                assert(d[i] == x);
                assert(d.contains(x));
                let q = choose|q: int| 0 <= q < dedup(d).len() && dedup(d)[q] == x;
                assert(dedup(s)[q] == x);
                assert(dedup(s).contains(x));
            } else {
                if d.contains(s.last()) {
                    assert(d.contains(x));
                    let q = choose|q: int| 0 <= q < dedup(d).len() && dedup(d)[q] == x;
                    assert(dedup(s)[q] == x);
                } else {
                    assert(dedup(s)[dedup(s).len() - 1] == x);
                }
                assert(dedup(s).contains(x));
            }
        }
        if dedup(s).contains(x) {
            let q = choose|q: int| 0 <= q < dedup(s).len() && dedup(s)[q] == x;
            if d.contains(s.last()) {
                assert(dedup(d)[q] == x);
                assert(dedup(d).contains(x));
                let i = choose|i: int| 0 <= i < d.len() && d[i] == x;
                assert(s[i] == x);
                assert(s.contains(x));
            } else {
                if q < dedup(s).len() - 1 {
                    assert(dedup(d)[q] == x);
                    assert(dedup(d).contains(x));
                    let i = choose|i: int| 0 <= i < d.len() && d[i] == x;
                    assert(s[i] == x);
                } else {
                    assert(s[s.len() - 1] == x);
                }
                assert(s.contains(x));
            }
        }
    }
}

/// The distinct keys are pairwise distinct.
pub proof fn lemma_dedup_distinct<A>(s: Seq<A>)
    ensures
        forall|i: int, j: int|
            0 <= i < j < dedup(s).len() ==> (#[trigger] dedup(s)[i]) != (#[trigger] dedup(s)[j]),
    decreases s.len(),
{
    if s.len() > 0 {
        lemma_dedup_distinct(s.drop_last());
        if s.drop_last().contains(s.last()) {
            assert(dedup(s) == dedup(s.drop_last()));
        } else {
            lemma_dedup_contains(s.drop_last(), s.last());
            assert(!dedup(s.drop_last()).contains(s.last()));
            assert forall|i: int, j: int| 0 <= i < j < dedup(s).len() implies (
            #[trigger] dedup(s)[i]) != (#[trigger] dedup(s)[j]) by {
                if j == dedup(s).len() - 1 {
                    assert(dedup(s)[j] == s.last());
                    assert(dedup(s)[i] == dedup(s.drop_last())[i]);
                    if dedup(s)[i] == s.last() {
                        assert(dedup(s.drop_last()).contains(s.last()));
                    }
                } else {
                    assert(dedup(s)[i] == dedup(s.drop_last())[i]);
                    assert(dedup(s)[j] == dedup(s.drop_last())[j]);
                }
            }
        }
    }
}

/// Whether `x` occurs in the first `n` keys.
fn contains_prefix_int(ks: &Vec<i64>, n: usize, x: i64) -> (b: bool)
    requires
        n <= ks@.len(),
    ensures
        b == ks@.take(n as int).contains(x),
{
    let mut idx: usize = 0;
    while idx < n
        invariant
            n <= ks@.len(),
            0 <= idx <= n,
            forall|q: int| 0 <= q < idx ==> ks@[q] != x,
        decreases n - idx,
    {
        if ks[idx] == x {
            proof {
                assert(ks@.take(n as int)[idx as int] == x);
            }
            return true;
        }
        idx += 1;
    }
    proof {
        assert forall|q: int| 0 <= q < n implies ks@.take(n as int)[q] != x by {
            assert(ks@.take(n as int)[q] == ks@[q]);
        }
    }
    false
}

/// Whether `x` occurs in the first `n` keys.
fn contains_prefix_text(ks: &Vec<String>, n: usize, x: &String) -> (b: bool)
    requires
        n <= ks@.len(),
    ensures
        b == strs_view(ks@).take(n as int).contains(x@),
{
    let mut idx: usize = 0;
    while idx < n
        invariant
            n <= ks@.len(),
            0 <= idx <= n,
            forall|q: int| 0 <= q < idx ==> strs_view(ks@)[q] != x@,
        decreases n - idx,
    {
        if str_eq(ks[idx].as_str(), x.as_str()) {
            proof {
                assert(strs_view(ks@).take(n as int)[idx as int] == x@);
            }
            return true;
        }
        idx += 1;
    }
    proof {
        assert forall|q: int| 0 <= q < n implies strs_view(ks@).take(n as int)[q] != x@ by {
            assert(strs_view(ks@).take(n as int)[q] == strs_view(ks@)[q]);
        }
    }
    false
}

/// The distinct values of an integer key column, in first-seen order.
fn dedup_ints(ks: &Vec<i64>) -> (r: Vec<i64>)
    ensures
        r@ == dedup(ks@),
{
    let mut r: Vec<i64> = Vec::new();
    let mut i: usize = 0;
    proof {
        assert(ks@.take(0) =~= Seq::<i64>::empty());
    }
    while i < ks.len()
        invariant
            0 <= i <= ks@.len(),
            r@ == dedup(ks@.take(i as int)),
        decreases ks@.len() - i,
    {
        proof {
            assert(ks@.take(i + 1).drop_last() =~= ks@.take(i as int));
            assert(ks@.take(i + 1).last() == ks@[i as int]);
        }
        if !contains_prefix_int(ks, i, ks[i]) {
            r.push(ks[i]);
        }
        i += 1;
    }
    proof {
        assert(ks@.take(ks@.len() as int) =~= ks@);
    }
    r
}

/// The distinct values of a text key column, in first-seen order.
fn dedup_texts(ks: &Vec<String>) -> (r: Vec<String>)
    ensures
        strs_view(r@) == dedup(strs_view(ks@)),
{
    let ghost gks: Seq<Seq<char>> = strs_view(ks@);
    let mut r: Vec<String> = Vec::new();
    let mut i: usize = 0;
    proof {
        assert(gks.take(0) =~= Seq::<Seq<char>>::empty());
    }
    while i < ks.len()
        invariant
            gks == strs_view(ks@),
            0 <= i <= ks@.len(),
            gks.len() == ks@.len(),
            strs_view(r@) == dedup(gks.take(i as int)),
        decreases ks@.len() - i,
    {
        proof {
            assert(gks.take(i + 1).drop_last() =~= gks.take(i as int));
            assert(gks.take(i + 1).last() == gks[i as int]);
            assert(gks[i as int] == ks@[i as int]@);
        }
        if !contains_prefix_text(ks, i, &ks[i]) {
            r.push(ks[i].clone());
            proof {
                assert(strs_view(r@) =~~= strs_view(r@.drop_last()).push(gks[i as int]));
            }
        }
        i += 1;
    }
    proof {
        assert(gks.take(ks@.len() as int) =~= gks);
    }
    r
}

/// The wrapped sum of the values whose integer key is `k`.
fn sum_group_ints(ks: &Vec<i64>, vs: &Vec<i64>, k: i64) -> (s: i64)
    requires
        ks@.len() == vs@.len(),
    ensures
        s == i64_specs::signed_crop(sum_where(ks@, vs@, k)),
{
    let mut acc: i64 = 0;
    let mut i: usize = 0;
    proof {
        assert(ks@.take(0) =~= Seq::<i64>::empty());
        assert(i64_specs::signed_crop(0) == 0);
    }
    while i < ks.len()
        invariant
            ks@.len() == vs@.len(),
            0 <= i <= ks@.len(),
            acc == i64_specs::signed_crop(sum_where(ks@.take(i as int), vs@.take(i as int), k)),
        decreases ks@.len() - i,
    {
        proof {
            assert(ks@.take(i + 1).drop_last() =~= ks@.take(i as int));
            assert(vs@.take(i + 1).drop_last() =~= vs@.take(i as int));
            assert(ks@.take(i + 1).last() == ks@[i as int]);
            assert(vs@.take(i + 1).last() == vs@[i as int]);
        }
        if ks[i] == k {
            proof {
                lemma_crop_add(sum_where(ks@.take(i as int), vs@.take(i as int), k), vs@[i as int]);
            }
            acc = acc.wrapping_add(vs[i]);
        }
        i += 1;
    }
    proof {
        assert(ks@.take(ks@.len() as int) =~= ks@);
        assert(vs@.take(vs@.len() as int) =~= vs@);
    }
    acc
}

/// The wrapped sum of the values whose text key is `k`.
fn sum_group_texts(ks: &Vec<String>, vs: &Vec<i64>, k: &String) -> (s: i64)
    requires
        ks@.len() == vs@.len(),
    ensures
        s == i64_specs::signed_crop(sum_where(strs_view(ks@), vs@, k@)),
{
    let ghost gks: Seq<Seq<char>> = strs_view(ks@);
    let mut acc: i64 = 0;
    let mut i: usize = 0;
    proof {
        assert(gks.take(0) =~= Seq::<Seq<char>>::empty());
        assert(i64_specs::signed_crop(0) == 0);
    }
    while i < ks.len()
        invariant
            gks == strs_view(ks@),
            gks.len() == ks@.len(),
            ks@.len() == vs@.len(),
            0 <= i <= ks@.len(),
            acc == i64_specs::signed_crop(sum_where(gks.take(i as int), vs@.take(i as int), k@)),
        decreases ks@.len() - i,
    {
        proof {
            assert(gks.take(i + 1).drop_last() =~= gks.take(i as int));
            assert(vs@.take(i + 1).drop_last() =~= vs@.take(i as int));
            assert(gks.take(i + 1).last() == gks[i as int]);
            assert(vs@.take(i + 1).last() == vs@[i as int]);
            assert(gks[i as int] == ks@[i as int]@);
        }
        if str_eq(ks[i].as_str(), k.as_str()) {
            proof {
                lemma_crop_add(sum_where(gks.take(i as int), vs@.take(i as int), k@), vs@[i as int]);
            }
            acc = acc.wrapping_add(vs[i]);
        }
        i += 1;
    }
    proof {
        assert(gks.take(ks@.len() as int) =~= gks);
        assert(vs@.take(vs@.len() as int) =~= vs@);
    }
    acc
}

/// One summed value column against an integer key column.
fn summed_col_ints(ks: &Vec<i64>, vs: &Vec<i64>) -> (r: Vec<i64>)
    requires
        ks@.len() == vs@.len(),
    ensures
        r@ == summed_against(ks@, vs@),
{
    let dk = dedup_ints(ks);
    let mut r: Vec<i64> = Vec::new();
    let mut p: usize = 0;
    while p < dk.len()
        invariant
            ks@.len() == vs@.len(),
            dk@ == dedup(ks@),
            0 <= p <= dk@.len(),
            r@.len() == p,
            forall|q: int|
                0 <= q < p ==> (#[trigger] r@[q]) == i64_specs::signed_crop(
                    sum_where(ks@, vs@, dk@[q]),
                ),
        decreases dk@.len() - p,
    {
        let s = sum_group_ints(ks, vs, dk[p]);
        r.push(s);
        p += 1;
    }
    proof {
        assert(r@ =~= summed_against(ks@, vs@));
    }
    r
}

/// One summed value column against a text key column.
fn summed_col_texts(ks: &Vec<String>, vs: &Vec<i64>) -> (r: Vec<i64>)
    requires
        ks@.len() == vs@.len(),
    ensures
        r@ == summed_against(strs_view(ks@), vs@),
{
    let ghost gks: Seq<Seq<char>> = strs_view(ks@);
    let dk = dedup_texts(ks);
    let mut r: Vec<i64> = Vec::new();
    let mut p: usize = 0;
    while p < dk.len()
        invariant
            gks == strs_view(ks@),
            ks@.len() == vs@.len(),
            strs_view(dk@) == dedup(gks),
            dk@.len() == dedup(gks).len(),
            0 <= p <= dk@.len(),
            r@.len() == p,
            forall|q: int|
                0 <= q < p ==> (#[trigger] r@[q]) == i64_specs::signed_crop(
                    sum_where(gks, vs@, dedup(gks)[q]),
                ),
        decreases dk@.len() - p,
    {
        proof {
            assert(dk@[p as int]@ == dedup(gks)[p as int]);
        }
        let s = sum_group_texts(ks, vs, &dk[p]);
        r.push(s);
        p += 1;
    }
    proof {
        assert(r@ =~= summed_against(gks, vs@));
    }
    r
}

/// The position of the column named `key`, if any.
fn find_column(table: &Table, key: &str) -> (r: Option<usize>)
    requires
        table.wf(),
    ensures
        (match r {
            Some(ki) => has_col(table@, key@) && 0 <= ki < table@.len() && table@[ki as int].name
                == key@ && ki as int == col_index(table@, key@),
            None => !has_col(table@, key@),
        }),
{
    let mut j: usize = 0;
    while j < table.cols.len()
        invariant
            table.wf(),
            0 <= j <= table@.len(),
            forall|q: int| 0 <= q < j ==> (#[trigger] table@[q]).name != key@,
        decreases table@.len() - j,
    {
        proof {
            assert(table@[j as int] == table.cols@[j as int]@);
        }
        if str_eq(table.cols[j].name.as_str(), key) {
            proof {
                let ci = col_index(table@, key@);
                assert(has_col(table@, key@));
                assert(0 <= ci < table@.len() && table@[ci].name == key@);
                if ci != j as int {
                    assert(table@[ci].name == table@[j as int].name);
                    assert(false);
                }
            }
            return Some(j);
        }
        j += 1;
    }
    None
}

/// Group-by-sum keyed on the column named `key`: the output holds the key
/// column's distinct values once each, in first-seen order, and the wrapped
/// per-group sum of every other numeric column; other columns are dropped.
/// Fails exactly when the table has no column named `key`.
#[verifier::loop_isolation(false)]
pub fn aggregate_sum(table: &Table, key: &str) -> (r: Result<Table, AggError>)
    requires
        table.wf(),
    ensures
        (match r {
            Ok(out) => has_col(table@, key@) && out@ == spec_aggregate_cols(
                table@,
                col_index(table@, key@),
            ) && out.wf(),
            Err(e) => !has_col(table@, key@) && e == AggError::UnknownKeyColumn,
        }),
{
    let ki = match find_column(table, key) {
        Some(ki) => ki,
        None => {
            return Err(AggError::UnknownKeyColumn);
        },
    };
    let ghost t: Seq<ColModel> = table@;
    let ghost keyd: ColDataModel = t[ki as int].data;
    proof {
        assert(t[ki as int] == table.cols@[ki as int]@);
    }
    let key_data: ColumnData = match &table.cols[ki].data {
        ColumnData::Ints(ks) => ColumnData::Ints(dedup_ints(ks)),
        ColumnData::Texts(ks) => ColumnData::Texts(dedup_texts(ks)),
    };
    let key_col = Column { name: table.cols[ki].name.clone(), data: key_data };
    proof {
        assert(key_col@ =~~= (ColModel { name: t[ki as int].name, data: group_keys(keyd) }));
    }
    let ghost keymodel: ColModel = ColModel { name: t[ki as int].name, data: group_keys(keyd) };
    let mut cols: Vec<Column> = Vec::new();
    cols.push(key_col);
    proof {
        assert(cols_view(cols@) =~~= seq![keymodel] + agg_others(t.take(0), ki as int, keyd));
    }
    let mut j: usize = 0;
    while j < table.cols.len()
        invariant
            0 <= j <= t.len(),
            cols_view(cols@) == seq![keymodel] + agg_others(t.take(j as int), ki as int, keyd),
        decreases t.len() - j,
    {
        proof {
            assert(t.take(j + 1).drop_last() =~= t.take(j as int));
            assert(t.take(j + 1).last() == t[j as int]);
            assert(t[j as int] == table.cols@[j as int]@);
            assert(col_len(t[j as int].data) == col_len(keyd));
        }
        if j != ki {
            match &table.cols[j].data {
                ColumnData::Ints(vs) => {
                    let summed: Vec<i64> = match &table.cols[ki].data {
                        ColumnData::Ints(ks) => summed_col_ints(ks, vs),
                        ColumnData::Texts(ks) => summed_col_texts(ks, vs),
                    };
                    proof {
                        assert(summed@ == summed_data(keyd, vs@));
                    }
                    let col = Column {
                        name: table.cols[j].name.clone(),
                        data: ColumnData::Ints(summed),
                    };
                    let ghost pushed: ColModel = ColModel {
                        name: t[j as int].name,
                        data: ColDataModel::Ints(summed_data(keyd, t[j as int].data->Ints_0)),
                    };
                    let ghost before: Seq<Column> = cols@;
                    proof {
                        assert(col@ =~~= pushed);
                    }
                    cols.push(col);
                    proof {
                        assert(cols@ == before.push(col));
                        assert(cols_view(cols@) =~~= cols_view(before).push(pushed));
                        assert(agg_others(t.take(j + 1), ki as int, keyd) == agg_others(
                            t.take(j as int),
                            ki as int,
                            keyd,
                        ).push(pushed));
                        assert(cols_view(cols@) =~~= seq![keymodel] + agg_others(
                            t.take(j + 1),
                            ki as int,
                            keyd,
                        ));
                    }
                },
                ColumnData::Texts(_) => {
                    proof {
                        assert(agg_others(t.take(j + 1), ki as int, keyd) == agg_others(
                            t.take(j as int),
                            ki as int,
                            keyd,
                        ));
                        assert(cols_view(cols@) =~~= seq![keymodel] + agg_others(
                            t.take(j + 1),
                            ki as int,
                            keyd,
                        ));
                    }
                },
            };
        } else {
            proof {
                assert(agg_others(t.take(j + 1), ki as int, keyd) == agg_others(
                    t.take(j as int),
                    ki as int,
                    keyd,
                ));
                assert(cols_view(cols@) =~~= seq![keymodel] + agg_others(
                    t.take(j + 1),
                    ki as int,
                    keyd,
                ));
            }
        }
        j += 1;
    }
    let out = Table { cols };
    proof {
        assert(t.take(t.len() as int) =~= t);
        assert(out@ =~~= spec_aggregate_cols(t, ki as int));
        lemma_aggregate_wf(t, ki as int);
    }
    Ok(out)
}

/// Every aggregated column is numeric, one group long, and named after a
/// distinct numeric non-key source column.
proof fn lemma_agg_others_props(t: Seq<ColModel>, ki: int, keyd: ColDataModel)
    requires
        forall|j1: int, j2: int|
            0 <= j1 < j2 < t.len() ==> (#[trigger] t[j1].name) != (#[trigger] t[j2].name),
    ensures
        forall|p: int|
            0 <= p < agg_others(t, ki, keyd).len() ==> col_len(
                (#[trigger] agg_others(t, ki, keyd)[p]).data,
            ) == group_count(keyd),
        forall|p: int|
            0 <= p < agg_others(t, ki, keyd).len() ==> exists|j: int|
                0 <= j < t.len() && j != ki && col_is_numeric(t[j].data) && (#[trigger] agg_others(
                    t,
                    ki,
                    keyd,
                )[p]).name == t[j].name && agg_others(t, ki, keyd)[p].data == ColDataModel::Ints(
                    summed_data(keyd, t[j].data->Ints_0),
                ),
        forall|j: int|
            0 <= j < t.len() && j != ki && col_is_numeric(#[trigger] t[j].data) ==> exists|p: int|
                0 <= p < agg_others(t, ki, keyd).len() && (#[trigger] agg_others(
                    t,
                    ki,
                    keyd,
                )[p]).name == t[j].name && agg_others(t, ki, keyd)[p].data == ColDataModel::Ints(
                    summed_data(keyd, t[j].data->Ints_0),
                ),
        forall|p1: int, p2: int|
            0 <= p1 < p2 < agg_others(t, ki, keyd).len() ==> (#[trigger] agg_others(
                t,
                ki,
                keyd,
            )[p1]).name != (#[trigger] agg_others(t, ki, keyd)[p2]).name,
    decreases t.len(),
{
    if t.len() > 0 {
        let prev = t.drop_last();
        lemma_agg_others_props(prev, ki, keyd);
        let o = agg_others(t, ki, keyd);
        let oi = agg_others(prev, ki, keyd);
        assert(forall|j: int| 0 <= j < prev.len() ==> prev[j] == t[j]);
        assert forall|p: int| 0 <= p < o.len() implies col_len((#[trigger] o[p]).data)
            == group_count(keyd) by {
            if p < oi.len() {
                assert(o[p] == oi[p]);
            } else {
                let ks = keyd;
                match keyd {
                    ColDataModel::Ints(k) => {
                        assert(summed_against(k, t[t.len() - 1].data->Ints_0).len() == dedup(
                            k,
                        ).len());
                    },
                    ColDataModel::Texts(k) => {
                        assert(summed_against(k, t[t.len() - 1].data->Ints_0).len() == dedup(
                            k,
                        ).len());
                    },
                }
            }
        }
        assert forall|p: int| 0 <= p < o.len() implies exists|j: int|
            0 <= j < t.len() && j != ki && col_is_numeric(t[j].data) && (#[trigger] o[p]).name
                == t[j].name && o[p].data == ColDataModel::Ints(
                summed_data(keyd, t[j].data->Ints_0),
            ) by {
            if p < oi.len() {
                assert(o[p] == oi[p]);
                let j = choose|j: int|
                    0 <= j < prev.len() && j != ki && col_is_numeric(prev[j].data) && oi[p].name
                        == prev[j].name && oi[p].data == ColDataModel::Ints(
                        summed_data(keyd, prev[j].data->Ints_0),
                    );
                assert(0 <= j < t.len() && j != ki && col_is_numeric(t[j].data) && o[p].name
                    == t[j].name && o[p].data == ColDataModel::Ints(
                    summed_data(keyd, t[j].data->Ints_0),
                ));
            } else {
                let j = t.len() - 1;
                assert(0 <= j < t.len() && j != ki && col_is_numeric(t[j].data) && o[p].name
                    == t[j].name && o[p].data == ColDataModel::Ints(
                    summed_data(keyd, t[j].data->Ints_0),
                ));
            }
        }
        assert forall|j: int|
            0 <= j < t.len() && j != ki && col_is_numeric(#[trigger] t[j].data) implies exists|
        p: int|
            0 <= p < o.len() && (#[trigger] o[p]).name == t[j].name && o[p].data
                == ColDataModel::Ints(summed_data(keyd, t[j].data->Ints_0)) by {
            if j < t.len() - 1 {
                assert(prev[j] == t[j]);
                let p = choose|p: int|
                    0 <= p < oi.len() && oi[p].name == prev[j].name && oi[p].data
                        == ColDataModel::Ints(summed_data(keyd, prev[j].data->Ints_0));
                assert(o[p] == oi[p]);
                assert(0 <= p < o.len() && o[p].name == t[j].name && o[p].data
                    == ColDataModel::Ints(summed_data(keyd, t[j].data->Ints_0)));
            } else {
                let p = o.len() - 1;
                assert(0 <= p < o.len() && o[p].name == t[j].name && o[p].data
                    == ColDataModel::Ints(summed_data(keyd, t[j].data->Ints_0)));
            }
        }
        assert forall|p1: int, p2: int| 0 <= p1 < p2 < o.len() implies (#[trigger] o[p1]).name != (
        #[trigger] o[p2]).name by {
            if p2 < oi.len() {
                assert(o[p1] == oi[p1] && o[p2] == oi[p2]);
            } else if p2 == oi.len() && o.len() > oi.len() {
                assert(o[p1] == oi[p1]);
                let j = choose|j: int|
                    0 <= j < prev.len() && j != ki && col_is_numeric(prev[j].data) && oi[p1].name
                        == prev[j].name;
                assert(o[p2].name == t[t.len() - 1].name);
                assert(t[j].name != t[t.len() - 1].name);
            }
        }
    }
}

/// The aggregated table is well formed: one key column and the summed
/// columns, all of one length, under pairwise distinct names.
pub proof fn lemma_aggregate_wf(t: Seq<ColModel>, ki: int)
    requires
        table_wf(t),
        0 <= ki < t.len(),
    ensures
        table_wf(spec_aggregate_cols(t, ki)),
        crate::table::table_rows(spec_aggregate_cols(t, ki)) == group_count(t[ki].data),
{
    let keyd = t[ki].data;
    let o = spec_aggregate_cols(t, ki);
    lemma_agg_others_props(t, ki, keyd);
    match keyd {
        ColDataModel::Ints(_) => {
        },
        ColDataModel::Texts(_) => {
        },
    }
    assert(col_len(o[0].data) == group_count(keyd));
    assert forall|j: int| 0 <= j < o.len() implies col_len(#[trigger] o[j].data) == group_count(
        keyd,
    ) by {
        if j > 0 {
            assert(o[j] == agg_others(t, ki, keyd)[j - 1]);
        }
    }
    assert forall|j1: int, j2: int| 0 <= j1 < j2 < o.len() implies (#[trigger] o[j1].name) != (
    #[trigger] o[j2].name) by {
        if j1 == 0 {
            let p = j2 - 1;
            let j = choose|j: int|
                0 <= j < t.len() && j != ki && col_is_numeric(t[j].data) && agg_others(
                    t,
                    ki,
                    keyd,
                )[p].name == t[j].name;
            assert(o[j2].name == t[j].name);
            assert(t[j].name != t[ki].name);
        } else {
            assert(o[j1] == agg_others(t, ki, keyd)[j1 - 1]);
            assert(o[j2] == agg_others(t, ki, keyd)[j2 - 1]);
        }
    }
}

/// The aggregated key column holds each distinct input key exactly once, in
/// first-seen order, and nothing else.
pub proof fn lemma_aggregate_keys(t: Seq<ColModel>, ki: int)
    requires
        table_wf(t),
        0 <= ki < t.len(),
    ensures
        spec_aggregate_cols(t, ki)[0].name == t[ki].name,
        forall|g1: int, g2: int|
            0 <= g1 < g2 < group_count(t[ki].data) ==> #[trigger] cell_model(
                spec_aggregate_cols(t, ki)[0].data,
                g1,
            ) != #[trigger] cell_model(spec_aggregate_cols(t, ki)[0].data, g2),
        forall|i: int|
            0 <= i < table_rows(t) ==> data_contains(
                spec_aggregate_cols(t, ki)[0].data,
                #[trigger] cell_model(t[ki].data, i),
            ),
        forall|g: int|
            0 <= g < group_count(t[ki].data) ==> data_contains(
                t[ki].data,
                #[trigger] cell_model(spec_aggregate_cols(t, ki)[0].data, g),
            ),
{
    let keyd = t[ki].data;
    let o = spec_aggregate_cols(t, ki);
    assert(col_len(keyd) == table_rows(t));
    assert(o[0].data == group_keys(keyd));
    match keyd {
        ColDataModel::Ints(ks) => {
            lemma_dedup_distinct(ks);
            assert forall|i: int| 0 <= i < table_rows(t) implies data_contains(
                o[0].data,
                #[trigger] cell_model(keyd, i),
            ) by {
                assert(ks.contains(ks[i]));
                lemma_dedup_contains(ks, ks[i]);
                let g = choose|g: int| 0 <= g < dedup(ks).len() && dedup(ks)[g] == ks[i];
                assert(cell_model(o[0].data, g) == cell_model(keyd, i));
            }
            assert forall|g: int| 0 <= g < group_count(keyd) implies data_contains(
                keyd,
                #[trigger] cell_model(o[0].data, g),
            ) by {
                assert(dedup(ks).contains(dedup(ks)[g]));
                lemma_dedup_contains(ks, dedup(ks)[g]);
                let i = choose|i: int| 0 <= i < ks.len() && ks[i] == dedup(ks)[g];
                assert(cell_model(keyd, i) == cell_model(o[0].data, g));
            }
        },
        ColDataModel::Texts(ks) => {
            lemma_dedup_distinct(ks);
            assert forall|i: int| 0 <= i < table_rows(t) implies data_contains(
                o[0].data,
                #[trigger] cell_model(keyd, i),
            ) by {
                assert(ks.contains(ks[i]));
                lemma_dedup_contains(ks, ks[i]);
                let g = choose|g: int| 0 <= g < dedup(ks).len() && dedup(ks)[g] == ks[i];
                assert(cell_model(o[0].data, g) == cell_model(keyd, i));
            }
            assert forall|g: int| 0 <= g < group_count(keyd) implies data_contains(
                keyd,
                #[trigger] cell_model(o[0].data, g),
            ) by {
                assert(dedup(ks).contains(dedup(ks)[g]));
                lemma_dedup_contains(ks, dedup(ks)[g]);
                let i = choose|i: int| 0 <= i < ks.len() && ks[i] == dedup(ks)[g];
                assert(cell_model(keyd, i) == cell_model(o[0].data, g));
            }
        },
    }
}

/// Every non-key numeric column survives aggregation under its own name,
/// holding the wrapped per-group sums; every non-numeric, non-key column is
/// absent from the output.
#[verifier::rlimit(100)]
#[verifier::spinoff_prover]
pub proof fn lemma_aggregate_columns(t: Seq<ColModel>, ki: int)
    requires
        table_wf(t),
        0 <= ki < t.len(),
    ensures
        table_wf(spec_aggregate_cols(t, ki)),
        table_rows(spec_aggregate_cols(t, ki)) == group_count(t[ki].data),
        forall|j: int|
            0 <= j < t.len() && j != ki && col_is_numeric(#[trigger] t[j].data) ==> exists|p: int|
                1 <= p < spec_aggregate_cols(t, ki).len() && (#[trigger] spec_aggregate_cols(
                    t,
                    ki,
                )[p]).name == t[j].name && spec_aggregate_cols(t, ki)[p].data
                    == ColDataModel::Ints(summed_data(t[ki].data, t[j].data->Ints_0)),
        forall|j: int|
            0 <= j < t.len() && j != ki && !col_is_numeric(#[trigger] t[j].data) ==> !has_col(
                spec_aggregate_cols(t, ki),
                t[j].name,
            ),
{
    lemma_aggregate_wf(t, ki);
    let keyd = t[ki].data;
    lemma_agg_others_props(t, ki, keyd);
    let o = spec_aggregate_cols(t, ki);
    let others = agg_others(t, ki, keyd);
    assert forall|j: int|
        0 <= j < t.len() && j != ki && col_is_numeric(#[trigger] t[j].data) implies exists|p: int|
        1 <= p < o.len() && (#[trigger] o[p]).name == t[j].name && o[p].data == ColDataModel::Ints(
            summed_data(keyd, t[j].data->Ints_0),
        ) by {
        let p0 = choose|p0: int|
            0 <= p0 < others.len() && others[p0].name == t[j].name && others[p0].data
                == ColDataModel::Ints(summed_data(keyd, t[j].data->Ints_0));
        assert(o[p0 + 1] == others[p0]);
        assert(1 <= p0 + 1 < o.len() && o[p0 + 1].name == t[j].name && o[p0 + 1].data
            == ColDataModel::Ints(summed_data(keyd, t[j].data->Ints_0)));
    }
    assert forall|j: int|
        0 <= j < t.len() && j != ki && !col_is_numeric(#[trigger] t[j].data) implies !has_col(
        o,
        t[j].name,
    ) by {
        if has_col(o, t[j].name) {
            let p = choose|p: int| 0 <= p < o.len() && o[p].name == t[j].name;
            if p == 0 {
                assert(t[ki].name == t[j].name);
                assert(false);
            } else {
                assert(o[p] == others[p - 1]);
                let j2 = choose|j2: int|
                    0 <= j2 < t.len() && j2 != ki && col_is_numeric(t[j2].data) && others[p
                        - 1].name == t[j2].name && others[p - 1].data == ColDataModel::Ints(
                        summed_data(keyd, t[j2].data->Ints_0),
                    );
                assert(t[j2].name == t[j].name);
                assert(j2 == j);
                assert(false);
            }
        }
    }
}

/// Group-by-mean: a recognized operation that permanently fails as
/// unsupported.
pub fn aggregate_mean(_table: &Table, _key: &str) -> (r: Result<Table, AggError>)
    ensures
        (r matches Err(e) && e == AggError::Unsupported),
{
    Err(AggError::Unsupported)
}

/// Aggregate under a closed set of operators: only summing is functional;
/// the mean operator fails as unsupported.
pub fn aggregate(table: &Table, key: &str, op: AggregateOperation) -> (r: Result<Table, AggError>)
    requires
        table.wf(),
    ensures
        op is Sum ==> (match r {
            Ok(out) => has_col(table@, key@) && out@ == spec_aggregate_cols(
                table@,
                col_index(table@, key@),
            ) && out.wf(),
            Err(e) => !has_col(table@, key@) && e == AggError::UnknownKeyColumn,
        }),
        op is Mean ==> (r matches Err(e) && e == AggError::Unsupported),
{
    match op {
        AggregateOperation::Sum => aggregate_sum(table, key),
        AggregateOperation::Mean => aggregate_mean(table, key),
    }
}

} // verus!
