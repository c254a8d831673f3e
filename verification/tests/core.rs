use tabular_state::aggregate::{AggError, AggregateOperation, aggregate, aggregate_sum};
use tabular_state::codec::{DecodeError, decode, encode};
use tabular_state::merge::{MergeError, merge};
use tabular_state::store::{ApplyError, Store};

fn table(text: &str) -> tabular_state::table::Table {
    decode(text).expect("payload should decode")
}

#[test]
fn decode_then_encode_round() {
    let t = table("a,b\n1,2\n");
    assert_eq!(t.rows(), 1);
    assert_eq!(t.columns(), 2);
    assert_eq!(encode(&t, true), "a,b\n1,2\n");
    assert_eq!(encode(&t, false), "1,2\n");
}

#[test]
fn decode_header_only() {
    let t = table("a,b\n");
    assert_eq!(t.rows(), 0);
    assert_eq!(t.columns(), 2);
    assert_eq!(encode(&t, true), "a,b\n");
    assert_eq!(encode(&t, false), "");
}

#[test]
fn decode_errors() {
    assert_eq!(decode("").unwrap_err(), DecodeError::MissingHeader);
    assert_eq!(decode("\n\n").unwrap_err(), DecodeError::MissingHeader);
    assert_eq!(decode("a,a\n1,2\n").unwrap_err(), DecodeError::DuplicateColumn);
    assert_eq!(decode("a,b\n1\n").unwrap_err(), DecodeError::RowWidth);
    assert_eq!(decode("a,b\n1,2,3\n").unwrap_err(), DecodeError::RowWidth);
}

#[test]
fn decode_infers_text_for_mixed_column() {
    // A non-numeric cell turns the whole column into text, kept verbatim.
    let t = table("k,v\nx,1\ny,hello\n");
    assert_eq!(encode(&t, true), "k,v\nx,1\ny,hello\n");
}

#[test]
fn decode_normalizes_integer_cells() {
    // Leading zeros parse as integers and render canonically.
    let t = table("a\n007\n-05\n");
    assert_eq!(encode(&t, true), "a\n7\n-5\n");
}

#[test]
fn decode_integer_bounds() {
    let t = table("a\n9223372036854775807\n-9223372036854775808\n");
    assert_eq!(encode(&t, false), "9223372036854775807\n-9223372036854775808\n");
    // One past the signed range is no longer numeric; the text is kept.
    let u = table("a\n9223372036854775808\n");
    assert_eq!(encode(&u, false), "9223372036854775808\n");
}

#[test]
fn merge_concatenates_in_order() {
    let a = table("a,b\n1,2\n3,4\n");
    let b = table("a,b\n5,6\n");
    let m = merge(Some(&a), b).expect("same schema should merge");
    assert_eq!(m.rows(), 3);
    assert_eq!(encode(&m, true), "a,b\n1,2\n3,4\n5,6\n");
}

#[test]
fn merge_absent_state_is_identity() {
    let b = table("a,b\n1,2\n");
    let m = merge(None, b).expect("first submission is taken as is");
    assert_eq!(encode(&m, true), "a,b\n1,2\n");
}

#[test]
fn merge_distinct_contents_are_not_duplicated() {
    // The result must stack current then incoming, never current twice.
    let a = table("a\n1\n");
    let b = table("a\n2\n");
    let m = merge(Some(&a), b).unwrap();
    assert_eq!(encode(&m, false), "1\n2\n");
}

#[test]
fn merge_rejects_mismatched_schemas() {
    let a = table("a,b\n1,2\n");
    let b = table("a,c\n1,2\n");
    let e = merge(Some(&a), b).unwrap_err();
    let MergeError::SchemaMismatch { current, incoming } = e;
    assert_eq!(current.len(), 2);
    assert_eq!(incoming.len(), 2);
    assert_eq!(current[1].name, "b");
    assert_eq!(incoming[1].name, "c");
}

#[test]
fn merge_rejects_type_mismatch() {
    let a = table("a\n1\n");
    let b = table("a\nx\n");
    assert!(merge(Some(&a), b).is_err());
}

#[test]
fn aggregate_sums_groups_in_first_seen_order() {
    let t = table("k,v\nx,1\ny,10\nx,2\ny,30\n");
    let out = aggregate_sum(&t, "k").unwrap();
    assert_eq!(out.rows(), 2);
    assert_eq!(encode(&out, true), "k,v\nx,3\ny,40\n");
}

#[test]
fn aggregate_drops_non_numeric_columns() {
    let t = table("k,name,v\nx,hello,1\nx,world,2\n");
    let out = aggregate_sum(&t, "k").unwrap();
    assert_eq!(encode(&out, true), "k,v\nx,3\n");
}

#[test]
fn aggregate_keeps_key_column_even_when_text() {
    let t = table("k,name\nx,hello\nx,bye\n");
    let out = aggregate_sum(&t, "k").unwrap();
    assert_eq!(encode(&out, true), "k\nx\n");
}

#[test]
fn aggregate_integer_keys() {
    let t = table("k,v\n5,1\n7,2\n5,3\n");
    let out = aggregate_sum(&t, "k").unwrap();
    assert_eq!(encode(&out, true), "k,v\n5,4\n7,2\n");
}

#[test]
fn aggregate_unknown_key_column() {
    let t = table("k,v\nx,1\n");
    assert_eq!(aggregate_sum(&t, "missing").unwrap_err(), AggError::UnknownKeyColumn);
}

#[test]
fn aggregate_sum_wraps_on_overflow() {
    let t = table("k,v\nx,9223372036854775807\nx,9223372036854775807\n");
    let out = aggregate_sum(&t, "k").unwrap();
    assert_eq!(encode(&out, false), "x,-2\n");
}

#[test]
fn aggregate_mean_is_unsupported() {
    let t = table("k,v\nx,1\n");
    let e = aggregate(&t, "k", AggregateOperation::Mean).unwrap_err();
    assert_eq!(e, AggError::Unsupported);
}

#[test]
fn aggregate_operation_sum_dispatches() {
    let t = table("k,v\nx,1\nx,2\n");
    let out = aggregate(&t, "k", AggregateOperation::Sum).unwrap();
    assert_eq!(encode(&out, true), "k,v\nx,3\n");
}

#[test]
fn collate_scenario_two_submissions() {
    // Start with no state; two collate submissions accumulate in order.
    let mut store = Store::new();
    let first = store.apply_collate(table("a,b\n1,2\n")).unwrap();
    assert_eq!(first, "a,b\n1,2\n");
    let second = store.apply_collate(table("a,b\n3,4\n")).unwrap();
    assert_eq!(second, "a,b\n1,2\n3,4\n");
    assert!(second.contains("a,b"));
}

#[test]
fn collate_same_payload_twice_doubles_rows() {
    let mut store = Store::new();
    store.apply_collate(table("a,b\n1,2\n5,6\n")).unwrap();
    let text = store.apply_collate(table("a,b\n1,2\n5,6\n")).unwrap();
    assert_eq!(text, "a,b\n1,2\n5,6\n1,2\n5,6\n");
    assert_eq!(store.table.as_ref().unwrap().rows(), 4);
}

#[test]
fn collate_mismatch_leaves_state_unchanged() {
    let mut store = Store::new();
    store.apply_collate(table("a,b\n1,2\n")).unwrap();
    let e = store.apply_aggregate(table("x,y\n1,2\n")).unwrap_err();
    assert!(matches!(e, ApplyError::Merge(MergeError::SchemaMismatch { .. })));
    let e2 = store.apply_collate(table("a,b,c\n1,2,3\n")).unwrap_err();
    assert!(matches!(e2, ApplyError::Merge(MergeError::SchemaMismatch { .. })));
    assert_eq!(encode(store.table.as_ref().unwrap(), true), "a,b\n1,2\n");
}

#[test]
fn aggregate_scenario_summing_store() {
    // Start with no state; aggregate twice; the key is the incoming payload's
    // first column, and the stored table ends summed to a single row.
    let mut store = Store::new();
    let first = store.apply_aggregate(table("k,v\nx,1\n")).unwrap();
    assert_eq!(first, "k,v\nx,1\n");
    let second = store.apply_aggregate(table("k,v\nx,2\n")).unwrap();
    assert_eq!(second, "k,v\nx,3\n");
    assert_eq!(store.table.as_ref().unwrap().rows(), 1);
}

#[test]
fn aggregate_scenario_non_numeric_column_dropped() {
    let mut store = Store::new();
    store.apply_aggregate(table("k,name\nx,hello\n")).unwrap();
    let text = store.apply_aggregate(table("k,name\nx,hello\n")).unwrap();
    assert_eq!(text, "k\nx\n");
}

#[test]
fn aggregate_key_follows_incoming_first_column() {
    // Same schema both times, so the incoming table's first column and the
    // stored table's first column coincide; the sum keys on it.
    let mut store = Store::new();
    store.apply_aggregate(table("k,v\nx,1\ny,5\n")).unwrap();
    let text = store.apply_aggregate(table("k,v\ny,5\nz,1\n")).unwrap();
    assert_eq!(text, "k,v\nx,1\ny,10\nz,1\n");
}

#[test]
fn aggregate_first_submission_is_stored_as_is() {
    // The first submission is committed by assignment, unreduced; only the
    // second one merges and sums.
    let mut store = Store::new();
    let first = store.apply_aggregate(table("k,v\nx,1\nx,2\n")).unwrap();
    assert_eq!(first, "k,v\nx,1\nx,2\n");
    let second = store.apply_aggregate(table("k,v\nx,4\n")).unwrap();
    assert_eq!(second, "k,v\nx,7\n");
}

#[test]
fn many_single_row_collates_keep_every_row() {
    // One commit at a time, as the store's exclusive access enforces: after
    // forty single-row submissions the table holds exactly forty rows.
    let mut store = Store::new();
    for i in 0..40 {
        let payload = format!("a,b\n{},{}\n", i, i + 1);
        store.apply_collate(decode(&payload).unwrap()).unwrap();
    }
    assert_eq!(store.table.as_ref().unwrap().rows(), 40);
}

#[test]
fn seeded_store_keeps_output_path() {
    let store = Store::seeded(table("a\n1\n"), Some(String::from("out.csv")));
    assert_eq!(store.output_path.as_deref(), Some("out.csv"));
    assert_eq!(encode(store.table.as_ref().unwrap(), true), "a\n1\n");
}
