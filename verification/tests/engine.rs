use rowtree::{aggregate, Dict, Keyed, SourceRow};

fn row(root: u128, mid: Option<u128>, leaf: Option<u128>) -> SourceRow<i32, i32, i32> {
    SourceRow {
        root_key: root,
        root: root as i32,
        mid: mid.map(|k| Keyed { key: k, data: k as i32 }),
        leaf: leaf.map(|k| Keyed { key: k, data: k as i32 }),
    }
}

const A: u128 = 0xA;
const B: u128 = 0xB;
const C: u128 = 0xC;
const X: u128 = 0x78;
const Y: u128 = 0x79;

#[test]
fn scenario_mixed_rows() {
    // rows (A,1,x), (A,1,y), (A,2,NULL), (B,NULL,NULL)
    let rows = vec![
        row(A, Some(1), Some(X)),
        row(A, Some(1), Some(Y)),
        row(A, Some(2), None),
        row(B, None, None),
    ];
    let out = aggregate(rows);
    assert_eq!(out.len(), 2);
    assert_eq!(out[0].key, A);
    assert_eq!(out[1].key, B);
    let mids_a = out[0].mids.ref_values();
    assert_eq!(mids_a.len(), 2);
    assert_eq!(mids_a[0].key, 1);
    assert_eq!(mids_a[1].key, 2);
    let leaves_1 = mids_a[0].leaves.ref_values();
    assert_eq!(leaves_1.len(), 2);
    assert_eq!(leaves_1[0].key, X);
    assert_eq!(leaves_1[1].key, Y);
    assert_eq!(mids_a[1].leaves.ref_values().len(), 0);
    assert_eq!(out[1].mids.ref_values().len(), 0);
}

#[test]
fn scenario_first_seen_root_order() {
    // roots arrive as B, A, A: output must keep first-seen order, not key order
    let rows = vec![row(B, None, None), row(A, Some(1), None), row(A, Some(2), None)];
    let out = aggregate(rows);
    assert_eq!(out.len(), 2);
    assert_eq!(out[0].key, B);
    assert_eq!(out[1].key, A);
    assert_eq!(out[1].mids.ref_values().len(), 2);
}

#[test]
fn duplicate_triple_absorbed() {
    // the second (A,1,x) row differs in its non-key columns and changes nothing
    let dup = SourceRow {
        root_key: A,
        root: 999,
        mid: Some(Keyed { key: 1, data: 999 }),
        leaf: Some(Keyed { key: X, data: 999 }),
    };
    let rows_once = vec![row(A, Some(1), Some(X))];
    let rows_twice = vec![row(A, Some(1), Some(X)), dup];
    let once = aggregate(rows_once);
    let twice = aggregate(rows_twice);
    assert_eq!(once.len(), twice.len());
    assert_eq!(twice[0].key, A);
    // first occurrence seeds the entity; the duplicate's columns are dropped
    assert_eq!(twice[0].data, A as i32);
    let mids = twice[0].mids.ref_values();
    assert_eq!(mids.len(), 1);
    assert_eq!(mids[0].data, 1);
    let leaves = mids[0].leaves.ref_values();
    assert_eq!(leaves.len(), 1);
    assert_eq!(leaves[0].data, X as i32);
}

#[test]
fn null_mid_skips_leaf() {
    // a present leaf key under an absent mid key is ignored
    let out = aggregate(vec![row(B, None, Some(X))]);
    assert_eq!(out.len(), 1);
    assert_eq!(out[0].key, B);
    assert_eq!(out[0].mids.ref_values().len(), 0);
}

#[test]
fn all_null_mids_yield_empty_root() {
    let out = aggregate(vec![row(C, None, None), row(C, None, None)]);
    assert_eq!(out.len(), 1);
    assert_eq!(out[0].key, C);
    assert_eq!(out[0].mids.ref_values().len(), 0);
}

#[test]
fn interleaved_roots_keep_fanout() {
    // two roots interleaved; each keeps its own children
    let rows = vec![
        row(A, Some(1), None),
        row(B, Some(7), None),
        row(A, Some(2), None),
        row(B, Some(8), None),
        row(A, Some(1), None),
    ];
    let out = aggregate(rows);
    assert_eq!(out.len(), 2);
    let mids_a = out[0].mids.ref_values();
    let mids_b = out[1].mids.ref_values();
    assert_eq!(mids_a.len(), 2);
    assert_eq!(mids_a[0].key, 1);
    assert_eq!(mids_a[1].key, 2);
    assert_eq!(mids_b.len(), 2);
    assert_eq!(mids_b[0].key, 7);
    assert_eq!(mids_b[1].key, 8);
}

#[test]
fn empty_row_stream() {
    let out = aggregate(Vec::<SourceRow<i32, i32, i32>>::new());
    assert_eq!(out.len(), 0);
}

#[test]
fn dict_insertion_order_kept() {
    let mut d: Dict<u128, &'static str> = Dict::new();
    d.insert_uncheck(5, "five");
    d.insert_uncheck(1, "one");
    d.insert_uncheck(3, "three");
    let vals = d.values();
    assert_eq!(vals, vec!["five", "one", "three"]);
}

#[test]
fn dict_lookup_and_mutate() {
    let mut d: Dict<u128, i32> = Dict::new();
    d.insert_uncheck(9, 90);
    assert!(d.ref_mut_value(8).is_none());
    if let Some(v) = d.ref_mut_value(9) {
        *v += 1;
    } else {
        panic!();
    }
    assert_eq!(d.ref_values(), &vec![91]);
}

#[test]
fn dict_insert_returns_live_handle() {
    let mut d: Dict<u128, i32> = Dict::new();
    let v = d.insert_uncheck(2, 20);
    *v = 21;
    assert_eq!(d.values(), vec![21]);
}
