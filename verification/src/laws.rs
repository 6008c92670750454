//! Laws of the materialization model.
//!
//! Public proof functions stating, over `model::materialize`, the guarantees
//! the aggregation pass gives its callers: absorption of duplicate key
//! triples, first-seen output order, the skip policy for absent mid keys, and
//! the shape of every root entity's fan-out.

use vstd::prelude::*;
use crate::model::{
    first_seen, materialize, mid_keys, leaf_keys, root_keys, leaves_step, mids_step, roots_step,
    lemma_first_seen_props, lemma_first_seen_push, Key, Keyed, SourceRow, SpecLeaf, SpecMid,
    SpecRoot,
};

verus! {

broadcast use vstd::seq_lib::group_filter_ensures;

/// The key of an optional row part.
pub open spec fn key_of<T>(part: Option<Keyed<T>>) -> Option<Key> {
    match part {
        Option::None => Option::None,
        Option::Some(kd) => Option::Some(kd.key),
    }
}

/// The root keys of the rows, in row order.
pub open spec fn row_root_keys<R, M, L>(rows: Seq<SourceRow<R, M, L>>) -> Seq<Key> {
    rows.map_values(|r: SourceRow<R, M, L>| r.root_key)
}

/// A leaf container covers an optional leaf key when the key is absent or
/// already stored.
pub open spec fn leaves_cover<L>(leaves: Seq<SpecLeaf<L>>, lk: Option<Key>) -> bool {
    match lk {
        Option::None => true,
        Option::Some(k) => leaf_keys(leaves).contains(k),
    }
}

/// A mid container covers an optional (mid, leaf) key pair when the mid key is
/// absent, or is stored and its entity covers the leaf key.
pub open spec fn mids_cover<M, L>(mids: Seq<SpecMid<M, L>>, mk: Option<Key>, lk: Option<
    Key,
>) -> bool {
    match mk {
        Option::None => true,
        Option::Some(k) => mid_keys(mids).contains(k) && forall|i: int|
            0 <= i < mids.len() && (#[trigger] mids[i]).key == k ==> leaves_cover(
                mids[i].leaves,
                lk,
            ),
    }
}

/// A forest covers a key triple when the root key is stored and each entity
/// under it covers the (mid, leaf) pair.
pub open spec fn covers<R, M, L>(
    roots: Seq<SpecRoot<R, M, L>>,
    rk: Key,
    mk: Option<Key>,
    lk: Option<Key>,
) -> bool {
    &&& root_keys(roots).contains(rk)
    &&& forall|i: int|
        0 <= i < roots.len() && (#[trigger] roots[i]).key == rk ==> mids_cover(
            roots[i].mids,
            mk,
            lk,
        )
}

/// No key appears twice at the root level, nor at the mid level of any root.
pub open spec fn distinct_keys<R, M, L>(roots: Seq<SpecRoot<R, M, L>>) -> bool {
    &&& root_keys(roots).no_duplicates()
    &&& forall|i: int|
        0 <= i < roots.len() ==> mid_keys((#[trigger] roots[i]).mids).no_duplicates()
}

proof fn lemma_leaves_step_covers_own<L>(leaves: Seq<SpecLeaf<L>>, leaf: Option<Keyed<L>>)
    ensures
        leaves_cover(leaves_step(leaves, leaf), key_of(leaf)),
{
    if let Option::Some(kl) = leaf {
        if !leaf_keys(leaves).contains(kl.key) {
            let l2 = leaves_step(leaves, leaf);
            assert(leaf_keys(l2)[leaves.len() as int] == kl.key);
        }
    }
}

proof fn lemma_leaves_cover_mono<L>(
    leaves: Seq<SpecLeaf<L>>,
    leaf2: Option<Keyed<L>>,
    lk: Option<Key>,
)
    requires
        leaves_cover(leaves, lk),
    ensures
        leaves_cover(leaves_step(leaves, leaf2), lk),
{
    if let Option::Some(k) = lk {
        let j = choose|j: int| 0 <= j < leaf_keys(leaves).len() && leaf_keys(leaves)[j] == k;
        assert(leaf_keys(leaves_step(leaves, leaf2))[j] == k);
    }
}

proof fn lemma_mids_step_covers_own<M, L>(
    mids: Seq<SpecMid<M, L>>,
    mid: Option<Keyed<M>>,
    leaf: Option<Keyed<L>>,
)
    requires
        mid_keys(mids).no_duplicates(),
    ensures
        mids_cover(mids_step(mids, mid, leaf), key_of(mid), key_of(leaf)),
{
    if let Option::Some(km) = mid {
        let ks = mid_keys(mids);
        let m2 = mids_step(mids, mid, leaf);
        if ks.contains(km.key) {
            let p = ks.index_of(km.key);
            assert(0 <= p < ks.len() && ks[p] == km.key);
            assert(mid_keys(m2) =~= ks);
            assert(mid_keys(m2)[p] == km.key);
            lemma_leaves_step_covers_own(mids[p].leaves, leaf);
            assert forall|i: int|
                0 <= i < m2.len() && (#[trigger] m2[i]).key == km.key implies leaves_cover(
                m2[i].leaves,
                key_of(leaf),
            ) by {
                assert(ks[i] == km.key);
                assert(i == p);
            }
        } else {
            assert(mid_keys(m2) =~= ks.push(km.key));
            assert(mid_keys(m2)[mids.len() as int] == km.key);
            lemma_leaves_step_covers_own(Seq::<SpecLeaf<L>>::empty(), leaf);
            assert forall|i: int|
                0 <= i < m2.len() && (#[trigger] m2[i]).key == km.key implies leaves_cover(
                m2[i].leaves,
                key_of(leaf),
            ) by {
                if i < mids.len() {
                    assert(ks[i] == km.key);
                    assert(ks.contains(km.key));
                }
            }
        }
    }
}

proof fn lemma_mids_cover_persists<M, L>(
    mids: Seq<SpecMid<M, L>>,
    mid2: Option<Keyed<M>>,
    leaf2: Option<Keyed<L>>,
    mk: Option<Key>,
    lk: Option<Key>,
)
    requires
        mids_cover(mids, mk, lk),
        mid_keys(mids).no_duplicates(),
    ensures
        mids_cover(mids_step(mids, mid2, leaf2), mk, lk),
{
    if let Option::Some(k) = mk {
        let ks = mid_keys(mids);
        let m2 = mids_step(mids, mid2, leaf2);
        let j = choose|j: int| 0 <= j < ks.len() && ks[j] == k;
        if let Option::Some(km2) = mid2 {
            if ks.contains(km2.key) {
                let p = ks.index_of(km2.key);
                assert(0 <= p < ks.len() && ks[p] == km2.key);
                assert(mid_keys(m2) =~= ks);
                assert(mid_keys(m2)[j] == k);
                assert forall|i: int|
                    0 <= i < m2.len() && (#[trigger] m2[i]).key == k implies leaves_cover(
                    m2[i].leaves,
                    lk,
                ) by {
                    assert(mid_keys(m2)[i] == k);
                    assert(ks[i] == k);
                    assert(mids[i].key == k);
                    if i == p {
                        lemma_leaves_cover_mono(mids[p].leaves, leaf2, lk);
                    }
                }
            } else {
                assert(mid_keys(m2) =~= ks.push(km2.key));
                assert(mid_keys(m2)[j] == k);
                assert forall|i: int|
                    0 <= i < m2.len() && (#[trigger] m2[i]).key == k implies leaves_cover(
                    m2[i].leaves,
                    lk,
                ) by {
                    if i < mids.len() {
                        assert(mids[i].key == k);
                    } else {
                        assert(m2[i].key == km2.key);
                        assert(ks[j] == k);
                        assert(ks.contains(km2.key));
                    }
                }
            }
        } else {
            assert(m2 == mids);
        }
    }
}

proof fn lemma_mids_step_distinct<M, L>(
    mids: Seq<SpecMid<M, L>>,
    mid: Option<Keyed<M>>,
    leaf: Option<Keyed<L>>,
)
    requires
        mid_keys(mids).no_duplicates(),
    ensures
        mid_keys(mids_step(mids, mid, leaf)).no_duplicates(),
{
    if let Option::Some(km) = mid {
        let ks = mid_keys(mids);
        let m2 = mids_step(mids, mid, leaf);
        if ks.contains(km.key) {
            let p = ks.index_of(km.key);
            assert(0 <= p < ks.len() && ks[p] == km.key);
            assert(mid_keys(m2) =~= ks);
        } else {
            assert(mid_keys(m2) =~= ks.push(km.key));
            let ks2 = mid_keys(m2);
            assert forall|i: int, j: int|
                0 <= i < ks2.len() && 0 <= j < ks2.len() && i != j implies ks2[i] != ks2[j] by {
                if i == ks.len() {
                    if ks2[j] == km.key {
                        assert(ks[j] == km.key);
                        assert(ks.contains(km.key));
                    }
                } else if j == ks.len() {
                    if ks2[i] == km.key {
                        assert(ks[i] == km.key);
                        assert(ks.contains(km.key));
                    }
                }
            }
        }
    }
}

proof fn lemma_roots_step_distinct<R, M, L>(roots: Seq<SpecRoot<R, M, L>>, row: SourceRow<R, M, L>)
    requires
        distinct_keys(roots),
    ensures
        distinct_keys(roots_step(roots, row)),
{
    let ks = root_keys(roots);
    let r2 = roots_step(roots, row);
    if ks.contains(row.root_key) {
        let p = ks.index_of(row.root_key);
        assert(0 <= p < ks.len() && ks[p] == row.root_key);
        assert(root_keys(r2) =~= ks);
        lemma_mids_step_distinct(roots[p].mids, row.mid, row.leaf);
        assert forall|i: int| 0 <= i < r2.len() implies mid_keys(
            (#[trigger] r2[i]).mids,
        ).no_duplicates() by {
            if i != p {
                assert(r2[i] == roots[i]);
            }
        }
    } else {
        assert(root_keys(r2) =~= ks.push(row.root_key));
        let ks2 = root_keys(r2);
        assert forall|i: int, j: int|
            0 <= i < ks2.len() && 0 <= j < ks2.len() && i != j implies ks2[i] != ks2[j] by {
            if i == ks.len() {
                if ks2[j] == row.root_key {
                    assert(ks[j] == row.root_key);
                    assert(ks.contains(row.root_key));
                }
            } else if j == ks.len() {
                if ks2[i] == row.root_key {
                    assert(ks[i] == row.root_key);
                    assert(ks.contains(row.root_key));
                }
            }
        }
        lemma_mids_step_distinct(Seq::<SpecMid<M, L>>::empty(), row.mid, row.leaf);
        assert forall|i: int| 0 <= i < r2.len() implies mid_keys(
            (#[trigger] r2[i]).mids,
        ).no_duplicates() by {
            if i < roots.len() {
                assert(r2[i] == roots[i]);
            }
        }
    }
}

proof fn lemma_roots_step_covers_own<R, M, L>(roots: Seq<SpecRoot<R, M, L>>, row: SourceRow<R, M,
    L>)
    requires
        distinct_keys(roots),
    ensures
        covers(roots_step(roots, row), row.root_key, key_of(row.mid), key_of(row.leaf)),
{
    let ks = root_keys(roots);
    let r2 = roots_step(roots, row);
    if ks.contains(row.root_key) {
        let p = ks.index_of(row.root_key);
        assert(0 <= p < ks.len() && ks[p] == row.root_key);
        assert(root_keys(r2) =~= ks);
        assert(root_keys(r2)[p] == row.root_key);
        lemma_mids_step_covers_own(roots[p].mids, row.mid, row.leaf);
        assert forall|i: int|
            0 <= i < r2.len() && (#[trigger] r2[i]).key == row.root_key implies mids_cover(
            r2[i].mids,
            key_of(row.mid),
            key_of(row.leaf),
        ) by {
            assert(root_keys(r2)[i] == row.root_key);
            assert(ks[i] == row.root_key);
            assert(i == p);
        }
    } else {
        assert(root_keys(r2) =~= ks.push(row.root_key));
        assert(root_keys(r2)[roots.len() as int] == row.root_key);
        lemma_mids_step_covers_own(Seq::<SpecMid<M, L>>::empty(), row.mid, row.leaf);
        assert forall|i: int|
            0 <= i < r2.len() && (#[trigger] r2[i]).key == row.root_key implies mids_cover(
            r2[i].mids,
            key_of(row.mid),
            key_of(row.leaf),
        ) by {
            if i < roots.len() {
                assert(ks[i] == row.root_key);
                assert(ks.contains(row.root_key));
            }
        }
    }
}

proof fn lemma_covers_persists<R, M, L>(
    roots: Seq<SpecRoot<R, M, L>>,
    row2: SourceRow<R, M, L>,
    rk: Key,
    mk: Option<Key>,
    lk: Option<Key>,
)
    requires
        covers(roots, rk, mk, lk),
        distinct_keys(roots),
    ensures
        covers(roots_step(roots, row2), rk, mk, lk),
{
    let ks = root_keys(roots);
    let r2 = roots_step(roots, row2);
    let j = choose|j: int| 0 <= j < ks.len() && ks[j] == rk;
    if ks.contains(row2.root_key) {
        let p = ks.index_of(row2.root_key);
        assert(0 <= p < ks.len() && ks[p] == row2.root_key);
        assert(root_keys(r2) =~= ks);
        assert(root_keys(r2)[j] == rk);
        assert forall|i: int|
            0 <= i < r2.len() && (#[trigger] r2[i]).key == rk implies mids_cover(
            r2[i].mids,
            mk,
            lk,
        ) by {
            assert(root_keys(r2)[i] == rk);
            assert(ks[i] == rk);
            assert(roots[i].key == rk);
            if i == p {
                lemma_mids_cover_persists(roots[p].mids, row2.mid, row2.leaf, mk, lk);
            }
        }
    } else {
        assert(root_keys(r2) =~= ks.push(row2.root_key));
        assert(root_keys(r2)[j] == rk);
        assert forall|i: int|
            0 <= i < r2.len() && (#[trigger] r2[i]).key == rk implies mids_cover(
            r2[i].mids,
            mk,
            lk,
        ) by {
            if i < roots.len() {
                assert(roots[i].key == rk);
            } else {
                assert(r2[i].key == row2.root_key);
                assert(ks[j] == rk);
                assert(ks.contains(row2.root_key));
            }
        }
    }
}

/// The forest a row sequence materializes to never stores a key twice at the
/// root level, nor at the mid level of any root entity.
pub proof fn lemma_materialize_distinct<R, M, L>(rows: Seq<SourceRow<R, M, L>>)
    ensures
        distinct_keys(materialize(rows)),
    decreases rows.len(),
{
    if rows.len() == 0 {
    } else {
        lemma_materialize_distinct(rows.drop_last());
        lemma_roots_step_distinct(materialize(rows.drop_last()), rows.last());
    }
}

proof fn lemma_materialize_covers<R, M, L>(rows: Seq<SourceRow<R, M, L>>, j: int)
    requires
        0 <= j < rows.len(),
    ensures
        covers(
            materialize(rows),
            rows[j].root_key,
            key_of(rows[j].mid),
            key_of(rows[j].leaf),
        ),
    decreases rows.len(),
{
    let init = rows.drop_last();
    lemma_materialize_distinct(init);
    if j == rows.len() - 1 {
        lemma_roots_step_covers_own(materialize(init), rows.last());
    } else {
        lemma_materialize_covers(init, j);
        lemma_covers_persists(
            materialize(init),
            rows.last(),
            rows[j].root_key,
            key_of(rows[j].mid),
            key_of(rows[j].leaf),
        );
    }
}

proof fn lemma_leaves_step_covered_identity<L>(leaves: Seq<SpecLeaf<L>>, leaf: Option<Keyed<L>>)
    requires
        leaves_cover(leaves, key_of(leaf)),
    ensures
        leaves_step(leaves, leaf) == leaves,
{
}

proof fn lemma_mids_step_covered_identity<M, L>(
    mids: Seq<SpecMid<M, L>>,
    mid: Option<Keyed<M>>,
    leaf: Option<Keyed<L>>,
)
    requires
        mids_cover(mids, key_of(mid), key_of(leaf)),
    ensures
        mids_step(mids, mid, leaf) == mids,
{
    if let Option::Some(km) = mid {
        let ks = mid_keys(mids);
        assert(ks.contains(km.key));
        let p = ks.index_of(km.key);
        assert(0 <= p < ks.len() && ks[p] == km.key);
        assert(mids[p].key == km.key);
        lemma_leaves_step_covered_identity(mids[p].leaves, leaf);
        assert(SpecMid {
            key: km.key,
            data: mids[p].data,
            leaves: leaves_step(mids[p].leaves, leaf),
        } == mids[p]);
        assert(mids_step(mids, mid, leaf) =~= mids);
    }
}

proof fn lemma_roots_step_covered_identity<R, M, L>(
    roots: Seq<SpecRoot<R, M, L>>,
    row: SourceRow<R, M, L>,
)
    requires
        covers(roots, row.root_key, key_of(row.mid), key_of(row.leaf)),
    ensures
        roots_step(roots, row) == roots,
{
    let ks = root_keys(roots);
    assert(ks.contains(row.root_key));
    let p = ks.index_of(row.root_key);
    assert(0 <= p < ks.len() && ks[p] == row.root_key);
    assert(roots[p].key == row.root_key);
    lemma_mids_step_covered_identity(roots[p].mids, row.mid, row.leaf);
    assert(SpecRoot {
        key: row.root_key,
        data: roots[p].data,
        mids: mids_step(roots[p].mids, row.mid, row.leaf),
    } == roots[p]);
    assert(roots_step(roots, row) =~= roots);
}

/// Idempotence of repeated rows: a row whose (root, mid, leaf) key triple
/// already occurred earlier in the sequence is absorbed without any effect,
/// whatever its non-key columns hold.
pub proof fn lemma_duplicate_row_absorbed<R, M, L>(
    rows: Seq<SourceRow<R, M, L>>,
    row: SourceRow<R, M, L>,
    j: int,
)
    requires
        0 <= j < rows.len(),
        rows[j].root_key == row.root_key,
        key_of(rows[j].mid) == key_of(row.mid),
        key_of(rows[j].leaf) == key_of(row.leaf),
    ensures
        materialize(rows.push(row)) == materialize(rows),
{
    lemma_materialize_covers(rows, j);
    assert(rows.push(row).drop_last() =~= rows);
    assert(materialize(rows.push(row)) == roots_step(materialize(rows), row));
    lemma_roots_step_covered_identity(materialize(rows), row);
}

/// The output root order is exactly the first-seen order of the root keys of
/// the input rows.
pub proof fn lemma_root_order<R, M, L>(rows: Seq<SourceRow<R, M, L>>)
    ensures
        root_keys(materialize(rows)) == first_seen(row_root_keys(rows)),
    decreases rows.len(),
{
    if rows.len() == 0 {
        assert(row_root_keys(rows) =~= Seq::<Key>::empty());
        assert(root_keys(materialize(rows)) =~= Seq::<Key>::empty());
        assert(first_seen(Seq::<Key>::empty()) == Seq::<Key>::empty());
    } else {
        let init = rows.drop_last();
        let last = rows.last();
        lemma_root_order(init);
        lemma_first_seen_props(row_root_keys(init));
        assert(row_root_keys(rows) =~= row_root_keys(init).push(last.root_key));
        lemma_first_seen_push(row_root_keys(init), last.root_key);
        let roots0 = materialize(init);
        let ks = root_keys(roots0);
        if ks.contains(last.root_key) {
            let p = ks.index_of(last.root_key);
            assert(0 <= p < ks.len() && ks[p] == last.root_key);
            assert(root_keys(roots_step(roots0, last)) =~= ks);
            assert(row_root_keys(init).contains(last.root_key));
        } else {
            assert(root_keys(roots_step(roots0, last)) =~= ks.push(last.root_key));
            assert(!row_root_keys(init).contains(last.root_key));
        }
    }
}

/// Order stability: two row sequences whose root keys have the same first-seen
/// order (any permutation that keeps each key's first occurrence in the same
/// relative position) produce their root entities in the same order.
pub proof fn lemma_order_stability<R, M, L>(
    rows1: Seq<SourceRow<R, M, L>>,
    rows2: Seq<SourceRow<R, M, L>>,
)
    requires
        first_seen(row_root_keys(rows1)) == first_seen(row_root_keys(rows2)),
    ensures
        root_keys(materialize(rows1)) == root_keys(materialize(rows2)),
{
    lemma_root_order(rows1);
    lemma_root_order(rows2);
}

/// NULL-branch skip: a row with an absent mid key contributes nothing below
/// the root level, even when its leaf key is present; the root itself is
/// created (with no children) if its key is new, and untouched otherwise.
pub proof fn lemma_null_mid_branch<R, M, L>(
    rows: Seq<SourceRow<R, M, L>>,
    row: SourceRow<R, M, L>,
)
    requires
        row.mid is None,
    ensures
        materialize(rows.push(row)) == if root_keys(materialize(rows)).contains(row.root_key) {
            materialize(rows)
        } else {
            materialize(rows).push(
                SpecRoot { key: row.root_key, data: row.root, mids: Seq::<SpecMid<M, L>>::empty() },
            )
        },
{
    let roots = materialize(rows);
    assert(rows.push(row).drop_last() =~= rows);
    assert(materialize(rows.push(row)) == roots_step(roots, row));
    let ks = root_keys(roots);
    if ks.contains(row.root_key) {
        let p = ks.index_of(row.root_key);
        assert(0 <= p < ks.len() && ks[p] == row.root_key);
        assert(roots[p].key == row.root_key);
        assert(mids_step(roots[p].mids, row.mid, row.leaf) == roots[p].mids);
        assert(SpecRoot { key: row.root_key, data: roots[p].data, mids: roots[p].mids }
            == roots[p]);
        assert(roots_step(roots, row) =~= roots);
    } else {
        assert(mids_step(Seq::<SpecMid<M, L>>::empty(), row.mid, row.leaf) == Seq::<
            SpecMid<M, L>,
        >::empty());
    }
}

/// The rows that address the root entity keyed `k`.
pub open spec fn rows_for_root<R, M, L>(rows: Seq<SourceRow<R, M, L>>, k: Key) -> Seq<
    SourceRow<R, M, L>,
> {
    rows.filter(|r: SourceRow<R, M, L>| r.root_key == k)
}

/// The rows that carry a mid part for the root entity keyed `k`.
pub open spec fn mid_rows_for_root<R, M, L>(rows: Seq<SourceRow<R, M, L>>, k: Key) -> Seq<
    SourceRow<R, M, L>,
> {
    rows.filter(|r: SourceRow<R, M, L>| r.root_key == k && r.mid is Some)
}

/// The mid keys carried for the root entity keyed `k`, in row order.
pub open spec fn mid_keys_for_root<R, M, L>(rows: Seq<SourceRow<R, M, L>>, k: Key) -> Seq<Key> {
    mid_rows_for_root(rows, k).map_values(|r: SourceRow<R, M, L>| r.mid.unwrap().key)
}

proof fn lemma_rows_for_root_push<R, M, L>(
    init: Seq<SourceRow<R, M, L>>,
    last: SourceRow<R, M, L>,
    k: Key,
)
    ensures
        rows_for_root(init.push(last), k) == if last.root_key == k {
            rows_for_root(init, k).push(last)
        } else {
            rows_for_root(init, k)
        },
{
    broadcast use vstd::seq::Seq::lemma_filter_push;

}

proof fn lemma_mid_rows_for_root_push<R, M, L>(
    init: Seq<SourceRow<R, M, L>>,
    last: SourceRow<R, M, L>,
    k: Key,
)
    ensures
        mid_rows_for_root(init.push(last), k) == if last.root_key == k && last.mid is Some {
            mid_rows_for_root(init, k).push(last)
        } else {
            mid_rows_for_root(init, k)
        },
        mid_keys_for_root(init.push(last), k) == if last.root_key == k && last.mid is Some {
            mid_keys_for_root(init, k).push(last.mid.unwrap().key)
        } else {
            mid_keys_for_root(init, k)
        },
{
    broadcast use vstd::seq::Seq::lemma_filter_push;

    if last.root_key == k && last.mid is Some {
        assert(mid_keys_for_root(init.push(last), k) =~= mid_keys_for_root(init, k).push(
            last.mid.unwrap().key,
        ));
    }
}

proof fn lemma_no_rows_for_root<R, M, L>(rows: Seq<SourceRow<R, M, L>>, k: Key)
    requires
        forall|j: int| 0 <= j < rows.len() ==> (#[trigger] rows[j]).root_key != k,
    ensures
        rows_for_root(rows, k) == Seq::<SourceRow<R, M, L>>::empty(),
    decreases rows.len(),
{
    if rows.len() == 0 {
        reveal(Seq::filter);
        assert(rows_for_root(rows, k) =~= Seq::<SourceRow<R, M, L>>::empty());
    } else {
        let init = rows.drop_last();
        lemma_no_rows_for_root(init, k);
        assert(rows =~= init.push(rows.last()));
        lemma_rows_for_root_push(init, rows.last(), k);
        assert(rows[rows.len() - 1].root_key != k);
    }
}

proof fn lemma_no_mid_rows_for_root<R, M, L>(rows: Seq<SourceRow<R, M, L>>, k: Key)
    requires
        forall|j: int|
            0 <= j < rows.len() && (#[trigger] rows[j]).root_key == k ==> rows[j].mid is None,
    ensures
        mid_rows_for_root(rows, k) == Seq::<SourceRow<R, M, L>>::empty(),
        mid_keys_for_root(rows, k) == Seq::<Key>::empty(),
    decreases rows.len(),
{
    if rows.len() == 0 {
        reveal(Seq::filter);
        assert(mid_rows_for_root(rows, k) =~= Seq::<SourceRow<R, M, L>>::empty());
        assert(mid_keys_for_root(rows, k) =~= Seq::<Key>::empty());
    } else {
        let init = rows.drop_last();
        assert(forall|j: int|
            0 <= j < init.len() && (#[trigger] init[j]).root_key == k ==> init[j].mid is None);
        lemma_no_mid_rows_for_root(init, k);
        assert(rows =~= init.push(rows.last()));
        lemma_mid_rows_for_root_push(init, rows.last(), k);
        assert(rows[rows.len() - 1].root_key == k ==> rows[rows.len() - 1].mid is None);
        assert(mid_keys_for_root(rows, k) =~= Seq::<Key>::empty());
    }
}

/// Fan-out completeness: every root entity in the output carries one mid child
/// per distinct mid key among its rows, in first-seen order, and its own
/// columns are seeded from the first row that carries its key — in any
/// interleaving with other roots' rows.
pub proof fn lemma_fanout<R, M, L>(rows: Seq<SourceRow<R, M, L>>, k: Key)
    ensures
        forall|i: int|
            0 <= i < materialize(rows).len() && (#[trigger] materialize(rows)[i]).key == k ==> {
                &&& mid_keys(materialize(rows)[i].mids) == first_seen(mid_keys_for_root(rows, k))
                &&& rows_for_root(rows, k).len() > 0
                &&& materialize(rows)[i].data == rows_for_root(rows, k)[0].root
            },
    decreases rows.len(),
{
    if rows.len() == 0 {
    } else {
        let init = rows.drop_last();
        let last = rows.last();
        lemma_fanout(init, k);
        lemma_materialize_distinct(init);
        lemma_root_order(init);
        lemma_first_seen_props(row_root_keys(init));
        assert(rows =~= init.push(last));
        lemma_rows_for_root_push(init, last, k);
        lemma_mid_rows_for_root_push(init, last, k);
        let m1 = materialize(init);
        let m2 = materialize(rows);
        assert(m2 == roots_step(m1, last));
        let ks = root_keys(m1);
        let rfk0 = rows_for_root(init, k);
        let rfk1 = rows_for_root(rows, k);
        let mk0 = mid_keys_for_root(init, k);
        let mk1 = mid_keys_for_root(rows, k);
        if last.root_key == k {
            if ks.contains(k) {
                let p = ks.index_of(k);
                assert(0 <= p < ks.len() && ks[p] == k);
                assert(m1[p].key == k);
                assert(rfk0.len() > 0);
                assert(rfk1[0] == rfk0[0]);
                let e2 = m2[p];
                assert(e2.data == m1[p].data);
                assert(e2.mids == mids_step(m1[p].mids, last.mid, last.leaf));
                match last.mid {
                    Option::None => {
                        assert(mk1 == mk0);
                        assert(e2.mids == m1[p].mids);
                    },
                    Option::Some(km) => {
                        assert(mk1 == mk0.push(km.key));
                        lemma_first_seen_push(mk0, km.key);
                        lemma_first_seen_props(mk0);
                        let mks = mid_keys(m1[p].mids);
                        assert(mks == first_seen(mk0));
                        if mks.contains(km.key) {
                            assert(mk0.contains(km.key));
                            let q = mks.index_of(km.key);
                            assert(0 <= q < mks.len() && mks[q] == km.key);
                            assert(mid_keys(e2.mids) =~= mks);
                        } else {
                            assert(!mk0.contains(km.key));
                            assert(mid_keys(e2.mids) =~= mks.push(km.key));
                        }
                    },
                }
                assert forall|i: int|
                    0 <= i < m2.len() && (#[trigger] m2[i]).key == k implies {
                    &&& mid_keys(m2[i].mids) == first_seen(mk1)
                    &&& rfk1.len() > 0
                    &&& m2[i].data == rfk1[0].root
                } by {
                    if i != p {
                        assert(m2[i] == m1[i]);
                        assert(ks[i] == k);
                        assert(ks[p] == k);
                    }
                }
            } else {
                assert(!first_seen(row_root_keys(init)).contains(k));
                assert(!row_root_keys(init).contains(k));
                assert forall|j: int| 0 <= j < init.len() implies (#[trigger] init[j]).root_key
                    != k by {
                    assert(row_root_keys(init)[j] == init[j].root_key);
                }
                lemma_no_rows_for_root(init, k);
                lemma_no_mid_rows_for_root(init, k);
                assert(rfk1 =~= Seq::<SourceRow<R, M, L>>::empty().push(last));
                assert(rfk1[0] == last);
                let e2 = m2[m1.len() as int];
                assert(e2.key == k);
                assert(e2.data == last.root);
                assert(e2.mids == mids_step(Seq::<SpecMid<M, L>>::empty(), last.mid, last.leaf));
                assert(first_seen(Seq::<Key>::empty()) == Seq::<Key>::empty());
                match last.mid {
                    Option::None => {
                        assert(mk1 == mk0);
                        assert(mid_keys(e2.mids) =~= Seq::<Key>::empty());
                    },
                    Option::Some(km) => {
                        assert(mk1 == mk0.push(km.key));
                        lemma_first_seen_push(mk0, km.key);
                        assert(!mid_keys(Seq::<SpecMid<M, L>>::empty()).contains(km.key));
                        assert(mid_keys(e2.mids) =~= Seq::<Key>::empty().push(km.key));
                        assert(first_seen(mk1) == Seq::<Key>::empty().push(km.key));
                    },
                }
                assert forall|i: int|
                    0 <= i < m2.len() && (#[trigger] m2[i]).key == k implies {
                    &&& mid_keys(m2[i].mids) == first_seen(mk1)
                    &&& rfk1.len() > 0
                    &&& m2[i].data == rfk1[0].root
                } by {
                    if i < m1.len() {
                        assert(m2[i] == m1[i]);
                        assert(ks[i] == k);
                        assert(ks.contains(k));
                    }
                }
            }
        } else {
            assert(rfk1 == rfk0);
            assert(mk1 == mk0);
            if ks.contains(last.root_key) {
                let p = ks.index_of(last.root_key);
                assert(0 <= p < ks.len() && ks[p] == last.root_key);
                assert forall|i: int|
                    0 <= i < m2.len() && (#[trigger] m2[i]).key == k implies {
                    &&& mid_keys(m2[i].mids) == first_seen(mk1)
                    &&& rfk1.len() > 0
                    &&& m2[i].data == rfk1[0].root
                } by {
                    assert(m2[p].key == last.root_key);
                    assert(i != p);
                    assert(m2[i] == m1[i]);
                }
            } else {
                assert forall|i: int|
                    0 <= i < m2.len() && (#[trigger] m2[i]).key == k implies {
                    &&& mid_keys(m2[i].mids) == first_seen(mk1)
                    &&& rfk1.len() > 0
                    &&& m2[i].data == rfk1[0].root
                } by {
                    assert(m2[m1.len() as int].key == last.root_key);
                    assert(i < m1.len());
                    assert(m2[i] == m1[i]);
                }
            }
        }
    }
}

/// The rows that address the mid entity keyed `mk` under the root keyed `k`.
pub open spec fn mid_rows_for_mid<R, M, L>(rows: Seq<SourceRow<R, M, L>>, k: Key, mk: Key) -> Seq<
    SourceRow<R, M, L>,
> {
    rows.filter(
        |r: SourceRow<R, M, L>| r.root_key == k && key_of(r.mid) == Option::<Key>::Some(mk),
    )
}

/// The rows that carry a leaf part for the mid entity keyed `mk` under the
/// root keyed `k`.
pub open spec fn leaf_rows_for_mid<R, M, L>(rows: Seq<SourceRow<R, M, L>>, k: Key, mk: Key) -> Seq<
    SourceRow<R, M, L>,
> {
    rows.filter(
        |r: SourceRow<R, M, L>|
            r.root_key == k && key_of(r.mid) == Option::<Key>::Some(mk) && r.leaf is Some,
    )
}

/// The leaf keys carried for the mid entity keyed `mk` under the root keyed
/// `k`, in row order.
pub open spec fn leaf_keys_for_mid<R, M, L>(rows: Seq<SourceRow<R, M, L>>, k: Key, mk: Key) -> Seq<
    Key,
> {
    leaf_rows_for_mid(rows, k, mk).map_values(|r: SourceRow<R, M, L>| r.leaf.unwrap().key)
}

proof fn lemma_mid_level_push<R, M, L>(
    init: Seq<SourceRow<R, M, L>>,
    last: SourceRow<R, M, L>,
    k: Key,
    mk: Key,
)
    ensures
        mid_rows_for_mid(init.push(last), k, mk) == if last.root_key == k && key_of(last.mid)
            == Option::<Key>::Some(mk) {
            mid_rows_for_mid(init, k, mk).push(last)
        } else {
            mid_rows_for_mid(init, k, mk)
        },
        leaf_rows_for_mid(init.push(last), k, mk) == if last.root_key == k && key_of(last.mid)
            == Option::<Key>::Some(mk) && last.leaf is Some {
            leaf_rows_for_mid(init, k, mk).push(last)
        } else {
            leaf_rows_for_mid(init, k, mk)
        },
        leaf_keys_for_mid(init.push(last), k, mk) == if last.root_key == k && key_of(last.mid)
            == Option::<Key>::Some(mk) && last.leaf is Some {
            leaf_keys_for_mid(init, k, mk).push(last.leaf.unwrap().key)
        } else {
            leaf_keys_for_mid(init, k, mk)
        },
{
    broadcast use vstd::seq::Seq::lemma_filter_push;

    if last.root_key == k && key_of(last.mid) == Option::<Key>::Some(mk) && last.leaf is Some {
        assert(leaf_keys_for_mid(init.push(last), k, mk) =~= leaf_keys_for_mid(init, k, mk).push(
            last.leaf.unwrap().key,
        ));
    }
}

proof fn lemma_no_rows_for_mid<R, M, L>(rows: Seq<SourceRow<R, M, L>>, k: Key, mk: Key)
    requires
        forall|j: int|
            0 <= j < rows.len() ==> !((#[trigger] rows[j]).root_key == k && key_of(rows[j].mid)
                == Option::<Key>::Some(mk)),
    ensures
        mid_rows_for_mid(rows, k, mk) == Seq::<SourceRow<R, M, L>>::empty(),
        leaf_rows_for_mid(rows, k, mk) == Seq::<SourceRow<R, M, L>>::empty(),
        leaf_keys_for_mid(rows, k, mk) == Seq::<Key>::empty(),
    decreases rows.len(),
{
    if rows.len() == 0 {
        reveal(Seq::filter);
        assert(mid_rows_for_mid(rows, k, mk) =~= Seq::<SourceRow<R, M, L>>::empty());
        assert(leaf_rows_for_mid(rows, k, mk) =~= Seq::<SourceRow<R, M, L>>::empty());
        assert(leaf_keys_for_mid(rows, k, mk) =~= Seq::<Key>::empty());
    } else {
        let init = rows.drop_last();
        lemma_no_rows_for_mid(init, k, mk);
        assert(rows =~= init.push(rows.last()));
        lemma_mid_level_push(init, rows.last(), k, mk);
        assert(!(rows[rows.len() - 1].root_key == k && key_of(rows[rows.len() - 1].mid)
            == Option::<Key>::Some(mk)));
    }
}

/// Fan-out completeness at the leaf level: every mid entity in the output
/// carries one leaf child per distinct leaf key among its rows, in first-seen
/// order, and its own columns are seeded from the first row that addresses
/// it — in any interleaving with other entities' rows.
pub proof fn lemma_leaf_fanout<R, M, L>(rows: Seq<SourceRow<R, M, L>>, k: Key, mk: Key)
    ensures
        forall|i: int, j: int|
            {
                &&& 0 <= i < materialize(rows).len()
                &&& (#[trigger] materialize(rows)[i]).key == k
                &&& 0 <= j < materialize(rows)[i].mids.len()
                &&& (#[trigger] materialize(rows)[i].mids[j]).key == mk
            } ==> {
                &&& mid_rows_for_mid(rows, k, mk).len() > 0
                &&& materialize(rows)[i].mids[j].data == mid_rows_for_mid(
                    rows,
                    k,
                    mk,
                )[0].mid.unwrap().data
                &&& leaf_keys(materialize(rows)[i].mids[j].leaves) == first_seen(
                    leaf_keys_for_mid(rows, k, mk),
                )
            },
    decreases rows.len(),
{
    if rows.len() == 0 {
    } else {
        let init = rows.drop_last();
        let last = rows.last();
        lemma_leaf_fanout(init, k, mk);
        lemma_fanout(init, k);
        lemma_materialize_distinct(init);
        lemma_root_order(init);
        lemma_first_seen_props(row_root_keys(init));
        assert(rows =~= init.push(last));
        lemma_mid_level_push(init, last, k, mk);
        lemma_mid_rows_for_root_push(init, last, k);
        let m1 = materialize(init);
        let m2 = materialize(rows);
        assert(m2 == roots_step(m1, last));
        let ks = root_keys(m1);
        let mr0 = mid_rows_for_mid(init, k, mk);
        let mr1 = mid_rows_for_mid(rows, k, mk);
        let lk0 = leaf_keys_for_mid(init, k, mk);
        let lk1 = leaf_keys_for_mid(rows, k, mk);
        if last.root_key == k {
            if ks.contains(k) {
                let p = ks.index_of(k);
                assert(0 <= p < ks.len() && ks[p] == k);
                assert(m1[p].key == k);
                let e1 = m1[p];
                let e2 = m2[p];
                assert(e2.mids == mids_step(e1.mids, last.mid, last.leaf));
                assert(forall|i: int|
                    0 <= i < m2.len() && i != p ==> m2[i] == m1[i] && #[trigger] m2[i].key
                        == ks[i]);
                match last.mid {
                    Option::None => {
                        assert(e2.mids == e1.mids);
                        assert(mr1 == mr0);
                        assert(lk1 == lk0);
                        assert forall|i: int, j: int|
                            {
                                &&& 0 <= i < m2.len()
                                &&& (#[trigger] m2[i]).key == k
                                &&& 0 <= j < m2[i].mids.len()
                                &&& (#[trigger] m2[i].mids[j]).key == mk
                            } implies {
                            &&& mr1.len() > 0
                            &&& m2[i].mids[j].data == mr1[0].mid.unwrap().data
                            &&& leaf_keys(m2[i].mids[j].leaves) == first_seen(lk1)
                        } by {
                            if i != p {
                                assert(ks[i] == k && ks[p] == k);
                            }
                            assert(m2[i].mids == m1[i].mids);
                            assert(m1[i].mids[j].key == mk);
                        }
                    },
                    Option::Some(km) => {
                        let mks = mid_keys(e1.mids);
                        assert(mks == first_seen(mid_keys_for_root(init, k)));
                        lemma_first_seen_props(mid_keys_for_root(init, k));
                        if mks.contains(km.key) {
                            let q = mks.index_of(km.key);
                            assert(0 <= q < mks.len() && mks[q] == km.key);
                            assert(e1.mids[q].key == km.key);
                            assert(e2.mids == e1.mids.update(
                                q,
                                SpecMid {
                                    key: km.key,
                                    data: e1.mids[q].data,
                                    leaves: leaves_step(e1.mids[q].leaves, last.leaf),
                                },
                            ));
                            if km.key == mk {
                                assert(mr1 == mr0.push(last));
                                // the addressed mid entity exists, so its row filter is not empty
                                assert(e1.mids[q].key == mk);
                                assert(mr0.len() > 0 && e1.mids[q].data == mr0[0].mid.unwrap().data
                                    && leaf_keys(e1.mids[q].leaves) == first_seen(lk0));
                                assert(mr1[0] == mr0[0]);
                                lemma_first_seen_props(lk0);
                                match last.leaf {
                                    Option::None => {
                                        assert(lk1 == lk0);
                                        assert(leaves_step(e1.mids[q].leaves, last.leaf)
                                            == e1.mids[q].leaves);
                                    },
                                    Option::Some(kl) => {
                                        assert(lk1 == lk0.push(kl.key));
                                        lemma_first_seen_push(lk0, kl.key);
                                        if leaf_keys(e1.mids[q].leaves).contains(kl.key) {
                                            assert(lk0.contains(kl.key));
                                            assert(leaves_step(e1.mids[q].leaves, last.leaf)
                                                == e1.mids[q].leaves);
                                        } else {
                                            assert(!lk0.contains(kl.key));
                                            assert(leaf_keys(
                                                leaves_step(e1.mids[q].leaves, last.leaf),
                                            ) =~= leaf_keys(e1.mids[q].leaves).push(kl.key));
                                        }
                                    },
                                }
                                assert forall|i: int, j: int|
                                    {
                                        &&& 0 <= i < m2.len()
                                        &&& (#[trigger] m2[i]).key == k
                                        &&& 0 <= j < m2[i].mids.len()
                                        &&& (#[trigger] m2[i].mids[j]).key == mk
                                    } implies {
                                    &&& mr1.len() > 0
                                    &&& m2[i].mids[j].data == mr1[0].mid.unwrap().data
                                    &&& leaf_keys(m2[i].mids[j].leaves) == first_seen(lk1)
                                } by {
                                    if i != p {
                                        assert(ks[i] == k && ks[p] == k);
                                    }
                                    assert(i == p);
                                    assert(mid_keys(e2.mids) =~= mks);
                                    assert(mid_keys(e2.mids)[j] == mk);
                                    assert(mks[j] == mk && mks[q] == mk);
                                    assert(mid_keys(e1.mids).no_duplicates());
                                    assert(j == q);
                                }
                            } else {
                                assert(mr1 == mr0);
                                assert(lk1 == lk0);
                                assert forall|i: int, j: int|
                                    {
                                        &&& 0 <= i < m2.len()
                                        &&& (#[trigger] m2[i]).key == k
                                        &&& 0 <= j < m2[i].mids.len()
                                        &&& (#[trigger] m2[i].mids[j]).key == mk
                                    } implies {
                                    &&& mr1.len() > 0
                                    &&& m2[i].mids[j].data == mr1[0].mid.unwrap().data
                                    &&& leaf_keys(m2[i].mids[j].leaves) == first_seen(lk1)
                                } by {
                                    if i != p {
                                        assert(ks[i] == k && ks[p] == k);
                                    }
                                    assert(i == p);
                                    assert(e2.mids[q].key == km.key);
                                    assert(j != q);
                                    assert(m2[i].mids[j] == e1.mids[j]);
                                    assert(m1[p].mids[j].key == mk);
                                }
                            }
                        } else {
                            let fresh = SpecMid {
                                key: km.key,
                                data: km.data,
                                leaves: leaves_step(Seq::<SpecLeaf<L>>::empty(), last.leaf),
                            };
                            assert(e2.mids == e1.mids.push(fresh));
                            if km.key == mk {
                                // no earlier row addressed this mid entity
                                assert(!mid_keys_for_root(init, k).contains(mk));
                                assert forall|jj: int| 0 <= jj < init.len() implies !((
                                #[trigger] init[jj]).root_key == k && key_of(init[jj].mid)
                                    == Option::<Key>::Some(mk)) by {
                                    if init[jj].root_key == k && key_of(init[jj].mid)
                                        == Option::<Key>::Some(mk) {
                                        let r = init[jj];
                                        assert(mid_rows_for_root(init, k).contains(r));
                                        let w = choose|w: int|
                                            0 <= w < mid_rows_for_root(init, k).len()
                                                && mid_rows_for_root(init, k)[w] == r;
                                        assert(mid_keys_for_root(init, k)[w] == mk);
                                        assert(mid_keys_for_root(init, k).contains(mk));
                                    }
                                }
                                lemma_no_rows_for_mid(init, k, mk);
                                assert(mr1 =~= Seq::<SourceRow<R, M, L>>::empty().push(last));
                                assert(mr1[0] == last);
                                match last.leaf {
                                    Option::None => {
                                        assert(lk1 =~= Seq::<Key>::empty());
                                        assert(first_seen(Seq::<Key>::empty()) == Seq::<
                                            Key,
                                        >::empty());
                                        assert(leaf_keys(fresh.leaves) =~= Seq::<Key>::empty());
                                    },
                                    Option::Some(kl) => {
                                        assert(lk1 =~= Seq::<Key>::empty().push(kl.key));
                                        lemma_first_seen_push(Seq::<Key>::empty(), kl.key);
                                        assert(first_seen(Seq::<Key>::empty()) == Seq::<
                                            Key,
                                        >::empty());
                                        assert(leaf_keys(fresh.leaves) =~= Seq::<
                                            Key,
                                        >::empty().push(kl.key));
                                    },
                                }
                                assert forall|i: int, j: int|
                                    {
                                        &&& 0 <= i < m2.len()
                                        &&& (#[trigger] m2[i]).key == k
                                        &&& 0 <= j < m2[i].mids.len()
                                        &&& (#[trigger] m2[i].mids[j]).key == mk
                                    } implies {
                                    &&& mr1.len() > 0
                                    &&& m2[i].mids[j].data == mr1[0].mid.unwrap().data
                                    &&& leaf_keys(m2[i].mids[j].leaves) == first_seen(lk1)
                                } by {
                                    if i != p {
                                        assert(ks[i] == k && ks[p] == k);
                                    }
                                    assert(i == p);
                                    if j < e1.mids.len() {
                                        assert(mid_keys(e1.mids)[j] == mk);
                                        assert(mks.contains(mk));
                                    }
                                    assert(m2[i].mids[j] == fresh);
                                }
                            } else {
                                assert(mr1 == mr0);
                                assert(lk1 == lk0);
                                assert forall|i: int, j: int|
                                    {
                                        &&& 0 <= i < m2.len()
                                        &&& (#[trigger] m2[i]).key == k
                                        &&& 0 <= j < m2[i].mids.len()
                                        &&& (#[trigger] m2[i].mids[j]).key == mk
                                    } implies {
                                    &&& mr1.len() > 0
                                    &&& m2[i].mids[j].data == mr1[0].mid.unwrap().data
                                    &&& leaf_keys(m2[i].mids[j].leaves) == first_seen(lk1)
                                } by {
                                    if i != p {
                                        assert(ks[i] == k && ks[p] == k);
                                    }
                                    assert(i == p);
                                    assert(fresh.key == km.key);
                                    assert(j < e1.mids.len());
                                    assert(m2[i].mids[j] == e1.mids[j]);
                                    assert(m1[p].mids[j].key == mk);
                                }
                            }
                        }
                    },
                }
            } else {
                // a fresh root entity: no earlier row carries this root key
                assert(!row_root_keys(init).contains(k));
                assert forall|jj: int| 0 <= jj < init.len() implies !((#[trigger] init[jj]).root_key
                    == k && key_of(init[jj].mid) == Option::<Key>::Some(mk)) by {
                    assert(row_root_keys(init)[jj] == init[jj].root_key);
                }
                lemma_no_rows_for_mid(init, k, mk);
                let e2 = m2[m1.len() as int];
                assert(e2.key == k);
                assert(e2.mids == mids_step(Seq::<SpecMid<M, L>>::empty(), last.mid, last.leaf));
                assert forall|i: int, j: int|
                    {
                        &&& 0 <= i < m2.len()
                        &&& (#[trigger] m2[i]).key == k
                        &&& 0 <= j < m2[i].mids.len()
                        &&& (#[trigger] m2[i].mids[j]).key == mk
                    } implies {
                    &&& mr1.len() > 0
                    &&& m2[i].mids[j].data == mr1[0].mid.unwrap().data
                    &&& leaf_keys(m2[i].mids[j].leaves) == first_seen(lk1)
                } by {
                    if i < m1.len() {
                        assert(m2[i] == m1[i]);
                        assert(ks[i] == k);
                        assert(ks.contains(k));
                    }
                    assert(i == m1.len());
                    match last.mid {
                        Option::None => {
                            assert(e2.mids.len() == 0);
                        },
                        Option::Some(km) => {
                            assert(!mid_keys(Seq::<SpecMid<M, L>>::empty()).contains(km.key));
                            assert(e2.mids =~= Seq::<SpecMid<M, L>>::empty().push(
                                SpecMid {
                                    key: km.key,
                                    data: km.data,
                                    leaves: leaves_step(Seq::<SpecLeaf<L>>::empty(), last.leaf),
                                },
                            ));
                            assert(j == 0);
                            assert(m2[i].mids[0].key == km.key);
                            assert(km.key == mk);
                            assert(mr1 =~= Seq::<SourceRow<R, M, L>>::empty().push(last));
                            assert(mr1[0] == last);
                            match last.leaf {
                                Option::None => {
                                    assert(lk1 =~= Seq::<Key>::empty());
                                    assert(first_seen(Seq::<Key>::empty()) == Seq::<Key>::empty());
                                    assert(leaf_keys(m2[i].mids[0].leaves) =~= Seq::<
                                        Key,
                                    >::empty());
                                },
                                Option::Some(kl) => {
                                    assert(lk1 =~= Seq::<Key>::empty().push(kl.key));
                                    lemma_first_seen_push(Seq::<Key>::empty(), kl.key);
                                    assert(first_seen(Seq::<Key>::empty()) == Seq::<Key>::empty());
                                    assert(leaf_keys(m2[i].mids[0].leaves) =~= Seq::<
                                        Key,
                                    >::empty().push(kl.key));
                                },
                            }
                        },
                    }
                }
            }
        } else {
            assert(mr1 == mr0);
            assert(lk1 == lk0);
            if ks.contains(last.root_key) {
                let p = ks.index_of(last.root_key);
                assert(0 <= p < ks.len() && ks[p] == last.root_key);
                assert forall|i: int, j: int|
                    {
                        &&& 0 <= i < m2.len()
                        &&& (#[trigger] m2[i]).key == k
                        &&& 0 <= j < m2[i].mids.len()
                        &&& (#[trigger] m2[i].mids[j]).key == mk
                    } implies {
                    &&& mr1.len() > 0
                    &&& m2[i].mids[j].data == mr1[0].mid.unwrap().data
                    &&& leaf_keys(m2[i].mids[j].leaves) == first_seen(lk1)
                } by {
                    assert(m2[p].key == last.root_key);
                    assert(i != p);
                    assert(m2[i] == m1[i]);
                    assert(m1[i].mids[j].key == mk);
                }
            } else {
                assert forall|i: int, j: int|
                    {
                        &&& 0 <= i < m2.len()
                        &&& (#[trigger] m2[i]).key == k
                        &&& 0 <= j < m2[i].mids.len()
                        &&& (#[trigger] m2[i].mids[j]).key == mk
                    } implies {
                    &&& mr1.len() > 0
                    &&& m2[i].mids[j].data == mr1[0].mid.unwrap().data
                    &&& leaf_keys(m2[i].mids[j].leaves) == first_seen(lk1)
                } by {
                    assert(m2[m1.len() as int].key == last.root_key);
                    assert(i < m1.len());
                    assert(m2[i] == m1[i]);
                    assert(m1[i].mids[j].key == mk);
                }
            }
        }
    }
}

/// The rows that address the leaf entity keyed `lk` under mid `mk` under
/// root `k`.
pub open spec fn rows_for_leaf<R, M, L>(
    rows: Seq<SourceRow<R, M, L>>,
    k: Key,
    mk: Key,
    lk: Key,
) -> Seq<SourceRow<R, M, L>> {
    rows.filter(
        |r: SourceRow<R, M, L>|
            r.root_key == k && key_of(r.mid) == Option::<Key>::Some(mk) && key_of(r.leaf)
                == Option::<Key>::Some(lk),
    )
}

proof fn lemma_leaf_level_push<R, M, L>(
    init: Seq<SourceRow<R, M, L>>,
    last: SourceRow<R, M, L>,
    k: Key,
    mk: Key,
    lk: Key,
)
    ensures
        rows_for_leaf(init.push(last), k, mk, lk) == if last.root_key == k && key_of(last.mid)
            == Option::<Key>::Some(mk) && key_of(last.leaf) == Option::<Key>::Some(lk) {
            rows_for_leaf(init, k, mk, lk).push(last)
        } else {
            rows_for_leaf(init, k, mk, lk)
        },
{
    broadcast use vstd::seq::Seq::lemma_filter_push;

}

proof fn lemma_no_rows_for_leaf<R, M, L>(rows: Seq<SourceRow<R, M, L>>, k: Key, mk: Key, lk: Key)
    requires
        forall|j: int|
            0 <= j < rows.len() ==> !((#[trigger] rows[j]).root_key == k && key_of(rows[j].mid)
                == Option::<Key>::Some(mk) && key_of(rows[j].leaf) == Option::<Key>::Some(lk)),
    ensures
        rows_for_leaf(rows, k, mk, lk) == Seq::<SourceRow<R, M, L>>::empty(),
    decreases rows.len(),
{
    if rows.len() == 0 {
        reveal(Seq::filter);
        assert(rows_for_leaf(rows, k, mk, lk) =~= Seq::<SourceRow<R, M, L>>::empty());
    } else {
        let init = rows.drop_last();
        lemma_no_rows_for_leaf(init, k, mk, lk);
        assert(rows =~= init.push(rows.last()));
        lemma_leaf_level_push(init, rows.last(), k, mk, lk);
        assert(!(rows[rows.len() - 1].root_key == k && key_of(rows[rows.len() - 1].mid)
            == Option::<Key>::Some(mk) && key_of(rows[rows.len() - 1].leaf) == Option::<
            Key,
        >::Some(lk)));
    }
}

/// Which leaf entities of a mid entity are seeded correctly for one key
/// triple: the triple's row filter is not empty, and every leaf stored under
/// `lk` carries the first such row's leaf columns.
pub open spec fn leaf_seeded<R, M, L>(
    leaves: Seq<SpecLeaf<L>>,
    rows: Seq<SourceRow<R, M, L>>,
    k: Key,
    mk: Key,
    lk: Key,
) -> bool {
    forall|l: int|
        0 <= l < leaves.len() && (#[trigger] leaves[l]).key == lk ==> {
            &&& rows_for_leaf(rows, k, mk, lk).len() > 0
            &&& leaves[l].data == rows_for_leaf(rows, k, mk, lk)[0].leaf.unwrap().data
        }
}

/// First occurrence wins at the leaf level: every leaf entity's columns are
/// seeded from the first row that carries its full (root, mid, leaf) key
/// triple; later rows for the same triple are absorbed without effect.
pub proof fn lemma_leaf_seed<R, M, L>(rows: Seq<SourceRow<R, M, L>>, k: Key, mk: Key, lk: Key)
    ensures
        forall|i: int, j: int|
            {
                &&& 0 <= i < materialize(rows).len()
                &&& (#[trigger] materialize(rows)[i]).key == k
                &&& 0 <= j < materialize(rows)[i].mids.len()
                &&& (#[trigger] materialize(rows)[i].mids[j]).key == mk
            } ==> leaf_seeded(materialize(rows)[i].mids[j].leaves, rows, k, mk, lk),
    decreases rows.len(),
{
    broadcast use vstd::seq::Seq::lemma_filter_contains_rev;

    if rows.len() == 0 {
    } else {
        let init = rows.drop_last();
        let last = rows.last();
        lemma_leaf_seed(init, k, mk, lk);
        lemma_leaf_fanout(init, k, mk);
        lemma_fanout(init, k);
        lemma_materialize_distinct(init);
        lemma_root_order(init);
        lemma_first_seen_props(row_root_keys(init));
        assert(rows =~= init.push(last));
        lemma_leaf_level_push(init, last, k, mk, lk);
        lemma_mid_level_push(init, last, k, mk);
        lemma_mid_rows_for_root_push(init, last, k);
        let m1 = materialize(init);
        let m2 = materialize(rows);
        assert(m2 == roots_step(m1, last));
        let ks = root_keys(m1);
        let fr0 = rows_for_leaf(init, k, mk, lk);
        let fr1 = rows_for_leaf(rows, k, mk, lk);
        let addressed = last.root_key == k && key_of(last.mid) == Option::<Key>::Some(mk);
        if !addressed {
            assert(fr1 == fr0);
        }
        assert forall|i: int, j: int|
            {
                &&& 0 <= i < m2.len()
                &&& (#[trigger] m2[i]).key == k
                &&& 0 <= j < m2[i].mids.len()
                &&& (#[trigger] m2[i].mids[j]).key == mk
            } implies leaf_seeded(m2[i].mids[j].leaves, rows, k, mk, lk) by {
            if last.root_key == k {
                if ks.contains(k) {
                    let p = ks.index_of(k);
                    assert(0 <= p < ks.len() && ks[p] == k);
                    assert(m1[p].key == k);
                    if i != p {
                        assert(ks[i] == k && ks[p] == k);
                    }
                    assert(i == p);
                    let e1 = m1[p];
                    assert(m2[p].mids == mids_step(e1.mids, last.mid, last.leaf));
                    match last.mid {
                        Option::None => {
                            assert(m2[p].mids == e1.mids);
                            assert(fr1 == fr0);
                            assert(e1.mids[j].key == mk);
                        },
                        Option::Some(km) => {
                            let mks = mid_keys(e1.mids);
                            assert(mks == first_seen(mid_keys_for_root(init, k)));
                            lemma_first_seen_props(mid_keys_for_root(init, k));
                            if mks.contains(km.key) {
                                let q = mks.index_of(km.key);
                                assert(0 <= q < mks.len() && mks[q] == km.key);
                                assert(e1.mids[q].key == km.key);
                                assert(m2[p].mids == e1.mids.update(
                                    q,
                                    SpecMid {
                                        key: km.key,
                                        data: e1.mids[q].data,
                                        leaves: leaves_step(e1.mids[q].leaves, last.leaf),
                                    },
                                ));
                                if j != q {
                                    assert(m2[p].mids[j] == e1.mids[j]);
                                    assert(e1.mids[j].key == mk);
                                    if km.key == mk {
                                        assert(mid_keys(e1.mids)[j] == mk);
                                        assert(mks[j] == mk && mks[q] == mk);
                                        assert(mid_keys(e1.mids).no_duplicates());
                                        assert(false);
                                    }
                                    assert(fr1 == fr0);
                                } else {
                                    if km.key != mk {
                                        assert(m2[p].mids[j].key == km.key);
                                        assert(false);
                                    }
                                    // the addressed mid entity: its leaves take one step
                                    let lv1 = e1.mids[q].leaves;
                                    let lv2 = leaves_step(lv1, last.leaf);
                                    assert(leaf_seeded(lv1, init, k, mk, lk));
                                    assert(leaf_keys(lv1) == first_seen(
                                        leaf_keys_for_mid(init, k, mk),
                                    ));
                                    lemma_first_seen_props(leaf_keys_for_mid(init, k, mk));
                                    match last.leaf {
                                        Option::None => {
                                            assert(lv2 == lv1);
                                            assert(fr1 == fr0);
                                        },
                                        Option::Some(kl) => {
                                            if kl.key == lk {
                                                assert(fr1 == fr0.push(last));
                                                if leaf_keys(lv1).contains(lk) {
                                                    assert(lv2 == lv1);
                                                    // an entity under lk exists, so fr0 is not empty
                                                    let w = choose|w: int|
                                                        0 <= w < leaf_keys(lv1).len()
                                                            && leaf_keys(lv1)[w] == lk;
                                                    assert(lv1[w].key == lk);
                                                    assert(fr0.len() > 0);
                                                    assert(fr1[0] == fr0[0]);
                                                } else {
                                                    // a fresh leaf: no earlier row carries the triple
                                                    assert(!leaf_keys_for_mid(
                                                        init,
                                                        k,
                                                        mk,
                                                    ).contains(lk));
                                                    assert forall|jj: int|
                                                        0 <= jj < init.len() implies !((
                                                    #[trigger] init[jj]).root_key == k && key_of(
                                                        init[jj].mid,
                                                    ) == Option::<Key>::Some(mk) && key_of(
                                                        init[jj].leaf,
                                                    ) == Option::<Key>::Some(lk)) by {
                                                        if init[jj].root_key == k && key_of(
                                                            init[jj].mid,
                                                        ) == Option::<Key>::Some(mk) && key_of(
                                                            init[jj].leaf,
                                                        ) == Option::<Key>::Some(lk) {
                                                            let r = init[jj];
                                                            assert(leaf_rows_for_mid(
                                                                init,
                                                                k,
                                                                mk,
                                                            ).contains(r));
                                                            let w = choose|w: int|
                                                                0 <= w < leaf_rows_for_mid(
                                                                    init,
                                                                    k,
                                                                    mk,
                                                                ).len() && leaf_rows_for_mid(
                                                                    init,
                                                                    k,
                                                                    mk,
                                                                )[w] == r;
                                                            assert(leaf_keys_for_mid(
                                                                init,
                                                                k,
                                                                mk,
                                                            )[w] == lk);
                                                            assert(leaf_keys_for_mid(
                                                                init,
                                                                k,
                                                                mk,
                                                            ).contains(lk));
                                                        }
                                                    }
                                                    lemma_no_rows_for_leaf(init, k, mk, lk);
                                                    assert(fr1 =~= Seq::<
                                                        SourceRow<R, M, L>,
                                                    >::empty().push(last));
                                                    assert(fr1[0] == last);
                                                    assert(lv2 =~= lv1.push(
                                                        SpecLeaf { key: kl.key, data: kl.data },
                                                    ));
                                                    assert forall|l: int|
                                                        0 <= l < lv2.len() && (
                                                        #[trigger] lv2[l]).key
                                                            == lk implies lv2[l].data
                                                            == fr1[0].leaf.unwrap().data by {
                                                        if l < lv1.len() {
                                                            assert(leaf_keys(lv1)[l] == lk);
                                                            assert(leaf_keys(lv1).contains(lk));
                                                        }
                                                        assert(lv2[l]
                                                            == SpecLeaf {
                                                            key: kl.key,
                                                            data: kl.data,
                                                        });
                                                    }
                                                }
                                            } else {
                                                assert(fr1 == fr0);
                                                if !leaf_keys(lv1).contains(kl.key) {
                                                    assert(lv2 =~= lv1.push(
                                                        SpecLeaf { key: kl.key, data: kl.data },
                                                    ));
                                                    assert forall|l: int|
                                                        0 <= l < lv2.len() && (
                                                        #[trigger] lv2[l]).key
                                                            == lk implies fr1.len() > 0
                                                            && lv2[l].data
                                                            == fr1[0].leaf.unwrap().data by {
                                                        assert(l < lv1.len());
                                                        assert(lv1[l] == lv2[l]);
                                                    }
                                                } else {
                                                    assert(lv2 == lv1);
                                                }
                                            }
                                        },
                                    }
                                }
                            } else {
                                let fresh = SpecMid {
                                    key: km.key,
                                    data: km.data,
                                    leaves: leaves_step(Seq::<SpecLeaf<L>>::empty(), last.leaf),
                                };
                                assert(m2[p].mids == e1.mids.push(fresh));
                                if j < e1.mids.len() {
                                    assert(m2[p].mids[j] == e1.mids[j]);
                                    assert(e1.mids[j].key == mk);
                                    if km.key == mk {
                                        assert(mid_keys(e1.mids)[j] == mk);
                                        assert(mks.contains(mk));
                                        assert(false);
                                    }
                                    assert(fr1 == fr0);
                                } else {
                                    assert(m2[p].mids[j] == fresh);
                                    assert(km.key == mk);
                                    // a fresh mid entity: no earlier row addresses it
                                    assert(!mid_keys_for_root(init, k).contains(mk));
                                    assert forall|jj: int|
                                        0 <= jj < init.len() implies !((
                                    #[trigger] init[jj]).root_key == k && key_of(init[jj].mid)
                                        == Option::<Key>::Some(mk) && key_of(init[jj].leaf)
                                        == Option::<Key>::Some(lk)) by {
                                        if init[jj].root_key == k && key_of(init[jj].mid)
                                            == Option::<Key>::Some(mk) {
                                            let r = init[jj];
                                            assert(mid_rows_for_root(init, k).contains(r));
                                            let w = choose|w: int|
                                                0 <= w < mid_rows_for_root(init, k).len()
                                                    && mid_rows_for_root(init, k)[w] == r;
                                            assert(mid_keys_for_root(init, k)[w] == mk);
                                            assert(mid_keys_for_root(init, k).contains(mk));
                                        }
                                    }
                                    lemma_no_rows_for_leaf(init, k, mk, lk);
                                    match last.leaf {
                                        Option::None => {
                                            assert(fresh.leaves.len() == 0);
                                            assert(fr1 == fr0);
                                        },
                                        Option::Some(kl) => {
                                            assert(fresh.leaves =~= Seq::<
                                                SpecLeaf<L>,
                                            >::empty().push(
                                                SpecLeaf { key: kl.key, data: kl.data },
                                            ));
                                            if kl.key == lk {
                                                assert(fr1 =~= Seq::<
                                                    SourceRow<R, M, L>,
                                                >::empty().push(last));
                                                assert(fr1[0] == last);
                                            } else {
                                                assert(fr1 == fr0);
                                                assert(fresh.leaves[0].key == kl.key);
                                            }
                                        },
                                    }
                                }
                            }
                        },
                    }
                } else {
                    // a fresh root entity
                    assert(!row_root_keys(init).contains(k));
                    assert forall|jj: int| 0 <= jj < init.len() implies !((
                    #[trigger] init[jj]).root_key == k && key_of(init[jj].mid) == Option::<
                        Key,
                    >::Some(mk) && key_of(init[jj].leaf) == Option::<Key>::Some(lk)) by {
                        assert(row_root_keys(init)[jj] == init[jj].root_key);
                    }
                    lemma_no_rows_for_leaf(init, k, mk, lk);
                    if i < m1.len() {
                        assert(m2[i] == m1[i]);
                        assert(ks[i] == k);
                        assert(ks.contains(k));
                    }
                    assert(i == m1.len());
                    let e2 = m2[m1.len() as int];
                    assert(e2.mids == mids_step(
                        Seq::<SpecMid<M, L>>::empty(),
                        last.mid,
                        last.leaf,
                    ));
                    match last.mid {
                        Option::None => {
                            assert(e2.mids.len() == 0);
                        },
                        Option::Some(km) => {
                            assert(!mid_keys(Seq::<SpecMid<M, L>>::empty()).contains(km.key));
                            assert(e2.mids =~= Seq::<SpecMid<M, L>>::empty().push(
                                SpecMid {
                                    key: km.key,
                                    data: km.data,
                                    leaves: leaves_step(Seq::<SpecLeaf<L>>::empty(), last.leaf),
                                },
                            ));
                            assert(j == 0);
                            assert(km.key == mk);
                            match last.leaf {
                                Option::None => {
                                    assert(e2.mids[0].leaves.len() == 0);
                                    assert(fr1 == fr0);
                                },
                                Option::Some(kl) => {
                                    assert(e2.mids[0].leaves =~= Seq::<SpecLeaf<L>>::empty().push(
                                        SpecLeaf { key: kl.key, data: kl.data },
                                    ));
                                    if kl.key == lk {
                                        assert(fr1 =~= Seq::<SourceRow<R, M, L>>::empty().push(
                                            last,
                                        ));
                                        assert(fr1[0] == last);
                                    } else {
                                        assert(fr1 == fr0);
                                        assert(e2.mids[0].leaves[0].key == kl.key);
                                    }
                                },
                            }
                        },
                    }
                }
            } else {
                // a row of another root: entities for this root are untouched
                if ks.contains(last.root_key) {
                    let p = ks.index_of(last.root_key);
                    assert(0 <= p < ks.len() && ks[p] == last.root_key);
                    assert(m2[p].key == last.root_key);
                    assert(i != p);
                    assert(m2[i] == m1[i]);
                    assert(m1[i].mids[j].key == mk);
                } else {
                    assert(m2[m1.len() as int].key == last.root_key);
                    assert(i < m1.len());
                    assert(m2[i] == m1[i]);
                    assert(m1[i].mids[j].key == mk);
                }
            }
        }
    }
}

/// Empty fan-out: a root key whose rows all carry an absent mid key still
/// appears in the output, as an entity with an empty children collection.
pub proof fn lemma_empty_fanout<R, M, L>(rows: Seq<SourceRow<R, M, L>>, k: Key)
    requires
        row_root_keys(rows).contains(k),
        forall|j: int|
            0 <= j < rows.len() && (#[trigger] rows[j]).root_key == k ==> rows[j].mid is None,
    ensures
        root_keys(materialize(rows)).contains(k),
        forall|i: int|
            0 <= i < materialize(rows).len() && (#[trigger] materialize(rows)[i]).key == k
                ==> materialize(rows)[i].mids == Seq::<SpecMid<M, L>>::empty(),
{
    lemma_root_order(rows);
    lemma_first_seen_props(row_root_keys(rows));
    lemma_fanout(rows, k);
    lemma_no_mid_rows_for_root(rows, k);
    assert(first_seen(Seq::<Key>::empty()) == Seq::<Key>::empty());
    assert forall|i: int|
        0 <= i < materialize(rows).len() && (#[trigger] materialize(rows)[i]).key
            == k implies materialize(rows)[i].mids == Seq::<SpecMid<M, L>>::empty() by {
        assert(mid_keys(materialize(rows)[i].mids) == Seq::<Key>::empty());
        assert(materialize(rows)[i].mids =~= Seq::<SpecMid<M, L>>::empty());
    }
}

} // verus!
