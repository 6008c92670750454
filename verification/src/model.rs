//! The mathematical model of hierarchical materialization.
//!
//! A row stream is reduced to a tree of ghost-level entities: each level keeps
//! the keys in first-seen order, each entity is seeded from the first row that
//! carries its key, and later rows only attach children.

use vstd::prelude::*;

verus! {

/// A grouping key. Identifiers of the row source are carried as their 128-bit
/// value.
pub type Key = u128;

/// A key together with the columns that seed the entity built for that key.
pub struct Keyed<T> {
    pub key: Key,
    pub data: T,
}

/// One denormalized row of a two- or three-level outer join.
///
/// The root key is always present. The mid and leaf parts are absent where the
/// join produced NULL for that branch. A present leaf under an absent mid can
/// occur only in malformed input and is ignored.
pub struct SourceRow<R, M, L> {
    pub root_key: Key,
    pub root: R,
    pub mid: Option<Keyed<M>>,
    pub leaf: Option<Keyed<L>>,
}

/// Ghost-level leaf entity: scalar attributes only.
pub struct SpecLeaf<L> {
    pub key: Key,
    pub data: L,
}

/// Ghost-level mid entity: scalar attributes plus its leaves in first-seen order.
pub struct SpecMid<M, L> {
    pub key: Key,
    pub data: M,
    pub leaves: Seq<SpecLeaf<L>>,
}

/// Ghost-level root entity: scalar attributes plus its mids in first-seen order.
pub struct SpecRoot<R, M, L> {
    pub key: Key,
    pub data: R,
    pub mids: Seq<SpecMid<M, L>>,
}

pub open spec fn leaf_keys<L>(leaves: Seq<SpecLeaf<L>>) -> Seq<Key> {
    leaves.map_values(|l: SpecLeaf<L>| l.key)
}

pub open spec fn mid_keys<M, L>(mids: Seq<SpecMid<M, L>>) -> Seq<Key> {
    mids.map_values(|m: SpecMid<M, L>| m.key)
}

pub open spec fn root_keys<R, M, L>(roots: Seq<SpecRoot<R, M, L>>) -> Seq<Key> {
    roots.map_values(|r: SpecRoot<R, M, L>| r.key)
}

/// How one row affects the leaves of the mid entity it addresses: a fresh leaf
/// key is appended, a repeated one is absorbed (first occurrence wins).
pub open spec fn leaves_step<L>(leaves: Seq<SpecLeaf<L>>, leaf: Option<Keyed<L>>) -> Seq<
    SpecLeaf<L>,
> {
    match leaf {
        Option::None => leaves,
        Option::Some(kl) => if leaf_keys(leaves).contains(kl.key) {
            leaves
        } else {
            leaves.push(SpecLeaf { key: kl.key, data: kl.data })
        },
    }
}

/// How one row affects the mids of the root entity it addresses: an absent mid
/// key skips the row (its leaf part included), a fresh mid key appends a new
/// entity, a repeated one only forwards the leaf part to the existing entity.
pub open spec fn mids_step<M, L>(
    mids: Seq<SpecMid<M, L>>,
    mid: Option<Keyed<M>>,
    leaf: Option<Keyed<L>>,
) -> Seq<SpecMid<M, L>> {
    match mid {
        Option::None => mids,
        Option::Some(km) => {
            let ks = mid_keys(mids);
            if ks.contains(km.key) {
                let p = ks.index_of(km.key);
                mids.update(
                    p,
                    SpecMid {
                        key: km.key,
                        data: mids[p].data,
                        leaves: leaves_step(mids[p].leaves, leaf),
                    },
                )
            } else {
                mids.push(
                    SpecMid { key: km.key, data: km.data, leaves: leaves_step(Seq::empty(), leaf) },
                )
            }
        },
    }
}

/// How one row affects the forest of root entities: a fresh root key appends a
/// new entity seeded from this row, a repeated one forwards the mid and leaf
/// parts to the existing entity.
pub open spec fn roots_step<R, M, L>(
    roots: Seq<SpecRoot<R, M, L>>,
    row: SourceRow<R, M, L>,
) -> Seq<SpecRoot<R, M, L>> {
    let ks = root_keys(roots);
    if ks.contains(row.root_key) {
        let p = ks.index_of(row.root_key);
        roots.update(
            p,
            SpecRoot {
                key: row.root_key,
                data: roots[p].data,
                mids: mids_step(roots[p].mids, row.mid, row.leaf),
            },
        )
    } else {
        roots.push(
            SpecRoot {
                key: row.root_key,
                data: row.root,
                mids: mids_step(Seq::empty(), row.mid, row.leaf),
            },
        )
    }
}

/// The entity forest that a whole row sequence materializes to: the rows are
/// absorbed one at a time, in order.
pub open spec fn materialize<R, M, L>(rows: Seq<SourceRow<R, M, L>>) -> Seq<SpecRoot<R, M, L>>
    decreases rows.len(),
{
    if rows.len() == 0 {
        Seq::empty()
    } else {
        roots_step(materialize(rows.drop_last()), rows.last())
    }
}

/// The distinct keys of a key sequence, each at its first occurrence, in order.
pub open spec fn first_seen(ks: Seq<Key>) -> Seq<Key>
    decreases ks.len(),
{
    if ks.len() == 0 {
        Seq::empty()
    } else {
        let init = first_seen(ks.drop_last());
        if ks.drop_last().contains(ks.last()) {
            init
        } else {
            init.push(ks.last())
        }
    }
}

pub proof fn lemma_first_seen_push(ks: Seq<Key>, k: Key)
    ensures
        first_seen(ks.push(k)) == if ks.contains(k) {
            first_seen(ks)
        } else {
            first_seen(ks).push(k)
        },
{
    assert(ks.push(k).drop_last() =~= ks);
    assert(ks.push(k).last() == k);
}

/// `first_seen` keeps exactly the keys that occur, without duplicates.
pub proof fn lemma_first_seen_props(ks: Seq<Key>)
    ensures
        first_seen(ks).no_duplicates(),
        forall|k: Key| #[trigger] first_seen(ks).contains(k) <==> ks.contains(k),
    decreases ks.len(),
{
    if ks.len() == 0 {
    } else {
        let init = ks.drop_last();
        lemma_first_seen_props(init);
        assert forall|k: Key| #[trigger] first_seen(ks).contains(k) <==> ks.contains(k) by {
            if first_seen(ks).contains(k) {
                if first_seen(init).contains(k) {
                    assert(init.contains(k));
                    let j = choose|j: int| 0 <= j < init.len() && init[j] == k;
                    assert(ks[j] == k);
                } else {
                    let i = choose|i: int|
                        0 <= i < first_seen(ks).len() && first_seen(ks)[i] == k;
                    if init.contains(ks.last()) {
                        assert(first_seen(init)[i] == k);
                    } else {
                        if i < first_seen(init).len() {
                            assert(first_seen(init)[i] == k);
                        }
                        assert(k == ks.last());
                        assert(ks[ks.len() - 1] == k);
                    }
                }
            }
            if ks.contains(k) {
                let j = choose|j: int| 0 <= j < ks.len() && ks[j] == k;
                if j < init.len() {
                    assert(init[j] == k);
                    assert(init.contains(k));
                    assert(first_seen(init).contains(k));
                    if !init.contains(ks.last()) {
                        assert(first_seen(ks) == first_seen(init).push(ks.last()));
                        let i = choose|i: int|
                            0 <= i < first_seen(init).len() && first_seen(init)[i] == k;
                        assert(first_seen(ks)[i] == k);
                    }
                } else {
                    let last = ks.last();
                    assert(k == last);
                    if init.contains(last) {
                        assert(first_seen(init).contains(k));
                    } else {
                        assert(first_seen(ks).last() == k);
                    }
                }
            }
        }
        if !init.contains(ks.last()) {
            assert(!first_seen(init).contains(ks.last()));
            let fs = first_seen(init).push(ks.last());
            assert forall|i: int, j: int|
                0 <= i < fs.len() && 0 <= j < fs.len() && i != j implies fs[i] != fs[j] by {
                if i < first_seen(init).len() && j < first_seen(init).len() {
                } else if i == first_seen(init).len() {
                    if fs[j] == ks.last() {
                        assert(first_seen(init)[j] == ks.last());
                        assert(first_seen(init).contains(ks.last()));
                    }
                } else if j == first_seen(init).len() {
                    if fs[i] == ks.last() {
                        assert(first_seen(init)[i] == ks.last());
                        assert(first_seen(init).contains(ks.last()));
                    }
                }
            }
            assert(fs.no_duplicates());
        }
    }
}

} // verus!
