//! The hierarchical aggregation pass.
//!
//! A flat, denormalized row stream is folded, one row at a time and in one
//! pass, into a forest of root entities with nested, insertion-ordered child
//! containers. The result is exactly `model::materialize` of the row sequence.

use vstd::prelude::*;
use crate::dict::Dict;
use crate::model::{
    materialize, mid_keys, leaf_keys, root_keys, leaves_step, mids_step, roots_step, Key, Keyed,
    SourceRow, SpecLeaf, SpecMid, SpecRoot,
};

verus! {

broadcast use vstd::std_specs::hash::group_hash_axioms;

/// A materialized leaf entity.
pub struct LeafNode<L> {
    pub key: Key,
    pub data: L,
}

/// A materialized mid entity, owning its leaves.
pub struct MidNode<M, L> {
    pub key: Key,
    pub data: M,
    pub leaves: Dict<Key, LeafNode<L>>,
}

/// A materialized root entity, owning its mids.
pub struct RootNode<R, M, L> {
    pub key: Key,
    pub data: R,
    pub mids: Dict<Key, MidNode<M, L>>,
}

impl<L> View for LeafNode<L> {
    type V = SpecLeaf<L>;

    open spec fn view(&self) -> SpecLeaf<L> {
        SpecLeaf { key: self.key, data: self.data }
    }
}

impl<M, L> View for MidNode<M, L> {
    type V = SpecMid<M, L>;

    open spec fn view(&self) -> SpecMid<M, L> {
        SpecMid { key: self.key, data: self.data, leaves: leaves_view(self.leaves) }
    }
}

impl<R, M, L> View for RootNode<R, M, L> {
    type V = SpecRoot<R, M, L>;

    open spec fn view(&self) -> SpecRoot<R, M, L> {
        SpecRoot { key: self.key, data: self.data, mids: mids_view(self.mids) }
    }
}

pub open spec fn leaves_view<L>(d: Dict<Key, LeafNode<L>>) -> Seq<SpecLeaf<L>> {
    d.val_seq().map_values(|n: LeafNode<L>| n@)
}

pub open spec fn mids_view<M, L>(d: Dict<Key, MidNode<M, L>>) -> Seq<SpecMid<M, L>> {
    d.val_seq().map_values(|n: MidNode<M, L>| n@)
}

pub open spec fn roots_view<R, M, L>(d: Dict<Key, RootNode<R, M, L>>) -> Seq<SpecRoot<R, M, L>> {
    d.val_seq().map_values(|n: RootNode<R, M, L>| n@)
}

/// A leaf container is sound when its bookkeeping is intact and each stored
/// entity sits under its own key.
pub open spec fn leaves_ok<L>(d: Dict<Key, LeafNode<L>>) -> bool {
    &&& d.wf()
    &&& forall|i: int|
        0 <= i < d.val_seq().len() ==> (#[trigger] d.val_seq()[i]).key == d.key_seq()[i]
}

pub open spec fn mids_ok<M, L>(d: Dict<Key, MidNode<M, L>>) -> bool {
    &&& d.wf()
    &&& forall|i: int|
        0 <= i < d.val_seq().len() ==> (#[trigger] d.val_seq()[i]).key == d.key_seq()[i]
            && d.val_seq()[i].wf()
}

pub open spec fn roots_ok<R, M, L>(d: Dict<Key, RootNode<R, M, L>>) -> bool {
    &&& d.wf()
    &&& forall|i: int|
        0 <= i < d.val_seq().len() ==> (#[trigger] d.val_seq()[i]).key == d.key_seq()[i]
            && d.val_seq()[i].wf()
}

impl<M, L> MidNode<M, L> {
    pub open spec fn wf(&self) -> bool {
        leaves_ok(self.leaves)
    }
}

impl<R, M, L> RootNode<R, M, L> {
    pub open spec fn wf(&self) -> bool {
        mids_ok(self.mids)
    }
}

/// Attaches the leaf part of one row to the addressed mid entity: inserted
/// under a fresh key, absorbed under a repeated one.
fn apply_leaf<L>(leaves: &mut Dict<Key, LeafNode<L>>, leaf: Option<Keyed<L>>)
    requires
        leaves_ok(*old(leaves)),
    ensures
        leaves_ok(*final(leaves)),
        leaves_view(*final(leaves)) == leaves_step(leaves_view(*old(leaves)), leaf),
{
    proof {
        old(leaves).lemma_wf_props();
        assert(leaf_keys(leaves_view(*old(leaves))) =~= old(leaves).key_seq());
    }
    match leaf {
        Option::None => {},
        Option::Some(kl) => {
            let absent = leaves.ref_mut_value(kl.key).is_none();
            if absent {
                leaves.insert_uncheck(kl.key, LeafNode { key: kl.key, data: kl.data });
                proof {
                    assert(leaves_view(*leaves) =~= leaves_view(*old(leaves)).push(
                        SpecLeaf { key: kl.key, data: kl.data },
                    ));
                }
            } else {
                proof {
                    assert(leaves.val_seq() =~= old(leaves).val_seq());
                    assert(leaves_view(*leaves) =~= leaves_view(*old(leaves)));
                }
            }
        },
    }
}

/// Attaches the mid and leaf parts of one row to the addressed root entity.
/// An absent mid key skips the row entirely.
fn apply_mid<M, L>(mids: &mut Dict<Key, MidNode<M, L>>, mid: Option<Keyed<M>>, leaf: Option<
    Keyed<L>,
>)
    requires
        mids_ok(*old(mids)),
    ensures
        mids_ok(*final(mids)),
        mids_view(*final(mids)) == mids_step(mids_view(*old(mids)), mid, leaf),
{
    proof {
        old(mids).lemma_wf_props();
        assert(mid_keys(mids_view(*old(mids))) =~= old(mids).key_seq());
    }
    match mid {
        Option::None => {},
        Option::Some(km) => {
            let key = km.key;
            let ghost v0 = mids_view(*old(mids));
            let ghost ks0 = old(mids).key_seq();
            let absent = mids.ref_mut_value(key).is_none();
            if absent {
                mids.insert_uncheck(
                    key,
                    MidNode { key, data: km.data, leaves: Dict::new() },
                );
                proof {
                    assert(mids.key_seq() == ks0.push(key));
                    assert(mids.key_seq()[ks0.len() as int] == key);
                    assert(mids.has(key));
                }
            } else {
                proof {
                    assert(old(mids).has(key));
                    assert(mids.val_seq() =~= old(mids).val_seq());
                    assert(mids.has(key));
                }
            }
            proof {
                mids.lemma_wf_props();
            }
            let ghost m1 = *mids;
            let ghost p = m1.pos(key);
            match mids.ref_mut_value(key) {
                Option::Some(node) => {
                    apply_leaf(&mut node.leaves, leaf);
                },
                Option::None => {
                    proof {
                        assert(false);
                    }
                },
            }
            proof {
                assert(0 <= p < m1.key_seq().len() && m1.key_seq()[p] == key);
                let nv = mids.val_seq()[p];
                assert(mids.val_seq() == m1.val_seq().update(p, nv));
                assert(nv.key == m1.val_seq()[p].key);
                assert(nv.data == m1.val_seq()[p].data);
                assert(leaves_view(nv.leaves) == leaves_step(
                    leaves_view(m1.val_seq()[p].leaves),
                    leaf,
                ));
                assert(nv.wf());
                if absent {
                    assert(m1.key_seq() == ks0.push(key));
                    if p < ks0.len() {
                        assert(ks0[p] == key);
                        assert(old(mids).has(key));
                    }
                    assert(p == ks0.len());
                    assert(m1.val_seq() =~= old(mids).val_seq().push(m1.val_seq()[p]));
                    assert(m1.val_seq()[p].key == key);
                    assert(m1.val_seq()[p].data == km.data);
                    assert(leaves_view(m1.val_seq()[p].leaves)
                        =~= Seq::<SpecLeaf<L>>::empty());
                    assert(!mid_keys(v0).contains(key));
                    let target = v0.push(
                        SpecMid { key, data: km.data, leaves: leaves_step(Seq::empty(), leaf) },
                    );
                    assert forall|i: int| 0 <= i < mids.val_seq().len() implies mids_view(
                        *mids,
                    )[i] == target[i] by {
                        if i < p {
                            assert(mids.val_seq()[i] == old(mids).val_seq()[i]);
                        } else {
                            assert(leaves_view(nv.leaves) == leaves_step(
                                Seq::empty(),
                                leaf,
                            ));
                        }
                    }
                    assert(mids_view(*mids) =~= target);
                    assert(mids_view(*mids) == mids_step(v0, mid, leaf));
                } else {
                    assert(m1.key_seq() == ks0);
                    assert(m1.val_seq() =~= old(mids).val_seq());
                    assert(mid_keys(v0) =~= ks0);
                    assert(mid_keys(v0).contains(key));
                    let p2 = mid_keys(v0).index_of(key);
                    assert(0 <= p2 < mid_keys(v0).len() && mid_keys(v0)[p2] == key);
                    assert(ks0[p2] == key);
                    assert(old(mids).key_seq()[old(mids).pos(key)] == key);
                    assert(p2 == p);
                    assert(v0[p] == m1.val_seq()[p]@);
                    let target = v0.update(
                        p,
                        SpecMid {
                            key,
                            data: v0[p].data,
                            leaves: leaves_step(v0[p].leaves, leaf),
                        },
                    );
                    assert forall|i: int| 0 <= i < mids.val_seq().len() implies mids_view(
                        *mids,
                    )[i] == target[i] by {
                        if i != p {
                            assert(mids.val_seq()[i] == old(mids).val_seq()[i]);
                        }
                    }
                    assert(mids_view(*mids) =~= target);
                    assert(mids_view(*mids) == mids_step(v0, mid, leaf));
                }
                assert forall|i: int| 0 <= i < mids.val_seq().len() implies (
                #[trigger] mids.val_seq()[i]).key == mids.key_seq()[i]
                    && mids.val_seq()[i].wf() by {
                    if i != p {
                        assert(mids.val_seq()[i] == old(mids).val_seq()[i]);
                        assert(mids.key_seq()[i] == ks0[i]);
                    }
                }
            }
        },
    }
}

/// Absorbs one row into the forest of root entities.
fn apply_row<R, M, L>(groups: &mut Dict<Key, RootNode<R, M, L>>, row: SourceRow<R, M, L>)
    requires
        roots_ok(*old(groups)),
    ensures
        roots_ok(*final(groups)),
        roots_view(*final(groups)) == roots_step(roots_view(*old(groups)), row),
{
    proof {
        old(groups).lemma_wf_props();
        assert(root_keys(roots_view(*old(groups))) =~= old(groups).key_seq());
    }
    let key = row.root_key;
    let ghost v0 = roots_view(*old(groups));
    let ghost ks0 = old(groups).key_seq();
    let absent = groups.ref_mut_value(key).is_none();
    if absent {
        groups.insert_uncheck(key, RootNode { key, data: row.root, mids: Dict::new() });
        proof {
            assert(groups.key_seq() == ks0.push(key));
            assert(groups.key_seq()[ks0.len() as int] == key);
            assert(groups.has(key));
        }
    } else {
        proof {
            assert(old(groups).has(key));
            assert(groups.val_seq() =~= old(groups).val_seq());
            assert(groups.has(key));
        }
    }
    proof {
        groups.lemma_wf_props();
    }
    let ghost m1 = *groups;
    let ghost p = m1.pos(key);
    match groups.ref_mut_value(key) {
        Option::Some(node) => {
            apply_mid(&mut node.mids, row.mid, row.leaf);
        },
        Option::None => {
            proof {
                assert(false);
            }
        },
    }
    proof {
        assert(0 <= p < m1.key_seq().len() && m1.key_seq()[p] == key);
        let nv = groups.val_seq()[p];
        assert(groups.val_seq() == m1.val_seq().update(p, nv));
        assert(nv.key == m1.val_seq()[p].key);
        assert(nv.data == m1.val_seq()[p].data);
        assert(mids_view(nv.mids) == mids_step(
            mids_view(m1.val_seq()[p].mids),
            row.mid,
            row.leaf,
        ));
        assert(nv.wf());
        if absent {
            assert(m1.key_seq() == ks0.push(key));
            if p < ks0.len() {
                assert(ks0[p] == key);
                assert(old(groups).has(key));
            }
            assert(p == ks0.len());
            assert(m1.val_seq() =~= old(groups).val_seq().push(m1.val_seq()[p]));
            assert(m1.val_seq()[p].key == key);
            assert(m1.val_seq()[p].data == row.root);
            assert(mids_view(m1.val_seq()[p].mids) =~= Seq::<SpecMid<M, L>>::empty());
            assert(!root_keys(v0).contains(key));
            let target = v0.push(
                SpecRoot { key, data: row.root, mids: mids_step(Seq::empty(), row.mid, row.leaf) },
            );
            assert forall|i: int| 0 <= i < groups.val_seq().len() implies roots_view(
                *groups,
            )[i] == target[i] by {
                if i < p {
                    assert(groups.val_seq()[i] == old(groups).val_seq()[i]);
                } else {
                    assert(mids_view(nv.mids) == mids_step(
                        Seq::empty(),
                        row.mid,
                        row.leaf,
                    ));
                }
            }
            assert(roots_view(*groups) =~= target);
            assert(roots_view(*groups) == roots_step(v0, row));
        } else {
            assert(m1.key_seq() == ks0);
            assert(m1.val_seq() =~= old(groups).val_seq());
            assert(root_keys(v0) =~= ks0);
            assert(root_keys(v0).contains(key));
            let p2 = root_keys(v0).index_of(key);
            assert(0 <= p2 < root_keys(v0).len() && root_keys(v0)[p2] == key);
            assert(ks0[p2] == key);
            assert(old(groups).key_seq()[old(groups).pos(key)] == key);
            assert(p2 == p);
            assert(v0[p] == m1.val_seq()[p]@);
            let target = v0.update(
                p,
                SpecRoot {
                    key,
                    data: v0[p].data,
                    mids: mids_step(v0[p].mids, row.mid, row.leaf),
                },
            );
            assert forall|i: int| 0 <= i < groups.val_seq().len() implies roots_view(
                *groups,
            )[i] == target[i] by {
                if i != p {
                    assert(groups.val_seq()[i] == old(groups).val_seq()[i]);
                }
            }
            assert(roots_view(*groups) =~= target);
            assert(roots_view(*groups) == roots_step(v0, row));
        }
        assert forall|i: int| 0 <= i < groups.val_seq().len() implies (
        #[trigger] groups.val_seq()[i]).key == groups.key_seq()[i]
            && groups.val_seq()[i].wf() by {
            if i != p {
                assert(groups.val_seq()[i] == old(groups).val_seq()[i]);
                assert(groups.key_seq()[i] == ks0[i]);
            }
        }
    }
}

/// Reverses a vector, so that a sequence can be consumed front to back by
/// popping.
pub(crate) fn reversed<T>(v: Vec<T>) -> (out: Vec<T>)
    ensures
        out@ == v@.reverse(),
{
    let mut v = v;
    let mut out: Vec<T> = Vec::new();
    let ghost all = v@;
    while v.len() > 0
        invariant
            all.len() == v@.len() + out@.len(),
            v@ == all.subrange(0, v@.len() as int),
            forall|i: int| 0 <= i < out@.len() ==> #[trigger] out@[i] == all[all.len() - 1 - i],
        decreases v.len(),
    {
        let x = v.pop().unwrap();
        out.push(x);
        proof {
            assert(v@ =~= all.subrange(0, v@.len() as int));
        }
    }
    proof {
        assert(out@ =~= all.reverse());
    }
    out
}

/// Converts a finite row sequence into the ordered forest of fully populated
/// root entities: one pass, grouping by key, first-seen order, no pre-sort.
pub fn aggregate<R, M, L>(rows: Vec<SourceRow<R, M, L>>) -> (out: Vec<RootNode<R, M, L>>)
    ensures
        out@.map_values(|n: RootNode<R, M, L>| n@) == materialize(rows@),
        forall|i: int| 0 <= i < out@.len() ==> (#[trigger] out@[i]).wf(),
{
    let ghost all = rows@;
    let mut rows = reversed(rows);
    let ghost mut done: Seq<SourceRow<R, M, L>> = Seq::empty();
    let mut groups: Dict<Key, RootNode<R, M, L>> = Dict::new();
    proof {
        assert(roots_view(groups) =~= materialize(done));
    }
    while rows.len() > 0
        invariant
            done.len() + rows@.len() == all.len(),
            rows@ == all.subrange(done.len() as int, all.len() as int).reverse(),
            done == all.subrange(0, done.len() as int),
            roots_ok(groups),
            roots_view(groups) == materialize(done),
        decreases rows.len(),
    {
        let row = rows.pop().unwrap();
        proof {
            assert(row == all[done.len() as int]);
        }
        apply_row(&mut groups, row);
        proof {
            let done2 = done.push(row);
            assert(done2.drop_last() =~= done);
            assert(materialize(done2) == roots_step(materialize(done), row));
            assert(done2 =~= all.subrange(0, done2.len() as int));
            assert(rows@ =~= all.subrange(done2.len() as int, all.len() as int).reverse());
            done = done2;
        }
    }
    proof {
        assert(done =~= all);
    }
    let out = groups.values();
    proof {
        assert(out@.map_values(|n: RootNode<R, M, L>| n@) == roots_view(groups));
    }
    out
}

} // verus!
