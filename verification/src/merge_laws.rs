//! What holds of the root tree and of the refs after merges.

use vstd::prelude::*;
use crate::engine::{replace_child, rewrite_error, rewritten, rewritten_root, top_id};
use crate::errors::MonoError;

use crate::path::is_prefix;
use crate::resolver::{child_of, descend, entry_at};
use crate::seqs::{
    find_where, first_where, is_first_where, lemma_filter_from, lemma_filter_kept,
    lemma_first_where, lemma_first_where_at, lemma_first_where_is,
};
use crate::service::{
    addressed_trees, chain_items, merge_chain, merge_error, merged, root_commit, update_error,
    updated,
};
use crate::store::{
    accepts, agree, at_path, find_row, has_id, insert_row, installable, not_above, numbered,
    outside, replace_ref, save_all, tree_row, RefView, RowView, StoreView,
};
use crate::tree::{
    items_bytes, lemma_parse_items_round, lemma_position_is, lemma_position_of, position_of,
    TreeItemView, TreeView,
};

verus! {

/// Pointing a child at another identifier moves no entry and renames none:
/// every name keeps its place.
pub proof fn lemma_replace_child_position(
    items: Seq<TreeItemView>,
    name: Seq<u8>,
    id: Seq<u8>,
    other: Seq<u8>,
)
    ensures
        replace_child(items, name, id).len() == items.len(),
        position_of(replace_child(items, name, id), other) == position_of(items, other),
{
    let after = replace_child(items, name, id);
    lemma_position_of(items, name);
    lemma_position_of(items, other);
    let p = position_of(items, other);
    assert forall|j: int| 0 <= j < after.len() implies after[j].name == items[j].name by {}
    lemma_position_is(after, other, p);
}

/// After a child has been pointed at `id`, its name stands for `id`, and
/// every other name stands for what it stood for.
pub proof fn lemma_replace_child(items: Seq<TreeItemView>, name: Seq<u8>, id: Seq<u8>, other: Seq<u8>)
    requires
        child_of(items, name) is Ok,
    ensures
        child_of(replace_child(items, name, id), name) == Ok::<Seq<u8>, MonoError>(id),
        other != name ==> child_of(replace_child(items, name, id), other) == child_of(items, other),
{
    lemma_replace_child_position(items, name, id, name);
    lemma_replace_child_position(items, name, id, other);
    lemma_position_of(items, name);
    lemma_position_of(items, other);
}

/// Taking elements out of a sequence does not change which is the first
/// with a property, where every element with the property stays.
pub proof fn lemma_find_in_filter<T>(s: Seq<T>, keep: spec_fn(T) -> bool, f: spec_fn(T) -> bool)
    requires
        forall|i: int| 0 <= i < s.len() ==> (f(#[trigger] s[i]) ==> keep(s[i])),
    ensures
        find_where(s.filter(keep), f) == find_where(s, f),
    decreases s.len(),
{
    reveal(Seq::filter);
    lemma_first_where(s, f);
    lemma_first_where(s.filter(keep), f);
    if s.len() > 0 {
        let t = s.drop_last();
        let x = s.last();
        let tf = t.filter(keep);
        assert forall|i: int| 0 <= i < t.len() && f(#[trigger] t[i]) implies keep(t[i]) by {
            assert(t[i] == s[i]);
        }
        assert(f(x) ==> keep(x)) by {
            assert(x == s[s.len() - 1]);
        }
        lemma_find_in_filter(t, keep, f);
        lemma_first_where(t, f);
        lemma_first_where(tf, f);
        let i = first_where(t, f);
        let k = first_where(tf, f);
        if i < t.len() {
            assert(k < tf.len());
            assert(is_first_where(s, f, i)) by {
                assert forall|j: int| 0 <= j < i implies !f(s[j]) by {
                    assert(s[j] == t[j]);
                    assert(!f(t[j]));
                }
                assert(s[i] == t[i]);
            }
            lemma_first_where_at(s, f, i);
            let sf = s.filter(keep);
            assert(is_first_where(sf, f, k)) by {
                assert forall|j: int| 0 <= j < k implies !f(sf[j]) by {
                    assert(sf[j] == tf[j]);
                    assert(!f(tf[j]));
                }
                assert(sf[k] == tf[k]);
            }
            lemma_first_where_at(sf, f, k);
        } else {
            assert(k == tf.len());
            let sf = s.filter(keep);
            assert forall|j: int| 0 <= j < t.len() implies !f(#[trigger] s[j]) by {
                assert(s[j] == t[j]);
                assert(!f(t[j]));
            }
            assert forall|j: int| 0 <= j < tf.len() implies !f(#[trigger] sf[j]) by {
                assert(sf[j] == tf[j]);
                assert(!f(tf[j]));
            }
            if f(x) {
                assert(keep(x));
                assert(s[t.len() as int] == x);
                assert(sf[tf.len() as int] == x);
                lemma_first_where_is(s, f, t.len() as int);
                lemma_first_where_is(sf, f, tf.len() as int);
            } else {
                assert forall|j: int| 0 <= j < s.len() implies !f(#[trigger] s[j]) by {
                    if j == t.len() {
                        assert(s[j] == x);
                    }
                }
                lemma_first_where_is(s, f, s.len() as int);
                assert forall|j: int| 0 <= j < sf.len() implies !f(#[trigger] sf[j]) by {
                    if j >= tf.len() {
                        assert(sf[j] == x);
                    }
                }
                lemma_first_where_is(sf, f, sf.len() as int);
            }
        }
    } else {
        assert(s.filter(keep) =~= s);
    }
}

/// A ref that takes the place of the ref of its path is the ref of its
/// path afterwards.
pub proof fn lemma_replace_ref(refs: Seq<RefView>, r: RefView)
    requires
        find_where(refs, at_path(r.path)) is Some,
    ensures
        find_where(replace_ref(refs, r), at_path(r.path)) == Some(r),
{
    let f = at_path(r.path);
    lemma_first_where(refs, f);
    let i = first_where(refs, f);
    let after = replace_ref(refs, r);
    assert(is_first_where(after, f, i)) by {
        assert forall|j: int| 0 <= j < i implies !f(after[j]) by {
            assert(after[j] == refs[j]);
        }
    }
    lemma_first_where_at(after, f, i);
}

/// A row that a table holds is still what the table holds under its
/// identifier after another row has been added.
pub proof fn lemma_insert_row_keeps(rows: Seq<RowView>, row: RowView, id: Seq<u8>)
    requires
        find_row(rows, id) is Some,
    ensures
        find_row(insert_row(rows, row), id) == find_row(rows, id),
{
    let f = has_id(id);
    lemma_first_where(rows, f);
    let i = first_where(rows, f);
    let after = insert_row(rows, row);
    assert(is_first_where(after, f, i)) by {
        assert forall|j: int| 0 <= j < i implies !f(after[j]) by {
            assert(after[j] == rows[j]);
        }
        assert(after[i] == rows[i]);
    }
    lemma_first_where_at(after, f, i);
}

/// A row that a table holds is still what the table holds under its
/// identifier after trees have been stored.
pub proof fn lemma_save_all_keeps(
    rows: Seq<RowView>,
    trees: Seq<TreeView>,
    stamp: Option<Seq<u8>>,
    id: Seq<u8>,
)
    requires
        find_row(rows, id) is Some,
    ensures
        find_row(save_all(rows, trees, stamp), id) == find_row(rows, id),
    decreases trees.len(),
{
    if trees.len() > 0 {
        lemma_save_all_keeps(rows, trees.drop_last(), stamp, id);
        lemma_insert_row_keeps(
            save_all(rows, trees.drop_last(), stamp),
            tree_row(trees.last(), stamp),
            id,
        );
    }
}

/// Whether every tree of `s` is a tree of `t`, under the same identifier
/// and with the same entries.
pub open spec fn trees_kept(s: StoreView, t: StoreView) -> bool {
    forall|id: Seq<u8>| (#[trigger] s.tree(id)) is Some ==> t.tree(id) == s.tree(id)
}

/// What stands at a path below a tree still stands there in a store that
/// has kept every tree.
pub proof fn lemma_entry_at_kept(s: StoreView, t: StoreView, id: Seq<u8>, comps: Seq<Seq<u8>>)
    requires
        trees_kept(s, t),
        entry_at(s, id, comps) is Some,
    ensures
        entry_at(t, id, comps) == entry_at(s, id, comps),
    decreases comps.len(),
{
    if comps.len() > 0 {
        assert(s.tree(id) is Some);
        let items = s.tree(id)->0;
        let child = child_of(items, comps[0])->Ok_0;
        lemma_entry_at_kept(s, t, child, comps.skip(1));
    }
}

/// Whether the store holds each tree of the list under its identifier.
pub open spec fn installs(s: StoreView, trees: Seq<TreeView>) -> bool {
    forall|i: int| 0 <= i < trees.len() ==> s.tree((#[trigger] trees[i]).id) == Some(trees[i].items)
}

/// In a store that holds the rewritten trees, the path leads from the
/// rewritten root tree to the new identifier.
pub proof fn lemma_rewritten_entry(
    t: StoreView,
    anc: Seq<Seq<TreeItemView>>,
    comps: Seq<Seq<u8>>,
    new_id: Seq<u8>,
)
    requires
        rewrite_error(anc, comps) is None,
        installs(t, addressed_trees(rewritten(anc, comps, new_id))),
    ensures
        entry_at(t, rewritten_root(anc, comps, new_id), comps) == Some(new_id),
    decreases anc.len(),
{
    if anc.len() > 0 {
        let rest = rewritten(anc.skip(1), comps.skip(1), new_id);
        let below = top_id(rest, new_id);
        let b0 = replace_child(anc[0], comps[0], below);
        let all = rewritten(anc, comps, new_id);
        assert(all == rest.push(b0));
        let trees = addressed_trees(all);
        assert(trees[all.len() - 1].items == b0);
        assert(t.tree(trees[all.len() - 1].id) == Some(b0));
        lemma_replace_child(anc[0], comps[0], below, comps[0]);
        assert forall|i: int| 0 <= i < addressed_trees(rest).len() implies t.tree(
            (#[trigger] addressed_trees(rest)[i]).id,
        ) == Some(addressed_trees(rest)[i].items) by {
            assert(addressed_trees(rest)[i] == trees[i]);
        }
        lemma_rewritten_entry(t, anc.skip(1), comps.skip(1), new_id);
    }
}

/// Whether `anc` is the chain of trees that `comps` leads through from
/// the tree `id`: each is in the store, and each holds a tree under its
/// component.
pub open spec fn chain_ok(
    s: StoreView,
    id: Seq<u8>,
    anc: Seq<Seq<TreeItemView>>,
    comps: Seq<Seq<u8>>,
) -> bool
    decreases anc.len(),
{
    anc.len() == comps.len() && (anc.len() == 0 || (s.tree(id) == Some(anc[0]) && child_of(
        anc[0],
        comps[0],
    ) is Ok && chain_ok(s, child_of(anc[0], comps[0])->Ok_0, anc.skip(1), comps.skip(1))))
}

/// Whether two paths part: at some place both have a component, and the
/// components differ. Neither leads to the other then.
pub open spec fn diverge(p: Seq<Seq<u8>>, q: Seq<Seq<u8>>) -> bool {
    exists|j: int| 0 <= j < p.len() && j < q.len() && #[trigger] p[j] != q[j]
}

/// What stood at a path that parts from the rewritten path stands there
/// below the rewritten root tree too.
pub proof fn lemma_rewritten_other(
    s: StoreView,
    t: StoreView,
    id: Seq<u8>,
    anc: Seq<Seq<TreeItemView>>,
    comps: Seq<Seq<u8>>,
    new_id: Seq<u8>,
    q: Seq<Seq<u8>>,
)
    requires
        chain_ok(s, id, anc, comps),
        trees_kept(s, t),
        installs(t, addressed_trees(rewritten(anc, comps, new_id))),
        diverge(comps, q),
        entry_at(s, id, q) is Some,
    ensures
        entry_at(t, rewritten_root(anc, comps, new_id), q) == entry_at(s, id, q),
    decreases anc.len(),
{
    let j = choose|j: int| 0 <= j < comps.len() && j < q.len() && #[trigger] comps[j] != q[j];
    let rest = rewritten(anc.skip(1), comps.skip(1), new_id);
    let below = top_id(rest, new_id);
    let b0 = replace_child(anc[0], comps[0], below);
    let all = rewritten(anc, comps, new_id);
    assert(all == rest.push(b0));
    let trees = addressed_trees(all);
    assert(trees[all.len() - 1].items == b0);
    assert(t.tree(trees[all.len() - 1].id) == Some(b0));
    lemma_replace_child(anc[0], comps[0], below, q[0]);
    let child = child_of(anc[0], q[0])->Ok_0;
    if q[0] != comps[0] {
        lemma_entry_at_kept(s, t, child, q.skip(1));
    } else {
        assert(j > 0);
        assert(comps.skip(1)[j - 1] == comps[j]);
        assert(q.skip(1)[j - 1] == q[j]);
        assert(diverge(comps.skip(1), q.skip(1)));
        assert forall|i: int| 0 <= i < addressed_trees(rest).len() implies t.tree(
            (#[trigger] addressed_trees(rest)[i]).id,
        ) == Some(addressed_trees(rest)[i].items) by {
            assert(addressed_trees(rest)[i] == trees[i]);
        }
        lemma_rewritten_other(s, t, child, anc.skip(1), comps.skip(1), new_id, q.skip(1));
    }
}

/// The trees that walking down a path's parent leads through are the
/// chain of the path, where the last of them holds a tree under the
/// path's last component.
pub proof fn lemma_chain_of_descent(
    s: StoreView,
    id: Seq<u8>,
    comps: Seq<Seq<u8>>,
    ids: Seq<Seq<u8>>,
)
    requires
        comps.len() > 0,
        descend(s, id, comps.drop_last()) == Ok::<Seq<Seq<u8>>, MonoError>(ids),
        rewrite_error(chain_items(s, ids), comps) is None,
    ensures
        chain_ok(s, id, chain_items(s, ids), comps),
    decreases comps.len(),
{
    let above = comps.drop_last();
    let anc = chain_items(s, ids);
    let items = s.tree(id)->0;
    assert(anc.len() == comps.len());
    assert(rewrite_error(anc.skip(1), comps.skip(1)) is None);
    assert(child_of(anc[0], comps[0]) is Ok);
    if above.len() == 0 {
        assert(ids == seq![id]);
        assert(anc[0] == items);
        assert(anc.skip(1).len() == 0);
        assert(comps.skip(1).len() == 0);
        assert(chain_ok(s, child_of(anc[0], comps[0])->Ok_0, anc.skip(1), comps.skip(1)));
    } else {
        let child = child_of(items, above[0])->Ok_0;
        let rest = descend(s, child, above.skip(1))->Ok_0;
        assert(ids == seq![id] + rest);
        assert(ids[0] == id);
        assert(anc[0] == items);
        assert(anc.skip(1) =~= chain_items(s, rest)) by {
            assert forall|i: int| 0 <= i < rest.len() implies anc.skip(1)[i] == chain_items(
                s,
                rest,
            )[i] by {
                assert(ids[i + 1] == rest[i]);
            }
        }
        assert(comps.skip(1).drop_last() =~= above.skip(1));
        assert(comps[0] == above[0]);
        lemma_chain_of_descent(s, child, comps.skip(1), rest);
        assert(child_of(anc[0], comps[0])->Ok_0 == child);
    }
}

/// The path of the merge request `mr_id`.
pub open spec fn merged_path(s: StoreView, mr_id: i64) -> Seq<Seq<u8>> {
    find_where(s.mrs, numbered(mr_id))->0.path
}

/// The tree of the commit that the merge request `mr_id` brings.
pub open spec fn merged_tree(s: StoreView, mr_id: i64) -> Seq<u8> {
    s.commit(find_where(s.mrs, numbered(mr_id))->0.to_hash)->0.tree_id
}

/// The trees that merging the merge request `mr_id` rewrites, each under
/// the identifier that its entries give.
pub open spec fn new_trees(s: StoreView, mr_id: i64) -> Seq<TreeView> {
    addressed_trees(
        rewritten(
            chain_items(s, merge_chain(s, merged_path(s, mr_id))->Ok_0),
            merged_path(s, mr_id),
            merged_tree(s, mr_id),
        ),
    )
}

/// What stands at `q` below the root's tree.
pub open spec fn root_entry(s: StoreView, q: Seq<Seq<u8>>) -> Option<Seq<u8>> {
    match s.ref_at(Seq::empty()) {
        None => None,
        Some(r) => entry_at(s, r.ref_tree_hash, q),
    }
}

/// Whether a ref is the root's or stands for a path that neither leads to
/// `p` nor is led to by `p`.
pub open spec fn clear_of(r: RefView, p: Seq<Seq<u8>>) -> bool {
    r.path.len() == 0 || !(is_prefix(r.path, p) || is_prefix(p, r.path))
}

/// After a merge the root's ref stands at the rewritten root tree, and
/// every tree that the store held it still holds.
pub proof fn lemma_merged_root(s: StoreView, mr_id: i64, comment: Option<Seq<u8>>)
    requires
        merge_error(s, mr_id) is None,
    ensures
        merged(s, mr_id, comment).ref_at(Seq::empty()) is Some,
        merged(s, mr_id, comment).ref_at(Seq::empty())->0.ref_tree_hash == rewritten_root(
            chain_items(s, merge_chain(s, merged_path(s, mr_id))->Ok_0),
            merged_path(s, mr_id),
            merged_tree(s, mr_id),
        ),
        trees_kept(s, merged(s, mr_id, comment)),
        forall|i: int|
            0 <= i < merged(s, mr_id, comment).refs.len() ==> clear_of(
                #[trigger] merged(s, mr_id, comment).refs[i],
                merged_path(s, mr_id),
            ),
{
    let p = merged_path(s, mr_id);
    let c = s.commit(find_where(s.mrs, numbered(mr_id))->0.to_hash)->0;
    let anc = chain_items(s, merge_chain(s, p)->Ok_0);
    let t = merged(s, mr_id, comment);
    let root = Seq::<Seq<u8>>::empty();
    assert(update_error(s, anc, p, c.tree_id) is None);
    let old_root = s.ref_at(root)->0;
    let root_tree = rewritten_root(anc, p, c.tree_id);
    let rc = root_commit(old_root, c, root_tree);
    let new_root = RefView { ref_commit_hash: rc.id, ref_tree_hash: root_tree, ..old_root };
    lemma_first_where(s.refs, at_path(root));
    assert(old_root.path == root);
    let r1 = replace_ref(s.refs, new_root);
    lemma_replace_ref(s.refs, new_root);
    let r2 = r1.filter(not_above(p));
    assert forall|i: int| 0 <= i < r1.len() && at_path(root)(#[trigger] r1[i]) implies not_above(
        p,
    )(r1[i]) by {}
    lemma_find_in_filter(r1, not_above(p), at_path(root));
    let r3 = r2.filter(outside(p));
    assert forall|i: int| 0 <= i < r2.len() && at_path(root)(#[trigger] r2[i]) implies outside(p)(
        r2[i],
    ) by {}
    lemma_find_in_filter(r2, outside(p), at_path(root));
    assert(t.refs == r3);
    assert(t.ref_at(root) == Some(new_root));
    assert forall|id: Seq<u8>| (#[trigger] s.tree(id)) is Some implies t.tree(id) == s.tree(
        id,
    ) by {
        lemma_save_all_keeps(s.trees, addressed_trees(rewritten(anc, p, c.tree_id)), Some(rc.id), id);
    }
    lemma_filter_kept(r2, outside(p));
    lemma_filter_from(r2, outside(p));
    lemma_filter_kept(r1, not_above(p));
    assert forall|i: int| 0 <= i < r3.len() implies clear_of(#[trigger] r3[i], p) by {
        let r = r3[i];
        assert(outside(p)(r));
        assert(r2.contains(r));
        let j = choose|j: int| 0 <= j < r2.len() && r2[j] == r;
        assert(not_above(p)(r2[j]));
        if r.path.len() != 0 && is_prefix(r.path, p) {
            if r.path.len() == p.len() {
                assert(p.take(p.len() as int) =~= p);
                assert(r.path == p);
                assert(is_prefix(p, r.path));
            }
        }
    }
}

/// What a table holds under an identifier after trees have been stored
/// is what it held there before, or the row of one of the trees with that
/// identifier; and it holds nothing there only where it held nothing and
/// no tree has the identifier.
pub proof fn lemma_save_all_row(
    rows: Seq<RowView>,
    trees: Seq<TreeView>,
    stamp: Option<Seq<u8>>,
    id: Seq<u8>,
)
    ensures
        match find_row(save_all(rows, trees, stamp), id) {
            None => find_row(rows, id) is None && forall|j: int|
                0 <= j < trees.len() ==> (#[trigger] trees[j]).id != id,
            Some(r) => find_row(rows, id) == Some(r) || exists|j: int|
                0 <= j < trees.len() && (#[trigger] trees[j]).id == id && r == tree_row(
                    trees[j],
                    stamp,
                ),
        },
    decreases trees.len(),
{
    if trees.len() > 0 {
        let front = trees.drop_last();
        let last = trees.last();
        lemma_save_all_row(rows, front, stamp, id);
        let mid = save_all(rows, front, stamp);
        let row = tree_row(last, stamp);
        let after = insert_row(mid, row);
        assert(last == trees[trees.len() - 1]);
        match find_row(mid, id) {
            Some(r) => {
                lemma_insert_row_keeps(mid, row, id);
                if find_row(rows, id) != Some(r) {
                    let j = choose|j: int|
                        0 <= j < front.len() && (#[trigger] front[j]).id == id && r == tree_row(
                            front[j],
                            stamp,
                        );
                    assert(trees[j] == front[j]);
                }
            },
            None => {
                lemma_first_where(mid, has_id(id));
                lemma_first_where(mid, has_id(last.id));
                assert forall|j: int| 0 <= j < front.len() implies (#[trigger] trees[j]).id
                    != id by {
                    assert(trees[j] == front[j]);
                }
                if first_where(mid, has_id(last.id)) < mid.len() {
                    assert(last.id != id) by {
                        let k = first_where(mid, has_id(last.id));
                        if last.id == id {
                            assert(has_id(id)(mid[k]));
                        }
                    }
                } else {
                    assert(after == mid.push(row));
                    if last.id == id {
                        assert forall|j: int| 0 <= j < mid.len() implies !has_id(id)(
                            #[trigger] after[j],
                        ) by {
                            assert(after[j] == mid[j]);
                        }
                        assert(after[mid.len() as int] == row);
                        lemma_first_where_is(after, has_id(id), mid.len() as int);
                    } else {
                        assert forall|j: int| 0 <= j < after.len() implies !has_id(id)(
                            #[trigger] after[j],
                        ) by {
                            if j < mid.len() {
                                assert(after[j] == mid[j]);
                            }
                        }
                        lemma_first_where_is(after, has_id(id), after.len() as int);
                    }
                }
            },
        }
    }
}

/// A table that can hold each tree of a list holds each of them, once
/// they have been stored, under its identifier.
pub proof fn lemma_installable_installs(
    s: StoreView,
    t: StoreView,
    trees: Seq<TreeView>,
    stamp: Option<Seq<u8>>,
)
    requires
        installable(s.trees, trees),
        t.trees == save_all(s.trees, trees, stamp),
    ensures
        installs(t, trees),
{
    assert forall|i: int| 0 <= i < trees.len() implies t.tree((#[trigger] trees[i]).id) == Some(
        trees[i].items,
    ) by {
        let id = trees[i].id;
        lemma_save_all_row(s.trees, trees, stamp, id);
        let r = find_row(t.trees, id)->0;
        assert(accepts(s.trees, trees[i]));
        if find_row(s.trees, id) != Some(r) {
            let j = choose|j: int|
                0 <= j < trees.len() && (#[trigger] trees[j]).id == id && r == tree_row(
                    trees[j],
                    stamp,
                );
            if j < i {
                assert(agree(trees[j], trees[i]));
            } else if i < j {
                assert(agree(trees[i], trees[j]));
            }
        }
        assert(r.data == items_bytes(trees[i].items));
        lemma_parse_items_round(trees[i].items);
    }
}

/// After a merge the store holds each rewritten tree under its
/// identifier.
pub proof fn lemma_merged_installs(s: StoreView, mr_id: i64, comment: Option<Seq<u8>>)
    requires
        merge_error(s, mr_id) is None,
    ensures
        installs(merged(s, mr_id, comment), new_trees(s, mr_id)),
{
    let p = merged_path(s, mr_id);
    let c = s.commit(find_where(s.mrs, numbered(mr_id))->0.to_hash)->0;
    let anc = chain_items(s, merge_chain(s, p)->Ok_0);
    assert(update_error(s, anc, p, c.tree_id) is None);
    let old_root = s.ref_at(Seq::<Seq<u8>>::empty())->0;
    let rc = root_commit(old_root, c, rewritten_root(anc, p, c.tree_id));
    lemma_installable_installs(s, merged(s, mr_id, comment), new_trees(s, mr_id), Some(rc.id));
}

/// After a merge the root tree holds the merged commit's tree at the
/// merge request's path, and no ref but the root's is left for a path
/// that leads to that path or that it leads to.
pub proof fn lemma_merge_installs(s: StoreView, mr_id: i64, comment: Option<Seq<u8>>)
    requires
        merge_error(s, mr_id) is None,
    ensures
        root_entry(merged(s, mr_id, comment), merged_path(s, mr_id)) == Some(
            merged_tree(s, mr_id),
        ),
        forall|i: int|
            0 <= i < merged(s, mr_id, comment).refs.len() ==> clear_of(
                #[trigger] merged(s, mr_id, comment).refs[i],
                merged_path(s, mr_id),
            ),
{
    let p = merged_path(s, mr_id);
    let anc = chain_items(s, merge_chain(s, p)->Ok_0);
    lemma_merged_root(s, mr_id, comment);
    lemma_merged_installs(s, mr_id, comment);
    lemma_rewritten_entry(merged(s, mr_id, comment), anc, p, merged_tree(s, mr_id));
}

/// A merge leaves what stood at any path that parts from the merge
/// request's path where it stood.
pub proof fn lemma_merge_keeps(
    s: StoreView,
    mr_id: i64,
    comment: Option<Seq<u8>>,
    q: Seq<Seq<u8>>,
)
    requires
        merge_error(s, mr_id) is None,
        diverge(merged_path(s, mr_id), q),
        root_entry(s, q) is Some,
    ensures
        root_entry(merged(s, mr_id, comment), q) == root_entry(s, q),
{
    let p = merged_path(s, mr_id);
    let ids = merge_chain(s, p)->Ok_0;
    let anc = chain_items(s, ids);
    let root = Seq::<Seq<u8>>::empty();
    lemma_merged_root(s, mr_id, comment);
    lemma_merged_installs(s, mr_id, comment);
    let old_tree = s.ref_at(root)->0.ref_tree_hash;
    lemma_chain_of_descent(s, old_tree, p, ids);
    lemma_rewritten_other(
        s,
        merged(s, mr_id, comment),
        old_tree,
        anc,
        p,
        merged_tree(s, mr_id),
        q,
    );
}

/// After the trees above a path have been updated, the root's ref
/// stands at the rewritten root tree.
pub proof fn lemma_updated_root(
    s: StoreView,
    anc: Seq<Seq<TreeItemView>>,
    path: Seq<Seq<u8>>,
    c: crate::commit::CommitView,
)
    requires
        update_error(s, anc, path, c.tree_id) is None,
    ensures
        updated(s, anc, path, c).ref_at(Seq::empty()) is Some,
        updated(s, anc, path, c).ref_at(Seq::empty())->0.ref_tree_hash == rewritten_root(
            anc,
            path,
            c.tree_id,
        ),
{
    let root = Seq::<Seq<u8>>::empty();
    let old_root = s.ref_at(root)->0;
    let root_tree = rewritten_root(anc, path, c.tree_id);
    let rc = root_commit(old_root, c, root_tree);
    let new_root = RefView { ref_commit_hash: rc.id, ref_tree_hash: root_tree, ..old_root };
    lemma_first_where(s.refs, at_path(root));
    assert(old_root.path == root);
    let r1 = replace_ref(s.refs, new_root);
    lemma_replace_ref(s.refs, new_root);
    assert forall|i: int| 0 <= i < r1.len() && at_path(root)(#[trigger] r1[i]) implies not_above(
        path,
    )(r1[i]) by {}
    lemma_find_in_filter(r1, not_above(path), at_path(root));
}

/// The tree-update engine is deterministic: the root tree that an update
/// leaves depends on the chain of trees, the path and the new subtree
/// alone, whatever else the store holds and whatever else the commit
/// says.
pub proof fn lemma_root_tree_determined(
    s1: StoreView,
    s2: StoreView,
    anc: Seq<Seq<TreeItemView>>,
    path: Seq<Seq<u8>>,
    c1: crate::commit::CommitView,
    c2: crate::commit::CommitView,
)
    requires
        update_error(s1, anc, path, c1.tree_id) is None,
        update_error(s2, anc, path, c2.tree_id) is None,
        c1.tree_id == c2.tree_id,
    ensures
        updated(s1, anc, path, c1).ref_at(Seq::empty())->0.ref_tree_hash == updated(
            s2,
            anc,
            path,
            c2,
        ).ref_at(Seq::empty())->0.ref_tree_hash,
{
    lemma_updated_root(s1, anc, path, c1);
    lemma_updated_root(s2, anc, path, c2);
}

/// Every ref that is left after a merge is the root's or was there
/// before.
pub proof fn lemma_merged_refs_from(s: StoreView, mr_id: i64, comment: Option<Seq<u8>>)
    requires
        merge_error(s, mr_id) is None,
    ensures
        forall|i: int|
            0 <= i < merged(s, mr_id, comment).refs.len() ==> (#[trigger] merged(
                s,
                mr_id,
                comment,
            ).refs[i]).path.len() == 0 || s.refs.contains(merged(s, mr_id, comment).refs[i]),
{
    let p = merged_path(s, mr_id);
    let c = s.commit(find_where(s.mrs, numbered(mr_id))->0.to_hash)->0;
    let anc = chain_items(s, merge_chain(s, p)->Ok_0);
    let t = merged(s, mr_id, comment);
    let root = Seq::<Seq<u8>>::empty();
    let old_root = s.ref_at(root)->0;
    let root_tree = rewritten_root(anc, p, c.tree_id);
    let rc = root_commit(old_root, c, root_tree);
    let new_root = RefView { ref_commit_hash: rc.id, ref_tree_hash: root_tree, ..old_root };
    lemma_first_where(s.refs, at_path(root));
    let r1 = replace_ref(s.refs, new_root);
    let r2 = r1.filter(not_above(p));
    let r3 = r2.filter(outside(p));
    lemma_filter_from(r2, outside(p));
    lemma_filter_from(r1, not_above(p));
    assert forall|i: int| 0 <= i < r3.len() implies (#[trigger] r3[i]).path.len() == 0
        || s.refs.contains(r3[i]) by {
        let r = r3[i];
        assert(r2.contains(r));
        let j = choose|j: int| 0 <= j < r2.len() && r2[j] == r;
        assert(r1.contains(r2[j]));
        let k = choose|k: int| 0 <= k < r1.len() && r1[k] == r;
        if k != first_where(s.refs, at_path(root)) {
            assert(s.refs[k] == r);
        }
    }
}

/// Whether the store after the merge `i` of a run is what merging the
/// merge request `ids[i]` leaves of the store before it.
pub open spec fn merge_step(
    stores: Seq<StoreView>,
    ids: Seq<i64>,
    comments: Seq<Option<Seq<u8>>>,
    i: int,
) -> bool {
    &&& merge_error(stores[i], ids[i]) is None
    &&& stores[i + 1] == merged(stores[i], ids[i], comments[i])
}

/// Whether the stores are those of a run of merges: the first is the
/// store before the run, and each merge leaves the next.
pub open spec fn merge_run(
    stores: Seq<StoreView>,
    ids: Seq<i64>,
    comments: Seq<Option<Seq<u8>>>,
) -> bool {
    &&& stores.len() == ids.len() + 1
    &&& comments.len() == ids.len()
    &&& forall|i: int| 0 <= i < ids.len() ==> #[trigger] merge_step(stores, ids, comments, i)
}

/// The path of the merge `i` of a run.
pub open spec fn path_at(stores: Seq<StoreView>, ids: Seq<i64>, i: int) -> Seq<Seq<u8>> {
    merged_path(stores[i], ids[i])
}

/// Whether the paths of the merges of a run part from one another.
pub open spec fn parted(stores: Seq<StoreView>, ids: Seq<i64>) -> bool {
    forall|i: int, j: int|
        0 <= i < j < ids.len() ==> diverge(
            #[trigger] path_at(stores, ids, i),
            #[trigger] path_at(stores, ids, j),
        )
}

/// Two paths part whichever comes first.
pub proof fn lemma_diverge_symmetric(p: Seq<Seq<u8>>, q: Seq<Seq<u8>>)
    requires
        diverge(p, q),
    ensures
        diverge(q, p),
{
    let j = choose|j: int| 0 <= j < p.len() && j < q.len() && #[trigger] p[j] != q[j];
    assert(q[j] != p[j]);
}

/// After merges on paths that part from one another, in whatever order,
/// the root tree holds each merged commit's tree at its path: what the
/// merge `i` put there is there after every later merge `k`.
pub proof fn lemma_merges_install_all(
    stores: Seq<StoreView>,
    ids: Seq<i64>,
    comments: Seq<Option<Seq<u8>>>,
    i: int,
    k: int,
)
    requires
        merge_run(stores, ids, comments),
        parted(stores, ids),
        0 <= i < k <= ids.len(),
    ensures
        root_entry(stores[k], merged_path(stores[i], ids[i])) == Some(
            merged_tree(stores[i], ids[i]),
        ),
    decreases k - i,
{
    if k == i + 1 {
        assert(merge_step(stores, ids, comments, i));
        lemma_merge_installs(stores[i], ids[i], comments[i]);
    } else {
        lemma_merges_install_all(stores, ids, comments, i, k - 1);
        let q = path_at(stores, ids, i);
        let p = path_at(stores, ids, k - 1);
        assert(diverge(q, p));
        lemma_diverge_symmetric(q, p);
        assert(merge_step(stores, ids, comments, k - 1));
        lemma_merge_keeps(stores[k - 1], ids[k - 1], comments[k - 1], q);
    }
}

/// After merges, in whatever order, no ref but the root's is left for a
/// path that leads to a merged path or that a merged path leads to.
pub proof fn lemma_merges_leave_no_stale_ref(
    stores: Seq<StoreView>,
    ids: Seq<i64>,
    comments: Seq<Option<Seq<u8>>>,
    i: int,
    k: int,
)
    requires
        merge_run(stores, ids, comments),
        0 <= i < k <= ids.len(),
    ensures
        forall|j: int|
            0 <= j < stores[k].refs.len() ==> clear_of(
                #[trigger] stores[k].refs[j],
                merged_path(stores[i], ids[i]),
            ),
    decreases k - i,
{
    if k == i + 1 {
        assert(merge_step(stores, ids, comments, i));
        lemma_merged_root(stores[i], ids[i], comments[i]);
    } else {
        lemma_merges_leave_no_stale_ref(stores, ids, comments, i, k - 1);
        assert(merge_step(stores, ids, comments, k - 1));
        lemma_merged_refs_from(stores[k - 1], ids[k - 1], comments[k - 1]);
        let before = stores[k - 1].refs;
        assert forall|j: int| 0 <= j < stores[k].refs.len() implies clear_of(
            #[trigger] stores[k].refs[j],
            merged_path(stores[i], ids[i]),
        ) by {
            let r = stores[k].refs[j];
            if r.path.len() != 0 {
                assert(before.contains(r));
                let m = choose|m: int| 0 <= m < before.len() && before[m] == r;
                assert(clear_of(before[m], merged_path(stores[i], ids[i])));
            }
        }
    }
}

} // verus!
