//! Rewriting the trees above a changed subtree, from the deepest up to the
//! root.

use vstd::prelude::*;
use crate::errors::MonoError;
use crate::hash::ObjectId;
use crate::path::RepoPath;
use crate::resolver::{child_of, find_child};
use crate::tree::{items_view, position_of, tree_id_of, Tree, TreeItem, TreeItemView};

verus! {

/// The entries of a tree with the child named `name` pointing at `id`.
pub open spec fn replace_child(items: Seq<TreeItemView>, name: Seq<u8>, id: Seq<u8>) -> Seq<
    TreeItemView,
> {
    let i = position_of(items, name);
    if i < items.len() {
        items.update(i, TreeItemView { id, ..items[i] })
    } else {
        items
    }
}

/// The entries of a list of trees.
pub open spec fn trees_items(trees: Seq<Tree>) -> Seq<Seq<TreeItemView>> {
    Seq::new(trees.len(), |i: int| trees[i]@.items)
}

/// Why a chain of trees cannot be rewritten along `comps`: there must be
/// a tree for each component, and each tree must hold a tree under its
/// component. Of several failures the deepest counts.
pub open spec fn rewrite_error(anc: Seq<Seq<TreeItemView>>, comps: Seq<Seq<u8>>) -> Option<
    MonoError,
>
    decreases anc.len(),
{
    if anc.len() != comps.len() {
        Some(MonoError::PathNotFound)
    } else if anc.len() == 0 {
        None
    } else {
        match rewrite_error(anc.skip(1), comps.skip(1)) {
            Some(e) => Some(e),
            None => match child_of(anc[0], comps[0]) {
                Err(e) => Some(e),
                Ok(_) => None,
            },
        }
    }
}

/// The rewritten trees, deepest first: in each tree of the chain the
/// child named by its component points at the rewritten tree below it,
/// and in the deepest at `new_id`.
pub open spec fn rewritten(anc: Seq<Seq<TreeItemView>>, comps: Seq<Seq<u8>>, new_id: Seq<u8>) -> Seq<
    Seq<TreeItemView>,
>
    decreases anc.len(),
{
    if anc.len() == 0 || comps.len() == 0 {
        Seq::empty()
    } else {
        let rest = rewritten(anc.skip(1), comps.skip(1), new_id);
        rest.push(replace_child(anc[0], comps[0], top_id(rest, new_id)))
    }
}

/// The identifier of the last tree of the list, or `new_id` where the
/// list is empty.
pub open spec fn top_id(trees: Seq<Seq<TreeItemView>>, new_id: Seq<u8>) -> Seq<u8> {
    if trees.len() == 0 {
        new_id
    } else {
        tree_id_of(trees.last())
    }
}

/// The identifier of the rewritten root tree: a function of the chain,
/// the path and the new subtree's identifier alone.
pub open spec fn rewritten_root(
    anc: Seq<Seq<TreeItemView>>,
    comps: Seq<Seq<u8>>,
    new_id: Seq<u8>,
) -> Seq<u8> {
    top_id(rewritten(anc, comps, new_id), new_id)
}

/// Whether each tree of the list stands under the identifier that its
/// entries give.
pub open spec fn addressed(trees: Seq<Tree>) -> bool {
    forall|i: int| 0 <= i < trees.len() ==> (#[trigger] trees[i])@.id == tree_id_of(trees[i]@.items)
}

/// The tree `tree` with the child named `name` pointing at `id`, under the
/// identifier that the new entries give.
pub fn with_child(tree: &Tree, name: &[u8], id: ObjectId) -> (r: Result<Tree, MonoError>)
    ensures
        match r {
            Err(e) => child_of(tree@.items, name@) == Err::<Seq<u8>, MonoError>(e),
            Ok(t) => child_of(tree@.items, name@) is Ok && t@.items == replace_child(
                tree@.items,
                name@,
                id@,
            ) && t@.id == tree_id_of(t@.items),
        },
{
    match find_child(tree, name) {
        Err(e) => Err(e),
        Ok(_) => {
            let idx = match tree.position(name) {
                None => {
                    return Err(MonoError::PathNotFound);
                },
                Some(i) => i,
            };
            let mut items: Vec<TreeItem> = Vec::new();
            let mut i: usize = 0;
            let ghost want = replace_child(tree@.items, name@, id@);
            assert(items_view(items@) =~= want.take(0));
            while i < tree.tree_items.len()
                invariant
                    i <= tree.tree_items@.len(),
                    idx < tree.tree_items@.len(),
                    idx == position_of(tree@.items, name@),
                    want == replace_child(tree@.items, name@, id@),
                    items_view(items@) == want.take(i as int),
                decreases tree.tree_items@.len() - i,
            {
                let ghost before = items_view(items@);
                let mut it = tree.tree_items[i].copy();
                if i == idx {
                    it.id = id;
                }
                assert(it@ == want[i as int]);
                items.push(it);
                assert(items_view(items@) =~= before.push(want[i as int]));
                assert(items_view(items@) =~= want.take(i + 1));
                i += 1;
            }
            assert(want.take(i as int) =~= want);
            Ok(Tree::from_tree_items(items))
        },
    }
}

/// Rewrites the chain of trees `ancestors`, root first, along `path`, so
/// that the last component comes to stand for `new_id`. Gives the
/// rewritten trees, deepest first; the last of them is the new root tree.
pub fn rewrite_chain(ancestors: &Vec<Tree>, path: &RepoPath, new_id: ObjectId) -> (r: Result<
    Vec<Tree>,
    MonoError,
>)
    ensures
        match r {
            Err(e) => rewrite_error(trees_items(ancestors@), path@) == Some(e),
            Ok(trees) => rewrite_error(trees_items(ancestors@), path@) is None && trees_items(trees@)
                == rewritten(trees_items(ancestors@), path@, new_id@) && addressed(trees@)
                && trees@.len() == path@.len(),
        },
{
    let ghost anc = trees_items(ancestors@);
    let ghost comps = path@;
    let n = ancestors.len();
    if n != path.depth() {
        return Err(MonoError::PathNotFound);
    }
    let mut out: Vec<Tree> = Vec::new();
    let mut target = new_id;
    let mut i: usize = n;
    proof {
        assert(anc.skip(n as int) =~= Seq::<Seq<TreeItemView>>::empty());
        assert(comps.skip(n as int) =~= Seq::<Seq<u8>>::empty());
        assert(trees_items(out@) =~= Seq::<Seq<TreeItemView>>::empty());
    }
    while i > 0
        invariant
            i <= n,
            n == ancestors@.len(),
            n == path@.len(),
            anc == trees_items(ancestors@),
            comps == path@,
            out@.len() == n - i,
            rewrite_error(anc.skip(i as int), comps.skip(i as int)) is None,
            trees_items(out@) == rewritten(anc.skip(i as int), comps.skip(i as int), new_id@),
            target@ == top_id(trees_items(out@), new_id@),
            addressed(out@),
        decreases i,
    {
        let ghost here_a = anc.skip(i - 1);
        let ghost here_c = comps.skip(i - 1);
        proof {
            assert(here_a.skip(1) =~= anc.skip(i as int));
            assert(here_c.skip(1) =~= comps.skip(i as int));
            assert(here_a[0] == ancestors@[i - 1]@.items);
            assert(here_c[0] == path@[i - 1]);
            if child_of(here_a[0], here_c[0]) is Err {
                lemma_rewrite_error_suffix(anc, comps, i - 1);
            }
        }
        let t = match with_child(&ancestors[i - 1], path.components[i - 1].as_slice(), target) {
            Err(e) => {
                return Err(e);
            },
            Ok(t) => t,
        };
        let ghost before = out@;
        target = t.id;
        out.push(t);
        proof {
            assert(trees_items(out@) =~= trees_items(before).push(t@.items));
            assert forall|j: int| 0 <= j < out@.len() implies (#[trigger] out@[j])@.id
                == tree_id_of(out@[j]@.items) by {
                if j < before.len() {
                    assert(out@[j] == before[j]);
                }
            }
        }
        i -= 1;
    }
    proof {
        assert(anc.skip(0) =~= anc);
        assert(comps.skip(0) =~= comps);
    }
    Ok(out)
}

/// A failure in the lower part of a chain is the failure of the whole
/// chain.
pub proof fn lemma_rewrite_error_suffix(
    anc: Seq<Seq<TreeItemView>>,
    comps: Seq<Seq<u8>>,
    i: int,
)
    requires
        0 <= i <= anc.len(),
        anc.len() == comps.len(),
        rewrite_error(anc.skip(i), comps.skip(i)) is Some,
    ensures
        rewrite_error(anc, comps) == rewrite_error(anc.skip(i), comps.skip(i)),
    decreases i,
{
    if i == 0 {
        assert(anc.skip(0) =~= anc);
        assert(comps.skip(0) =~= comps);
    } else {
        assert(anc.skip(i - 1).skip(1) =~= anc.skip(i));
        assert(comps.skip(i - 1).skip(1) =~= comps.skip(i));
        lemma_rewrite_error_suffix(anc, comps, i - 1);
    }
}

} // verus!
