//! Walking a path from the root tree down to the tree it names.

use vstd::prelude::*;
use crate::errors::MonoError;
use crate::hash::ObjectId;
use crate::path::RepoPath;
use crate::store::{ObjectStore, StoreView};
use crate::tree::{position_of, Tree, TreeItemMode, TreeItemView};

verus! {

/// The identifier of the child that `name` stands for in a tree: the
/// first entry of that name, which must be a tree.
pub open spec fn child_of(items: Seq<TreeItemView>, name: Seq<u8>) -> Result<Seq<u8>, MonoError> {
    let i = position_of(items, name);
    if i >= items.len() {
        Err(MonoError::PathNotFound)
    } else if items[i].mode != TreeItemMode::Tree {
        Err(MonoError::PathNotDirectory)
    } else {
        Ok(items[i].id)
    }
}

/// The identifiers of the trees from the tree `id` down along `comps`,
/// `id` first and the tree that the last component names last. Each of
/// them must be in the store.
pub open spec fn descend(s: StoreView, id: Seq<u8>, comps: Seq<Seq<u8>>) -> Result<
    Seq<Seq<u8>>,
    MonoError,
>
    decreases comps.len(),
{
    match s.tree(id) {
        None => Err(MonoError::PathNotFound),
        Some(items) => if comps.len() == 0 {
            Ok(seq![id])
        } else {
            match child_of(items, comps[0]) {
                Err(e) => Err(e),
                Ok(child) => match descend(s, child, comps.skip(1)) {
                    Err(e) => Err(e),
                    Ok(rest) => Ok(seq![id] + rest),
                },
            }
        },
    }
}

/// The identifiers of the trees from the root's tree down along `path`.
pub open spec fn resolve(s: StoreView, path: Seq<Seq<u8>>) -> Result<Seq<Seq<u8>>, MonoError> {
    match s.ref_at(Seq::empty()) {
        None => Err(MonoError::PathNotFound),
        Some(r) => descend(s, r.ref_tree_hash, path),
    }
}

/// The identifier that stands at `comps` below the tree `id`: `id` itself
/// for no component, else what the last component names in the tree that
/// the components before it lead to.
pub open spec fn entry_at(s: StoreView, id: Seq<u8>, comps: Seq<Seq<u8>>) -> Option<Seq<u8>>
    decreases comps.len(),
{
    if comps.len() == 0 {
        Some(id)
    } else {
        match s.tree(id) {
            None => None,
            Some(items) => match child_of(items, comps[0]) {
                Err(_) => None,
                Ok(child) => entry_at(s, child, comps.skip(1)),
            },
        }
    }
}

/// The identifiers of a list of trees.
pub open spec fn tree_ids(trees: Seq<Tree>) -> Seq<Seq<u8>> {
    Seq::new(trees.len(), |i: int| trees[i]@.id)
}

/// Whether each tree of the list is what the store holds under its
/// identifier.
pub open spec fn stored(s: StoreView, trees: Seq<Tree>) -> bool {
    forall|i: int| 0 <= i < trees.len() ==> s.tree((#[trigger] trees[i])@.id) == Some(trees[i]@.items)
}

/// What walking down a path gives: the trees above the target, root
/// first, and the target.
pub struct Resolved {
    pub ancestors: Vec<Tree>,
    pub target: Tree,
}

/// The child that `name` stands for in `tree`.
pub fn find_child(tree: &Tree, name: &[u8]) -> (r: Result<ObjectId, MonoError>)
    ensures
        match r {
            Err(e) => child_of(tree@.items, name@) == Err::<Seq<u8>, MonoError>(e),
            Ok(id) => child_of(tree@.items, name@) == Ok::<Seq<u8>, MonoError>(id@),
        },
{
    match tree.position(name) {
        None => Err(MonoError::PathNotFound),
        Some(i) => {
            assert(tree@.items[i as int] == tree.tree_items@[i as int]@);
            match tree.tree_items[i].mode {
                TreeItemMode::Tree => Ok(tree.tree_items[i].id),
                _ => Err(MonoError::PathNotDirectory),
            }
        },
    }
}

/// Walks from the tree `root` down along `path`.
pub fn descend_from(store: &ObjectStore, root: &ObjectId, path: &RepoPath) -> (r: Result<
    Resolved,
    MonoError,
>)
    ensures
        match r {
            Err(e) => descend(store@, root@, path@) == Err::<Seq<Seq<u8>>, MonoError>(e),
            Ok(found) => descend(store@, root@, path@) == Ok::<Seq<Seq<u8>>, MonoError>(
                tree_ids(found.ancestors@).push(found.target@.id),
            ) && found.ancestors@.len() == path@.len() && stored(store@, found.ancestors@)
                && store@.tree(found.target@.id) == Some(found.target@.items),
        },
{
    let mut cur = match store.get_tree(root) {
        None => {
            return Err(MonoError::PathNotFound);
        },
        Some(t) => t,
    };
    let mut ancestors: Vec<Tree> = Vec::new();
    let mut i: usize = 0;
    let n = path.depth();
    proof {
        assert(path@.skip(0) =~= path@);
        match descend(store@, cur@.id, path@.skip(0)) {
            Err(e) => {},
            Ok(rest) => {
                assert(tree_ids(ancestors@) + rest =~= rest);
            },
        }
    }
    while i < n
        invariant
            i <= n,
            n == path@.len(),
            ancestors@.len() == i,
            stored(store@, ancestors@),
            store@.tree(cur@.id) == Some(cur@.items),
            descend(store@, root@, path@) == (match descend(store@, cur@.id, path@.skip(i as int)) {
                Err(e) => Err::<Seq<Seq<u8>>, MonoError>(e),
                Ok(rest) => Ok::<Seq<Seq<u8>>, MonoError>(tree_ids(ancestors@) + rest),
            }),
        decreases n - i,
    {
        let ghost here = path@.skip(i as int);
        assert(here[0] == path@[i as int]);
        assert(here.skip(1) =~= path@.skip(i + 1));
        let child_id = match find_child(&cur, path.components[i].as_slice()) {
            Err(e) => {
                return Err(e);
            },
            Ok(id) => id,
        };
        let child = match store.get_tree(&child_id) {
            None => {
                assert(descend(store@, child_id@, here.skip(1)) == Err::<Seq<Seq<u8>>, MonoError>(
                    MonoError::PathNotFound,
                ));
                return Err(MonoError::PathNotFound);
            },
            Some(t) => t,
        };
        let ghost before = ancestors@;
        let ghost cur_id = cur@.id;
        ancestors.push(cur);
        cur = child;
        proof {
            assert(tree_ids(ancestors@) =~= tree_ids(before).push(cur_id));
            match descend(store@, cur@.id, path@.skip(i + 1)) {
                Err(e) => {},
                Ok(rest) => {
                    assert(tree_ids(before) + (seq![cur_id] + rest) =~= tree_ids(ancestors@)
                        + rest);
                },
            }
            assert forall|j: int| 0 <= j < ancestors@.len() implies store@.tree(
                (#[trigger] ancestors@[j])@.id,
            ) == Some(ancestors@[j]@.items) by {
                if j < before.len() {
                    assert(ancestors@[j] == before[j]);
                }
            }
        }
        i += 1;
    }
    proof {
        assert(path@.skip(n as int) =~= Seq::<Seq<u8>>::empty());
        assert(tree_ids(ancestors@) + seq![cur@.id] =~= tree_ids(ancestors@).push(cur@.id));
    }
    Ok(Resolved { ancestors, target: cur })
}

/// Walks from the root's tree down along `path`: the trees above the
/// target, root first, and the target. For the root path there is no tree
/// above, and the target is the root's tree.
pub fn search_tree_by_path(store: &ObjectStore, path: &RepoPath) -> (r: Result<
    Resolved,
    MonoError,
>)
    ensures
        match r {
            Err(e) => resolve(store@, path@) == Err::<Seq<Seq<u8>>, MonoError>(e),
            Ok(found) => resolve(store@, path@) == Ok::<Seq<Seq<u8>>, MonoError>(
                tree_ids(found.ancestors@).push(found.target@.id),
            ) && found.ancestors@.len() == path@.len() && stored(store@, found.ancestors@)
                && store@.tree(found.target@.id) == Some(found.target@.items),
        },
{
    let root = RepoPath::root();
    match store.get_ref(&root) {
        None => Err(MonoError::PathNotFound),
        Some(r) => descend_from(store, &r.ref_tree_hash, path),
    }
}

} // verus!
