//! Merging a merge request: the trees above the merged path are
//! rewritten, a new root commit is made, and the refs that the merge made
//! stale are removed.

use vstd::prelude::*;
use crate::byteseq;
use crate::commit::{commit_bytes, commit_id_of, Commit, CommitView};
use crate::engine::{rewrite_chain, rewrite_error, rewritten, rewritten_root, trees_items};
use crate::errors::MonoError;
use crate::hash::ObjectId;
use crate::mr::{body_view, ConvType, ConversationView, MergeOperation, MergeStatus, MrView};
use crate::path::RepoPath;
use crate::resolver::{resolve, search_tree_by_path, stored, tree_ids, Resolved};
use crate::seqs::{find_where, lemma_first_where};
use crate::store::{
    insert_row, installable, mrs_wf, not_above, numbered, outside, replace_mr, replace_ref,
    save_all, trees_view, ObjectStore, RefRecord, RefView, RowView, StoreView,
};
use crate::tree::{tree_id_of, Tree, TreeItemView, TreeView};

verus! {

/// The new root commit: it records `root_tree`, has the old root commit as
/// its only parent, and takes author, committer and message from the
/// merged commit `c`.
pub open spec fn root_commit(old_root: RefView, c: CommitView, root_tree: Seq<u8>) -> CommitView {
    let body = CommitView {
        id: Seq::empty(),
        tree_id: root_tree,
        parents: seq![old_root.ref_commit_hash],
        author: c.author,
        committer: c.committer,
        message: c.message,
    };
    CommitView { id: commit_id_of(body), ..body }
}

/// Trees under the identifiers that their entries give.
pub open spec fn addressed_trees(items: Seq<Seq<TreeItemView>>) -> Seq<TreeView> {
    Seq::new(items.len(), |i: int| TreeView { id: tree_id_of(items[i]), items: items[i] })
}

/// Why the trees above `path` cannot be updated so that its last
/// component stands for `new_id`: the chain cannot be rewritten, the
/// store has no root ref, or the store cannot hold the rewritten trees
/// under their identifiers.
pub open spec fn update_error(
    s: StoreView,
    anc: Seq<Seq<TreeItemView>>,
    path: Seq<Seq<u8>>,
    new_id: Seq<u8>,
) -> Option<MonoError> {
    match rewrite_error(anc, path) {
        Some(e) => Some(e),
        None => if s.ref_at(Seq::empty()) is None {
            Some(MonoError::PathNotFound)
        } else if !installable(s.trees, addressed_trees(rewritten(anc, path, new_id))) {
            Some(MonoError::StorageError)
        } else {
            None
        },
    }
}

/// The store after the trees above `path` have been updated for the
/// commit `c`: the rewritten trees are stored, deepest first, each noted
/// as brought by the new root commit; the new root commit is stored; the
/// root's ref stands at it and at the new root tree; and the refs of the
/// paths that are a proper beginning of `path` are gone.
pub open spec fn updated(
    s: StoreView,
    anc: Seq<Seq<TreeItemView>>,
    path: Seq<Seq<u8>>,
    c: CommitView,
) -> StoreView {
    let old_root = s.ref_at(Seq::empty())->0;
    let root_tree = rewritten_root(anc, path, c.tree_id);
    let rc = root_commit(old_root, c, root_tree);
    StoreView {
        trees: save_all(s.trees, addressed_trees(rewritten(anc, path, c.tree_id)), Some(rc.id)),
        commits: insert_row(
            s.commits,
            RowView { id: rc.id, data: commit_bytes(rc), commit_id: None },
        ),
        refs: replace_ref(
            s.refs,
            RefView { ref_commit_hash: rc.id, ref_tree_hash: root_tree, ..old_root },
        ).filter(not_above(path)),
        ..s
    }
}

/// The identifiers of the trees above `path`, root first: none for the
/// root path, else the trees from the root's down to the one that holds
/// the last component.
pub open spec fn merge_chain(s: StoreView, path: Seq<Seq<u8>>) -> Result<Seq<Seq<u8>>, MonoError> {
    if path.len() == 0 {
        Ok(Seq::empty())
    } else {
        resolve(s, path.drop_last())
    }
}

/// The entries of the trees that the store holds under the identifiers.
pub open spec fn chain_items(s: StoreView, ids: Seq<Seq<u8>>) -> Seq<Seq<TreeItemView>> {
    Seq::new(ids.len(), |i: int| s.tree(ids[i])->0)
}

/// Why the merge request `mr_id` cannot be merged, if it cannot.
pub open spec fn merge_error(s: StoreView, mr_id: i64) -> Option<MonoError> {
    match find_where(s.mrs, numbered(mr_id)) {
        None => Some(MonoError::MRNotFound),
        Some(mr) => if mr.status != MergeStatus::Open {
            Some(MonoError::MRNotOpen)
        } else {
            match s.ref_at(mr.path) {
                None => Some(MonoError::RefHashConflict),
                Some(r) => if r.ref_commit_hash != mr.from_hash {
                    Some(MonoError::RefHashConflict)
                } else {
                    match s.commit(mr.to_hash) {
                        None => Some(MonoError::StorageError),
                        Some(c) => match merge_chain(s, mr.path) {
                            Err(e) => Some(e),
                            Ok(ids) => update_error(s, chain_items(s, ids), mr.path, c.tree_id),
                        },
                    }
                },
            }
        },
    }
}

/// The store after the merge request `mr_id` has been merged: the trees
/// above its path are updated for its pushed commit, the refs of its path
/// and of the paths below it are gone, the merge request is merged, and
/// its conversation ends with the merge and its comment.
pub open spec fn merged(s: StoreView, mr_id: i64, comment: Option<Seq<u8>>) -> StoreView {
    let mr = find_where(s.mrs, numbered(mr_id))->0;
    let c = s.commit(mr.to_hash)->0;
    let ids = merge_chain(s, mr.path)->Ok_0;
    let up = updated(s, chain_items(s, ids), mr.path, c);
    StoreView {
        refs: up.refs.filter(outside(mr.path)),
        mrs: replace_mr(s.mrs, MrView { status: MergeStatus::Merged, ..mr }),
        conversations: s.conversations.push(
            ConversationView { mr_id, author_id: 0, kind: ConvType::Merged, body: comment },
        ),
        ..up
    }
}

/// The service that merges merge requests into the monorepo.
#[derive(Debug)]
pub struct MonorepoService {
    pub storage: ObjectStore,
}

impl MonorepoService {
    /// Walks from the root's tree down along `path`.
    pub fn search_tree_by_path(&self, path: &RepoPath) -> (r: Result<Resolved, MonoError>)
        ensures
            match r {
                Err(e) => resolve(self.storage@, path@) == Err::<Seq<Seq<u8>>, MonoError>(e),
                Ok(found) => resolve(self.storage@, path@) == Ok::<Seq<Seq<u8>>, MonoError>(
                    tree_ids(found.ancestors@).push(found.target@.id),
                ) && found.ancestors@.len() == path@.len() && stored(
                    self.storage@,
                    found.ancestors@,
                ) && self.storage@.tree(found.target@.id) == Some(found.target@.items),
            },
    {
        search_tree_by_path(&self.storage, path)
    }

    /// Makes the last component of `path` stand for the tree of `commit`:
    /// rewrites the chain `tree_vec` of the trees above it, root first,
    /// makes a new root commit and moves the root's ref to it. Gives the
    /// new root commit's identifier. Fails, among others, where the store
    /// holds other bytes under the identifier of a rewritten tree. On
    /// failure the store is unchanged.
    pub fn update_parent_tree(
        &mut self,
        path: &RepoPath,
        tree_vec: &Vec<Tree>,
        commit: &Commit,
    ) -> (r: Result<ObjectId, MonoError>)
        ensures
            match r {
                Err(e) => update_error(
                    old(self).storage@,
                    trees_items(tree_vec@),
                    path@,
                    commit@.tree_id,
                ) == Some(e) && final(self).storage@ == old(self).storage@,
                Ok(id) => update_error(
                    old(self).storage@,
                    trees_items(tree_vec@),
                    path@,
                    commit@.tree_id,
                ) is None
                    && final(self).storage@ == updated(
                    old(self).storage@,
                    trees_items(tree_vec@),
                    path@,
                    commit@,
                ) && id@ == root_commit(
                    old(self).storage@.ref_at(Seq::empty())->0,
                    commit@,
                    rewritten_root(trees_items(tree_vec@), path@, commit@.tree_id),
                ).id,
            },
            old(self).storage.wf() ==> final(self).storage.wf(),
    {
        let new_trees = match rewrite_chain(tree_vec, path, commit.tree_id) {
            Err(e) => {
                return Err(e);
            },
            Ok(t) => t,
        };
        let root_path = RepoPath::root();
        let p_ref = match self.storage.get_ref(&root_path) {
            None => {
                return Err(MonoError::PathNotFound);
            },
            Some(r) => r,
        };
        let n = new_trees.len();
        let target_hash = if n == 0 {
            commit.tree_id
        } else {
            new_trees[n - 1].id
        };
        let ghost items = rewritten(trees_items(tree_vec@), path@, commit@.tree_id);
        proof {
            if n > 0 {
                assert(trees_items(new_trees@).last() == new_trees@[n - 1]@.items);
            }
            assert(target_hash@ == rewritten_root(trees_items(tree_vec@), path@, commit@.tree_id));
            assert(trees_view(new_trees@) =~= addressed_trees(items)) by {
                assert forall|i: int| 0 <= i < new_trees@.len() implies trees_view(new_trees@)[i]
                    == addressed_trees(items)[i] by {
                    assert(trees_items(new_trees@)[i] == new_trees@[i]@.items);
                }
            }
        }
        if !self.storage.can_take(&new_trees) {
            return Err(MonoError::StorageError);
        }
        let mut parents: Vec<ObjectId> = Vec::new();
        parents.push(p_ref.ref_commit_hash);
        let p_commit = Commit::new(
            byteseq::copy(commit.author.as_slice()),
            byteseq::copy(commit.committer.as_slice()),
            target_hash,
            parents,
            byteseq::copy(commit.message.as_slice()),
        );
        proof {
            let want = root_commit(p_ref@, commit@, target_hash@);
            assert(p_commit@.parents =~= seq![p_ref@.ref_commit_hash]);
            assert(commit_bytes(p_commit@) == commit_bytes(want));
            assert(p_commit@ == want);
        }
        self.storage.save_trees(&new_trees, Some(p_commit.id));
        self.storage.save_commit(&p_commit);
        let new_ref = RefRecord {
            path: p_ref.path,
            ref_name: p_ref.ref_name,
            ref_commit_hash: p_commit.id,
            ref_tree_hash: target_hash,
            default_branch: p_ref.default_branch,
        };
        self.storage.update_ref(new_ref);
        self.storage.remove_refs_above(path);
        Ok(p_commit.id)
    }

    /// Merges the open merge request that `op` names. The merge request
    /// must have been opened against the commit that the ref of its path
    /// points at. Afterwards the root tree holds the merged commit's tree
    /// at the merge request's path, and no ref but the root's is left for
    /// a path that leads to that path or that it leads to. On failure the
    /// store is unchanged.
    pub fn merge_mr(&mut self, op: MergeOperation) -> (r: Result<(), MonoError>)
        ensures
            match r {
                Err(e) => merge_error(old(self).storage@, op.mr_id) == Some(e)
                    && final(self).storage@ == old(self).storage@,
                Ok(_) => merge_error(old(self).storage@, op.mr_id) is None && final(self).storage@
                    == merged(old(self).storage@, op.mr_id, body_view(op.comment)),
            },
            r is Ok ==> crate::merge_laws::root_entry(
                final(self).storage@,
                crate::merge_laws::merged_path(old(self).storage@, op.mr_id),
            ) == Some(crate::merge_laws::merged_tree(old(self).storage@, op.mr_id)),
            r is Ok ==> forall|i: int|
                0 <= i < final(self).storage@.refs.len() ==> crate::merge_laws::clear_of(
                    #[trigger] final(self).storage@.refs[i],
                    crate::merge_laws::merged_path(old(self).storage@, op.mr_id),
                ),
            old(self).storage.wf() ==> final(self).storage.wf(),
            mrs_wf(old(self).storage@.mrs) ==> mrs_wf(final(self).storage@.mrs),
    {
        proof {
            if merge_error(self.storage@, op.mr_id) is None {
                crate::merge_laws::lemma_merge_installs(
                    self.storage@,
                    op.mr_id,
                    body_view(op.comment),
                );
                if mrs_wf(self.storage@.mrs) {
                    crate::invariants::lemma_merge_keeps_mrs(
                        self.storage@,
                        op.mr_id,
                        body_view(op.comment),
                    );
                }
            }
        }
        let mut mr = match self.storage.get_mr_by_id(op.mr_id) {
            None => {
                return Err(MonoError::MRNotFound);
            },
            Some(mr) => mr,
        };
        if !mr.is_open() {
            return Err(MonoError::MRNotOpen);
        }
        let refs = match self.storage.get_ref(&mr.path) {
            None => {
                return Err(MonoError::RefHashConflict);
            },
            Some(r) => r,
        };
        match mr.merge(&refs.ref_commit_hash) {
            Err(e) => {
                return Err(e);
            },
            Ok(_) => {},
        }
        let commit = match self.storage.get_commit(&mr.to_hash) {
            None => {
                return Err(MonoError::StorageError);
            },
            Some(c) => c,
        };
        let mut tree_vec: Vec<Tree> = Vec::new();
        let ghost s = self.storage@;
        match mr.path.parent() {
            None => {
                assert(trees_items(tree_vec@) =~= chain_items(s, Seq::<Seq<u8>>::empty()));
            },
            Some(parent) => {
                let found = match search_tree_by_path(&self.storage, &parent) {
                    Err(e) => {
                        return Err(e);
                    },
                    Ok(f) => f,
                };
                tree_vec = found.ancestors;
                let ghost before = tree_vec@;
                let ghost target = found.target;
                tree_vec.push(found.target);
                proof {
                    let ids = tree_ids(before).push(target@.id);
                    assert(trees_items(tree_vec@) =~= chain_items(s, ids)) by {
                        assert forall|i: int| 0 <= i < tree_vec@.len() implies trees_items(
                            tree_vec@,
                        )[i] == chain_items(s, ids)[i] by {
                            if i < before.len() {
                                assert(tree_vec@[i] == before[i]);
                                assert(s.tree(before[i]@.id) == Some(before[i]@.items));
                            }
                        }
                    }
                }
            },
        }
        match self.update_parent_tree(&mr.path, &tree_vec, &commit) {
            Err(e) => {
                return Err(e);
            },
            Ok(_) => {},
        }
        self.storage.remove_refs_with_prefix(&mr.path);
        let id = mr.id;
        self.storage.update_mr(mr);
        self.storage.add_mr_conversation(id, 0, ConvType::Merged, op.comment);
        proof {
            lemma_first_where(s.mrs, numbered(op.mr_id));
        }
        Ok(())
    }
}

} // verus!
