//! The pack handler of a path of the monorepo: the ref it announces, what
//! a push does, and what a full pack holds.

use vstd::prelude::*;
use vstd::slice::slice_subrange;
use vstd::string::*;
use crate::byteseq;
use crate::commit::{commit_bytes, commit_id_of, system_signature, Commit, CommitView};
use crate::errors::MonoError;
use crate::hash::{hex_of, ObjectId};
use crate::mr::{
    classify, ConvType, ConversationView, MergeRequest, MergeStatus, MrView, PushAction,
};
use crate::object::{entries_view, Entry, EntryView, ObjectType};
use crate::path::RepoPath;
use crate::resolver::{resolve, search_tree_by_path};
use crate::seqs::{find_where, lemma_first_where};
use crate::store::{
    default_branch_name, ingest, insert_row, lemma_ingest_concat, lemma_ingest_frame, mrs_wf,
    next_number, object_count, open_at, put_ref, replace_mr, rows_entries, tree_row, ObjectStore,
    RefView, RowView, StoreView,
};
use crate::tree::{tree_id_of, Tree, TreeItemView, TreeView};

verus! {

/// A ref as it is announced to a client.
#[derive(Debug)]
pub struct Refs {
    pub ref_name: Vec<u8>,
    pub ref_hash: ObjectId,
    pub default_branch: bool,
}

/// The mathematical value of an announced ref.
pub struct RefsView {
    pub ref_name: Seq<u8>,
    pub ref_hash: Seq<u8>,
    pub default_branch: bool,
}

impl View for Refs {
    type V = RefsView;

    open spec fn view(&self) -> RefsView {
        RefsView {
            ref_name: self.ref_name@,
            ref_hash: self.ref_hash@,
            default_branch: self.default_branch,
        }
    }
}

/// The values of a list of announced refs.
pub open spec fn refs_list_view(refs: Seq<Refs>) -> Seq<RefsView> {
    Seq::new(refs.len(), |i: int| refs[i]@)
}

/// A stored ref as it is announced.
pub open spec fn announced(r: RefView) -> RefsView {
    RefsView {
        ref_name: r.ref_name,
        ref_hash: r.ref_commit_hash,
        default_branch: r.default_branch,
    }
}

/// A request of a client to move a ref.
#[derive(Debug)]
pub struct RefCommand {
    pub ref_name: Vec<u8>,
    pub old_id: ObjectId,
    pub new_id: ObjectId,
}

/// The text of the commits that are made to give a path a ref.
pub open spec fn maintain_text() -> Seq<u8> {
    byteseq::ascii("This commit was generated by mega for maintain refs"@)
}

/// The commit that is made to give a ref to the tree `tree_id`: no
/// parents, the system's signature, the fixed text.
pub open spec fn synthesized(tree_id: Seq<u8>) -> CommitView {
    let body = CommitView {
        id: Seq::empty(),
        tree_id,
        parents: Seq::empty(),
        author: system_signature(),
        committer: system_signature(),
        message: seq![10u8] + maintain_text(),
    };
    CommitView { id: commit_id_of(body), ..body }
}

/// The tree that `path` names: in a store without a root ref the root
/// path names the empty tree and no other path names anything.
pub open spec fn head_target(s: StoreView, path: Seq<Seq<u8>>) -> Option<Seq<u8>> {
    match s.ref_at(Seq::empty()) {
        None => if path.len() == 0 {
            Some(tree_id_of(Seq::empty()))
        } else {
            None
        },
        Some(_) => match resolve(s, path) {
            Ok(chain) => Some(chain.last()),
            Err(_) => None,
        },
    }
}

/// The ref that is made for `path` where it names the tree `t`.
pub open spec fn synthetic_ref(path: Seq<Seq<u8>>, t: Seq<u8>) -> RefView {
    RefView {
        path,
        ref_name: default_branch_name(),
        ref_commit_hash: synthesized(t).id,
        ref_tree_hash: t,
        default_branch: true,
    }
}

/// The store after the head of `path` has been asked for: unchanged where
/// `path` has a ref or names no tree; else with a commit made for the tree
/// it names, and a ref of `path` at that commit. For the root path of a
/// store without a root ref the empty tree is stored too.
pub open spec fn after_head_hash(s: StoreView, path: Seq<Seq<u8>>) -> StoreView {
    if s.ref_at(path) is Some {
        s
    } else {
        match head_target(s, path) {
            None => s,
            Some(t) => {
                let c = synthesized(t);
                StoreView {
                    trees: if s.ref_at(Seq::empty()) is None {
                        insert_row(
                            s.trees,
                            tree_row(TreeView { id: t, items: Seq::empty() }, None),
                        )
                    } else {
                        s.trees
                    },
                    commits: insert_row(
                        s.commits,
                        RowView { id: c.id, data: commit_bytes(c), commit_id: None },
                    ),
                    refs: put_ref(s.refs, synthetic_ref(path, t)),
                    ..s
                }
            },
        }
    }
}

/// The refs that are announced for `path`: its ref where it has one; else
/// the ref that is made for it where it names a tree; else none.
pub open spec fn head_refs(s: StoreView, path: Seq<Seq<u8>>) -> Seq<RefsView> {
    match s.ref_at(path) {
        Some(r) => seq![announced(r)],
        None => match head_target(s, path) {
            None => Seq::empty(),
            Some(t) => seq![announced(synthetic_ref(path, t))],
        },
    }
}

/// The text of the commits that are made to give a path a ref.
pub fn maintain_text_data() -> (v: Vec<u8>)
    ensures
        v@ == maintain_text(),
{
    proof {
        reveal_strlit("This commit was generated by mega for maintain refs");
    }
    let s = "This commit was generated by mega for maintain refs";
    assert(is_ascii(s));
    byteseq::text(s)
}

/// The pack handler of one path.
#[derive(Debug)]
pub struct MonoRepo {
    pub path: RepoPath,
    pub from_hash: Option<ObjectId>,
    pub to_hash: Option<ObjectId>,
}

impl MonoRepo {
    /// The refs to announce for the path. Where the path has no ref but
    /// names a tree, a commit is made for that tree and the path gets a
    /// ref at it.
    pub fn head_refs(&self, store: &mut ObjectStore) -> (refs: Vec<Refs>)
        ensures
            final(store)@ == after_head_hash(old(store)@, self.path@),
            refs_list_view(refs@) == head_refs(old(store)@, self.path@),
            old(store).wf() ==> final(store).wf(),
    {
        let ghost s = store@;
        let mut refs: Vec<Refs> = Vec::new();
        match store.get_ref(&self.path) {
            Some(r) => {
                refs.push(
                    Refs {
                        ref_name: r.ref_name,
                        ref_hash: r.ref_commit_hash,
                        default_branch: r.default_branch,
                    },
                );
                assert(refs_list_view(refs@) =~= head_refs(s, self.path@));
                return refs;
            },
            None => {},
        }
        let root = RepoPath::root();
        let tree_id = match store.get_ref(&root) {
            None => {
                if !self.path.is_root() {
                    assert(refs_list_view(refs@) =~= head_refs(s, self.path@));
                    return refs;
                }
                let empty = Tree::from_tree_items(Vec::new());
                assert(empty@.items =~= Seq::<TreeItemView>::empty());
                store.save_tree(&empty, None);
                empty.id
            },
            Some(_) => match search_tree_by_path(store, &self.path) {
                Err(_) => {
                    assert(refs_list_view(refs@) =~= head_refs(s, self.path@));
                    return refs;
                },
                Ok(found) => {
                    assert(crate::resolver::tree_ids(found.ancestors@).push(
                        found.target@.id,
                    ).last() == found.target@.id);
                    found.target.id
                },
            },
        };
        let c = Commit::from_tree_id(tree_id, Vec::new(), maintain_text_data().as_slice());
        proof {
            let want = synthesized(tree_id@);
            assert(c@.parents =~= Seq::<Seq<u8>>::empty());
            assert(commit_bytes(c@) == commit_bytes(want));
            assert(c@ == want);
        }
        store.save_ref(&self.path, c.id, c.tree_id);
        store.save_commit(&c);
        refs.push(
            Refs {
                ref_name: crate::store::default_branch_name_data(),
                ref_hash: c.id,
                default_branch: true,
            },
        );
        assert(refs_list_view(refs@) =~= head_refs(s, self.path@));
        refs
    }

    /// The announcement of the path's refs, and the refs. Where the path
    /// has no ref but names a tree, a commit is made for that tree and the
    /// path gets a ref at it.
    pub fn head_hash(&self, store: &mut ObjectStore) -> (r: (Vec<u8>, Vec<Refs>))
        ensures
            final(store)@ == after_head_hash(old(store)@, self.path@),
            refs_list_view(r.1@) == head_refs(old(store)@, self.path@),
            r.0@ == crate::wire::advertisement(head_refs(old(store)@, self.path@)),
            old(store).wf() ==> final(store).wf(),
    {
        let refs = self.head_refs(store);
        (crate::wire::ref_advertisement(&refs), refs)
    }

    /// Whether a commit is stored under `hash`.
    pub fn check_commit_exist(&self, store: &ObjectStore, hash: &ObjectId) -> (r: bool)
        ensures
            r == (store@.commit(hash@) is Some),
    {
        store.has_commit(hash)
    }

    /// Refs of the monorepo move through merge requests alone: a request
    /// to move one is accepted and changes nothing.
    pub fn update_refs(&self, command: &RefCommand) -> (r: Result<(), MonoError>)
        ensures
            r is Ok,
    {
        Ok(())
    }

    /// Every path has a default branch, since one is made when asked for.
    pub fn check_default_branch(&self) -> (r: bool)
        ensures
            r,
    {
        true
    }
}

/// The number of entries that are handed to the store at once.
pub const BATCH_SIZE: usize = 1000;

/// The number of commits among the entries.
pub open spec fn count_commits(es: Seq<EntryView>) -> nat
    decreases es.len(),
{
    if es.len() == 0 {
        0
    } else {
        count_commits(es.drop_last()) + if es.last().kind == ObjectType::Commit {
            1nat
        } else {
            0nat
        }
    }
}

/// The text that records a new pushed tip: the first six hex digits of
/// the old tip and of the new one.
pub open spec fn force_text(from: Seq<u8>, to: Seq<u8>) -> Seq<u8> {
    byteseq::ascii("Mega updated the mr automatic from "@) + hex_of(from).take(6) + byteseq::ascii(
        " to "@,
    ) + hex_of(to).take(6)
}

/// Why a merge request is closed when a push starts from another commit.
pub open spec fn conflict_text() -> Seq<u8> {
    byteseq::ascii("closed due to conflict"@)
}

/// Why a merge request is closed when a push brings more than one commit.
pub open spec fn multi_commit_text() -> Seq<u8> {
    byteseq::ascii("closed due to multi commit detected"@)
}

/// What a push from `from` to `to` does to the open merge request of
/// `path`.
pub open spec fn push_action(s: StoreView, path: Seq<Seq<u8>>, from: Seq<u8>, to: Seq<u8>) -> PushAction {
    match find_where(s.mrs, open_at(path)) {
        None => PushAction::Fresh,
        Some(mr) => if mr.from_hash != from {
            PushAction::Conflict
        } else if mr.to_hash == to {
            PushAction::NoOp
        } else {
            PushAction::ForceUpdate
        },
    }
}

/// The store with the merge request `mr` closed for the given reason.
pub open spec fn closed_with(s: StoreView, mr: MrView, reason: Seq<u8>) -> StoreView {
    StoreView {
        mrs: replace_mr(s.mrs, MrView { status: MergeStatus::Closed, ..mr }),
        conversations: s.conversations.push(
            ConversationView {
                mr_id: mr.id,
                author_id: 0,
                kind: ConvType::Closed,
                body: Some(reason),
            },
        ),
        ..s
    }
}

/// The store with the merge request `mr` closed if the push brought more
/// than one commit.
pub open spec fn checked_for_multi(s: StoreView, mr: MrView, es: Seq<EntryView>) -> StoreView {
    if count_commits(es) > 1 {
        closed_with(s, mr, multi_commit_text())
    } else {
        s
    }
}

/// The store after a push of the entries `es` from `from` to `to` on
/// `path`.
pub open spec fn unpacked(
    s: StoreView,
    path: Seq<Seq<u8>>,
    from: Seq<u8>,
    to: Seq<u8>,
    es: Seq<EntryView>,
) -> StoreView {
    match push_action(s, path, from, to) {
        PushAction::Fresh => {
            let mr = MrView {
                id: next_number(s.mrs),
                path,
                from_hash: from,
                to_hash: to,
                status: MergeStatus::Open,
            };
            let taken = ingest(s, es);
            checked_for_multi(StoreView { mrs: taken.mrs.push(mr), ..taken }, mr, es)
        },
        PushAction::NoOp => s,
        PushAction::ForceUpdate => {
            let old_mr = find_where(s.mrs, open_at(path))->0;
            let mr = MrView { to_hash: to, ..old_mr };
            let noted = StoreView {
                conversations: s.conversations.push(
                    ConversationView {
                        mr_id: mr.id,
                        author_id: 0,
                        kind: ConvType::ForceUpdated,
                        body: Some(force_text(old_mr.to_hash, to)),
                    },
                ),
                ..s
            };
            let taken = ingest(noted, es);
            checked_for_multi(StoreView { mrs: replace_mr(taken.mrs, mr), ..taken }, mr, es)
        },
        PushAction::Conflict => closed_with(
            s,
            find_where(s.mrs, open_at(path))->0,
            conflict_text(),
        ),
    }
}

/// All objects of a store as entries: the commits, then the trees, then
/// the blobs, then the tags.
pub open spec fn all_entries(s: StoreView) -> Seq<EntryView> {
    rows_entries(ObjectType::Commit, s.commits) + rows_entries(ObjectType::Tree, s.trees)
        + rows_entries(ObjectType::Blob, s.blobs) + rows_entries(ObjectType::Tag, s.tags)
}

/// What a full pack is made from: the number of objects, which the
/// encoder is told first, and the objects.
#[derive(Debug)]
pub struct FullPack {
    pub object_count: usize,
    pub entries: Vec<Entry>,
}

impl FullPack {
    /// Whether the number of objects that is announced is the number of
    /// entries; fails with `PackMismatch` where it is not.
    pub fn validate(&self) -> (r: Result<(), MonoError>)
        ensures
            r == (if self.object_count == self.entries@.len() {
                Ok::<(), MonoError>(())
            } else {
                Err::<(), MonoError>(MonoError::PackMismatch)
            }),
    {
        if self.object_count == self.entries.len() {
            Ok(())
        } else {
            Err(MonoError::PackMismatch)
        }
    }
}

/// The entries of `v` followed by those of `more`.
fn extend_entries(v: &mut Vec<Entry>, more: Vec<Entry>)
    ensures
        entries_view(final(v)@) == entries_view(old(v)@) + entries_view(more@),
{
    let mut more = more;
    let ghost a = v@;
    let ghost b = more@;
    v.append(&mut more);
    assert(entries_view(v@) =~= entries_view(a) + entries_view(b));
}

impl MonoRepo {
    /// The open merge request of the path and `true`, or, where the path
    /// has none, a new one for this push and `false`.
    pub fn get_mr(&self, store: &ObjectStore) -> (r: (MergeRequest, bool))
        requires
            self.from_hash is Some,
            self.to_hash is Some,
        ensures
            match find_where(store@.mrs, open_at(self.path@)) {
                Some(mr) => r.1 && r.0@ == mr,
                None => !r.1 && r.0@ == (MrView {
                    id: next_number(store@.mrs),
                    path: self.path@,
                    from_hash: self.from_hash->0@,
                    to_hash: self.to_hash->0@,
                    status: MergeStatus::Open,
                }),
            },
    {
        match store.get_open_mr(&self.path) {
            Some(mr) => (mr, true),
            None => {
                let from = match self.from_hash {
                    Some(h) => h,
                    None => ObjectId::zero(),
                };
                let to = match self.to_hash {
                    Some(h) => h,
                    None => ObjectId::zero(),
                };
                (MergeRequest::new(store.next_mr_id(), self.path.copy(), from, to), false)
            },
        }
    }

    /// The text that records a new pushed tip.
    pub fn comment_for_force_update(&self, from: &ObjectId, to: &ObjectId) -> (v: Vec<u8>)
        ensures
            v@ == force_text(from@, to@),
    {
        proof {
            reveal_strlit("Mega updated the mr automatic from ");
            reveal_strlit(" to ");
        }
        let head = "Mega updated the mr automatic from ";
        let mid = " to ";
        assert(is_ascii(head));
        assert(is_ascii(mid));
        let mut v = byteseq::text(head);
        byteseq::append(&mut v, from.short().as_slice());
        byteseq::append(&mut v, byteseq::text(mid).as_slice());
        byteseq::append(&mut v, to.short().as_slice());
        v
    }

    /// Files the entries in batches of `batch_size` (of one where it is
    /// zero) and counts the commits among them. The store that results
    /// does not depend on the size of the batches.
    pub fn save_entry_in_batches(
        &self,
        store: &mut ObjectStore,
        entries: &Vec<Entry>,
        batch_size: usize,
    ) -> (commit_size: usize)
        ensures
            final(store)@ == ingest(old(store)@, entries_view(entries@)),
            commit_size == count_commits(entries_view(entries@)),
            old(store).wf() ==> final(store).wf(),
    {
        let step = if batch_size == 0 {
            1
        } else {
            batch_size
        };
        let ghost all = entries_view(entries@);
        let n = entries.len();
        let mut done: usize = 0;
        assert(all.take(0) =~= Seq::<EntryView>::empty());
        while done < n
            invariant
                done <= n,
                n == entries@.len(),
                step > 0,
                all == entries_view(entries@),
                store@ == ingest(old(store)@, all.take(done as int)),
                old(store).wf() ==> store.wf(),
            decreases n - done,
        {
            let end = if n - done < step {
                n
            } else {
                done + step
            };
            proof {
                lemma_ingest_concat(
                    old(store)@,
                    all.take(done as int),
                    all.subrange(done as int, end as int),
                );
                assert(all.take(done as int) + all.subrange(done as int, end as int) =~= all.take(
                    end as int,
                ));
            }
            let batch = slice_subrange(entries.as_slice(), done, end);
            assert(entries_view(batch@) =~= all.subrange(done as int, end as int));
            store.batch_save_entries(batch);
            done = end;
        }
        assert(all.take(n as int) =~= all);
        let mut commit_size: usize = 0;
        let mut i: usize = 0;
        while i < n
            invariant
                i <= n,
                n == entries@.len(),
                all == entries_view(entries@),
                commit_size == count_commits(all.take(i as int)),
                commit_size <= i,
            decreases n - i,
        {
            proof {
                assert(all.take(i + 1).drop_last() =~= all.take(i as int));
                assert(all.take(i + 1).last() == entries@[i as int]@);
            }
            match entries[i].obj_type {
                ObjectType::Commit => {
                    commit_size += 1;
                },
                _ => {},
            }
            i += 1;
        }
        commit_size
    }

    /// Files the entries in batches of `BATCH_SIZE` and counts the commits
    /// among them.
    pub fn save_entry(&self, store: &mut ObjectStore, entries: &Vec<Entry>) -> (commit_size: usize)
        ensures
            final(store)@ == ingest(old(store)@, entries_view(entries@)),
            commit_size == count_commits(entries_view(entries@)),
            old(store).wf() ==> final(store).wf(),
    {
        self.save_entry_in_batches(store, entries, BATCH_SIZE)
    }

    /// Takes a push in. What happens depends on the open merge request
    /// of the path: where there is none the entries are filed and one is
    /// opened; where the push repeats it nothing happens; where the push
    /// has a new tip the entries are filed and the tip moves; where the
    /// push starts from another commit the merge request is closed and
    /// nothing is filed. A push that brought more than one commit closes
    /// the merge request after all. Merge requests stay numbered in the
    /// order in which they were opened, with at most one open for a path.
    pub fn unpack(&self, store: &mut ObjectStore, entries: &Vec<Entry>) -> (r: Result<
        (),
        MonoError,
    >)
        requires
            self.from_hash is Some,
            self.to_hash is Some,
        ensures
            r is Ok,
            final(store)@ == unpacked(
                old(store)@,
                self.path@,
                self.from_hash->0@,
                self.to_hash->0@,
                entries_view(entries@),
            ),
            old(store).wf() ==> final(store).wf(),
            mrs_wf(old(store)@.mrs) && old(store)@.mrs.len() + 1 < i64::MAX ==> mrs_wf(
                final(store)@.mrs,
            ),
    {
        let ghost s = store@;
        let ghost es = entries_view(entries@);
        proof {
            if mrs_wf(s.mrs) && s.mrs.len() + 1 < i64::MAX {
                crate::invariants::lemma_unpack_keeps_mrs(
                    s,
                    self.path@,
                    self.from_hash->0@,
                    self.to_hash->0@,
                    es,
                );
            }
        }
        let (mut mr, mr_exist) = self.get_mr(store);
        let from = match self.from_hash {
            Some(h) => h,
            None => ObjectId::zero(),
        };
        let to = match self.to_hash {
            Some(h) => h,
            None => ObjectId::zero(),
        };
        proof {
            lemma_first_where(s.mrs, open_at(self.path@));
        }
        let from_match = mr.from_hash.same(&from);
        let to_match = mr.to_hash.same(&to);
        let mut commit_size: usize = 0;
        match classify(mr_exist, from_match, to_match) {
            PushAction::Fresh => {
                commit_size = self.save_entry(store, entries);
                proof {
                    lemma_ingest_frame(s, es);
                }
                store.save_mr(mr.copy());
            },
            PushAction::NoOp => {
                return Ok(());
            },
            PushAction::ForceUpdate => {
                let comment = self.comment_for_force_update(&mr.to_hash, &to);
                let _ = mr.force_update(to);
                store.add_mr_conversation(mr.id, 0, ConvType::ForceUpdated, Some(comment));
                let ghost noted = store@;
                commit_size = self.save_entry(store, entries);
                proof {
                    lemma_ingest_frame(noted, es);
                }
                store.update_mr(mr.copy());
            },
            PushAction::Conflict => {
                let id = mr.id;
                let _ = mr.close();
                store.update_mr(mr);
                store.add_mr_conversation(id, 0, ConvType::Closed, Some(conflict_text_data()));
                return Ok(());
            },
        }
        if commit_size > 1 {
            let id = mr.id;
            let _ = mr.close();
            store.update_mr(mr);
            store.add_mr_conversation(id, 0, ConvType::Closed, Some(multi_commit_text_data()));
        }
        Ok(())
    }

    /// All objects of the store as entries for the encoder, with their
    /// number: the commits, then the trees, then the blobs, then the tags.
    /// Fails where the number of objects does not fit the machine's word,
    /// so that no stream of entries could match it.
    pub fn full_pack(&self, store: &ObjectStore) -> (r: Result<FullPack, MonoError>)
        ensures
            match r {
                Err(e) => e == MonoError::PackMismatch && object_count(store@) > usize::MAX,
                Ok(p) => p.object_count == object_count(store@) && p.object_count
                    == p.entries@.len() && entries_view(p.entries@) == all_entries(store@),
            },
    {
        let object_count = match store.get_obj_count() {
            None => {
                return Err(MonoError::PackMismatch);
            },
            Some(n) => n,
        };
        let mut entries = store.get_commits_by_repo();
        extend_entries(&mut entries, store.get_trees_by_repo());
        extend_entries(&mut entries, store.get_blobs_by_repo());
        extend_entries(&mut entries, store.get_tags_by_repo());
        assert(entries_view(entries@).len() == entries@.len());
        Ok(FullPack { object_count, entries })
    }
}

/// Why a merge request is closed when a push starts from another commit.
pub fn conflict_text_data() -> (v: Vec<u8>)
    ensures
        v@ == conflict_text(),
{
    proof {
        reveal_strlit("closed due to conflict");
    }
    let s = "closed due to conflict";
    assert(is_ascii(s));
    byteseq::text(s)
}

/// Why a merge request is closed when a push brings more than one commit.
pub fn multi_commit_text_data() -> (v: Vec<u8>)
    ensures
        v@ == multi_commit_text(),
{
    proof {
        reveal_strlit("closed due to multi commit detected");
    }
    let s = "closed due to multi commit detected";
    assert(is_ascii(s));
    byteseq::text(s)
}

} // verus!
