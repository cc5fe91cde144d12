//! What stays true of the store whatever the handler and the service do:
//! the root keeps its ref, merge requests keep their numbers, and no path
//! has two open merge requests.

use vstd::prelude::*;
use crate::api::{create_error, file_created};
use crate::merge_laws::{lemma_merged_root, lemma_updated_root};
use crate::monorepo::{after_head_hash, head_target, push_action, unpacked};
use crate::mr::{MergeStatus, MrView, PushAction};
use crate::object::EntryView;
use crate::seqs::{find_where, first_where, is_first_where, lemma_first_where, lemma_first_where_at};
use crate::service::{merge_error, merged};
use crate::store::{
    at_path, lemma_ingest_frame, mrs_wf, next_number, numbered, open_at, replace_mr, StoreView,
};

verus! {

/// A push leaves every ref as it is.
pub proof fn lemma_unpack_keeps_refs(
    s: StoreView,
    path: Seq<Seq<u8>>,
    from: Seq<u8>,
    to: Seq<u8>,
    es: Seq<EntryView>,
)
    ensures
        unpacked(s, path, from, to, es).refs == s.refs,
{
    lemma_ingest_frame(s, es);
    match push_action(s, path, from, to) {
        PushAction::ForceUpdate => {
            let old_mr = find_where(s.mrs, open_at(path))->0;
            let noted = StoreView {
                conversations: s.conversations.push(
                    crate::mr::ConversationView {
                        mr_id: old_mr.id,
                        author_id: 0,
                        kind: crate::mr::ConvType::ForceUpdated,
                        body: Some(crate::monorepo::force_text(old_mr.to_hash, to)),
                    },
                ),
                ..s
            };
            lemma_ingest_frame(noted, es);
        },
        _ => {},
    }
}

/// Asking for the head of a path leaves the root's ref as it is, where
/// the root has one.
pub proof fn lemma_head_hash_keeps_root(s: StoreView, path: Seq<Seq<u8>>)
    requires
        s.ref_at(Seq::empty()) is Some,
    ensures
        after_head_hash(s, path).ref_at(Seq::empty()) == s.ref_at(Seq::empty()),
{
    let root = Seq::<Seq<u8>>::empty();
    if s.ref_at(path) is None && head_target(s, path) is Some {
        let after = after_head_hash(s, path);
        lemma_first_where(s.refs, at_path(root));
        lemma_first_where(s.refs, at_path(path));
        let i = first_where(s.refs, at_path(root));
        assert(is_first_where(after.refs, at_path(root), i)) by {
            assert forall|j: int| 0 <= j < i implies !at_path(root)(after.refs[j]) by {
                assert(after.refs[j] == s.refs[j]);
            }
            assert(after.refs[i] == s.refs[i]);
        }
        lemma_first_where_at(after.refs, at_path(root), i);
    }
}

/// A merge leaves the root with a ref.
pub proof fn lemma_merge_keeps_root(s: StoreView, mr_id: i64, comment: Option<Seq<u8>>)
    requires
        merge_error(s, mr_id) is None,
    ensures
        merged(s, mr_id, comment).ref_at(Seq::empty()) is Some,
{
    lemma_merged_root(s, mr_id, comment);
}

/// Adding a file leaves the root with a ref.
pub proof fn lemma_create_keeps_root(
    s: StoreView,
    path: Seq<Seq<u8>>,
    is_directory: bool,
    name: Seq<u8>,
    content: Option<Seq<u8>>,
)
    requires
        create_error(s, path, is_directory, name, content) is None,
    ensures
        file_created(s, path, is_directory, name, content).ref_at(Seq::empty()) is Some,
{
    let chain = crate::resolver::resolve(s, path)->Ok_0;
    let items = crate::tree::put_item(
        s.tree(chain.last())->0,
        crate::api::new_item(is_directory, name, content),
    );
    let c = crate::api::create_commit(
        crate::tree::tree_id_of(items),
        s.ref_at(Seq::empty())->0.ref_commit_hash,
        name,
    );
    lemma_updated_root(s, crate::service::chain_items(s, chain.drop_last()), path, c);
}

/// Putting a changed merge request in the place of the merge request `k`
/// keeps the merge requests in order, where it keeps its number and its
/// path and is not opened again.
pub proof fn lemma_replace_mr_wf(mrs: Seq<MrView>, k: int, m: MrView)
    requires
        mrs_wf(mrs),
        0 <= k < mrs.len(),
        m.id == mrs[k].id,
        m.path == mrs[k].path,
        m.status == MergeStatus::Open ==> mrs[k].status == MergeStatus::Open,
    ensures
        replace_mr(mrs, m) == mrs.update(k, m),
        mrs_wf(replace_mr(mrs, m)),
{
    assert(is_first_where(mrs, numbered(m.id), k)) by {
        assert forall|j: int| 0 <= j < k implies !numbered(m.id)(mrs[j]) by {
            assert(mrs[j].id == j + 1);
        }
    }
    lemma_first_where_at(mrs, numbered(m.id), k);
    let after = mrs.update(k, m);
    assert forall|i: int| 0 <= i < after.len() implies (#[trigger] after[i]).id == i + 1 by {
        assert(mrs[i].id == i + 1);
    }
    assert forall|i: int, j: int|
        0 <= i < j < after.len() && (#[trigger] after[i]).status == MergeStatus::Open && (
        #[trigger] after[j]).status == MergeStatus::Open implies after[i].path
        != after[j].path by {
        assert(mrs[i].status == MergeStatus::Open);
        assert(mrs[j].status == MergeStatus::Open);
    }
}

/// A push keeps the merge requests in order: a new merge request gets
/// the next number, and it is opened only where its path has none open.
pub proof fn lemma_unpack_keeps_mrs(
    s: StoreView,
    path: Seq<Seq<u8>>,
    from: Seq<u8>,
    to: Seq<u8>,
    es: Seq<EntryView>,
)
    requires
        mrs_wf(s.mrs),
        s.mrs.len() + 1 < i64::MAX,
    ensures
        mrs_wf(unpacked(s, path, from, to, es).mrs),
{
    lemma_ingest_frame(s, es);
    lemma_first_where(s.mrs, open_at(path));
    let k = first_where(s.mrs, open_at(path));
    match push_action(s, path, from, to) {
        PushAction::Fresh => {
            let mr = MrView {
                id: next_number(s.mrs),
                path,
                from_hash: from,
                to_hash: to,
                status: MergeStatus::Open,
            };
            let opened = s.mrs.push(mr);
            assert(mrs_wf(opened)) by {
                assert forall|i: int| 0 <= i < opened.len() implies (#[trigger] opened[i]).id == i
                    + 1 by {
                    if i < s.mrs.len() {
                        assert(s.mrs[i].id == i + 1);
                    }
                }
                assert forall|i: int, j: int|
                    0 <= i < j < opened.len() && (#[trigger] opened[i]).status
                        == MergeStatus::Open && (#[trigger] opened[j]).status
                        == MergeStatus::Open implies opened[i].path != opened[j].path by {
                    if j < s.mrs.len() {
                        assert(s.mrs[i].status == MergeStatus::Open);
                        assert(s.mrs[j].status == MergeStatus::Open);
                    } else {
                        assert(!open_at(path)(s.mrs[i]));
                    }
                }
            }
            lemma_replace_mr_wf(
                opened,
                s.mrs.len() as int,
                MrView { status: MergeStatus::Closed, ..mr },
            );
        },
        PushAction::NoOp => {},
        PushAction::ForceUpdate => {
            let old_mr = s.mrs[k];
            let mr = MrView { to_hash: to, ..old_mr };
            let noted = StoreView {
                conversations: s.conversations.push(
                    crate::mr::ConversationView {
                        mr_id: old_mr.id,
                        author_id: 0,
                        kind: crate::mr::ConvType::ForceUpdated,
                        body: Some(crate::monorepo::force_text(old_mr.to_hash, to)),
                    },
                ),
                ..s
            };
            lemma_ingest_frame(noted, es);
            lemma_replace_mr_wf(s.mrs, k, mr);
            lemma_replace_mr_wf(s.mrs.update(k, mr), k, MrView { status: MergeStatus::Closed, ..mr });
        },
        PushAction::Conflict => {
            lemma_replace_mr_wf(s.mrs, k, MrView { status: MergeStatus::Closed, ..s.mrs[k] });
        },
    }
}

/// A merge keeps the merge requests in order.
pub proof fn lemma_merge_keeps_mrs(s: StoreView, mr_id: i64, comment: Option<Seq<u8>>)
    requires
        mrs_wf(s.mrs),
        merge_error(s, mr_id) is None,
    ensures
        mrs_wf(merged(s, mr_id, comment).mrs),
{
    lemma_first_where(s.mrs, numbered(mr_id));
    let k = first_where(s.mrs, numbered(mr_id));
    lemma_replace_mr_wf(s.mrs, k, MrView { status: MergeStatus::Merged, ..s.mrs[k] });
}

} // verus!
