//! Merge requests: their states, their conversations, and how a push is
//! classified against the open merge request of its path.

use vstd::prelude::*;
use crate::byteseq;
use crate::errors::MonoError;
use crate::hash::ObjectId;
use crate::path::RepoPath;

verus! {

/// The state of a merge request. `Merged` and `Closed` are final.
#[derive(Clone, Copy, Debug, PartialEq, Eq, Structural)]
pub enum MergeStatus {
    Open,
    Merged,
    Closed,
}

/// The kind of an entry in a merge request's conversation.
#[derive(Clone, Copy, Debug, PartialEq, Eq, Structural)]
pub enum ConvType {
    Comment,
    ForceUpdated,
    Closed,
    Merged,
}

/// A merge request: the path it is for, the commit it was opened against
/// and the latest pushed commit.
#[derive(Debug)]
pub struct MergeRequest {
    pub id: i64,
    pub path: RepoPath,
    pub from_hash: ObjectId,
    pub to_hash: ObjectId,
    pub status: MergeStatus,
}

/// The mathematical value of a merge request.
pub struct MrView {
    pub id: i64,
    pub path: Seq<Seq<u8>>,
    pub from_hash: Seq<u8>,
    pub to_hash: Seq<u8>,
    pub status: MergeStatus,
}

impl View for MergeRequest {
    type V = MrView;

    open spec fn view(&self) -> MrView {
        MrView {
            id: self.id,
            path: self.path@,
            from_hash: self.from_hash@,
            to_hash: self.to_hash@,
            status: self.status,
        }
    }
}

/// One entry of a merge request's conversation.
#[derive(Debug)]
pub struct Conversation {
    pub mr_id: i64,
    pub author_id: i64,
    pub kind: ConvType,
    pub body: Option<Vec<u8>>,
}

/// The mathematical value of a conversation entry.
pub struct ConversationView {
    pub mr_id: i64,
    pub author_id: i64,
    pub kind: ConvType,
    pub body: Option<Seq<u8>>,
}

/// The value of an optional byte string.
pub open spec fn body_view(body: Option<Vec<u8>>) -> Option<Seq<u8>> {
    match body {
        None => None,
        Some(b) => Some(b@),
    }
}

impl View for Conversation {
    type V = ConversationView;

    open spec fn view(&self) -> ConversationView {
        ConversationView {
            mr_id: self.mr_id,
            author_id: self.author_id,
            kind: self.kind,
            body: body_view(self.body),
        }
    }
}

impl Conversation {
    /// A copy of the entry.
    pub fn copy(&self) -> (c: Conversation)
        ensures
            c@ == self@,
    {
        let body = match &self.body {
            None => None,
            Some(b) => Some(byteseq::copy(b.as_slice())),
        };
        Conversation { mr_id: self.mr_id, author_id: self.author_id, kind: self.kind, body }
    }
}

/// A request to merge the merge request of the given number.
#[derive(Debug)]
pub struct MergeOperation {
    pub mr_id: i64,
    pub comment: Option<Vec<u8>>,
}

impl MergeRequest {
    /// A new, open merge request.
    pub fn new(id: i64, path: RepoPath, from_hash: ObjectId, to_hash: ObjectId) -> (mr:
        MergeRequest)
        ensures
            mr@ == (MrView {
                id,
                path: path@,
                from_hash: from_hash@,
                to_hash: to_hash@,
                status: MergeStatus::Open,
            }),
    {
        MergeRequest { id, path, from_hash, to_hash, status: MergeStatus::Open }
    }

    /// A copy of the merge request.
    pub fn copy(&self) -> (mr: MergeRequest)
        ensures
            mr@ == self@,
    {
        MergeRequest {
            id: self.id,
            path: self.path.copy(),
            from_hash: self.from_hash,
            to_hash: self.to_hash,
            status: self.status,
        }
    }

    /// Whether the merge request is open.
    pub fn is_open(&self) -> (r: bool)
        ensures
            r == (self@.status == MergeStatus::Open),
    {
        match self.status {
            MergeStatus::Open => true,
            _ => false,
        }
    }

    /// Records a new pushed tip. An open merge request stays open with
    /// `to_hash` as its tip; any other is left as it is and the call fails.
    pub fn force_update(&mut self, to_hash: ObjectId) -> (r: Result<(), MonoError>)
        ensures
            old(self)@.status == MergeStatus::Open ==> r is Ok && final(self)@ == (MrView {
                to_hash: to_hash@,
                ..old(self)@
            }),
            old(self)@.status != MergeStatus::Open ==> r == Err::<(), MonoError>(
                MonoError::MRNotOpen,
            ) && final(self)@ == old(self)@,
    {
        if self.is_open() {
            self.to_hash = to_hash;
            Ok(())
        } else {
            Err(MonoError::MRNotOpen)
        }
    }

    /// Closes the merge request. An open merge request becomes closed; any
    /// other is left as it is and the call fails.
    pub fn close(&mut self) -> (r: Result<(), MonoError>)
        ensures
            old(self)@.status == MergeStatus::Open ==> r is Ok && final(self)@ == (MrView {
                status: MergeStatus::Closed,
                ..old(self)@
            }),
            old(self)@.status != MergeStatus::Open ==> r == Err::<(), MonoError>(
                MonoError::MRNotOpen,
            ) && final(self)@ == old(self)@,
    {
        if self.is_open() {
            self.status = MergeStatus::Closed;
            Ok(())
        } else {
            Err(MonoError::MRNotOpen)
        }
    }

    /// Merges the merge request, which was opened against `from_hash`,
    /// while the ref of its path points at `ref_commit_hash`. An open
    /// merge request whose `from_hash` is that commit becomes merged; any
    /// other is left as it is and the call fails.
    pub fn merge(&mut self, ref_commit_hash: &ObjectId) -> (r: Result<(), MonoError>)
        ensures
            r == merge_outcome(old(self)@, ref_commit_hash@),
            r is Ok ==> final(self)@ == (MrView { status: MergeStatus::Merged, ..old(self)@ }),
            r is Err ==> final(self)@ == old(self)@,
    {
        if !self.is_open() {
            Err(MonoError::MRNotOpen)
        } else if !self.from_hash.same(ref_commit_hash) {
            Err(MonoError::RefHashConflict)
        } else {
            self.status = MergeStatus::Merged;
            Ok(())
        }
    }
}

/// Whether a merge request can be merged while the ref of its path points
/// at `ref_commit_hash`.
pub open spec fn merge_outcome(mr: MrView, ref_commit_hash: Seq<u8>) -> Result<(), MonoError> {
    if mr.status != MergeStatus::Open {
        Err(MonoError::MRNotOpen)
    } else if mr.from_hash != ref_commit_hash {
        Err(MonoError::RefHashConflict)
    } else {
        Ok(())
    }
}

/// What a push does to the open merge request of its path.
#[derive(Clone, Copy, Debug, PartialEq, Eq, Structural)]
pub enum PushAction {
    /// No merge request is open: take the objects in and open one.
    Fresh,
    /// The push repeats what the merge request holds: do nothing.
    NoOp,
    /// The push has a new tip: take the objects in and move the tip.
    ForceUpdate,
    /// The push starts from another commit: close the merge request.
    Conflict,
}

/// The rows of the classification table: whether `action` is what the
/// table gives for a push that finds a merge request open or not, with the
/// same `from_hash` or not, and the same `to_hash` or not.
pub open spec fn row_matches(
    action: PushAction,
    mr_exists: bool,
    from_match: bool,
    to_match: bool,
) -> bool {
    match action {
        PushAction::Fresh => !mr_exists,
        PushAction::NoOp => mr_exists && from_match && to_match,
        PushAction::ForceUpdate => mr_exists && from_match && !to_match,
        PushAction::Conflict => mr_exists && !from_match,
    }
}

/// Classifies a push.
pub fn classify(mr_exists: bool, from_match: bool, to_match: bool) -> (action: PushAction)
    ensures
        row_matches(action, mr_exists, from_match, to_match),
        forall|other: PushAction|
            row_matches(other, mr_exists, from_match, to_match) ==> other == action,
{
    if !mr_exists {
        PushAction::Fresh
    } else if !from_match {
        PushAction::Conflict
    } else if to_match {
        PushAction::NoOp
    } else {
        PushAction::ForceUpdate
    }
}

/// The classification table is total and unambiguous: for every push
/// exactly one action has a matching row.
pub proof fn lemma_classification_total(mr_exists: bool, from_match: bool, to_match: bool)
    ensures
        exists|action: PushAction| #[trigger]
            row_matches(action, mr_exists, from_match, to_match) && forall|other: PushAction|
                row_matches(other, mr_exists, from_match, to_match) ==> other == action,
{
    let action = if !mr_exists {
        PushAction::Fresh
    } else if !from_match {
        PushAction::Conflict
    } else if to_match {
        PushAction::NoOp
    } else {
        PushAction::ForceUpdate
    };
    assert(row_matches(action, mr_exists, from_match, to_match));
}

} // verus!
