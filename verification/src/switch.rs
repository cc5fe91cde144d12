//! What a request to switch the working directory to another branch or
//! commit asks for.

use vstd::prelude::*;
use crate::hash::ObjectId;

verus! {

/// The arguments of a switch: a branch to switch to, a branch to create
/// first (with the commit to create it from), or a commit to detach at.
#[derive(Debug)]
pub struct SwitchArgs {
    pub branch: Option<String>,
    pub create: Option<String>,
    pub create_base: Option<String>,
    pub detach: bool,
}

/// What a switch is to do.
#[derive(Debug)]
pub enum SwitchPlan {
    /// Create the branch `name` from `base`, then switch to it.
    Create { name: String, base: Option<String> },
    /// Leave every branch and stand at the commit that `commit_base`
    /// names.
    Detach { commit_base: String },
    /// Switch to the branch `name`.
    Branch { name: String },
}

/// Why a switch is refused.
#[derive(Clone, Copy, Debug, PartialEq, Eq, Structural)]
pub enum SwitchError {
    /// Files of the working directory were changed or deleted.
    UncommittedChanges,
    /// Changes are staged for the next commit.
    UnstagedChanges,
    /// The reference names no object.
    InvalidReference,
    /// The reference names more than one object.
    AmbiguousArgument,
    /// The reference was refused by the check of its object's kind.
    NotACommit,
}

/// The mathematical value of an optional string.
pub open spec fn opt_str(s: Option<String>) -> Option<Seq<char>> {
    match s {
        None => None,
        Some(t) => Some(t@),
    }
}

impl SwitchArgs {
    /// What the arguments ask for. A branch to create comes first; else
    /// `detach` decides between a commit and a branch.
    pub fn plan(self) -> (p: SwitchPlan)
        requires
            self.create is Some || self.branch is Some,
        ensures
            match p {
                SwitchPlan::Create { name, base } => self.create == Some(name) && base
                    == self.create_base,
                SwitchPlan::Detach { commit_base } => self.create is None && self.detach
                    && self.branch == Some(commit_base),
                SwitchPlan::Branch { name } => self.create is None && !self.detach && self.branch
                    == Some(name),
            },
    {
        match self.create {
            Some(name) => SwitchPlan::Create { name, base: self.create_base },
            None => {
                let target = match self.branch {
                    Some(b) => b,
                    None => String::new(),
                };
                if self.detach {
                    SwitchPlan::Detach { commit_base: target }
                } else {
                    SwitchPlan::Branch { name: target }
                }
            },
        }
    }
}

/// Whether the state of the working directory allows a switch: no file
/// deleted or modified, and nothing staged.
pub fn check_clean(deleted: usize, modified: usize, staged: usize) -> (r: Result<(), SwitchError>)
    ensures
        r == (if deleted != 0 || modified != 0 {
            Err::<(), SwitchError>(SwitchError::UncommittedChanges)
        } else if staged != 0 {
            Err::<(), SwitchError>(SwitchError::UnstagedChanges)
        } else {
            Ok::<(), SwitchError>(())
        }),
{
    if deleted != 0 || modified != 0 {
        Err(SwitchError::UncommittedChanges)
    } else if staged != 0 {
        Err(SwitchError::UnstagedChanges)
    } else {
        Ok(())
    }
}

/// The one object that a reference names, among the objects found for
/// it: none found and more than one found are refused.
pub fn single_match(found: &Vec<ObjectId>) -> (r: Result<ObjectId, SwitchError>)
    ensures
        match r {
            Ok(id) => found@.len() == 1 && id == found@[0],
            Err(e) => (found@.len() == 0 && e == SwitchError::InvalidReference) || (found@.len() > 1
                && e == SwitchError::AmbiguousArgument),
        },
{
    if found.len() == 0 {
        Err(SwitchError::InvalidReference)
    } else if found.len() > 1 {
        Err(SwitchError::AmbiguousArgument)
    } else {
        Ok(found[0])
    }
}

/// The commit to detach at, given the one object that the reference
/// names and the answer of the store's check of its kind against
/// `Commit`: an object for which the check answers `true` is refused.
pub fn get_commit_base(id: ObjectId, kind_check: bool) -> (r: Result<ObjectId, SwitchError>)
    ensures
        r == (if kind_check {
            Err::<ObjectId, SwitchError>(SwitchError::NotACommit)
        } else {
            Ok::<ObjectId, SwitchError>(id)
        }),
{
    if kind_check {
        Err(SwitchError::NotACommit)
    } else {
        Ok(id)
    }
}

} // verus!
