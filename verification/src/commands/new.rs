//! `lucus new`: the checks before a worktree is created.
use vstd::prelude::*;
use crate::error::{ErrorView, LucusError, text_result};
use crate::git::{WorktreeEntry, find_worktree_by_branch, sanitize_branch, sanitized};

verus! {

/// The branch name a new worktree gets: the sanitized name, refused when
/// nothing of it is left.
pub fn branch_name(branch: &str) -> (r: Result<String, LucusError>)
    ensures
        text_result(r) == if sanitized(branch@).len() == 0 {
            Err(ErrorView::EmptyBranchName)
        } else {
            Ok(sanitized(branch@))
        },
{
    let s = sanitize_branch(branch);
    if s.as_str().is_empty() {
        Err(LucusError::EmptyBranchName)
    } else {
        Ok(s)
    }
}

/// Refuses a branch that already has a worktree among `entries`.
pub fn ensure_new_worktree(entries: &Vec<WorktreeEntry>, branch: &str) -> (r: Result<(), LucusError>)
    ensures
        r is Ok <==> forall|i: int| 0 <= i < entries@.len() ==> entries@[i].branch@ != branch@,
        r matches Err(e) ==> e@ == ErrorView::WorktreeExists(branch@),
{
    match find_worktree_by_branch(entries, branch) {
        Some(_) => Err(LucusError::WorktreeExists(crate::text::text_of(branch))),
        None => Ok(()),
    }
}

} // verus!
