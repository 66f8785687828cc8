//! The errors of the library, each with the message that is shown for it.
use vstd::prelude::*;
use crate::text::{append_str, string_of};

verus! {

/// What can go wrong in the library's own rules.
#[derive(Clone, Debug, PartialEq, Eq)]
pub enum LucusError {
    /// A branch reference was the empty text.
    EmptyBranchRef,
    /// `init` was asked for a shell other than zsh or bash.
    UnsupportedShell(String),
    /// Nothing of the branch name survives sanitizing.
    EmptyBranchName,
    /// The repository root has no final name component.
    NoRepoName(String),
    /// A `..` in the worktree path climbs above the root.
    PathTraversal(String),
    /// The worktree path lies inside the source repository.
    InsideRepository(String, String),
    /// No worktree is checked out on the branch.
    NoWorktree(String),
    /// A worktree is already checked out on the branch.
    WorktreeExists(String),
    /// Git could not name the previously checked-out branch.
    PreviousBranchUnresolved,
    /// The repository HEAD is a branch whose short name is not text.
    BranchShorthand,
    /// A hook command that was waited for exited with a failing status
    /// (the status as shown, then the command).
    HookFailed(String, String),
}

/// An error with its texts as character sequences.
pub enum ErrorView {
    EmptyBranchRef,
    UnsupportedShell(Seq<char>),
    EmptyBranchName,
    NoRepoName(Seq<char>),
    PathTraversal(Seq<char>),
    InsideRepository(Seq<char>, Seq<char>),
    NoWorktree(Seq<char>),
    WorktreeExists(Seq<char>),
    PreviousBranchUnresolved,
    BranchShorthand,
    HookFailed(Seq<char>, Seq<char>),
}

impl View for LucusError {
    type V = ErrorView;

    open spec fn view(&self) -> ErrorView {
        match self {
            LucusError::EmptyBranchRef => ErrorView::EmptyBranchRef,
            LucusError::UnsupportedShell(s) => ErrorView::UnsupportedShell(s@),
            LucusError::EmptyBranchName => ErrorView::EmptyBranchName,
            LucusError::NoRepoName(p) => ErrorView::NoRepoName(p@),
            LucusError::PathTraversal(p) => ErrorView::PathTraversal(p@),
            LucusError::InsideRepository(p, r) => ErrorView::InsideRepository(p@, r@),
            LucusError::NoWorktree(b) => ErrorView::NoWorktree(b@),
            LucusError::WorktreeExists(b) => ErrorView::WorktreeExists(b@),
            LucusError::PreviousBranchUnresolved => ErrorView::PreviousBranchUnresolved,
            LucusError::BranchShorthand => ErrorView::BranchShorthand,
            LucusError::HookFailed(s, c) => ErrorView::HookFailed(s@, c@),
        }
    }
}

/// A result carrying text, with its texts as character sequences.
pub open spec fn text_result(r: Result<String, LucusError>) -> Result<Seq<char>, ErrorView> {
    match r {
        Ok(s) => Ok(s@),
        Err(e) => Err(e@),
    }
}

/// The message shown for an error.
pub open spec fn message_text(e: ErrorView) -> Seq<char> {
    match e {
        ErrorView::EmptyBranchRef => "branch reference cannot be empty"@,
        ErrorView::UnsupportedShell(s) => "unsupported shell '"@ + s + "', expected zsh or bash"@,
        ErrorView::EmptyBranchName => "branch name is empty after sanitization"@,
        ErrorView::NoRepoName(p) => "failed to derive repository name from "@ + p,
        ErrorView::PathTraversal(p) => "invalid path traversal in "@ + p,
        ErrorView::InsideRepository(p, r) => "resolved worktree path "@ + p
            + " is inside source repository "@ + r,
        ErrorView::NoWorktree(b) => "no worktree found for branch "@ + b,
        ErrorView::WorktreeExists(b) => "worktree already exists for branch "@ + b,
        ErrorView::PreviousBranchUnresolved => "unable to resolve previous branch"@,
        ErrorView::BranchShorthand => "failed to derive branch shorthand"@,
        ErrorView::HookFailed(s, c) => "hook command failed with status "@ + s + ": "@ + c,
    }
}

impl LucusError {
    /// The message shown for this error.
    pub fn message(&self) -> (r: String)
        ensures
            r@ == message_text(self@),
    {
        let mut v: Vec<char> = Vec::new();
        match self {
            LucusError::EmptyBranchRef => append_str(&mut v, "branch reference cannot be empty"),
            LucusError::UnsupportedShell(s) => {
                append_str(&mut v, "unsupported shell '");
                append_str(&mut v, s.as_str());
                append_str(&mut v, "', expected zsh or bash");
            },
            LucusError::EmptyBranchName => append_str(
                &mut v,
                "branch name is empty after sanitization",
            ),
            LucusError::NoRepoName(p) => {
                append_str(&mut v, "failed to derive repository name from ");
                append_str(&mut v, p.as_str());
            },
            LucusError::PathTraversal(p) => {
                append_str(&mut v, "invalid path traversal in ");
                append_str(&mut v, p.as_str());
            },
            LucusError::InsideRepository(p, r) => {
                append_str(&mut v, "resolved worktree path ");
                append_str(&mut v, p.as_str());
                append_str(&mut v, " is inside source repository ");
                append_str(&mut v, r.as_str());
            },
            LucusError::NoWorktree(b) => {
                append_str(&mut v, "no worktree found for branch ");
                append_str(&mut v, b.as_str());
            },
            LucusError::WorktreeExists(b) => {
                append_str(&mut v, "worktree already exists for branch ");
                append_str(&mut v, b.as_str());
            },
            LucusError::PreviousBranchUnresolved => append_str(
                &mut v,
                "unable to resolve previous branch",
            ),
            LucusError::BranchShorthand => append_str(&mut v, "failed to derive branch shorthand"),
            LucusError::HookFailed(s, c) => {
                append_str(&mut v, "hook command failed with status ");
                append_str(&mut v, s.as_str());
                append_str(&mut v, ": ");
                append_str(&mut v, c.as_str());
            },
        }
        string_of(&v)
    }
}

} // verus!
