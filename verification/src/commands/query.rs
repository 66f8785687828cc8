//! `lucus query`: the directory of the worktree that a branch reference
//! names.
use vstd::prelude::*;
use crate::config::Config;
use crate::error::{ErrorView, LucusError};
use crate::git::{WorktreeEntry, find_worktree_by_branch, first_on_branch};
use crate::text::{chars_of, string_of};

verus! {

/// A branch as the command line names it.
#[derive(Clone, Debug, PartialEq, Eq)]
pub enum BranchRef {
    /// `-`: the branch checked out before the current one.
    Previous,
    /// `^`: the configured default branch.
    DefaultBranch,
    /// `@`: the branch checked out now.
    Current,
    /// Any other text: that branch.
    Named(String),
}

/// Where the branch of a reference comes from.
#[derive(Clone, Debug, PartialEq, Eq)]
pub enum BranchSource {
    /// Ask git for the previously checked-out branch.
    Previous,
    /// Ask git for the current branch.
    Current,
    /// This branch.
    Named(String),
}

impl BranchRef {
    /// Reads a branch reference from its command-line text.
    pub fn parse(value: &str) -> (r: Result<BranchRef, LucusError>)
        ensures
            value@ == "-"@ ==> r == Ok::<BranchRef, LucusError>(BranchRef::Previous),
            value@ == "^"@ ==> r == Ok::<BranchRef, LucusError>(BranchRef::DefaultBranch),
            value@ == "@"@ ==> r == Ok::<BranchRef, LucusError>(BranchRef::Current),
            value@.len() == 0 ==> r == Err::<BranchRef, LucusError>(LucusError::EmptyBranchRef),
            value@ != "-"@ && value@ != "^"@ && value@ != "@"@ && value@.len() != 0 ==> (r matches Ok(
                BranchRef::Named(n),
            ) && n@ == value@),
    {
        proof {
            reveal_strlit("-");
            reveal_strlit("^");
            reveal_strlit("@");
        }
        let v = chars_of(value);
        if v.len() == 1 && v[0] == '-' {
            assert(value@ =~= "-"@);
            Ok(BranchRef::Previous)
        } else if v.len() == 1 && v[0] == '^' {
            assert(value@ =~= "^"@);
            Ok(BranchRef::DefaultBranch)
        } else if v.len() == 1 && v[0] == '@' {
            assert(value@ =~= "@"@);
            Ok(BranchRef::Current)
        } else if v.len() == 0 {
            Err(LucusError::EmptyBranchRef)
        } else {
            Ok(BranchRef::Named(string_of(&v)))
        }
    }
}

impl std::str::FromStr for BranchRef {
    type Err = LucusError;

    fn from_str(value: &str) -> (r: Result<BranchRef, LucusError>)
        ensures
            value@ == "-"@ ==> r == Ok::<BranchRef, LucusError>(BranchRef::Previous),
            value@ == "^"@ ==> r == Ok::<BranchRef, LucusError>(BranchRef::DefaultBranch),
            value@ == "@"@ ==> r == Ok::<BranchRef, LucusError>(BranchRef::Current),
            value@.len() == 0 ==> r == Err::<BranchRef, LucusError>(LucusError::EmptyBranchRef),
            value@ != "-"@ && value@ != "^"@ && value@ != "@"@ && value@.len() != 0 ==> (r matches Ok(
                BranchRef::Named(n),
            ) && n@ == value@),
    {
        BranchRef::parse(value)
    }
}

/// Where the branch of `branch_ref` comes from: `^` is the configured
/// default branch, a name is itself, `-` and `@` are asked of git.
pub fn branch_source(config: &Config, branch_ref: &BranchRef) -> (r: BranchSource)
    ensures
        match *branch_ref {
            BranchRef::Previous => r == BranchSource::Previous,
            BranchRef::Current => r == BranchSource::Current,
            BranchRef::DefaultBranch => r matches BranchSource::Named(n) && n@
                == config.worktree.default_branch@,
            BranchRef::Named(name) => r matches BranchSource::Named(n) && n@ == name@,
        },
{
    match branch_ref {
        BranchRef::Previous => BranchSource::Previous,
        BranchRef::DefaultBranch => BranchSource::Named(config.worktree.default_branch.clone()),
        BranchRef::Current => BranchSource::Current,
        BranchRef::Named(name) => BranchSource::Named(name.clone()),
    }
}

/// The directory of the first worktree on `branch`, or the error that no
/// worktree is on it.
pub fn resolve_path(entries: &Vec<WorktreeEntry>, branch: &str) -> (r: Result<String, LucusError>)
    ensures
        match r {
            Ok(p) => exists|i: int|
                first_on_branch(entries@, branch@, i) && #[trigger] entries@[i].path@ == p@,
            Err(e) => e@ == ErrorView::NoWorktree(branch@) && forall|i: int|
                0 <= i < entries@.len() ==> entries@[i].branch@ != branch@,
        },
{
    match find_worktree_by_branch(entries, branch) {
        Some(p) => Ok(p),
        None => Err(LucusError::NoWorktree(string_of(&chars_of(branch)))),
    }
}

} // verus!
