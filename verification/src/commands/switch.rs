//! `lucus switch`: the same as `lucus query`.
use vstd::prelude::*;
use crate::config::Config;
use crate::commands::query::{BranchRef, BranchSource, branch_source};

verus! {

/// Switching resolves a branch reference exactly as querying does.
pub fn run(config: &Config, branch_ref: &BranchRef) -> (r: BranchSource)
    ensures
        match *branch_ref {
            BranchRef::Previous => r == BranchSource::Previous,
            BranchRef::Current => r == BranchSource::Current,
            BranchRef::DefaultBranch => r matches BranchSource::Named(n) && n@
                == config.worktree.default_branch@,
            BranchRef::Named(name) => r matches BranchSource::Named(n) && n@ == name@,
        },
{
    branch_source(config, branch_ref)
}

} // verus!
