//! The configuration: where worktrees go, which branch is the default one,
//! which hooks run, and which files a new worktree gets.
use vstd::prelude::*;
use crate::text::text_of;

verus! {

/// Where worktrees are created and which branch `^` names.
#[derive(Clone, Debug)]
pub struct WorktreeConfig {
    pub path_template: String,
    pub default_branch: String,
}

/// Shell commands run around worktree creation and removal.
#[derive(Clone, Debug)]
pub struct HookConfig {
    pub post_create: Vec<String>,
    pub post_create_bg: Vec<String>,
    pub pre_remove: Vec<String>,
    pub post_remove: Vec<String>,
}

/// Files copied from the repository root into a new worktree (none means:
/// every `.env*` file of the root).
#[derive(Clone, Debug)]
pub struct FilesConfig {
    pub copy: Vec<String>,
}

/// The whole configuration.
#[derive(Clone, Debug)]
pub struct Config {
    pub worktree: WorktreeConfig,
    pub hooks: HookConfig,
    pub files: FilesConfig,
}

/// The path template used when none is configured.
pub fn default_path_template() -> (r: String)
    ensures
        r@ == "../{repo}.{branch}"@,
{
    text_of("../{repo}.{branch}")
}

/// The default branch used when none is configured.
pub fn default_default_branch() -> (r: String)
    ensures
        r@ == "main"@,
{
    text_of("main")
}

impl Default for WorktreeConfig {
    fn default() -> (r: Self)
        ensures
            r.path_template@ == "../{repo}.{branch}"@,
            r.default_branch@ == "main"@,
    {
        WorktreeConfig {
            path_template: default_path_template(),
            default_branch: default_default_branch(),
        }
    }
}

impl Default for HookConfig {
    fn default() -> (r: Self)
        ensures
            r.post_create@.len() == 0,
            r.post_create_bg@.len() == 0,
            r.pre_remove@.len() == 0,
            r.post_remove@.len() == 0,
    {
        HookConfig {
            post_create: Vec::new(),
            post_create_bg: Vec::new(),
            pre_remove: Vec::new(),
            post_remove: Vec::new(),
        }
    }
}

impl Default for FilesConfig {
    fn default() -> (r: Self)
        ensures
            r.copy@.len() == 0,
    {
        FilesConfig { copy: Vec::new() }
    }
}

impl Default for Config {
    fn default() -> (r: Self)
        ensures
            r.worktree.path_template@ == "../{repo}.{branch}"@,
            r.worktree.default_branch@ == "main"@,
            r.hooks.post_create@.len() == 0,
            r.hooks.post_create_bg@.len() == 0,
            r.hooks.pre_remove@.len() == 0,
            r.hooks.post_remove@.len() == 0,
            r.files.copy@.len() == 0,
    {
        Config {
            worktree: WorktreeConfig::default(),
            hooks: HookConfig::default(),
            files: FilesConfig::default(),
        }
    }
}

} // verus!
