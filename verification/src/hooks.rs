//! Hooks: shell commands run with the worktree described in environment
//! variables. The command text is handed to the shell as it is; the
//! branch and paths only ever reach it as variables.
use vstd::prelude::*;
use crate::error::{ErrorView, LucusError};
use crate::text::text_of;

verus! {

/// What a hook learns of the worktree.
#[derive(Clone, Debug)]
pub struct HookContext {
    pub branch: String,
    pub worktree_path: String,
    pub repo_root: String,
    pub agent: Option<String>,
    pub task: Option<String>,
}

/// One run of `sh -c command` with the given environment variables,
/// waited for unless `background`.
#[derive(Clone, Debug)]
pub struct HookInvocation {
    pub command: String,
    pub env: Vec<(String, String)>,
    pub background: bool,
}

/// The text of an optional string, empty when absent.
pub open spec fn text_or_empty(o: Option<String>) -> Seq<char> {
    match o {
        Some(s) => s@,
        None => Seq::empty(),
    }
}

/// The environment variables a hook gets, in order.
pub open spec fn hook_env(ctx: HookContext) -> Seq<(Seq<char>, Seq<char>)> {
    seq![
        ("LUCUS_BRANCH"@, ctx.branch@),
        ("LUCUS_WORKTREE_PATH"@, ctx.worktree_path@),
        ("LUCUS_REPO"@, ctx.repo_root@),
        ("LUCUS_AGENT"@, text_or_empty(ctx.agent)),
        ("LUCUS_TASK"@, text_or_empty(ctx.task)),
    ]
}

/// The views of a list of variables.
pub open spec fn env_view(v: Seq<(String, String)>) -> Seq<(Seq<char>, Seq<char>)> {
    v.map_values(|p: (String, String)| (p.0@, p.1@))
}

fn opt_text(o: &Option<String>) -> (r: String)
    ensures
        r@ == text_or_empty(*o),
{
    match o {
        Some(s) => s.clone(),
        None => String::new(),
    }
}

fn hook_env_exec(ctx: &HookContext) -> (r: Vec<(String, String)>)
    ensures
        env_view(r@) == hook_env(*ctx),
{
    let mut r: Vec<(String, String)> = Vec::new();
    r.push((text_of("LUCUS_BRANCH"), ctx.branch.clone()));
    r.push((text_of("LUCUS_WORKTREE_PATH"), ctx.worktree_path.clone()));
    r.push((text_of("LUCUS_REPO"), ctx.repo_root.clone()));
    r.push((text_of("LUCUS_AGENT"), opt_text(&ctx.agent)));
    r.push((text_of("LUCUS_TASK"), opt_text(&ctx.task)));
    assert(env_view(r@) =~= hook_env(*ctx));
    r
}

/// Whether `plan` runs each of `commands`, unchanged and in order, with the
/// hook environment of `ctx`, in the background or not.
pub open spec fn is_hook_plan(
    plan: Seq<HookInvocation>,
    commands: Seq<String>,
    ctx: HookContext,
    background: bool,
) -> bool {
    &&& plan.len() == commands.len()
    &&& forall|i: int|
        0 <= i < plan.len() ==> {
            &&& (#[trigger] plan[i]).command@ == commands[i]@
            &&& env_view(plan[i].env@) == hook_env(ctx)
            &&& plan[i].background == background
        }
}

fn plan(commands: &Vec<String>, ctx: &HookContext, background: bool) -> (r: Vec<HookInvocation>)
    ensures
        is_hook_plan(r@, commands@, *ctx, background),
{
    let mut r: Vec<HookInvocation> = Vec::new();
    let n = commands.len();
    for i in 0..n
        invariant
            n == commands@.len(),
            r@.len() == i,
            forall|j: int|
                0 <= j < i ==> {
                    &&& (#[trigger] r@[j]).command@ == commands@[j]@
                    &&& env_view(r@[j].env@) == hook_env(*ctx)
                    &&& r@[j].background == background
                },
    {
        r.push(
            HookInvocation { command: commands[i].clone(), env: hook_env_exec(ctx), background },
        );
    }
    r
}

/// The hook runs for `commands`, each waited for in turn; the caller stops
/// at the first that fails.
pub fn run_blocking(commands: &Vec<String>, ctx: &HookContext) -> (r: Vec<HookInvocation>)
    ensures
        is_hook_plan(r@, commands@, *ctx, false),
{
    plan(commands, ctx, false)
}

/// The hook runs for `commands`, each started in the background; the caller
/// stops at the first that cannot be started.
pub fn run_background(commands: &Vec<String>, ctx: &HookContext) -> (r: Vec<HookInvocation>)
    ensures
        is_hook_plan(r@, commands@, *ctx, true),
{
    plan(commands, ctx, true)
}

/// How one hook run ended, as the caller saw it.
#[derive(Clone, Debug)]
pub enum HookExit {
    /// Started in the background and not waited for.
    Started,
    /// Waited for: whether the exit status counts as success, and the
    /// status as shown.
    Exited(bool, String),
}

/// What follows the run of `plan[index]`: the index of the next hook,
/// `None` when all have run, or the error that stops the run.
pub open spec fn hook_step(plan: Seq<HookInvocation>, index: int, exit: HookExit) -> Result<
    Option<int>,
    ErrorView,
> {
    match exit {
        HookExit::Exited(ok, status) if !ok => Err(
            ErrorView::HookFailed(status@, plan[index].command@),
        ),
        _ => Ok(
            if index + 1 < plan.len() {
                Some(index + 1)
            } else {
                None
            },
        ),
    }
}

/// Hooks run one after another: after a hook that did not fail (started
/// in the background, or exited with success) comes the next one while
/// there is one, and the run ends after the last; a hook that exited with
/// a failing status stops the run with that status and its command.
pub proof fn law_hook_order(plan: Seq<HookInvocation>, index: int, exit: HookExit)
    requires
        0 <= index < plan.len(),
    ensures
        !(exit matches HookExit::Exited(ok, _) && !ok) && index + 1 < plan.len() ==> hook_step(
            plan,
            index,
            exit,
        ) == Ok::<Option<int>, ErrorView>(Some(index + 1)),
        !(exit matches HookExit::Exited(ok, _) && !ok) && index + 1 == plan.len() ==> hook_step(
            plan,
            index,
            exit,
        ) == Ok::<Option<int>, ErrorView>(None),
        exit matches HookExit::Exited(ok, status) ==> (!ok ==> hook_step(plan, index, exit) == Err::<
            Option<int>,
            ErrorView,
        >(ErrorView::HookFailed(status@, plan[index].command@))),
{
}

/// When no hook fails, running a plan from its first hook reaches every
/// hook in order: `k` steps from the start lead to hook `k`.
pub proof fn law_hooks_all_reached(plan: Seq<HookInvocation>, k: int)
    requires
        0 <= k < plan.len(),
    ensures
        reached_after(plan, k) == Some(k),
    decreases k,
{
    if k > 0 {
        law_hooks_all_reached(plan, k - 1);
    }
}

/// The hook reached after `k` steps from the first, each hook ending
/// without failure (as if exited with success); `None` once the run has
/// ended.
pub open spec fn reached_after(plan: Seq<HookInvocation>, k: int) -> Option<int>
    decreases k,
{
    if k <= 0 {
        if plan.len() > 0 {
            Some(0)
        } else {
            None
        }
    } else {
        match reached_after(plan, k - 1) {
            Some(i) => match hook_step(plan, i, HookExit::Started) {
                Ok(next) => next,
                Err(_) => None,
            },
            None => None,
        }
    }
}

/// The step after running `plan[index]`: hooks run in order, and a hook
/// that was waited for and failed stops the run with its status and
/// command.
pub fn next_hook(plan: &Vec<HookInvocation>, index: usize, exit: &HookExit) -> (r: Result<
    Option<usize>,
    LucusError,
>)
    requires
        index < plan@.len(),
    ensures
        match r {
            Ok(Some(i)) => hook_step(plan@, index as int, *exit) == Ok::<Option<int>, ErrorView>(
                Some(i as int),
            ),
            Ok(None) => hook_step(plan@, index as int, *exit) == Ok::<Option<int>, ErrorView>(
                None,
            ),
            Err(e) => hook_step(plan@, index as int, *exit) == Err::<Option<int>, ErrorView>(e@),
        },
{
    match exit {
        HookExit::Exited(ok, status) => {
            if !*ok {
                return Err(LucusError::HookFailed(status.clone(), plan[index].command.clone()));
            }
        },
        HookExit::Started => {},
    }
    if index < plan.len() - 1 {
        Ok(Some(index + 1))
    } else {
        Ok(None)
    }
}

} // verus!
