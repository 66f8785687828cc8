use lucus::error::LucusError;
use lucus::git::{
    branch_delete_args, branch_for_head, find_worktree_by_branch, normalize_absolute_path,
    order_worktrees, parse_previous_branch, parse_worktree_stats, resolve_worktree_path,
    sanitize_branch, sort_worktrees, render_worktree_path, check_outside_repository, dedup_worktrees, worktree_add_args, worktree_remove_args,
    previous_branch_args, status_args, WorktreeEntry, WorktreeStats,
};

fn entry(branch: &str, path: &str) -> WorktreeEntry {
    WorktreeEntry {
        branch: branch.to_string(),
        path: path.to_string(),
    }
}

#[test]
fn sanitize_branch_keeps_allowed_characters() {
    assert_eq!(sanitize_branch("feat/auth"), "feat/auth");
    assert_eq!(sanitize_branch("$(rm -rf ~)"), "rm-rf");
    assert_eq!(sanitize_branch("héllo wörld_1"), "hllowrld_1");
    assert_eq!(sanitize_branch(""), "");
    let long = "a".repeat(70);
    assert_eq!(sanitize_branch(&long).len(), 60);
    let once = sanitize_branch("x y/z!!");
    assert_eq!(sanitize_branch(&once), once);
}

#[test]
fn find_worktree_by_branch_takes_first_match() {
    let entries = vec![entry("main", "/r"), entry("feat", "/a"), entry("feat", "/b")];
    assert_eq!(find_worktree_by_branch(&entries, "feat"), Some("/a".to_string()));
    assert_eq!(find_worktree_by_branch(&entries, "main"), Some("/r".to_string()));
    assert_eq!(find_worktree_by_branch(&entries, "nope"), None);
}

#[test]
fn order_worktrees_sorts_stably_and_drops_repeated_paths() {
    let entries = vec![
        entry("zeta", "/z"),
        entry("alpha", "/a1"),
        entry("HEAD", "/h"),
        entry("alpha", "/a2"),
        entry("alpha", "/a2"),
    ];
    let sorted = sort_worktrees(entries.clone());
    assert_eq!(
        sorted,
        vec![
            entry("HEAD", "/h"),
            entry("alpha", "/a1"),
            entry("alpha", "/a2"),
            entry("alpha", "/a2"),
            entry("zeta", "/z"),
        ]
    );
    assert_eq!(
        order_worktrees(entries),
        vec![
            entry("HEAD", "/h"),
            entry("alpha", "/a1"),
            entry("alpha", "/a2"),
            entry("zeta", "/z"),
        ]
    );
    assert_eq!(
        dedup_worktrees(vec![entry("a", "/p"), entry("b", "/p"), entry("c", "/q"), entry("d", "/p")]),
        vec![entry("a", "/p"), entry("c", "/q"), entry("d", "/p")]
    );
}

#[test]
fn parse_worktree_stats_reads_porcelain_v2() {
    let text = "# branch.oid abc\n# branch.head main\n# branch.upstream origin/main\n# branch.ab +2 -3\n1 .M N... 100644 100644 100644 a b file.rs\n? new.txt\n\n   \n";
    assert_eq!(
        parse_worktree_stats(text),
        WorktreeStats {
            ahead: 2,
            behind: 3,
            uncommitted: 2
        }
    );
    assert_eq!(
        parse_worktree_stats("# branch.ab +x -7\n"),
        WorktreeStats {
            ahead: 0,
            behind: 7,
            uncommitted: 0
        }
    );
    assert_eq!(
        parse_worktree_stats(""),
        WorktreeStats {
            ahead: 0,
            behind: 0,
            uncommitted: 0
        }
    );
    assert_eq!(
        parse_worktree_stats("# branch.ab +99999999999 -+4\r\nM x\r\n"),
        WorktreeStats {
            ahead: 0,
            behind: 4,
            uncommitted: 1
        }
    );
}

#[test]
fn previous_branch_is_trimmed_output() {
    assert_eq!(
        parse_previous_branch(true, "  feat/x \n"),
        Ok("feat/x".to_string())
    );
    assert_eq!(
        parse_previous_branch(true, " \n"),
        Err(LucusError::PreviousBranchUnresolved)
    );
    assert_eq!(
        parse_previous_branch(false, "main"),
        Err(LucusError::PreviousBranchUnresolved)
    );
}

#[test]
fn branch_for_head_names_detached_head() {
    assert_eq!(branch_for_head(false, None), Ok("HEAD".to_string()));
    assert_eq!(
        branch_for_head(true, Some("main".to_string())),
        Ok("main".to_string())
    );
    assert_eq!(branch_for_head(true, None), Err(LucusError::BranchShorthand));
}

#[test]
fn resolve_worktree_path_renders_template() {
    assert_eq!(
        resolve_worktree_path("../{repo}.{branch}", "/code/myapp", "feat/auth", "/", "/code/myapp"),
        Ok("/code/myapp.feat/auth".to_string())
    );
    assert_eq!(
        resolve_worktree_path("/wt/{branch}-{branch}", "/code/app", "x y", "/", "/code/app"),
        Ok("/wt/xy-xy".to_string())
    );
    assert_eq!(
        resolve_worktree_path("{branch}", "/code/app", "feat", "/", "/code/app"),
        Err(LucusError::InsideRepository(
            "/code/app/feat".to_string(),
            "/code/app".to_string()
        ))
    );
    assert_eq!(
        resolve_worktree_path("../x", "/code/app", "!!!", "/", "/code/app"),
        Err(LucusError::EmptyBranchName)
    );
    assert_eq!(
        resolve_worktree_path("../x", "/", "b", "/", "/"),
        Err(LucusError::NoRepoName("/".to_string()))
    );
    assert_eq!(
        resolve_worktree_path("/../../{branch}", "/code/app", "b", "/", "/code/app"),
        Err(LucusError::PathTraversal("/../../b".to_string()))
    );
}

#[test]
fn resolved_worktree_path_has_no_dot_components() {
    let p = resolve_worktree_path("./a/../../{repo}-wt/./{branch}", "/code/app", "b", "/", "/code/app")
        .expect("path should resolve");
    assert_eq!(p, "/code/app-wt/b");
    assert!(p.starts_with('/'));
    assert!(p.split('/').all(|c| c != "." && c != ".."));
}

#[test]
fn normalize_absolute_path_uses_cwd_for_relative_paths() {
    assert_eq!(normalize_absolute_path("a/../b", "/home/u"), Ok("/home/u/b".to_string()));
    assert_eq!(normalize_absolute_path("/a/./b/..", "/ignored"), Ok("/a".to_string()));
    assert_eq!(
        normalize_absolute_path("/..", "/"),
        Err(LucusError::PathTraversal("/..".to_string()))
    );
}

#[test]
fn git_arguments() {
    assert_eq!(
        worktree_add_args("/r", "b", "/p"),
        vec!["-C", "/r", "worktree", "add", "-b", "b", "/p"]
    );
    assert_eq!(
        worktree_remove_args("/r", "/p", true),
        vec!["-C", "/r", "worktree", "remove", "--force", "/p"]
    );
    assert_eq!(
        worktree_remove_args("/r", "/p", false),
        vec!["-C", "/r", "worktree", "remove", "/p"]
    );
    assert_eq!(branch_delete_args("/r", "b"), vec!["-C", "/r", "branch", "-D", "b"]);
    assert_eq!(
        previous_branch_args("/r"),
        vec!["-C", "/r", "rev-parse", "--abbrev-ref", "@{-1}"]
    );
    assert_eq!(
        status_args("/w"),
        vec!["-C", "/w", "status", "--porcelain=v2", "--branch"]
    );
}

#[test]
fn resolve_worktree_path_in_two_steps() {
    let rendered = render_worktree_path("{branch}", "/code/app", "feat", "/");
    assert_eq!(rendered, Ok("/code/app/feat".to_string()));
    assert_eq!(
        check_outside_repository("/code/app/feat", "/code/app"),
        Err(LucusError::InsideRepository(
            "/code/app/feat".to_string(),
            "/code/app".to_string()
        ))
    );
    assert_eq!(
        check_outside_repository("/code/app.feat", "/code/app"),
        Ok("/code/app.feat".to_string())
    );
    assert_eq!(
        render_worktree_path("../x", "/missing/repo", "$$$", "/"),
        Err(LucusError::EmptyBranchName)
    );
}
