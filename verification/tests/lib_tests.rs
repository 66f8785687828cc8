use lucus::config::{default_default_branch, default_path_template, Config, WorktreeConfig};
use lucus::error::LucusError;
use lucus::hooks::{next_hook, run_background, run_blocking, HookContext, HookExit};
use lucus::number::{decimal_exec, parse_u32_exec};
use lucus::text::{chars_of, lines_exec, replace_exec, trim_chars};

fn chars(s: &str) -> Vec<char> {
    s.chars().collect()
}

fn text(v: &[char]) -> String {
    v.iter().collect()
}

#[test]
fn config_defaults() {
    assert_eq!(default_path_template(), "../{repo}.{branch}");
    assert_eq!(default_default_branch(), "main");
    let w = WorktreeConfig::default();
    assert_eq!(w.path_template, "../{repo}.{branch}");
    let c = Config::default();
    assert_eq!(c.worktree.default_branch, "main");
    assert!(c.hooks.post_create.is_empty() && c.files.copy.is_empty());
}

#[test]
fn hooks_pass_context_in_environment() {
    let ctx = HookContext {
        branch: "feat/x".to_string(),
        worktree_path: "/w".to_string(),
        repo_root: "/r".to_string(),
        agent: Some("codex".to_string()),
        task: None,
    };
    let commands = vec!["echo $LUCUS_BRANCH".to_string(), "true".to_string()];
    let plan = run_blocking(&commands, &ctx);
    assert_eq!(plan.len(), 2);
    assert_eq!(plan[0].command, "echo $LUCUS_BRANCH");
    assert!(!plan[0].background);
    let env: Vec<(&str, &str)> = plan[1]
        .env
        .iter()
        .map(|(k, v)| (k.as_str(), v.as_str()))
        .collect();
    assert_eq!(
        env,
        vec![
            ("LUCUS_BRANCH", "feat/x"),
            ("LUCUS_WORKTREE_PATH", "/w"),
            ("LUCUS_REPO", "/r"),
            ("LUCUS_AGENT", "codex"),
            ("LUCUS_TASK", "")
        ]
    );
    let bg = run_background(&commands, &ctx);
    assert!(bg.iter().all(|inv| inv.background));
    assert!(run_blocking(&Vec::new(), &ctx).is_empty());
}

#[test]
fn error_messages() {
    assert_eq!(
        LucusError::InsideRepository("/a/b".to_string(), "/a".to_string()).message(),
        "resolved worktree path /a/b is inside source repository /a"
    );
    assert_eq!(
        LucusError::PathTraversal("/..".to_string()).message(),
        "invalid path traversal in /.."
    );
    assert_eq!(
        LucusError::EmptyBranchName.message(),
        "branch name is empty after sanitization"
    );
    assert_eq!(
        LucusError::NoRepoName("/".to_string()).message(),
        "failed to derive repository name from /"
    );
}

#[test]
fn lines_follow_str_lines() {
    for sample in ["", "a", "a\n", "a\r\nb", "\n\n", "x\r", "a\nb\r\n\r\nc\r"] {
        let got: Vec<String> = lines_exec(&chars(sample)).iter().map(|l| text(l)).collect();
        let want: Vec<String> = sample.lines().map(|l| l.to_string()).collect();
        assert_eq!(got, want, "lines of {sample:?}");
    }
}

#[test]
fn trim_follows_str_trim() {
    for sample in ["", "  a b  ", "\u{3000}x\u{85}", "\t\r\n", "\u{200b}y"] {
        assert_eq!(text(&trim_chars(&chars(sample))), sample.trim());
    }
}

#[test]
fn parse_u32_follows_str_parse() {
    for sample in ["0", "+7", "-1", "", "+", "4294967295", "4294967296", "12a", " 1", "0007"] {
        assert_eq!(parse_u32_exec(&chars(sample)), sample.parse::<u32>().ok(), "{sample:?}");
    }
    assert_eq!(text(&decimal_exec(0)), "0");
    assert_eq!(text(&decimal_exec(4294967295)), "4294967295");
}

#[test]
fn replace_follows_str_replace() {
    for (s, p, r) in [("aaa", "aa", "b"), ("{x}{x}", "{x}", "yy"), ("none", "zz", "q")] {
        assert_eq!(text(&replace_exec(&chars(s), &chars(p), &chars(r))), s.replace(p, r));
    }
    assert_eq!(chars_of("héllo"), chars("héllo"));
}

#[test]
fn hooks_run_in_order_and_stop_at_first_failure() {
    let ctx = HookContext {
        branch: "b".to_string(),
        worktree_path: "/w".to_string(),
        repo_root: "/r".to_string(),
        agent: None,
        task: None,
    };
    let plan = run_blocking(&vec!["one".to_string(), "two".to_string()], &ctx);
    assert_eq!(next_hook(&plan, 0, &HookExit::Exited(true, "exit status: 0".to_string())), Ok(Some(1)));
    assert_eq!(next_hook(&plan, 1, &HookExit::Exited(true, "exit status: 0".to_string())), Ok(None));
    let err = next_hook(&plan, 0, &HookExit::Exited(false, "exit status: 3".to_string())).unwrap_err();
    assert_eq!(err, LucusError::HookFailed("exit status: 3".to_string(), "one".to_string()));
    assert_eq!(err.message(), "hook command failed with status exit status: 3: one");
    let bg = run_background(&vec!["x".to_string()], &ctx);
    assert_eq!(next_hook(&bg, 0, &HookExit::Started), Ok(None));
}
