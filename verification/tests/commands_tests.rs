use owo_colors::OwoColorize;
use lucus::commands::init::{install, rc_path, wrapper_block, END_MARKER, START_MARKER};
use lucus::commands::list::{escape_json, run};
use lucus::commands::new::{branch_name, ensure_new_worktree};
use lucus::commands::query::{branch_source, resolve_path, BranchRef, BranchSource};
use lucus::config::Config;
use lucus::error::LucusError;
use lucus::git::{WorktreeEntry, WorktreeStats};
use lucus::output::{detect_format, OutputFormat};

fn entry(branch: &str, path: &str) -> WorktreeEntry {
    WorktreeEntry {
        branch: branch.to_string(),
        path: path.to_string(),
    }
}

#[test]
fn branch_ref_parses_shortcuts() {
    assert_eq!(BranchRef::parse("-"), Ok(BranchRef::Previous));
    assert_eq!(BranchRef::parse("^"), Ok(BranchRef::DefaultBranch));
    assert_eq!(BranchRef::parse("@"), Ok(BranchRef::Current));
    assert_eq!(BranchRef::parse(""), Err(LucusError::EmptyBranchRef));
    assert_eq!(
        BranchRef::parse("feat/x"),
        Ok(BranchRef::Named("feat/x".to_string()))
    );
    assert_eq!("--".parse::<BranchRef>(), Ok(BranchRef::Named("--".to_string())));
}

#[test]
fn branch_source_uses_default_branch() {
    let config = Config::default();
    assert_eq!(
        branch_source(&config, &BranchRef::DefaultBranch),
        BranchSource::Named("main".to_string())
    );
    assert_eq!(branch_source(&config, &BranchRef::Previous), BranchSource::Previous);
    assert_eq!(branch_source(&config, &BranchRef::Current), BranchSource::Current);
    assert_eq!(
        lucus::commands::switch::run(&config, &BranchRef::Named("x".to_string())),
        BranchSource::Named("x".to_string())
    );
}

#[test]
fn resolve_path_reports_missing_worktree() {
    let entries = vec![entry("main", "/r"), entry("feat", "/f")];
    assert_eq!(resolve_path(&entries, "feat"), Ok("/f".to_string()));
    let err = resolve_path(&entries, "gone").unwrap_err();
    assert_eq!(err, LucusError::NoWorktree("gone".to_string()));
    assert_eq!(err.message(), "no worktree found for branch gone");
}

#[test]
fn new_checks_branch_and_existing_worktree() {
    assert_eq!(branch_name("feat auth!"), Ok("featauth".to_string()));
    assert_eq!(branch_name("***"), Err(LucusError::EmptyBranchName));
    let entries = vec![entry("main", "/r")];
    assert_eq!(ensure_new_worktree(&entries, "feat"), Ok(()));
    let err = ensure_new_worktree(&entries, "main").unwrap_err();
    assert_eq!(err.message(), "worktree already exists for branch main");
}

#[test]
fn init_paths_and_block() {
    assert_eq!(rc_path("/home/u", "zsh"), Ok("/home/u/.zshrc".to_string()));
    assert_eq!(rc_path("/home/u/", "bash"), Ok("/home/u/.bashrc".to_string()));
    let err = rc_path("/home/u", "fish").unwrap_err();
    assert_eq!(err.message(), "unsupported shell 'fish', expected zsh or bash");
    let block = wrapper_block("zsh").unwrap();
    assert!(block.starts_with(&format!("{START_MARKER}\nlucus() {{\n")));
    assert!(block.ends_with(&format!("}}\n{END_MARKER}\n")));
    assert_eq!(wrapper_block("bash").unwrap(), block);
    assert!(wrapper_block("sh").is_err());
}

#[test]
fn init_installs_once() {
    let block = wrapper_block("bash").unwrap();
    let first = install("export A=1", &block).unwrap();
    assert_eq!(first, format!("export A=1\n{block}"));
    assert_eq!(install(&first, &block), None);
    assert_eq!(install("", &block), Some(block.clone()));
    assert_eq!(install("function lucus { :; }\n", &block), None);
}

#[test]
fn escape_json_escapes_specials() {
    assert_eq!(escape_json("a\"b\\c\nd\re\tf"), "a\\\"b\\\\c\\nd\\re\\tf");
    assert_eq!(escape_json("plain/é"), "plain/é");
}

#[test]
fn escape_json_escapes_control_characters() {
    assert_eq!(escape_json("\u{1}"), "\\u0001");
    assert_eq!(escape_json("a\u{1f}b\u{0}"), "a\\u001fb\\u0000");
    assert_eq!(escape_json("\u{8}\u{c}\u{7f}"), "\\u0008\\u000c\u{7f}");
    let all: String = (0u32..0x20).filter_map(char::from_u32).collect();
    assert!(escape_json(&all).chars().all(|c| (c as u32) >= 0x20));
}

#[test]
fn list_ndjson_lines() {
    let entries = vec![entry("feat/auth", "/code/app.feat-auth")];
    let stats = vec![WorktreeStats {
        ahead: 2,
        behind: 0,
        uncommitted: 3,
    }];
    assert_eq!(
        run(OutputFormat::Ndjson, &entries, &stats),
        vec!["{\"branch\":\"feat/auth\",\"path\":\"/code/app.feat-auth\",\"ahead\":2,\"behind\":0,\"uncommitted\":3}"]
    );
}

#[test]
fn list_human_table() {
    let entries = vec![entry("main", "/r"), entry("feat/longer", "/r2")];
    let stats = vec![
        WorktreeStats {
            ahead: 1,
            behind: 22,
            uncommitted: 333,
        },
        WorktreeStats {
            ahead: 0,
            behind: 0,
            uncommitted: 0,
        },
    ];
    let lines = run(OutputFormat::Human, &entries, &stats);
    assert_eq!(lines.len(), 3);
    let (bw, pw) = (11, 4);
    assert_eq!(
        lines[0],
        format!(
            "{:<bw$}  {:<pw$}  {:>5}  {:>6}  {:>11}",
            "BRANCH".bold(),
            "PATH".bold(),
            "AHEAD".bold(),
            "BEHIND".bold(),
            "UNCOMMITTED".bold(),
        )
    );
    assert_eq!(
        lines[0],
        "\u{1b}[1mBRANCH     \u{1b}[0m  \u{1b}[1mPATH\u{1b}[0m  \u{1b}[1mAHEAD\u{1b}[0m  \u{1b}[1mBEHIND\u{1b}[0m  \u{1b}[1mUNCOMMITTED\u{1b}[0m"
    );
    assert_eq!(
        lines[1],
        format!("{:<bw$}  {:<pw$}  {:>5}  {:>6}  {:>11}", "main".cyan(), "/r", 1, 22, 333)
    );
    assert_eq!(
        lines[2],
        format!("{:<bw$}  {:<pw$}  {:>5}  {:>6}  {:>11}", "feat/longer".cyan(), "/r2", 0, 0, 0)
    );
    let empty = run(OutputFormat::Human, &Vec::new(), &Vec::new());
    assert_eq!(empty.len(), 1);
    assert!(empty[0].starts_with("\u{1b}[1mBRANCH\u{1b}[0m  \u{1b}[1mPATH\u{1b}[0m"));
}

#[test]
fn output_format_detection() {
    assert_eq!(detect_format(true, true), OutputFormat::Ndjson);
    assert_eq!(detect_format(false, false), OutputFormat::Ndjson);
    assert_eq!(detect_format(false, true), OutputFormat::Human);
}

#[test]
fn ndjson_rows_stay_on_one_line() {
    let entries = vec![entry("we\nird\"b", "/p\r\n\tq")];
    let stats = vec![WorktreeStats {
        ahead: 4294967295,
        behind: 10,
        uncommitted: 0,
    }];
    let lines = run(OutputFormat::Ndjson, &entries, &stats);
    assert_eq!(lines.len(), 1);
    assert!(!lines[0].contains('\n'));
    assert_eq!(
        lines[0],
        "{\"branch\":\"we\\nird\\\"b\",\"path\":\"/p\\r\\n\\tq\",\"ahead\":4294967295,\"behind\":10,\"uncommitted\":0}"
    );
}
