//! `lucus init`: the shell function that lets `lucus switch` and `lucus new`
//! change the directory of the shell, and its place in the shell's rc file.
use vstd::prelude::*;
use crate::error::{ErrorView, LucusError, text_result};
use crate::path::{join, join_exec};
use crate::text::{append_str, chars_eq, chars_of, contains, find_exec, occurs_at, string_of, text_of};

verus! {

/// The line that opens the installed block.
pub const START_MARKER: &'static str = "# >>> lucus init >>>";

/// The line that closes the installed block.
pub const END_MARKER: &'static str = "# <<< lucus init <<<";

/// The shell function, the same for zsh and bash.
pub const WRAPPER_BODY: &'static str = r#"lucus() {
  if [[ "$1" == "switch" || "$1" == "new" ]]; then
    local dir
    dir=$(command lucus query "${@:2}" 2>/dev/null)
    if [[ -n "$dir" ]]; then
      cd "$dir" || return 1
    else
      command lucus "$@"
    fi
  else
    command lucus "$@"
  fi
}
"#;

/// Whether `init` knows the shell.
pub open spec fn is_supported_shell(shell: Seq<char>) -> bool {
    shell == "zsh"@ || shell == "bash"@
}

/// The block written to the rc file.
pub open spec fn wrapper_text() -> Seq<char> {
    START_MARKER@ + "\n"@ + WRAPPER_BODY@ + END_MARKER@ + "\n"@
}

fn shell_is(shell: &str, name: &str) -> (r: bool)
    ensures
        r == (shell@ == name@),
{
    chars_eq(&chars_of(shell), &chars_of(name))
}

/// The rc file of the shell under the home directory `home`.
pub fn rc_path(home: &str, shell: &str) -> (r: Result<String, LucusError>)
    ensures
        text_result(r) == if shell@ == "zsh"@ {
            Ok(join(home@, ".zshrc"@))
        } else if shell@ == "bash"@ {
            Ok(join(home@, ".bashrc"@))
        } else {
            Err(ErrorView::UnsupportedShell(shell@))
        },
{
    if shell_is(shell, "zsh") {
        Ok(string_of(&join_exec(&chars_of(home), &chars_of(".zshrc"))))
    } else if shell_is(shell, "bash") {
        Ok(string_of(&join_exec(&chars_of(home), &chars_of(".bashrc"))))
    } else {
        Err(LucusError::UnsupportedShell(text_of(shell)))
    }
}

/// The block to write to the rc file of `shell`: the shell function
/// between the start and end marker lines.
pub fn wrapper_block(shell: &str) -> (r: Result<String, LucusError>)
    ensures
        text_result(r) == if is_supported_shell(shell@) {
            Ok(wrapper_text())
        } else {
            Err(ErrorView::UnsupportedShell(shell@))
        },
{
    if shell_is(shell, "zsh") || shell_is(shell, "bash") {
        let mut v: Vec<char> = Vec::new();
        append_str(&mut v, START_MARKER);
        append_str(&mut v, "\n");
        append_str(&mut v, WRAPPER_BODY);
        append_str(&mut v, END_MARKER);
        append_str(&mut v, "\n");
        Ok(string_of(&v))
    } else {
        Err(LucusError::UnsupportedShell(text_of(shell)))
    }
}

/// Whether the rc text already holds a lucus shell function.
pub open spec fn already_installed(existing: Seq<char>) -> bool {
    contains(existing, START_MARKER@) || contains(existing, "lucus() {"@) || contains(
        existing,
        "function lucus"@,
    )
}

/// The rc text with `block` appended on lines of its own, or `None` when a
/// lucus shell function is already there.
pub open spec fn installed(existing: Seq<char>, block: Seq<char>) -> Option<Seq<char>> {
    if already_installed(existing) {
        None
    } else if existing.len() > 0 && existing.last() != '\n' {
        Some(existing.push('\n') + block)
    } else {
        Some(existing + block)
    }
}

/// The new rc text with `block` installed, or `None` to skip.
pub fn install(existing: &str, block: &str) -> (r: Option<String>)
    ensures
        match r {
            Some(u) => installed(existing@, block@) == Some(u@),
            None => installed(existing@, block@) is None,
        },
{
    let e = chars_of(existing);
    let found = find_exec(&e, &chars_of(START_MARKER)).is_some() || find_exec(
        &e,
        &chars_of("lucus() {"),
    ).is_some() || find_exec(&e, &chars_of("function lucus")).is_some();
    if found {
        return None;
    }
    let mut v = e;
    let n = v.len();
    if n > 0 && v[n - 1] != '\n' {
        v.push('\n');
    }
    append_str(&mut v, block);
    Some(string_of(&v))
}

/// Installing skips rc text that holds the opening marker
/// `# >>> lucus init >>>`, a `lucus() {` function or a `function lucus`
/// definition; any other text gets the block on lines of its own after it.
pub proof fn law_install_probes(existing: Seq<char>, block: Seq<char>)
    ensures
        contains(existing, "# >>> lucus init >>>"@) ==> installed(existing, block) is None,
        contains(existing, "lucus() {"@) ==> installed(existing, block) is None,
        contains(existing, "function lucus"@) ==> installed(existing, block) is None,
        !contains(existing, "# >>> lucus init >>>"@) && !contains(existing, "lucus() {"@)
            && !contains(existing, "function lucus"@) ==> installed(existing, block) == Some(
            if existing.len() > 0 && existing.last() != '\n' {
                existing + "\n"@ + block
            } else {
                existing + block
            },
        ),
{
    reveal_strlit("\n");
    assert(existing.push('\n') + block =~= existing + "\n"@ + block);
    assert(START_MARKER@ == "# >>> lucus init >>>"@);
}

/// Installing the shell function into text that already holds the lucus
/// block or a lucus function changes nothing; so a second install, after a
/// first one, changes nothing.
pub proof fn law_install_once(existing: Seq<char>)
    ensures
        already_installed(existing) ==> installed(existing, wrapper_text()) is None,
        installed(existing, wrapper_text()) matches Some(u) ==> already_installed(u)
            && installed(u, wrapper_text()) is None,
{
    if let Some(u) = installed(existing, wrapper_text()) {
        let a = if existing.len() > 0 && existing.last() != '\n' {
            existing.push('\n')
        } else {
            existing
        };
        assert(u == a + wrapper_text());
        let m = START_MARKER@;
        let k = a.len() as int;
        assert(u.subrange(k, k + m.len()) =~= m);
        assert(occurs_at(u, m, k));
        assert(contains(u, m));
    }
}

} // verus!
