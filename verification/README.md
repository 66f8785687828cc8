# lucus

A git worktree manager for running several coding sessions on one
repository: `lucus new <branch>` creates a worktree from a path template,
`lucus list` shows every worktree with its ahead/behind/uncommitted counts
(a table on a terminal, NDJSON otherwise), `lucus query`/`lucus switch`
print the directory of a worktree (`-`, `^` and `@` name the previous,
default and current branch), `lucus remove` deletes a worktree and its
branch, and `lucus init <zsh|bash>` installs the shell function that lets
`switch` change directory.

Layout:

- `src/` — the library, verified with Verus: branch sanitizing, the path
  model and worktree path resolution, the worktree list order, the
  `git status` report reader, env file selection, `.gitignore` upkeep,
  hook plans, the list output, and the shell-function installer.
- `app/` — the program around it: command-line parsing, the configuration
  file, git2 and `git` calls, the file system, and running hooks.
- `tests/` — tests of the library.
