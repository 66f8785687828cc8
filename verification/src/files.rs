//! Which env files a new worktree gets, and the `.gitignore` entry that
//! keeps worktrees made inside the repository out of it.
//!
//! Reading directories and files is the caller's part; these functions
//! take names and contents and say what to copy or write.
use vstd::prelude::*;
use crate::number::{is_sorted_permutation, sort_texts};
use crate::path::{
    components, components_exec, file_name, file_name_exec, is_absolute, is_normal,
    is_normal_exec, join, join_exec, join_with, join_with_exec, render, render_exec, root, walk,
    walk_exec, comps_prefix_exec,
};
use crate::text::{
    chars_of, string_of, views, trim, trim_chars, lines, lines_exec, trim_start_matches,
    trim_start_matches_exec, trim_end_matches_char, trim_end_matches_char_exec, occurs_at_exec,
    chars_eq, append_chars, sub_chars, strip_cr, occurs_at, views_of_strings, lemma_trim_push_ws,
    split_char, lemma_split_char_nonempty, lemma_split_char_append,
};

verus! {

/// `normalize_path`: `path` taken from `base` when relative, with `.`
/// dropped and `..` applied (a `..` at the top is ignored).
pub open spec fn normalized_path(path: Seq<char>, base: Seq<char>) -> Seq<char> {
    let absolute = if is_absolute(path) {
        path
    } else {
        join(base, path)
    };
    match walk(Seq::empty(), components(absolute), true) {
        Some(st) => render(st),
        None => Seq::empty(),
    }
}

proof fn lemma_walk_lenient_some(init: Seq<Seq<char>>, cs: Seq<Seq<char>>)
    ensures
        walk(init, cs, true) is Some,
    decreases cs.len(),
{
    if cs.len() > 0 {
        lemma_walk_lenient_some(init, cs.drop_last());
    }
}

/// Resolves `.` and `..` in `path` (taken from `base` when relative)
/// without touching the disk.
pub fn normalize_path(path: &str, base: &str) -> (r: String)
    ensures
        r@ == normalized_path(path@, base@),
{
    let p = chars_of(path);
    let absolute = if p.len() > 0 && p[0] == '/' {
        p
    } else {
        join_exec(&chars_of(base), &p)
    };
    let cs = components_exec(&absolute);
    proof {
        lemma_walk_lenient_some(Seq::empty(), views(cs@));
    }
    let init: Vec<Vec<char>> = Vec::new();
    assert(views(init@) =~= Seq::<Seq<char>>::empty());
    match walk_exec(init, &cs, true) {
        Some(st) => string_of(&render_exec(&st)),
        None => String::new(),
    }
}

/// The names among the components, in order.
pub open spec fn normal_only(cs: Seq<Seq<char>>) -> Seq<Seq<char>>
    decreases cs.len(),
{
    if cs.len() == 0 {
        cs
    } else if is_normal(cs.last()) {
        normal_only(cs.drop_last()).push(cs.last())
    } else {
        normal_only(cs.drop_last())
    }
}

/// The names among the components of a path, joined with `/`.
pub open spec fn unix_text(cs: Seq<Seq<char>>) -> Seq<char> {
    join_with(normal_only(cs), '/')
}

fn normal_only_exec(cs: &Vec<Vec<char>>) -> (r: Vec<Vec<char>>)
    ensures
        views(r@) == normal_only(views(cs@)),
{
    let mut r: Vec<Vec<char>> = Vec::new();
    let n = cs.len();
    let ghost cv = views(cs@);
    assert(cv.take(0) =~= Seq::<Seq<char>>::empty());
    assert(views(r@) =~= Seq::<Seq<char>>::empty());
    for i in 0..n
        invariant
            n == cs@.len(),
            cv == views(cs@),
            views(r@) == normal_only(cv.take(i as int)),
    {
        assert(cv.take(i + 1).drop_last() == cv.take(i as int));
        assert(cv.take(i + 1).last() == cs@[i as int]@);
        if is_normal_exec(&cs[i]) {
            let ghost old_r = r@;
            let x = sub_chars(&cs[i], 0, cs[i].len());
            assert(cs@[i as int]@.subrange(0, cs@[i as int]@.len() as int) == cs@[i as int]@);
            r.push(x);
            assert(views(r@) =~= views(old_r).push(cs@[i as int]@));
        }
    }
    assert(cv.take(n as int) =~= cv);
    r
}

/// The names in a path joined with `/`, whatever separators the path used.
pub fn path_to_unix(path: &str) -> (r: String)
    ensures
        r@ == unix_text(components(path@)),
{
    let cs = components_exec(&chars_of(path));
    let names = normal_only_exec(&cs);
    string_of(&join_with_exec(&names, '/'))
}

/// How a `.gitignore` line or entry compares: trimmed, without leading
/// `./` and `/`, without trailing `/`.
pub open spec fn normalized_entry(v: Seq<char>) -> Seq<char> {
    trim_end_matches_char(trim_start_matches(trim_start_matches(trim(v), "./"@), "/"@), '/')
}

/// Trims `value` and strips leading `./` and `/` and trailing `/`.
pub fn normalize_gitignore_entry(value: &str) -> (r: String)
    ensures
        r@ == normalized_entry(value@),
{
    let t = trim_chars(&chars_of(value));
    let a = trim_start_matches_exec(&t, &chars_of("./"));
    let b = trim_start_matches_exec(&a, &chars_of("/"));
    let c = trim_end_matches_char_exec(&b, '/');
    string_of(&c)
}

/// Whether some line of `contents` is `entry`, both normalized.
pub open spec fn has_entry(contents: Seq<char>, entry: Seq<char>) -> bool {
    exists|i: int|
        0 <= i < lines(contents).len() && normalized_entry(#[trigger] lines(contents)[i])
            == normalized_entry(entry)
}

/// Whether the `.gitignore` text already lists `entry`.
pub fn has_gitignore_entry(contents: &str, entry: &str) -> (r: bool)
    ensures
        r == has_entry(contents@, entry@),
{
    let wanted = normalize_gitignore_entry(entry);
    let w = chars_of(wanted.as_str());
    let ls = lines_exec(&chars_of(contents));
    let ghost lv = lines(contents@);
    let n = ls.len();
    for i in 0..n
        invariant
            n == ls@.len(),
            views(ls@) == lv,
            lv == lines(contents@),
            w@ == normalized_entry(entry@),
            forall|j: int| 0 <= j < i ==> normalized_entry(#[trigger] lv[j]) != normalized_entry(entry@),
    {
        assert(views(ls@)[i as int] == ls@[i as int]@);
        let line = normalize_gitignore_entry(string_of(&ls[i]).as_str());
        if chars_eq(&chars_of(line.as_str()), &w) {
            assert(normalized_entry(lv[i as int]) == normalized_entry(entry@));
            return true;
        }
    }
    false
}

/// The `.gitignore` entry for a worktree at `target` (canonical if it
/// exists, else taken from the repository root): the directory holding the
/// worktree, relative to the repository root and ending in `/`; none when
/// the worktree is outside the repository or directly in its root.
pub open spec fn gitignore_entry_for(repo_root: Seq<char>, target: Seq<char>) -> Option<Seq<char>> {
    let rc = components(repo_root);
    let tc = components(target);
    if !rc.is_prefix_of(tc) || tc.len() == 0 || tc.last() == root() {
        None
    } else {
        let parent = tc.drop_last();
        if !rc.is_prefix_of(parent) || parent.len() == rc.len() {
            None
        } else {
            Some(unix_text(parent.skip(rc.len() as int)).push('/'))
        }
    }
}

/// Where a worktree target is, for the `.gitignore` check: its canonical
/// path when it exists, else the path normalized from the repository root.
pub open spec fn resolved_target(repo_root: Seq<char>, target: Seq<char>, canonical: Option<Seq<char>>) -> Seq<char> {
    match canonical {
        Some(c) => c,
        None => normalized_path(target, repo_root),
    }
}

/// The text of an optional string slice.
pub open spec fn opt_text(o: Option<&str>) -> Option<Seq<char>> {
    match o {
        Some(c) => Some(c@),
        None => None,
    }
}

/// The `.gitignore` entry that keeps the worktree at `target` out of the
/// repository at `repo_root` (canonical), if one is needed.
/// `target_canonical` is the canonical target path when the target exists.
pub fn gitignore_entry(repo_root: &str, target: &str, target_canonical: Option<&str>) -> (r: Option<String>)
    ensures
        match r {
            Some(e) => gitignore_entry_for(
                repo_root@,
                resolved_target(repo_root@, target@, opt_text(target_canonical)),
            ) == Some(e@),
            None => gitignore_entry_for(
                repo_root@,
                resolved_target(repo_root@, target@, opt_text(target_canonical)),
            ) is None,
        },
{
    let resolved = match target_canonical {
        Some(c) => chars_of(c),
        None => chars_of(normalize_path(target, repo_root).as_str()),
    };
    let rc = components_exec(&chars_of(repo_root));
    let tc = components_exec(&resolved);
    if !comps_prefix_exec(&rc, &tc) {
        return None;
    }
    let n = tc.len();
    if n == 0 {
        return None;
    }
    assert(views(tc@).last() == tc@[n - 1]@);
    let last = &tc[n - 1];
    if last.len() == 1 && last[0] == '/' {
        assert(last@ =~= root());
        return None;
    }
    assert(last@ != root()) by {
        if last@ == root() {
            assert(last@.len() == 1 && last@[0] == '/');
        }
    }
    let mut parent: Vec<Vec<char>> = Vec::new();
    let end = n - 1;
    for i in 0..end
        invariant
            n == tc@.len(),
            end + 1 == n,
            views(parent@) == views(tc@).take(i as int),
    {
        let ghost old_p = parent@;
        let x = sub_chars(&tc[i], 0, tc[i].len());
        assert(tc@[i as int]@.subrange(0, tc@[i as int]@.len() as int) == tc@[i as int]@);
        parent.push(x);
        assert(views(parent@) =~= views(old_p).push(tc@[i as int]@));
        assert(views(tc@).take(i + 1) =~= views(tc@).take(i as int).push(tc@[i as int]@));
    }
    assert(views(tc@).take(n - 1) =~= views(tc@).drop_last());
    if !comps_prefix_exec(&rc, &parent) || parent.len() == rc.len() {
        return None;
    }
    let mut rel: Vec<Vec<char>> = Vec::new();
    let m = rc.len();
    let k = parent.len();
    for i in m..k
        invariant
            k == parent@.len(),
            m <= k,
            views(rel@) == views(parent@).subrange(m as int, i as int),
    {
        let ghost old_r = rel@;
        let x = sub_chars(&parent[i], 0, parent[i].len());
        assert(parent@[i as int]@.subrange(0, parent@[i as int]@.len() as int) == parent@[i as int]@);
        rel.push(x);
        assert(views(rel@) =~= views(old_r).push(parent@[i as int]@));
        assert(views(parent@).subrange(m as int, i + 1) =~= views(parent@).subrange(m as int, i as int).push(parent@[i as int]@));
    }
    assert(views(parent@).subrange(m as int, k as int) =~= views(parent@).skip(m as int));
    let mut entry = join_with_exec(&normal_only_exec(&rel), '/');
    entry.push('/');
    Some(string_of(&entry))
}

/// The `.gitignore` text with `entry` appended on a line of its own, or
/// `None` when it already lists the entry.
pub open spec fn updated_gitignore(existing: Seq<char>, entry: Seq<char>) -> Option<Seq<char>> {
    if has_entry(existing, entry) {
        None
    } else {
        let sep = if existing.len() > 0 && existing.last() != '\n' {
            seq!['\n']
        } else {
            Seq::empty()
        };
        Some(existing + sep + entry.push('\n'))
    }
}

/// The new `.gitignore` text with `entry` added, or `None` when it is
/// already there.
pub fn gitignore_update(existing: &str, entry: &str) -> (r: Option<String>)
    ensures
        match r {
            Some(u) => updated_gitignore(existing@, entry@) == Some(u@),
            None => updated_gitignore(existing@, entry@) is None,
        },
{
    if has_gitignore_entry(existing, entry) {
        return None;
    }
    let mut v = chars_of(existing);
    let n = v.len();
    if n > 0 && v[n - 1] != '\n' {
        v.push('\n');
    }
    append_chars(&mut v, &chars_of(entry));
    v.push('\n');
    assert(v@ =~= updated_gitignore(existing@, entry@)->Some_0);
    Some(string_of(&v))
}

/// How many of the lines `ls` list `entry`, both normalized.
pub open spec fn entry_count(ls: Seq<Seq<char>>, entry: Seq<char>) -> nat
    decreases ls.len(),
{
    if ls.len() == 0 {
        0
    } else {
        entry_count(ls.drop_last(), entry) + if normalized_entry(ls.last()) == normalized_entry(
            entry,
        ) {
            1nat
        } else {
            0nat
        }
    }
}

proof fn lemma_entry_count_none(ls: Seq<Seq<char>>, entry: Seq<char>)
    requires
        forall|i: int| 0 <= i < ls.len() ==> normalized_entry(#[trigger] ls[i]) != normalized_entry(entry),
    ensures
        entry_count(ls, entry) == 0,
    decreases ls.len(),
{
    if ls.len() > 0 {
        assert(normalized_entry(ls[ls.len() - 1]) != normalized_entry(entry));
        lemma_entry_count_none(ls.drop_last(), entry);
    }
}

proof fn lemma_normalized_strip_cr(x: Seq<char>)
    ensures
        normalized_entry(strip_cr(x)) == normalized_entry(x),
{
    if x.len() > 0 && x.last() == '\r' {
        lemma_trim_push_ws(x.drop_last(), '\r');
        assert(x.drop_last().push('\r') == x);
    }
}

/// The lines of `a` followed by `b` and a line ending, where `a` is empty
/// or ends with a line ending: those of `a`, then `b`.
proof fn lemma_lines_append_line(a: Seq<char>, b: Seq<char>)
    requires
        a.len() == 0 || a.last() == '\n',
        forall|i: int| 0 <= i < b.len() ==> b[i] != '\n',
    ensures
        lines((a + b).push('\n')) == lines(a).push(strip_cr(b)),
{
    lemma_split_char_nonempty(a, '\n');
    if a.len() > 0 {
        lemma_split_char_nonempty(a.drop_last(), '\n');
    }
    let pa = split_char(a, '\n');
    assert(pa.last() == Seq::<char>::empty());
    lemma_split_char_append(a, b, '\n');
    let u = (a + b).push('\n');
    assert(u.drop_last() == a + b);
    let p = split_char(u, '\n');
    assert(p == split_char(a + b, '\n').push(Seq::<char>::empty()));
    assert(pa.last() + b == b);
    let q = split_char(a + b, '\n');
    assert(q =~= pa.drop_last().push(b));
    assert(p.drop_last() =~= q);
    assert(lines(u) =~= lines(a).push(strip_cr(b)));
}

/// Ending a text that does not end with a line ending with one changes
/// its lines at most by a final carriage return on the last.
proof fn lemma_lines_close(e: Seq<char>)
    requires
        e.len() > 0,
        e.last() != '\n',
    ensures
        lines(e.push('\n')).len() == lines(e).len(),
        forall|i: int| 0 <= i < lines(e).len() ==> normalized_entry(#[trigger] lines(e.push('\n'))[i])
            == normalized_entry(lines(e)[i]),
{
    lemma_split_char_nonempty(e, '\n');
    lemma_split_char_nonempty(e.drop_last(), '\n');
    let p = split_char(e, '\n');
    assert(p.last().len() > 0);
    assert(e.push('\n').drop_last() == e);
    assert(split_char(e.push('\n'), '\n') == p.push(Seq::<char>::empty()));
    assert(split_char(e.push('\n'), '\n').drop_last() =~= p);
    assert forall|i: int| 0 <= i < lines(e).len() implies normalized_entry(#[trigger] lines(e.push('\n'))[i])
        == normalized_entry(lines(e)[i]) by {
        if i == lines(e).len() - 1 {
            lemma_normalized_strip_cr(p.last());
        }
    }
}

/// Adding an entry to `.gitignore` makes the file list it exactly once, so
/// a second addition changes nothing; when nothing is added, it was listed
/// already. (An entry holding a line ending would be split across lines,
/// so such entries are left out.)
pub proof fn law_gitignore_update_adds_once(existing: Seq<char>, entry: Seq<char>)
    requires
        forall|i: int| 0 <= i < entry.len() ==> entry[i] != '\n',
    ensures
        updated_gitignore(existing, entry) matches Some(u) ==> has_entry(u, entry)
            && entry_count(lines(u), entry) == 1 && updated_gitignore(u, entry) is None,
        updated_gitignore(existing, entry) is None ==> has_entry(existing, entry),
{
    if !has_entry(existing, entry) {
        let sep = if existing.len() > 0 && existing.last() != '\n' {
            seq!['\n']
        } else {
            Seq::<char>::empty()
        };
        let a = existing + sep;
        let u = existing + sep + entry.push('\n');
        assert(u == (a + entry).push('\n'));
        assert(a.len() == 0 || a.last() == '\n');
        lemma_lines_append_line(a, entry);
        let ls = lines(u);
        let i = ls.len() - 1;
        assert(ls[i] == strip_cr(entry));
        lemma_normalized_strip_cr(entry);
        assert(normalized_entry(ls[i]) == normalized_entry(entry));
        assert(has_entry(u, entry));
        if existing.len() > 0 && existing.last() != '\n' {
            assert(a == existing.push('\n'));
            lemma_lines_close(existing);
        } else {
            assert(a == existing);
        }
        assert forall|j: int| 0 <= j < lines(a).len() implies normalized_entry(#[trigger] lines(a)[j])
            != normalized_entry(entry) by {
            assert(normalized_entry(lines(existing)[j]) != normalized_entry(entry));
        }
        lemma_entry_count_none(lines(a), entry);
        assert(ls.drop_last() =~= lines(a));
    }
}

/// Whether a file name starts with `.env`.
pub open spec fn is_env_name(n: Seq<char>) -> bool {
    occurs_at(n, ".env"@, 0)
}

/// The names that start with `.env`, in order.
pub open spec fn env_names(ns: Seq<Seq<char>>) -> Seq<Seq<char>>
    decreases ns.len(),
{
    if ns.len() == 0 {
        ns
    } else if is_env_name(ns.last()) {
        env_names(ns.drop_last()).push(ns.last())
    } else {
        env_names(ns.drop_last())
    }
}

/// Every name joined onto `root`.
pub open spec fn joined_all(root: Seq<char>, ns: Seq<Seq<char>>) -> Seq<Seq<char>> {
    ns.map_values(|n: Seq<char>| join(root, n))
}

fn joined_all_exec(root: &Vec<char>, ns: &Vec<Vec<char>>) -> (r: Vec<String>)
    ensures
        views_of_strings(r@) == joined_all(root@, views(ns@)),
{
    let mut r: Vec<String> = Vec::new();
    let n = ns.len();
    for i in 0..n
        invariant
            n == ns@.len(),
            views_of_strings(r@) == joined_all(root@, views(ns@)).take(i as int),
    {
        let ghost old_r = r@;
        let p = string_of(&join_exec(root, &ns[i]));
        r.push(p);
        assert(views(ns@)[i as int] == ns@[i as int]@);
        assert(views_of_strings(r@) =~= views_of_strings(old_r).push(p@));
        assert(joined_all(root@, views(ns@)).take(i + 1) =~= joined_all(root@, views(ns@)).take(
            i as int,
        ).push(join(root@, ns@[i as int]@)));
    }
    assert(joined_all(root@, views(ns@)).take(n as int) =~= joined_all(root@, views(ns@)));
    r
}

/// The env files to copy into a new worktree. With `patterns`, each
/// pattern taken from the repository root; without, the files of the
/// repository root (`dir_files`, the names of its regular files) whose name
/// starts with `.env`, in name order.
pub fn env_sources(repo_root: &str, patterns: &Vec<String>, dir_files: &Vec<String>) -> (r: Vec<String>)
    ensures
        patterns@.len() > 0 ==> views_of_strings(r@) == joined_all(
            repo_root@,
            views_of_strings(patterns@),
        ),
        patterns@.len() == 0 ==> exists|t: Seq<Seq<char>>|
            #![trigger joined_all(repo_root@, t)]
            is_sorted_permutation(env_names(views_of_strings(dir_files@)), t) && views_of_strings(r@)
                == joined_all(repo_root@, t),
{
    let root = chars_of(repo_root);
    let mut names: Vec<Vec<char>> = Vec::new();
    if patterns.len() > 0 {
        let n = patterns.len();
        for i in 0..n
            invariant
                n == patterns@.len(),
                views(names@) == views_of_strings(patterns@).take(i as int),
        {
            let ghost old_n = names@;
            names.push(chars_of(patterns[i].as_str()));
            assert(views(names@) =~= views(old_n).push(patterns@[i as int]@));
            assert(views_of_strings(patterns@).take(i + 1) =~= views_of_strings(patterns@).take(
                i as int,
            ).push(patterns@[i as int]@));
        }
        assert(views_of_strings(patterns@).take(n as int) =~= views_of_strings(patterns@));
        joined_all_exec(&root, &names)
    } else {
        let prefix = chars_of(".env");
        let n = dir_files.len();
        let ghost dv = views_of_strings(dir_files@);
        assert(dv.take(0) =~= Seq::<Seq<char>>::empty());
        assert(views(names@) =~= Seq::<Seq<char>>::empty());
        for i in 0..n
            invariant
                n == dir_files@.len(),
                dv == views_of_strings(dir_files@),
                prefix@ == ".env"@,
                views(names@) == env_names(dv.take(i as int)),
        {
            let name = chars_of(dir_files[i].as_str());
            assert(dv.take(i + 1).drop_last() == dv.take(i as int));
            assert(dv.take(i + 1).last() == name@);
            if occurs_at_exec(&name, &prefix, 0) {
                let ghost old_n = names@;
                names.push(name);
                assert(views(names@) =~= views(old_n).push(name@));
            }
        }
        assert(dv.take(n as int) =~= dv);
        let sorted = sort_texts(names);
        let r = joined_all_exec(&root, &sorted);
        assert(is_sorted_permutation(env_names(dv), views(sorted@)));
        r
    }
}

/// Where an env file goes in the worktree at `target`: under its own file
/// name; none when the source path has no file name.
pub fn env_destination(source: &str, target: &str) -> (r: Option<String>)
    ensures
        match r {
            Some(d) => file_name(source@) matches Some(n) && d@ == join(target@, n),
            None => file_name(source@) is None,
        },
{
    match file_name_exec(&chars_of(source)) {
        Some(n) => Some(string_of(&join_exec(&chars_of(target), &n))),
        None => None,
    }
}

} // verus!
