//! Worktree bookkeeping: branch names, the list of worktrees, the status
//! report of a worktree, and where a new worktree goes.
//!
//! Reading the repository and running `git` are the caller's part; the
//! functions here take what those produce as plain values.
use vstd::prelude::*;
use crate::error::{LucusError, ErrorView, text_result};
use crate::path::{components, components_exec, no_dots, lemma_components_free, lemma_normalized_free, law_normalized_has_no_dots, file_name, file_name_exec, is_absolute, join, join_exec, path_starts_with, render, render_exec, walk, walk_exec, comps_prefix_exec};
use crate::number::{parse_u32, parse_u32_exec, lex_le, lex_le_exec, lemma_lex_total, lemma_lex_trans, lemma_lex_antisym};
use crate::text::{text_of, free_of, opens_only, occurs_at, lemma_replace_placeholders, lemma_replace_free, views_of_strings, append_str, chars_eq, chars_of, string_of, trim, trim_chars, lines, lines_exec, views, strip_prefix, split_first, split_first_exec, occurs_at_exec};

verus! {

/// A worktree: the branch checked out in it and its directory.
#[derive(Clone, Debug, PartialEq, Eq)]
pub struct WorktreeEntry {
    pub branch: String,
    pub path: String,
}

/// What `git status` reports of a worktree.
#[derive(Clone, Copy, Debug, PartialEq, Eq)]
pub struct WorktreeStats {
    pub ahead: u32,
    pub behind: u32,
    pub uncommitted: u32,
}

/// Whether a character may stay in a branch name: an ASCII letter or
/// digit, `/`, `-` or `_`.
pub open spec fn branch_char_allowed(c: char) -> bool {
    ||| ('a' <= c && c <= 'z')
    ||| ('A' <= c && c <= 'Z')
    ||| ('0' <= c && c <= '9')
    ||| c == '/'
    ||| c == '-'
    ||| c == '_'
}

/// The allowed characters of `s`, in order.
pub open spec fn allowed_chars(s: Seq<char>) -> Seq<char>
    decreases s.len(),
{
    if s.len() == 0 {
        s
    } else if branch_char_allowed(s.last()) {
        allowed_chars(s.drop_last()).push(s.last())
    } else {
        allowed_chars(s.drop_last())
    }
}

/// The longest a sanitized branch name gets.
pub open spec fn max_branch_len() -> nat {
    60
}

/// A branch name cut down to at most 60 allowed characters.
pub open spec fn sanitized(s: Seq<char>) -> Seq<char> {
    let a = allowed_chars(s);
    if a.len() <= max_branch_len() {
        a
    } else {
        a.take(max_branch_len() as int)
    }
}

/// Keeps the first 60 characters of `branch` that are ASCII letters or
/// digits, `/`, `-` or `_`.
pub fn sanitize_branch(branch: &str) -> (r: String)
    ensures
        r@ == sanitized(branch@),
{
    let s = chars_of(branch);
    let mut out: Vec<char> = Vec::new();
    let n = s.len();
    assert(s@.take(0) == Seq::<char>::empty());
    for i in 0..n
        invariant
            n == s@.len(),
            out@ == sanitized(s@.take(i as int)),
    {
        let c = s[i];
        assert(s@.take(i + 1).drop_last() == s@.take(i as int));
        assert(s@.take(i + 1).last() == c);
        let allowed = ('a' <= c && c <= 'z') || ('A' <= c && c <= 'Z') || ('0' <= c && c <= '9')
            || c == '/' || c == '-' || c == '_';
        let ghost a = allowed_chars(s@.take(i as int));
        if allowed {
            if out.len() < 60 {
                out.push(c);
            }
            proof {
                if a.len() >= 60 {
                    assert(a.push(c).take(60) =~= a.take(60));
                }
            }
        }
    }
    assert(s@.take(n as int) == s@);
    string_of(&out)
}

proof fn lemma_allowed_chars_all(s: Seq<char>)
    ensures
        forall|i: int| 0 <= i < allowed_chars(s).len() ==> branch_char_allowed(
            #[trigger] allowed_chars(s)[i],
        ),
        allowed_chars(s).len() <= s.len(),
    decreases s.len(),
{
    if s.len() > 0 {
        lemma_allowed_chars_all(s.drop_last());
    }
}

proof fn lemma_allowed_chars_of_allowed(s: Seq<char>)
    requires
        forall|i: int| 0 <= i < s.len() ==> branch_char_allowed(#[trigger] s[i]),
    ensures
        allowed_chars(s) == s,
    decreases s.len(),
{
    if s.len() > 0 {
        lemma_allowed_chars_of_allowed(s.drop_last());
        assert(s.drop_last().push(s.last()) == s);
    }
}

/// Sanitizing keeps only allowed characters, at most 60 of them, and
/// sanitizing again changes nothing.
pub proof fn law_sanitize_idempotent(s: Seq<char>)
    ensures
        sanitized(s).len() <= max_branch_len(),
        forall|i: int| 0 <= i < sanitized(s).len() ==> branch_char_allowed(#[trigger] sanitized(s)[i]),
        sanitized(sanitized(s)) == sanitized(s),
{
    lemma_allowed_chars_all(s);
    let t = sanitized(s);
    assert forall|i: int| 0 <= i < t.len() implies branch_char_allowed(#[trigger] t[i]) by {
        assert(t[i] == allowed_chars(s)[i]);
    }
    lemma_allowed_chars_of_allowed(t);
}

/// The characters that `char::is_ascii_alphanumeric` accepts (U+0030 to
/// U+0039, U+0041 to U+005A, U+0061 to U+007A), together with `/`
/// (U+002F), `-` (U+002D) and `_` (U+005F), by their code points.
pub open spec fn ascii_branch_char(c: char) -> bool {
    let u = c as u32;
    ||| 0x30 <= u <= 0x39
    ||| 0x41 <= u <= 0x5A
    ||| 0x61 <= u <= 0x7A
    ||| u == 0x2F
    ||| u == 0x2D
    ||| u == 0x5F
}

/// Sanitizing keeps exactly the ASCII letters of either case, the digits,
/// `/`, `-` and `_`, in order, and cuts after 60 of them: it is the input
/// filtered by `ascii_branch_char`, cut to 60. So a branch made only of
/// such characters and at most 60 long comes back unchanged.
pub proof fn law_sanitize_keeps_ascii_branch_chars(s: Seq<char>)
    ensures
        sanitized(s) == ({
            let f = s.filter(|c: char| ascii_branch_char(c));
            if f.len() <= 60 {
                f
            } else {
                f.take(60)
            }
        }),
        (forall|i: int| 0 <= i < s.len() ==> ascii_branch_char(#[trigger] s[i])) && s.len() <= 60
            ==> sanitized(s) == s,
{
    lemma_allowed_is_filter(s);
    if (forall|i: int| 0 <= i < s.len() ==> ascii_branch_char(#[trigger] s[i])) {
        assert forall|i: int| 0 <= i < s.len() implies branch_char_allowed(#[trigger] s[i]) by {
            lemma_branch_char_code(s[i]);
        }
        lemma_allowed_chars_of_allowed(s);
    }
}

proof fn lemma_branch_char_code(c: char)
    ensures
        branch_char_allowed(c) == ascii_branch_char(c),
{
    assert('a' as u32 == 0x61 && 'z' as u32 == 0x7A);
    assert('A' as u32 == 0x41 && 'Z' as u32 == 0x5A);
    assert('0' as u32 == 0x30 && '9' as u32 == 0x39);
    assert('/' as u32 == 0x2F && '-' as u32 == 0x2D && '_' as u32 == 0x5F);
    assert(('a' <= c) == (0x61 <= c as u32) && (c <= 'z') == (c as u32 <= 0x7A));
    assert(('A' <= c) == (0x41 <= c as u32) && (c <= 'Z') == (c as u32 <= 0x5A));
    assert(('0' <= c) == (0x30 <= c as u32) && (c <= '9') == (c as u32 <= 0x39));
    assert((c == '/') == (c as u32 == 0x2F));
    assert((c == '-') == (c as u32 == 0x2D));
    assert((c == '_') == (c as u32 == 0x5F));
}

proof fn lemma_allowed_is_filter(s: Seq<char>)
    ensures
        allowed_chars(s) == s.filter(|c: char| ascii_branch_char(c)),
    decreases s.len(),
{
    reveal(Seq::filter);
    if s.len() > 0 {
        lemma_allowed_is_filter(s.drop_last());
        lemma_branch_char_code(s.last());
    }
}

/// Whether entry `i` is the first one on `branch`.
pub open spec fn first_on_branch(entries: Seq<WorktreeEntry>, branch: Seq<char>, i: int) -> bool {
    &&& 0 <= i < entries.len()
    &&& entries[i].branch@ == branch
    &&& forall|j: int| 0 <= j < i ==> entries[j].branch@ != branch
}

/// The directory of the first worktree checked out on `branch`, if any.
pub fn find_worktree_by_branch(entries: &Vec<WorktreeEntry>, branch: &str) -> (r: Option<String>)
    ensures
        match r {
            Some(p) => exists|i: int|
                first_on_branch(entries@, branch@, i) && #[trigger] entries@[i].path@ == p@,
            None => forall|i: int| 0 <= i < entries@.len() ==> entries@[i].branch@ != branch@,
        },
{
    let b = chars_of(branch);
    let n = entries.len();
    for i in 0..n
        invariant
            n == entries@.len(),
            b@ == branch@,
            forall|j: int| 0 <= j < i ==> entries@[j].branch@ != branch@,
    {
        let e = chars_of(entries[i].branch.as_str());
        if chars_eq(&e, &b) {
            let p = entries[i].path.clone();
            assert(first_on_branch(entries@, branch@, i as int) && entries@[i as int].path@ == p@);
            return Some(p);
        }
    }
    None
}

/// The branch of a repository given its HEAD: the short name of the
/// branch when HEAD is on one, else `HEAD`.
pub fn branch_for_head(is_branch: bool, shorthand: Option<String>) -> (r: Result<String, LucusError>)
    ensures
        is_branch ==> match shorthand {
            Some(s) => r == Ok::<String, LucusError>(s),
            None => r == Err::<String, LucusError>(LucusError::BranchShorthand),
        },
        !is_branch ==> (r matches Ok(s) && s@ == "HEAD"@),
{
    if is_branch {
        match shorthand {
            Some(s) => Ok(s),
            None => Err(LucusError::BranchShorthand),
        }
    } else {
        let mut v: Vec<char> = Vec::new();
        append_str(&mut v, "HEAD");
        Ok(string_of(&v))
    }
}

/// The previous branch from the output of `git rev-parse --abbrev-ref
/// @{-1}`: the trimmed output, when the command succeeded and printed
/// something.
pub fn parse_previous_branch(success: bool, stdout: &str) -> (r: Result<String, LucusError>)
    ensures
        !success ==> r == Err::<String, LucusError>(LucusError::PreviousBranchUnresolved),
        success && trim(stdout@).len() == 0 ==> r == Err::<String, LucusError>(
            LucusError::PreviousBranchUnresolved,
        ),
        success && trim(stdout@).len() > 0 ==> (r matches Ok(s) && s@ == trim(stdout@)),
{
    if !success {
        return Err(LucusError::PreviousBranchUnresolved);
    }
    let v = trim_chars(&chars_of(stdout));
    if v.len() == 0 {
        Err(LucusError::PreviousBranchUnresolved)
    } else {
        Ok(string_of(&v))
    }
}

/// A worktree entry as plain text: (branch, directory).
pub type EntryView = (Seq<char>, Seq<char>);

pub open spec fn entry_view(e: WorktreeEntry) -> EntryView {
    (e.branch@, e.path@)
}

pub open spec fn entries_view(s: Seq<WorktreeEntry>) -> Seq<EntryView> {
    s.map_values(|e: WorktreeEntry| entry_view(e))
}

/// Whether an entry is on branch `k`.
pub open spec fn branch_is(k: Seq<char>) -> spec_fn(EntryView) -> bool {
    |e: EntryView| e.0 == k
}

/// The entries on branch `k`, in order.
pub open spec fn with_branch(t: Seq<EntryView>, k: Seq<char>) -> Seq<EntryView> {
    t.filter(branch_is(k))
}

/// Whether the branches come in lexicographic order.
pub open spec fn sorted_by_branch(t: Seq<EntryView>) -> bool {
    forall|i: int, j: int| 0 <= i < j < t.len() ==> lex_le(#[trigger] t[i].0, #[trigger] t[j].0)
}

/// Whether `t` is `s` stably sorted by branch (what `sort_by` on the
/// branch gives): ordered by branch, with the entries of every branch in
/// their order in `s`.
pub open spec fn is_stable_sort_by_branch(s: Seq<EntryView>, t: Seq<EntryView>) -> bool {
    &&& t.len() == s.len()
    &&& sorted_by_branch(t)
    &&& forall|k: Seq<char>| #[trigger] with_branch(t, k) == with_branch(s, k)
}

pub proof fn lemma_lex_refl(a: Seq<char>)
    ensures
        lex_le(a, a),
{
    lemma_lex_total(a, a);
}

proof fn lemma_insert_sorted(r: Seq<EntryView>, x: EntryView, pos: int)
    requires
        sorted_by_branch(r),
        0 <= pos <= r.len(),
        forall|j: int| 0 <= j < pos ==> lex_le(#[trigger] r[j].0, x.0),
        pos < r.len() ==> !lex_le(r[pos].0, x.0),
    ensures
        sorted_by_branch(r.insert(pos, x)),
        forall|k: Seq<char>| #[trigger] with_branch(r.insert(pos, x), k) == if k == x.0 {
            with_branch(r, k).push(x)
        } else {
            with_branch(r, k)
        },
{
    let t = r.insert(pos, x);
    assert forall|j: int| pos <= j < r.len() implies !lex_le(#[trigger] r[j].0, x.0) by {
        if lex_le(r[j].0, x.0) && j > pos {
            lemma_lex_trans(r[pos].0, r[j].0, x.0);
        }
    }
    assert forall|i: int, j: int| 0 <= i < j < t.len() implies lex_le(#[trigger] t[i].0, #[trigger] t[j].0) by {
        if i < pos && j == pos {
        } else if i == pos && j > pos {
            lemma_lex_total(x.0, r[j - 1].0);
        } else if i < pos && j > pos {
            assert(r[i].0 == t[i].0 && r[j - 1].0 == t[j].0);
        } else if i > pos {
            assert(r[i - 1].0 == t[i].0 && r[j - 1].0 == t[j].0);
        }
    }
    let a = r.take(pos);
    let b = r.skip(pos);
    assert(t =~= a + seq![x] + b);
    assert(r =~= a + b);
    assert forall|k: Seq<char>| #[trigger] with_branch(t, k) == if k == x.0 {
        with_branch(r, k).push(x)
    } else {
        with_branch(r, k)
    } by {
        let p = branch_is(k);
        Seq::filter_distributes_over_add(a + seq![x], b, p);
        Seq::filter_distributes_over_add(a, seq![x], p);
        Seq::filter_distributes_over_add(a, b, p);
        a.lemma_filter_push(x, p);
        assert(a + seq![x] =~= a.push(x));
        if k == x.0 {
            assert(b.all(|e: EntryView| !p(e))) by {
                assert forall|j: int| 0 <= j < b.len() implies !p(#[trigger] b[j]) by {
                    assert(b[j] == r[pos + j]);
                    if b[j].0 == x.0 {
                        lemma_lex_refl(x.0);
                    }
                }
            }
            b.lemma_all_neg_filter_empty(p);
            assert(b.filter(p) =~= Seq::<EntryView>::empty());
            assert(a.filter(p).push(x) + b.filter(p) =~= (a.filter(p) + b.filter(p)).push(x));
        }
    }
}

fn clone_entry(e: &WorktreeEntry) -> (r: WorktreeEntry)
    ensures
        r == *e,
{
    WorktreeEntry { branch: e.branch.clone(), path: e.path.clone() }
}

/// Sorts worktrees by branch, keeping the order of entries on one branch.
pub fn sort_worktrees(entries: Vec<WorktreeEntry>) -> (r: Vec<WorktreeEntry>)
    ensures
        is_stable_sort_by_branch(entries_view(entries@), entries_view(r@)),
{
    let mut r: Vec<WorktreeEntry> = Vec::new();
    let n = entries.len();
    assert(entries_view(entries@).take(0) =~= Seq::<EntryView>::empty());
    assert(entries_view(r@) =~= Seq::<EntryView>::empty());
    for i in 0..n
        invariant
            n == entries@.len(),
            is_stable_sort_by_branch(entries_view(entries@).take(i as int), entries_view(r@)),
    {
        let x = clone_entry(&entries[i]);
        let xk = chars_of(x.branch.as_str());
        let ghost rv = entries_view(r@);
        let mut pos: usize = 0;
        while pos < r.len() && lex_le_exec(&chars_of(r[pos].branch.as_str()), &xk)
            invariant
                pos <= r@.len(),
                rv == entries_view(r@),
                xk@ == x.branch@,
                forall|j: int| 0 <= j < pos ==> lex_le(#[trigger] rv[j].0, x.branch@),
            decreases r@.len() - pos,
        {
            assert(rv[pos as int] == entry_view(r@[pos as int]));
            pos = pos + 1;
        }
        if pos < r.len() {
            assert(rv[pos as int] == entry_view(r@[pos as int]));
        }
        proof {
            lemma_insert_sorted(rv, entry_view(x), pos as int);
        }
        r.insert(pos, x);
        let ghost sv = entries_view(entries@);
        assert(entries_view(r@) =~= rv.insert(pos as int, entry_view(x)));
        assert(sv.take(i + 1) =~= sv.take(i as int).push(sv[i as int]));
        assert(sv[i as int] == entry_view(x));
        assert forall|k: Seq<char>| #[trigger] with_branch(entries_view(r@), k) == with_branch(sv.take(i + 1), k) by {
            sv.take(i as int).lemma_filter_push(sv[i as int], branch_is(k));
        }
    }
    assert(entries_view(entries@).take(n as int) =~= entries_view(entries@));
    r
}

/// `Vec::dedup_by` on the directory: of consecutive entries with one
/// directory only the first stays.
pub open spec fn dedup_by_path(t: Seq<EntryView>) -> Seq<EntryView>
    decreases t.len(),
{
    if t.len() == 0 {
        t
    } else {
        let d = dedup_by_path(t.drop_last());
        if d.len() > 0 && d.last().1 == t.last().1 {
            d
        } else {
            d.push(t.last())
        }
    }
}

/// Drops every entry whose directory is that of the entry kept before it.
pub fn dedup_worktrees(entries: Vec<WorktreeEntry>) -> (r: Vec<WorktreeEntry>)
    ensures
        entries_view(r@) == dedup_by_path(entries_view(entries@)),
{
    let mut r: Vec<WorktreeEntry> = Vec::new();
    let n = entries.len();
    let ghost sv = entries_view(entries@);
    assert(sv.take(0) =~= Seq::<EntryView>::empty());
    assert(entries_view(r@) =~= Seq::<EntryView>::empty());
    for i in 0..n
        invariant
            n == entries@.len(),
            sv == entries_view(entries@),
            entries_view(r@) == dedup_by_path(sv.take(i as int)),
    {
        assert(sv.take(i + 1).drop_last() == sv.take(i as int));
        assert(sv.take(i + 1).last() == entry_view(entries@[i as int]));
        let k = r.len();
        let same = k > 0 && chars_eq(
            &chars_of(r[k - 1].path.as_str()),
            &chars_of(entries[i].path.as_str()),
        );
        if k > 0 {
            assert(entries_view(r@).last() == entry_view(r@[k - 1]));
        }
        if !same {
            let ghost old_r = r@;
            r.push(clone_entry(&entries[i]));
            assert(entries_view(r@) =~= entries_view(old_r).push(entry_view(entries@[i as int])));
        }
    }
    assert(sv.take(n as int) =~= sv);
    r
}

/// After dropping duplicates, no two neighbouring entries share a directory.
pub proof fn law_dedup_no_adjacent_duplicates(t: Seq<EntryView>)
    ensures
        forall|i: int| 0 <= i < dedup_by_path(t).len() - 1 ==> (#[trigger] dedup_by_path(t)[i]).1
            != dedup_by_path(t)[i + 1].1,
    decreases t.len(),
{
    if t.len() > 0 {
        law_dedup_no_adjacent_duplicates(t.drop_last());
        let d = dedup_by_path(t.drop_last());
        let e = dedup_by_path(t);
        if !(d.len() > 0 && d.last().1 == t.last().1) {
            assert(e == d.push(t.last()));
            assert forall|i: int| 0 <= i < e.len() - 1 implies (#[trigger] e[i]).1 != e[i + 1].1 by {
                if i < d.len() - 1 {
                    assert(e[i] == d[i] && e[i + 1] == d[i + 1]);
                }
            }
        }
    }
}

/// The worktree list as `list_worktrees` hands it out: sorted by branch
/// (stably), then without entries that repeat the directory of the entry
/// before them.
pub fn order_worktrees(entries: Vec<WorktreeEntry>) -> (r: Vec<WorktreeEntry>)
    ensures
        exists|t: Seq<EntryView>|
            #![trigger dedup_by_path(t)]
            is_stable_sort_by_branch(entries_view(entries@), t) && entries_view(r@)
                == dedup_by_path(t),
{
    let sorted = sort_worktrees(entries);
    let r = dedup_worktrees(sorted);
    assert(is_stable_sort_by_branch(entries_view(entries@), entries_view(sorted@)));
    r
}

/// What `git status --porcelain=v2 --branch` reports while it is read:
/// (ahead, behind, uncommitted lines so far).
pub type StatusView = (u32, u32, nat);

/// The value of a parse, or 0 where it failed.
pub open spec fn or_zero(v: Option<u32>) -> u32 {
    match v {
        Some(x) => x,
        None => 0,
    }
}

/// Reads one line of the status report: the `# branch.ab +A -B` header
/// sets ahead and behind (a part that does not parse counts 0, a missing
/// behind part leaves it as it was); any other line that is not a `#`
/// header and not blank is one uncommitted change.
pub open spec fn status_step(st: StatusView, line: Seq<char>) -> StatusView {
    match strip_prefix(line, "# branch.ab +"@) {
        Some(rest) => {
            let parts = split_first(rest, " -"@);
            let ahead = or_zero(parse_u32(trim(parts.0)));
            let behind = match parts.1 {
                Some(t) => or_zero(parse_u32(trim(split_first(t, " -"@).0))),
                None => st.1,
            };
            (ahead, behind, st.2)
        },
        None => if !(line.len() > 0 && line[0] == '#') && trim(line).len() > 0 {
            (st.0, st.1, st.2 + 1)
        } else {
            st
        },
    }
}

/// Reads the lines in order, starting from zero counts.
pub open spec fn status_fold(ls: Seq<Seq<char>>) -> StatusView
    decreases ls.len(),
{
    if ls.len() == 0 {
        (0, 0, 0)
    } else {
        status_step(status_fold(ls.drop_last()), ls.last())
    }
}

/// What a status report says of a worktree.
pub open spec fn status_of(text: Seq<char>) -> StatusView {
    status_fold(lines(text))
}

proof fn lemma_status_count_grows(ls: Seq<Seq<char>>, k: int)
    requires
        0 <= k <= ls.len(),
    ensures
        status_fold(ls.take(k)).2 <= status_fold(ls).2,
    decreases ls.len() - k,
{
    if k < ls.len() {
        lemma_status_count_grows(ls, k + 1);
        assert(ls.take(k + 1).drop_last() == ls.take(k));
    } else {
        assert(ls.take(k) == ls);
    }
}

/// Reads the output of `git status --porcelain=v2 --branch`: commits ahead
/// of and behind the upstream, and the number of changed or untracked
/// entries.
pub fn parse_worktree_stats(text: &str) -> (r: WorktreeStats)
    requires
        status_of(text@).2 <= u32::MAX,
    ensures
        r.ahead == status_of(text@).0,
        r.behind == status_of(text@).1,
        r.uncommitted == status_of(text@).2,
{
    let ls = lines_exec(&chars_of(text));
    let ghost lv = lines(text@);
    let prefix = chars_of("# branch.ab +");
    let sep = chars_of(" -");
    let mut ahead: u32 = 0;
    let mut behind: u32 = 0;
    let mut uncommitted: u32 = 0;
    let n = ls.len();
    assert(lv.take(0) =~= Seq::<Seq<char>>::empty());
    for i in 0..n
        invariant
            n == ls@.len(),
            views(ls@) == lv,
            lv == lines(text@),
            status_fold(lv).2 <= u32::MAX,
            prefix@ == "# branch.ab +"@,
            sep@ == " -"@,
            status_fold(lv.take(i as int)) == (ahead, behind, uncommitted as nat),
    {
        let line = &ls[i];
        assert(views(ls@)[i as int] == line@);
        assert(lv.take(i + 1).drop_last() == lv.take(i as int));
        assert(lv.take(i + 1).last() == line@);
        if occurs_at_exec(line, &prefix, 0) {
            let rest = crate::text::sub_chars(line, prefix.len(), line.len());
            let (first, tail) = split_first_exec(&rest, &sep);
            ahead = match parse_u32_exec(&trim_chars(&first)) {
                Some(v) => v,
                None => 0,
            };
            match tail {
                Some(t) => {
                    let (second, _) = split_first_exec(&t, &sep);
                    behind = match parse_u32_exec(&trim_chars(&second)) {
                        Some(v) => v,
                        None => 0,
                    };
                },
                None => {},
            }
        } else {
            let hash = line.len() > 0 && line[0] == '#';
            if !hash && trim_chars(line).len() > 0 {
                proof {
                    lemma_status_count_grows(lv, i + 1);
                }
                uncommitted = uncommitted + 1;
            }
        }
    }
    assert(lv.take(n as int) =~= lv);
    WorktreeStats { ahead, behind, uncommitted }
}

/// `normalize_absolute_path`: the path with `.` dropped and `..` applied,
/// relative paths taken from `cwd`; `None` where a `..` climbs above the
/// start.
pub open spec fn normalized_absolute(path: Seq<char>, cwd: Seq<char>) -> Option<Seq<char>> {
    let init = if is_absolute(path) {
        Seq::<Seq<char>>::empty()
    } else {
        components(cwd)
    };
    match walk(init, components(path), false) {
        Some(st) => Some(render(st)),
        None => None,
    }
}

/// Resolves `.` and `..` in `path` without touching the disk; a relative
/// path is taken from `cwd`, the current directory.
pub fn normalize_absolute_path(path: &str, cwd: &str) -> (r: Result<String, LucusError>)
    ensures
        text_result(r) == match normalized_absolute(path@, cwd@) {
            Some(p) => Ok(p),
            None => Err(ErrorView::PathTraversal(path@)),
        },
{
    let p = chars_of(path);
    let init = if p.len() > 0 && p[0] == '/' {
        Vec::new()
    } else {
        components_exec(&chars_of(cwd))
    };
    proof {
        if p@.len() > 0 && p@[0] == '/' {
            assert(crate::text::views(init@) =~= Seq::<Seq<char>>::empty());
        }
    }
    let cs = components_exec(&p);
    match walk_exec(init, &cs, false) {
        Some(st) => Ok(string_of(&render_exec(&st))),
        None => Err(LucusError::PathTraversal(string_of(&p))),
    }
}

/// The worktree path a template gives before the repository check: the
/// template rendered, taken from the repository root when relative, with
/// `.` and `..` resolved; or why there is none.
pub open spec fn rendered_worktree_path(
    template: Seq<char>,
    repo_root: Seq<char>,
    branch: Seq<char>,
    cwd: Seq<char>,
) -> Result<Seq<char>, ErrorView> {
    match file_name(repo_root) {
        None => Err(ErrorView::NoRepoName(repo_root)),
        Some(name) => {
            let safe = sanitized(branch);
            if safe.len() == 0 {
                Err(ErrorView::EmptyBranchName)
            } else {
                let rendered = crate::text::replace(
                    crate::text::replace(template, "{repo}"@, name),
                    "{branch}"@,
                    safe,
                );
                let absolute = if is_absolute(rendered) {
                    rendered
                } else {
                    join(repo_root, rendered)
                };
                match normalized_absolute(absolute, cwd) {
                    None => Err(ErrorView::PathTraversal(absolute)),
                    Some(p) => Ok(p),
                }
            }
        },
    }
}

/// `path` if it lies outside the repository whose canonical path is
/// `repo_canonical`, else the error that it is inside.
pub open spec fn outside_repository(path: Seq<char>, repo_canonical: Seq<char>) -> Result<
    Seq<char>,
    ErrorView,
> {
    if path_starts_with(path, repo_canonical) {
        Err(ErrorView::InsideRepository(path, repo_canonical))
    } else {
        Ok(path)
    }
}

/// The worktree path a template gives, or why there is none.
pub open spec fn resolved_worktree_path(
    template: Seq<char>,
    repo_root: Seq<char>,
    branch: Seq<char>,
    cwd: Seq<char>,
    repo_canonical: Seq<char>,
) -> Result<Seq<char>, ErrorView> {
    match rendered_worktree_path(template, repo_root, branch, cwd) {
        Err(e) => Err(e),
        Ok(p) => outside_repository(p, repo_canonical),
    }
}

/// The first step of `resolve_worktree_path`: the template with `{repo}`
/// replaced by the repository's directory name and `{branch}` by the
/// sanitized branch, taken from the repository root when relative, with
/// `.` and `..` resolved.
pub fn render_worktree_path(
    template: &str,
    repo_root: &str,
    branch: &str,
    cwd: &str,
) -> (r: Result<String, LucusError>)
    ensures
        text_result(r) == rendered_worktree_path(template@, repo_root@, branch@, cwd@),
{
    let root = chars_of(repo_root);
    let name = match file_name_exec(&root) {
        Some(n) => n,
        None => {
            return Err(LucusError::NoRepoName(string_of(&root)));
        },
    };
    let safe = chars_of(sanitize_branch(branch).as_str());
    if safe.len() == 0 {
        return Err(LucusError::EmptyBranchName);
    }
    proof {
        reveal_strlit("{repo}");
        reveal_strlit("{branch}");
    }
    let t1 = crate::text::replace_exec(&chars_of(template), &chars_of("{repo}"), &name);
    let rendered = crate::text::replace_exec(&t1, &chars_of("{branch}"), &safe);
    let absolute = if rendered.len() > 0 && rendered[0] == '/' {
        rendered
    } else {
        join_exec(&root, &rendered)
    };
    let abs_text = string_of(&absolute);
    normalize_absolute_path(abs_text.as_str(), cwd)
}

/// The second step of `resolve_worktree_path`: refuses a path inside the
/// repository whose canonical path is `repo_canonical`.
pub fn check_outside_repository(path: &str, repo_canonical: &str) -> (r: Result<String, LucusError>)
    ensures
        text_result(r) == outside_repository(path@, repo_canonical@),
        r matches Ok(p) ==> !path_starts_with(p@, repo_canonical@),
{
    let nc = components_exec(&chars_of(path));
    let rc = components_exec(&chars_of(repo_canonical));
    if comps_prefix_exec(&rc, &nc) {
        return Err(LucusError::InsideRepository(text_of(path), text_of(repo_canonical)));
    }
    Ok(text_of(path))
}

/// Where the worktree of `branch` goes: the template with `{repo}` replaced
/// by the repository's directory name and `{branch}` by the sanitized
/// branch, taken from the repository root when relative, with `.` and `..`
/// resolved, and refused when it lies inside the repository (whose
/// canonical path is `repo_canonical`).
pub fn resolve_worktree_path(
    template: &str,
    repo_root: &str,
    branch: &str,
    cwd: &str,
    repo_canonical: &str,
) -> (r: Result<String, LucusError>)
    ensures
        text_result(r) == resolved_worktree_path(
            template@,
            repo_root@,
            branch@,
            cwd@,
            repo_canonical@,
        ),
        r matches Ok(p) ==> !path_starts_with(p@, repo_canonical@),
{
    match render_worktree_path(template, repo_root, branch, cwd) {
        Ok(p) => check_outside_repository(p.as_str(), repo_canonical),
        Err(e) => Err(e),
    }
}

/// A worktree path resolved against an absolute repository root is itself
/// absolute, and none of its components is `.` or `..`.
pub proof fn law_resolved_path_is_normal(
    template: Seq<char>,
    repo_root: Seq<char>,
    branch: Seq<char>,
    cwd: Seq<char>,
    repo_canonical: Seq<char>,
)
    requires
        is_absolute(repo_root),
    ensures
        resolved_worktree_path(template, repo_root, branch, cwd, repo_canonical) matches Ok(p)
            ==> is_absolute(p) && no_dots(components(p)),
{
    if let Some(name) = file_name(repo_root) {
        let safe = sanitized(branch);
        if safe.len() != 0 {
            let rendered = crate::text::replace(
                crate::text::replace(template, "{repo}"@, name),
                "{branch}"@,
                safe,
            );
            let absolute = if is_absolute(rendered) {
                rendered
            } else {
                join(repo_root, rendered)
            };
            if !is_absolute(rendered) {
                if repo_root.last() == '/' {
                    assert((repo_root + rendered)[0] == repo_root[0]);
                } else {
                    assert((repo_root.push('/') + rendered)[0] == repo_root[0]);
                }
            }
            assert(is_absolute(absolute));
            law_normalized_has_no_dots(absolute);
        }
    }
}

/// Every placeholder of the template is filled: where each `{` of the
/// template opens a `{repo}` or a `{branch}` and the absolute repository
/// root holds no `{`, the worktree path holds no `{` at all, so no
/// `{repo}` or `{branch}` is left in it.
pub proof fn law_render_fills_placeholders(
    template: Seq<char>,
    repo_root: Seq<char>,
    branch: Seq<char>,
    cwd: Seq<char>,
    repo_canonical: Seq<char>,
)
    requires
        is_absolute(repo_root),
        free_of(repo_root, '{'),
        opens_only(template, '{', "{repo}"@, Some("{branch}"@)),
    ensures
        rendered_worktree_path(template, repo_root, branch, cwd) matches Ok(p) ==> free_of(p, '{'),
        resolved_worktree_path(template, repo_root, branch, cwd, repo_canonical) matches Ok(p)
            ==> free_of(p, '{'),
{
    reveal_strlit("{repo}");
    reveal_strlit("{branch}");
    if let Some(name) = file_name(repo_root) {
        lemma_components_free(repo_root, '{');
        let cs = components(repo_root);
        assert(free_of(cs[cs.len() - 1], '{'));
        let safe = sanitized(branch);
        law_sanitize_idempotent(branch);
        assert forall|j: int| 0 <= j < safe.len() implies safe[j] != '{' by {
            assert(branch_char_allowed(safe[j]));
        }
        if safe.len() != 0 {
            let rb = "{branch}"@;
            assert(rb.drop_first() =~= seq!['b', 'r', 'a', 'n', 'c', 'h', '}']);
            lemma_replace_placeholders(template, '{', "{repo}"@, name, Some(rb));
            let t1 = crate::text::replace(template, "{repo}"@, name);
            assert forall|i: int| 0 <= i < t1.len() && #[trigger] t1[i] == '{' implies occurs_at(t1, rb, i)
                || (None::<Seq<char>> matches Some(qq) && occurs_at(t1, qq, i)) by {
            }
            lemma_replace_placeholders(t1, '{', rb, safe, None);
            let rendered = crate::text::replace(t1, rb, safe);
            assert(free_of(rendered, '{'));
            let absolute = if is_absolute(rendered) {
                rendered
            } else {
                join(repo_root, rendered)
            };
            if !is_absolute(rendered) {
                let base = if repo_root.last() == '/' {
                    repo_root
                } else {
                    repo_root.push('/')
                };
                assert(absolute == base + rendered);
                assert forall|j: int| 0 <= j < absolute.len() implies absolute[j] != '{' by {
                    if j < base.len() {
                        if j < repo_root.len() {
                            assert(absolute[j] == repo_root[j]);
                        }
                    } else {
                        assert(absolute[j] == rendered[j - base.len()]);
                    }
                }
                assert(absolute[0] == repo_root[0]);
            }
            lemma_normalized_free(absolute, '{');
        }
    }
}

/// The branch enters the worktree path only sanitized: a character that a
/// sanitized branch cannot hold (anything but an ASCII letter or digit,
/// `/`, `-` or `_`), and that neither the template nor the absolute
/// repository root holds, is not in the path, whatever the branch holds.
pub proof fn law_render_adds_no_foreign_chars(
    template: Seq<char>,
    repo_root: Seq<char>,
    branch: Seq<char>,
    cwd: Seq<char>,
    d: char,
)
    requires
        is_absolute(repo_root),
        !ascii_branch_char(d),
        d != '.',
        free_of(template, d),
        free_of(repo_root, d),
    ensures
        rendered_worktree_path(template, repo_root, branch, cwd) matches Ok(p) ==> free_of(p, d),
{
    lemma_branch_char_code(d);
    assert(d != '/');
    if let Some(name) = file_name(repo_root) {
        lemma_components_free(repo_root, d);
        let cs = components(repo_root);
        assert(free_of(cs[cs.len() - 1], d));
        let safe = sanitized(branch);
        law_sanitize_idempotent(branch);
        assert forall|j: int| 0 <= j < safe.len() implies safe[j] != d by {
            assert(branch_char_allowed(safe[j]));
        }
        if safe.len() != 0 {
            lemma_replace_free(template, "{repo}"@, name, d);
            let t1 = crate::text::replace(template, "{repo}"@, name);
            lemma_replace_free(t1, "{branch}"@, safe, d);
            let rendered = crate::text::replace(t1, "{branch}"@, safe);
            let absolute = if is_absolute(rendered) {
                rendered
            } else {
                join(repo_root, rendered)
            };
            if !is_absolute(rendered) {
                let base = if repo_root.last() == '/' {
                    repo_root
                } else {
                    repo_root.push('/')
                };
                assert(absolute == base + rendered);
                assert forall|j: int| 0 <= j < absolute.len() implies absolute[j] != d by {
                    if j < base.len() {
                        if j < repo_root.len() {
                            assert(absolute[j] == repo_root[j]);
                        }
                    } else {
                        assert(absolute[j] == rendered[j - base.len()]);
                    }
                }
                assert(absolute[0] == repo_root[0]);
            }
            lemma_normalized_free(absolute, d);
        }
    }
}

/// The arguments of `git` that add a worktree at `path` on a new branch.
pub fn worktree_add_args(repo_root: &str, branch: &str, path: &str) -> (r: Vec<String>)
    ensures
        views_of_strings(r@) == seq!["-C"@, repo_root@, "worktree"@, "add"@, "-b"@, branch@, path@],
{
    let mut r: Vec<String> = Vec::new();
    r.push(text_of("-C"));
    r.push(text_of(repo_root));
    r.push(text_of("worktree"));
    r.push(text_of("add"));
    r.push(text_of("-b"));
    r.push(text_of(branch));
    r.push(text_of(path));
    assert(views_of_strings(r@) =~= seq!["-C"@, repo_root@, "worktree"@, "add"@, "-b"@, branch@, path@]);
    r
}

/// The arguments of `git` that remove the worktree at `path`, with
/// `--force` when `force` is set.
pub fn worktree_remove_args(repo_root: &str, path: &str, force: bool) -> (r: Vec<String>)
    ensures
        views_of_strings(r@) == if force {
            seq!["-C"@, repo_root@, "worktree"@, "remove"@, "--force"@, path@]
        } else {
            seq!["-C"@, repo_root@, "worktree"@, "remove"@, path@]
        },
{
    let mut r: Vec<String> = Vec::new();
    r.push(text_of("-C"));
    r.push(text_of(repo_root));
    r.push(text_of("worktree"));
    r.push(text_of("remove"));
    if force {
        r.push(text_of("--force"));
    }
    r.push(text_of(path));
    assert(views_of_strings(r@) =~= if force {
        seq!["-C"@, repo_root@, "worktree"@, "remove"@, "--force"@, path@]
    } else {
        seq!["-C"@, repo_root@, "worktree"@, "remove"@, path@]
    });
    r
}

/// The arguments of `git` that delete `branch`, merged or not.
pub fn branch_delete_args(repo_root: &str, branch: &str) -> (r: Vec<String>)
    ensures
        views_of_strings(r@) == seq!["-C"@, repo_root@, "branch"@, "-D"@, branch@],
{
    let mut r: Vec<String> = Vec::new();
    r.push(text_of("-C"));
    r.push(text_of(repo_root));
    r.push(text_of("branch"));
    r.push(text_of("-D"));
    r.push(text_of(branch));
    assert(views_of_strings(r@) =~= seq!["-C"@, repo_root@, "branch"@, "-D"@, branch@]);
    r
}

/// The arguments of `git` that name the previously checked-out branch.
pub fn previous_branch_args(repo_root: &str) -> (r: Vec<String>)
    ensures
        views_of_strings(r@) == seq!["-C"@, repo_root@, "rev-parse"@, "--abbrev-ref"@, "@{-1}"@],
{
    let mut r: Vec<String> = Vec::new();
    r.push(text_of("-C"));
    r.push(text_of(repo_root));
    r.push(text_of("rev-parse"));
    r.push(text_of("--abbrev-ref"));
    r.push(text_of("@{-1}"));
    assert(views_of_strings(r@) =~= seq!["-C"@, repo_root@, "rev-parse"@, "--abbrev-ref"@, "@{-1}"@]);
    r
}

/// The arguments of `git` that print the status report of a worktree.
pub fn status_args(worktree_path: &str) -> (r: Vec<String>)
    ensures
        views_of_strings(r@) == seq!["-C"@, worktree_path@, "status"@, "--porcelain=v2"@, "--branch"@],
{
    let mut r: Vec<String> = Vec::new();
    r.push(text_of("-C"));
    r.push(text_of(worktree_path));
    r.push(text_of("status"));
    r.push(text_of("--porcelain=v2"));
    r.push(text_of("--branch"));
    assert(views_of_strings(r@) =~= seq!["-C"@, worktree_path@, "status"@, "--porcelain=v2"@, "--branch"@]);
    r
}

proof fn lemma_with_branch_push(t: Seq<EntryView>, x: EntryView, k: Seq<char>)
    ensures
        with_branch(t.push(x), k) == if x.0 == k {
            with_branch(t, k).push(x)
        } else {
            with_branch(t, k)
        },
{
    t.lemma_filter_push(x, branch_is(k));
}

proof fn lemma_some_on_branch(t: Seq<EntryView>, k: Seq<char>)
    requires
        with_branch(t, k).len() > 0,
    ensures
        exists|i: int| 0 <= i < t.len() && (#[trigger] t[i]).0 == k,
{
    let f = with_branch(t, k);
    t.lemma_filter_pred(branch_is(k), 0);
    t.lemma_filter_contains_rev(branch_is(k), f[0]);
    #[allow(deprecated)]
    t.filter_lemma(branch_is(k));
    assert(t.contains(f[0]));
}

/// A stable sort by branch has only one outcome: two orders that both
/// sort the same entries stably by branch are the same order.
pub proof fn law_stable_sort_unique(s: Seq<EntryView>, t1: Seq<EntryView>, t2: Seq<EntryView>)
    requires
        is_stable_sort_by_branch(s, t1),
        is_stable_sort_by_branch(s, t2),
    ensures
        t1 == t2,
{
    lemma_sorted_same_groups_equal(t1, t2);
}

proof fn lemma_sorted_same_groups_equal(t1: Seq<EntryView>, t2: Seq<EntryView>)
    requires
        t1.len() == t2.len(),
        sorted_by_branch(t1),
        sorted_by_branch(t2),
        forall|k: Seq<char>| #[trigger] with_branch(t1, k) == with_branch(t2, k),
    ensures
        t1 == t2,
    decreases t1.len(),
{
    if t1.len() > 0 {
        let n = t1.len() - 1;
        let x = t1.last();
        let y = t2.last();
        let a1 = t1.drop_last();
        let a2 = t2.drop_last();
        assert(a1.push(x) == t1);
        assert(a2.push(y) == t2);
        lemma_with_branch_push(a1, x, x.0);
        lemma_with_branch_push(a2, y, y.0);
        lemma_with_branch_push(a1, x, y.0);
        lemma_with_branch_push(a2, y, x.0);
        assert(with_branch(t1, x.0).len() > 0);
        assert(with_branch(t2, x.0).len() > 0);
        lemma_some_on_branch(t2, x.0);
        let i = choose|i: int| 0 <= i < t2.len() && (#[trigger] t2[i]).0 == x.0;
        if i < n {
            assert(lex_le(t2[i].0, t2[n].0));
        } else {
            lemma_lex_refl(x.0);
        }
        assert(with_branch(t1, y.0).len() > 0);
        lemma_some_on_branch(t1, y.0);
        let j = choose|j: int| 0 <= j < t1.len() && (#[trigger] t1[j]).0 == y.0;
        if j < n {
            assert(lex_le(t1[j].0, t1[n].0));
        } else {
            lemma_lex_refl(y.0);
        }
        lemma_lex_antisym(x.0, y.0);
        assert(with_branch(t1, x.0).last() == x);
        assert(with_branch(t2, x.0).last() == y);
        assert forall|k: Seq<char>| #[trigger] with_branch(a1, k) == with_branch(a2, k) by {
            lemma_with_branch_push(a1, x, k);
            lemma_with_branch_push(a2, y, k);
            assert(with_branch(t1, k) == with_branch(t2, k));
            if x.0 == k {
                assert(with_branch(a1, k) == with_branch(t1, k).drop_last());
                assert(with_branch(a2, k) == with_branch(t2, k).drop_last());
            }
        }
        assert forall|p: int, q: int| 0 <= p < q < a1.len() implies lex_le(#[trigger] a1[p].0, #[trigger] a1[q].0) by {
            assert(a1[p] == t1[p] && a1[q] == t1[q]);
        }
        assert forall|p: int, q: int| 0 <= p < q < a2.len() implies lex_le(#[trigger] a2[p].0, #[trigger] a2[q].0) by {
            assert(a2[p] == t2[p] && a2[q] == t2[q]);
        }
        lemma_sorted_same_groups_equal(a1, a2);
    } else {
        assert(t1 =~= t2);
    }
}

} // verus!
