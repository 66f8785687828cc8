//! `lucus list`: the worktrees with their git status, as a table for people
//! or as NDJSON for programs.
use vstd::prelude::*;
use owo_colors::OwoColorize;
use crate::git::{WorktreeEntry, WorktreeStats};
use crate::number::{decimal, decimal_exec, pad_left, pad_right, pad_left_exec, pad_right_exec};
use crate::output::OutputFormat;
use crate::text::{append_chars, append_str, chars_of, string_of, views_of_strings};

verus! {

/// One row of the listing.
#[derive(Clone, Debug)]
pub struct Row {
    pub branch: String,
    pub path: String,
    pub ahead: u32,
    pub behind: u32,
    pub uncommitted: u32,
}

/// A row as plain values: (branch, path, ahead, behind, uncommitted).
pub type RowView = (Seq<char>, Seq<char>, u32, u32, u32);

pub open spec fn row_view(r: Row) -> RowView {
    (r.branch@, r.path@, r.ahead, r.behind, r.uncommitted)
}

/// The rows for worktrees and their status, pairwise.
pub open spec fn rows_of(entries: Seq<WorktreeEntry>, stats: Seq<WorktreeStats>) -> Seq<RowView> {
    Seq::new(
        entries.len(),
        |i: int|
            (
                entries[i].branch@,
                entries[i].path@,
                stats[i].ahead,
                stats[i].behind,
                stats[i].uncommitted,
            ),
    )
}

/// Text in bold, as owo-colors writes it.
pub open spec fn bold_text(s: Seq<char>) -> Seq<char> {
    seq!['\u{1b}', '[', '1', 'm'] + s + seq!['\u{1b}', '[', '0', 'm']
}

/// Text in cyan, as owo-colors writes it.
pub open spec fn cyan_text(s: Seq<char>) -> Seq<char> {
    seq!['\u{1b}', '[', '3', '6', 'm'] + s + seq!['\u{1b}', '[', '3', '9', 'm']
}

/// `OwoColorize::bold` written with `Display`: the text between the ANSI
/// codes that turn bold on (`ESC[1m`) and reset (`ESC[0m`).
#[verifier::external_body]
fn bold(s: &str) -> (r: String)
    ensures
        r@ == bold_text(s@),
{
    format!("{}", s.bold())
}

/// `OwoColorize::cyan` written with `Display`: the text between the ANSI
/// codes for a cyan foreground (`ESC[36m`) and the default one (`ESC[39m`).
#[verifier::external_body]
fn cyan(s: &str) -> (r: String)
    ensures
        r@ == cyan_text(s@),
{
    format!("{}", s.cyan())
}

/// The length of a text in bytes of UTF-8, as `str::len` gives it.
pub open spec fn byte_len(s: Seq<char>) -> usize {
    vstd::utf8::encode_utf8(s).len() as usize
}

/// The widest branch in bytes, and at least 6.
pub open spec fn branch_width(rows: Seq<RowView>) -> usize
    decreases rows.len(),
{
    if rows.len() == 0 {
        6
    } else {
        let w = branch_width(rows.drop_last());
        let b = byte_len(rows.last().0);
        if b > w {
            b
        } else {
            w
        }
    }
}

/// The widest path in bytes, and at least 4.
pub open spec fn path_width(rows: Seq<RowView>) -> usize
    decreases rows.len(),
{
    if rows.len() == 0 {
        4
    } else {
        let w = path_width(rows.drop_last());
        let b = byte_len(rows.last().1);
        if b > w {
            b
        } else {
            w
        }
    }
}

/// The branch column is as wide as the widest branch in bytes and at least
/// as wide as `BRANCH`: no branch is wider, and the width is 6 or the
/// width of some branch. Likewise the path column, at least as wide as
/// `PATH`.
pub proof fn law_column_widths(rows: Seq<RowView>)
    ensures
        forall|i: int| 0 <= i < rows.len() ==> byte_len(#[trigger] rows[i].0) <= branch_width(rows),
        6 <= branch_width(rows),
        branch_width(rows) == 6 || exists|i: int| 0 <= i < rows.len() && byte_len(#[trigger] rows[i].0)
            == branch_width(rows),
        forall|i: int| 0 <= i < rows.len() ==> byte_len(#[trigger] rows[i].1) <= path_width(rows),
        4 <= path_width(rows),
        path_width(rows) == 4 || exists|i: int| 0 <= i < rows.len() && byte_len(#[trigger] rows[i].1)
            == path_width(rows),
    decreases rows.len(),
{
    if rows.len() > 0 {
        let d = rows.drop_last();
        law_column_widths(d);
        let n = rows.len() - 1;
        assert(rows.last() == rows[n]);
        assert forall|i: int| 0 <= i < rows.len() implies byte_len(#[trigger] rows[i].0) <= branch_width(rows) by {
            if i < n {
                assert(rows[i] == d[i]);
            }
        }
        assert forall|i: int| 0 <= i < rows.len() implies byte_len(#[trigger] rows[i].1) <= path_width(rows) by {
            if i < n {
                assert(rows[i] == d[i]);
            }
        }
        if branch_width(rows) != 6 {
            if branch_width(rows) == branch_width(d) {
                let i = choose|i: int| 0 <= i < d.len() && byte_len(#[trigger] d[i].0) == branch_width(d);
                assert(rows[i] == d[i]);
            } else {
                assert(byte_len(rows[n].0) == branch_width(rows));
            }
        }
        if path_width(rows) != 4 {
            if path_width(rows) == path_width(d) {
                let i = choose|i: int| 0 <= i < d.len() && byte_len(#[trigger] d[i].1) == path_width(d);
                assert(rows[i] == d[i]);
            } else {
                assert(byte_len(rows[n].1) == path_width(rows));
            }
        }
    }
}

/// Two spaces between columns.
pub open spec fn gap() -> Seq<char> {
    seq![' ', ' ']
}

/// The header line of the table.
pub open spec fn header_line(bw: usize, pw: usize) -> Seq<char> {
    bold_text(pad_right("BRANCH"@, bw as nat)) + gap() + bold_text(pad_right("PATH"@, pw as nat))
        + gap() + bold_text(pad_left("AHEAD"@, 5)) + gap() + bold_text(pad_left("BEHIND"@, 6))
        + gap() + bold_text(pad_left("UNCOMMITTED"@, 11))
}

/// One line of the table.
pub open spec fn table_line(r: RowView, bw: usize, pw: usize) -> Seq<char> {
    cyan_text(pad_right(r.0, bw as nat)) + gap() + pad_right(r.1, pw as nat) + gap() + pad_left(
        decimal(r.2 as nat),
        5,
    ) + gap() + pad_left(decimal(r.3 as nat), 6) + gap() + pad_left(decimal(r.4 as nat), 11)
}

/// The table: the header, then a line for each row, the first two columns
/// as wide as their widest entry.
pub open spec fn human_lines(rows: Seq<RowView>) -> Seq<Seq<char>> {
    let bw = branch_width(rows);
    let pw = path_width(rows);
    seq![header_line(bw, pw)] + rows.map_values(|r: RowView| table_line(r, bw, pw))
}

/// The lowercase hexadecimal digit of `n`, for `0 <= n < 16`.
pub open spec fn hex_digit(n: int) -> char {
    if n < 10 {
        ((48 + n) as u32) as char
    } else {
        ((87 + n) as u32) as char
    }
}

/// The value of a hexadecimal digit, in either case.
pub open spec fn hex_value(c: char) -> Option<int> {
    let u = c as u32;
    if 48 <= u <= 57 {
        Some(u - 48)
    } else if 97 <= u <= 102 {
        Some(u - 87)
    } else if 65 <= u <= 70 {
        Some(u - 55)
    } else {
        None
    }
}

/// A character as it stands inside a JSON string: backslash, quote,
/// newline, carriage return and tab by their short escapes, every other
/// character below U+0020 as `\u00XX`, all else as it is.
pub open spec fn escape_char(c: char) -> Seq<char> {
    if c == '\\' {
        seq!['\\', '\\']
    } else if c == '"' {
        seq!['\\', '"']
    } else if c == '\n' {
        seq!['\\', 'n']
    } else if c == '\r' {
        seq!['\\', 'r']
    } else if c == '\t' {
        seq!['\\', 't']
    } else if (c as u32) < 0x20 {
        seq!['\\', 'u', '0', '0', hex_digit((c as u32 / 16) as int), hex_digit((c as u32 % 16) as int)]
    } else {
        seq![c]
    }
}

/// Text as it stands inside a JSON string: each character escaped as
/// `escape_char` says.
pub open spec fn escaped(s: Seq<char>) -> Seq<char>
    decreases s.len(),
{
    if s.len() == 0 {
        s
    } else {
        escaped(s.drop_last()) + escape_char(s.last())
    }
}

/// The character of a one-letter JSON escape (the letter after `\\`).
pub open spec fn short_unescape(e: char) -> Option<char> {
    if e == '"' {
        Some('"')
    } else if e == '\\' {
        Some('\\')
    } else if e == '/' {
        Some('/')
    } else if e == 'b' {
        Some('\u{8}')
    } else if e == 'f' {
        Some('\u{c}')
    } else if e == 'n' {
        Some('\n')
    } else if e == 'r' {
        Some('\r')
    } else if e == 't' {
        Some('\t')
    } else {
        None
    }
}

/// The value of four hexadecimal digits.
pub open spec fn hex4(s: Seq<char>) -> Option<int> {
    match (hex_value(s[0]), hex_value(s[1]), hex_value(s[2]), hex_value(s[3])) {
        (Some(a), Some(b), Some(c), Some(d)) => Some(a * 4096 + b * 256 + c * 16 + d),
        _ => None,
    }
}

/// The text that a JSON string with body `s` (the part between the quotes)
/// stands for, or `None` where `s` is no valid body: a bare quote, a bare
/// control character, or an unknown escape. A `\u` escape of half a
/// surrogate pair counts as invalid here.
pub open spec fn json_string_value(s: Seq<char>) -> Option<Seq<char>>
    decreases s.len(),
{
    if s.len() == 0 {
        Some(Seq::empty())
    } else if s[0] == '\\' {
        if s.len() < 2 {
            None
        } else if s[1] == 'u' {
            if s.len() < 6 {
                None
            } else {
                match hex4(s.subrange(2, 6)) {
                    Some(v) => if 0xD800 <= v <= 0xDFFF {
                        None
                    } else {
                        match json_string_value(s.subrange(6, s.len() as int)) {
                            Some(rest) => Some(seq![(v as u32) as char] + rest),
                            None => None,
                        }
                    },
                    None => None,
                }
            }
        } else {
            match short_unescape(s[1]) {
                Some(ch) => match json_string_value(s.subrange(2, s.len() as int)) {
                    Some(rest) => Some(seq![ch] + rest),
                    None => None,
                },
                None => None,
            }
        }
    } else if s[0] == '"' || (s[0] as u32) < 0x20 {
        None
    } else {
        match json_string_value(s.drop_first()) {
            Some(rest) => Some(seq![s[0]] + rest),
            None => None,
        }
    }
}

proof fn lemma_hex_digit(n: int)
    requires
        0 <= n < 16,
    ensures
        hex_value(hex_digit(n)) == Some(n),
        hex_digit(n) as u32 >= 48,
{
}

proof fn lemma_escaped_front(s: Seq<char>)
    requires
        s.len() > 0,
    ensures
        escaped(s) == escape_char(s[0]) + escaped(s.drop_first()),
    decreases s.len(),
{
    if s.len() == 1 {
        assert(s.drop_last() =~= Seq::<char>::empty());
        assert(s.drop_first() =~= Seq::<char>::empty());
        assert(escaped(s.drop_last()) == Seq::<char>::empty());
        assert(escaped(s.drop_first()) == Seq::<char>::empty());
        assert(s.last() == s[0]);
        assert(escaped(s) =~= escape_char(s[0]));
    } else {
        lemma_escaped_front(s.drop_last());
        assert(s.drop_last().drop_first() =~= s.drop_first().drop_last());
        assert(s.drop_first().last() == s.last());
        assert(escaped(s) =~= escape_char(s[0]) + escaped(s.drop_first()));
    }
}

proof fn lemma_decode_unit(c: char, rest: Seq<char>)
    ensures
        json_string_value(escape_char(c) + rest) == match json_string_value(rest) {
            Some(r) => Some(seq![c] + r),
            None => None::<Seq<char>>,
        },
{
    let t = escape_char(c) + rest;
    if c == '\\' || c == '"' || c == '\n' || c == '\r' || c == '\t' {
        assert(t.subrange(2, t.len() as int) =~= rest);
    } else if (c as u32) < 0x20 {
        let u = c as u32;
        lemma_hex_digit((u / 16) as int);
        lemma_hex_digit((u % 16) as int);
        assert(t.subrange(2, 6) =~= seq!['0', '0', hex_digit((u / 16) as int), hex_digit((u % 16) as int)]);
        assert(hex_value('0') == Some(0int));
        assert(hex4(t.subrange(2, 6)) == Some(u as int));
        assert(t.subrange(6, t.len() as int) =~= rest);
        assert(((u as int) as u32) as char == c);
    } else {
        assert(t[0] == c);
        assert(t.drop_first() =~= rest);
    }
}

/// Reading the escaped text back as the body of a JSON string gives the
/// text itself: every NDJSON line is valid JSON that holds the value.
pub proof fn law_escaped_decodes(s: Seq<char>)
    ensures
        json_string_value(escaped(s)) == Some(s),
    decreases s.len(),
{
    if s.len() > 0 {
        lemma_escaped_front(s);
        law_escaped_decodes(s.drop_first());
        lemma_decode_unit(s[0], escaped(s.drop_first()));
        assert(seq![s[0]] + s.drop_first() =~= s);
    }
}

proof fn lemma_escaped_no_control(s: Seq<char>)
    ensures
        forall|i: int| 0 <= i < escaped(s).len() ==> #[trigger] escaped(s)[i] as u32 >= 0x20,
    decreases s.len(),
{
    if s.len() > 0 {
        lemma_escaped_no_control(s.drop_last());
        let c = s.last();
        let u = c as u32;
        if (u as u32) < 0x20 && c != '\n' && c != '\r' && c != '\t' {
            lemma_hex_digit((u / 16) as int);
            lemma_hex_digit((u % 16) as int);
        }
        let a = escaped(s.drop_last());
        let b = escape_char(c);
        assert forall|i: int| 0 <= i < escaped(s).len() implies #[trigger] escaped(s)[i] as u32 >= 0x20 by {
            if i < a.len() {
                assert(escaped(s)[i] == a[i]);
            } else {
                assert(escaped(s)[i] == b[i - a.len()]);
            }
        }
    }
}

/// The hexadecimal digit of `n`.
fn hex_char(n: u32) -> (r: char)
    requires
        n < 16,
    ensures
        r == hex_digit(n as int),
{
    if n < 10 {
        ((48 + n) as u8) as char
    } else {
        ((87 + n) as u8) as char
    }
}

/// Escapes text for a JSON string.
pub fn escape_json(value: &str) -> (r: String)
    ensures
        r@ == escaped(value@),
        json_string_value(r@) == Some(value@),
        forall|i: int| 0 <= i < r@.len() ==> #[trigger] r@[i] as u32 >= 0x20,
{
    let s = chars_of(value);
    let mut out: Vec<char> = Vec::new();
    let n = s.len();
    assert(s@.take(0) =~= Seq::<char>::empty());
    for i in 0..n
        invariant
            n == s@.len(),
            out@ == escaped(s@.take(i as int)),
    {
        let c = s[i];
        assert(s@.take(i + 1).drop_last() == s@.take(i as int));
        assert(s@.take(i + 1).last() == c);
        if c == '\\' {
            out.push('\\');
            out.push('\\');
        } else if c == '"' {
            out.push('\\');
            out.push('"');
        } else if c == '\n' {
            out.push('\\');
            out.push('n');
        } else if c == '\r' {
            out.push('\\');
            out.push('r');
        } else if c == '\t' {
            out.push('\\');
            out.push('t');
        } else if (c as u32) < 0x20 {
            let u = c as u32;
            out.push('\\');
            out.push('u');
            out.push('0');
            out.push('0');
            out.push(hex_char(u / 16));
            out.push(hex_char(u % 16));
        } else {
            out.push(c);
        }
        assert(out@ =~= escaped(s@.take(i + 1)));
    }
    assert(s@.take(n as int) =~= s@);
    proof {
        law_escaped_decodes(value@);
        lemma_escaped_no_control(value@);
    }
    string_of(&out)
}

/// One NDJSON line for a row.
pub open spec fn json_line(r: RowView) -> Seq<char> {
    "{\"branch\":\""@ + escaped(r.0) + "\",\"path\":\""@ + escaped(r.1) + "\",\"ahead\":"@
        + decimal(r.2 as nat) + ",\"behind\":"@ + decimal(r.3 as nat) + ",\"uncommitted\":"@
        + decimal(r.4 as nat) + "}"@
}

/// The NDJSON listing: one object per row.
pub open spec fn ndjson_lines(rows: Seq<RowView>) -> Seq<Seq<char>> {
    rows.map_values(|r: RowView| json_line(r))
}

/// The views of the rows.
pub open spec fn rows_view(rows: Seq<Row>) -> Seq<RowView> {
    rows.map_values(|r: Row| row_view(r))
}

/// Pairs each worktree with its status.
pub fn build_rows(entries: &Vec<WorktreeEntry>, stats: &Vec<WorktreeStats>) -> (r: Vec<Row>)
    requires
        entries@.len() == stats@.len(),
    ensures
        rows_view(r@) == rows_of(entries@, stats@),
{
    let mut r: Vec<Row> = Vec::new();
    let n = entries.len();
    for i in 0..n
        invariant
            n == entries@.len(),
            n == stats@.len(),
            rows_view(r@) == rows_of(entries@, stats@).take(i as int),
    {
        let ghost old_r = r@;
        let st = stats[i];
        r.push(
            Row {
                branch: entries[i].branch.clone(),
                path: entries[i].path.clone(),
                ahead: st.ahead,
                behind: st.behind,
                uncommitted: st.uncommitted,
            },
        );
        assert(rows_view(r@) =~= rows_view(old_r).push(rows_of(entries@, stats@)[i as int]));
        assert(rows_of(entries@, stats@).take(i + 1) =~= rows_of(entries@, stats@).take(i as int).push(
            rows_of(entries@, stats@)[i as int],
        ));
    }
    assert(rows_of(entries@, stats@).take(n as int) =~= rows_of(entries@, stats@));
    r
}

fn bold_padded(v: &Vec<char>) -> (r: Vec<char>)
    ensures
        r@ == bold_text(v@),
{
    chars_of(bold(string_of(v).as_str()).as_str())
}

fn widths(rows: &Vec<Row>) -> (r: (usize, usize))
    ensures
        r.0 == branch_width(rows_view(rows@)),
        r.1 == path_width(rows_view(rows@)),
{
    let mut bw: usize = 6;
    let mut pw: usize = 4;
    let n = rows.len();
    let ghost rv = rows_view(rows@);
    assert(rv.take(0) =~= Seq::<RowView>::empty());
    for i in 0..n
        invariant
            n == rows@.len(),
            rv == rows_view(rows@),
            bw == branch_width(rv.take(i as int)),
            pw == path_width(rv.take(i as int)),
    {
        assert(rv.take(i + 1).drop_last() == rv.take(i as int));
        assert(rv.take(i + 1).last() == row_view(rows@[i as int]));
        let b = rows[i].branch.as_str().len();
        let p = rows[i].path.as_str().len();
        if b > bw {
            bw = b;
        }
        if p > pw {
            pw = p;
        }
    }
    assert(rv.take(n as int) =~= rv);
    (bw, pw)
}

fn gap_exec(v: &mut Vec<char>)
    ensures
        final(v)@ == old(v)@ + gap(),
{
    v.push(' ');
    v.push(' ');
    assert(final(v)@ =~= old(v)@ + gap());
}

fn header_exec(bw: usize, pw: usize) -> (r: Vec<char>)
    ensures
        r@ == header_line(bw, pw),
{
    let mut v: Vec<char> = Vec::new();
    append_chars(&mut v, &bold_padded(&pad_right_exec(&chars_of("BRANCH"), bw)));
    gap_exec(&mut v);
    append_chars(&mut v, &bold_padded(&pad_right_exec(&chars_of("PATH"), pw)));
    gap_exec(&mut v);
    append_chars(&mut v, &bold_padded(&pad_left_exec(&chars_of("AHEAD"), 5)));
    gap_exec(&mut v);
    append_chars(&mut v, &bold_padded(&pad_left_exec(&chars_of("BEHIND"), 6)));
    gap_exec(&mut v);
    append_chars(&mut v, &bold_padded(&pad_left_exec(&chars_of("UNCOMMITTED"), 11)));
    v
}

fn table_line_exec(row: &Row, bw: usize, pw: usize) -> (r: Vec<char>)
    ensures
        r@ == table_line(row_view(*row), bw, pw),
{
    let mut v: Vec<char> = Vec::new();
    let b = string_of(&pad_right_exec(&chars_of(row.branch.as_str()), bw));
    append_chars(&mut v, &chars_of(cyan(b.as_str()).as_str()));
    gap_exec(&mut v);
    append_chars(&mut v, &pad_right_exec(&chars_of(row.path.as_str()), pw));
    gap_exec(&mut v);
    append_chars(&mut v, &pad_left_exec(&decimal_exec(row.ahead), 5));
    gap_exec(&mut v);
    append_chars(&mut v, &pad_left_exec(&decimal_exec(row.behind), 6));
    gap_exec(&mut v);
    append_chars(&mut v, &pad_left_exec(&decimal_exec(row.uncommitted), 11));
    v
}

/// The table for people: a bold header, then one line per row with the
/// branch in cyan.
pub fn print_human(rows: &Vec<Row>) -> (r: Vec<String>)
    ensures
        views_of_strings(r@) == human_lines(rows_view(rows@)),
{
    let (bw, pw) = widths(rows);
    let ghost rv = rows_view(rows@);
    let mut r: Vec<String> = Vec::new();
    r.push(string_of(&header_exec(bw, pw)));
    let n = rows.len();
    for i in 0..n
        invariant
            n == rows@.len(),
            rv == rows_view(rows@),
            bw == branch_width(rv),
            pw == path_width(rv),
            views_of_strings(r@) == seq![header_line(bw, pw)] + rv.map_values(
                |x: RowView| table_line(x, bw, pw),
            ).take(i as int),
    {
        let ghost old_r = r@;
        let line = string_of(&table_line_exec(&rows[i], bw, pw));
        r.push(line);
        assert(views_of_strings(r@) =~= views_of_strings(old_r).push(line@));
        assert(rv.map_values(|x: RowView| table_line(x, bw, pw)).take(i + 1) =~= rv.map_values(
            |x: RowView| table_line(x, bw, pw),
        ).take(i as int).push(table_line(rv[i as int], bw, pw)));
    }
    assert(rv.map_values(|x: RowView| table_line(x, bw, pw)).take(n as int) =~= rv.map_values(
        |x: RowView| table_line(x, bw, pw),
    ));
    r
}

fn json_line_exec(row: &Row) -> (r: Vec<char>)
    ensures
        r@ == json_line(row_view(*row)),
{
    let mut v: Vec<char> = Vec::new();
    append_str(&mut v, "{\"branch\":\"");
    append_chars(&mut v, &chars_of(escape_json(row.branch.as_str()).as_str()));
    append_str(&mut v, "\",\"path\":\"");
    append_chars(&mut v, &chars_of(escape_json(row.path.as_str()).as_str()));
    append_str(&mut v, "\",\"ahead\":");
    append_chars(&mut v, &decimal_exec(row.ahead));
    append_str(&mut v, ",\"behind\":");
    append_chars(&mut v, &decimal_exec(row.behind));
    append_str(&mut v, ",\"uncommitted\":");
    append_chars(&mut v, &decimal_exec(row.uncommitted));
    append_str(&mut v, "}");
    v
}

/// The NDJSON listing: one JSON object per row.
pub fn print_ndjson(rows: &Vec<Row>) -> (r: Vec<String>)
    ensures
        views_of_strings(r@) == ndjson_lines(rows_view(rows@)),
{
    let ghost rv = rows_view(rows@);
    let mut r: Vec<String> = Vec::new();
    let n = rows.len();
    for i in 0..n
        invariant
            n == rows@.len(),
            rv == rows_view(rows@),
            views_of_strings(r@) == ndjson_lines(rv).take(i as int),
    {
        let ghost old_r = r@;
        let line = string_of(&json_line_exec(&rows[i]));
        r.push(line);
        assert(views_of_strings(r@) =~= views_of_strings(old_r).push(line@));
        assert(ndjson_lines(rv).take(i + 1) =~= ndjson_lines(rv).take(i as int).push(
            json_line(rv[i as int]),
        ));
    }
    assert(ndjson_lines(rv).take(n as int) =~= ndjson_lines(rv));
    r
}

/// The lines that `lucus list` prints for the worktrees `entries` with the
/// status `stats` of each.
pub fn run(format: OutputFormat, entries: &Vec<WorktreeEntry>, stats: &Vec<WorktreeStats>) -> (r: Vec<String>)
    requires
        entries@.len() == stats@.len(),
    ensures
        views_of_strings(r@) == match format {
            OutputFormat::Human => human_lines(rows_of(entries@, stats@)),
            OutputFormat::Ndjson => ndjson_lines(rows_of(entries@, stats@)),
        },
{
    let rows = build_rows(entries, stats);
    match format {
        OutputFormat::Human => print_human(&rows),
        OutputFormat::Ndjson => print_ndjson(&rows),
    }
}

/// Whether a text holds no line ending.
pub open spec fn single_line(s: Seq<char>) -> bool {
    forall|j: int| 0 <= j < s.len() ==> s[j] != '\n'
}

proof fn lemma_single_line_concat(a: Seq<char>, b: Seq<char>)
    requires
        single_line(a),
        single_line(b),
    ensures
        single_line(a + b),
{
    assert forall|j: int| 0 <= j < (a + b).len() implies (a + b)[j] != '\n' by {
        if j >= a.len() {
            assert((a + b)[j] == b[j - a.len()]);
        }
    }
}

proof fn lemma_escaped_single_line(s: Seq<char>)
    ensures
        single_line(escaped(s)),
    decreases s.len(),
{
    if s.len() > 0 {
        lemma_escaped_single_line(s.drop_last());
        lemma_single_line_concat(escaped(s.drop_last()), escape_char(s.last()));
    }
}

proof fn lemma_decimal_single_line(n: nat)
    ensures
        single_line(decimal(n)),
    decreases n,
{
    if n >= 10 {
        lemma_decimal_single_line(n / 10);
        assert(decimal(n) == decimal(n / 10).push(crate::number::digit_char((n % 10) as int)));
    }
}

/// Every NDJSON line is one line: no text in a row can break it, since
/// line endings in branch names and paths are escaped.
pub proof fn law_ndjson_one_line_per_row(rows: Seq<RowView>)
    ensures
        ndjson_lines(rows).len() == rows.len(),
        forall|i: int| 0 <= i < rows.len() ==> single_line(#[trigger] ndjson_lines(rows)[i]),
{
    reveal_strlit("{\"branch\":\"");
    reveal_strlit("\",\"path\":\"");
    reveal_strlit("\",\"ahead\":");
    reveal_strlit(",\"behind\":");
    reveal_strlit(",\"uncommitted\":");
    reveal_strlit("}");
    assert forall|i: int| 0 <= i < rows.len() implies single_line(#[trigger] ndjson_lines(rows)[i]) by {
        let r = rows[i];
        lemma_escaped_single_line(r.0);
        lemma_escaped_single_line(r.1);
        lemma_decimal_single_line(r.2 as nat);
        lemma_decimal_single_line(r.3 as nat);
        lemma_decimal_single_line(r.4 as nat);
        let p1 = "{\"branch\":\""@;
        let p2 = "\",\"path\":\""@;
        let p3 = "\",\"ahead\":"@;
        let p4 = ",\"behind\":"@;
        let p5 = ",\"uncommitted\":"@;
        let p6 = "}"@;
        assert(single_line(p1));
        assert(single_line(p2));
        assert(single_line(p3));
        assert(single_line(p4));
        assert(single_line(p5));
        assert(single_line(p6));
        lemma_single_line_concat(p1, escaped(r.0));
        lemma_single_line_concat(p1 + escaped(r.0), p2);
        lemma_single_line_concat(p1 + escaped(r.0) + p2, escaped(r.1));
        lemma_single_line_concat(p1 + escaped(r.0) + p2 + escaped(r.1), p3);
        lemma_single_line_concat(p1 + escaped(r.0) + p2 + escaped(r.1) + p3, decimal(r.2 as nat));
        lemma_single_line_concat(p1 + escaped(r.0) + p2 + escaped(r.1) + p3 + decimal(r.2 as nat), p4);
        lemma_single_line_concat(
            p1 + escaped(r.0) + p2 + escaped(r.1) + p3 + decimal(r.2 as nat) + p4,
            decimal(r.3 as nat),
        );
        lemma_single_line_concat(
            p1 + escaped(r.0) + p2 + escaped(r.1) + p3 + decimal(r.2 as nat) + p4 + decimal(
                r.3 as nat,
            ),
            p5,
        );
        lemma_single_line_concat(
            p1 + escaped(r.0) + p2 + escaped(r.1) + p3 + decimal(r.2 as nat) + p4 + decimal(
                r.3 as nat,
            ) + p5,
            decimal(r.4 as nat),
        );
        lemma_single_line_concat(
            p1 + escaped(r.0) + p2 + escaped(r.1) + p3 + decimal(r.2 as nat) + p4 + decimal(
                r.3 as nat,
            ) + p5 + decimal(r.4 as nat),
            p6,
        );
    }
}

} // verus!
