//! Text primitives on character sequences.
//!
//! Strings are modelled by their views, `Seq<char>`. Every executable
//! function here works on `Vec<char>` (or takes a `&str` and reads its
//! characters) and is proved equal to a spec function that states the
//! documented behaviour of the corresponding `str` operation.
use vstd::prelude::*;

verus! {

/// The view of each character vector in a sequence of vectors.
pub open spec fn views(v: Seq<Vec<char>>) -> Seq<Seq<char>> {
    v.map_values(|x: Vec<char>| x@)
}

/// The characters of a string slice, in order.
pub fn chars_of(s: &str) -> (r: Vec<char>)
    ensures
        r@ == s@,
{
    let mut r: Vec<char> = Vec::new();
    for c in it: s.chars()
        invariant
            r@ == it.seq().take(it.index() as int),
            it.seq() == s@,
    {
        r.push(c);
    }
    r
}

/// `std::string::String::push`: appends one character at the end.
#[verifier::external_body]
fn push_char(s: &mut String, c: char)
    ensures
        final(s)@ == old(s)@.push(c),
{
    s.push(c);
}

/// The string made of the given characters.
pub fn string_of(v: &Vec<char>) -> (r: String)
    ensures
        r@ == v@,
{
    let mut r = String::new();
    let n = v.len();
    for i in 0..n
        invariant
            n == v@.len(),
            r@ == v@.take(i as int),
    {
        push_char(&mut r, v[i]);
        assert(v@.take(i + 1) == v@.take(i as int).push(v@[i as int]));
    }
    assert(v@.take(n as int) == v@);
    r
}

/// The views of a sequence of strings.
pub open spec fn views_of_strings(v: Seq<String>) -> Seq<Seq<char>> {
    v.map_values(|x: String| x@)
}

/// An owned copy of a string slice.
pub fn text_of(s: &str) -> (r: String)
    ensures
        r@ == s@,
{
    let v = chars_of(s);
    string_of(&v)
}

/// Appends the characters of `b` to `a`.
pub fn append_chars(a: &mut Vec<char>, b: &Vec<char>)
    ensures
        final(a)@ == old(a)@ + b@,
{
    let n = b.len();
    for i in 0..n
        invariant
            n == b@.len(),
            a@ == old(a)@ + b@.take(i as int),
    {
        a.push(b[i]);
        assert(b@.take(i + 1) == b@.take(i as int).push(b@[i as int]));
    }
    assert(b@.take(n as int) == b@);
}

/// Appends the characters of a string slice to `a`.
pub fn append_str(a: &mut Vec<char>, s: &str)
    ensures
        final(a)@ == old(a)@ + s@,
{
    let b = chars_of(s);
    append_chars(a, &b);
}

/// The characters `s[lo..hi]`.
pub fn sub_chars(s: &Vec<char>, lo: usize, hi: usize) -> (r: Vec<char>)
    requires
        lo <= hi <= s@.len(),
    ensures
        r@ == s@.subrange(lo as int, hi as int),
{
    let mut r: Vec<char> = Vec::new();
    let mut i = lo;
    while i < hi
        invariant
            lo <= i <= hi <= s@.len(),
            r@ == s@.subrange(lo as int, i as int),
        decreases hi - i,
    {
        r.push(s[i]);
        assert(s@.subrange(lo as int, i + 1) == s@.subrange(lo as int, i as int).push(s@[i as int]));
        i = i + 1;
    }
    r
}

/// Equality of two character vectors.
pub fn chars_eq(a: &Vec<char>, b: &Vec<char>) -> (r: bool)
    ensures
        r == (a@ == b@),
{
    if a.len() != b.len() {
        return false;
    }
    let n = a.len();
    for i in 0..n
        invariant
            n == a@.len(),
            n == b@.len(),
            forall|j: int| 0 <= j < i ==> a@[j] == b@[j],
    {
        if a[i] != b[i] {
            return false;
        }
    }
    assert(a@ =~= b@);
    true
}

/// Whether `c` has the Unicode `White_Space` property, which is what
/// `char::is_whitespace` tests.
pub open spec fn is_ws(c: char) -> bool {
    ||| ('\u{9}' <= c && c <= '\u{d}')
    ||| c == ' '
    ||| c == '\u{85}'
    ||| c == '\u{a0}'
    ||| c == '\u{1680}'
    ||| ('\u{2000}' <= c && c <= '\u{200a}')
    ||| c == '\u{2028}'
    ||| c == '\u{2029}'
    ||| c == '\u{202f}'
    ||| c == '\u{205f}'
    ||| c == '\u{3000}'
}

pub fn is_whitespace(c: char) -> (b: bool)
    ensures
        b == is_ws(c),
{
    ('\u{9}' <= c && c <= '\u{d}') || c == ' ' || c == '\u{85}' || c == '\u{a0}' || c == '\u{1680}'
        || ('\u{2000}' <= c && c <= '\u{200a}') || c == '\u{2028}' || c == '\u{2029}' || c
        == '\u{202f}' || c == '\u{205f}' || c == '\u{3000}'
}

/// `str::trim_start`: drops leading whitespace.
pub open spec fn trim_start(s: Seq<char>) -> Seq<char>
    decreases s.len(),
{
    if s.len() > 0 && is_ws(s[0]) {
        trim_start(s.drop_first())
    } else {
        s
    }
}

/// `str::trim_end`: drops trailing whitespace.
pub open spec fn trim_end(s: Seq<char>) -> Seq<char>
    decreases s.len(),
{
    if s.len() > 0 && is_ws(s.last()) {
        trim_end(s.drop_last())
    } else {
        s
    }
}

/// `str::trim`: drops leading and trailing whitespace.
pub open spec fn trim(s: Seq<char>) -> Seq<char> {
    trim_end(trim_start(s))
}

proof fn lemma_trim_start_skip(s: Seq<char>, a: int)
    requires
        0 <= a <= s.len(),
        forall|i: int| 0 <= i < a ==> is_ws(#[trigger] s[i]),
        a == s.len() || !is_ws(s[a]),
    ensures
        trim_start(s) == s.skip(a),
    decreases a,
{
    if a > 0 {
        assert forall|i: int| 0 <= i < a - 1 implies is_ws(#[trigger] s.drop_first()[i]) by {
            assert(s.drop_first()[i] == s[i + 1]);
        }
        lemma_trim_start_skip(s.drop_first(), a - 1);
        assert(s.drop_first().skip(a - 1) == s.skip(a));
    } else {
        assert(s.skip(0) == s);
    }
}

proof fn lemma_trim_end_take(s: Seq<char>, b: int)
    requires
        0 <= b <= s.len(),
        forall|i: int| b <= i < s.len() ==> is_ws(#[trigger] s[i]),
        b == 0 || !is_ws(s[b - 1]),
    ensures
        trim_end(s) == s.take(b),
    decreases s.len() - b,
{
    if b < s.len() {
        assert forall|i: int| b <= i < s.len() - 1 implies is_ws(#[trigger] s.drop_last()[i]) by {
            assert(s.drop_last()[i] == s[i]);
        }
        lemma_trim_end_take(s.drop_last(), b);
        assert(s.drop_last().take(b) == s.take(b));
    } else {
        assert(s.take(b) == s);
    }
}

/// `str::trim` on a character vector.
pub fn trim_chars(s: &Vec<char>) -> (r: Vec<char>)
    ensures
        r@ == trim(s@),
{
    let n = s.len();
    let mut a: usize = 0;
    while a < n && is_whitespace(s[a])
        invariant
            n == s@.len(),
            a <= n,
            forall|i: int| 0 <= i < a ==> is_ws(#[trigger] s@[i]),
        decreases n - a,
    {
        a = a + 1;
    }
    proof {
        lemma_trim_start_skip(s@, a as int);
    }
    let t = sub_chars(s, a, n);
    let m = t.len();
    let mut b: usize = m;
    while b > 0 && is_whitespace(t[b - 1])
        invariant
            m == t@.len(),
            b <= m,
            forall|i: int| b <= i < m ==> is_ws(#[trigger] t@[i]),
        decreases b,
    {
        b = b - 1;
    }
    proof {
        lemma_trim_end_take(t@, b as int);
    }
    sub_chars(&t, 0, b)
}

/// Whether `p` occurs in `s` at position `i`.
pub open spec fn occurs_at(s: Seq<char>, p: Seq<char>, i: int) -> bool {
    0 <= i && i + p.len() <= s.len() && s.subrange(i, i + p.len()) == p
}

/// Whether `s` occurs at position `i` of `v`.
pub fn occurs_at_exec(v: &Vec<char>, p: &Vec<char>, i: usize) -> (r: bool)
    ensures
        r == occurs_at(v@, p@, i as int),
{
    if i > v.len() || p.len() > v.len() - i {
        return false;
    }
    let m = p.len();
    let mut j: usize = 0;
    while j < m
        invariant
            m == p@.len(),
            i + m <= v@.len() <= usize::MAX,
            j <= m,
            forall|k: int| 0 <= k < j ==> v@[i + k] == p@[k],
        decreases m - j,
    {
        if v[i + j] != p[j] {
            assert(v@.subrange(i as int, i + m)[j as int] == v@[i + j]);
            return false;
        }
        j = j + 1;
    }
    assert(v@.subrange(i as int, i + m) =~= p@);
    true
}

/// `str::strip_prefix`.
pub open spec fn strip_prefix(s: Seq<char>, p: Seq<char>) -> Option<Seq<char>> {
    if occurs_at(s, p, 0) {
        Some(s.skip(p.len() as int))
    } else {
        None
    }
}

/// `str::trim_start_matches` with a string pattern: strips `p` from the
/// front as long as it is there.
pub open spec fn trim_start_matches(s: Seq<char>, p: Seq<char>) -> Seq<char>
    decreases s.len(),
{
    if p.len() > 0 && occurs_at(s, p, 0) {
        trim_start_matches(s.skip(p.len() as int), p)
    } else {
        s
    }
}

/// `str::trim_end_matches` with a character pattern.
pub open spec fn trim_end_matches_char(s: Seq<char>, c: char) -> Seq<char>
    decreases s.len(),
{
    if s.len() > 0 && s.last() == c {
        trim_end_matches_char(s.drop_last(), c)
    } else {
        s
    }
}

pub fn trim_start_matches_exec(s: &Vec<char>, p: &Vec<char>) -> (r: Vec<char>)
    ensures
        r@ == trim_start_matches(s@, p@),
{
    if p.len() == 0 {
        return sub_chars(s, 0, s.len());
    }
    let mut a: usize = 0;
    let n = s.len();
    assert(s@.skip(0) == s@);
    while occurs_at_exec(s, p, a)
        invariant
            n == s@.len(),
            p@.len() > 0,
            a <= n,
            trim_start_matches(s@.skip(a as int), p@) == trim_start_matches(s@, p@),
        decreases n - a,
    {
        assert(occurs_at(s@.skip(a as int), p@, 0)) by {
            assert(s@.skip(a as int).subrange(0, p@.len() as int) == s@.subrange(
                a as int,
                a + p@.len(),
            ));
        }
        assert(s@.skip(a as int).skip(p@.len() as int) == s@.skip(a + p@.len()));
        a = a + p.len();
    }
    assert(!occurs_at(s@.skip(a as int), p@, 0)) by {
        if occurs_at(s@.skip(a as int), p@, 0) {
            assert(s@.skip(a as int).subrange(0, p@.len() as int) == s@.subrange(
                a as int,
                a + p@.len(),
            ));
        }
    }
    sub_chars(s, a, n)
}

pub fn trim_end_matches_char_exec(s: &Vec<char>, c: char) -> (r: Vec<char>)
    ensures
        r@ == trim_end_matches_char(s@, c),
{
    let mut b: usize = s.len();
    assert(s@.take(b as int) == s@);
    while b > 0 && s[b - 1] == c
        invariant
            b <= s@.len(),
            trim_end_matches_char(s@.take(b as int), c) == trim_end_matches_char(s@, c),
        decreases b,
    {
        assert(s@.take(b as int).drop_last() == s@.take(b - 1));
        b = b - 1;
    }
    sub_chars(s, 0, b)
}

/// `str::split` on a character: every piece between occurrences of `c`,
/// including empty ones (so there is always at least one piece).
pub open spec fn split_char(s: Seq<char>, c: char) -> Seq<Seq<char>>
    decreases s.len(),
{
    if s.len() == 0 {
        seq![Seq::<char>::empty()]
    } else {
        let p = split_char(s.drop_last(), c);
        if s.last() == c {
            p.push(Seq::<char>::empty())
        } else {
            p.update(p.len() - 1, p.last().push(s.last()))
        }
    }
}

pub proof fn lemma_split_char_nonempty(s: Seq<char>, c: char)
    ensures
        split_char(s, c).len() >= 1,
    decreases s.len(),
{
    if s.len() > 0 {
        lemma_split_char_nonempty(s.drop_last(), c);
    }
}

/// Splits `s` at every occurrence of `c`.
pub fn split_char_exec(s: &Vec<char>, c: char) -> (r: Vec<Vec<char>>)
    ensures
        views(r@) == split_char(s@, c),
{
    let mut done: Vec<Vec<char>> = Vec::new();
    let mut cur: Vec<char> = Vec::new();
    let n = s.len();
    assert(s@.take(0) == Seq::<char>::empty());
    assert(views(done@).push(cur@) =~= split_char(s@.take(0), c));
    for i in 0..n
        invariant
            n == s@.len(),
            views(done@).push(cur@) == split_char(s@.take(i as int), c),
    {
        let ghost before = split_char(s@.take(i as int), c);
        assert(s@.take(i + 1).drop_last() == s@.take(i as int));
        assert(s@.take(i + 1).last() == s@[i as int]);
        if s[i] == c {
            done.push(cur);
            cur = Vec::new();
            assert(views(done@).push(cur@) =~= before.push(Seq::<char>::empty()));
        } else {
            let ghost old_cur = cur@;
            cur.push(s[i]);
            assert(views(done@).push(cur@) =~= before.update(
                before.len() - 1,
                before.last().push(s@[i as int]),
            ));
        }
    }
    assert(s@.take(n as int) == s@);
    done.push(cur);
    assert(views(done@) =~= split_char(s@, c));
    done
}

/// Drops one `'\r'` at the end, if there is one.
pub open spec fn strip_cr(x: Seq<char>) -> Seq<char> {
    if x.len() > 0 && x.last() == '\r' {
        x.drop_last()
    } else {
        x
    }
}

/// `str::lines`: the pieces between `'\n'` characters, each piece that
/// ended at a `'\n'` losing one `'\r'` in front of it; an empty last piece
/// (after a final line ending, or of the empty string) is not a line.
pub open spec fn lines(s: Seq<char>) -> Seq<Seq<char>> {
    let p = split_char(s, '\n');
    let init = p.drop_last().map_values(|x: Seq<char>| strip_cr(x));
    if p.last().len() == 0 {
        init
    } else {
        init.push(p.last())
    }
}

fn strip_cr_exec(x: &Vec<char>) -> (r: Vec<char>)
    ensures
        r@ == strip_cr(x@),
{
    let n = x.len();
    if n > 0 && x[n - 1] == '\r' {
        sub_chars(x, 0, n - 1)
    } else {
        sub_chars(x, 0, n)
    }
}

/// The lines of a text, as `str::lines` yields them.
pub fn lines_exec(s: &Vec<char>) -> (r: Vec<Vec<char>>)
    ensures
        views(r@) == lines(s@),
{
    let pieces = split_char_exec(s, '\n');
    proof {
        lemma_split_char_nonempty(s@, '\n');
    }
    let ghost p = split_char(s@, '\n');
    let mut r: Vec<Vec<char>> = Vec::new();
    let n = pieces.len() - 1;
    for i in 0..n
        invariant
            n + 1 == pieces@.len(),
            views(pieces@) == p,
            views(r@) == p.drop_last().map_values(|x: Seq<char>| strip_cr(x)).take(i as int),
    {
        let line = strip_cr_exec(&pieces[i]);
        assert(views(pieces@)[i as int] == pieces@[i as int]@);
        assert(p.drop_last()[i as int] == p[i as int]);
        let ghost old_r = r@;
        r.push(line);
        assert(views(r@) =~= views(old_r).push(strip_cr(p[i as int])));
        let ghost m = p.drop_last().map_values(|x: Seq<char>| strip_cr(x));
        assert(m.take(i + 1) =~= m.take(i as int).push(m[i as int]));
        assert(views(r@) =~= p.drop_last().map_values(|x: Seq<char>| strip_cr(x)).take(i + 1));
    }
    assert(p.drop_last().map_values(|x: Seq<char>| strip_cr(x)).take(n as int) =~= p.drop_last().map_values(
        |x: Seq<char>| strip_cr(x),
    ));
    if pieces[n].len() > 0 {
        let last = sub_chars(&pieces[n], 0, pieces[n].len());
        assert(views(pieces@)[n as int] == pieces@[n as int]@);
        assert(pieces@[n as int]@.subrange(0, pieces@[n as int]@.len() as int) == pieces@[n as int]@);
        assert(last@ == p.last());
        let ghost old_r = r@;
        r.push(last);
        assert(views(r@) =~= views(old_r).push(p.last()));
        assert(views(r@) =~= lines(s@));
    }
    r
}

/// Whether `p` occurs anywhere in `s`.
pub open spec fn contains(s: Seq<char>, p: Seq<char>) -> bool {
    exists|i: int| occurs_at(s, p, i)
}

/// Whether `i` is the first position at which `p` occurs in `s`.
pub open spec fn first_at(s: Seq<char>, p: Seq<char>, i: int) -> bool {
    occurs_at(s, p, i) && forall|j: int| 0 <= j < i ==> !occurs_at(s, p, j)
}

/// `str::find`: the first position at which `p` occurs in `s`.
pub open spec fn find(s: Seq<char>, p: Seq<char>) -> Option<int> {
    if contains(s, p) {
        Some(choose|i: int| first_at(s, p, i))
    } else {
        None
    }
}

proof fn lemma_first_at_unique(s: Seq<char>, p: Seq<char>, i: int, j: int)
    requires
        first_at(s, p, i),
        first_at(s, p, j),
    ensures
        i == j,
{
    if i < j {
        assert(!occurs_at(s, p, i));
    } else if j < i {
        assert(!occurs_at(s, p, j));
    }
}

/// The first position at which `p` occurs in `s`.
pub fn find_exec(s: &Vec<char>, p: &Vec<char>) -> (r: Option<usize>)
    ensures
        match r {
            Some(i) => find(s@, p@) == Some(i as int) && first_at(s@, p@, i as int),
            None => find(s@, p@) is None && !contains(s@, p@),
        },
{
    let n = s.len();
    let mut i: usize = 0;
    while i < n
        invariant
            n == s@.len(),
            i <= n,
            forall|j: int| 0 <= j < i ==> !occurs_at(s@, p@, j),
        decreases n - i,
    {
        if occurs_at_exec(s, p, i) {
            assert(first_at(s@, p@, i as int));
            proof {
                let k = choose|k: int| first_at(s@, p@, k);
                lemma_first_at_unique(s@, p@, i as int, k);
            }
            return Some(i);
        }
        i = i + 1;
    }
    if occurs_at_exec(s, p, n) {
        assert(first_at(s@, p@, n as int));
        proof {
            let k = choose|k: int| first_at(s@, p@, k);
            lemma_first_at_unique(s@, p@, n as int, k);
        }
        return Some(n);
    }
    assert(!contains(s@, p@)) by {
        if contains(s@, p@) {
            let k = choose|k: int| occurs_at(s@, p@, k);
            assert(k <= n);
        }
    }
    None
}

/// The first two pieces that `str::split` with pattern `p` yields: the text
/// before the first occurrence of `p`, and the text after it, if `p` occurs.
pub open spec fn split_first(s: Seq<char>, p: Seq<char>) -> (Seq<char>, Option<Seq<char>>) {
    match find(s, p) {
        Some(i) => (s.take(i), Some(s.skip(i + p.len()))),
        None => (s, None),
    }
}

pub fn split_first_exec(s: &Vec<char>, p: &Vec<char>) -> (r: (Vec<char>, Option<Vec<char>>))
    ensures
        r.0@ == split_first(s@, p@).0,
        match r.1 {
            Some(t) => split_first(s@, p@).1 == Some(t@),
            None => split_first(s@, p@).1 is None,
        },
{
    let n = s.len();
    match find_exec(s, p) {
        Some(i) => {
            let a = sub_chars(s, 0, i);
            let b = sub_chars(s, i + p.len(), s.len());
            (a, Some(b))
        },
        None => (sub_chars(s, 0, s.len()), None),
    }
}

/// Whether `s` does not hold the character `d`.
pub open spec fn free_of(s: Seq<char>, d: char) -> bool {
    forall|j: int| 0 <= j < s.len() ==> s[j] != d
}

/// `str::replace` with a non-empty pattern: every occurrence of `p`,
/// matched from left to right without overlap, replaced by `r`.
pub open spec fn replace(s: Seq<char>, p: Seq<char>, r: Seq<char>) -> Seq<char>
    recommends
        p.len() > 0,
    decreases s.len(),
{
    if p.len() == 0 || s.len() == 0 {
        s
    } else if occurs_at(s, p, 0) {
        r + replace(s.skip(p.len() as int), p, r)
    } else {
        seq![s[0]] + replace(s.drop_first(), p, r)
    }
}

/// Replacing by text without `d` in text without `d` gives text without `d`.
pub proof fn lemma_replace_free(s: Seq<char>, p: Seq<char>, r: Seq<char>, d: char)
    requires
        free_of(s, d),
        free_of(r, d),
    ensures
        free_of(replace(s, p, r), d),
    decreases s.len(),
{
    if p.len() > 0 && s.len() > 0 {
        let out = replace(s, p, r);
        if occurs_at(s, p, 0) {
            let t = s.skip(p.len() as int);
            assert forall|j: int| 0 <= j < t.len() implies t[j] != d by {
                assert(t[j] == s[j + p.len()]);
            }
            lemma_replace_free(t, p, r, d);
            let rt = replace(t, p, r);
            assert forall|j: int| 0 <= j < out.len() implies out[j] != d by {
                if j < r.len() {
                    assert(out[j] == r[j]);
                } else {
                    assert(out[j] == rt[j - r.len()]);
                }
            }
        } else {
            let t = s.drop_first();
            assert forall|j: int| 0 <= j < t.len() implies t[j] != d by {
                assert(t[j] == s[j + 1]);
            }
            lemma_replace_free(t, p, r, d);
            let rt = replace(t, p, r);
            assert forall|j: int| 0 <= j < out.len() implies out[j] != d by {
                if j > 0 {
                    assert(out[j] == rt[j - 1]);
                }
            }
        }
    }
}

/// Whether every `o` in `s` opens an occurrence of `p`, or of `q` where
/// there is one.
pub open spec fn opens_only(s: Seq<char>, o: char, p: Seq<char>, q: Option<Seq<char>>) -> bool {
    forall|i: int|
        0 <= i < s.len() && #[trigger] s[i] == o ==> occurs_at(s, p, i) || (q matches Some(qq)
            && occurs_at(s, qq, i))
}

proof fn lemma_replace_keeps_prefix(t: Seq<char>, p: Seq<char>, r: Seq<char>, k: int)
    requires
        p.len() > 0,
        0 <= k <= t.len(),
        free_of(t.take(k), p[0]),
    ensures
        replace(t, p, r).len() >= k,
        replace(t, p, r).take(k) == t.take(k),
    decreases k,
{
    if k > 0 {
        assert(t[0] == t.take(k)[0]);
        if p.len() <= t.len() {
            assert(t.subrange(0, p.len() as int)[0] == t[0]);
        }
        assert(!occurs_at(t, p, 0));
        let d = t.drop_first();
        assert forall|j: int| 0 <= j < d.take(k - 1).len() implies #[trigger] d.take(k - 1)[j] != p[0] by {
            assert(d.take(k - 1)[j] == t.take(k)[j + 1]);
        }
        lemma_replace_keeps_prefix(d, p, r, k - 1);
        let rd = replace(d, p, r);
        assert(replace(t, p, r) == seq![t[0]] + rd);
        assert forall|j: int| 0 <= j < k implies #[trigger] (seq![t[0]] + rd)[j] == t[j] by {
            if j > 0 {
                assert(rd[j - 1] == rd.take(k - 1)[j - 1]);
                assert(d.take(k - 1)[j - 1] == t[j]);
            }
        }
        assert((seq![t[0]] + rd).take(k) =~= t.take(k));
    }
}

proof fn lemma_occurs_shift(a: Seq<char>, b: Seq<char>, p: Seq<char>, j: int)
    ensures
        occurs_at(b, p, j) ==> occurs_at(a + b, p, j + a.len()),
{
    if occurs_at(b, p, j) {
        assert((a + b).subrange(j + a.len(), j + a.len() + p.len()) =~= b.subrange(j, j + p.len()));
    }
}

/// Replacing every occurrence of `p`, a pattern opened by `o`, by text
/// without `o`, in text where every `o` opens `p` or `q` (`q` opened by
/// `o` and without a second `o`), leaves every `o` opening `q`; with no
/// `q`, no `o` is left.
pub proof fn lemma_replace_placeholders(
    s: Seq<char>,
    o: char,
    p: Seq<char>,
    r: Seq<char>,
    q: Option<Seq<char>>,
)
    requires
        p.len() > 0,
        p[0] == o,
        free_of(r, o),
        q matches Some(qq) ==> qq.len() > 0 && qq[0] == o && free_of(qq.drop_first(), o),
        opens_only(s, o, p, q),
    ensures
        opens_only(replace(s, p, r), o, p, q) && forall|i: int|
            0 <= i < replace(s, p, r).len() && #[trigger] replace(s, p, r)[i] == o ==> (q matches Some(
                qq,
            ) && occurs_at(replace(s, p, r), qq, i)),
    decreases s.len(),
{
    let out = replace(s, p, r);
    if s.len() == 0 {
    } else if occurs_at(s, p, 0) {
        let t = s.skip(p.len() as int);
        assert forall|j: int| 0 <= j < t.len() && #[trigger] t[j] == o implies occurs_at(t, p, j) || (
        q matches Some(qq) && occurs_at(t, qq, j)) by {
            assert(t[j] == s[j + p.len()]);
            assert(occurs_at(s, p, j + p.len()) ==> s.subrange(j + p.len(), j + p.len() + p.len())
                =~= t.subrange(j, j + p.len()));
            if let Some(qq) = q {
                assert(occurs_at(s, qq, j + p.len()) ==> s.subrange(j + p.len(), j + p.len() + qq.len())
                    =~= t.subrange(j, j + qq.len()));
            }
        }
        lemma_replace_placeholders(t, o, p, r, q);
        let rt = replace(t, p, r);
        assert(out == r + rt);
        assert forall|i: int| 0 <= i < out.len() && #[trigger] out[i] == o implies (q matches Some(qq)
            && occurs_at(out, qq, i)) by {
            if i < r.len() {
                assert(out[i] == r[i]);
            } else {
                assert(out[i] == rt[i - r.len()]);
                if let Some(qq) = q {
                    lemma_occurs_shift(r, rt, qq, i - r.len());
                }
            }
        }
    } else {
        let t = s.drop_first();
        assert forall|j: int| 0 <= j < t.len() && #[trigger] t[j] == o implies occurs_at(t, p, j) || (
        q matches Some(qq) && occurs_at(t, qq, j)) by {
            assert(t[j] == s[j + 1]);
            assert(occurs_at(s, p, j + 1) ==> s.subrange(j + 1, j + 1 + p.len()) =~= t.subrange(
                j,
                j + p.len(),
            ));
            if let Some(qq) = q {
                assert(occurs_at(s, qq, j + 1) ==> s.subrange(j + 1, j + 1 + qq.len()) =~= t.subrange(
                    j,
                    j + qq.len(),
                ));
            }
        }
        lemma_replace_placeholders(t, o, p, r, q);
        let rt = replace(t, p, r);
        assert(out == seq![s[0]] + rt);
        assert forall|i: int| 0 <= i < out.len() && #[trigger] out[i] == o implies (q matches Some(qq)
            && occurs_at(out, qq, i)) by {
            if i == 0 {
                assert(s[0] == o);
                assert(opens_only(s, o, p, q));
                assert(s[0] == o ==> occurs_at(s, p, 0) || (q matches Some(qq) && occurs_at(s, qq, 0)));
                if let Some(qq) = q {
                    let k = qq.len() - 1;
                    assert(s.subrange(0, qq.len() as int) == qq);
                    assert(t.take(k) =~= qq.drop_first());
                    lemma_replace_keeps_prefix(t, p, r, k);
                    assert(out.subrange(0, qq.len() as int) =~= seq![s[0]] + rt.take(k));
                    assert(seq![s[0]] + qq.drop_first() =~= qq);
                }
            } else {
                assert(out[i] == rt[i - 1]);
                if let Some(qq) = q {
                    lemma_occurs_shift(seq![s[0]], rt, qq, i - 1);
                }
            }
        }
    }
    assert forall|i: int| 0 <= i < out.len() && #[trigger] out[i] == o implies occurs_at(out, p, i) || (
    q matches Some(qq) && occurs_at(out, qq, i)) by {
    }
}

pub fn replace_exec(s: &Vec<char>, p: &Vec<char>, r: &Vec<char>) -> (out: Vec<char>)
    requires
        p@.len() > 0,
    ensures
        out@ == replace(s@, p@, r@),
{
    let n = s.len();
    let mut out: Vec<char> = Vec::new();
    let mut i: usize = 0;
    assert(s@.skip(0) == s@);
    while i < n
        invariant
            n == s@.len(),
            p@.len() > 0,
            i <= n,
            out@ + replace(s@.skip(i as int), p@, r@) == replace(s@, p@, r@),
        decreases n - i,
    {
        let ghost rest = s@.skip(i as int);
        if occurs_at_exec(s, p, i) {
            assert(occurs_at(rest, p@, 0)) by {
                assert(rest.subrange(0, p@.len() as int) == s@.subrange(i as int, i + p@.len()));
            }
            assert(rest.skip(p@.len() as int) == s@.skip(i + p@.len()));
            append_chars(&mut out, r);
            assert(out@ + replace(s@.skip(i + p@.len()), p@, r@) =~= replace(s@, p@, r@));
            i = i + p.len();
        } else {
            assert(!occurs_at(rest, p@, 0)) by {
                if occurs_at(rest, p@, 0) {
                    assert(rest.subrange(0, p@.len() as int) == s@.subrange(i as int, i + p@.len()));
                }
            }
            assert(rest.drop_first() == s@.skip(i + 1));
            out.push(s[i]);
            assert(out@ + replace(s@.skip(i + 1), p@, r@) =~= replace(s@, p@, r@));
            i = i + 1;
        }
    }
    assert(out@ =~= replace(s@, p@, r@));
    out
}

pub proof fn lemma_split_char_append(a: Seq<char>, b: Seq<char>, c: char)
    requires
        forall|i: int| 0 <= i < b.len() ==> b[i] != c,
    ensures
        split_char(a + b, c).len() == split_char(a, c).len(),
        split_char(a + b, c).last() == split_char(a, c).last() + b,
        split_char(a + b, c).drop_last() == split_char(a, c).drop_last(),
    decreases b.len(),
{
    lemma_split_char_nonempty(a, c);
    if b.len() == 0 {
        assert(a + b == a);
    } else {
        lemma_split_char_append(a, b.drop_last(), c);
        assert((a + b).drop_last() == a + b.drop_last());
        assert((a + b).last() == b.last());
        lemma_split_char_nonempty(a + b.drop_last(), c);
        assert(split_char(a, c).last() + b == (split_char(a, c).last() + b.drop_last()).push(b.last()));
    }
}

proof fn lemma_trim_start_push(x: Seq<char>, c: char)
    ensures
        trim_start(x.push(c)) == if trim_start(x).len() > 0 {
            trim_start(x).push(c)
        } else {
            trim_start(seq![c])
        },
    decreases x.len(),
{
    if x.len() == 0 {
        assert(x.push(c) == seq![c]);
    } else if is_ws(x[0]) {
        lemma_trim_start_push(x.drop_first(), c);
        assert(x.push(c).drop_first() == x.drop_first().push(c));
    }
}

/// Trimming ignores whitespace added at the end.
pub proof fn lemma_trim_push_ws(x: Seq<char>, w: char)
    requires
        is_ws(w),
    ensures
        trim(x.push(w)) == trim(x),
{
    lemma_trim_start_push(x, w);
    if trim_start(x).len() > 0 {
        assert(trim_start(x).push(w).drop_last() == trim_start(x));
    } else {
        assert(seq![w].drop_first() == Seq::<char>::empty());
        assert(trim_start(Seq::<char>::empty()) == Seq::<char>::empty());
        assert(trim_start(seq![w]) == Seq::<char>::empty());
    }
}

} // verus!
