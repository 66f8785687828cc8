//! Numbers in decimal text, padding, and the lexicographic order on text.
use vstd::prelude::*;

verus! {

/// The decimal digit character for `d` (`0 <= d < 10`).
pub open spec fn digit_char(d: int) -> char {
    if d == 0 {
        '0'
    } else if d == 1 {
        '1'
    } else if d == 2 {
        '2'
    } else if d == 3 {
        '3'
    } else if d == 4 {
        '4'
    } else if d == 5 {
        '5'
    } else if d == 6 {
        '6'
    } else if d == 7 {
        '7'
    } else if d == 8 {
        '8'
    } else {
        '9'
    }
}

fn digit_char_exec(d: u32) -> (c: char)
    requires
        d < 10,
    ensures
        c == digit_char(d as int),
{
    if d == 0 {
        '0'
    } else if d == 1 {
        '1'
    } else if d == 2 {
        '2'
    } else if d == 3 {
        '3'
    } else if d == 4 {
        '4'
    } else if d == 5 {
        '5'
    } else if d == 6 {
        '6'
    } else if d == 7 {
        '7'
    } else if d == 8 {
        '8'
    } else {
        '9'
    }
}

/// The decimal representation of `n`, without leading zeros (as `u32`'s
/// `Display` writes it).
pub open spec fn decimal(n: nat) -> Seq<char>
    decreases n,
{
    if n < 10 {
        seq![digit_char(n as int)]
    } else {
        decimal(n / 10).push(digit_char((n % 10) as int))
    }
}

/// Writes `n` in decimal.
pub fn decimal_exec(n: u32) -> (r: Vec<char>)
    ensures
        r@ == decimal(n as nat),
    decreases n,
{
    if n < 10 {
        let mut r = Vec::new();
        r.push(digit_char_exec(n));
        r
    } else {
        let mut r = decimal_exec(n / 10);
        r.push(digit_char_exec(n % 10));
        r
    }
}

/// Whether `c` is an ASCII decimal digit.
pub open spec fn is_digit(c: char) -> bool {
    '0' <= c && c <= '9'
}

/// The value of the decimal digit `c`.
pub open spec fn digit_value(c: char) -> nat {
    ((c as int) - ('0' as int)) as nat
}

/// The value of a sequence of decimal digits (0 for the empty one).
pub open spec fn digits_value(d: Seq<char>) -> nat
    decreases d.len(),
{
    if d.len() == 0 {
        0
    } else {
        digits_value(d.drop_last()) * 10 + digit_value(d.last())
    }
}

/// The text after an optional leading `+`.
pub open spec fn unsigned_digits(s: Seq<char>) -> Seq<char> {
    if s.len() > 0 && s[0] == '+' {
        s.drop_first()
    } else {
        s
    }
}

/// Whether every character of `d` is a decimal digit.
pub open spec fn all_digits(d: Seq<char>) -> bool {
    forall|i: int| 0 <= i < d.len() ==> is_digit(#[trigger] d[i])
}

/// `<u32 as FromStr>::from_str`: an optional `+` then at least one decimal
/// digit, with a value that fits in a `u32`.
pub open spec fn parse_u32(s: Seq<char>) -> Option<u32> {
    let d = unsigned_digits(s);
    if d.len() > 0 && all_digits(d) && digits_value(d) <= u32::MAX {
        Some(digits_value(d) as u32)
    } else {
        None
    }
}

proof fn lemma_digits_value_prefix(d: Seq<char>, k: int)
    requires
        0 <= k <= d.len(),
    ensures
        digits_value(d.take(k)) <= digits_value(d),
    decreases d.len() - k,
{
    if k < d.len() {
        lemma_digits_value_prefix(d, k + 1);
        assert(d.take(k + 1).drop_last() == d.take(k));
    } else {
        assert(d.take(k) == d);
    }
}

/// Parses a `u32` as `str::parse::<u32>` does; `None` where it fails.
pub fn parse_u32_exec(s: &Vec<char>) -> (r: Option<u32>)
    ensures
        r == parse_u32(s@),
{
    let n = s.len();
    let start: usize = if n > 0 && s[0] == '+' {
        1
    } else {
        0
    };
    let ghost d = unsigned_digits(s@);
    assert(d == s@.skip(start as int));
    if start == n {
        return None;
    }
    let mut v: u32 = 0;
    let mut i: usize = start;
    while i < n
        invariant
            n == s@.len(),
            start <= i <= n,
            d == s@.skip(start as int),
            d == unsigned_digits(s@),
            forall|j: int| 0 <= j < i - start ==> is_digit(#[trigger] d[j]),
            v as nat == digits_value(d.take(i - start)),
        decreases n - i,
    {
        let c = s[i];
        if !('0' <= c && c <= '9') {
            assert(d[i - start] == s@[i as int]);
            assert(!all_digits(d));
            return None;
        }
        let dv = (c as u32) - ('0' as u32);
        assert(dv == digit_value(c));
        assert(d[i - start] == s@[i as int]);
        assert(d.take(i + 1 - start).drop_last() == d.take(i - start));
        assert(digits_value(d.take(i + 1 - start)) == v * 10 + dv);
        match v.checked_mul(10) {
            Some(m) => match m.checked_add(dv) {
                Some(w) => {
                    v = w;
                },
                None => {
                    proof {
                        lemma_digits_value_prefix(d, i + 1 - start);
                    }
                    return None;
                },
            },
            None => {
                proof {
                    lemma_digits_value_prefix(d, i + 1 - start);
                }
                return None;
            },
        }
        i = i + 1;
    }
    assert(d.take(n - start) == d);
    Some(v)
}

/// `n` spaces.
pub open spec fn spaces(n: int) -> Seq<char> {
    Seq::new(n as nat, |i: int| ' ')
}

/// `format!("{:<w$}", s)`: `s` followed by spaces up to `w` characters.
pub open spec fn pad_right(s: Seq<char>, w: nat) -> Seq<char> {
    if s.len() >= w {
        s
    } else {
        s + spaces(w - s.len())
    }
}

/// `format!("{:>w$}", s)`: spaces up to `w` characters, then `s`.
pub open spec fn pad_left(s: Seq<char>, w: nat) -> Seq<char> {
    if s.len() >= w {
        s
    } else {
        spaces(w - s.len()) + s
    }
}

fn spaces_exec(n: usize) -> (r: Vec<char>)
    ensures
        r@ == spaces(n as int),
{
    let mut r: Vec<char> = Vec::new();
    for i in 0..n
        invariant
            r@ == spaces(i as int),
    {
        r.push(' ');
        assert(r@ =~= spaces(i + 1));
    }
    r
}

pub fn pad_right_exec(s: &Vec<char>, w: usize) -> (r: Vec<char>)
    ensures
        r@ == pad_right(s@, w as nat),
{
    let mut r: Vec<char> = Vec::new();
    crate::text::append_chars(&mut r, s);
    if s.len() < w {
        let sp = spaces_exec(w - s.len());
        crate::text::append_chars(&mut r, &sp);
    }
    assert(r@ =~= pad_right(s@, w as nat));
    r
}

pub fn pad_left_exec(s: &Vec<char>, w: usize) -> (r: Vec<char>)
    ensures
        r@ == pad_left(s@, w as nat),
{
    let mut r: Vec<char> = Vec::new();
    if s.len() < w {
        r = spaces_exec(w - s.len());
    }
    crate::text::append_chars(&mut r, s);
    assert(r@ =~= pad_left(s@, w as nat));
    r
}

/// The lexicographic order on text (`<=`), character by character. It is
/// the order of `String`'s `Ord`, since UTF-8 keeps the order of code points.
pub open spec fn lex_le(a: Seq<char>, b: Seq<char>) -> bool
    decreases a.len(),
{
    if a.len() == 0 {
        true
    } else if b.len() == 0 {
        false
    } else if a[0] != b[0] {
        a[0] < b[0]
    } else {
        lex_le(a.drop_first(), b.drop_first())
    }
}

pub proof fn lemma_lex_total(a: Seq<char>, b: Seq<char>)
    ensures
        lex_le(a, b) || lex_le(b, a),
    decreases a.len(),
{
    if a.len() > 0 && b.len() > 0 && a[0] == b[0] {
        lemma_lex_total(a.drop_first(), b.drop_first());
    }
}

pub proof fn lemma_lex_antisym(a: Seq<char>, b: Seq<char>)
    requires
        lex_le(a, b),
        lex_le(b, a),
    ensures
        a == b,
    decreases a.len(),
{
    if a.len() > 0 && b.len() > 0 {
        lemma_lex_antisym(a.drop_first(), b.drop_first());
        assert(a =~= seq![a[0]] + a.drop_first());
        assert(b =~= seq![b[0]] + b.drop_first());
    }
}

pub proof fn lemma_lex_trans(a: Seq<char>, b: Seq<char>, c: Seq<char>)
    requires
        lex_le(a, b),
        lex_le(b, c),
    ensures
        lex_le(a, c),
    decreases a.len(),
{
    if a.len() > 0 && b.len() > 0 && c.len() > 0 && a[0] == b[0] && b[0] == c[0] {
        lemma_lex_trans(a.drop_first(), b.drop_first(), c.drop_first());
    }
}

/// Whether `a` comes no later than `b` in the lexicographic order.
pub fn lex_le_exec(a: &Vec<char>, b: &Vec<char>) -> (r: bool)
    ensures
        r == lex_le(a@, b@),
{
    let mut i: usize = 0;
    assert(a@.skip(0) == a@);
    assert(b@.skip(0) == b@);
    while i < a.len() && i < b.len() && a[i] == b[i]
        invariant
            i <= a@.len(),
            i <= b@.len(),
            lex_le(a@.skip(i as int), b@.skip(i as int)) == lex_le(a@, b@),
        decreases a@.len() - i,
    {
        assert(a@.skip(i as int).drop_first() == a@.skip(i + 1));
        assert(b@.skip(i as int).drop_first() == b@.skip(i + 1));
        i = i + 1;
    }
    if i == a.len() {
        true
    } else if i == b.len() {
        false
    } else {
        a[i] < b[i]
    }
}

/// Whether the texts come in lexicographic order.
pub open spec fn sorted_texts(t: Seq<Seq<char>>) -> bool {
    forall|i: int, j: int| 0 <= i < j < t.len() ==> lex_le(#[trigger] t[i], #[trigger] t[j])
}

/// Whether `t` holds the texts of `s`, each as often, in lexicographic order.
pub open spec fn is_sorted_permutation(s: Seq<Seq<char>>, t: Seq<Seq<char>>) -> bool {
    &&& t.len() == s.len()
    &&& sorted_texts(t)
    &&& t.to_multiset() == s.to_multiset()
}

/// Sorts texts lexicographically.
pub fn sort_texts(v: Vec<Vec<char>>) -> (r: Vec<Vec<char>>)
    ensures
        is_sorted_permutation(crate::text::views(v@), crate::text::views(r@)),
{
    let mut r: Vec<Vec<char>> = Vec::new();
    let n = v.len();
    let ghost sv = crate::text::views(v@);
    assert(sv.take(0) =~= Seq::<Seq<char>>::empty());
    assert(crate::text::views(r@) =~= Seq::<Seq<char>>::empty());
    for i in 0..n
        invariant
            n == v@.len(),
            sv == crate::text::views(v@),
            is_sorted_permutation(sv.take(i as int), crate::text::views(r@)),
    {
        let x = crate::text::sub_chars(&v[i], 0, v[i].len());
        assert(v@[i as int]@.subrange(0, v@[i as int]@.len() as int) == v@[i as int]@);
        assert(sv[i as int] == x@);
        let ghost rv = crate::text::views(r@);
        let mut pos: usize = 0;
        while pos < r.len() && lex_le_exec(&r[pos], &x)
            invariant
                pos <= r@.len(),
                rv == crate::text::views(r@),
                forall|j: int| 0 <= j < pos ==> lex_le(#[trigger] rv[j], x@),
            decreases r@.len() - pos,
        {
            assert(rv[pos as int] == r@[pos as int]@);
            pos = pos + 1;
        }
        if pos < r.len() {
            assert(rv[pos as int] == r@[pos as int]@);
        }
        let ghost t = rv.insert(pos as int, x@);
        assert forall|j: int| pos <= j < rv.len() implies !lex_le(#[trigger] rv[j], x@) by {
            if lex_le(rv[j], x@) && j > pos {
                lemma_lex_trans(rv[pos as int], rv[j], x@);
            }
        }
        assert forall|a: int, b: int| 0 <= a < b < t.len() implies lex_le(#[trigger] t[a], #[trigger] t[b]) by {
            if a < pos && b == pos {
            } else if a == pos && b > pos {
                lemma_lex_total(x@, rv[b - 1]);
            } else if a < pos && b > pos {
                assert(rv[a] == t[a] && rv[b - 1] == t[b]);
            } else if a > pos {
                assert(rv[a - 1] == t[a] && rv[b - 1] == t[b]);
            }
        }
        r.insert(pos, x);
        assert(crate::text::views(r@) =~= t);
        assert(sv.take(i + 1) =~= sv.take(i as int).push(sv[i as int]));
        proof {
            vstd::seq_lib::to_multiset_insert(rv, pos as int, x@);
            vstd::seq_lib::to_multiset_build(sv.take(i as int), x@);
        }
    }
    assert(sv.take(n as int) =~= sv);
    r
}

proof fn lemma_max_of_sorted(t: Seq<Seq<char>>, x: Seq<char>)
    requires
        sorted_texts(t),
        t.len() > 0,
        t.to_multiset().count(x) > 0,
    ensures
        lex_le(x, t.last()),
{
    vstd::seq_lib::to_multiset_contains(t, x);
    let i = choose|i: int| 0 <= i < t.len() && t[i] == x;
    if i < t.len() - 1 {
        assert(lex_le(t[i], t[t.len() - 1]));
    } else {
        lemma_lex_total(x, x);
    }
}

/// Sorting texts has only one outcome: two sorted orders of the same texts
/// are the same order.
pub proof fn law_sorted_permutation_unique(s: Seq<Seq<char>>, t1: Seq<Seq<char>>, t2: Seq<Seq<char>>)
    requires
        is_sorted_permutation(s, t1),
        is_sorted_permutation(s, t2),
    ensures
        t1 == t2,
{
    lemma_sorted_same_multiset_equal(t1, t2);
}

proof fn lemma_sorted_same_multiset_equal(a: Seq<Seq<char>>, b: Seq<Seq<char>>)
    requires
        a.len() == b.len(),
        sorted_texts(a),
        sorted_texts(b),
        a.to_multiset() == b.to_multiset(),
    ensures
        a == b,
    decreases a.len(),
{
    if a.len() == 0 {
        assert(a =~= b);
    } else {
        let x = a.last();
        let y = b.last();
        vstd::seq_lib::to_multiset_contains(a, x);
        vstd::seq_lib::to_multiset_contains(b, y);
        assert(a.contains(x)) by {
            assert(a[a.len() - 1] == x);
        }
        assert(b.contains(y)) by {
            assert(b[b.len() - 1] == y);
        }
        lemma_max_of_sorted(b, x);
        lemma_max_of_sorted(a, y);
        lemma_lex_antisym(x, y);
        let n = a.len() - 1;
        vstd::seq_lib::to_multiset_remove(a, n);
        vstd::seq_lib::to_multiset_remove(b, n);
        assert(a.remove(n) == a.drop_last());
        assert(b.remove(n) == b.drop_last());
        let a1 = a.drop_last();
        let b1 = b.drop_last();
        assert forall|p: int, q: int| 0 <= p < q < a1.len() implies lex_le(#[trigger] a1[p], #[trigger] a1[q]) by {
            assert(a1[p] == a[p] && a1[q] == a[q]);
        }
        assert forall|p: int, q: int| 0 <= p < q < b1.len() implies lex_le(#[trigger] b1[p], #[trigger] b1[q]) by {
            assert(b1[p] == b[p] && b1[q] == b[q]);
        }
        lemma_sorted_same_multiset_equal(a1, b1);
        assert(a == a1.push(x));
        assert(b == b1.push(y));
    }
}

} // verus!
