//! A model of Unix paths as text, following `std::path::Path`.
//!
//! A path is its text. Its components are what `Path::components` yields:
//! the root `"/"` if the text starts with a separator, `"."` if the text
//! starts with the segment `.`, then every segment between separators that
//! is neither empty nor `"."`. A normal component never holds a `/`, so the
//! text `"/"` stands for the root component without ambiguity.
use vstd::prelude::*;
use crate::text::{split_char, split_char_exec, views, chars_eq, append_chars, free_of, lemma_split_char_nonempty, lemma_split_char_append};

verus! {

/// The root component.
pub open spec fn root() -> Seq<char> {
    seq!['/']
}

/// The current-directory component.
pub open spec fn cur_dir() -> Seq<char> {
    seq!['.']
}

/// The parent-directory component.
pub open spec fn parent_dir() -> Seq<char> {
    seq!['.', '.']
}

/// `Path::has_root` (on Unix, `Path::is_absolute`).
pub open spec fn is_absolute(s: Seq<char>) -> bool {
    s.len() > 0 && s[0] == '/'
}

/// Whether a segment between separators is a component of its own.
pub open spec fn keep_segment(x: Seq<char>) -> bool {
    x.len() > 0 && x != cur_dir()
}

/// The segments that are components of their own, in order.
pub open spec fn kept(p: Seq<Seq<char>>) -> Seq<Seq<char>>
    decreases p.len(),
{
    if p.len() == 0 {
        p
    } else if keep_segment(p.last()) {
        kept(p.drop_last()).push(p.last())
    } else {
        kept(p.drop_last())
    }
}

/// `Path::components`, each component as its text.
pub open spec fn components(s: Seq<char>) -> Seq<Seq<char>> {
    let p = split_char(s, '/');
    if is_absolute(s) {
        seq![root()] + kept(p)
    } else if p[0] == cur_dir() {
        seq![cur_dir()] + kept(p)
    } else {
        kept(p)
    }
}

/// Whether a component is a normal one (a name).
pub open spec fn is_normal(c: Seq<char>) -> bool {
    c != root() && c != cur_dir() && c != parent_dir()
}

/// The texts joined with `sep` between them.
pub open spec fn join_with(xs: Seq<Seq<char>>, sep: char) -> Seq<char>
    decreases xs.len(),
{
    if xs.len() == 0 {
        Seq::empty()
    } else if xs.len() == 1 {
        xs[0]
    } else {
        join_with(xs.drop_last(), sep).push(sep) + xs.last()
    }
}

/// The text of a path built from components by `PathBuf::push`.
pub open spec fn render(cs: Seq<Seq<char>>) -> Seq<char> {
    if cs.len() > 0 && cs[0] == root() {
        seq!['/'] + join_with(cs.drop_first(), '/')
    } else {
        join_with(cs, '/')
    }
}

/// `Path::join`: `p` itself if it is absolute, else `p` after `base` with a
/// separator between them unless `base` is empty or ends with one.
pub open spec fn join(base: Seq<char>, p: Seq<char>) -> Seq<char> {
    if is_absolute(p) {
        p
    } else if base.len() == 0 || base.last() == '/' {
        base + p
    } else {
        base.push('/') + p
    }
}

/// `Path::file_name`: the last component if it is a name.
pub open spec fn file_name(s: Seq<char>) -> Option<Seq<char>> {
    let cs = components(s);
    if cs.len() > 0 && is_normal(cs.last()) {
        Some(cs.last())
    } else {
        None
    }
}

/// `Path::starts_with`: the components of `b` begin those of `a`.
pub open spec fn path_starts_with(a: Seq<char>, b: Seq<char>) -> bool {
    components(b).is_prefix_of(components(a))
}

/// One step of `PathBuf::push` / `PathBuf::pop` over a component, where a
/// `".."` whose `pop` fails yields `None`.
pub open spec fn step(st: Seq<Seq<char>>, c: Seq<char>) -> Option<Seq<Seq<char>>> {
    if c == root() {
        Some(seq![root()])
    } else if c == cur_dir() {
        Some(st)
    } else if c == parent_dir() {
        if st.len() > 0 && st.last() != root() {
            Some(st.drop_last())
        } else {
            None
        }
    } else {
        Some(st.push(c))
    }
}

/// The components left after walking `cs` from `init`; `None` if some
/// `".."` cannot go up. With `lenient`, such a `".."` is skipped instead.
pub open spec fn walk(init: Seq<Seq<char>>, cs: Seq<Seq<char>>, lenient: bool) -> Option<Seq<Seq<char>>>
    decreases cs.len(),
{
    if cs.len() == 0 {
        Some(init)
    } else {
        match walk(init, cs.drop_last(), lenient) {
            Some(st) => match step(st, cs.last()) {
                Some(next) => Some(next),
                None => if lenient {
                    Some(st)
                } else {
                    None
                },
            },
            None => None,
        }
    }
}

fn is_root_exec(c: &Vec<char>) -> (r: bool)
    ensures
        r == (c@ == root()),
{
    let r = c.len() == 1 && c[0] == '/';
    assert(r ==> c@ =~= root());
    r
}

fn is_cur_exec(c: &Vec<char>) -> (r: bool)
    ensures
        r == (c@ == cur_dir()),
{
    let r = c.len() == 1 && c[0] == '.';
    assert(r ==> c@ =~= cur_dir());
    r
}

fn is_parent_exec(c: &Vec<char>) -> (r: bool)
    ensures
        r == (c@ == parent_dir()),
{
    let r = c.len() == 2 && c[0] == '.' && c[1] == '.';
    assert(r ==> c@ =~= parent_dir());
    r
}

/// Whether a component is a name.
pub fn is_normal_exec(c: &Vec<char>) -> (r: bool)
    ensures
        r == is_normal(c@),
{
    !is_root_exec(c) && !is_cur_exec(c) && !is_parent_exec(c)
}

fn root_exec() -> (r: Vec<char>)
    ensures
        r@ == root(),
{
    let mut r = Vec::new();
    r.push('/');
    assert(r@ =~= root());
    r
}

fn cur_exec() -> (r: Vec<char>)
    ensures
        r@ == cur_dir(),
{
    let mut r = Vec::new();
    r.push('.');
    assert(r@ =~= cur_dir());
    r
}

/// `Path::components`.
pub fn components_exec(s: &Vec<char>) -> (r: Vec<Vec<char>>)
    ensures
        views(r@) == components(s@),
{
    let p = split_char_exec(s, '/');
    proof {
        lemma_split_char_nonempty(s@, '/');
    }
    let ghost pv = split_char(s@, '/');
    let mut body: Vec<Vec<char>> = Vec::new();
    let n = p.len();
    assert(pv.take(0) == Seq::<Seq<char>>::empty());
    for i in 0..n
        invariant
            n == p@.len(),
            views(p@) == pv,
            views(body@) == kept(pv.take(i as int)),
    {
        assert(pv.take(i + 1).drop_last() == pv.take(i as int));
        assert(views(p@)[i as int] == p@[i as int]@);
        let x = &p[i];
        if x.len() > 0 && !is_cur_exec(x) {
            let ghost old_b = body@;
            let y = crate::text::sub_chars(x, 0, x.len());
            assert(x@.subrange(0, x@.len() as int) == x@);
            body.push(y);
            assert(views(body@) =~= views(old_b).push(pv[i as int]));
        }
    }
    assert(pv.take(n as int) == pv);
    let mut r: Vec<Vec<char>> = Vec::new();
    if s.len() > 0 && s[0] == '/' {
        r.push(root_exec());
    } else if p[0].len() == 1 && p[0][0] == '.' {
        assert(views(p@)[0] == p@[0]@);
        assert(p@[0]@ =~= cur_dir());
        r.push(cur_exec());
    } else {
        assert(views(p@)[0] == p@[0]@);
        assert(p@[0]@ != cur_dir() ==> !(p@[0]@.len() == 1 && p@[0]@[0] == '.')) by {
            if p@[0]@.len() == 1 && p@[0]@[0] == '.' {
                assert(p@[0]@ =~= cur_dir());
            }
        }
    }
    let ghost head = views(r@);
    let m = body.len();
    for i in 0..m
        invariant
            m == body@.len(),
            views(r@) == head + views(body@).take(i as int),
    {
        let ghost old_r = r@;
        let y = crate::text::sub_chars(&body[i], 0, body[i].len());
        assert(body@[i as int]@.subrange(0, body@[i as int]@.len() as int) == body@[i as int]@);
        r.push(y);
        assert(views(body@).take(i + 1) =~= views(body@).take(i as int).push(body@[i as int]@));
        assert(views(r@) =~= views(old_r).push(body@[i as int]@));
    }
    assert(views(body@).take(m as int) == views(body@));
    assert(views(r@) =~= components(s@));
    r
}

/// The texts joined with `sep` between them.
pub fn join_with_exec(xs: &Vec<Vec<char>>, sep: char) -> (r: Vec<char>)
    ensures
        r@ == join_with(views(xs@), sep),
{
    let mut r: Vec<char> = Vec::new();
    let n = xs.len();
    assert(views(xs@).take(0) =~= Seq::<Seq<char>>::empty());
    for i in 0..n
        invariant
            n == xs@.len(),
            r@ == join_with(views(xs@).take(i as int), sep),
    {
        let ghost t = views(xs@).take(i + 1);
        assert(t.drop_last() == views(xs@).take(i as int));
        assert(t.last() == xs@[i as int]@);
        if i > 0 {
            r.push(sep);
        } else {
            assert(r@ == Seq::<char>::empty());
        }
        append_chars(&mut r, &xs[i]);
        assert(r@ == join_with(t, sep));
    }
    assert(views(xs@).take(n as int) == views(xs@));
    r
}

/// The text of a path built from components by `PathBuf::push`.
pub fn render_exec(cs: &Vec<Vec<char>>) -> (r: Vec<char>)
    ensures
        r@ == render(views(cs@)),
{
    if cs.len() > 0 && is_root_exec(&cs[0]) {
        assert(views(cs@)[0] == cs@[0]@);
        let mut rest: Vec<Vec<char>> = Vec::new();
        let n = cs.len();
        for i in 1..n
            invariant
                n == cs@.len(),
                1 <= n,
                views(rest@) == views(cs@).subrange(1, i as int),
        {
            let ghost old_r = rest@;
            let y = crate::text::sub_chars(&cs[i], 0, cs[i].len());
            assert(cs@[i as int]@.subrange(0, cs@[i as int]@.len() as int) == cs@[i as int]@);
            rest.push(y);
            assert(views(cs@)[i as int] == cs@[i as int]@);
            assert(views(rest@) =~= views(old_r).push(cs@[i as int]@));
            assert(views(rest@) =~= views(cs@).subrange(1, i + 1));
        }
        assert(views(cs@).subrange(1, n as int) =~= views(cs@).drop_first());
        let mut r = Vec::new();
        r.push('/');
        let j = join_with_exec(&rest, '/');
        append_chars(&mut r, &j);
        assert(r@ =~= render(views(cs@)));
        r
    } else {
        if cs.len() > 0 {
            assert(views(cs@)[0] == cs@[0]@);
        }
        join_with_exec(cs, '/')
    }
}

/// `Path::join`.
pub fn join_exec(base: &Vec<char>, p: &Vec<char>) -> (r: Vec<char>)
    ensures
        r@ == join(base@, p@),
{
    let mut r: Vec<char> = Vec::new();
    if p.len() > 0 && p[0] == '/' {
        append_chars(&mut r, p);
        assert(r@ =~= p@);
    } else {
        append_chars(&mut r, base);
        if base.len() > 0 && base[base.len() - 1] != '/' {
            r.push('/');
        }
        append_chars(&mut r, p);
    }
    r
}

/// Whether the component vector `a` begins with the components of `b`.
pub fn comps_prefix_exec(b: &Vec<Vec<char>>, a: &Vec<Vec<char>>) -> (r: bool)
    ensures
        r == views(b@).is_prefix_of(views(a@)),
{
    if b.len() > a.len() {
        return false;
    }
    let n = b.len();
    for i in 0..n
        invariant
            n == b@.len(),
            n <= a@.len(),
            forall|j: int| 0 <= j < i ==> views(b@)[j] == views(a@)[j],
    {
        assert(views(b@)[i as int] == b@[i as int]@);
        assert(views(a@)[i as int] == a@[i as int]@);
        if !chars_eq(&b[i], &a[i]) {
            assert(views(a@).subrange(0, n as int)[i as int] == views(a@)[i as int]);
            return false;
        }
    }
    assert(views(b@) =~= views(a@).subrange(0, n as int));
    true
}

proof fn lemma_walk_none_extends(init: Seq<Seq<char>>, cs: Seq<Seq<char>>, k: int, lenient: bool)
    requires
        0 <= k <= cs.len(),
        walk(init, cs.take(k), lenient) is None,
    ensures
        walk(init, cs, lenient) is None,
    decreases cs.len() - k,
{
    if k < cs.len() {
        assert(cs.take(k + 1).drop_last() == cs.take(k));
        lemma_walk_none_extends(init, cs, k + 1, lenient);
    } else {
        assert(cs.take(k) == cs);
    }
}

/// The components left after walking `cs` from `init`, as `walk` states.
pub fn walk_exec(init: Vec<Vec<char>>, cs: &Vec<Vec<char>>, lenient: bool) -> (r: Option<
    Vec<Vec<char>>,
>)
    ensures
        match r {
            Some(st) => walk(views(init@), views(cs@), lenient) == Some(views(st@)),
            None => walk(views(init@), views(cs@), lenient) is None,
        },
{
    let ghost iv = views(init@);
    let mut st = init;
    let n = cs.len();
    assert(views(cs@).take(0) =~= Seq::<Seq<char>>::empty());
    for i in 0..n
        invariant
            n == cs@.len(),
            iv == views(init@),
            walk(iv, views(cs@).take(i as int), lenient) == Some(views(st@)),
    {
        let ghost t = views(cs@).take(i + 1);
        assert(t.drop_last() == views(cs@).take(i as int));
        assert(t.last() == cs@[i as int]@);
        let c = &cs[i];
        let ghost old_st = st@;
        if is_root_exec(c) {
            st = Vec::new();
            st.push(root_exec());
            assert(views(st@) =~= seq![root()]);
        } else if is_cur_exec(c) {
        } else if is_parent_exec(c) {
            let k = st.len();
            if k > 0 && !is_root_exec(&st[k - 1]) {
                assert(views(st@).last() == st@[k - 1]@);
                st.pop();
                assert(views(st@) =~= views(old_st).drop_last());
            } else {
                if k > 0 {
                    assert(views(st@).last() == st@[k - 1]@);
                }
                if !lenient {
                    assert(c@ != root() && c@ != cur_dir() && c@ == parent_dir());
                    assert(step(views(st@), c@) is None);
                    assert(walk(iv, t, lenient) is None);
                    proof {
                        lemma_walk_none_extends(iv, views(cs@), i + 1, lenient);
                    }
                    return None;
                }
            }
        } else {
            let y = crate::text::sub_chars(c, 0, c.len());
            assert(c@.subrange(0, c@.len() as int) == c@);
            st.push(y);
            assert(views(st@) =~= views(old_st).push(c@));
        }
    }
    assert(views(cs@).take(n as int) == views(cs@));
    Some(st)
}

/// `Path::file_name`.
pub fn file_name_exec(s: &Vec<char>) -> (r: Option<Vec<char>>)
    ensures
        match r {
            Some(x) => file_name(s@) == Some(x@),
            None => file_name(s@) is None,
        },
{
    let cs = components_exec(s);
    let n = cs.len();
    if n > 0 && is_normal_exec(&cs[n - 1]) {
        assert(views(cs@).last() == cs@[n - 1]@);
        let x = crate::text::sub_chars(&cs[n - 1], 0, cs[n - 1].len());
        assert(cs@[n - 1]@.subrange(0, cs@[n - 1]@.len() as int) == cs@[n - 1]@);
        Some(x)
    } else {
        if n > 0 {
            assert(views(cs@).last() == cs@[n - 1]@);
        }
        None
    }
}

/// Whether no component is `.` or `..`.
pub open spec fn no_dots(cs: Seq<Seq<char>>) -> bool {
    forall|i: int| 0 <= i < cs.len() ==> #[trigger] cs[i] != cur_dir() && cs[i] != parent_dir()
}

/// Whether a component is a name that can stand in a path's text: not
/// empty, without a separator, and neither `.` nor `..`.
pub open spec fn is_name(c: Seq<char>) -> bool {
    &&& c.len() > 0
    &&& c != cur_dir()
    &&& c != parent_dir()
    &&& forall|j: int| 0 <= j < c.len() ==> c[j] != '/'
}

/// Components as a walk leaves them when nothing climbs: an optional
/// root first, then names.
pub open spec fn clean(st: Seq<Seq<char>>) -> bool {
    forall|i: int|
        0 <= i < st.len() ==> (#[trigger] st[i] == root() && i == 0) || (st[i] != root() && is_name(st[i]))
}

proof fn lemma_split_char_pieces(s: Seq<char>, c: char)
    ensures
        forall|i: int, j: int|
            0 <= i < split_char(s, c).len() && 0 <= j < split_char(s, c)[i].len() ==> #[trigger] split_char(s, c)[i][j] != c,
    decreases s.len(),
{
    lemma_split_char_nonempty(s, c);
    if s.len() > 0 {
        lemma_split_char_pieces(s.drop_last(), c);
        lemma_split_char_nonempty(s.drop_last(), c);
        let p = split_char(s.drop_last(), c);
        let q = split_char(s, c);
        if s.last() != c {
            assert forall|i: int, j: int| 0 <= i < q.len() && 0 <= j < q[i].len() implies #[trigger] q[i][j] != c by {
                if i < p.len() - 1 {
                    assert(q[i] == p[i]);
                } else {
                    assert(q[i] == p.last().push(s.last()));
                    if j < p.last().len() {
                        assert(q[i][j] == p[p.len() - 1][j]);
                    }
                }
            }
        } else {
            assert forall|i: int, j: int| 0 <= i < q.len() && 0 <= j < q[i].len() implies #[trigger] q[i][j] != c by {
                assert(q[i] == p.push(Seq::<char>::empty())[i]);
            }
        }
    }
}

/// Whether a segment is a component text other than the root: not empty,
/// not `.`, and without a separator.
pub open spec fn plain_segment(c: Seq<char>) -> bool {
    &&& c.len() > 0
    &&& c != cur_dir()
    &&& forall|j: int| 0 <= j < c.len() ==> c[j] != '/'
}

proof fn lemma_kept_names(p: Seq<Seq<char>>)
    requires
        forall|i: int, j: int| 0 <= i < p.len() && 0 <= j < p[i].len() ==> #[trigger] p[i][j] != '/',
    ensures
        forall|i: int| 0 <= i < kept(p).len() ==> plain_segment(#[trigger] kept(p)[i]),
    decreases p.len(),
{
    if p.len() > 0 {
        let d = p.drop_last();
        assert forall|i: int, j: int| 0 <= i < d.len() && 0 <= j < d[i].len() implies #[trigger] d[i][j] != '/' by {
            assert(d[i] == p[i]);
        }
        lemma_kept_names(d);
        let l = p.last();
        if keep_segment(l) {
            assert forall|j: int| 0 <= j < l.len() implies l[j] != '/' by {
                assert(l[j] == p[p.len() - 1][j]);
            }
            let k0 = kept(d);
            assert forall|i: int| 0 <= i < kept(p).len() implies plain_segment(#[trigger] kept(p)[i]) by {
                if i < k0.len() {
                    assert(kept(p)[i] == k0[i]);
                } else {
                    assert(kept(p)[i] == l);
                }
            }
        } else {
            assert(kept(p) == kept(d));
        }
    }
}

proof fn lemma_step_clean(st: Seq<Seq<char>>, c: Seq<char>)
    requires
        clean(st),
        c != root() && c != cur_dir() && c != parent_dir() ==> is_name(c),
    ensures
        step(st, c) matches Some(next) ==> clean(next),
{
    if c == root() {
        assert(clean(seq![root()]));
    } else if c == parent_dir() {
        if st.len() > 0 && st.last() != root() {
            assert forall|i: int| 0 <= i < st.drop_last().len() implies (#[trigger] st.drop_last()[i] == root() && i == 0) || (st.drop_last()[i] != root() && is_name(st.drop_last()[i])) by {
                assert(st.drop_last()[i] == st[i]);
            }
        }
    } else if c != cur_dir() {
        assert forall|i: int| 0 <= i < st.push(c).len() implies (#[trigger] st.push(c)[i] == root() && i == 0) || (st.push(c)[i] != root() && is_name(st.push(c)[i])) by {
            if i < st.len() {
                assert(st.push(c)[i] == st[i]);
            }
        }
    }
}

proof fn lemma_walk_clean(init: Seq<Seq<char>>, cs: Seq<Seq<char>>)
    requires
        clean(init),
        forall|i: int| 0 <= i < cs.len() ==> (#[trigger] cs[i] != root() && cs[i] != cur_dir() && cs[i] != parent_dir()) ==> is_name(cs[i]),
    ensures
        walk(init, cs, false) matches Some(st) ==> clean(st),
    decreases cs.len(),
{
    if cs.len() > 0 {
        assert forall|i: int| 0 <= i < cs.drop_last().len() implies (#[trigger] cs.drop_last()[i] != root() && cs.drop_last()[i] != cur_dir() && cs.drop_last()[i] != parent_dir()) ==> is_name(cs.drop_last()[i]) by {
            assert(cs.drop_last()[i] == cs[i]);
        }
        lemma_walk_clean(init, cs.drop_last());
        if let Some(st) = walk(init, cs.drop_last(), false) {
            assert(cs.last() == cs[cs.len() - 1]);
            lemma_step_clean(st, cs.last());
        }
    }
}

proof fn lemma_components_names(s: Seq<char>)
    ensures
        forall|i: int| 0 <= i < components(s).len() ==> (#[trigger] components(s)[i] != root() && components(s)[i] != cur_dir() && components(s)[i] != parent_dir()) ==> is_name(components(s)[i]),
{
    let p = split_char(s, '/');
    lemma_split_char_pieces(s, '/');
    lemma_kept_names(p);
    let k = kept(p);
    let cs = components(s);
    assert forall|i: int| 0 <= i < cs.len() implies (#[trigger] cs[i] != root() && cs[i] != cur_dir() && cs[i] != parent_dir()) ==> is_name(cs[i]) by {
        if is_absolute(s) || p[0] == cur_dir() {
            if i > 0 {
                assert(cs[i] == k[i - 1]);
                assert(plain_segment(k[i - 1]));
            }
        } else {
            assert(cs[i] == k[i]);
            assert(plain_segment(k[i]));
        }
    }
}

proof fn lemma_split_join(names: Seq<Seq<char>>)
    requires
        names.len() > 0,
        forall|i: int| 0 <= i < names.len() ==> is_name(#[trigger] names[i]),
    ensures
        split_char(seq!['/'] + join_with(names, '/'), '/') == seq![Seq::<char>::empty()] + names,
    decreases names.len(),
{
    let last = names.last();
    assert(is_name(names[names.len() - 1]));
    assert(forall|j: int| 0 <= j < last.len() ==> last[j] != '/');
    if names.len() == 1 {
        let a = seq!['/'];
        lemma_split_char_append(a, last, '/');
        assert(a.drop_last() == Seq::<char>::empty());
        assert(split_char(Seq::<char>::empty(), '/') == seq![Seq::<char>::empty()]);
        assert(split_char(a, '/') == seq![Seq::<char>::empty(), Seq::<char>::empty()]);
        assert(seq!['/'] + join_with(names, '/') == a + last);
        let q = split_char(a + last, '/');
        lemma_split_char_nonempty(a + last, '/');
        assert(q == q.drop_last().push(q.last()));
        assert(q =~= seq![Seq::<char>::empty()] + names);
    } else {
        let init = names.drop_last();
        assert forall|i: int| 0 <= i < init.len() implies is_name(#[trigger] init[i]) by {
            assert(init[i] == names[i]);
        }
        lemma_split_join(init);
        let a = (seq!['/'] + join_with(init, '/')).push('/');
        lemma_split_char_append(a, last, '/');
        assert(a.drop_last() == seq!['/'] + join_with(init, '/'));
        lemma_split_char_nonempty(a.drop_last(), '/');
        assert(split_char(a, '/') == (seq![Seq::<char>::empty()] + init).push(Seq::<char>::empty()));
        assert(seq!['/'] + join_with(names, '/') =~= a + last);
        let q = split_char(a + last, '/');
        lemma_split_char_nonempty(a + last, '/');
        assert(q == q.drop_last().push(q.last()));
        assert(split_char(a, '/').last() == Seq::<char>::empty());
        assert(q.last() == last);
        assert(q.drop_last() == seq![Seq::<char>::empty()] + init);
        assert(q =~= seq![Seq::<char>::empty()] + names);
    }
}

proof fn lemma_kept_of_names(p: Seq<Seq<char>>)
    requires
        forall|i: int| 0 <= i < p.len() ==> is_name(#[trigger] p[i]),
    ensures
        kept(p) == p,
    decreases p.len(),
{
    if p.len() > 0 {
        assert forall|i: int| 0 <= i < p.drop_last().len() implies is_name(#[trigger] p.drop_last()[i]) by {
            assert(p.drop_last()[i] == p[i]);
        }
        lemma_kept_of_names(p.drop_last());
        assert(is_name(p[p.len() - 1]));
        assert(p.drop_last().push(p.last()) == p);
    }
}

proof fn lemma_kept_skip_empty(p: Seq<Seq<char>>)
    requires
        forall|i: int| 1 <= i < p.len() ==> is_name(#[trigger] p[i]),
        p.len() > 0,
        p[0].len() == 0,
    ensures
        kept(p) == p.drop_first(),
    decreases p.len(),
{
    if p.len() == 1 {
        assert(p.drop_last() =~= Seq::<Seq<char>>::empty());
        assert(kept(p.drop_last()) == Seq::<Seq<char>>::empty());
        assert(!keep_segment(p.last()));
        assert(p.drop_first() =~= Seq::<Seq<char>>::empty());
    } else {
        assert forall|i: int| 1 <= i < p.drop_last().len() implies is_name(#[trigger] p.drop_last()[i]) by {
            assert(p.drop_last()[i] == p[i]);
        }
        lemma_kept_skip_empty(p.drop_last());
        assert(is_name(p[p.len() - 1]));
        assert(keep_segment(p.last()));
        assert(p.drop_last().drop_first().push(p.last()) =~= p.drop_first());
    }
}

/// The text of rooted clean components reads back as those components.
pub proof fn lemma_components_render_rooted(st: Seq<Seq<char>>)
    requires
        clean(st),
        st.len() > 0,
        st[0] == root(),
    ensures
        components(render(st)) == st,
{
    let names = st.drop_first();
    assert forall|i: int| 0 <= i < names.len() implies is_name(#[trigger] names[i]) by {
        assert(names[i] == st[i + 1]);
    }
    let t = render(st);
    assert(t == seq!['/'] + join_with(names, '/'));
    assert(is_absolute(t));
    if names.len() == 0 {
        assert(join_with(names, '/') == Seq::<char>::empty());
        assert(t =~= seq!['/']);
        assert(t.drop_last() =~= Seq::<char>::empty());
        assert(t.last() == '/');
        assert(split_char(Seq::<char>::empty(), '/') == seq![Seq::<char>::empty()]);
        assert(split_char(t, '/') =~= seq![Seq::<char>::empty(), Seq::<char>::empty()]);
        let p = split_char(t, '/');
        assert(p.drop_last() =~= seq![Seq::<char>::empty()]);
        let p1 = p.drop_last();
        assert(p1.drop_last() =~= Seq::<Seq<char>>::empty());
        assert(kept(p1.drop_last()) =~= Seq::<Seq<char>>::empty());
        assert(kept(p1) =~= Seq::<Seq<char>>::empty());
        assert(kept(p) =~= Seq::<Seq<char>>::empty());
        assert(components(t) =~= st);
    } else {
        lemma_split_join(names);
        let p = split_char(t, '/');
        lemma_kept_skip_empty(p);
        assert(p.drop_first() =~= names);
        assert(components(t) =~= st);
    }
}

/// Normalizing an absolute path leaves only the root and names: no `.`
/// and no `..` remain, so the text cannot climb out of where it points.
pub proof fn law_normalized_has_no_dots(path: Seq<char>)
    requires
        is_absolute(path),
    ensures
        walk(Seq::empty(), components(path), false) matches Some(st) ==> no_dots(components(render(st))) && is_absolute(render(st)),
{
    lemma_components_names(path);
    assert(clean(Seq::<Seq<char>>::empty()));
    lemma_walk_clean(Seq::empty(), components(path));
    if let Some(st) = walk(Seq::empty(), components(path), false) {
        lemma_walk_rooted(components(path));
        lemma_components_render_rooted(st);
        assert forall|i: int| 0 <= i < st.len() implies #[trigger] st[i] != cur_dir() && st[i] != parent_dir() by {
            assert(st[i] == root() || is_name(st[i]));
        }
        assert(render(st)[0] == '/');
    }
}

proof fn lemma_walk_rooted(cs: Seq<Seq<char>>)
    requires
        cs.len() > 0,
        cs[0] == root(),
    ensures
        walk(Seq::empty(), cs, false) matches Some(st) ==> st.len() > 0 && st[0] == root(),
    decreases cs.len(),
{
    if cs.len() == 1 {
        assert(cs.drop_last().len() == 0);
        assert(cs.last() == root());
    } else {
        assert(cs.drop_last()[0] == root());
        lemma_walk_rooted(cs.drop_last());
        if let Some(st) = walk(Seq::empty(), cs.drop_last(), false) {
            let c = cs.last();
            if c == parent_dir() && st.len() > 0 && st.last() != root() {
                assert(st.len() > 1);
                assert(st.drop_last()[0] == st[0]);
            } else if c != root() && c != cur_dir() && c != parent_dir() {
                assert(st.push(c)[0] == st[0]);
            }
        }
    }
}

/// Whether no component of `cs` holds the character `d`.
pub open spec fn all_free_of(cs: Seq<Seq<char>>, d: char) -> bool {
    forall|i: int| 0 <= i < cs.len() ==> free_of(#[trigger] cs[i], d)
}

proof fn lemma_split_char_free(s: Seq<char>, c: char, d: char)
    requires
        free_of(s, d),
    ensures
        all_free_of(split_char(s, c), d),
    decreases s.len(),
{
    lemma_split_char_nonempty(s, c);
    if s.len() > 0 {
        assert(free_of(s.drop_last(), d)) by {
            assert forall|j: int| 0 <= j < s.drop_last().len() implies s.drop_last()[j] != d by {
                assert(s.drop_last()[j] == s[j]);
            }
        }
        lemma_split_char_free(s.drop_last(), c, d);
        lemma_split_char_nonempty(s.drop_last(), c);
        let p = split_char(s.drop_last(), c);
        let q = split_char(s, c);
        assert forall|i: int| 0 <= i < q.len() implies free_of(#[trigger] q[i], d) by {
            if s.last() == c {
                assert(q[i] == p.push(Seq::<char>::empty())[i]);
            } else if i < p.len() - 1 {
                assert(q[i] == p[i]);
            } else {
                let l = p.last().push(s.last());
                assert(q[i] == l);
                assert(free_of(p[p.len() - 1], d));
                assert forall|j: int| 0 <= j < l.len() implies l[j] != d by {
                    if j < p.last().len() {
                        assert(l[j] == p[p.len() - 1][j]);
                    } else {
                        assert(l[j] == s[s.len() - 1]);
                    }
                }
            }
        }
    }
}

proof fn lemma_kept_free(p: Seq<Seq<char>>, d: char)
    requires
        all_free_of(p, d),
    ensures
        all_free_of(kept(p), d),
    decreases p.len(),
{
    if p.len() > 0 {
        let q = p.drop_last();
        assert forall|i: int| 0 <= i < q.len() implies free_of(#[trigger] q[i], d) by {
            assert(q[i] == p[i]);
        }
        lemma_kept_free(q, d);
        assert(free_of(p[p.len() - 1], d));
        assert forall|i: int| 0 <= i < kept(p).len() implies free_of(#[trigger] kept(p)[i], d) by {
            if i < kept(q).len() {
                assert(kept(p)[i] == kept(q)[i]);
            }
        }
    }
}

/// A path without the character `d`, where `d` is no separator and no
/// dot, has components without it.
pub proof fn lemma_components_free(s: Seq<char>, d: char)
    requires
        free_of(s, d),
        d != '/',
        d != '.',
    ensures
        all_free_of(components(s), d),
{
    lemma_split_char_free(s, '/', d);
    lemma_kept_free(split_char(s, '/'), d);
    let k = kept(split_char(s, '/'));
    let cs = components(s);
    assert(free_of(root(), d));
    assert(free_of(cur_dir(), d));
    assert forall|i: int| 0 <= i < cs.len() implies free_of(#[trigger] cs[i], d) by {
        if is_absolute(s) || split_char(s, '/')[0] == cur_dir() {
            if i > 0 {
                assert(cs[i] == k[i - 1]);
            }
        } else {
            assert(cs[i] == k[i]);
        }
    }
}

proof fn lemma_walk_free(init: Seq<Seq<char>>, cs: Seq<Seq<char>>, lenient: bool, d: char)
    requires
        all_free_of(init, d),
        all_free_of(cs, d),
        d != '/',
    ensures
        walk(init, cs, lenient) matches Some(st) ==> all_free_of(st, d),
    decreases cs.len(),
{
    if cs.len() > 0 {
        let q = cs.drop_last();
        assert forall|i: int| 0 <= i < q.len() implies free_of(#[trigger] q[i], d) by {
            assert(q[i] == cs[i]);
        }
        lemma_walk_free(init, q, lenient, d);
        if let Some(st) = walk(init, q, lenient) {
            let c = cs.last();
            assert(free_of(cs[cs.len() - 1], d));
            assert(free_of(root(), d));
            if let Some(next) = step(st, c) {
                assert forall|i: int| 0 <= i < next.len() implies free_of(#[trigger] next[i], d) by {
                    if c == root() {
                        assert(next[i] == root());
                    } else if c == parent_dir() {
                        assert(next[i] == st[i]);
                    } else if c != cur_dir() && i < st.len() {
                        assert(next[i] == st[i]);
                    }
                }
            }
        }
    }
}

proof fn lemma_join_with_free(xs: Seq<Seq<char>>, sep: char, d: char)
    requires
        all_free_of(xs, d),
        sep != d,
    ensures
        free_of(join_with(xs, sep), d),
    decreases xs.len(),
{
    if xs.len() > 1 {
        let q = xs.drop_last();
        assert forall|i: int| 0 <= i < q.len() implies free_of(#[trigger] q[i], d) by {
            assert(q[i] == xs[i]);
        }
        lemma_join_with_free(q, sep, d);
        let a = join_with(q, sep).push(sep);
        let b = xs.last();
        assert(free_of(xs[xs.len() - 1], d));
        assert forall|j: int| 0 <= j < (a + b).len() implies (a + b)[j] != d by {
            if j < a.len() - 1 {
                assert((a + b)[j] == join_with(q, sep)[j]);
            } else if j >= a.len() {
                assert((a + b)[j] == b[j - a.len()]);
            }
        }
    } else if xs.len() == 1 {
        assert(free_of(xs[0], d));
    }
}

/// Resolving `.` and `..` in an absolute path adds no character but the
/// separator: what the path does not hold, the result does not hold.
pub proof fn lemma_normalized_free(path: Seq<char>, d: char)
    requires
        is_absolute(path),
        free_of(path, d),
        d != '/',
        d != '.',
    ensures
        walk(Seq::empty(), components(path), false) matches Some(st) ==> free_of(render(st), d),
{
    lemma_components_free(path, d);
    lemma_walk_free(Seq::empty(), components(path), false, d);
    if let Some(st) = walk(Seq::empty(), components(path), false) {
        if st.len() > 0 && st[0] == root() {
            let q = st.drop_first();
            assert forall|i: int| 0 <= i < q.len() implies free_of(#[trigger] q[i], d) by {
                assert(q[i] == st[i + 1]);
            }
            lemma_join_with_free(q, '/', d);
            let t = seq!['/'] + join_with(q, '/');
            assert forall|j: int| 0 <= j < t.len() implies t[j] != d by {
                if j > 0 {
                    assert(t[j] == join_with(q, '/')[j - 1]);
                }
            }
        } else {
            lemma_join_with_free(st, '/', d);
        }
    }
}

} // verus!
