//! Lexical paths, read the way a Unix `std::path::Path` reads them.

use vstd::prelude::*;
use crate::text::{chars_of, string_of};

verus! {

/// One component of a path, as a mathematical value.
pub enum Comp {
    RootDir,
    CurDir,
    ParentDir,
    Normal(Seq<char>),
}

/// One component of a path.
pub enum Component {
    RootDir,
    CurDir,
    ParentDir,
    Normal(String),
}

impl View for Component {
    type V = Comp;

    open spec fn view(&self) -> Comp {
        match self {
            Component::RootDir => Comp::RootDir,
            Component::CurDir => Comp::CurDir,
            Component::ParentDir => Comp::ParentDir,
            Component::Normal(s) => Comp::Normal(s@),
        }
    }
}

pub open spec fn dot() -> Seq<char> {
    seq!['.']
}

pub open spec fn dot_dot() -> Seq<char> {
    seq!['.', '.']
}

/// The component that one `/`-free segment stands for: an empty segment and a
/// lone `.` stand for nothing.
pub open spec fn segment_comps(seg: Seq<char>) -> Seq<Comp> {
    if seg.len() == 0 || seg == dot() {
        Seq::empty()
    } else if seg == dot_dot() {
        seq![Comp::ParentDir]
    } else {
        seq![Comp::Normal(seg)]
    }
}

/// The components of `s`, where `cur` is the segment read so far.
pub open spec fn body_comps(cur: Seq<char>, s: Seq<char>) -> Seq<Comp>
    decreases s.len(),
{
    if s.len() == 0 {
        segment_comps(cur)
    } else if s[0] == '/' {
        segment_comps(cur) + body_comps(Seq::empty(), s.drop_first())
    } else {
        body_comps(cur.push(s[0]), s.drop_first())
    }
}

pub open spec fn has_root(p: Seq<char>) -> bool {
    p.len() > 0 && p[0] == '/'
}

/// A relative path that starts with the segment `.` keeps it as `CurDir`.
pub open spec fn leads_with_cur_dir(p: Seq<char>) -> bool {
    !has_root(p) && p.len() > 0 && p[0] == '.' && (p.len() == 1 || p[1] == '/')
}

/// The components of `p`, as `Path::components` yields them on Unix.
pub open spec fn components(p: Seq<char>) -> Seq<Comp> {
    if has_root(p) {
        seq![Comp::RootDir] + body_comps(Seq::empty(), p.drop_first())
    } else if leads_with_cur_dir(p) {
        seq![Comp::CurDir] + body_comps(Seq::empty(), p.drop_first())
    } else {
        body_comps(Seq::empty(), p)
    }
}

fn push_segment(out: &mut Vec<Component>, seg: &Vec<char>)
    ensures
        final(out)@.map_values(|c: Component| c@) == old(out)@.map_values(|c: Component| c@)
            + segment_comps(seg@),
{
    let n = seg.len();
    if n == 0 || (n == 1 && seg[0] == '.') {
        assert(segment_comps(seg@) == Seq::<Comp>::empty()) by {
            if n == 1 {
                assert(seg@ == dot());
            }
        }
        assert(out@.map_values(|c: Component| c@) + Seq::<Comp>::empty() == out@.map_values(
            |c: Component| c@,
        ));
    } else if n == 2 && seg[0] == '.' && seg[1] == '.' {
        assert(seg@ == dot_dot());
        out.push(Component::ParentDir);
        assert(out@.map_values(|c: Component| c@) == old(out)@.map_values(|c: Component| c@)
            + seq![Comp::ParentDir]);
    } else {
        assert(seg@ != dot() && seg@ != dot_dot());
        let s = string_of(seg.as_slice());
        out.push(Component::Normal(s));
        assert(out@.map_values(|c: Component| c@) == old(out)@.map_values(|c: Component| c@)
            + seq![Comp::Normal(seg@)]);
    }
}

proof fn lemma_body_comps_step(cur: Seq<char>, s: Seq<char>, i: int)
    requires
        0 <= i < s.len(),
    ensures
        body_comps(cur, s.skip(i)) == if s[i] == '/' {
            segment_comps(cur) + body_comps(Seq::empty(), s.skip(i + 1))
        } else {
            body_comps(cur.push(s[i]), s.skip(i + 1))
        },
{
    assert(s.skip(i).drop_first() == s.skip(i + 1));
    assert(s.skip(i)[0] == s[i]);
}

/// The components of `p` read as a Unix path (`Path::components`).
pub fn components_of(p: &str) -> (r: Vec<Component>)
    ensures
        r@.map_values(|c: Component| c@) == components(p@),
{
    let cs = chars_of(p);
    let n = cs.len();
    let mut out: Vec<Component> = Vec::new();
    let mut start: usize = 0;
    if n > 0 && cs[0] == '/' {
        out.push(Component::RootDir);
        start = 1;
    } else if n > 0 && cs[0] == '.' && (n == 1 || cs[1] == '/') {
        out.push(Component::CurDir);
        start = 1;
    }
    let ghost prefix = out@.map_values(|c: Component| c@);
    let ghost body = if start == 1 { p@.drop_first() } else { p@ };
    assert(components(p@) == prefix + body_comps(Seq::empty(), body));
    assert(body == p@.skip(start as int));
    let mut cur: Vec<char> = Vec::new();
    let mut i: usize = start;
    while i < n
        invariant
            cs@ == p@,
            n == cs.len(),
            start <= i <= n,
            start <= 1,
            components(p@) == out@.map_values(|c: Component| c@) + body_comps(
                cur@,
                p@.skip(i as int),
            ),
        decreases n - i,
    {
        let c = cs[i];
        proof {
            lemma_body_comps_step(cur@, p@, i as int);
        }
        if c == '/' {
            let ghost before = out@.map_values(|c: Component| c@);
            push_segment(&mut out, &cur);
            assert(before + (segment_comps(cur@) + body_comps(Seq::empty(), p@.skip(i + 1)))
                == (before + segment_comps(cur@)) + body_comps(Seq::empty(), p@.skip(i + 1)));
            cur = Vec::new();
        } else {
            cur.push(c);
        }
        i = i + 1;
    }
    assert(p@.skip(n as int).len() == 0);
    push_segment(&mut out, &cur);
    out
}

} // verus!

verus! {

/// `base` with `rel` pushed onto it, as `PathBuf::push` does on Unix: an
/// absolute `rel` replaces `base`; otherwise a `/` separates them unless `base`
/// is empty or already ends in one.
pub open spec fn join(base: Seq<char>, rel: Seq<char>) -> Seq<char> {
    if has_root(rel) {
        rel
    } else if base.len() > 0 && base.last() != '/' {
        base + seq!['/'] + rel
    } else {
        base + rel
    }
}

/// `Path::new(base).join(rel)`.
pub fn join_path(base: &str, rel: &str) -> (r: String)
    ensures
        r@ == join(base@, rel@),
{
    let b = chars_of(base);
    let r = chars_of(rel);
    if r.len() > 0 && r[0] == '/' {
        return string_of(r.as_slice());
    }
    let mut out = string_of(b.as_slice());
    if b.len() > 0 && b[b.len() - 1] != '/' {
        crate::text::push_char(&mut out, '/');
    }
    let mut i: usize = 0;
    let ghost start = out@;
    while i < r.len()
        invariant
            0 <= i <= r.len(),
            out@ == start + r@.take(i as int),
        decreases r.len() - i,
    {
        crate::text::push_char(&mut out, r[i]);
        assert(r@.take(i + 1) == r@.take(i as int).push(r@[i as int]));
        i = i + 1;
    }
    assert(r@.take(r.len() as int) == r@);
    out
}

} // verus!

verus! {

/// The final component of `p` when it is a name (`Path::file_name`).
pub open spec fn file_name(p: Seq<char>) -> Option<Seq<char>> {
    let cs = components(p);
    if cs.len() > 0 && cs.last() is Normal {
        Some(cs.last()->Normal_0)
    } else {
        None
    }
}

/// The position of the last `.` in `s`.
pub open spec fn last_dot(s: Seq<char>) -> Option<int>
    decreases s.len(),
{
    if s.len() == 0 {
        None
    } else if s.last() == '.' {
        Some(s.len() - 1)
    } else {
        last_dot(s.drop_last())
    }
}

/// What follows the last `.` of the file name, unless that `.` starts the
/// name (`Path::extension`).
pub open spec fn extension(p: Seq<char>) -> Option<Seq<char>> {
    match file_name(p) {
        None => None,
        Some(f) => match last_dot(f) {
            None => None,
            Some(i) => if i == 0 {
                None
            } else {
                Some(f.skip(i + 1))
            },
        },
    }
}

/// The final component of `path` when it is a name (`Path::file_name`).
pub fn file_name_of(path: &str) -> (r: Option<String>)
    ensures
        match r {
            Some(s) => file_name(path@) == Some(s@),
            None => file_name(path@) is None,
        },
{
    let cs = components_of(path);
    let ghost v = cs@.map_values(|c: Component| c@);
    if cs.len() == 0 {
        return None;
    }
    let last = cs.len() - 1;
    assert(v.last() == cs@[last as int]@);
    match &cs[last] {
        Component::Normal(s) => Some(s.clone()),
        _ => None,
    }
}

/// `Path::new(path).extension()`.
pub fn extension_of(path: &str) -> (r: Option<String>)
    ensures
        match r {
            Some(s) => extension(path@) == Some(s@),
            None => extension(path@) is None,
        },
{
    match file_name_of(path) {
        None => None,
        Some(f) => {
            let cs = chars_of(f.as_str());
            let mut i: usize = cs.len();
            assert(cs@.take(i as int) == cs@);
            while i > 0 && cs[i - 1] != '.'
                invariant
                    cs@ == f@,
                    0 <= i <= cs.len(),
                    last_dot(cs@) == last_dot(cs@.take(i as int)),
                decreases i,
            {
                assert(cs@.take(i as int).drop_last() == cs@.take(i - 1));
                i = i - 1;
            }
            if i == 0 {
                assert(cs@.take(0) == Seq::<char>::empty());
                return None;
            }
            assert(last_dot(cs@.take(i as int)) == Some(i - 1));
            if i == 1 {
                return None;
            }
            let mut out: Vec<char> = Vec::new();
            let mut j: usize = i;
            while j < cs.len()
                invariant
                    i <= j <= cs.len(),
                    out@ == cs@.subrange(i as int, j as int),
                decreases cs.len() - j,
            {
                out.push(cs[j]);
                assert(cs@.subrange(i as int, j + 1) == cs@.subrange(i as int, j as int).push(
                    cs@[j as int],
                ));
                j = j + 1;
            }
            assert(cs@.skip(i as int) == cs@.subrange(i as int, cs.len() as int));
            Some(string_of(out.as_slice()))
        },
    }
}

/// Whether two paths are equal as `Path`s are: component by component.
pub fn paths_equal(a: &str, b: &str) -> (r: bool)
    ensures
        r == (components(a@) == components(b@)),
{
    let ca = components_of(a);
    let cb = components_of(b);
    let ghost va = ca@.map_values(|c: Component| c@);
    let ghost vb = cb@.map_values(|c: Component| c@);
    if ca.len() != cb.len() {
        assert(va.len() != vb.len());
        return false;
    }
    let mut i: usize = 0;
    while i < ca.len()
        invariant
            ca.len() == cb.len(),
            va == ca@.map_values(|c: Component| c@),
            vb == cb@.map_values(|c: Component| c@),
            va == components(a@),
            vb == components(b@),
            0 <= i <= ca.len(),
            forall|k: int| 0 <= k < i ==> va[k] == vb[k],
        decreases ca.len() - i,
    {
        let same = match (&ca[i], &cb[i]) {
            (Component::RootDir, Component::RootDir) => true,
            (Component::CurDir, Component::CurDir) => true,
            (Component::ParentDir, Component::ParentDir) => true,
            (Component::Normal(x), Component::Normal(y)) => String::eq(x, y),
            _ => false,
        };
        assert(va[i as int] == ca@[i as int]@ && vb[i as int] == cb@[i as int]@);
        if !same {
            assert(va[i as int] != vb[i as int]);
            return false;
        }
        i = i + 1;
    }
    assert(va =~= vb);
    true
}

} // verus!

verus! {

proof fn lemma_body_comps_concat(cur: Seq<char>, x: Seq<char>, y: Seq<char>)
    ensures
        body_comps(cur, x + seq!['/'] + y) == body_comps(cur, x) + body_comps(Seq::empty(), y),
    decreases x.len(),
{
    let s = x + seq!['/'] + y;
    if x.len() == 0 {
        assert(s == seq!['/'] + y);
        assert(s[0] == '/');
        assert(s.drop_first() == y);
    } else {
        assert(s[0] == x[0]);
        assert(s.drop_first() == x.drop_first() + seq!['/'] + y);
        if x[0] == '/' {
            lemma_body_comps_concat(Seq::empty(), x.drop_first(), y);
        } else {
            lemma_body_comps_concat(cur.push(x[0]), x.drop_first(), y);
        }
    }
}

proof fn lemma_components_slash(x: Seq<char>, y: Seq<char>)
    requires
        x.len() > 0,
    ensures
        components(x + seq!['/'] + y) == components(x) + body_comps(Seq::empty(), y),
{
    let s = x + seq!['/'] + y;
    assert(s[0] == x[0]);
    if x.len() > 1 {
        assert(s[1] == x[1]);
    } else {
        assert(s[1] == '/');
    }
    assert(s.drop_first() == x.drop_first() + seq!['/'] + y);
    if has_root(x) || leads_with_cur_dir(x) {
        lemma_body_comps_concat(Seq::empty(), x.drop_first(), y);
    } else {
        lemma_body_comps_concat(Seq::empty(), x, y);
    }
}

/// Joining a relative path onto a non-empty directory appends the relative
/// path's components (less a leading `.`) to the directory's.
pub proof fn lemma_components_join(base: Seq<char>, rel: Seq<char>)
    requires
        base.len() > 0,
        !has_root(rel),
    ensures
        components(join(base, rel)) == components(base) + body_comps(Seq::empty(), rel),
{
    if base.last() != '/' {
        lemma_components_slash(base, rel);
    } else {
        let b0 = base.drop_last();
        assert(base == b0 + seq!['/'] + Seq::<char>::empty());
        assert(join(base, rel) == b0 + seq!['/'] + rel);
        if b0.len() == 0 {
            assert(has_root(base));
            assert(base.drop_first() == Seq::<char>::empty());
            assert((b0 + seq!['/'] + rel).drop_first() == rel);
            assert(has_root(b0 + seq!['/'] + rel));
        } else {
            lemma_components_slash(b0, rel);
            lemma_components_slash(b0, Seq::empty());
            assert(body_comps(Seq::empty(), Seq::<char>::empty()) == Seq::<Comp>::empty());
        }
    }
}

/// For a relative path, its components less a leading `.`.
pub proof fn lemma_body_comps_relative(p: Seq<char>)
    requires
        !has_root(p),
    ensures
        components(p) == if leads_with_cur_dir(p) {
            seq![Comp::CurDir] + body_comps(Seq::empty(), p)
        } else {
            body_comps(Seq::empty(), p)
        },
{
    if leads_with_cur_dir(p) {
        let r = p.drop_first();
        assert(p[0] == '.');
        assert(Seq::<char>::empty().push('.') == dot());
        if r.len() == 0 {
            assert(body_comps(Seq::empty(), p) == body_comps(dot(), r));
        } else {
            assert(r[0] == '/');
            assert(body_comps(Seq::empty(), p) == body_comps(dot(), r));
            assert(body_comps(dot(), r) == segment_comps(dot()) + body_comps(Seq::empty(), r.drop_first()));
            assert(body_comps(Seq::empty(), r) == segment_comps(Seq::empty()) + body_comps(
                Seq::empty(),
                r.drop_first(),
            ));
        }
    }
}

} // verus!
