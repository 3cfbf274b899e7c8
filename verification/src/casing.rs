//! Matching a relative path against the names on disk, ignoring case, one
//! directory listing at a time. The caller reads each directory the fixer asks
//! for and hands the names back.

use vstd::prelude::*;
use crate::path::{Comp, Component, components, components_of, join, join_path};
use crate::patch::views_of;

verus! {

/// What `str::to_lowercase` returns.
pub uninterp spec fn lowercase(s: Seq<char>) -> Seq<char>;

/// Trusted: `str::to_lowercase`. Its result is a function of the string alone
/// (Unicode's lowercase mapping); the mapping itself is left unsaid.
#[verifier::external_body]
fn to_lowercase(s: &str) -> (r: String)
    ensures
        r@ == lowercase(s@),
{
    s.to_lowercase()
}

/// The text of a component, as `Component::as_os_str` gives it.
pub open spec fn comp_text(c: Comp) -> Seq<char> {
    match c {
        Comp::RootDir => "/"@,
        Comp::CurDir => "."@,
        Comp::ParentDir => ".."@,
        Comp::Normal(s) => s,
    }
}

fn comp_text_of(c: &Component) -> (r: String)
    ensures
        r@ == comp_text(c@),
{
    match c {
        Component::RootDir => String::from_str("/"),
        Component::CurDir => String::from_str("."),
        Component::ParentDir => String::from_str(".."),
        Component::Normal(s) => s.clone(),
    }
}

/// The first of `entries` that equals `text` ignoring case, if any.
pub open spec fn first_match(entries: Seq<Seq<char>>, text: Seq<char>) -> Option<int>
    decreases entries.len(),
{
    if entries.len() == 0 {
        None
    } else {
        match first_match(entries.drop_last(), text) {
            Some(i) => Some(i),
            None => if lowercase(entries.last()) == lowercase(text) {
                Some(entries.len() - 1)
            } else {
                None
            },
        }
    }
}

/// The name to take for component text `text` in a directory holding
/// `entries`: the first entry equal to it ignoring case, else `text` itself.
pub open spec fn chosen_name(entries: Seq<Seq<char>>, text: Seq<char>) -> Seq<char> {
    match first_match(entries, text) {
        Some(i) => entries[i],
        None => text,
    }
}

proof fn lemma_first_match(entries: Seq<Seq<char>>, text: Seq<char>)
    ensures
        first_match(entries, text) matches Some(i) ==> 0 <= i < entries.len() && lowercase(
            entries[i],
        ) == lowercase(text),
    decreases entries.len(),
{
    if entries.len() > 0 {
        lemma_first_match(entries.drop_last(), text);
    }
}

/// Matching changes letter case only: the name taken for a component equals
/// the component ignoring case, and is one of the directory's entries unless
/// none matches.
pub proof fn lemma_chosen_name_differs_only_in_case(entries: Seq<Seq<char>>, text: Seq<char>)
    ensures
        lowercase(chosen_name(entries, text)) == lowercase(text),
        chosen_name(entries, text) == text || entries.contains(chosen_name(entries, text)),
{
    lemma_first_match(entries, text);
    if let Some(i) = first_match(entries, text) {
        assert(entries[i] == chosen_name(entries, text));
    }
}

/// A path written out from its components: a leading `/` for a root, then the
/// other names joined by `/`; `.` components are dropped.
pub open spec fn render(cs: Seq<Comp>) -> Seq<char>
    decreases cs.len(),
{
    if cs.len() == 0 {
        Seq::empty()
    } else {
        let front = render(cs.drop_last());
        match cs.last() {
            Comp::CurDir => front,
            Comp::RootDir => front + "/"@,
            _ => if front.len() == 0 || front.last() == '/' {
                front + comp_text(cs.last())
            } else {
                front + "/"@ + comp_text(cs.last())
            },
        }
    }
}

/// What `current.strip_prefix(base)` leaves of a path: the rest of its
/// components after those of `base`, when they lead it.
pub open spec fn strip_prefix(current: Seq<char>, base: Seq<char>) -> Option<Seq<char>> {
    let c = components(current);
    let b = components(base);
    if b.len() <= c.len() && c.take(b.len() as int) == b {
        Some(render(c.skip(b.len() as int)))
    } else {
        None
    }
}

/// Why the path could not be matched.
#[derive(Debug)]
pub enum CasingError {
    /// The result does not lie below the base directory.
    NotBelowBase,
}

/// A path being matched against the disk, component by component.
pub struct CasingFix {
    base: String,
    comps: Vec<Component>,
    done: usize,
    current: String,
}

impl CasingFix {
    /// The base directory.
    pub closed spec fn spec_base(&self) -> Seq<char> {
        self.base@
    }

    /// The components of the relative path.
    pub closed spec fn spec_comps(&self) -> Seq<Comp> {
        self.comps@.map_values(|c: Component| c@)
    }

    /// How many components have been matched.
    pub closed spec fn spec_done(&self) -> nat {
        self.done as nat
    }

    /// The path reached so far.
    pub closed spec fn spec_current(&self) -> Seq<char> {
        self.current@
    }

    #[verifier::type_invariant]
    closed spec fn inv(&self) -> bool {
        self.done <= self.comps.len()
    }

    /// Starts matching `relative` below `base`.
    pub fn new(base: &str, relative: &str) -> (r: CasingFix)
        ensures
            r.spec_base() == base@,
            r.spec_comps() == components(relative@),
            r.spec_done() == 0,
            r.spec_current() == base@,
    {
        CasingFix {
            base: String::from_str(base),
            comps: components_of(relative),
            done: 0,
            current: String::from_str(base),
        }
    }

    /// The directory to list next, or `None` when every component is matched.
    pub fn next_dir(&self) -> (r: Option<String>)
        ensures
            self.spec_done() < self.spec_comps().len() ==> (r matches Some(d) && d@
                == self.spec_current()),
            self.spec_done() >= self.spec_comps().len() ==> r is None,
    {
        if self.done < self.comps.len() {
            Some(self.current.clone())
        } else {
            None
        }
    }

    /// Takes the listing of the directory `next_dir` named and matches the next
    /// component against it: the first name equal to it ignoring case, else
    /// the component as written, is added to the path.
    pub fn feed(&mut self, entries: &Vec<String>)
        requires
            old(self).spec_done() < old(self).spec_comps().len(),
        ensures
            final(self).spec_base() == old(self).spec_base(),
            final(self).spec_comps() == old(self).spec_comps(),
            final(self).spec_done() == old(self).spec_done() + 1,
            final(self).spec_current() == join(
                old(self).spec_current(),
                chosen_name(
                    views_of(entries@),
                    comp_text(old(self).spec_comps()[old(self).spec_done() as int]),
                ),
            ),
    {
        proof {
            use_type_invariant(&*self);
        }
        let ghost comps = self.spec_comps();
        assert(comps[self.done as int] == self.comps@[self.done as int]@);
        let text = comp_text_of(&self.comps[self.done]);
        let pick = find_first_match(entries, &text);
        let name = match pick {
            Some(k) => entries[k].clone(),
            None => text,
        };
        let next = join_path(self.current.as_str(), name.as_str());
        self.current = next;
        self.done = self.done + 1;
    }

    /// The matched path relative to the base, once every component is matched.
    pub fn finish(&self) -> (r: Result<String, CasingError>)
        requires
            self.spec_done() == self.spec_comps().len(),
        ensures
            match strip_prefix(self.spec_current(), self.spec_base()) {
                Some(p) => (r matches Ok(s) && s@ == p),
                None => r is Err,
            },
    {
        let c = components_of(self.current.as_str());
        let b = components_of(self.base.as_str());
        let ghost cv = c@.map_values(|x: Component| x@);
        let ghost bv = b@.map_values(|x: Component| x@);
        if b.len() > c.len() {
            return Err(CasingError::NotBelowBase);
        }
        let mut i: usize = 0;
        while i < b.len()
            invariant
                cv == c@.map_values(|x: Component| x@),
                bv == b@.map_values(|x: Component| x@),
                cv == components(self.spec_current()),
                bv == components(self.spec_base()),
                b.len() <= c.len(),
                0 <= i <= b.len(),
                forall|k: int| 0 <= k < i ==> cv[k] == bv[k],
            decreases b.len() - i,
        {
            let same = match (&c[i], &b[i]) {
                (Component::RootDir, Component::RootDir) => true,
                (Component::CurDir, Component::CurDir) => true,
                (Component::ParentDir, Component::ParentDir) => true,
                (Component::Normal(x), Component::Normal(y)) => String::eq(x, y),
                _ => false,
            };
            assert(cv[i as int] == c@[i as int]@ && bv[i as int] == b@[i as int]@);
            if !same {
                assert(cv.take(bv.len() as int)[i as int] != bv[i as int]);
                return Err(CasingError::NotBelowBase);
            }
            i = i + 1;
        }
        assert(cv.take(bv.len() as int) =~= bv);
        let ghost rest = cv.skip(bv.len() as int);
        let mut out: Vec<char> = Vec::new();
        let mut j: usize = b.len();
        while j < c.len()
            invariant
                cv == c@.map_values(|x: Component| x@),
                b.len() <= j <= c.len(),
                rest == cv.skip(b.len() as int),
                out@ == render(rest.take(j - b.len())),
            decreases c.len() - j,
        {
            let ghost before = out@;
            assert(rest.take(j + 1 - b.len()).drop_last() == rest.take(j - b.len()));
            assert(rest.take(j + 1 - b.len()).last() == c@[j as int]@);
            match &c[j] {
                Component::CurDir => {},
                Component::RootDir => {
                    out.push('/');
                    assert(out@ == before + "/"@) by {
                        reveal_strlit("/");
                    }
                },
                _ => {
                    let t = crate::text::chars_of(comp_text_of(&c[j]).as_str());
                    if !(out.len() == 0 || out[out.len() - 1] == '/') {
                        out.push('/');
                    }
                    let ghost mid = out@;
                    let mut q: usize = 0;
                    while q < t.len()
                        invariant
                            0 <= q <= t.len(),
                            out@ == mid + t@.take(q as int),
                        decreases t.len() - q,
                    {
                        out.push(t[q]);
                        assert(t@.take(q + 1) == t@.take(q as int).push(t@[q as int]));
                        q = q + 1;
                    }
                    assert(t@.take(t.len() as int) == t@);
                    proof {
                        reveal_strlit("/");
                        if !(before.len() == 0 || before.last() == '/') {
                            assert(mid == before + "/"@);
                        }
                    }
                },
            }
            j = j + 1;
        }
        assert(rest.take(c.len() - b.len()) == rest);
        Ok(crate::text::string_of(out.as_slice()))
    }
}

/// The position of the first of `entries` equal to `text` ignoring case.
fn find_first_match(entries: &Vec<String>, text: &String) -> (r: Option<usize>)
    ensures
        match r {
            Some(k) => first_match(views_of(entries@), text@) == Some(k as int) && k < entries.len(),
            None => first_match(views_of(entries@), text@) is None,
        },
{
    let wanted = to_lowercase(text.as_str());
    let ghost ev = views_of(entries@);
    let mut i: usize = 0;
    while i < entries.len()
        invariant
            ev == views_of(entries@),
            wanted@ == lowercase(text@),
            0 <= i <= entries.len(),
            first_match(ev.take(i as int), text@) is None,
        decreases entries.len() - i,
    {
        assert(ev.take(i + 1).drop_last() == ev.take(i as int));
        assert(ev.take(i + 1).last() == entries@[i as int]@);
        let low = to_lowercase(entries[i].as_str());
        if low == wanted {
            proof {
                lemma_first_match_prefix(ev, text@, i + 1);
            }
            return Some(i);
        }
        i = i + 1;
    }
    assert(ev.take(entries.len() as int) == ev);
    None
}

proof fn lemma_first_match_prefix(ev: Seq<Seq<char>>, text: Seq<char>, n: int)
    requires
        0 < n <= ev.len(),
        first_match(ev.take(n - 1), text) is None,
        lowercase(ev[n - 1]) == lowercase(text),
    ensures
        first_match(ev, text) == Some(n - 1),
    decreases ev.len(),
{
    assert(ev.take(n).drop_last() == ev.take(n - 1));
    assert(ev.take(n).last() == ev[n - 1]);
    assert(first_match(ev.take(n), text) == Some(n - 1));
    if n < ev.len() {
        assert(ev.drop_last().take(n) == ev.take(n));
        assert(ev.drop_last().take(n - 1) == ev.take(n - 1));
        lemma_first_match_prefix(ev.drop_last(), text, n);
    } else {
        assert(ev.take(n) == ev);
    }
}

} // verus!
