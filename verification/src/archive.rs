//! What the library decides about archives: which kind a file is, what its
//! entries are called, and whether an entry may be extracted.

use vstd::prelude::*;
use crate::path::{
    Comp, Component, components, components_of, dot, dot_dot, extension, extension_of, file_name, join,
    body_comps, has_root, leads_with_cur_dir, lemma_components_join, lemma_body_comps_relative,
    file_name_of, paths_equal,
};
use crate::patch::views_of;

verus! {

/// Whether components `cs`, read from a nesting depth of `depth` below the
/// extraction root, never leave the root.
pub open spec fn safe_from(depth: int, cs: Seq<Comp>) -> bool
    decreases cs.len(),
{
    if cs.len() == 0 {
        true
    } else {
        match cs[0] {
            Comp::RootDir => false,
            Comp::CurDir => safe_from(depth, cs.drop_first()),
            Comp::Normal(_) => safe_from(depth + 1, cs.drop_first()),
            Comp::ParentDir => depth >= 1 && safe_from(depth - 1, cs.drop_first()),
        }
    }
}

/// A Unix path is safe to extract when it has no root and no `..` climbs
/// above the extraction root.
pub open spec fn is_safe_path(p: Seq<char>) -> bool {
    safe_from(0, components(p))
}

fn is_safe_unix_path(path: &str) -> (r: bool)
    ensures
        r == is_safe_path(path@),
{
    let cs = components_of(path);
    let ghost comps = cs@.map_values(|c: Component| c@);
    let mut depth: usize = 0;
    let mut i: usize = 0;
    assert(comps.skip(0) == comps);
    while i < cs.len()
        invariant
            comps == cs@.map_values(|c: Component| c@),
            comps == components(path@),
            0 <= i <= cs.len(),
            depth <= i,
            safe_from(0, comps) == safe_from(depth as int, comps.skip(i as int)),
        decreases cs.len() - i,
    {
        assert(comps.skip(i as int)[0] == cs@[i as int]@);
        assert(comps.skip(i as int).drop_first() == comps.skip(i + 1));
        match &cs[i] {
            Component::CurDir => {},
            Component::Normal(_) => {
                depth = depth + 1;
            },
            Component::ParentDir => {
                if depth == 0 {
                    return false;
                }
                depth = depth - 1;
            },
            Component::RootDir => {
                return false;
            },
        }
        i = i + 1;
    }
    true
}

pub open spec fn is_ascii_alpha(c: char) -> bool {
    ('a' <= c && c <= 'z') || ('A' <= c && c <= 'Z')
}

/// A Windows path that does not stay below the directory it is joined onto:
/// one that starts with a separator (a root, or a `\\server\share`, `\\?\` or
/// `\\.\` prefix) or with a drive (`C:`).
pub open spec fn windows_anchored(p: Seq<char>) -> bool {
    ||| p.len() > 0 && (p[0] == '/' || p[0] == '\\')
    ||| p.len() >= 2 && is_ascii_alpha(p[0]) && p[1] == ':'
}

/// The depth below the root after the segment `seg`: an empty segment and `.`
/// leave it, `..` climbs one level, any other name descends one.
pub open spec fn segment_depth(depth: int, seg: Seq<char>) -> int {
    if seg.len() == 0 || seg == dot() {
        depth
    } else if seg == dot_dot() {
        depth - 1
    } else {
        depth + 1
    }
}

/// Whether the segments of `s`, split at `/` and `\`, the first of which
/// starts with `cur`, never climb above the root from `depth`.
pub open spec fn windows_walk_safe(depth: int, cur: Seq<char>, s: Seq<char>) -> bool
    decreases s.len(),
{
    if s.len() == 0 {
        segment_depth(depth, cur) >= 0
    } else if s[0] == '/' || s[0] == '\\' {
        segment_depth(depth, cur) >= 0 && windows_walk_safe(
            segment_depth(depth, cur),
            Seq::empty(),
            s.drop_first(),
        )
    } else {
        windows_walk_safe(depth, cur.push(s[0]), s.drop_first())
    }
}

/// Whether `p` is safe to extract, read as a Windows path (`windows`) or as a
/// Unix path: relative, and no `..` climbs above the extraction root.
pub open spec fn is_safe_path_on(windows: bool, p: Seq<char>) -> bool {
    if windows {
        !windows_anchored(p) && windows_walk_safe(0, Seq::empty(), p)
    } else {
        is_safe_path(p)
    }
}

fn segment_step(depth: usize, seg: &Vec<char>) -> (r: Option<usize>)
    requires
        depth + seg@.len() <= usize::MAX,
    ensures
        match r {
            Some(d) => d == segment_depth(depth as int, seg@) && d <= depth + seg@.len(),
            None => segment_depth(depth as int, seg@) < 0,
        },
{
    let n = seg.len();
    if n == 0 || (n == 1 && seg[0] == '.') {
        assert(n == 1 ==> seg@ == dot());
        Some(depth)
    } else if n == 2 && seg[0] == '.' && seg[1] == '.' {
        assert(seg@ == dot_dot());
        if depth == 0 {
            None
        } else {
            Some(depth - 1)
        }
    } else {
        assert(seg@ != dot() && seg@ != dot_dot());
        Some(depth + 1)
    }
}

fn is_safe_windows_path(path: &str) -> (r: bool)
    ensures
        r == (!windows_anchored(path@) && windows_walk_safe(0, Seq::empty(), path@)),
{
    let cs = crate::text::chars_of(path);
    let n = cs.len();
    if n > 0 && (cs[0] == '/' || cs[0] == '\\') {
        return false;
    }
    if n >= 2 && (('a' <= cs[0] && cs[0] <= 'z') || ('A' <= cs[0] && cs[0] <= 'Z')) && cs[1]
        == ':' {
        return false;
    }
    let mut depth: usize = 0;
    let mut cur: Vec<char> = Vec::new();
    let mut i: usize = 0;
    assert(path@.skip(0) == path@);
    while i < n
        invariant
            cs@ == path@,
            n == cs.len(),
            0 <= i <= n,
            depth + cur@.len() <= i,
            windows_walk_safe(0, Seq::empty(), path@) == windows_walk_safe(
                depth as int,
                cur@,
                path@.skip(i as int),
            ),
        decreases n - i,
    {
        assert(path@.skip(i as int).drop_first() == path@.skip(i + 1));
        assert(path@.skip(i as int)[0] == cs@[i as int]);
        let c = cs[i];
        if c == '/' || c == '\\' {
            match segment_step(depth, &cur) {
                Some(d) => {
                    depth = d;
                },
                None => {
                    return false;
                },
            }
            cur = Vec::new();
        } else {
            cur.push(c);
        }
        i = i + 1;
    }
    assert(path@.skip(n as int).len() == 0);
    segment_step(depth, &cur).is_some()
}

/// Whether `path` stays within its extraction root, read as a Windows path
/// (`windows`: `\` also separates components, and a path may start with a
/// drive or a prefix) or as a Unix path: no root or prefix, and no `..` that
/// would climb above the root.
pub fn is_safe_entry_path_on(windows: bool, path: &str) -> (r: bool)
    ensures
        r == is_safe_path_on(windows, path@),
{
    if windows {
        is_safe_windows_path(path)
    } else {
        is_safe_unix_path(path)
    }
}

/// Trusted: `std::path::is_separator`, which tells whether `c` separates path
/// components on the platform the program is built for. Its documentation
/// shows that `/` does on every platform; whether `\` does depends on the
/// platform (it does on Windows), so nothing more is stated.
#[verifier::external_body]
fn is_separator(c: char) -> (r: bool)
    ensures
        c == '/' ==> r,
{
    std::path::is_separator(c)
}

/// Returns `true` only if `path` is a relative path that stays within its
/// extraction root: no root or prefix component, and no `..` that would climb
/// above the root. Used to block path traversal from archives. The path is
/// read as the platform reads it: as a Windows path where `\` separates
/// components, else as a Unix path.
pub fn is_safe_entry_path(path: &str) -> (r: bool)
    ensures
        r == is_safe_path_on(true, path@) || r == is_safe_path_on(false, path@),
{
    let windows = is_separator('\\');
    is_safe_entry_path_on(windows, path)
}

// ---------------------------------------------------------------------------
// What "staying within the root" means: resolve the components lexically
// against a base directory, given as its list of names.

/// The directory reached from `stack` by one component.
pub open spec fn step(stack: Seq<Seq<char>>, c: Comp) -> Seq<Seq<char>> {
    match c {
        Comp::RootDir => Seq::empty(),
        Comp::CurDir => stack,
        Comp::ParentDir => if stack.len() == 0 {
            stack
        } else {
            stack.drop_last()
        },
        Comp::Normal(name) => stack.push(name),
    }
}

pub open spec fn is_prefix_of(a: Seq<Seq<char>>, b: Seq<Seq<char>>) -> bool {
    a.len() <= b.len() && b.take(a.len() as int) == a
}

/// Every directory that resolving `cs` from `stack` passes through lies under
/// `base`.
pub open spec fn stays_under(base: Seq<Seq<char>>, stack: Seq<Seq<char>>, cs: Seq<Comp>) -> bool
    decreases cs.len(),
{
    if cs.len() == 0 {
        true
    } else {
        let next = step(stack, cs[0]);
        is_prefix_of(base, next) && stays_under(base, next, cs.drop_first())
    }
}

proof fn lemma_safe_stays_under(base: Seq<Seq<char>>, extra: Seq<Seq<char>>, cs: Seq<Comp>)
    requires
        safe_from(extra.len() as int, cs),
    ensures
        stays_under(base, base + extra, cs),
    decreases cs.len(),
{
    if cs.len() > 0 {
        let stack = base + extra;
        let rest = cs.drop_first();
        match cs[0] {
            Comp::RootDir => {},
            Comp::CurDir => {
                assert(stack.take(base.len() as int) == base);
                lemma_safe_stays_under(base, extra, rest);
            },
            Comp::Normal(name) => {
                let e2 = extra.push(name);
                assert(stack.push(name) == base + e2);
                assert((base + e2).take(base.len() as int) == base);
                lemma_safe_stays_under(base, e2, rest);
            },
            Comp::ParentDir => {
                let e2 = extra.drop_last();
                assert(stack.drop_last() == base + e2);
                assert((base + e2).take(base.len() as int) == base);
                lemma_safe_stays_under(base, e2, rest);
            },
        }
    }
}

proof fn lemma_stays_under_safe(base: Seq<Seq<char>>, extra: Seq<Seq<char>>, cs: Seq<Comp>)
    requires
        base.len() > 0,
        stays_under(base, base + extra, cs),
    ensures
        safe_from(extra.len() as int, cs),
    decreases cs.len(),
{
    if cs.len() > 0 {
        let stack = base + extra;
        let rest = cs.drop_first();
        match cs[0] {
            Comp::RootDir => {},
            Comp::CurDir => {
                lemma_stays_under_safe(base, extra, rest);
            },
            Comp::Normal(name) => {
                let e2 = extra.push(name);
                assert(stack.push(name) == base + e2);
                lemma_stays_under_safe(base, e2, rest);
            },
            Comp::ParentDir => {
                if extra.len() == 0 {
                    assert(stack == base);
                    assert(step(stack, cs[0]).len() < base.len());
                } else {
                    let e2 = extra.drop_last();
                    assert(stack.drop_last() == base + e2);
                    lemma_stays_under_safe(base, e2, rest);
                }
            },
        }
    }
}

/// Read as a Unix path, the traversal guard is exact. An entry path that the
/// guard accepts, joined onto any extraction directory, never leads out of
/// that directory at any step; and an entry path that the guard rejects leads out of every
/// extraction directory other than `/` itself.
pub proof fn lemma_safe_path_stays_in_root(base: Seq<Seq<char>>, p: Seq<char>)
    ensures
        is_safe_path(p) ==> stays_under(base, base, components(p)),
        base.len() > 0 && stays_under(base, base, components(p)) ==> is_safe_path(p),
{
    let e = Seq::<Seq<char>>::empty();
    assert(base + e == base);
    if is_safe_path(p) {
        lemma_safe_stays_under(base, e, components(p));
    }
    if base.len() > 0 && stays_under(base, base, components(p)) {
        lemma_stays_under_safe(base, e, components(p));
    }
}

} // verus!

verus! {

/// The archive formats a mod can come in.
#[derive(Clone, Copy, Debug, PartialEq, Eq, Structural)]
pub enum ArchiveKind {
    Zip,
    SevenZ,
    Rar,
}

/// The format of an archive, read off the extension of its path.
pub open spec fn kind_of_extension(ext: Option<Seq<char>>) -> Option<ArchiveKind> {
    match ext {
        Some(e) => if e == "zip"@ {
            Some(ArchiveKind::Zip)
        } else if e == "7z"@ {
            Some(ArchiveKind::SevenZ)
        } else if e == "rar"@ {
            Some(ArchiveKind::Rar)
        } else {
            None
        },
        None => None,
    }
}

/// The format of the archive at `path` by its extension (`zip`, `7z` or
/// `rar`); `None` for an unsupported format.
pub fn archive_kind(path: &str) -> (r: Option<ArchiveKind>)
    ensures
        r == kind_of_extension(extension(path@)),
{
    match extension_of(path) {
        None => None,
        Some(e) => {
            let zip = String::from_str("zip");
            let sevenz = String::from_str("7z");
            let rar = String::from_str("rar");
            if e == zip {
                Some(ArchiveKind::Zip)
            } else if e == sevenz {
                Some(ArchiveKind::SevenZ)
            } else if e == rar {
                Some(ArchiveKind::Rar)
            } else {
                None
            }
        },
    }
}

/// One entry of an archive: whether it is a directory, and its path.
pub struct ArchiveEntry {
    is_directory: bool,
    path: String,
}

impl ArchiveEntry {
    pub closed spec fn spec_is_directory(&self) -> bool {
        self.is_directory
    }

    pub closed spec fn spec_path(&self) -> Seq<char> {
        self.path@
    }

    pub fn new(is_directory: bool, path: String) -> (r: ArchiveEntry)
        ensures
            r.spec_is_directory() == is_directory,
            r.spec_path() == path@,
    {
        ArchiveEntry { is_directory, path }
    }

    pub fn is_directory(&self) -> (r: bool)
        ensures
            r == self.spec_is_directory(),
    {
        self.is_directory
    }

    pub fn path(&self) -> (r: &str)
        ensures
            r@ == self.spec_path(),
    {
        self.path.as_str()
    }
}

/// Whether some entry name has `name` as its file name.
pub open spec fn names_have_name(names: Seq<Seq<char>>, name: Seq<char>) -> bool {
    exists|i: int| 0 <= i < names.len() && file_name(#[trigger] names[i]) == Some(name)
}

/// Whether some entry among `names` has the file name `name`. Looks at the
/// final component of each entry path, wherever the entry sits.
pub fn has_name(names: &Vec<String>, name: &str) -> (r: bool)
    ensures
        r == names_have_name(views_of(names@), name@),
{
    let ghost v = views_of(names@);
    let target = String::from_str(name);
    let mut i: usize = 0;
    while i < names.len()
        invariant
            v == views_of(names@),
            target@ == name@,
            0 <= i <= names.len(),
            forall|k: int| 0 <= k < i ==> file_name(#[trigger] v[k]) != Some(name@),
        decreases names.len() - i,
    {
        assert(v[i as int] == names@[i as int]@);
        match file_name_of(names[i].as_str()) {
            Some(f) => {
                if f == target {
                    return true;
                }
            },
            None => {},
        }
        i = i + 1;
    }
    false
}

/// Whether some entry path among `names` equals `path` as a path does,
/// component by component.
pub open spec fn names_have_path(names: Seq<Seq<char>>, path: Seq<char>) -> bool {
    exists|i: int| 0 <= i < names.len() && components(#[trigger] names[i]) == components(path)
}

/// Whether some entry among `names` is at `path` (paths compared component by
/// component, as `Path` compares them).
pub fn has_path(names: &Vec<String>, path: &str) -> (r: bool)
    ensures
        r == names_have_path(views_of(names@), path@),
{
    let ghost v = views_of(names@);
    let mut i: usize = 0;
    while i < names.len()
        invariant
            v == views_of(names@),
            0 <= i <= names.len(),
            forall|k: int| 0 <= k < i ==> components(#[trigger] v[k]) != components(path@),
        decreases names.len() - i,
    {
        assert(v[i as int] == names@[i as int]@);
        if paths_equal(names[i].as_str(), path) {
            return true;
        }
        i = i + 1;
    }
    false
}

pub open spec fn entry_paths(entries: Seq<ArchiveEntry>) -> Seq<Seq<char>> {
    entries.map_values(|e: ArchiveEntry| e.spec_path())
}

/// The guard before extraction: the position of the first entry whose path
/// could lead out of the extraction directory, or `None` when every entry is
/// safe to extract. Paths are read as Windows paths when `windows` holds
/// (where `\` separates components), else as Unix paths.
pub fn first_unsafe_entry(windows: bool, entries: &Vec<ArchiveEntry>) -> (r: Option<usize>)
    ensures
        r is None <==> forall|i: int|
            0 <= i < entries.len() ==> is_safe_path_on(
                windows,
                #[trigger] entry_paths(entries@)[i],
            ),
        r matches Some(k) ==> k < entries.len() && !is_safe_path_on(
            windows,
            entry_paths(entries@)[k as int],
        ) && forall|i: int|
            0 <= i < k ==> is_safe_path_on(windows, #[trigger] entry_paths(entries@)[i]),
{
    let ghost p = entry_paths(entries@);
    let mut i: usize = 0;
    while i < entries.len()
        invariant
            p == entry_paths(entries@),
            0 <= i <= entries.len(),
            forall|k: int| 0 <= k < i ==> is_safe_path_on(windows, #[trigger] p[k]),
        decreases entries.len() - i,
    {
        assert(p[i as int] == entries@[i as int].spec_path());
        if !is_safe_entry_path_on(windows, entries[i].path()) {
            return Some(i);
        }
        i = i + 1;
    }
    None
}

} // verus!

verus! {

/// The directory reached from `stack` by the components `cs`.
pub open spec fn resolve(stack: Seq<Seq<char>>, cs: Seq<Comp>) -> Seq<Seq<char>>
    decreases cs.len(),
{
    if cs.len() == 0 {
        stack
    } else {
        resolve(step(stack, cs[0]), cs.drop_first())
    }
}

/// The guard protects real extraction paths on Unix. For an entry path the
/// guard accepts, the path it is extracted to (the entry joined onto the
/// destination directory) consists of the destination's components followed by the
/// entry's; and walking the entry's components from the destination never
/// leaves the destination.
pub proof fn lemma_extracted_entry_stays_in_dest(dest: Seq<char>, entry: Seq<char>)
    requires
        dest.len() > 0,
        is_safe_path(entry),
    ensures
        components(join(dest, entry)) == components(dest) + body_comps(Seq::empty(), entry),
        stays_under(
            resolve(Seq::empty(), components(dest)),
            resolve(Seq::empty(), components(dest)),
            body_comps(Seq::empty(), entry),
        ),
{
    assert(!has_root(entry)) by {
        if has_root(entry) {
            assert(components(entry)[0] == Comp::RootDir);
        }
    }
    lemma_components_join(dest, entry);
    lemma_body_comps_relative(entry);
    let rest = body_comps(Seq::empty(), entry);
    assert(safe_from(0, rest)) by {
        if leads_with_cur_dir(entry) {
            assert((seq![Comp::CurDir] + rest)[0] == Comp::CurDir);
            assert((seq![Comp::CurDir] + rest).drop_first() == rest);
        }
    }
    let base = resolve(Seq::empty(), components(dest));
    assert(base + Seq::<Seq<char>>::empty() == base);
    lemma_safe_stays_under(base, Seq::empty(), rest);
}

} // verus!

verus! {

// ---------------------------------------------------------------------------
// Joining paths keeps the guard's answer.

/// The depth below the root after the components `cs`, read from `depth`.
pub open spec fn end_depth(depth: int, cs: Seq<Comp>) -> int
    decreases cs.len(),
{
    if cs.len() == 0 {
        depth
    } else {
        match cs[0] {
            Comp::Normal(_) => end_depth(depth + 1, cs.drop_first()),
            Comp::ParentDir => end_depth(depth - 1, cs.drop_first()),
            _ => end_depth(depth, cs.drop_first()),
        }
    }
}

proof fn lemma_safe_from_concat(depth: int, a: Seq<Comp>, b: Seq<Comp>)
    ensures
        safe_from(depth, a + b) == (safe_from(depth, a) && safe_from(end_depth(depth, a), b)),
        safe_from(depth, a) && depth >= 0 ==> end_depth(depth, a) >= 0,
    decreases a.len(),
{
    if a.len() > 0 {
        assert((a + b).drop_first() == a.drop_first() + b);
        assert((a + b)[0] == a[0]);
        match a[0] {
            Comp::Normal(_) => lemma_safe_from_concat(depth + 1, a.drop_first(), b),
            Comp::ParentDir => lemma_safe_from_concat(depth - 1, a.drop_first(), b),
            _ => lemma_safe_from_concat(depth, a.drop_first(), b),
        }
    } else {
        assert(a + b == b);
    }
}

proof fn lemma_safe_from_mono(d: int, e: int, cs: Seq<Comp>)
    requires
        d <= e,
        safe_from(d, cs),
    ensures
        safe_from(e, cs),
    decreases cs.len(),
{
    if cs.len() > 0 {
        match cs[0] {
            Comp::Normal(_) => lemma_safe_from_mono(d + 1, e + 1, cs.drop_first()),
            Comp::ParentDir => lemma_safe_from_mono(d - 1, e - 1, cs.drop_first()),
            _ => lemma_safe_from_mono(d, e, cs.drop_first()),
        }
    }
}

/// `base` with the relative path `rel` appended the way `PathBuf::push` does
/// on Windows for a base without a drive or prefix: a `\` separates them
/// unless `base` is empty or already ends in a separator.
pub open spec fn join_windows(base: Seq<char>, rel: Seq<char>) -> Seq<char> {
    if base.len() > 0 && !(base.last() == '/' || base.last() == '\\') {
        base + seq!['\\'] + rel
    } else {
        base + rel
    }
}

/// `base` joined with `rel`, read as Windows paths (`windows`) or Unix paths.
pub open spec fn join_on(windows: bool, base: Seq<char>, rel: Seq<char>) -> Seq<char> {
    if windows {
        join_windows(base, rel)
    } else {
        join(base, rel)
    }
}

/// A path that does not stay below the directory it is joined onto: one with
/// a root, or on Windows a drive or prefix.
pub open spec fn anchored_on(windows: bool, p: Seq<char>) -> bool {
    if windows {
        windows_anchored(p)
    } else {
        has_root(p)
    }
}

/// No `..` climbs above the root at the separators within `s`.
pub open spec fn walk_ok(depth: int, cur: Seq<char>, s: Seq<char>) -> bool
    decreases s.len(),
{
    if s.len() == 0 {
        true
    } else if s[0] == '/' || s[0] == '\\' {
        segment_depth(depth, cur) >= 0 && walk_ok(
            segment_depth(depth, cur),
            Seq::empty(),
            s.drop_first(),
        )
    } else {
        walk_ok(depth, cur.push(s[0]), s.drop_first())
    }
}

/// The depth and the open segment after reading `s`.
pub open spec fn walk_end(depth: int, cur: Seq<char>, s: Seq<char>) -> (int, Seq<char>)
    decreases s.len(),
{
    if s.len() == 0 {
        (depth, cur)
    } else if s[0] == '/' || s[0] == '\\' {
        walk_end(segment_depth(depth, cur), Seq::empty(), s.drop_first())
    } else {
        walk_end(depth, cur.push(s[0]), s.drop_first())
    }
}

proof fn lemma_walk_split(depth: int, cur: Seq<char>, s: Seq<char>)
    ensures
        windows_walk_safe(depth, cur, s) == (walk_ok(depth, cur, s) && segment_depth(
            walk_end(depth, cur, s).0,
            walk_end(depth, cur, s).1,
        ) >= 0),
    decreases s.len(),
{
    if s.len() > 0 {
        if s[0] == '/' || s[0] == '\\' {
            lemma_walk_split(segment_depth(depth, cur), Seq::empty(), s.drop_first());
        } else {
            lemma_walk_split(depth, cur.push(s[0]), s.drop_first());
        }
    }
}

proof fn lemma_walk_concat(depth: int, cur: Seq<char>, a: Seq<char>, b: Seq<char>)
    ensures
        walk_ok(depth, cur, a + b) == (walk_ok(depth, cur, a) && walk_ok(
            walk_end(depth, cur, a).0,
            walk_end(depth, cur, a).1,
            b,
        )),
        walk_end(depth, cur, a + b) == walk_end(
            walk_end(depth, cur, a).0,
            walk_end(depth, cur, a).1,
            b,
        ),
    decreases a.len(),
{
    if a.len() > 0 {
        assert((a + b).drop_first() == a.drop_first() + b);
        assert((a + b)[0] == a[0]);
        if a[0] == '/' || a[0] == '\\' {
            lemma_walk_concat(segment_depth(depth, cur), Seq::empty(), a.drop_first(), b);
        } else {
            lemma_walk_concat(depth, cur.push(a[0]), a.drop_first(), b);
        }
    } else {
        assert(a + b == b);
    }
}

proof fn lemma_walk_mono(d: int, e: int, cur: Seq<char>, s: Seq<char>)
    requires
        d <= e,
        windows_walk_safe(d, cur, s),
    ensures
        windows_walk_safe(e, cur, s),
    decreases s.len(),
{
    if s.len() > 0 {
        if s[0] == '/' || s[0] == '\\' {
            lemma_walk_mono(
                segment_depth(d, cur),
                segment_depth(e, cur),
                Seq::empty(),
                s.drop_first(),
            );
        } else {
            lemma_walk_mono(d, e, cur.push(s[0]), s.drop_first());
        }
    }
}

/// Read from the root, `a`, a separator `c`, then `q`: safe exactly when `a`
/// is safe and `q` is safe from the depth `a` ends at, which is not negative.
proof fn lemma_walk_at_separator(a: Seq<char>, c: char, q: Seq<char>)
    requires
        c == '/' || c == '\\',
    ensures
        ({
            let e = walk_end(0, Seq::empty(), a);
            let d = segment_depth(e.0, e.1);
            &&& windows_walk_safe(0, Seq::empty(), a + seq![c] + q) == (windows_walk_safe(
                0,
                Seq::empty(),
                a,
            ) && windows_walk_safe(d, Seq::empty(), q))
            &&& windows_walk_safe(0, Seq::empty(), a) ==> d >= 0
        }),
{
    let e = walk_end(0, Seq::empty(), a);
    let d = segment_depth(e.0, e.1);
    let t = seq![c] + q;
    assert(a + seq![c] + q == a + t);
    lemma_walk_concat(0, Seq::empty(), a, t);
    lemma_walk_split(0, Seq::empty(), a + t);
    lemma_walk_split(0, Seq::empty(), a);
    assert(t.drop_first() == q);
    assert(walk_ok(e.0, e.1, t) == (d >= 0 && walk_ok(d, Seq::empty(), q)));
    assert(walk_end(e.0, e.1, t) == walk_end(d, Seq::empty(), q));
    lemma_walk_split(d, Seq::empty(), q);
}

proof fn lemma_guard_join_windows(p: Seq<char>, q: Seq<char>)
    requires
        !windows_anchored(q),
    ensures
        is_safe_path_on(true, p) && is_safe_path_on(true, q) ==> is_safe_path_on(
            true,
            join_windows(p, q),
        ),
        !is_safe_path_on(true, p) ==> !is_safe_path_on(true, join_windows(p, q)),
{
    let j = join_windows(p, q);
    if p.len() == 0 {
        assert(j == q);
        assert(windows_walk_safe(0, Seq::empty(), p));
    } else {
        // the joined path starts as `p` does
        let a = if p.last() == '/' || p.last() == '\\' {
            p.drop_last()
        } else {
            p
        };
        let c = if p.last() == '/' || p.last() == '\\' {
            p.last()
        } else {
            '\\'
        };
        assert(j == a + seq![c] + q);
        assert(j[0] == p[0]);
        assert(p.len() >= 2 ==> j[1] == p[1]);
        assert(p.len() == 1 && !(p[0] == '/' || p[0] == '\\') ==> j[1] == '\\');
        assert(windows_anchored(j) == windows_anchored(p));
        lemma_walk_at_separator(a, c, q);
        let e = walk_end(0, Seq::empty(), a);
        let d = segment_depth(e.0, e.1);
        if a != p {
            assert(p == a + seq![c] + Seq::<char>::empty());
            lemma_walk_at_separator(a, c, Seq::empty());
            assert(windows_walk_safe(d, Seq::empty(), Seq::<char>::empty()) == (d >= 0));
        }
        if windows_walk_safe(0, Seq::empty(), p) && windows_walk_safe(0, Seq::empty(), q) {
            lemma_walk_mono(0, d, Seq::empty(), q);
        }
    }
}

proof fn lemma_guard_join_unix(p: Seq<char>, q: Seq<char>)
    requires
        !has_root(q),
    ensures
        is_safe_path(p) && is_safe_path(q) ==> is_safe_path(join(p, q)),
        !is_safe_path(p) ==> !is_safe_path(join(p, q)),
{
    if p.len() == 0 {
        assert(join(p, q) == q);
        assert(components(p) == Seq::<Comp>::empty()) by {
            assert(body_comps(Seq::empty(), p) == crate::path::segment_comps(Seq::empty()));
        }
    } else {
        let cp = components(p);
        let bq = body_comps(Seq::empty(), q);
        lemma_components_join(p, q);
        lemma_safe_from_concat(0, cp, bq);
        lemma_body_comps_relative(q);
        if leads_with_cur_dir(q) {
            assert((seq![Comp::CurDir] + bq).drop_first() == bq);
        }
        if is_safe_path(p) && is_safe_path(q) {
            lemma_safe_from_mono(0, end_depth(0, cp), bq);
        }
    }
}

/// Joining keeps the traversal guard's answer, under either reading of paths:
/// a safe path joined with a safe relative path is safe, and an unsafe path
/// stays unsafe whatever relative path is joined onto it. (`q` must have no
/// root, drive or prefix; otherwise joining would replace `p`.)
pub proof fn lemma_guard_join(windows: bool, p: Seq<char>, q: Seq<char>)
    requires
        !anchored_on(windows, q),
    ensures
        is_safe_path_on(windows, p) && is_safe_path_on(windows, q) ==> is_safe_path_on(
            windows,
            join_on(windows, p, q),
        ),
        !is_safe_path_on(windows, p) ==> !is_safe_path_on(windows, join_on(windows, p, q)),
{
    if windows {
        lemma_guard_join_windows(p, q);
    } else {
        lemma_guard_join_unix(p, q);
    }
}

} // verus!
