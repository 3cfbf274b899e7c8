//! Finding a Steam library that holds the game: where Steam keeps its
//! libraries, and how `libraryfolders.vdf` lists further ones.

use vstd::prelude::*;
use crate::path::{join, join_path};
use crate::patch::views_of;
use crate::text::{chars_of, push_char};

verus! {

/// Pattern for the `"path"` entries of a `libraryfolders.vdf`.
pub const VDF_PATH_PATTERN: &'static str = r#""path"\s*"([^"]+)""#;

/// The Unicode `White_Space` characters (what `\s` matches in a Unicode regex).
pub open spec fn is_white_space(c: char) -> bool {
    ||| '\u{9}' <= c && c <= '\u{d}'
    ||| c == ' '
    ||| c == '\u{85}'
    ||| c == '\u{a0}'
    ||| c == '\u{1680}'
    ||| '\u{2000}' <= c && c <= '\u{200a}'
    ||| c == '\u{2028}'
    ||| c == '\u{2029}'
    ||| c == '\u{202f}'
    ||| c == '\u{205f}'
    ||| c == '\u{3000}'
}

/// `"path"`
pub open spec fn path_key() -> Seq<char> {
    seq!['"', 'p', 'a', 't', 'h', '"']
}

/// The position after the whitespace that starts at `i`.
pub open spec fn ws_end(s: Seq<char>, i: int) -> int
    decreases s.len() - i,
{
    if 0 <= i < s.len() && is_white_space(s[i]) {
        ws_end(s, i + 1)
    } else {
        i
    }
}

/// The position of the first `"` at or after `i`, or the length of `s`.
pub open spec fn quote_pos(s: Seq<char>, i: int) -> int
    decreases s.len() - i,
{
    if 0 <= i < s.len() && s[i] != '"' {
        quote_pos(s, i + 1)
    } else {
        i
    }
}

/// A match of `"path"\s*"([^"]+)"` that starts at `i`: the bounds of the
/// captured text.
pub open spec fn vdf_match(s: Seq<char>, i: int) -> Option<(int, int)> {
    if 0 <= i && i + 6 <= s.len() && s.subrange(i, i + 6) == path_key() {
        let j = ws_end(s, i + 6);
        if j < s.len() && s[j] == '"' {
            let k = quote_pos(s, j + 1);
            if k > j + 1 && k < s.len() {
                Some((j + 1, k))
            } else {
                None
            }
        } else {
            None
        }
    } else {
        None
    }
}

pub proof fn lemma_ws_end(s: Seq<char>, i: int)
    ensures
        ws_end(s, i) >= i,
    decreases s.len() - i,
{
    if 0 <= i < s.len() && is_white_space(s[i]) {
        lemma_ws_end(s, i + 1);
    }
}

pub proof fn lemma_vdf_match_after(s: Seq<char>, i: int)
    ensures
        vdf_match(s, i) matches Some((a, b)) ==> i + 7 <= a < b < s.len(),
{
    lemma_ws_end(s, i + 6);
}

/// The groups captured by `"path"\s*"([^"]+)"` in `s` from `pos` on, the
/// leftmost match first, each search resuming where the last match ended.
pub open spec fn vdf_captures(s: Seq<char>, pos: int) -> Seq<Seq<char>>
    decreases s.len() - pos,
{
    if pos < 0 || pos >= s.len() {
        Seq::empty()
    } else {
        match vdf_match(s, pos) {
            Some((a, b)) => {
                proof {
                    lemma_vdf_match_after(s, pos);
                }
                seq![s.subrange(a, b)] + vdf_captures(s, b + 1)
            },
            None => vdf_captures(s, pos + 1),
        }
    }
}

/// Trusted: `regex::Regex::captures_iter` for the `"path"` pattern, built with
/// `regex::Regex::new`, and the text of capture group 1 of each match. The
/// pattern is a valid regex, so the build does not fail, and its group 1
/// takes part in every match. The matches are the leftmost-first,
/// non-overlapping ones, and `\s` is Unicode `White_Space`, so the captures
/// are what `vdf_captures` describes.
#[verifier::external_body]
fn regex_captures_iter(pattern: &str, haystack: &str) -> (r: Vec<String>)
    requires
        pattern@ == VDF_PATH_PATTERN@,
    ensures
        views_of(r@) == vdf_captures(haystack@, 0),
{
    regex::Regex::new(pattern).unwrap().captures_iter(haystack).map(|c| c[1].to_string()).collect()
}

/// `s` with each pair of backslashes, from the left, made a `/`
/// (`str::replace("\\\\", "/")`).
pub open spec fn unescape(s: Seq<char>) -> Seq<char>
    decreases s.len(),
{
    if s.len() == 0 {
        s
    } else if s.len() >= 2 && s[0] == '\\' && s[1] == '\\' {
        seq!['/'] + unescape(s.skip(2))
    } else {
        seq![s[0]] + unescape(s.drop_first())
    }
}

/// Only doubled backslashes change: a value without a backslash comes back
/// unchanged, and a value made of a backslash-free part, a pair of
/// backslashes and a rest comes back as the part, a `/`, and the rest read
/// the same way.
pub proof fn lemma_unescape_changes_only_backslash_pairs(a: Seq<char>, b: Seq<char>)
    requires
        !a.contains('\\'),
    ensures
        unescape(a) == a,
        unescape(a + seq!['\\', '\\'] + b) == a + seq!['/'] + unescape(b),
    decreases a.len(),
{
    if a.len() > 0 {
        let t = a.drop_first();
        assert(!t.contains('\\')) by {
            if t.contains('\\') {
                let k = choose|k: int| 0 <= k < t.len() && t[k] == '\\';
                assert(a[k + 1] == '\\');
            }
        }
        assert(a[0] != '\\') by {
            if a[0] == '\\' {
                assert(a.contains('\\'));
            }
        }
        lemma_unescape_changes_only_backslash_pairs(t, b);
        let s = a + seq!['\\', '\\'] + b;
        assert(s[0] == a[0]);
        assert(s.drop_first() == t + seq!['\\', '\\'] + b);
        assert(a == seq![a[0]] + t);
        assert(seq![a[0]] + (t + seq!['/'] + unescape(b)) == a + seq!['/'] + unescape(b));
    } else {
        let s = a + seq!['\\', '\\'] + b;
        assert(s == seq!['\\', '\\'] + b);
        assert(s.skip(2) == b);
        assert(a + seq!['/'] + unescape(b) == seq!['/'] + unescape(b));
    }
}

pub open spec fn unescape_all(captures: Seq<Seq<char>>) -> Seq<Seq<char>> {
    captures.map_values(|c: Seq<char>| unescape(c))
}

/// The library paths a `libraryfolders.vdf` lists.
pub open spec fn vdf_library_paths_spec(s: Seq<char>) -> Seq<Seq<char>> {
    unescape_all(vdf_captures(s, 0))
}

fn unescape_chars(cs: &Vec<char>, a: usize, b: usize) -> (r: String)
    requires
        a <= b <= cs.len(),
    ensures
        r@ == unescape(cs@.subrange(a as int, b as int)),
{
    let mut out = String::new();
    let mut i: usize = a;
    let ghost whole = cs@.subrange(a as int, b as int);
    assert(whole == cs@.subrange(a as int, b as int).skip(0));
    while i < b
        invariant
            a <= i <= b <= cs.len(),
            whole == cs@.subrange(a as int, b as int),
            out@ + unescape(cs@.subrange(i as int, b as int)) == unescape(whole),
        decreases b - i,
    {
        let ghost rest = cs@.subrange(i as int, b as int);
        if i + 1 < b && cs[i] == '\\' && cs[i + 1] == '\\' {
            assert(rest.skip(2) == cs@.subrange(i + 2, b as int));
            push_char(&mut out, '/');
            assert(unescape(rest) == seq!['/'] + unescape(rest.skip(2)));
            assert(out@ + unescape(cs@.subrange(i + 2, b as int)) == unescape(whole));
            i = i + 2;
        } else {
            assert(rest.drop_first() == cs@.subrange(i + 1, b as int));
            assert(rest[0] == cs@[i as int]);
            let ghost before = out@;
            push_char(&mut out, cs[i]);
            assert(unescape(rest) == seq![cs@[i as int]] + unescape(rest.drop_first()));
            assert(out@ + unescape(cs@.subrange(i + 1, b as int)) == before + (seq![cs@[i as int]]
                + unescape(cs@.subrange(i + 1, b as int))));
            i = i + 1;
        }
    }
    assert(cs@.subrange(b as int, b as int) == Seq::<char>::empty());
    out
}

/// The library paths, given the `"path"` values that the pattern captured in
/// a `libraryfolders.vdf`: each value, in order, with each pair of
/// backslashes made a `/`.
pub fn library_paths_from_captures(captures: &Vec<String>) -> (r: Vec<String>)
    ensures
        views_of(r@) == unescape_all(views_of(captures@)),
{
    let mut out: Vec<String> = Vec::new();
    let mut i: usize = 0;
    while i < captures.len()
        invariant
            0 <= i <= captures.len(),
            views_of(out@) == unescape_all(views_of(captures@)).take(i as int),
        decreases captures.len() - i,
    {
        let cs = chars_of(captures[i].as_str());
        assert(cs@.subrange(0, cs@.len() as int) == captures@[i as int]@);
        let p = unescape_chars(&cs, 0, cs.len());
        let ghost before = views_of(out@);
        out.push(p);
        assert(views_of(out@) == before.push(unescape(captures@[i as int]@)));
        assert(unescape_all(views_of(captures@)).take(i + 1) == unescape_all(
            views_of(captures@),
        ).take(i as int).push(unescape(captures@[i as int]@)));
        i = i + 1;
    }
    assert(unescape_all(views_of(captures@)).take(captures.len() as int) == unescape_all(
        views_of(captures@),
    ));
    out
}

/// The library paths that `contents` (a `libraryfolders.vdf`) lists: the
/// value of each `"path"` key, in order, with doubled backslashes made `/`.
pub fn vdf_library_paths(contents: &str) -> (r: Vec<String>)
    ensures
        views_of(r@) == vdf_library_paths_spec(contents@),
{
    let captures = regex_captures_iter(VDF_PATH_PATTERN, contents);
    library_paths_from_captures(&captures)
}

} // verus!

verus! {

/// Where Steam keeps its root below the home directory `home`: native Steam
/// (three places) and Flatpak Steam.
pub open spec fn steam_roots_spec(home: Seq<char>) -> Seq<Seq<char>> {
    seq![
        join(home, ".local/share/Steam"@),
        join(home, ".steam/steam"@),
        join(home, ".steam/root"@),
        join(home, ".var/app/com.valvesoftware.Steam/.local/share/Steam"@),
    ]
}

/// The candidate Steam roots below the home directory `home`.
pub fn steam_roots(home: &str) -> (r: Vec<String>)
    ensures
        views_of(r@) == steam_roots_spec(home@),
{
    let mut out: Vec<String> = Vec::new();
    out.push(join_path(home, ".local/share/Steam"));
    out.push(join_path(home, ".steam/steam"));
    out.push(join_path(home, ".steam/root"));
    out.push(join_path(home, ".var/app/com.valvesoftware.Steam/.local/share/Steam"));
    assert(views_of(out@) == steam_roots_spec(home@));
    out
}

/// The file below a Steam root that lists its further libraries.
pub fn library_folders_file(root: &str) -> (r: String)
    ensures
        r@ == join(root@, "steamapps/libraryfolders.vdf"@),
{
    join_path(root, "steamapps/libraryfolders.vdf")
}

/// Where the game would be installed in the Steam library `lib`.
pub fn game_candidate(lib: &str) -> (r: String)
    ensures
        r@ == join(lib@, "steamapps/common/Helldivers 2"@),
{
    join_path(lib, "steamapps/common/Helldivers 2")
}

/// The directory whose presence shows that `candidate` holds the game.
pub fn candidate_data_dir(candidate: &str) -> (r: String)
    ensures
        r@ == join(candidate@, "data"@),
{
    join_path(candidate, "data")
}

/// The libraries to search, given each existing Steam root with the contents
/// of its `libraryfolders.vdf` when that could be read: each root, followed by
/// the libraries its file lists.
pub open spec fn library_list_spec(roots: Seq<(Seq<char>, Option<Seq<char>>)>) -> Seq<Seq<char>>
    decreases roots.len(),
{
    if roots.len() == 0 {
        Seq::empty()
    } else {
        let (root, vdf) = roots.last();
        library_list_spec(roots.drop_last()) + seq![root] + match vdf {
            Some(c) => vdf_library_paths_spec(c),
            None => Seq::empty(),
        }
    }
}

pub open spec fn root_views(roots: Seq<(String, Option<String>)>) -> Seq<(Seq<char>, Option<Seq<char>>)> {
    roots.map_values(
        |p: (String, Option<String>)|
            (
                p.0@,
                match p.1 {
                    Some(c) => Some(c@),
                    None => None,
                },
            ),
    )
}

/// The libraries to search for the game, in order: each existing Steam root,
/// then every library its `libraryfolders.vdf` lists.
pub fn library_list(roots: &Vec<(String, Option<String>)>) -> (r: Vec<String>)
    ensures
        views_of(r@) == library_list_spec(root_views(roots@)),
{
    let ghost rv = root_views(roots@);
    let mut out: Vec<String> = Vec::new();
    let mut i: usize = 0;
    while i < roots.len()
        invariant
            rv == root_views(roots@),
            0 <= i <= roots.len(),
            views_of(out@) == library_list_spec(rv.take(i as int)),
        decreases roots.len() - i,
    {
        assert(rv.take(i + 1).drop_last() == rv.take(i as int));
        assert(rv.take(i + 1).last() == rv[i as int]);
        let ghost before = views_of(out@);
        out.push(roots[i].0.clone());
        assert(views_of(out@) == before + seq![roots@[i as int].0@]);
        match &roots[i].1 {
            Some(c) => {
                let ghost mid = views_of(out@);
                let mut more = vdf_library_paths(c.as_str());
                out.append(&mut more);
                assert(views_of(out@) == mid + vdf_library_paths_spec(c@));
            },
            None => {
                assert(views_of(out@) == before + seq![roots@[i as int].0@] + Seq::<
                    Seq<char>,
                >::empty());
            },
        }
        i = i + 1;
    }
    assert(rv.take(roots.len() as int) == rv);
    out
}

} // verus!

verus! {

/// The game directory found among the candidate directories `candidates`,
/// given whether each holds a `data` directory: the first candidate that does,
/// in order, or `None` when none does.
pub fn first_installed(candidates: &Vec<String>, has_data: &Vec<bool>) -> (r: Option<String>)
    requires
        candidates.len() == has_data.len(),
    ensures
        match r {
            Some(c) => exists|i: int|
                0 <= i < has_data.len() && #[trigger] has_data@[i] && c@ == candidates@[i]@
                    && forall|j: int| 0 <= j < i ==> !#[trigger] has_data@[j],
            None => forall|j: int| 0 <= j < has_data.len() ==> !#[trigger] has_data@[j],
        },
{
    let mut i: usize = 0;
    while i < has_data.len()
        invariant
            candidates.len() == has_data.len(),
            0 <= i <= has_data.len(),
            forall|j: int| 0 <= j < i ==> !#[trigger] has_data@[j],
        decreases has_data.len() - i,
    {
        if has_data[i] {
            return Some(candidates[i].clone());
        }
        i = i + 1;
    }
    None
}

} // verus!
