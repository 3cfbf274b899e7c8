//! Patch files: which names the game loads from its `data` directory, how a
//! mod's patch files group into triplets, and which files a deployment writes.

use vstd::prelude::*;
use vstd::utf8::is_ascii_chars;
use crate::text::{
    is_ascii_digit, decimal, decimal_string, chars_of, string_of, char_views, chars_eq,
    contains_chars, take_chars, concat_chars, dedup,
};

verus! {

/// Pattern for the patch-file triplet names the game loads from its `data` dir.
pub const PATCH_PATTERN: &'static str = r"^[0-9a-f]{16}\.patch_\d+(?:\.gpu_resources|\.stream)?$";

pub open spec fn is_hex_lower(c: char) -> bool {
    ('0' <= c && c <= '9') || ('a' <= c && c <= 'f')
}

/// `.patch_`
pub open spec fn patch_infix() -> Seq<char> {
    seq!['.', 'p', 'a', 't', 'c', 'h', '_']
}

/// `.gpu_resources`
pub open spec fn gpu_suffix() -> Seq<char> {
    seq!['.', 'g', 'p', 'u', '_', 'r', 'e', 's', 'o', 'u', 'r', 'c', 'e', 's']
}

/// `.stream`
pub open spec fn stream_suffix() -> Seq<char> {
    seq!['.', 's', 't', 'r', 'e', 'a', 'm']
}

/// Sixteen lowercase hex digits.
pub open spec fn is_asset_name(n: Seq<char>) -> bool {
    n.len() == 16 && forall|i: int| 0 <= i < 16 ==> is_hex_lower(#[trigger] n[i])
}

/// Sixteen lowercase hex digits followed by `.patch_`.
pub open spec fn has_patch_prefix(s: Seq<char>) -> bool {
    s.len() >= 23 && is_asset_name(s.take(16)) && s.subrange(16, 23) == patch_infix()
}

/// The number of ASCII digits at the start of `t`.
pub open spec fn digit_run(t: Seq<char>) -> nat
    decreases t.len(),
{
    if t.len() > 0 && is_ascii_digit(t[0]) {
        1 + digit_run(t.drop_first())
    } else {
        0
    }
}

/// What the patch pattern accepts of an ASCII name: the prefix, one or more
/// digits, and then nothing, `.gpu_resources` or `.stream`.
pub open spec fn is_patch_name(s: Seq<char>) -> bool {
    &&& has_patch_prefix(s)
    &&& digit_run(s.skip(23)) >= 1
    &&& {
        let tail = s.skip(23).skip(digit_run(s.skip(23)) as int);
        tail.len() == 0 || tail == gpu_suffix() || tail == stream_suffix()
    }
}

/// What `regex::Regex::new(pattern)` then `is_match(haystack)` answers.
pub uninterp spec fn regex_is_match(pattern: Seq<char>, haystack: Seq<char>) -> bool;

/// Trusted: `regex::Regex::is_match` for the patch pattern, built with
/// `regex::Regex::new`. The pattern is a valid regex, so the build does not
/// fail. The answer is named; the regex syntax documentation shows that a
/// match starts with sixteen characters of `[0-9a-f]` and `.patch_`, and that on
/// an ASCII haystack, where `\d` is `[0-9]`, the pattern accepts exactly what
/// `is_patch_name` describes. Left unsaid: which non-ASCII digits (`\p{Nd}`)
/// `\d` accepts.
#[verifier::external_body]
fn regex_matches(pattern: &str, haystack: &str) -> (r: bool)
    requires
        pattern@ == PATCH_PATTERN@,
    ensures
        r == regex_is_match(pattern@, haystack@),
        r ==> has_patch_prefix(haystack@),
        is_ascii_chars(haystack@) ==> (r == is_patch_name(haystack@)),
{
    regex::Regex::new(pattern).unwrap().is_match(haystack)
}

/// Whether `name` is the name of a patch file that the game loads.
pub open spec fn matches_patch_pattern(name: Seq<char>) -> bool {
    regex_is_match(PATCH_PATTERN@, name)
}

/// Whether `name` matches the patch-file pattern.
pub fn is_patch_file_name(name: &str) -> (r: bool)
    ensures
        r == matches_patch_pattern(name@),
        r ==> has_patch_prefix(name@),
        is_ascii_chars(name@) ==> (r == is_patch_name(name@)),
{
    regex_matches(PATCH_PATTERN, name)
}

pub open spec fn views_of(v: Seq<String>) -> Seq<Seq<char>> {
    v.map_values(|s: String| s@)
}

/// The patch files among the names of a directory's regular files, in order.
pub open spec fn patch_files_spec(names: Seq<Seq<char>>) -> Seq<Seq<char>> {
    names.filter(|n: Seq<char>| matches_patch_pattern(n))
}

/// The patch files among `names` (the regular files of one directory), in
/// their order. Purging removes exactly these.
pub fn patch_files(names: &Vec<String>) -> (r: Vec<String>)
    ensures
        views_of(r@) == patch_files_spec(views_of(names@)),
        forall|i: int| 0 <= i < r.len() ==> has_patch_prefix(#[trigger] r@[i]@),
        forall|i: int|
            0 <= i < names.len() && is_ascii_chars(#[trigger] names@[i]@) ==> (views_of(
                r@,
            ).contains(names@[i]@) <==> is_patch_name(names@[i]@)),
{
    let mut out: Vec<String> = Vec::new();
    let ghost all = views_of(names@);
    let mut i: usize = 0;
    while i < names.len()
        invariant
            all == views_of(names@),
            0 <= i <= names.len(),
            views_of(out@) == patch_files_spec(all.take(i as int)),
            forall|j: int| 0 <= j < out.len() ==> has_patch_prefix(#[trigger] out@[j]@),
            forall|j: int|
                0 <= j < i && is_ascii_chars(#[trigger] names@[j]@) ==> (views_of(out@).contains(
                    names@[j]@,
                ) <==> is_patch_name(names@[j]@)),
            forall|j: int| 0 <= j < out.len() ==> all.take(i as int).contains(#[trigger] out@[j]@),
        decreases names.len() - i,
    {
        let ghost before = views_of(out@);
        assert(all.take(i + 1).drop_last() == all.take(i as int));
        reveal_with_fuel(Seq::filter, 1);
        if is_patch_file_name(names[i].as_str()) {
            out.push(names[i].clone());
            assert(views_of(out@) == before.push(names@[i as int]@));
        } else {
            assert(views_of(out@) == before);
        }
        assert forall|j: int|
            0 <= j < i + 1 && is_ascii_chars(#[trigger] names@[j]@) implies (views_of(
                out@,
            ).contains(names@[j]@) <==> is_patch_name(names@[j]@)) by {
            if j < i {
                if views_of(out@).contains(names@[j]@) && !before.contains(names@[j]@) {
                    // the name just added equals names[j]
                    assert(names@[j]@ == names@[i as int]@);
                }
                if before.contains(names@[j]@) {
                    let k = choose|k: int| 0 <= k < before.len() && before[k] == names@[j]@;
                    assert(views_of(out@)[k] == names@[j]@);
                }
            } else {
                if views_of(out@).contains(names@[j]@) && !is_patch_name(names@[j]@) {
                    let k = choose|k: int|
                        0 <= k < views_of(out@).len() && views_of(out@)[k] == names@[j]@;
                    if k < before.len() {
                        assert(all.take(i as int).contains(out@[k]@));
                        let m = choose|m: int|
                            0 <= m < i && all.take(i as int)[m] == out@[k]@;
                        assert(names@[m]@ == names@[j]@);
                    }
                }
                if is_patch_name(names@[j]@) {
                    assert(views_of(out@)[views_of(out@).len() - 1] == names@[j]@);
                }
            }
        }
        assert forall|j: int| 0 <= j < out.len() implies all.take(i + 1).contains(
            #[trigger] out@[j]@,
        ) by {
            if j < before.len() {
                assert(all.take(i as int).contains(out@[j]@));
                let m = choose|m: int| 0 <= m < i && all.take(i as int)[m] == out@[j]@;
                assert(all.take(i + 1)[m] == out@[j]@);
            } else {
                assert(all.take(i + 1)[i as int] == out@[j]@);
            }
        }
        i = i + 1;
    }
    assert(all.take(names.len() as int) == all);
    out
}

} // verus!

verus! {

/// The value of a string of ASCII digits.
pub open spec fn digits_value(t: Seq<char>) -> nat
    decreases t.len(),
{
    if t.len() == 0 {
        0
    } else {
        digits_value(t.drop_last()) * 10 + ((t.last() as int) - 48) as nat
    }
}

pub open spec fn all_ascii_digits(t: Seq<char>) -> bool {
    forall|i: int| 0 <= i < t.len() ==> is_ascii_digit(#[trigger] t[i])
}

/// `t.parse::<u32>()`: an optional `+`, then one or more ASCII digits whose
/// value fits in a `u32`.
pub open spec fn parse_u32_spec(t: Seq<char>) -> Option<u32> {
    let d = if t.len() > 0 && t[0] == '+' {
        t.drop_first()
    } else {
        t
    };
    if d.len() > 0 && all_ascii_digits(d) && digits_value(d) <= u32::MAX {
        Some(digits_value(d) as u32)
    } else {
        None
    }
}

/// Pattern for the index of a patch file name.
pub const INDEX_PATTERN: &'static str = r"\.patch_(\d+)";

/// What `regex::Regex::new(pattern)` then `captures(haystack)` gives as the
/// text of capture group 1 of the first match, if there is a match.
pub uninterp spec fn regex_first_capture(pattern: Seq<char>, haystack: Seq<char>) -> Option<
    Seq<char>,
>;

/// The digits after `.patch_` in a patch file name.
pub open spec fn patch_digits(s: Seq<char>) -> Seq<char> {
    s.subrange(23, 23 + digit_run(s.skip(23)) as int)
}

/// Trusted: `regex::Regex::captures` for the index pattern, built with
/// `regex::Regex::new`, and the text of capture group 1. The pattern is a
/// valid regex, so the build does not fail, and its group 1 takes part in
/// every match. The answer is named; on an ASCII patch file name, where
/// the leftmost match starts at the first `.` (after the sixteen hex digits)
/// and `\d+` takes every digit that follows `.patch_`, group 1 is those
/// digits.
#[verifier::external_body]
fn regex_capture(pattern: &str, haystack: &str) -> (r: Option<String>)
    requires
        pattern@ == INDEX_PATTERN@,
    ensures
        match r {
            Some(c) => regex_first_capture(pattern@, haystack@) == Some(c@),
            None => regex_first_capture(pattern@, haystack@) is None,
        },
        is_ascii_chars(haystack@) && is_patch_name(haystack@) ==> r is Some && r->0@ == patch_digits(haystack@),
{
    regex::Regex::new(pattern).unwrap().captures(haystack).map(|c| c[1].to_string())
}

/// The index of a patch file, as `\.patch_(\d+)` captures it and
/// `parse::<u32>` reads it: on an ASCII patch file name, the digits after
/// `.patch_`; on any other name, what the pattern captures.
pub open spec fn patch_index(s: Seq<char>) -> Option<u32> {
    if is_ascii_chars(s) && is_patch_name(s) {
        parse_u32_spec(patch_digits(s))
    } else {
        match regex_first_capture(INDEX_PATTERN@, s) {
            Some(c) => parse_u32_spec(c),
            None => None,
        }
    }
}

proof fn lemma_digits_value_mono(t: Seq<char>, k: int)
    requires
        0 <= k <= t.len(),
        all_ascii_digits(t),
    ensures
        digits_value(t.take(k)) <= digits_value(t),
    decreases t.len(),
{
    if k < t.len() {
        assert(t.drop_last().take(k) == t.take(k));
        lemma_digits_value_mono(t.drop_last(), k);
    } else {
        assert(t.take(k) == t);
    }
}

/// `s.parse::<u32>()`.
pub fn parse_u32(s: &str) -> (r: Option<u32>)
    ensures
        r == parse_u32_spec(s@),
{
    let cs = chars_of(s);
    let n = cs.len();
    let start: usize = if n > 0 && cs[0] == '+' {
        1
    } else {
        0
    };
    let ghost digits = s@.skip(start as int);
    let ghost d = if s@.len() > 0 && s@[0] == '+' {
        s@.drop_first()
    } else {
        s@
    };
    assert(digits =~= d);
    if start == n {
        return None;
    }
    assert(digits.take(0) =~= Seq::<char>::empty());
    let mut value: u64 = 0;
    let mut i: usize = start;
    while i < n
        invariant
            cs@ == s@,
            n == cs.len(),
            start <= i <= n,
            start <= 1,
            digits == s@.skip(start as int),
            digits == d,
            d == (if s@.len() > 0 && s@[0] == '+' {
                s@.drop_first()
            } else {
                s@
            }),
            forall|m: int| 0 <= m < i - start ==> is_ascii_digit(#[trigger] digits[m]),
            value == digits_value(digits.take(i - start)),
            value <= u32::MAX,
        decreases n - i,
    {
        let c = cs[i];
        assert(digits[i - start] == c);
        if !('0' <= c && c <= '9') {
            assert(!all_ascii_digits(digits));
            return None;
        }
        let d: u64 = (c as u32 - 48) as u64;
        assert(digits.take(i + 1 - start).drop_last() == digits.take(i - start));
        let next = value * 10 + d;
        if next > 4294967295 {
            proof {
                assert(digits.take(i + 1 - start).last() == c);
                assert(digits_value(digits.take(i + 1 - start)) == next);
                if all_ascii_digits(digits) {
                    lemma_digits_value_mono(digits, i + 1 - start);
                }
            }
            return None;
        }
        value = next;
        i = i + 1;
    }
    assert(digits.take(n - start) == digits);
    Some(value as u32)
}

/// The index of the patch file `name`, as the pattern `\.patch_(\d+)` and
/// `parse::<u32>` read it off the name.
pub fn patch_index_of(name: &str) -> (r: Option<u32>)
    ensures
        r == patch_index(name@),
{
    match regex_capture(INDEX_PATTERN, name) {
        Some(c) => parse_u32(c.as_str()),
        None => None,
    }
}

} // verus!

verus! {

/// A file in a mod directory: the directory and the file's name in it.
pub struct SourceFile {
    pub dir: String,
    pub name: String,
}

impl View for SourceFile {
    type V = (Seq<char>, Seq<char>);

    open spec fn view(&self) -> (Seq<char>, Seq<char>) {
        (self.dir@, self.name@)
    }
}

pub open spec fn opt_source(o: Option<SourceFile>) -> Option<(Seq<char>, Seq<char>)> {
    match o {
        Some(f) => Some(f@),
        None => None,
    }
}

/// The three files of one patch of an asset: the patch itself, its GPU
/// resources and its stream. Each may be missing.
pub struct PatchFileTriplet {
    pub patch: Option<SourceFile>,
    pub gpu_resources: Option<SourceFile>,
    pub stream: Option<SourceFile>,
}

/// A triplet as a value.
pub struct TripletV {
    pub patch: Option<(Seq<char>, Seq<char>)>,
    pub gpu_resources: Option<(Seq<char>, Seq<char>)>,
    pub stream: Option<(Seq<char>, Seq<char>)>,
}

impl View for PatchFileTriplet {
    type V = TripletV;

    open spec fn view(&self) -> TripletV {
        TripletV {
            patch: opt_source(self.patch),
            gpu_resources: opt_source(self.gpu_resources),
            stream: opt_source(self.stream),
        }
    }
}

/// The first sixteen characters of each patch file name, once each, in order.
pub open spec fn asset_names(files: Seq<Seq<char>>) -> Seq<Seq<char>> {
    crate::text::dedup(files.map_values(|f: Seq<char>| f.take(16)))
}

/// The indices of the patch files of asset `n`, in order, with repeats.
pub open spec fn index_list(files: Seq<Seq<char>>, n: Seq<char>) -> Seq<u32>
    decreases files.len(),
{
    if files.len() == 0 {
        Seq::empty()
    } else {
        let rest = index_list(files.drop_last(), n);
        let f = files.last();
        if f.take(16) == n && patch_index(f) is Some {
            rest.push(patch_index(f)->0)
        } else {
            rest
        }
    }
}

/// The distinct indices of the patch files of asset `n`, in order.
pub open spec fn asset_indices(files: Seq<Seq<char>>, n: Seq<char>) -> Seq<u32> {
    crate::text::dedup(index_list(files, n))
}

/// `<n>.patch_<k><suffix>`
pub open spec fn patch_file_name(n: Seq<char>, k: nat, suffix: Seq<char>) -> Seq<char> {
    n + patch_infix() + decimal(k) + suffix
}

pub open spec fn find_file(dir: Seq<char>, files: Seq<Seq<char>>, target: Seq<char>) -> Option<
    (Seq<char>, Seq<char>),
> {
    if files.contains(target) {
        Some((dir, target))
    } else {
        None
    }
}

/// The triplet of asset `n`, index `k`, among the patch files of `dir`.
pub open spec fn triplet_spec(dir: Seq<char>, files: Seq<Seq<char>>, n: Seq<char>, k: u32) -> TripletV {
    TripletV {
        patch: find_file(dir, files, patch_file_name(n, k as nat, Seq::empty())),
        gpu_resources: find_file(dir, files, patch_file_name(n, k as nat, gpu_suffix())),
        stream: find_file(dir, files, patch_file_name(n, k as nat, stream_suffix())),
    }
}

/// The triplets that the patch files of `dir` contribute to asset `n`.
pub open spec fn new_triplets(dir: Seq<char>, files: Seq<Seq<char>>, n: Seq<char>) -> Seq<TripletV> {
    asset_indices(files, n).map_values(|k: u32| triplet_spec(dir, files, n, k))
}

/// The triplets grouped under `n` in `m`, or none.
pub open spec fn prior(m: Map<Seq<char>, Seq<TripletV>>, n: Seq<char>) -> Seq<TripletV> {
    if m.contains_key(n) {
        m[n]
    } else {
        Seq::empty()
    }
}

/// The groups after the patch files `files` of `dir` are added to `m`.
pub open spec fn add_dir_spec(
    m: Map<Seq<char>, Seq<TripletV>>,
    dir: Seq<char>,
    files: Seq<Seq<char>>,
) -> Map<Seq<char>, Seq<TripletV>> {
    Map::new(
        |n: Seq<char>| m.contains_key(n) || new_triplets(dir, files, n).len() > 0,
        |n: Seq<char>| prior(m, n) + new_triplets(dir, files, n),
    )
}

/// A group of triplets, keyed by asset name.
pub struct PatchGroup {
    pub name: String,
    pub triplets: Vec<PatchFileTriplet>,
}

pub open spec fn group_entry(g: PatchGroup) -> (Seq<char>, Seq<TripletV>) {
    (g.name@, g.triplets@.map_values(|t: PatchFileTriplet| t@))
}

pub open spec fn entries_wf(e: Seq<(Seq<char>, Seq<TripletV>)>) -> bool {
    &&& forall|i: int, j: int| 0 <= i < j < e.len() ==> #[trigger] e[i].0 != #[trigger] e[j].0
    &&& forall|i: int| 0 <= i < e.len() ==> is_asset_name(#[trigger] e[i].0)
}

pub open spec fn has_key(e: Seq<(Seq<char>, Seq<TripletV>)>, n: Seq<char>) -> bool {
    exists|j: int| 0 <= j < e.len() && #[trigger] e[j].0 == n
}

pub open spec fn entries_map(e: Seq<(Seq<char>, Seq<TripletV>)>) -> Map<Seq<char>, Seq<TripletV>> {
    Map::new(
        |n: Seq<char>| has_key(e, n),
        |n: Seq<char>| e[choose|j: int| 0 <= j < e.len() && #[trigger] e[j].0 == n].1,
    )
}

proof fn lemma_entries_map_at(e: Seq<(Seq<char>, Seq<TripletV>)>, j: int)
    requires
        entries_wf(e),
        0 <= j < e.len(),
    ensures
        entries_map(e).contains_key(e[j].0),
        entries_map(e)[e[j].0] == e[j].1,
{
    let n = e[j].0;
    assert(has_key(e, n));
    let k = choose|k: int| 0 <= k < e.len() && #[trigger] e[k].0 == n;
    if k != j {
        if k < j {
            assert(e[k].0 != e[j].0);
        } else {
            assert(e[j].0 != e[k].0);
        }
    }
}

proof fn lemma_entries_map_update(e: Seq<(Seq<char>, Seq<TripletV>)>, j: int, ts: Seq<TripletV>)
    requires
        entries_wf(e),
        0 <= j < e.len(),
    ensures
        entries_wf(e.update(j, (e[j].0, ts))),
        entries_map(e.update(j, (e[j].0, ts))) == entries_map(e).insert(e[j].0, ts),
{
    let e2 = e.update(j, (e[j].0, ts));
    assert forall|i: int, k: int| 0 <= i < k < e2.len() implies #[trigger] e2[i].0
        != #[trigger] e2[k].0 by {
        assert(e2[i].0 == e[i].0 && e2[k].0 == e[k].0);
    }
    assert forall|i: int| 0 <= i < e2.len() implies is_asset_name(#[trigger] e2[i].0) by {
        assert(e2[i].0 == e[i].0);
    }
    let m1 = entries_map(e2);
    let m2 = entries_map(e).insert(e[j].0, ts);
    assert forall|n: Seq<char>| m1.contains_key(n) <==> m2.contains_key(n) by {
        if has_key(e2, n) {
            let k = choose|k: int| 0 <= k < e2.len() && #[trigger] e2[k].0 == n;
            assert(e[k].0 == n);
        }
        if has_key(e, n) {
            let k = choose|k: int| 0 <= k < e.len() && #[trigger] e[k].0 == n;
            assert(e2[k].0 == n);
        }
        if n == e[j].0 {
            assert(e2[j].0 == n);
        }
    }
    assert forall|n: Seq<char>| m1.contains_key(n) implies m1[n] == m2[n] by {
        let k = choose|k: int| 0 <= k < e2.len() && #[trigger] e2[k].0 == n;
        lemma_entries_map_at(e2, k);
        if k == j {
        } else {
            lemma_entries_map_at(e, k);
            assert(e[k].0 != e[j].0) by {
                if k < j {
                } else {
                }
            }
        }
    }
    assert(m1 =~= m2);
}

proof fn lemma_entries_map_push(e: Seq<(Seq<char>, Seq<TripletV>)>, n: Seq<char>, ts: Seq<TripletV>)
    requires
        entries_wf(e),
        !has_key(e, n),
        is_asset_name(n),
    ensures
        entries_wf(e.push((n, ts))),
        entries_map(e.push((n, ts))) == entries_map(e).insert(n, ts),
{
    let e2 = e.push((n, ts));
    assert forall|i: int, k: int| 0 <= i < k < e2.len() implies #[trigger] e2[i].0
        != #[trigger] e2[k].0 by {
        if k == e.len() {
            assert(e[i].0 != n);
        } else {
            assert(e2[i].0 == e[i].0 && e2[k].0 == e[k].0);
        }
    }
    assert forall|i: int| 0 <= i < e2.len() implies is_asset_name(#[trigger] e2[i].0) by {
        if i < e.len() {
            assert(e2[i].0 == e[i].0);
        }
    }
    let m1 = entries_map(e2);
    let m2 = entries_map(e).insert(n, ts);
    assert forall|x: Seq<char>| m1.contains_key(x) <==> m2.contains_key(x) by {
        if has_key(e2, x) {
            let k = choose|k: int| 0 <= k < e2.len() && #[trigger] e2[k].0 == x;
            if k < e.len() {
                assert(e[k].0 == x);
            }
        }
        if has_key(e, x) {
            let k = choose|k: int| 0 <= k < e.len() && #[trigger] e[k].0 == x;
            assert(e2[k].0 == x);
        }
        if x == n {
            assert(e2[e.len() as int].0 == x);
        }
    }
    assert forall|x: Seq<char>| m1.contains_key(x) implies m1[x] == m2[x] by {
        let k = choose|k: int| 0 <= k < e2.len() && #[trigger] e2[k].0 == x;
        lemma_entries_map_at(e2, k);
        if k < e.len() {
            lemma_entries_map_at(e, k);
        }
    }
    assert(m1 =~= m2);
}

/// Patch triplets grouped by asset name; each name once.
pub struct PatchGroups {
    groups: Vec<PatchGroup>,
}

impl PatchGroups {
    /// The groups in the order they were formed.
    pub closed spec fn entries(&self) -> Seq<(Seq<char>, Seq<TripletV>)> {
        self.groups@.map_values(|g: PatchGroup| group_entry(g))
    }

    #[verifier::type_invariant]
    closed spec fn inv(&self) -> bool {
        entries_wf(self.entries())
    }

    /// No groups yet.
    pub fn new() -> (r: Self)
        ensures
            r@ == Map::<Seq<char>, Seq<TripletV>>::empty(),
            r.entries().len() == 0,
    {
        let r = PatchGroups { groups: Vec::new() };
        assert(r.entries().len() == 0);
        assert(entries_map(r.entries()) =~= Map::<Seq<char>, Seq<TripletV>>::empty());
        r
    }

    /// Appends `ts` to the group of `name`, forming the group if there is none.
    fn append(&mut self, name: String, ts: Vec<PatchFileTriplet>)
        requires
            is_asset_name(name@),
        ensures
            final(self)@ == old(self)@.insert(
                name@,
                prior(old(self)@, name@) + ts@.map_values(|t: PatchFileTriplet| t@),
            ),
    {
        proof {
            use_type_invariant(&*self);
        }
        let ghost e = self.entries();
        let ghost tv = ts@.map_values(|t: PatchFileTriplet| t@);
        let mut gs: Vec<PatchGroup> = Vec::new();
        std::mem::swap(&mut gs, &mut self.groups);
        assert(gs@.map_values(|g: PatchGroup| group_entry(g)) == e);
        let mut j: usize = 0;
        while j < gs.len()
            invariant
                e == gs@.map_values(|g: PatchGroup| group_entry(g)),
                0 <= j <= gs.len(),
                forall|k: int| 0 <= k < j ==> #[trigger] e[k].0 != name@,
            ensures
                e == gs@.map_values(|g: PatchGroup| group_entry(g)),
                0 <= j <= gs.len(),
                forall|k: int| 0 <= k < j ==> #[trigger] e[k].0 != name@,
                j < gs.len() ==> e[j as int].0 == name@,
            decreases gs.len() - j,
        {
            if gs[j].name == name {
                assert(e[j as int].0 == gs@[j as int].name@);
                break;
            }
            j = j + 1;
        }
        if j < gs.len() {
            assert(e[j as int].0 == name@);
            proof {
                lemma_entries_map_at(e, j as int);
                lemma_entries_map_update(e, j as int, e[j as int].1 + tv);
            }
            let mut g = gs.remove(j);
            let ghost old_ts = g.triplets@;
            let mut more = ts;
            g.triplets.append(&mut more);
            assert(g.triplets@.map_values(|t: PatchFileTriplet| t@) == old_ts.map_values(
                |t: PatchFileTriplet| t@,
            ) + tv);
            gs.insert(j, g);
            assert(gs@.map_values(|g: PatchGroup| group_entry(g)) == e.update(
                j as int,
                (e[j as int].0, e[j as int].1 + tv),
            ));
        } else {
            assert(!has_key(e, name@));
            proof {
                lemma_entries_map_push(e, name@, tv);
            }
            gs.push(PatchGroup { name, triplets: ts });
            assert(gs@.map_values(|g: PatchGroup| group_entry(g)) == e.push((name@, tv)));
            assert(prior(entries_map(e), name@) == Seq::<TripletV>::empty());
            assert(Seq::<TripletV>::empty() + tv == tv);
        }
        self.groups = gs;
    }
}

impl View for PatchGroups {
    type V = Map<Seq<char>, Seq<TripletV>>;

    closed spec fn view(&self) -> Map<Seq<char>, Seq<TripletV>> {
        entries_map(self.entries())
    }
}

} // verus!

verus! {

fn index_list_of(names: &Vec<String>, files: &Vec<Vec<char>>, n: &Vec<char>) -> (r: Vec<u32>)
    requires
        views_of(names@) == char_views(files@),
        forall|i: int| 0 <= i < files.len() ==> #[trigger] files@[i].len() >= 16,
        n.len() == 16,
    ensures
        r@ == index_list(char_views(files@), n@),
{
    let ghost fs = char_views(files@);
    assert(views_of(names@).len() == names.len() && char_views(files@).len() == files.len());
    let mut out: Vec<u32> = Vec::new();
    let mut i: usize = 0;
    while i < files.len()
        invariant
            fs == char_views(files@),
            views_of(names@) == fs,
            names.len() == files.len(),
            forall|m: int| 0 <= m < files.len() ==> #[trigger] files@[m].len() >= 16,
            n.len() == 16,
            0 <= i <= files.len(),
            out@ == index_list(fs.take(i as int), n@),
        decreases files.len() - i,
    {
        assert(fs.take(i + 1).drop_last() == fs.take(i as int));
        assert(fs.take(i + 1).last() == files@[i as int]@);
        let head = take_chars(&files[i], 16);
        if chars_eq(head.as_slice(), n.as_slice()) {
            assert(names@[i as int]@ == views_of(names@)[i as int]);
            match patch_index_of(names[i].as_str()) {
                Some(k) => {
                    out.push(k);
                },
                None => {},
            }
        }
        i = i + 1;
    }
    assert(fs.take(files.len() as int) == fs);
    out
}

fn contains_u32(v: &Vec<u32>, x: u32) -> (r: bool)
    ensures
        r == v@.contains(x),
{
    let mut i: usize = 0;
    while i < v.len()
        invariant
            0 <= i <= v.len(),
            forall|j: int| 0 <= j < i ==> v@[j] != x,
        decreases v.len() - i,
    {
        if v[i] == x {
            return true;
        }
        i = i + 1;
    }
    false
}

fn dedup_u32(v: &Vec<u32>) -> (r: Vec<u32>)
    ensures
        r@ == dedup(v@),
{
    let mut out: Vec<u32> = Vec::new();
    let mut i: usize = 0;
    while i < v.len()
        invariant
            0 <= i <= v.len(),
            out@ == dedup(v@.take(i as int)),
        decreases v.len() - i,
    {
        assert(v@.take(i + 1).drop_last() == v@.take(i as int));
        assert(v@.take(i + 1).last() == v@[i as int]);
        if !contains_u32(&out, v[i]) {
            out.push(v[i]);
        }
        i = i + 1;
    }
    assert(v@.take(v.len() as int) == v@);
    out
}

fn asset_names_of(files: &Vec<Vec<char>>) -> (r: Vec<Vec<char>>)
    requires
        forall|i: int| 0 <= i < files.len() ==> #[trigger] files@[i].len() >= 16,
    ensures
        char_views(r@) == asset_names(char_views(files@)),
        forall|i: int| 0 <= i < r.len() ==> #[trigger] r@[i].len() == 16,
{
    let ghost fs = char_views(files@);
    let ghost heads = fs.map_values(|f: Seq<char>| f.take(16));
    let mut out: Vec<Vec<char>> = Vec::new();
    let mut i: usize = 0;
    while i < files.len()
        invariant
            fs == char_views(files@),
            heads == fs.map_values(|f: Seq<char>| f.take(16)),
            forall|m: int| 0 <= m < files.len() ==> #[trigger] files@[m].len() >= 16,
            0 <= i <= files.len(),
            char_views(out@) == dedup(heads.take(i as int)),
            forall|m: int| 0 <= m < out.len() ==> #[trigger] out@[m].len() == 16,
        decreases files.len() - i,
    {
        assert(heads.take(i + 1).drop_last() == heads.take(i as int));
        assert(heads.take(i + 1).last() == files@[i as int]@.take(16));
        assert(files@[i as int].len() >= 16);
        let head = take_chars(&files[i], 16);
        assert(head@.len() == 16);
        if !contains_chars(&out, head.as_slice()) {
            let ghost before = char_views(out@);
            let ghost old_out = out@;
            out.push(head);
            assert(char_views(out@) == before.push(files@[i as int]@.take(16)));
            assert forall|m: int| 0 <= m < out.len() implies #[trigger] out@[m].len() == 16 by {
                if m < old_out.len() {
                    assert(out@[m] == old_out[m]);
                }
            }
        }
        i = i + 1;
    }
    assert(heads.take(files.len() as int) == heads);
    out
}

fn find_file_of(dir: &String, files: &Vec<Vec<char>>, target: &Vec<char>) -> (r: Option<SourceFile>)
    ensures
        opt_source(r) == find_file(dir@, char_views(files@), target@),
{
    if contains_chars(files, target.as_slice()) {
        Some(SourceFile { dir: dir.clone(), name: string_of(target.as_slice()) })
    } else {
        None
    }
}

fn triplet_of(dir: &String, files: &Vec<Vec<char>>, n: &Vec<char>, k: u32) -> (r: PatchFileTriplet)
    ensures
        r@ == triplet_spec(dir@, char_views(files@), n@, k),
{
    let infix: Vec<char> = vec!['.', 'p', 'a', 't', 'c', 'h', '_'];
    let gpu: Vec<char> = vec![
        '.',
        'g',
        'p',
        'u',
        '_',
        'r',
        'e',
        's',
        'o',
        'u',
        'r',
        'c',
        'e',
        's',
    ];
    let stream: Vec<char> = vec!['.', 's', 't', 'r', 'e', 'a', 'm'];
    let digits = chars_of(decimal_string(k as usize).as_str());
    let stem = concat_chars(&concat_chars(n, &infix), &digits);
    let patch_name = stem.clone();
    let gpu_name = concat_chars(&stem, &gpu);
    let stream_name = concat_chars(&stem, &stream);
    assert(patch_name@ == patch_file_name(n@, k as nat, Seq::empty()));
    assert(gpu_name@ == patch_file_name(n@, k as nat, gpu_suffix()));
    assert(stream_name@ == patch_file_name(n@, k as nat, stream_suffix()));
    PatchFileTriplet {
        patch: find_file_of(dir, files, &patch_name),
        gpu_resources: find_file_of(dir, files, &gpu_name),
        stream: find_file_of(dir, files, &stream_name),
    }
}

} // verus!

verus! {

/// The groups after adding the new triplets of the asset names in `done`.
pub open spec fn partial_add(
    m: Map<Seq<char>, Seq<TripletV>>,
    dir: Seq<char>,
    files: Seq<Seq<char>>,
    done: Seq<Seq<char>>,
) -> Map<Seq<char>, Seq<TripletV>> {
    Map::new(
        |n: Seq<char>| m.contains_key(n) || (done.contains(n) && new_triplets(dir, files, n).len() > 0),
        |n: Seq<char>|
            prior(m, n) + if done.contains(n) {
                new_triplets(dir, files, n)
            } else {
                Seq::empty()
            },
    )
}

proof fn lemma_partial_add_step(
    m: Map<Seq<char>, Seq<TripletV>>,
    dir: Seq<char>,
    files: Seq<Seq<char>>,
    done: Seq<Seq<char>>,
    n: Seq<char>,
)
    requires
        !done.contains(n),
    ensures
        new_triplets(dir, files, n).len() > 0 ==> partial_add(m, dir, files, done.push(n)) == partial_add(
            m,
            dir,
            files,
            done,
        ).insert(n, prior(partial_add(m, dir, files, done), n) + new_triplets(dir, files, n)),
        new_triplets(dir, files, n).len() == 0 ==> partial_add(m, dir, files, done.push(n))
            == partial_add(m, dir, files, done),
{
    let p0 = partial_add(m, dir, files, done);
    let p1 = partial_add(m, dir, files, done.push(n));
    assert forall|x: Seq<char>| done.push(n).contains(x) <==> (done.contains(x) || x == n) by {
        if done.push(n).contains(x) && x != n {
            let i = choose|i: int| 0 <= i < done.len() + 1 && done.push(n)[i] == x;
            assert(done[i] == x);
        }
        if done.contains(x) {
            let i = choose|i: int| 0 <= i < done.len() && done[i] == x;
            assert(done.push(n)[i] == x);
        }
        if x == n {
            assert(done.push(n)[done.len() as int] == x);
        }
    }
    assert(prior(p0, n) == prior(m, n)) by {
        if p0.contains_key(n) {
            assert(prior(m, n) + Seq::<TripletV>::empty() == prior(m, n));
        }
    }
    if new_triplets(dir, files, n).len() > 0 {
        assert(p1 =~= p0.insert(n, prior(p0, n) + new_triplets(dir, files, n)));
    } else {
        assert(new_triplets(dir, files, n) =~= Seq::<TripletV>::empty());
        assert(p1 =~= p0);
    }
}

proof fn lemma_index_list_has_head(files: Seq<Seq<char>>, n: Seq<char>)
    requires
        index_list(files, n).len() > 0,
    ensures
        files.map_values(|f: Seq<char>| f.take(16)).contains(n),
    decreases files.len(),
{
    let rest = files.drop_last();
    if index_list(rest, n).len() > 0 {
        lemma_index_list_has_head(rest, n);
        let hs = rest.map_values(|f: Seq<char>| f.take(16));
        let i = choose|i: int| 0 <= i < hs.len() && #[trigger] hs[i] == n;
        assert(files.map_values(|f: Seq<char>| f.take(16))[i] == n);
    } else {
        assert(files.last().take(16) == n);
        assert(files.map_values(|f: Seq<char>| f.take(16))[files.len() - 1] == n);
    }
}

/// Groups the patch files among `listing` (the names of the regular files of
/// `dir`) into triplets by asset name and index, and adds them to `groups`:
/// for each asset name, the distinct indices its files carry, in the order the
/// files come, each with whichever of its three files are present.
pub fn add_files_from_dir(dir: &str, listing: &Vec<String>, groups: &mut PatchGroups)
    ensures
        final(groups)@ == add_dir_spec(
            old(groups)@,
            dir@,
            patch_files_spec(views_of(listing@)),
        ),
{
    let ghost m0 = groups@;
    let pf = patch_files(listing);
    let ghost files = views_of(pf@);
    let mut fcs: Vec<Vec<char>> = Vec::new();
    let mut i: usize = 0;
    while i < pf.len()
        invariant
            files == views_of(pf@),
            0 <= i <= pf.len(),
            char_views(fcs@) == files.take(i as int),
            forall|j: int| 0 <= j < pf.len() ==> has_patch_prefix(#[trigger] pf@[j]@),
        decreases pf.len() - i,
    {
        let cs = chars_of(pf[i].as_str());
        fcs.push(cs);
        assert(files.take(i + 1) == files.take(i as int).push(pf@[i as int]@));
        i = i + 1;
    }
    assert(files.take(pf.len() as int) == files);
    assert forall|j: int| 0 <= j < fcs.len() implies #[trigger] fcs@[j].len() >= 16 by {
        assert(fcs@[j]@ == char_views(fcs@)[j]);
        assert(has_patch_prefix(pf@[j]@));
    }
    let names = asset_names_of(&fcs);
    let ghost nv = char_views(names@);
    let ghost heads = files.map_values(|f: Seq<char>| f.take(16));
    proof {
        crate::text::lemma_dedup_distinct(heads);
    }
    let dir_s = crate::text::string_of(chars_of(dir).as_slice());
    let mut a: usize = 0;
    while a < names.len()
        invariant
            files == char_views(fcs@),
            files == views_of(pf@),
            nv == char_views(names@),
            heads == files.map_values(|f: Seq<char>| f.take(16)),
            nv == dedup(heads),
            forall|i: int, j: int| 0 <= i < j < nv.len() ==> nv[i] != nv[j],
            forall|j: int| 0 <= j < fcs.len() ==> #[trigger] fcs@[j].len() >= 16,
            forall|j: int| 0 <= j < names.len() ==> #[trigger] names@[j].len() == 16,
            forall|j: int| 0 <= j < pf.len() ==> has_patch_prefix(#[trigger] pf@[j]@),
            dir_s@ == dir@,
            0 <= a <= names.len(),
            groups@ == partial_add(m0, dir@, files, nv.take(a as int)),
        decreases names.len() - a,
    {
        let n = &names[a];
        let ghost nn = n@;
        assert(nv[a as int] == nn);
        let idx = dedup_u32(&index_list_of(&pf, &fcs, n));
        let mut ts: Vec<PatchFileTriplet> = Vec::new();
        let mut b: usize = 0;
        while b < idx.len()
            invariant
                idx@ == asset_indices(files, nn),
                files == char_views(fcs@),
                n@ == nn,
                dir_s@ == dir@,
                0 <= b <= idx.len(),
                ts@.map_values(|t: PatchFileTriplet| t@) == idx@.take(b as int).map_values(
                    |k: u32| triplet_spec(dir@, files, nn, k),
                ),
            decreases idx.len() - b,
        {
            let t = triplet_of(&dir_s, &fcs, n, idx[b]);
            let ghost before = ts@.map_values(|t: PatchFileTriplet| t@);
            ts.push(t);
            assert(ts@.map_values(|t: PatchFileTriplet| t@) == before.push(
                triplet_spec(dir@, files, nn, idx@[b as int]),
            ));
            assert(idx@.take(b + 1) == idx@.take(b as int).push(idx@[b as int]));
            b = b + 1;
        }
        assert(idx@.take(idx.len() as int) == idx@);
        assert(ts@.map_values(|t: PatchFileTriplet| t@) == new_triplets(dir@, files, nn));
        assert(!nv.take(a as int).contains(nn)) by {
            if nv.take(a as int).contains(nn) {
                let i = choose|i: int| 0 <= i < a && nv.take(a as int)[i] == nn;
                assert(nv[i] == nv[a as int]);
            }
        }
        assert(nv.take(a + 1) == nv.take(a as int).push(nn));
        proof {
            lemma_partial_add_step(m0, dir@, files, nv.take(a as int), nn);
        }
        if ts.len() > 0 {
            proof {
                crate::text::lemma_dedup_contains(heads, nn);
                assert(nv.contains(nn)) by {
                    assert(nv[a as int] == nn);
                }
                let i = choose|i: int| 0 <= i < heads.len() && heads[i] == nn;
                assert(has_patch_prefix(pf@[i]@));
                assert(files[i] == pf@[i]@);
            }
            let name = crate::text::string_of(n.as_slice());
            groups.append(name, ts);
        }
        a = a + 1;
    }
    assert(nv.take(names.len() as int) == nv);
    assert forall|n: Seq<char>| !nv.contains(n) implies new_triplets(dir@, files, n).len() == 0 by {
        if new_triplets(dir@, files, n).len() > 0 {
            let k = asset_indices(files, n)[0];
            crate::text::lemma_dedup_contains(index_list(files, n), k);
            assert(asset_indices(files, n).contains(k));
            lemma_index_list_has_head(files, n);
            crate::text::lemma_dedup_contains(heads, n);
        }
    }
    assert(groups@ =~= add_dir_spec(m0, dir@, files));
}

} // verus!

verus! {

/// One file that a deployment writes into the game's `data` directory: a copy
/// of `source`, or an empty file when there is no source.
pub struct DeployAction {
    pub dest: String,
    pub source: Option<SourceFile>,
}

pub open spec fn action_view(a: DeployAction) -> (Seq<char>, Option<(Seq<char>, Seq<char>)>) {
    (a.dest@, opt_source(a.source))
}

pub open spec fn actions_view(v: Seq<DeployAction>) -> Seq<(Seq<char>, Option<(Seq<char>, Seq<char>)>)> {
    v.map_values(|a: DeployAction| action_view(a))
}

/// The three files written for triplet `t` of asset `n` at index `k`.
pub open spec fn triplet_actions(n: Seq<char>, k: nat, t: TripletV) -> Seq<
    (Seq<char>, Option<(Seq<char>, Seq<char>)>),
> {
    seq![
        (patch_file_name(n, k, Seq::empty()), t.patch),
        (patch_file_name(n, k, gpu_suffix()), t.gpu_resources),
        (patch_file_name(n, k, stream_suffix()), t.stream),
    ]
}

/// The files written for the triplets `ts` of asset `n`, numbered from `off`.
pub open spec fn group_actions(n: Seq<char>, ts: Seq<TripletV>, off: nat) -> Seq<
    (Seq<char>, Option<(Seq<char>, Seq<char>)>),
>
    decreases ts.len(),
{
    if ts.len() == 0 {
        Seq::empty()
    } else {
        group_actions(n, ts.drop_last(), off) + triplet_actions(
            n,
            (off + ts.len() - 1) as nat,
            ts.last(),
        )
    }
}

/// Where the numbering of an asset's triplets starts: 1 for an asset on the
/// skip list, else 0.
pub open spec fn skip_offset(settings: crate::settings::Settings, n: Seq<char>) -> nat {
    if settings.skips(n) {
        1
    } else {
        0
    }
}

/// The files written for all groups, group by group.
pub open spec fn plan_spec(
    e: Seq<(Seq<char>, Seq<TripletV>)>,
    settings: crate::settings::Settings,
) -> Seq<(Seq<char>, Option<(Seq<char>, Seq<char>)>)>
    decreases e.len(),
{
    if e.len() == 0 {
        Seq::empty()
    } else {
        plan_spec(e.drop_last(), settings) + group_actions(
            e.last().0,
            e.last().1,
            skip_offset(settings, e.last().0),
        )
    }
}

fn push_action(out: &mut Vec<DeployAction>, stem: &Vec<char>, suffix: &Vec<char>, source: &Option<SourceFile>)
    ensures
        actions_view(final(out)@) == actions_view(old(out)@).push(
            (stem@ + suffix@, opt_source(*source)),
        ),
{
    let dest = string_of(concat_chars(stem, suffix).as_slice());
    let src = match source {
        Some(f) => Some(SourceFile { dir: f.dir.clone(), name: f.name.clone() }),
        None => None,
    };
    let ghost before = actions_view(out@);
    out.push(DeployAction { dest, source: src });
    assert(actions_view(out@) == before.push((stem@ + suffix@, opt_source(*source))));
}

/// The files to write into the game's `data` directory for `groups`: for each
/// asset, its triplets in order, numbered from 1 when the asset is on the skip
/// list and from 0 otherwise, each as `<asset>.patch_<n>`,
/// `<asset>.patch_<n>.gpu_resources` and `<asset>.patch_<n>.stream`.
pub fn deploy_plan(settings: &crate::settings::Settings, groups: &PatchGroups) -> (r: Vec<DeployAction>)
    ensures
        actions_view(r@) == plan_spec(groups.entries(), *settings),
        entries_wf(groups.entries()),
        groups@ == entries_map(groups.entries()),
{
    proof {
        use_type_invariant(groups);
    }
    let ghost e = groups.entries();
    let infix: Vec<char> = vec!['.', 'p', 'a', 't', 'c', 'h', '_'];
    let gpu: Vec<char> = vec![
        '.',
        'g',
        'p',
        'u',
        '_',
        'r',
        'e',
        's',
        'o',
        'u',
        'r',
        'c',
        'e',
        's',
    ];
    let stream: Vec<char> = vec!['.', 's', 't', 'r', 'e', 'a', 'm'];
    let empty: Vec<char> = Vec::new();
    let mut out: Vec<DeployAction> = Vec::new();
    let mut g: usize = 0;
    while g < groups.groups.len()
        invariant
            e == groups.entries(),
            e == groups.groups@.map_values(|g: PatchGroup| group_entry(g)),
            infix@ == patch_infix(),
            gpu@ == gpu_suffix(),
            stream@ == stream_suffix(),
            empty@ == Seq::<char>::empty(),
            0 <= g <= groups.groups.len(),
            actions_view(out@) == plan_spec(e.take(g as int), *settings),
        decreases groups.groups.len() - g,
    {
        let group = &groups.groups[g];
        assert(e.take(g + 1).drop_last() == e.take(g as int));
        assert(e.take(g + 1).last() == group_entry(*group));
        let offset: usize = if settings.has_skip_entry(group.name.as_str()) {
            1
        } else {
            0
        };
        let name = chars_of(group.name.as_str());
        let ghost ts = group.triplets@.map_values(|t: PatchFileTriplet| t@);
        let ghost prefix = actions_view(out@);
        let mut i: usize = 0;
        while i < group.triplets.len()
            invariant
                ts == group.triplets@.map_values(|t: PatchFileTriplet| t@),
                name@ == group.name@,
                offset as nat == skip_offset(*settings, group.name@),
                infix@ == patch_infix(),
                gpu@ == gpu_suffix(),
                stream@ == stream_suffix(),
                empty@ == Seq::<char>::empty(),
                0 <= i <= group.triplets.len(),
                offset <= 1,
                actions_view(out@) == prefix + group_actions(name@, ts.take(i as int), offset as nat),
            decreases group.triplets.len() - i,
        {
            let t = &group.triplets[i];
            let index = i + offset;
            let digits = chars_of(decimal_string(index).as_str());
            let stem = concat_chars(&concat_chars(&name, &infix), &digits);
            let ghost before = actions_view(out@);
            push_action(&mut out, &stem, &empty, &t.patch);
            push_action(&mut out, &stem, &gpu, &t.gpu_resources);
            push_action(&mut out, &stem, &stream, &t.stream);
            proof {
                let k = (offset + i) as nat;
                assert(stem@ + empty@ == patch_file_name(name@, k, Seq::empty()));
                assert(stem@ + gpu@ == patch_file_name(name@, k, gpu_suffix()));
                assert(stem@ + stream@ == patch_file_name(name@, k, stream_suffix()));
                assert(ts.take(i + 1).drop_last() == ts.take(i as int));
                assert(ts.take(i + 1).last() == t@);
                assert(actions_view(out@) == before + triplet_actions(name@, k, t@));
            }
            i = i + 1;
        }
        assert(ts.take(group.triplets.len() as int) == ts);
        g = g + 1;
    }
    assert(e.take(groups.groups.len() as int) == e);
    out
}

} // verus!

verus! {

pub open spec fn is_triplet_suffix(s: Seq<char>) -> bool {
    s.len() == 0 || s == gpu_suffix() || s == stream_suffix()
}

proof fn lemma_decimal_digits(n: nat)
    ensures
        decimal(n).len() >= 1,
        all_ascii_digits(decimal(n)),
        n >= 10 ==> decimal(n).len() >= 2,
    decreases n,
{
    if n >= 10 {
        lemma_decimal_digits(n / 10);
        let d = decimal(n / 10);
        assert forall|i: int| 0 <= i < d.push(crate::text::digit_char(n % 10)).len() implies is_ascii_digit(
            #[trigger] d.push(crate::text::digit_char(n % 10))[i],
        ) by {
            if i < d.len() {
                assert(d.push(crate::text::digit_char(n % 10))[i] == d[i]);
            }
        }
    }
}

proof fn lemma_digit_char_injective(a: nat, b: nat)
    requires
        a < 10,
        b < 10,
        crate::text::digit_char(a) == crate::text::digit_char(b),
    ensures
        a == b,
{
    assert(crate::text::digit_char(a) as u32 == a + 48);
    assert(crate::text::digit_char(b) as u32 == b + 48);
}

proof fn lemma_decimal_injective(a: nat, b: nat)
    requires
        decimal(a) == decimal(b),
    ensures
        a == b,
    decreases a,
{
    lemma_decimal_digits(a);
    lemma_decimal_digits(b);
    if a < 10 && b < 10 {
        assert(decimal(a) == seq![crate::text::digit_char(a)]);
        assert(decimal(b) == seq![crate::text::digit_char(b)]);
        assert(decimal(a)[0] == decimal(b)[0]);
        assert(seq![crate::text::digit_char(a)][0] == crate::text::digit_char(a));
        assert(crate::text::digit_char(a) == crate::text::digit_char(b));
        lemma_digit_char_injective(a, b);
    } else if a >= 10 && b >= 10 {
        assert(decimal(a).drop_last() == decimal(a / 10));
        assert(decimal(b).drop_last() == decimal(b / 10));
        lemma_decimal_injective(a / 10, b / 10);
        assert(decimal(a).last() == crate::text::digit_char(a % 10));
        assert(decimal(b).last() == crate::text::digit_char(b % 10));
        lemma_digit_char_injective(a % 10, b % 10);
    }
}

proof fn lemma_digit_run_concat(d: Seq<char>, s: Seq<char>)
    requires
        all_ascii_digits(d),
        s.len() == 0 || !is_ascii_digit(s[0]),
    ensures
        digit_run(d + s) == d.len(),
    decreases d.len(),
{
    if d.len() > 0 {
        assert((d + s).drop_first() == d.drop_first() + s);
        assert((d + s)[0] == d[0]);
        lemma_digit_run_concat(d.drop_first(), s);
    } else {
        assert(d + s == s);
    }
}

proof fn lemma_patch_file_name_shape(n: Seq<char>, k: nat, s: Seq<char>)
    requires
        is_asset_name(n),
        is_triplet_suffix(s),
    ensures
        patch_file_name(n, k, s).take(16) == n,
        patch_file_name(n, k, s).subrange(16, 23) == patch_infix(),
        patch_file_name(n, k, s).skip(23) == decimal(k) + s,
        digit_run(decimal(k) + s) == decimal(k).len(),
        (decimal(k) + s).skip(decimal(k).len() as int) == s,
{
    let p = patch_file_name(n, k, s);
    assert(p == n + (patch_infix() + (decimal(k) + s)));
    assert(p.take(16) == n);
    assert(p.subrange(16, 23) == patch_infix());
    assert(p.skip(23) == decimal(k) + s);
    lemma_decimal_digits(k);
    if s.len() > 0 {
        assert(s[0] == '.');
    }
    lemma_digit_run_concat(decimal(k), s);
    assert((decimal(k) + s).skip(decimal(k).len() as int) == s);
}

proof fn lemma_patch_file_name_is_patch(n: Seq<char>, k: nat, s: Seq<char>)
    requires
        is_asset_name(n),
        is_triplet_suffix(s),
    ensures
        is_patch_name(patch_file_name(n, k, s)),
        is_ascii_chars(patch_file_name(n, k, s)),
{
    lemma_patch_file_name_shape(n, k, s);
    lemma_decimal_digits(k);
    let p = patch_file_name(n, k, s);
    assert forall|i: int| 0 <= i < p.len() implies '\0' <= #[trigger] p[i] <= '\u{7f}' by {
        if i < 16 {
            assert(p[i] == n[i]);
            assert(is_hex_lower(n[i]));
        } else if i < 23 {
            assert(p[i] == patch_infix()[i - 16]);
        } else if i < 23 + decimal(k).len() {
            assert(p[i] == decimal(k)[i - 23]);
            assert(is_ascii_digit(decimal(k)[i - 23]));
        } else {
            assert(p[i] == s[i - 23 - decimal(k).len()]);
        }
    }
}

proof fn lemma_patch_file_name_injective(
    n1: Seq<char>,
    k1: nat,
    s1: Seq<char>,
    n2: Seq<char>,
    k2: nat,
    s2: Seq<char>,
)
    requires
        is_asset_name(n1),
        is_asset_name(n2),
        is_triplet_suffix(s1),
        is_triplet_suffix(s2),
        patch_file_name(n1, k1, s1) == patch_file_name(n2, k2, s2),
    ensures
        n1 == n2,
        k1 == k2,
        s1 == s2,
{
    lemma_patch_file_name_shape(n1, k1, s1);
    lemma_patch_file_name_shape(n2, k2, s2);
    let t = decimal(k1) + s1;
    assert(t == decimal(k2) + s2);
    assert(decimal(k1).len() == decimal(k2).len());
    assert(decimal(k1) == t.take(decimal(k1).len() as int));
    assert(decimal(k2) == t.take(decimal(k2).len() as int));
    lemma_decimal_injective(k1, k2);
}

/// The destination `d` is a file of asset `n` with an index in `[lo, hi)`.
pub open spec fn is_dest_of(d: Seq<char>, n: Seq<char>, lo: nat, hi: nat) -> bool {
    exists|k: nat, s: Seq<char>|
        lo <= k < hi && is_triplet_suffix(s) && d == #[trigger] patch_file_name(n, k, s)
}

proof fn lemma_group_actions(n: Seq<char>, ts: Seq<TripletV>, off: nat)
    requires
        is_asset_name(n),
    ensures
        group_actions(n, ts, off).len() == 3 * ts.len(),
        forall|i: int|
            0 <= i < group_actions(n, ts, off).len() ==> is_dest_of(
                #[trigger] group_actions(n, ts, off)[i].0,
                n,
                off,
                off + ts.len(),
            ),
        forall|i: int, j: int|
            0 <= i < j < group_actions(n, ts, off).len() ==> #[trigger] group_actions(
                n,
                ts,
                off,
            )[i].0 != #[trigger] group_actions(n, ts, off)[j].0,
    decreases ts.len(),
{
    if ts.len() > 0 {
        let rest = ts.drop_last();
        lemma_group_actions(n, rest, off);
        let a = group_actions(n, rest, off);
        let k = (off + ts.len() - 1) as nat;
        let b = triplet_actions(n, k, ts.last());
        let g = group_actions(n, ts, off);
        assert(g == a + b);
        let e = Seq::<char>::empty();
        assert(is_triplet_suffix(e));
        assert(is_triplet_suffix(gpu_suffix()));
        assert(is_triplet_suffix(stream_suffix()));
        assert forall|i: int| 0 <= i < g.len() implies is_dest_of(
            #[trigger] g[i].0,
            n,
            off,
            off + ts.len(),
        ) by {
            if i < a.len() {
                assert(g[i] == a[i]);
                assert(is_dest_of(a[i].0, n, off, off + rest.len()));
                let (k0, s0) = choose|k0: nat, s0: Seq<char>|
                    off <= k0 < off + rest.len() && is_triplet_suffix(s0) && a[i].0
                        == #[trigger] patch_file_name(n, k0, s0);
                assert(g[i].0 == patch_file_name(n, k0, s0));
            } else if i == a.len() {
                assert(g[i].0 == patch_file_name(n, k, e));
            } else if i == a.len() + 1 {
                assert(g[i].0 == patch_file_name(n, k, gpu_suffix()));
            } else {
                assert(g[i].0 == patch_file_name(n, k, stream_suffix()));
            }
        }
        assert forall|i: int, j: int| 0 <= i < j < g.len() implies #[trigger] g[i].0
            != #[trigger] g[j].0 by {
            if j < a.len() {
                assert(g[i] == a[i] && g[j] == a[j]);
            } else {
                // g[j] is one of the new triplet's files, index k
                let sj = if j == a.len() {
                    e
                } else if j == a.len() + 1 {
                    gpu_suffix()
                } else {
                    stream_suffix()
                };
                assert(g[j].0 == patch_file_name(n, k, sj));
                if i < a.len() {
                    assert(g[i] == a[i]);
                    assert(is_dest_of(a[i].0, n, off, off + rest.len()));
                    let (k0, s0) = choose|k0: nat, s0: Seq<char>|
                        off <= k0 < off + rest.len() && is_triplet_suffix(s0) && a[i].0
                            == #[trigger] patch_file_name(n, k0, s0);
                    if g[i].0 == g[j].0 {
                        lemma_patch_file_name_injective(n, k0, s0, n, k, sj);
                    }
                } else {
                    let si = if i == a.len() {
                        e
                    } else {
                        gpu_suffix()
                    };
                    assert(g[i].0 == patch_file_name(n, k, si));
                    if g[i].0 == g[j].0 {
                        lemma_patch_file_name_injective(n, k, si, n, k, sj);
                        assert(e != gpu_suffix() && e != stream_suffix());
                        assert(gpu_suffix().len() != stream_suffix().len());
                    }
                }
            }
        }
    }
}

proof fn lemma_plan(e: Seq<(Seq<char>, Seq<TripletV>)>, settings: crate::settings::Settings)
    requires
        entries_wf(e),
    ensures
        forall|i: int|
            0 <= i < plan_spec(e, settings).len() ==> exists|g: int|
                0 <= g < e.len() && is_dest_of(
                    #[trigger] plan_spec(e, settings)[i].0,
                    e[g].0,
                    skip_offset(settings, e[g].0),
                    skip_offset(settings, e[g].0) + e[g].1.len(),
                ),
        forall|i: int, j: int|
            0 <= i < j < plan_spec(e, settings).len() ==> #[trigger] plan_spec(e, settings)[i].0
                != #[trigger] plan_spec(e, settings)[j].0,
    decreases e.len(),
{
    if e.len() > 0 {
        let rest = e.drop_last();
        assert(entries_wf(rest)) by {
            assert forall|i: int, j: int| 0 <= i < j < rest.len() implies #[trigger] rest[i].0
                != #[trigger] rest[j].0 by {
                assert(rest[i] == e[i] && rest[j] == e[j]);
            }
            assert forall|i: int| 0 <= i < rest.len() implies is_asset_name(#[trigger] rest[i].0) by {
                assert(rest[i] == e[i]);
            }
        }
        lemma_plan(rest, settings);
        let last = e.last();
        let gl = e.len() - 1;
        assert(last == e[gl]);
        assert(is_asset_name(last.0));
        let off = skip_offset(settings, last.0);
        lemma_group_actions(last.0, last.1, off);
        let a = plan_spec(rest, settings);
        let b = group_actions(last.0, last.1, off);
        let p = plan_spec(e, settings);
        assert(p == a + b);
        assert forall|i: int| 0 <= i < p.len() implies exists|g: int|
            0 <= g < e.len() && is_dest_of(
                #[trigger] p[i].0,
                e[g].0,
                skip_offset(settings, e[g].0),
                skip_offset(settings, e[g].0) + e[g].1.len(),
            ) by {
            if i < a.len() {
                assert(p[i] == a[i]);
                let g = choose|g: int|
                    0 <= g < rest.len() && is_dest_of(
                        #[trigger] a[i].0,
                        rest[g].0,
                        skip_offset(settings, rest[g].0),
                        skip_offset(settings, rest[g].0) + rest[g].1.len(),
                    );
                assert(rest[g] == e[g]);
            } else {
                assert(p[i] == b[i - a.len()]);
                assert(is_dest_of(b[i - a.len()].0, last.0, off, off + last.1.len()));
            }
        }
        assert forall|i: int, j: int| 0 <= i < j < p.len() implies #[trigger] p[i].0
            != #[trigger] p[j].0 by {
            if j < a.len() {
                assert(p[i] == a[i] && p[j] == a[j]);
            } else if i >= a.len() {
                assert(p[i] == b[i - a.len()] && p[j] == b[j - a.len()]);
            } else {
                assert(p[i] == a[i] && p[j] == b[j - a.len()]);
                let g = choose|g: int|
                    0 <= g < rest.len() && is_dest_of(
                        #[trigger] a[i].0,
                        rest[g].0,
                        skip_offset(settings, rest[g].0),
                        skip_offset(settings, rest[g].0) + rest[g].1.len(),
                    );
                let (k0, s0) = choose|k0: nat, s0: Seq<char>|
                    skip_offset(settings, rest[g].0) <= k0 < skip_offset(settings, rest[g].0)
                        + rest[g].1.len() && is_triplet_suffix(s0) && a[i].0
                        == #[trigger] patch_file_name(rest[g].0, k0, s0);
                assert(is_dest_of(b[j - a.len()].0, last.0, off, off + last.1.len()));
                let (k1, s1) = choose|k1: nat, s1: Seq<char>|
                    off <= k1 < off + last.1.len() && is_triplet_suffix(s1) && b[j - a.len()].0
                        == #[trigger] patch_file_name(last.0, k1, s1);
                assert(rest[g] == e[g]);
                assert(is_asset_name(e[g].0));
                assert(e[g].0 != e[gl].0);
                if p[i].0 == p[j].0 {
                    lemma_patch_file_name_injective(rest[g].0, k0, s0, last.0, k1, s1);
                }
            }
        }
    }
}

/// Deploy and purge agree: every file a deployment writes is named like a patch
/// file, in ASCII, so the next purge (which removes every ASCII name of that
/// shape, see `patch_files`) removes it again.
pub proof fn lemma_deployed_files_are_purged(
    e: Seq<(Seq<char>, Seq<TripletV>)>,
    settings: crate::settings::Settings,
)
    requires
        entries_wf(e),
    ensures
        forall|i: int|
            0 <= i < plan_spec(e, settings).len() ==> is_patch_name(
                #[trigger] plan_spec(e, settings)[i].0,
            ) && is_ascii_chars(plan_spec(e, settings)[i].0),
{
    lemma_plan(e, settings);
    assert forall|i: int| 0 <= i < plan_spec(e, settings).len() implies is_patch_name(
        #[trigger] plan_spec(e, settings)[i].0,
    ) && is_ascii_chars(plan_spec(e, settings)[i].0) by {
        let p = plan_spec(e, settings);
        let g = choose|g: int|
            0 <= g < e.len() && is_dest_of(
                #[trigger] p[i].0,
                e[g].0,
                skip_offset(settings, e[g].0),
                skip_offset(settings, e[g].0) + e[g].1.len(),
            );
        let (k, s) = choose|k: nat, s: Seq<char>|
            skip_offset(settings, e[g].0) <= k < skip_offset(settings, e[g].0) + e[g].1.len()
                && is_triplet_suffix(s) && p[i].0 == #[trigger] patch_file_name(e[g].0, k, s);
        lemma_patch_file_name_is_patch(e[g].0, k, s);
    }
}

/// A deployment writes each file once: no two planned files share a name.
pub proof fn lemma_deploy_writes_each_file_once(
    e: Seq<(Seq<char>, Seq<TripletV>)>,
    settings: crate::settings::Settings,
)
    requires
        entries_wf(e),
    ensures
        forall|i: int, j: int|
            0 <= i < j < plan_spec(e, settings).len() ==> #[trigger] plan_spec(e, settings)[i].0
                != #[trigger] plan_spec(e, settings)[j].0,
{
    lemma_plan(e, settings);
}

/// The skip list is honoured: for an asset on the skip list, a deployment
/// writes none of its index-0 files (`<asset>.patch_0`, `.gpu_resources`,
/// `.stream`).
pub proof fn lemma_skipped_assets_keep_index_zero(
    e: Seq<(Seq<char>, Seq<TripletV>)>,
    settings: crate::settings::Settings,
    n: Seq<char>,
    s: Seq<char>,
)
    requires
        entries_wf(e),
        settings.skips(n),
        is_asset_name(n),
        is_triplet_suffix(s),
    ensures
        forall|i: int|
            0 <= i < plan_spec(e, settings).len() ==> #[trigger] plan_spec(e, settings)[i].0
                != patch_file_name(n, 0, s),
{
    lemma_plan(e, settings);
    assert forall|i: int| 0 <= i < plan_spec(e, settings).len() implies #[trigger] plan_spec(
        e,
        settings,
    )[i].0 != patch_file_name(n, 0, s) by {
        let p = plan_spec(e, settings);
        let g = choose|g: int|
            0 <= g < e.len() && is_dest_of(
                #[trigger] p[i].0,
                e[g].0,
                skip_offset(settings, e[g].0),
                skip_offset(settings, e[g].0) + e[g].1.len(),
            );
        let (k, s0) = choose|k: nat, s0: Seq<char>|
            skip_offset(settings, e[g].0) <= k < skip_offset(settings, e[g].0) + e[g].1.len()
                && is_triplet_suffix(s0) && p[i].0 == #[trigger] patch_file_name(e[g].0, k, s0);
        if p[i].0 == patch_file_name(n, 0, s) {
            lemma_patch_file_name_injective(e[g].0, k, s0, n, 0, s);
        }
    }
}

} // verus!

verus! {

proof fn lemma_decimal_value(k: nat)
    ensures
        digits_value(decimal(k)) == k,
    decreases k,
{
    if k >= 10 {
        lemma_decimal_value(k / 10);
        let d = decimal(k / 10).push(crate::text::digit_char(k % 10));
        assert(d == decimal(k));
        assert(d.drop_last() == decimal(k / 10));
        assert(d.last() == crate::text::digit_char(k % 10));
        assert(crate::text::digit_char(k % 10) as u32 == k % 10 + 48);
        assert(digits_value(d) == digits_value(decimal(k / 10)) * 10 + (k % 10));
        assert((k / 10) * 10 + k % 10 == k) by (nonlinear_arith);
        assert(digits_value(d) == k);
    } else {
        let d = decimal(k);
        assert(d == seq![crate::text::digit_char(k)]);
        assert(crate::text::digit_char(k) as u32 == k + 48);
        assert(d.drop_last() == Seq::<char>::empty());
        assert(d.last() == crate::text::digit_char(k));
        assert((d.last() as int) == k + 48);
        assert(digits_value(d) == digits_value(d.drop_last()) * 10 + ((d.last() as int) - 48) as nat);
        assert(digits_value(d) == k);
    }
}

/// A file named for index `k` reads back as index `k`: the index that
/// grouping reads off `<asset>.patch_<k>` (and its `.gpu_resources` and
/// `.stream` files) is `k`.
pub proof fn lemma_index_of_patch_file_name(n: Seq<char>, k: nat, s: Seq<char>)
    requires
        is_asset_name(n),
        is_triplet_suffix(s),
        k <= u32::MAX,
    ensures
        patch_index(patch_file_name(n, k, s)) == Some(k as u32),
{
    let p = patch_file_name(n, k, s);
    lemma_patch_file_name_is_patch(n, k, s);
    lemma_patch_file_name_shape(n, k, s);
    lemma_decimal_digits(k);
    lemma_decimal_value(k);
    assert(patch_digits(p) == decimal(k)) by {
        assert(p.skip(23) == decimal(k) + s);
        assert forall|i: int| 0 <= i < decimal(k).len() implies patch_digits(p)[i] == decimal(
            k,
        )[i] by {
            assert(p.skip(23)[i] == p[23 + i]);
        }
    }
}

} // verus!

verus! {

proof fn lemma_group_actions_has(n: Seq<char>, ts: Seq<TripletV>, off: nat, j: int)
    requires
        0 <= j < ts.len(),
    ensures
        group_actions(n, ts, off).contains(triplet_actions(n, (off + j) as nat, ts[j])[0]),
        group_actions(n, ts, off).contains(triplet_actions(n, (off + j) as nat, ts[j])[1]),
        group_actions(n, ts, off).contains(triplet_actions(n, (off + j) as nat, ts[j])[2]),
    decreases ts.len(),
{
    let front = group_actions(n, ts.drop_last(), off);
    let last = triplet_actions(n, (off + ts.len() - 1) as nat, ts.last());
    let t = triplet_actions(n, (off + j) as nat, ts[j]);
    if j < ts.len() - 1 {
        lemma_group_actions_has(n, ts.drop_last(), off, j);
        assert(ts.drop_last()[j] == ts[j]);
        crate::text::lemma_concat_contains(front, last, t[0]);
        crate::text::lemma_concat_contains(front, last, t[1]);
        crate::text::lemma_concat_contains(front, last, t[2]);
    } else {
        assert(last == t);
        assert(last.contains(t[0]) && last.contains(t[1]) && last.contains(t[2])) by {
            assert(last[0] == t[0] && last[1] == t[1] && last[2] == t[2]);
        }
        crate::text::lemma_concat_contains(front, last, t[0]);
        crate::text::lemma_concat_contains(front, last, t[1]);
        crate::text::lemma_concat_contains(front, last, t[2]);
    }
}

/// How a deployment numbers an asset's triplets: the `j`-th triplet of asset
/// `n` is written as `n.patch_<j>` and its `.gpu_resources` and `.stream`
/// files, from that triplet's files, when `n` is not on the skip list, and as
/// `n.patch_<j + 1>` and so on when it is. Whether other assets are on the
/// skip list does not matter.
pub proof fn lemma_plan_numbers_from_skip_offset(
    e: Seq<(Seq<char>, Seq<TripletV>)>,
    settings: crate::settings::Settings,
    g: int,
    j: int,
)
    requires
        0 <= g < e.len(),
        0 <= j < e[g].1.len(),
    ensures
        ({
            let n = e[g].0;
            let t = e[g].1[j];
            let k = (j + if settings.skips(n) {
                1int
            } else {
                0int
            }) as nat;
            &&& plan_spec(e, settings).contains((patch_file_name(n, k, Seq::empty()), t.patch))
            &&& plan_spec(e, settings).contains(
                (patch_file_name(n, k, gpu_suffix()), t.gpu_resources),
            )
            &&& plan_spec(e, settings).contains((patch_file_name(n, k, stream_suffix()), t.stream))
        }),
    decreases e.len(),
{
    let rest = e.drop_last();
    let l = e.len() - 1;
    if g < l {
        assert(rest[g] == e[g]);
        lemma_plan_numbers_from_skip_offset(rest, settings, g, j);
        let n = e[g].0;
        let t = e[g].1[j];
        let k = (j + if settings.skips(n) {
            1int
        } else {
            0int
        }) as nat;
        let tail = group_actions(e.last().0, e.last().1, skip_offset(settings, e.last().0));
        crate::text::lemma_concat_contains(
            plan_spec(rest, settings),
            tail,
            (patch_file_name(n, k, Seq::empty()), t.patch),
        );
        crate::text::lemma_concat_contains(
            plan_spec(rest, settings),
            tail,
            (patch_file_name(n, k, gpu_suffix()), t.gpu_resources),
        );
        crate::text::lemma_concat_contains(
            plan_spec(rest, settings),
            tail,
            (patch_file_name(n, k, stream_suffix()), t.stream),
        );
    } else {
        let n = e[g].0;
        let ts = e[g].1;
        let off = skip_offset(settings, n);
        lemma_group_actions_has(n, ts, off, j);
        let t = triplet_actions(n, (off + j) as nat, ts[j]);
        crate::text::lemma_concat_contains(plan_spec(rest, settings), group_actions(n, ts, off), t[0]);
        crate::text::lemma_concat_contains(plan_spec(rest, settings), group_actions(n, ts, off), t[1]);
        crate::text::lemma_concat_contains(plan_spec(rest, settings), group_actions(n, ts, off), t[2]);
    }
}

} // verus!

verus! {

/// The indices that the patch files of asset `n` among `files` carry.
pub open spec fn file_indices(files: Seq<Seq<char>>, n: Seq<char>) -> Set<u32> {
    Set::new(
        |k: u32|
            exists|i: int|
                0 <= i < files.len() && (#[trigger] files[i]).take(16) == n && patch_index(files[i])
                    == Some(k),
    )
}

proof fn lemma_index_list_contains(files: Seq<Seq<char>>, n: Seq<char>, k: u32)
    ensures
        index_list(files, n).contains(k) <==> file_indices(files, n).contains(k),
    decreases files.len(),
{
    if files.len() > 0 {
        let rest = files.drop_last();
        let f = files.last();
        lemma_index_list_contains(rest, n, k);
        if index_list(files, n).contains(k) {
            if index_list(rest, n).contains(k) {
                let i = choose|i: int|
                    0 <= i < rest.len() && (#[trigger] rest[i]).take(16) == n && patch_index(rest[i])
                        == Some(k);
                assert(files[i] == rest[i]);
            } else {
                let r = index_list(rest, n);
                assert(f.take(16) == n && patch_index(f) is Some);
                let c = r.push(patch_index(f)->0);
                let q = choose|q: int| 0 <= q < c.len() && c[q] == k;
                assert(q == r.len());
                assert(files[files.len() - 1] == f);
            }
            assert(file_indices(files, n).contains(k));
        }
        if file_indices(files, n).contains(k) {
            let i = choose|i: int|
                0 <= i < files.len() && (#[trigger] files[i]).take(16) == n && patch_index(files[i])
                    == Some(k);
            if i < files.len() - 1 {
                assert(rest[i] == files[i]);
                assert(file_indices(rest, n).contains(k));
                let r = index_list(rest, n);
                let q = choose|q: int| 0 <= q < r.len() && r[q] == k;
                if f.take(16) == n && patch_index(f) is Some {
                    assert(r.push(patch_index(f)->0)[q] == k);
                }
            } else {
                let r = index_list(rest, n);
                assert(r.push(k)[r.len() as int] == k);
            }
            assert(index_list(files, n).contains(k));
        }
    }
}

/// Grouping makes one triplet per distinct index: adding the patch files of
/// a directory appends to the group of each asset `n` one triplet for each
/// index its files carry, no index twice, each triplet holding the files of
/// `n` named for that index; groups of assets without files there are kept.
pub proof fn lemma_one_triplet_per_index(
    m: Map<Seq<char>, Seq<TripletV>>,
    dir: Seq<char>,
    files: Seq<Seq<char>>,
    n: Seq<char>,
)
    ensures
        exists|ks: Seq<u32>|
            #![trigger ks.to_set()]
            ks.no_duplicates() && ks.to_set() == file_indices(files, n) && prior(
                add_dir_spec(m, dir, files),
                n,
            ) == prior(m, n) + ks.map_values(|k: u32| triplet_spec(dir, files, n, k)),
{
    let ks = asset_indices(files, n);
    crate::text::lemma_dedup_distinct(index_list(files, n));
    assert(ks.no_duplicates());
    assert forall|k: u32| #[trigger] ks.to_set().contains(k) <==> file_indices(
        files,
        n,
    ).contains(k) by {
        crate::text::lemma_dedup_contains(index_list(files, n), k);
        lemma_index_list_contains(files, n, k);
    }
    assert(ks.to_set() =~= file_indices(files, n));
    let m1 = add_dir_spec(m, dir, files);
    if !(m.contains_key(n) || new_triplets(dir, files, n).len() > 0) {
        assert(prior(m, n) + ks.map_values(|k: u32| triplet_spec(dir, files, n, k)) =~= Seq::<
            TripletV,
        >::empty());
    }
}

} // verus!
