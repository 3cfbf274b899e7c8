//! Application settings: the game install path, the skip list, and the checks
//! that decide whether a game path is a Helldivers 2 install.

use vstd::prelude::*;
use vstd::utf8::{decode_utf8, encode_utf8, valid_utf8};
use crate::path::{join, join_path, has_root};

verus! {

/// The settings, by version.
pub enum Settings {
    V1 { game_path: String, skip_list: Vec<[u8; 16]> },
}

impl Settings {
    pub open spec fn spec_game_path(&self) -> Seq<char> {
        match self {
            Settings::V1 { game_path, .. } => game_path@,
        }
    }

    pub open spec fn spec_skip_list(&self) -> Seq<[u8; 16]> {
        match self {
            Settings::V1 { skip_list, .. } => skip_list@,
        }
    }

    /// Whether the skip list holds the UTF-8 encoding of `s`.
    pub open spec fn skips(&self, s: Seq<char>) -> bool {
        exists|i: int|
            0 <= i < self.spec_skip_list().len() && (#[trigger] self.spec_skip_list()[i])@
                == encode_utf8(s)
    }

    /// The settings used when none are saved: no game path and an empty skip
    /// list.
    pub fn default_v1() -> (r: Settings)
        ensures
            r.spec_game_path().len() == 0,
            r.spec_skip_list().len() == 0,
    {
        Settings::V1 { game_path: String::new(), skip_list: Vec::new() }
    }

    /// The game install path.
    pub fn game_path(&self) -> (r: &str)
        ensures
            r@ == self.spec_game_path(),
    {
        match self {
            Settings::V1 { game_path, .. } => game_path.as_str(),
        }
    }

    /// Whether the skip list holds an entry that reads, as UTF-8, as `s`.
    pub fn has_skip_entry(&self, s: &str) -> (r: bool)
        ensures
            r == self.skips(s@),
    {
        let bytes = s.as_bytes();
        match self {
            Settings::V1 { skip_list, .. } => {
                let mut i: usize = 0;
                while i < skip_list.len()
                    invariant
                        0 <= i <= skip_list.len(),
                        bytes@ == encode_utf8(s@),
                        skip_list@ == self.spec_skip_list(),
                        forall|k: int| 0 <= k < i ==> (#[trigger] skip_list@[k])@ != encode_utf8(s@),
                    decreases skip_list.len() - i,
                {
                    let entry: &[u8; 16] = &skip_list[i];
                    if bytes.len() == 16 {
                        let mut j: usize = 0;
                        let mut same = true;
                        while j < 16
                            invariant
                                bytes@.len() == 16,
                                0 <= j <= 16,
                                same == (forall|m: int| 0 <= m < j ==> entry@[m] == bytes@[m]),
                            decreases 16 - j,
                        {
                            if entry[j] != bytes[j] {
                                same = false;
                            }
                            j = j + 1;
                        }
                        if same {
                            assert(entry@ =~= bytes@);
                            return true;
                        }
                    }
                    i = i + 1;
                }
                false
            },
        }
    }

    /// Checks the settings against what was found on disk at the game path:
    /// `Ok` when the game path has no problem, else the first problem.
    pub fn validate(&self, probe: &GamePathProbe) -> (r: Result<(), SettingsError>)
        ensures
            r is Ok <==> game_path_problems(self.spec_game_path(), *probe).len() == 0,
            r matches Err(SettingsError::InvalidGamePath(p)) ==> p == game_path_problems(
                self.spec_game_path(),
                *probe,
            )[0],
    {
        let problems = check_game_path(self.game_path(), probe);
        if problems.len() == 0 {
            Ok(())
        } else {
            Err(SettingsError::InvalidGamePath(problems[0]))
        }
    }
}

/// Why settings are invalid.
#[derive(Debug)]
pub enum SettingsError {
    InvalidGamePath(GamePathProblem),
}

/// One failed check of a candidate install directory.
#[derive(Clone, Copy, Debug, PartialEq, Eq, Structural)]
pub enum GamePathProblem {
    Empty,
    Exists,
    ToolsExists,
    DataExists,
    BinExists,
    ExeExists,
}

pub open spec fn problem_key(p: GamePathProblem) -> Seq<char> {
    match p {
        GamePathProblem::Empty => "empty"@,
        GamePathProblem::Exists => "exists"@,
        GamePathProblem::ToolsExists => "tools_exists"@,
        GamePathProblem::DataExists => "data_exists"@,
        GamePathProblem::BinExists => "bin_exists"@,
        GamePathProblem::ExeExists => "exe_exists"@,
    }
}

impl GamePathProblem {
    /// The stable key of the problem (the frontend's message key).
    pub fn key(&self) -> (r: &'static str)
        ensures
            r@ == problem_key(*self),
    {
        match self {
            GamePathProblem::Empty => "empty",
            GamePathProblem::Exists => "exists",
            GamePathProblem::ToolsExists => "tools_exists",
            GamePathProblem::DataExists => "data_exists",
            GamePathProblem::BinExists => "bin_exists",
            GamePathProblem::ExeExists => "exe_exists",
        }
    }
}

/// What exists on disk at and below a candidate install directory.
#[derive(Clone, Copy, Debug)]
pub struct GamePathProbe {
    /// The directory itself.
    pub exists: bool,
    /// `tools`
    pub tools: bool,
    /// `data`
    pub data: bool,
    /// `bin`
    pub bin: bool,
    /// `bin/helldivers2.exe`
    pub exe: bool,
}

/// The problems of a candidate install directory, in the order they are
/// checked. An empty path or a missing directory stops the checks; a missing
/// `bin` makes the executable unchecked.
pub open spec fn game_path_problems(path: Seq<char>, p: GamePathProbe) -> Seq<GamePathProblem> {
    if path.len() == 0 {
        seq![GamePathProblem::Empty]
    } else if !p.exists {
        seq![GamePathProblem::Exists]
    } else {
        (if !p.tools {
            seq![GamePathProblem::ToolsExists]
        } else {
            Seq::empty()
        }) + (if !p.data {
            seq![GamePathProblem::DataExists]
        } else {
            Seq::empty()
        }) + (if !p.bin {
            seq![GamePathProblem::BinExists]
        } else if !p.exe {
            seq![GamePathProblem::ExeExists]
        } else {
            Seq::empty()
        })
    }
}

/// Checks a candidate Helldivers 2 install directory, given what was found on
/// disk there. An empty result means the path is valid.
pub fn check_game_path(path: &str, probe: &GamePathProbe) -> (r: Vec<GamePathProblem>)
    ensures
        r@ == game_path_problems(path@, *probe),
{
    let mut errors: Vec<GamePathProblem> = Vec::new();
    if path.is_empty() {
        errors.push(GamePathProblem::Empty);
        return errors;
    }
    if !probe.exists {
        errors.push(GamePathProblem::Exists);
        return errors;
    }
    if !probe.tools {
        errors.push(GamePathProblem::ToolsExists);
    }
    if !probe.data {
        errors.push(GamePathProblem::DataExists);
    }
    if !probe.bin {
        errors.push(GamePathProblem::BinExists);
    } else if !probe.exe {
        errors.push(GamePathProblem::ExeExists);
    }
    assert(errors@ =~= game_path_problems(path@, *probe));
    errors
}

/// A directory is a game install exactly when the path is not empty and the
/// directory, `tools`, `data`, `bin` and `bin/helldivers2.exe` all exist.
pub proof fn lemma_install_detected_iff_all_present(path: Seq<char>, p: GamePathProbe)
    ensures
        game_path_problems(path, p).len() == 0 <==> (path.len() > 0 && p.exists && p.tools
            && p.data && p.bin && p.exe),
{
}

/// The checks of a game path are independent of one another. An empty path
/// is reported empty and nothing else; a missing directory is reported
/// missing and nothing else; otherwise each missing piece is reported exactly
/// when it is missing, whatever the others are: `tools`, `data`, `bin`, and
/// the executable whenever `bin` exists and it does not. No problem is
/// reported twice.
pub proof fn lemma_game_path_checks_independent(path: Seq<char>, p: GamePathProbe)
    ensures
        ({
            let r = game_path_problems(path, p);
            &&& r.contains(GamePathProblem::Empty) <==> path.len() == 0
            &&& r.contains(GamePathProblem::Exists) <==> path.len() > 0 && !p.exists
            &&& r.contains(GamePathProblem::ToolsExists) <==> path.len() > 0 && p.exists
                && !p.tools
            &&& r.contains(GamePathProblem::DataExists) <==> path.len() > 0 && p.exists
                && !p.data
            &&& r.contains(GamePathProblem::BinExists) <==> path.len() > 0 && p.exists && !p.bin
            &&& r.contains(GamePathProblem::ExeExists) <==> path.len() > 0 && p.exists && p.bin
                && !p.exe
            &&& r.no_duplicates()
        }),
{
    let r = game_path_problems(path, p);
    if path.len() == 0 {
        assert(r == seq![GamePathProblem::Empty]);
        assert(r[0] == GamePathProblem::Empty);
    } else if !p.exists {
        assert(r == seq![GamePathProblem::Exists]);
        assert(r[0] == GamePathProblem::Exists);
    } else {
        let t = if !p.tools {
            seq![GamePathProblem::ToolsExists]
        } else {
            Seq::empty()
        };
        let d = if !p.data {
            seq![GamePathProblem::DataExists]
        } else {
            Seq::empty()
        };
        let b = if !p.bin {
            seq![GamePathProblem::BinExists]
        } else if !p.exe {
            seq![GamePathProblem::ExeExists]
        } else {
            Seq::empty()
        };
        assert(r == t + d + b);
        assert(!p.tools ==> t[0] == GamePathProblem::ToolsExists);
        assert(!p.data ==> d[0] == GamePathProblem::DataExists);
        assert(!p.bin ==> b[0] == GamePathProblem::BinExists);
        assert(p.bin && !p.exe ==> b[0] == GamePathProblem::ExeExists);
        assert forall|x: GamePathProblem| #[trigger] r.contains(x) <==> t.contains(x) || d.contains(
            x,
        ) || b.contains(x) by {
            crate::text::lemma_concat_contains(t + d, b, x);
            crate::text::lemma_concat_contains(t, d, x);
        }
        assert forall|i: int, j: int| 0 <= i < j < r.len() implies r[i] != r[j] by {
            if i < t.len() {
                assert(r[i] == GamePathProblem::ToolsExists);
            } else if i < t.len() + d.len() {
                assert(r[i] == GamePathProblem::DataExists);
            }
            if j < t.len() + d.len() {
                assert(r[j] == GamePathProblem::DataExists);
            } else {
                assert(r[j] == b[j - t.len() - d.len()]);
            }
        }
    }
}

/// The skip list holds `s` exactly when one of its entries is valid UTF-8 and
/// reads as `s`: comparing bytes decides the same as decoding each entry.
pub proof fn lemma_skips_iff_an_entry_reads_as(settings: Settings, s: Seq<char>)
    ensures
        settings.skips(s) <==> exists|i: int|
            0 <= i < settings.spec_skip_list().len() && valid_utf8(
                (#[trigger] settings.spec_skip_list()[i])@,
            ) && decode_utf8(settings.spec_skip_list()[i]@) == s,
{
    broadcast use vstd::utf8::encode_utf8_valid_utf8, vstd::utf8::encode_utf8_decode_utf8;

    let l = settings.spec_skip_list();
    if settings.skips(s) {
        let i = choose|i: int| 0 <= i < l.len() && (#[trigger] l[i])@ == encode_utf8(s);
        assert(valid_utf8(l[i]@) && decode_utf8(l[i]@) == s);
    }
    if exists|i: int| 0 <= i < l.len() && valid_utf8((#[trigger] l[i])@) && decode_utf8(l[i]@) == s {
        let i = choose|i: int| 0 <= i < l.len() && valid_utf8((#[trigger] l[i])@) && decode_utf8(l[i]@) == s;
        vstd::utf8::decode_utf8_encode_utf8(l[i]@);
        assert(l[i]@ == encode_utf8(s));
    }
}

/// A skip-list entry made from a text reads back as that text: its bytes are
/// valid UTF-8, and no other text has the same bytes.
pub proof fn lemma_skip_entry_reads_back(entry: [u8; 16], s: Seq<char>, t: Seq<char>)
    requires
        entry@ == encode_utf8(s),
    ensures
        valid_utf8(entry@),
        encode_utf8(t) == entry@ ==> t == s,
{
    broadcast use vstd::utf8::encode_utf8_valid_utf8, vstd::utf8::encode_utf8_decode_utf8;

    if encode_utf8(t) == entry@ {
        assert(decode_utf8(encode_utf8(t)) == t);
        assert(decode_utf8(encode_utf8(s)) == s);
    }
}

/// The places whose existence decides whether a directory is an install.
pub struct InstallPaths {
    pub tools: String,
    pub data: String,
    pub bin: String,
    pub exe: String,
}

/// The paths to probe below the game path `path`.
pub fn install_paths(path: &str) -> (r: InstallPaths)
    ensures
        r.tools@ == join(path@, "tools"@),
        r.data@ == join(path@, "data"@),
        r.bin@ == join(path@, "bin"@),
        r.exe@ == join(join(path@, "bin"@), "helldivers2.exe"@),
{
    let bin = join_path(path, "bin");
    let exe = join_path(bin.as_str(), "helldivers2.exe");
    InstallPaths { tools: join_path(path, "tools"), data: join_path(path, "data"), bin, exe }
}

/// Trusted: `std::str::from_utf8`. It accepts exactly the valid UTF-8 byte
/// strings, and the string it returns is made of those bytes.
#[verifier::external_body]
fn str_from_utf8(v: &[u8]) -> (r: Option<&str>)
    ensures
        r is Some <==> valid_utf8(v@),
        r matches Some(s) ==> encode_utf8(s@) == v@,
{
    std::str::from_utf8(v).ok()
}

/// The text of a skip-list entry, when its bytes are valid UTF-8.
pub fn skip_entry_text(entry: &[u8; 16]) -> (r: Option<String>)
    ensures
        r is Some <==> valid_utf8(entry@),
        r matches Some(s) ==> encode_utf8(s@) == entry@,
{
    match str_from_utf8(entry.as_slice()) {
        Some(s) => Some(s.to_owned()),
        None => None,
    }
}

/// The skip-list entry whose bytes are those of `s`, when `s` is sixteen bytes
/// long.
pub fn skip_entry_from_str(s: &str) -> (r: Option<[u8; 16]>)
    ensures
        r is Some <==> encode_utf8(s@).len() == 16,
        r matches Some(a) ==> a@ == encode_utf8(s@),
{
    let b = s.as_bytes();
    if b.len() != 16 {
        return None;
    }
    let a: [u8; 16] = [
        b[0],
        b[1],
        b[2],
        b[3],
        b[4],
        b[5],
        b[6],
        b[7],
        b[8],
        b[9],
        b[10],
        b[11],
        b[12],
        b[13],
        b[14],
        b[15],
    ];
    assert(a@ =~= b@);
    Some(a)
}

} // verus!

verus! {

/// The per-user data directory: `$XDG_DATA_HOME/hd2mm` when that variable holds
/// an absolute path, else `$HOME/.local/share/hd2mm` (`./.local/share/hd2mm`
/// without a home).
pub open spec fn data_dir_spec(xdg: Option<Seq<char>>, home: Option<Seq<char>>) -> Seq<char> {
    let base = match xdg {
        Some(x) => if has_root(x) {
            x
        } else {
            join(join(home_or_dot(home), ".local"@), "share"@)
        },
        None => join(join(home_or_dot(home), ".local"@), "share"@),
    };
    join(base, "hd2mm"@)
}

pub open spec fn home_or_dot(home: Option<Seq<char>>) -> Seq<char> {
    match home {
        Some(h) => h,
        None => "."@,
    }
}

/// `<home>/.local/share`, with `.` standing for a missing home.
fn local_share(home: Option<&str>) -> (r: String)
    ensures
        r@ == join(
            join(
                home_or_dot(
                    match home {
                        Some(h) => Some(h@),
                        None => None,
                    },
                ),
                ".local"@,
            ),
            "share"@,
        ),
{
    let h = match home {
        Some(h) => h,
        None => ".",
    };
    let local = join_path(h, ".local");
    join_path(local.as_str(), "share")
}

/// The per-user, writable directory for logs, settings, mods and profiles,
/// from the values of `XDG_DATA_HOME` and `HOME`.
pub fn data_dir(xdg: Option<&str>, home: Option<&str>) -> (r: String)
    ensures
        r@ == data_dir_spec(
            match xdg {
                Some(x) => Some(x@),
                None => None,
            },
            match home {
                Some(h) => Some(h@),
                None => None,
            },
        ),
{
    let base = match xdg {
        Some(x) => {
            let cs = crate::text::chars_of(x);
            if cs.len() > 0 && cs[0] == '/' {
                String::from_str(x)
            } else {
                local_share(home)
            }
        },
        None => local_share(home),
    };
    join_path(base.as_str(), "hd2mm")
}

/// The file the settings are kept in, below the data directory `base`.
pub fn settings_file(base: &str) -> (r: String)
    ensures
        r@ == join(base@, "settings.json"@),
{
    join_path(base, "settings.json")
}

} // verus!
