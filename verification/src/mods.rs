//! Installed mods as deployment sees them, and which of their directories an
//! enabled mod contributes.

use vstd::prelude::*;
use crate::path::{join, join_path};
use crate::patch::views_of;
use crate::profile::Config;

verus! {

/// A legacy manifest: an optional list of alternative sub-directories.
pub struct LegacyManifest {
    pub options: Option<Vec<String>>,
}

/// A sub-option of a V1 option: the directories it includes.
pub struct V1SubOption {
    pub includes: Vec<String>,
}

/// An option of a V1 manifest: the directories it includes, and its
/// sub-options, one of which can be selected.
pub struct V1Option {
    pub includes: Option<Vec<String>>,
    pub sub_options: Option<Vec<V1SubOption>>,
}

/// A V1 manifest: an optional list of options that can be toggled.
pub struct V1Manifest {
    pub options: Option<Vec<V1Option>>,
}

/// A mod manifest, by version. Deployment does not read V2 manifests.
pub enum Manifest {
    Legacy(LegacyManifest),
    V1(V1Manifest),
    V2,
}

/// An installed mod: its identifier, its directory and its manifest.
pub struct ModInfo {
    pub guid: u128,
    pub directory: String,
    pub manifest: Manifest,
}

/// Why a mod cannot be deployed.
#[derive(Debug, PartialEq, Eq, Structural)]
pub enum CollectError {
    /// V2 manifest mods are not supported yet.
    V2Unsupported,
}

/// A mod's manifest and its configuration are of the same version.
pub open spec fn versions_match(m: Manifest, c: Config) -> bool {
    match (m, c) {
        (Manifest::Legacy(_), Config::Legacy { .. }) => true,
        (Manifest::V1(_), Config::V1 { .. }) => true,
        (Manifest::V2, Config::V2 { .. }) => true,
        _ => false,
    }
}

pub open spec fn joined(base: Seq<char>, incs: Seq<Seq<char>>) -> Seq<Seq<char>> {
    incs.map_values(|i: Seq<char>| join(base, i))
}

pub open spec fn opt_includes(inc: Option<Vec<String>>) -> Seq<Seq<char>> {
    match inc {
        Some(v) => views_of(v@),
        None => Seq::empty(),
    }
}

/// The sub-option selected for option `i`, if the option has sub-options and
/// the selection names one of them.
pub open spec fn selected_sub(opt: V1Option, i: int, selected: Seq<usize>) -> Option<V1SubOption> {
    match opt.sub_options {
        Some(subs) => if 0 <= i < selected.len() && selected[i] < subs.len() {
            Some(subs@[selected[i] as int])
        } else {
            None
        },
        None => None,
    }
}

/// The directories option `i` contributes: none unless toggled on; else its
/// includes, then those of its selected sub-option.
pub open spec fn v1_option_dirs(
    base: Seq<char>,
    opt: V1Option,
    i: int,
    toggled: Seq<bool>,
    selected: Seq<usize>,
) -> Seq<Seq<char>> {
    if !(0 <= i < toggled.len() && toggled[i]) {
        Seq::empty()
    } else {
        joined(base, opt_includes(opt.includes)) + match selected_sub(opt, i, selected) {
            Some(sub) => joined(base, views_of(sub.includes@)),
            None => Seq::empty(),
        }
    }
}

/// The directories the options `opts` contribute, option by option.
pub open spec fn v1_dirs(
    base: Seq<char>,
    opts: Seq<V1Option>,
    toggled: Seq<bool>,
    selected: Seq<usize>,
) -> Seq<Seq<char>>
    decreases opts.len(),
{
    if opts.len() == 0 {
        Seq::empty()
    } else {
        v1_dirs(base, opts.drop_last(), toggled, selected) + v1_option_dirs(
            base,
            opts.last(),
            opts.len() - 1,
            toggled,
            selected,
        )
    }
}

/// The directories whose patch files an enabled mod contributes.
pub open spec fn mod_dirs(m: ModInfo, c: Config) -> Result<Seq<Seq<char>>, CollectError> {
    let base = m.directory@;
    match (m.manifest, c) {
        (Manifest::Legacy(lm), Config::Legacy { selected, .. }) => match lm.options {
            Some(opts) => if selected < opts.len() {
                Ok(seq![join(base, opts@[selected as int]@)])
            } else {
                Ok(Seq::empty())
            },
            None => Ok(seq![base]),
        },
        (Manifest::V1(vm), Config::V1 { toggled, selected, .. }) => match vm.options {
            Some(opts) => Ok(v1_dirs(base, opts@, toggled@, selected@)),
            None => Ok(seq![base]),
        },
        _ => Err(CollectError::V2Unsupported),
    }
}

/// Whether `x` is one of the directories option `i` of `opts` names for
/// itself or through the sub-option that `selected` picks for it.
pub open spec fn names_include(opts: Seq<V1Option>, i: int, selected: Seq<usize>, x: Seq<char>) -> bool {
    ||| opts[i].includes matches Some(v) && views_of(v@).contains(x)
    ||| opts[i].sub_options matches Some(subs) && i < selected.len() && selected[i] < subs.len()
        && views_of(subs@[selected[i] as int].includes@).contains(x)
}

proof fn lemma_joined_contains(base: Seq<char>, incs: Seq<Seq<char>>, d: Seq<char>)
    ensures
        joined(base, incs).contains(d) <==> exists|x: Seq<char>|
            incs.contains(x) && d == #[trigger] join(base, x),
{
    if joined(base, incs).contains(d) {
        let k = choose|k: int| 0 <= k < joined(base, incs).len() && joined(base, incs)[k] == d;
        assert(incs.contains(incs[k]));
        assert(d == join(base, incs[k]));
    }
    if exists|x: Seq<char>| incs.contains(x) && d == #[trigger] join(base, x) {
        let x = choose|x: Seq<char>| incs.contains(x) && d == #[trigger] join(base, x);
        let k = choose|k: int| 0 <= k < incs.len() && incs[k] == x;
        assert(joined(base, incs)[k] == d);
    }
}

/// What a V1 mod contributes: a directory is among those of the toggled
/// options exactly when some toggled option names it, joined onto the mod's
/// directory, among its own includes or among those of its selected
/// sub-option. Selecting a sub-option keeps the option's own includes.
pub proof fn lemma_v1_dirs_contents(
    base: Seq<char>,
    opts: Seq<V1Option>,
    toggled: Seq<bool>,
    selected: Seq<usize>,
    d: Seq<char>,
)
    ensures
        v1_dirs(base, opts, toggled, selected).contains(d) <==> exists|i: int, x: Seq<char>|
            0 <= i < opts.len() && i < toggled.len() && toggled[i] && #[trigger] names_include(
                opts,
                i,
                selected,
                x,
            ) && d == join(base, x),
    decreases opts.len(),
{
    if opts.len() > 0 {
        let rest = opts.drop_last();
        let l = opts.len() - 1;
        let opt = opts.last();
        lemma_v1_dirs_contents(base, rest, toggled, selected, d);
        crate::text::lemma_concat_contains(
            v1_dirs(base, rest, toggled, selected),
            v1_option_dirs(base, opt, l, toggled, selected),
            d,
        );
        let own = joined(base, opt_includes(opt.includes));
        let sub = match selected_sub(opt, l, selected) {
            Some(s) => joined(base, views_of(s.includes@)),
            None => Seq::empty(),
        };
        crate::text::lemma_concat_contains(own, sub, d);
        lemma_joined_contains(base, opt_includes(opt.includes), d);
        if let Some(sb) = selected_sub(opt, l, selected) {
            lemma_joined_contains(base, views_of(sb.includes@), d);
        }
        let goal = exists|i: int, x: Seq<char>|
            0 <= i < opts.len() && i < toggled.len() && toggled[i] && #[trigger] names_include(
                opts,
                i,
                selected,
                x,
            ) && d == join(base, x);
        if v1_dirs(base, opts, toggled, selected).contains(d) {
            if v1_dirs(base, rest, toggled, selected).contains(d) {
                let (i, x) = choose|i: int, x: Seq<char>|
                    0 <= i < rest.len() && i < toggled.len() && toggled[i] && #[trigger] names_include(
                        rest,
                        i,
                        selected,
                        x,
                    ) && d == join(base, x);
                assert(rest[i] == opts[i]);
                assert(names_include(opts, i, selected, x));
            } else {
                assert(v1_option_dirs(base, opt, l, toggled, selected).contains(d));
                assert(l < toggled.len() && toggled[l]);
                assert(opts[l] == opt);
                if own.contains(d) {
                    let x = choose|x: Seq<char>|
                        opt_includes(opt.includes).contains(x) && d == join(base, x);
                    assert(names_include(opts, l, selected, x));
                } else {
                    let sb = selected_sub(opt, l, selected)->0;
                    let x = choose|x: Seq<char>|
                        views_of(sb.includes@).contains(x) && d == join(base, x);
                    assert(names_include(opts, l, selected, x));
                }
            }
            assert(goal);
        }
        if goal {
            let (i, x) = choose|i: int, x: Seq<char>|
                0 <= i < opts.len() && i < toggled.len() && toggled[i] && #[trigger] names_include(
                    opts,
                    i,
                    selected,
                    x,
                ) && d == join(base, x);
            if i < l {
                assert(rest[i] == opts[i]);
                assert(names_include(rest, i, selected, x));
                assert(v1_dirs(base, rest, toggled, selected).contains(d));
            } else {
                assert(opts[i] == opt);
                if opt.includes matches Some(v) && views_of(v@).contains(x) {
                    assert(opt_includes(opt.includes).contains(x));
                    assert(own.contains(d));
                } else {
                    let sb = selected_sub(opt, l, selected)->0;
                    assert(views_of(sb.includes@).contains(x));
                    assert(sub.contains(d));
                }
                assert(v1_option_dirs(base, opt, l, toggled, selected).contains(d));
            }
        }
    } else {
        assert(v1_dirs(base, opts, toggled, selected) == Seq::<Seq<char>>::empty());
    }
}

fn push_joined(out: &mut Vec<String>, base: &str, incs: &Vec<String>)
    ensures
        views_of(final(out)@) == views_of(old(out)@) + joined(base@, views_of(incs@)),
{
    let ghost start = views_of(out@);
    let mut i: usize = 0;
    while i < incs.len()
        invariant
            0 <= i <= incs.len(),
            views_of(out@) == start + joined(base@, views_of(incs@)).take(i as int),
        decreases incs.len() - i,
    {
        let ghost before = views_of(out@);
        out.push(join_path(base, incs[i].as_str()));
        assert(joined(base@, views_of(incs@)).take(i + 1) == joined(base@, views_of(incs@)).take(
            i as int,
        ).push(join(base@, incs@[i as int]@)));
        assert(views_of(out@) == before.push(join(base@, incs@[i as int]@)));
        i = i + 1;
    }
    assert(joined(base@, views_of(incs@)).take(incs.len() as int) == joined(
        base@,
        views_of(incs@),
    ));
}

/// The directories a V1 mod contributes for its toggled options and the
/// selected sub-option of each.
pub fn collect_v1_files(
    base: &str,
    opts: &Vec<V1Option>,
    toggled: &Vec<bool>,
    selected: &Vec<usize>,
) -> (r: Vec<String>)
    ensures
        views_of(r@) == v1_dirs(base@, opts@, toggled@, selected@),
{
    let mut out: Vec<String> = Vec::new();
    let mut i: usize = 0;
    while i < opts.len()
        invariant
            0 <= i <= opts.len(),
            views_of(out@) == v1_dirs(base@, opts@.take(i as int), toggled@, selected@),
        decreases opts.len() - i,
    {
        let ghost before = views_of(out@);
        assert(opts@.take(i + 1).drop_last() == opts@.take(i as int));
        assert(opts@.take(i + 1).last() == opts@[i as int]);
        let opt = &opts[i];
        if i < toggled.len() && toggled[i] {
            match &opt.includes {
                Some(incs) => push_joined(&mut out, base, incs),
                None => {
                    assert(joined(base@, opt_includes(opt.includes)) == Seq::<Seq<char>>::empty());
                },
            }
            let ghost mid = views_of(out@);
            assert(mid == before + joined(base@, opt_includes(opt.includes)));
            match &opt.sub_options {
                Some(subs) => {
                    if i < selected.len() && selected[i] < subs.len() {
                        push_joined(&mut out, base, &subs[selected[i]].includes);
                    }
                },
                None => {},
            }
            assert(views_of(out@) == before + v1_option_dirs(
                base@,
                *opt,
                i as int,
                toggled@,
                selected@,
            ));
        }
        i = i + 1;
    }
    assert(opts@.take(opts.len() as int) == opts@);
    out
}

/// The directories whose patch files the enabled mod `m`, configured by `c`,
/// contributes to a deployment: for a legacy manifest, the selected option's
/// directory (or the mod directory when there are no options); for a V1
/// manifest, the directories of the toggled options (or the mod directory).
/// V2 manifests are not supported yet.
pub fn collect_mod_files(m: &ModInfo, c: &Config) -> (r: Result<Vec<String>, CollectError>)
    requires
        versions_match(m.manifest, *c),
    ensures
        match (r, mod_dirs(*m, *c)) {
            (Ok(v), Ok(s)) => views_of(v@) == s,
            (Err(e1), Err(e2)) => e1 == e2,
            _ => false,
        },
{
    let base = m.directory.as_str();
    match (&m.manifest, c) {
        (Manifest::Legacy(lm), Config::Legacy { selected, .. }) => {
            match &lm.options {
                Some(opts) => {
                    let mut out: Vec<String> = Vec::new();
                    if *selected < opts.len() {
                        out.push(join_path(base, opts[*selected].as_str()));
                        assert(views_of(out@) == seq![join(base@, opts@[*selected as int]@)]);
                    } else {
                        assert(views_of(out@) == Seq::<Seq<char>>::empty());
                    }
                    Ok(out)
                },
                None => {
                    let mut out: Vec<String> = Vec::new();
                    out.push(m.directory.clone());
                    assert(views_of(out@) == seq![base@]);
                    Ok(out)
                },
            }
        },
        (Manifest::V1(vm), Config::V1 { toggled, selected, .. }) => {
            match &vm.options {
                Some(opts) => Ok(collect_v1_files(base, opts, toggled, selected)),
                None => {
                    let mut out: Vec<String> = Vec::new();
                    out.push(m.directory.clone());
                    assert(views_of(out@) == seq![base@]);
                    Ok(out)
                },
            }
        },
        _ => Err(CollectError::V2Unsupported),
    }
}

/// The last position in `guids` holding `g`: later mods with the same
/// identifier shadow earlier ones.
pub open spec fn last_index_of(guids: Seq<u128>, g: u128) -> Option<int>
    decreases guids.len(),
{
    if guids.len() == 0 {
        None
    } else if guids.last() == g {
        Some(guids.len() - 1)
    } else {
        last_index_of(guids.drop_last(), g)
    }
}

pub open spec fn mod_guids(mods: Seq<ModInfo>) -> Seq<u128> {
    mods.map_values(|m: ModInfo| m.guid)
}

/// The (mod, configuration) pairs a deployment works on: each configuration,
/// in order, with the installed mod it names; configurations naming no
/// installed mod are dropped.
pub open spec fn selection(guids: Seq<u128>, configs: Seq<Config>) -> Seq<(int, int)>
    decreases configs.len(),
{
    if configs.len() == 0 {
        Seq::empty()
    } else {
        let rest = selection(guids, configs.drop_last());
        match last_index_of(guids, configs.last().spec_guid()) {
            Some(m) => rest.push((m, configs.len() - 1)),
            None => rest,
        }
    }
}

fn last_index_exec(mods: &Vec<ModInfo>, g: u128) -> (r: Option<usize>)
    ensures
        match r {
            Some(i) => last_index_of(mod_guids(mods@), g) == Some(i as int),
            None => last_index_of(mod_guids(mods@), g) is None,
        },
{
    let ghost gs = mod_guids(mods@);
    let mut i: usize = mods.len();
    assert(gs.take(i as int) == gs);
    while i > 0
        invariant
            gs == mod_guids(mods@),
            0 <= i <= mods.len(),
            last_index_of(gs, g) == last_index_of(gs.take(i as int), g),
        decreases i,
    {
        assert(gs.take(i as int).last() == mods@[i - 1].guid);
        if mods[i - 1].guid == g {
            return Some(i - 1);
        }
        assert(gs.take(i as int).drop_last() == gs.take(i - 1));
        i = i - 1;
    }
    None
}

/// The (mod position, configuration position) pairs a deployment works on:
/// each configuration in order, paired with the last installed mod whose
/// identifier it names; configurations naming no installed mod are dropped.
pub fn select_mods(mods: &Vec<ModInfo>, configs: &Vec<Config>) -> (r: Vec<(usize, usize)>)
    ensures
        r@.map_values(|p: (usize, usize)| (p.0 as int, p.1 as int)) == selection(
            mod_guids(mods@),
            configs@,
        ),
{
    let ghost gs = mod_guids(mods@);
    let mut out: Vec<(usize, usize)> = Vec::new();
    let mut c: usize = 0;
    while c < configs.len()
        invariant
            gs == mod_guids(mods@),
            0 <= c <= configs.len(),
            out@.map_values(|p: (usize, usize)| (p.0 as int, p.1 as int)) == selection(
                gs,
                configs@.take(c as int),
            ),
        decreases configs.len() - c,
    {
        assert(configs@.take(c + 1).drop_last() == configs@.take(c as int));
        assert(configs@.take(c + 1).last() == configs@[c as int]);
        let ghost before = out@.map_values(|p: (usize, usize)| (p.0 as int, p.1 as int));
        match last_index_exec(mods, configs[c].uuid()) {
            Some(m) => {
                out.push((m, c));
                assert(out@.map_values(|p: (usize, usize)| (p.0 as int, p.1 as int)) == before.push(
                    (m as int, c as int),
                ));
            },
            None => {},
        }
        c = c + 1;
    }
    assert(configs@.take(configs.len() as int) == configs@);
    out
}

} // verus!

verus! {

/// Where walking the selected mods leaves a deployment, with the directories
/// gathered so far: still going, stopped at a V2 mod, or stopped at a mod
/// whose manifest and configuration differ in version.
pub enum Gathered {
    Going(Seq<Seq<char>>),
    Unsupported(Seq<Seq<char>>),
    Mismatch(Seq<Seq<char>>),
}

/// The directories the selected pairs `sel` contribute, in order: disabled
/// configurations contribute nothing, and the first mod that cannot be
/// deployed stops the walk.
pub open spec fn gather(mods: Seq<ModInfo>, configs: Seq<Config>, sel: Seq<(int, int)>) -> Gathered
    decreases sel.len(),
{
    if sel.len() == 0 {
        Gathered::Going(Seq::empty())
    } else {
        match gather(mods, configs, sel.drop_last()) {
            Gathered::Going(ds) => {
                let (m, c) = sel.last();
                if !configs[c].spec_enabled() {
                    Gathered::Going(ds)
                } else if !versions_match(mods[m].manifest, configs[c]) {
                    Gathered::Mismatch(ds)
                } else {
                    match mod_dirs(mods[m], configs[c]) {
                        Ok(more) => Gathered::Going(ds + more),
                        Err(_) => Gathered::Unsupported(ds),
                    }
                }
            },
            other => other,
        }
    }
}

/// How the walk over the selected mods ended.
#[derive(Debug, PartialEq, Eq, Structural)]
pub enum DeployStop {
    /// Every selected mod was walked.
    Complete,
    /// A V2 mod stopped the walk: V2 manifests are not supported yet.
    Unsupported,
    /// A mod's manifest and its configuration differ in version.
    Mismatch,
}

/// What a deployment reads, decided before any file is touched.
pub struct DeploySources {
    /// Whether any configuration names an installed mod; when none does, a
    /// deployment only purges.
    pub any_selected: bool,
    /// The mod directories whose patch files are read, in order.
    pub dirs: Vec<String>,
    /// How the walk ended after `dirs`.
    pub stop: DeployStop,
}

/// Decides what a deployment of `configs` reads: the configurations that name
/// installed mods, in order; of those that are enabled, the directories their
/// manifests contribute, until a mod that cannot be deployed stops the walk.
pub fn deploy_sources(mods: &Vec<ModInfo>, configs: &Vec<Config>) -> (r: DeploySources)
    ensures
        r.any_selected == (selection(mod_guids(mods@), configs@).len() > 0),
        match gather(mods@, configs@, selection(mod_guids(mods@), configs@)) {
            Gathered::Going(ds) => r.stop == DeployStop::Complete && views_of(r.dirs@) == ds,
            Gathered::Unsupported(ds) => r.stop == DeployStop::Unsupported && views_of(r.dirs@)
                == ds,
            Gathered::Mismatch(ds) => r.stop == DeployStop::Mismatch && views_of(r.dirs@) == ds,
        },
{
    let sel = select_mods(mods, configs);
    let ghost sv = sel@.map_values(|p: (usize, usize)| (p.0 as int, p.1 as int));
    proof {
        lemma_selection_bounds(mod_guids(mods@), configs@);
    }
    let any_selected = sel.len() > 0;
    let mut dirs: Vec<String> = Vec::new();
    let mut i: usize = 0;
    assert(sv.take(0) =~= Seq::<(int, int)>::empty());
    assert(views_of(dirs@) =~= Seq::<Seq<char>>::empty());
    while i < sel.len()
        invariant
            sv == sel@.map_values(|p: (usize, usize)| (p.0 as int, p.1 as int)),
            sv == selection(mod_guids(mods@), configs@),
            forall|k: int|
                0 <= k < sv.len() ==> 0 <= (#[trigger] sv[k]).0 < mods.len() && 0 <= sv[k].1
                    < configs.len(),
            0 <= i <= sel.len(),
            any_selected == (sv.len() > 0),
            gather(mods@, configs@, sv.take(i as int)) == Gathered::Going(views_of(dirs@)),
        decreases sel.len() - i,
    {
        assert(sv.take(i + 1).drop_last() == sv.take(i as int));
        assert(sv.take(i + 1).last() == sv[i as int]);
        let (m, c) = sel[i];
        assert(sv[i as int] == (m as int, c as int));
        let config = &configs[c];
        let md = &mods[m];
        if config.enabled() {
            let same = match (&md.manifest, config) {
                (Manifest::Legacy(_), Config::Legacy { .. }) => true,
                (Manifest::V1(_), Config::V1 { .. }) => true,
                (Manifest::V2, Config::V2 { .. }) => true,
                _ => false,
            };
            if !same {
                proof {
                    lemma_gather_stays(mods@, configs@, sv, i + 1);
                }
                return DeploySources { any_selected, dirs, stop: DeployStop::Mismatch };
            }
            match collect_mod_files(md, config) {
                Ok(more) => {
                    let ghost before = dirs@;
                    let ghost added = more@;
                    let mut more = more;
                    dirs.append(&mut more);
                    assert(dirs@ == before + added);
                    assert(views_of(dirs@) =~= views_of(before) + views_of(added));
                },
                Err(_) => {
                    proof {
                        lemma_gather_stays(mods@, configs@, sv, i + 1);
                    }
                    return DeploySources { any_selected, dirs, stop: DeployStop::Unsupported };
                },
            }
        }
        i = i + 1;
    }
    assert(sv.take(sel.len() as int) == sv);
    DeploySources { any_selected, dirs, stop: DeployStop::Complete }
}

/// Once the walk has stopped, the rest of the selection changes nothing.
proof fn lemma_gather_stays(mods: Seq<ModInfo>, configs: Seq<Config>, sel: Seq<(int, int)>, n: int)
    requires
        0 <= n <= sel.len(),
        !(gather(mods, configs, sel.take(n)) is Going),
    ensures
        gather(mods, configs, sel) == gather(mods, configs, sel.take(n)),
    decreases sel.len() - n,
{
    if n < sel.len() {
        assert(sel.take(n + 1).drop_last() == sel.take(n));
        lemma_gather_stays(mods, configs, sel, n + 1);
    } else {
        assert(sel.take(n) == sel);
    }
}

proof fn lemma_selection_bounds(guids: Seq<u128>, configs: Seq<Config>)
    ensures
        forall|k: int|
            0 <= k < selection(guids, configs).len() ==> 0 <= (#[trigger] selection(
                guids,
                configs,
            )[k]).0 < guids.len() && 0 <= selection(guids, configs)[k].1 < configs.len(),
    decreases configs.len(),
{
    if configs.len() > 0 {
        let rest = selection(guids, configs.drop_last());
        lemma_selection_bounds(guids, configs.drop_last());
        lemma_last_index_bounds(guids, configs.last().spec_guid());
        assert forall|k: int| 0 <= k < rest.len() implies #[trigger] selection(guids, configs)[k]
            == rest[k] by {}
    }
}

proof fn lemma_last_index_bounds(guids: Seq<u128>, g: u128)
    ensures
        last_index_of(guids, g) matches Some(i) ==> 0 <= i < guids.len() && guids[i] == g,
    decreases guids.len(),
{
    if guids.len() > 0 && guids.last() != g {
        lemma_last_index_bounds(guids.drop_last(), g);
    }
}

} // verus!
