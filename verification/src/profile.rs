//! Profiles: which mods are enabled, and with which options.

use vstd::prelude::*;

verus! {

/// The configuration of one mod in a profile, by manifest version. `guid`
/// identifies the mod (a UUID, as its 128-bit value).
#[allow(inconsistent_fields)]
pub enum Config {
    Legacy { guid: u128, enabled: bool, selected: usize },
    V1 { guid: u128, enabled: bool, toggled: Vec<bool>, selected: Vec<usize> },
    V2 { guid: u128, enabled: bool, toggled: Vec<bool>, selected: Vec<usize> },
}

impl Config {
    pub open spec fn spec_guid(&self) -> u128 {
        match self {
            Config::Legacy { guid, .. } => *guid,
            Config::V1 { guid, .. } => *guid,
            Config::V2 { guid, .. } => *guid,
        }
    }

    pub open spec fn spec_enabled(&self) -> bool {
        match self {
            Config::Legacy { enabled, .. } => *enabled,
            Config::V1 { enabled, .. } => *enabled,
            Config::V2 { enabled, .. } => *enabled,
        }
    }

    /// The mod this configuration is for.
    pub fn uuid(&self) -> (r: u128)
        ensures
            r == self.spec_guid(),
    {
        match self {
            Config::Legacy { guid, .. } => *guid,
            Config::V1 { guid, .. } => *guid,
            Config::V2 { guid, .. } => *guid,
        }
    }

    /// Whether the mod is enabled.
    pub fn enabled(&self) -> (r: bool)
        ensures
            r == self.spec_enabled(),
    {
        match self {
            Config::Legacy { enabled, .. } => *enabled,
            Config::V1 { enabled, .. } => *enabled,
            Config::V2 { enabled, .. } => *enabled,
        }
    }
}

/// A named list of mod configurations, by version.
pub enum Profile {
    V1 { name: String, configs: Vec<Config> },
}

impl Profile {
    pub open spec fn spec_name(&self) -> Seq<char> {
        match self {
            Profile::V1 { name, .. } => name@,
        }
    }

    pub open spec fn spec_configs(&self) -> Seq<Config> {
        match self {
            Profile::V1 { configs, .. } => configs@,
        }
    }

    /// An empty profile called `name`.
    pub fn new(name: &str) -> (r: Profile)
        ensures
            r.spec_name() == name@,
            r.spec_configs().len() == 0,
    {
        Profile::V1 { name: String::from_str(name), configs: Vec::new() }
    }

    pub fn name(&self) -> (r: &str)
        ensures
            r@ == self.spec_name(),
    {
        match self {
            Profile::V1 { name, .. } => name.as_str(),
        }
    }

    pub fn configs(&self) -> (r: &[Config])
        ensures
            r@ == self.spec_configs(),
    {
        match self {
            Profile::V1 { configs, .. } => configs.as_slice(),
        }
    }
}

/// All profiles, and which one is active.
pub struct ProfilesConfig {
    pub profiles: Vec<Profile>,
    pub active: u64,
}

} // verus!
