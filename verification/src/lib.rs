use vstd::prelude::*;

pub mod text;
pub mod path;
pub mod archive;
pub mod patch;
pub mod settings;
pub mod profile;
pub mod mods;
pub mod steam;
pub mod casing;

verus! {

} // verus!
