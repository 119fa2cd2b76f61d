//! Fixture profiles (in the Open Fixture Library layout) and the patch that places fixtures
//! on DMX addresses.
use vstd::prelude::*;
use crate::named::NameMap;

verus! {

/// One kind of channel a fixture offers.
#[derive(Debug, Clone, PartialEq, Eq)]
pub struct OflChannel {
    pub channel_type: String,
    pub color: Option<String>,
}

/// One operating mode: the channel names in DMX order.
#[derive(Debug, Clone, PartialEq, Eq)]
pub struct OflMode {
    pub name: String,
    pub channels: Vec<String>,
}

/// A fixture profile.
pub struct OflProfile {
    pub name: String,
    pub available_channels: NameMap<OflChannel>,
    pub modes: Vec<OflMode>,
}

/// Where one fixture is patched.
#[derive(Debug, Clone, PartialEq, Eq)]
pub struct PatchEntry {
    pub name: String,
    pub address: u16,
    pub profile: String,
    pub mode: usize,
}

/// The patched fixtures by id.
pub struct PatchStore {
    pub fixtures: NameMap<PatchEntry>,
}

} // verus!
