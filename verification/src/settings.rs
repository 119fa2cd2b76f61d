//! The console's configuration: where it listens, where it sends, and its data files.
use vstd::prelude::*;

verus! {

/// The whole configuration.
#[derive(Debug, Clone)]
pub struct Settings {
    pub web: WebSettings,
    pub osc: OscSettings,
    pub engine: EngineSettings,
    pub artnet: ArtnetSettings,
}

/// The web interface's address.
#[derive(Debug, Clone)]
pub struct WebSettings {
    pub bind_address: String,
}

/// Where OSC messages are received.
#[derive(Debug, Clone)]
pub struct OscSettings {
    pub bind_address: String,
    pub port: u16,
}

/// The data files of the show.
#[derive(Debug, Clone)]
pub struct EngineSettings {
    pub patch_file: String,
    pub profiles_dir: String,
    pub cues_file: String,
    pub presets_file: String,
    pub groups_file: String,
    pub layout_file: String,
    pub effects_file: String,
    pub cue_lists_file: String,
}

/// Where Art-Net output goes.
#[derive(Debug, Clone)]
pub struct ArtnetSettings {
    pub target_ip: String,
    pub universe: u16,
}

} // verus!
