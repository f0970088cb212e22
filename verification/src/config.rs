//! Settings of a scheduler profile.

use crate::text::text_eq;
use vstd::prelude::*;

verus! {

/// Whether pods that declare no spread constraints get the built-in ones.
#[derive(Clone, Copy, Debug, PartialEq, Eq, Structural)]
pub enum TopologyDefaulting {
    System,
    Off,
}

impl Default for TopologyDefaulting {
    fn default() -> (r: Self)
        ensures
            r == TopologyDefaulting::System,
    {
        TopologyDefaulting::System
    }
}

impl TopologyDefaulting {
    /// What a setting selects: none of the built-in constraints where it says
    /// so, else those of the system.
    pub fn from_setting(setting: Option<&str>) -> (r: Self)
        ensures
            r == if setting is Some && (setting->Some_0@ == "None"@ || setting->Some_0@ == "none"@) {
                TopologyDefaulting::Off
            } else {
                TopologyDefaulting::System
            },
    {
        match setting {
            Some(text) => if text_eq(text, "None") || text_eq(text, "none") {
                TopologyDefaulting::Off
            } else {
                TopologyDefaulting::System
            },
            None => TopologyDefaulting::System,
        }
    }
}

/// What the plugins of a profile are configured with.
#[derive(Clone, Copy, Debug, PartialEq, Eq, Structural)]
pub struct PluginConfig {
    pub topology_defaulting: TopologyDefaulting,
    /// How long a volume claim may take to bind, in nanoseconds.
    pub volume_bind_timeout: u64,
}

} // verus!
