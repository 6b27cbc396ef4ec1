//! Debug-dump configuration and request statistics.
//!
//! The dump switch is explicit injected configuration with its own
//! lifecycle, owned by the embedding service rather than ambient global
//! state; the service consults it before writing request dumps.

use vstd::prelude::*;

verus! {

/// Whether successful requests should be dumped for inspection.
pub struct DebugConfig {
    enabled: bool,
}

impl DebugConfig {
    pub closed spec fn spec_enabled(&self) -> bool {
        self.enabled
    }

    /// A configuration with dumping switched off.
    pub fn new() -> (c: Self)
        ensures
            !c.spec_enabled(),
    {
        DebugConfig { enabled: false }
    }
}

/// Switches request dumping on or off.
pub fn set_debug_enabled(config: &mut DebugConfig, enabled: bool)
    ensures
        final(config).spec_enabled() == enabled,
{
    config.enabled = enabled;
}

/// Whether request dumping is switched on.
pub fn is_debug_enabled(config: &DebugConfig) -> (r: bool)
    ensures
        r == config.spec_enabled(),
{
    config.enabled
}

/// Size and token statistics of one outbound request's parts.
#[derive(Debug, Clone, Copy, PartialEq, Eq, Structural)]
pub struct RequestStats {
    pub system_bytes: usize,
    pub system_tokens: u64,
    pub messages_bytes: usize,
    pub messages_tokens: u64,
    pub tools_bytes: usize,
    pub tools_tokens: u64,
    pub total_bytes: usize,
    pub total_tokens: u64,
}

} // verus!
