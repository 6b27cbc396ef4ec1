//! Resilience and request-shaping core for a chat-completion gateway that
//! drives an unreliable upstream API on behalf of many rotating credentials.
//!
//! The crate holds four verified subsystems:
//! - a per-credential cooldown state machine with escalating backoff,
//! - an adaptive tool-payload shaper that keeps tool definitions under a
//!   byte budget,
//! - a heuristic detector that classifies truncated tool-call arguments,
//! - a deterministic per-credential device-identity generator.

pub mod backoff;
pub mod cooldown;
pub mod debug_dump;
pub mod fingerprint;
pub mod json;
pub mod text;
pub mod tool_compression;
pub mod truncation;
pub mod utf8;
pub mod web_links;

pub use crate::cooldown::{
    CooldownEntry, CooldownInfo, CooldownManager, CooldownReason, CooldownSlot,
};
pub use crate::debug_dump::{is_debug_enabled, set_debug_enabled, DebugConfig, RequestStats};
pub use crate::fingerprint::Fingerprint;
pub use crate::json::JsonValue;
pub use crate::tool_compression::{
    compress_description, compress_tools_if_needed, elevate_long_descriptions,
    calculate_tools_size, simplify_input_schema, Tool,
};
pub use crate::truncation::{
    detect_truncation, extract_partial_fields, is_write_tool, looks_like_truncated_json,
    required_fields, TruncationInfo, TruncationType,
};
pub use crate::utf8::floor_char_boundary;
pub use crate::web_links::{SupplementaryWebLink, SupplementaryWebLinksEvent};
