//! The sandboxed WASM contract's decisions: limits and framing of guest
//! calls, validation of module metadata, mapping of guest findings and parse
//! errors to diagnostics, and the host-side merge of per-file facts.
//!
//! Every string-returning guest export answers with a little-endian `u32`
//! length followed by that many bytes in guest memory.

pub mod session;
pub mod plugin;
pub mod rule;
pub mod merge;
