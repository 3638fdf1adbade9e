//! Flattens a JSON document into flat key/value entries for configuration
//! systems that use colon-delimited hierarchical keys.
//!
//! [`json`] holds the document and entry types, [`paths`] the key joining
//! and the connection-strings routing rules, [`classify`] the flattening
//! traversal itself, [`roundtrip`] the proof that flattened names can be
//! read back, and [`path_check`] the file-extension gate on input paths.

pub mod classify;
pub mod json;
pub mod path_check;
pub mod paths;
pub mod roundtrip;
