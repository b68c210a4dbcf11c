//! Capability negotiation metadata reported alongside sampling results.

use vstd::prelude::*;

verus! {

/// What `protocol.version` reports: a version string and a feature list.
pub struct ProtocolVersionResult {
    pub version: String,
    pub features: Vec<String>,
}

} // verus!
