//! The messages of the on-device engine plugin.
use vstd::prelude::*;

verus! {

/// A round trip check of the plugin wiring: the value is sent back.
pub struct PingRequest {
    pub value: String,
}

/// The answer to a [`PingRequest`].
pub struct PingResponse {
    pub value: String,
}

/// The plugin's answer to one GTP command line: the whole reply block (`= ...` or `? ...`,
/// possibly several lines), without the blank line that ends it.
pub struct GtpLineResponse {
    pub response: String,
}

/// The number of visits the on-device engine starts with.
pub const DEFAULT_MAX_VISITS: u32 = 16;

} // verus!
