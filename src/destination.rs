//! Destination kinds and their base paths.

use vstd::prelude::*;

verus! {

/// How a destination represents the source tree.
#[derive(Debug, Clone, Copy, PartialEq, Eq, Structural)]
pub enum DestinationType {
    /// Structure- and content-preserving copy of the source tree.
    ClaudeStyle,
    /// Flat directory of `<skill>.toml` files, one per `<skill>/SKILL.md`.
    GeminiToml,
}

/// One destination tree: where it lives and how it is written.
#[derive(Debug, Clone)]
pub struct Destination {
    pub base_path: String,
    pub dest_type: DestinationType,
}

impl Destination {
    pub fn new(base_path: String, dest_type: DestinationType) -> (r: Self)
        ensures
            r.base_path@ == base_path@,
            r.dest_type == dest_type,
    {
        Destination { base_path, dest_type }
    }
}

} // verus!
