use vstd::prelude::*;

verus! {

/// Why one discovery pass produced no monitor snapshot. Every variant
/// aborts the whole pass; nothing is reconciled from a partial snapshot.
#[derive(Debug, Clone, Copy, PartialEq, Eq, Structural)]
pub enum DiscoveryError {
    /// A connected output has no EDID property.
    MissingEdid,
    /// The EDID property is not a list of 8-bit integers.
    MalformedEdid,
    /// The EDID block hashed to zero, the identity reserved for "unresolved".
    ReservedIdentity,
    /// An unconfigured output needed a CRTC and none was free.
    NoFreeCrtc,
    /// None of the output's modes is described by the screen resources.
    NoUsableMode,
}

} // verus!
