use vstd::prelude::*;

verus! {

/// Opaque ID of the call's listener.
pub const LISTENER_ID: u32 = 0xFFFF_FFFF;

/// Opaque ID of any user who is missing.
///
/// This is also the maximum opaque ID, due to the shared SSRC/UserID niche.
pub const MISSING_ID: u32 = 0xFFFF_FFFE;

} // verus!
