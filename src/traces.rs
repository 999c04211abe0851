//! Specific trace file formats which may be stored.

use crate::event::TimedEvent;
use crate::label::Label;
use vstd::prelude::*;

verus! {

/// Versioning wrapper for an inner trace value.
#[non_exhaustive]
#[derive(Clone, Debug, PartialEq, Eq, Hash)]
pub enum FelyneTrace {
    /// Initial variant of call statistics.
    Vers1(FelyneTraceV1),
    /// Call statistics including voice server names.
    Vers2(FelyneTraceV2),
}

/// Anonymised digest format of events in a call.
#[derive(Clone, Debug, PartialEq, Eq, Hash)]
pub struct FelyneTraceV1 {
    /// A sorted list of discrete events, timed from the listener's join point.
    pub events: Vec<TimedEvent>,
    /// Length of the call, in nanoseconds.
    pub length: u128,
    /// Self-described type of the server.
    pub label: Label,
    /// Voice server region, if available.
    pub region: Option<String>,
    /// A list of opaque user IDs who opted out of RTP event summaries.
    pub optout_users: Vec<u64>,
    /// The total number of users in the call, not including this listener.
    pub total_user_count: usize,
    /// The number of users present in the call when the listener joined.
    pub starting_user_count: usize,
}

/// Anonymised digest format of events in a call, including the actual voice server.
#[derive(Clone, Debug, PartialEq, Eq, Hash)]
pub struct FelyneTraceV2 {
    /// A sorted list of discrete events, timed from the listener's join point.
    pub events: Vec<TimedEvent>,
    /// Length of the call, in nanoseconds.
    pub length: u128,
    /// Self-described type of the server.
    pub label: Label,
    /// Voice server region set for the whole guild, if available.
    pub region: Option<String>,
    /// Voice server region set on the channel, if available.
    pub region_override: Option<String>,
    /// The first voice server actually used in this call, if available.
    ///
    /// If this changes, this is recorded via [`ChangeServer`] events.
    ///
    /// [`ChangeServer`]: crate::Event::ChangeServer
    pub server: Option<String>,
    /// A list of opaque user IDs who opted out of RTP event summaries.
    pub optout_users: Vec<u64>,
    /// The total number of users in the call, not including this listener.
    pub total_user_count: usize,
    /// The number of users present in the call when the listener joined.
    pub starting_user_count: usize,
}

} // verus!
