use crate::extension::Extension;
use vstd::prelude::*;

verus! {

/// A discrete event observed on a call.
///
/// These arise from a mixture of RTP and signalling events: all RTP SSRCs
/// and platform user IDs are merged into discrete, opaque identifiers
/// before a trace is stored.
#[derive(Clone, Debug, PartialEq, Eq, Hash)]
pub enum Event {
    /// A single voice packet.
    Packet {
        /// Opaque ID of the packet's source.
        sender_id: u64,
        /// Relative sequence number of this packet, indicating
        /// the send order and allowing reordering.
        sequence: u16,
        /// The timestamp of this packet in terms of discrete samples, i.e., Hz.
        timestamp: u32,
        /// The number of bytes of audio data that this packet contained.
        audio_bytes: usize,
        /// RTP extensions attached to this packet, if any.
        extension: Option<Extension>,
    },
    /// A single RTCP (control) packet received by the listener, sanitised.
    RtcpData(Vec<u8>),
    /// A connection event registered over signalling.
    ///
    /// Used to associate user IDs with SSRCs.
    Connect(u64),
    /// A disconnection event registered over signalling.
    Disconnect(u64),
    /// A source has started (`true`) or stopped (`false`) speaking.
    ///
    /// This is computed locally, after observing 5 silent frames in sequence.
    Speaking(u64, bool),
    /// A source has set or changed their speaking capabilities, sent as a flag set.
    SpeakState(u64, u8),
    /// The voice server actually used by the call has changed.
    ChangeServer(String),
}

/// A pair of a nanosecond offset from the start of a call, and an [`Event`].
pub type TimedEvent = (u128, Event);

} // verus!
