//! The handler of a capture in progress: its control signal, and the
//! dispatch of platform callbacks into the live trace.

use crate::live::{
    floor_or, floors_with, is_packet_event, queues_push, rtcp_bytes, LiveTrace, RtcpHeader,
    RtpHeader,
};
use crate::event::Event;
use crate::rtcp::{RECEIVER_REPORT, SENDER_REPORT};
use crate::traces::FelyneTrace;
use vstd::prelude::*;

verus! {

/// A request from the owner of a capture to its event handler.
#[derive(Copy, Clone, Debug, PartialEq, Eq, Hash, Structural)]
pub enum ReceiverSignal {
    /// Capture may go on, unless the call is never to be captured.
    Active,
    /// Capture pauses, unless events are gathered at all times.
    Inactive,
    /// Handling stops for good.
    Poison,
}

/// What the handler found on its signal channel.
#[derive(Copy, Clone, Debug, PartialEq, Eq, Hash, Structural)]
pub enum SignalPoll {
    /// A signal was waiting.
    Received(ReceiverSignal),
    /// No signal was waiting.
    Empty,
    /// The owner has gone away.
    Disconnected,
}

/// What the handler does after polling its signal channel.
#[derive(Copy, Clone, Debug, PartialEq, Eq, Hash, Structural)]
pub struct SignalOutcome {
    /// Stop handling for good, and pass `Poison` on to any other handler.
    pub cancel: bool,
    /// The new value of the "do nothing" flag, or `None` to keep it.
    pub do_nothing: Option<bool>,
}

/// Whether a capture that is `Inactive` does no work.
pub open spec fn idle_when_inactive(never_act: bool, always_gather: bool) -> bool {
    never_act || !always_gather
}

/// Whether a new capture starts out doing no work: never where the call is
/// never captured, and while no sound is made unless events are gathered at
/// all times.
pub fn starts_idle(never_act: bool, always_gather: bool, making_noise: bool) -> (r: bool)
    ensures
        r == (never_act || (!always_gather && !making_noise)),
{
    never_act || (!always_gather && !making_noise)
}

/// Decides what a poll of the signal channel means for the handler.
///
/// `Poison`, or a channel whose owner is gone, cancels handling. `Active`
/// resumes work unless the call is never captured; `Inactive` pauses it
/// unless events are gathered at all times. Nothing waiting changes nothing.
pub fn on_signal(poll: SignalPoll, never_act: bool, always_gather: bool) -> (r: SignalOutcome)
    ensures
        r.cancel == (poll == SignalPoll::Received(ReceiverSignal::Poison) || poll
            == SignalPoll::Disconnected),
        poll == SignalPoll::Received(ReceiverSignal::Active) ==> r.do_nothing == Some(never_act),
        poll == SignalPoll::Received(ReceiverSignal::Inactive) ==> r.do_nothing == Some(
            idle_when_inactive(never_act, always_gather),
        ),
        (r.cancel || poll == SignalPoll::Empty) ==> r.do_nothing is None,
{
    match poll {
        SignalPoll::Received(ReceiverSignal::Poison) | SignalPoll::Disconnected => SignalOutcome {
            cancel: true,
            do_nothing: None,
        },
        SignalPoll::Received(ReceiverSignal::Active) => SignalOutcome {
            cancel: false,
            do_nothing: Some(never_act),
        },
        SignalPoll::Received(ReceiverSignal::Inactive) => SignalOutcome {
            cancel: false,
            do_nothing: Some(never_act || !always_gather),
        },
        SignalPoll::Empty => SignalOutcome { cancel: false, do_nothing: None },
    }
}

/// One platform callback, with what the trace reads from it.
pub enum CaptureEvent {
    /// A speaking-state update: SSRC, user if known, capability flags.
    SpeakingState { ssrc: u32, user_id: Option<u64>, flags: u8 },
    /// A voice packet: its header, and its payload with the non-audio bytes
    /// at either end.
    VoicePacket { header: RtpHeader, payload: Vec<u8>, payload_offset: usize, payload_end_pad: usize },
    /// An RTCP packet: its header, and its payload with the bytes outside the
    /// report at either end.
    RtcpPacket { header: RtcpHeader, payload: Vec<u8>, payload_offset: usize, payload_end_pad: usize },
    /// A user joined with an SSRC.
    ClientConnect { ssrc: u32, user_id: u64 },
    /// A user left.
    ClientDisconnect { user_id: u64 },
    /// An SSRC started or stopped speaking.
    Speaking { ssrc: u32, speaking: bool },
    /// The listener (re)connected with an SSRC to a voice server.
    DriverConnect { ssrc: u32, server: String },
}

/// The state of the handler of one captured call.
pub struct Capture {
    /// The call's record, until it is finalised.
    pub trace: Option<LiveTrace>,
    /// The call is never to be captured.
    pub never_act: bool,
    /// Events are gathered at all times, not only while sound is made.
    pub always_gather: bool,
    /// Callbacks currently do no work.
    pub do_nothing: bool,
    /// Handling has stopped for good.
    pub poisoned: bool,
}

impl Capture {
    pub open spec fn wf(&self) -> bool {
        self.trace matches Some(t) ==> t.wf()
    }

    /// Opens the handler of a new capture.
    pub fn new(trace: LiveTrace, never_act: bool, always_gather: bool, making_noise: bool) -> (r: Self)
        requires
            trace.wf(),
        ensures
            r.wf(),
            r.trace == Some(trace),
            r.never_act == never_act,
            r.always_gather == always_gather,
            r.do_nothing == (never_act || (!always_gather && !making_noise)),
            !r.poisoned,
    {
        let do_nothing = starts_idle(never_act, always_gather, making_noise);
        Capture { trace: Some(trace), never_act, always_gather, do_nothing, poisoned: false }
    }

    /// Handles one callback, stamped `time`, after polling the signal
    /// channel. Returns whether handling is cancelled; the callback is then
    /// dropped, as it is while the handler does nothing. Once cancelled,
    /// handling stays cancelled.
    pub fn act(&mut self, poll: SignalPoll, time: u128, event: CaptureEvent) -> (cancel: bool)
        requires
            old(self).wf(),
        ensures
            final(self).wf(),
            cancel == (old(self).poisoned || poll == SignalPoll::Received(ReceiverSignal::Poison)
                || poll == SignalPoll::Disconnected),
            final(self).poisoned == cancel,
            final(self).never_act == old(self).never_act,
            final(self).always_gather == old(self).always_gather,
            final(self).trace is Some == old(self).trace is Some,
            old(self).poisoned ==> final(self).do_nothing == old(self).do_nothing,
            !cancel ==> final(self).do_nothing == match idle_after_poll(
                poll,
                old(self).never_act,
                old(self).always_gather,
            ) {
                Some(d) => d,
                None => old(self).do_nothing,
            },
            (cancel || final(self).do_nothing) ==> final(self).trace == old(self).trace,
            (!cancel && !final(self).do_nothing) ==> match old(self).trace {
                Some(t) => final(self).trace matches Some(t2) && applied(t, t2, time, event),
                None => final(self).trace is None,
            },
    {
        if self.poisoned {
            return true;
        }
        let outcome = on_signal(poll, self.never_act, self.always_gather);
        if outcome.cancel {
            self.poisoned = true;
            return true;
        }
        if let Some(d) = outcome.do_nothing {
            self.do_nothing = d;
        }
        if self.do_nothing {
            return false;
        }
        if let Some(trace) = &mut self.trace {
            trace.apply(time, event);
        }
        false
    }

    /// Takes the record out and closes it at `end_time`, with the users of
    /// `forbid` excluded. Only the first call finds a record.
    pub fn finish(&mut self, end_time: u128, forbid: &Vec<u64>) -> (r: Option<FelyneTrace>)
        requires
            old(self).wf(),
        ensures
            final(self).wf(),
            final(self).trace is None,
            match old(self).trace {
                Some(t) => r matches Some(f) && t.stored_as(end_time, forbid@, f),
                None => r is None,
            },
    {
        match self.trace.take() {
            Some(t) => Some(t.convert_to_stored(end_time, forbid)),
            None => None,
        }
    }
}

/// Whether `after` is `before` with one callback recorded, as the ingestion
/// method for its kind describes.
pub open spec fn applied(before: LiveTrace, after: LiveTrace, time: u128, event: CaptureEvent) -> bool {
    &&& after.wf()
    &&& after.same_settings(&before)
    &&& match event {
        CaptureEvent::SpeakingState { ssrc, user_id, flags } => match user_id {
            Some(u) => {
                &&& after.ssrc_to_user@ == before.ssrc_to_user@.insert(ssrc, u)
                &&& after.user_to_ssrc@ == before.user_to_ssrc@.insert(u, ssrc)
                &&& queues_push(before.user_streams@, after.user_streams@, ssrc, (time, Event::SpeakState(u, flags)))
                &&& after.same_other_queues(&before)
            },
            None => after.same_ids(&before) && after.user_streams@ == before.user_streams@
                && after.same_other_queues(&before),
        },
        CaptureEvent::VoicePacket { header, payload, payload_offset, payload_end_pad } => {
            &&& after.same_ids(&before)
            &&& after.same_other_queues(&before)
            &&& if payload_offset + payload_end_pad <= payload@.len() {
                &&& after.first_measures@ == floors_with(before.first_measures@, header)
                &&& exists|e: Event|
                    {
                        &&& is_packet_event(
                            e,
                            header,
                            payload@,
                            payload_offset as int,
                            payload_end_pad as int,
                            floor_or(before.first_measures@, header.ssrc, header.sequence, header.timestamp),
                        )
                        &&& queues_push(before.user_streams@, after.user_streams@, header.ssrc, (time, e))
                    }
            } else {
                after.user_streams@ == before.user_streams@ && after.first_measures@ == before.first_measures@
            }
        },
        CaptureEvent::RtcpPacket { header, payload, payload_offset, payload_end_pad } => {
            &&& after.same_ids(&before)
            &&& after.user_streams@ == before.user_streams@
            &&& after.servers@ == before.servers@
            &&& after.lost_events@ == before.lost_events@
            &&& if payload_offset + payload_end_pad <= payload@.len() && (header.packet_type
                == SENDER_REPORT || header.packet_type == RECEIVER_REPORT) {
                exists|b: Vec<u8>|
                    {
                        &&& b@ == rtcp_bytes(header, payload@, payload_offset as int, payload_end_pad as int)
                        &&& after.rtcps@ == before.rtcps@.push((time, Event::RtcpData(b)))
                    }
            } else {
                after.rtcps@ == before.rtcps@
            }
        },
        CaptureEvent::ClientConnect { ssrc, user_id } => {
            &&& after.ssrc_to_user@ == before.ssrc_to_user@.insert(ssrc, user_id)
            &&& after.user_to_ssrc@ == before.user_to_ssrc@.insert(user_id, ssrc)
            &&& queues_push(before.user_streams@, after.user_streams@, ssrc, (time, Event::Connect(user_id)))
            &&& after.same_other_queues(&before)
        },
        CaptureEvent::ClientDisconnect { user_id } => {
            &&& after.same_ids(&before)
            &&& after.rtcps@ == before.rtcps@
            &&& after.servers@ == before.servers@
            &&& if before.user_to_ssrc@.contains_key(user_id) {
                &&& queues_push(
                    before.user_streams@,
                    after.user_streams@,
                    before.user_to_ssrc@[user_id],
                    (time, Event::Disconnect(user_id)),
                )
                &&& after.lost_events@ == before.lost_events@
            } else {
                &&& after.lost_events@ == before.lost_events@.push((user_id, (time, Event::Disconnect(user_id))))
                &&& after.user_streams@ == before.user_streams@
            }
        },
        CaptureEvent::Speaking { ssrc, speaking } => {
            &&& after.same_ids(&before)
            &&& after.same_other_queues(&before)
            &&& queues_push(before.user_streams@, after.user_streams@, ssrc, (time, Event::Speaking(ssrc as u64, speaking)))
        },
        CaptureEvent::DriverConnect { ssrc, server } => {
            &&& after.my_ssrcs@ == before.my_ssrcs@.push(ssrc)
            &&& after.servers@ == before.servers@.push((time, server))
            &&& after.rtcps@ == before.rtcps@
            &&& after.lost_events@ == before.lost_events@
            &&& after.user_streams@ == before.user_streams@
            &&& after.ssrc_to_user@ == before.ssrc_to_user@
            &&& after.user_to_ssrc@ == before.user_to_ssrc@
        },
    }
}

/// The new "do nothing" flag that a poll sets, if any.
pub open spec fn idle_after_poll(poll: SignalPoll, never_act: bool, always_gather: bool) -> Option<bool> {
    match poll {
        SignalPoll::Received(ReceiverSignal::Active) => Some(never_act),
        SignalPoll::Received(ReceiverSignal::Inactive) => Some(idle_when_inactive(never_act, always_gather)),
        _ => None,
    }
}

impl LiveTrace {
    /// Records one platform callback in the queue that it belongs to. A
    /// packet whose offsets overrun its payload is dropped.
    pub fn apply(&mut self, time: u128, event: CaptureEvent)
        requires
            old(self).wf(),
        ensures
            applied(*old(self), *final(self), time, event),
    {
        match event {
            CaptureEvent::SpeakingState { ssrc, user_id, flags } => {
                self.speaking_state(time, ssrc, user_id, flags);
            },
            CaptureEvent::VoicePacket { header, payload, payload_offset, payload_end_pad } => {
                if payload_offset <= payload.len() && payload_end_pad <= payload.len() - payload_offset {
                    self.packet(time, &header, payload.as_slice(), payload_offset, payload_end_pad);
                }
            },
            CaptureEvent::RtcpPacket { header, payload, payload_offset, payload_end_pad } => {
                if payload_offset <= payload.len() && payload_end_pad <= payload.len() - payload_offset {
                    self.rtcp(time, &header, payload.as_slice(), payload_offset, payload_end_pad);
                }
            },
            CaptureEvent::ClientConnect { ssrc, user_id } => {
                self.client_connect(time, ssrc, user_id);
            },
            CaptureEvent::ClientDisconnect { user_id } => {
                self.client_disconnect(time, user_id);
            },
            CaptureEvent::Speaking { ssrc, speaking } => {
                self.speaking(time, ssrc, speaking);
            },
            CaptureEvent::DriverConnect { ssrc, server } => {
                self.add_my_ssrc(ssrc);
                self.change_server(time, server);
            },
        }
    }
}

} // verus!
