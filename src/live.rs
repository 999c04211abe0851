//! The live state of one captured call: per-source queues of raw events,
//! and the floors that counters are rebased against.

use crate::event::Event;
use crate::extension::{be16, extension_of, parse_extension, Extension};
use crate::label::Label;
use crate::rtcp::{rebase16, rebase32, RECEIVER_REPORT, SENDER_REPORT};
use std::collections::{HashMap, VecDeque};
use vstd::prelude::*;

verus! {

broadcast use vstd::std_specs::hash::group_hash_axioms;

/// An event stamped with the time at which it was seen, in nanoseconds on a
/// clock shared by every event of the call.
pub type LocalTimedEvent = (u128, Event);

/// The fields of an RTP header that a trace reads.
#[derive(Copy, Clone, Debug, PartialEq, Eq, Hash, Structural)]
pub struct RtpHeader {
    /// Synchronisation source of the packet.
    pub ssrc: u32,
    /// Sequence number, as sent.
    pub sequence: u16,
    /// Timestamp in samples, as sent.
    pub timestamp: u32,
    /// Whether a header extension follows the fixed header.
    pub extension: bool,
}

/// The fixed header of an RTCP packet.
#[derive(Copy, Clone, Debug, PartialEq, Eq, Hash, Structural)]
pub struct RtcpHeader {
    /// Protocol version (2 bits).
    pub version: u8,
    /// Padding flag (1 bit).
    pub padding: u8,
    /// Number of report blocks (5 bits).
    pub rx_report_count: u8,
    /// RTCP packet type.
    pub packet_type: u8,
    /// Length of the packet in 32-bit words, minus one.
    pub pkt_length: u16,
    /// Synchronisation source of the sender.
    pub ssrc: u32,
}

/// The queue of events of one SSRC.
pub struct SourceQueue {
    pub ssrc: u32,
    pub events: VecDeque<LocalTimedEvent>,
}

/// The accumulating record of one call, from which a stored trace is made.
///
/// Raw events are queued by source: one queue per SSRC, in the order in
/// which SSRCs were first seen; one for RTCP; one for disconnections of users
/// with no known SSRC; one for changes of voice server.
pub struct LiveTrace {
    pub rtcps: VecDeque<LocalTimedEvent>,
    pub my_ssrcs: Vec<u32>,
    pub my_uid: Option<u64>,
    pub servers: VecDeque<(u128, String)>,
    pub region_override: Option<String>,
    pub start_time: u128,
    pub user_streams: Vec<SourceQueue>,
    pub lost_events: VecDeque<(u64, LocalTimedEvent)>,
    pub label: Label,
    /// First (sequence, timestamp) seen from each SSRC.
    pub first_measures: HashMap<u32, (u16, u32)>,
    pub ssrc_to_user: HashMap<u32, u64>,
    /// Latest SSRC of each user.
    pub user_to_ssrc: HashMap<u64, u32>,
    /// Every user with a known SSRC, in the order of first registration.
    pub users: Vec<u64>,
    pub users_at_start: usize,
}

/// The SSRCs of a list of queues.
pub open spec fn queue_ssrcs(q: Seq<SourceQueue>) -> Seq<u32> {
    q.map_values(|s: SourceQueue| s.ssrc)
}

/// Appends `e` to the queue of `ssrc`, which is added at the end where missing.
pub open spec fn queues_push(
    before: Seq<SourceQueue>,
    after: Seq<SourceQueue>,
    ssrc: u32,
    e: LocalTimedEvent,
) -> bool {
    &&& before.len() <= after.len() <= before.len() + 1
    &&& forall|i: int|
        0 <= i < before.len() ==> {
            &&& #[trigger] after[i].ssrc == before[i].ssrc
            &&& after[i].events@ == if before[i].ssrc == ssrc {
                before[i].events@.push(e)
            } else {
                before[i].events@
            }
        }
    &&& after.len() == before.len() + 1 <==> !queue_ssrcs(before).contains(ssrc)
    &&& after.len() == before.len() + 1 ==> after[before.len() as int].ssrc == ssrc
        && after[before.len() as int].events@ == seq![e]
}

/// The floor of `ssrc`: the one recorded, else the packet's own values,
/// which then rebase to zero.
pub open spec fn floor_or(m: Map<u32, (u16, u32)>, ssrc: u32, seq: u16, ts: u32) -> (u16, u32) {
    if m.contains_key(ssrc) {
        m[ssrc]
    } else {
        (seq, ts)
    }
}

/// The floors once a packet with header `h` is seen: its SSRC's floor is
/// set where it had none.
pub open spec fn floors_with(m: Map<u32, (u16, u32)>, h: RtpHeader) -> Map<u32, (u16, u32)> {
    if m.contains_key(h.ssrc) {
        m
    } else {
        m.insert(h.ssrc, (h.sequence, h.timestamp))
    }
}

/// The floors once every header of `hs` is seen, in order.
pub open spec fn floors_with_all(m: Map<u32, (u16, u32)>, hs: Seq<RtpHeader>) -> Map<u32, (u16, u32)>
    decreases hs.len(),
{
    if hs.len() == 0 {
        m
    } else {
        floors_with(floors_with_all(m, hs.drop_last()), hs.last())
    }
}

/// `raw - floor` modulo 2^16, as a remainder.
pub proof fn lemma_rebase16_is_modular(raw: u16, floor: u16)
    ensures
        rebase16(raw, floor) as int == (raw - floor) % 0x1_0000,
{
    let d = raw - floor;
    if d >= 0 {
        assert(d % 0x1_0000 == d) by (nonlinear_arith)
            requires
                0 <= d < 0x1_0000,
        ;
    } else {
        assert(d % 0x1_0000 == d + 0x1_0000) by (nonlinear_arith)
            requires
                -0x1_0000 < d < 0,
        ;
    }
}

/// `raw - floor` modulo 2^32, as a remainder.
pub proof fn lemma_rebase32_is_modular(raw: u32, floor: u32)
    ensures
        rebase32(raw, floor) as int == (raw - floor) % 0x1_0000_0000,
{
    let d = raw - floor;
    if d >= 0 {
        assert(d % 0x1_0000_0000 == d) by (nonlinear_arith)
            requires
                0 <= d < 0x1_0000_0000,
        ;
    } else {
        assert(d % 0x1_0000_0000 == d + 0x1_0000_0000) by (nonlinear_arith)
            requires
                -0x1_0000_0000 < d < 0,
        ;
    }
}

/// On one source that had no floor, every packet of a run is rebased
/// against the first packet of the run: its sequence number and timestamp
/// become `raw - first_raw`, modulo 2^16 and 2^32.
pub proof fn lemma_rebased_against_first(m: Map<u32, (u16, u32)>, hs: Seq<RtpHeader>, k: int)
    requires
        0 <= k < hs.len(),
        forall|i: int| 0 <= i < hs.len() ==> (#[trigger] hs[i]).ssrc == hs[0].ssrc,
        !m.contains_key(hs[0].ssrc),
    ensures
        floor_or(floors_with_all(m, hs.take(k)), hs[k].ssrc, hs[k].sequence, hs[k].timestamp) == (
            hs[0].sequence,
            hs[0].timestamp,
        ),
        rebase16(hs[k].sequence, hs[0].sequence) as int == (hs[k].sequence - hs[0].sequence)
            % 0x1_0000,
        rebase32(hs[k].timestamp, hs[0].timestamp) as int == (hs[k].timestamp - hs[0].timestamp)
            % 0x1_0000_0000,
{
    lemma_rebase16_is_modular(hs[k].sequence, hs[0].sequence);
    lemma_rebase32_is_modular(hs[k].timestamp, hs[0].timestamp);
    lemma_floors_with_first(m, hs, k);
}

proof fn lemma_floors_with_first(m: Map<u32, (u16, u32)>, hs: Seq<RtpHeader>, k: int)
    requires
        0 <= k <= hs.len(),
        hs.len() > 0,
        forall|i: int| 0 <= i < hs.len() ==> (#[trigger] hs[i]).ssrc == hs[0].ssrc,
        !m.contains_key(hs[0].ssrc),
    ensures
        k == 0 ==> !floors_with_all(m, hs.take(k)).contains_key(hs[0].ssrc),
        k > 0 ==> floors_with_all(m, hs.take(k)).contains_key(hs[0].ssrc) && floors_with_all(
            m,
            hs.take(k),
        )[hs[0].ssrc] == (hs[0].sequence, hs[0].timestamp),
    decreases k,
{
    if k > 0 {
        lemma_floors_with_first(m, hs, k - 1);
        assert(hs.take(k).drop_last() =~= hs.take(k - 1));
        assert(hs.take(k).last() == hs[k - 1]);
    } else {
        assert(hs.take(0) =~= Seq::<RtpHeader>::empty());
    }
}

/// Bytes that a header extension at the start of `data` occupies, its header included.
pub open spec fn extension_overhead(data: Seq<u8>) -> int {
    if data.len() < 4 {
        4
    } else {
        4 + 4 * be16(data, 2)
    }
}

/// `a - b`, or zero where `b` is greater.
pub open spec fn sub_or_zero(a: int, b: int) -> int {
    if a >= b {
        a - b
    } else {
        0
    }
}

/// Whether `ext` is what a packet with header `h` carries, given the bytes
/// that follow its fixed header.
pub open spec fn extension_matches(h: RtpHeader, data: Seq<u8>, ext: Option<Extension>) -> bool {
    if h.extension {
        match ext {
            Some(e) => extension_of(data) == Some(e@),
            None => extension_of(data) is None,
        }
    } else {
        ext is None
    }
}

/// The number of audio bytes of a packet: the payload without its offset,
/// its padding and any extension, or zero where those overrun it.
pub open spec fn audio_bytes_of(h: RtpHeader, payload: Seq<u8>, off: int, pad: int) -> int {
    let data = payload.subrange(off, payload.len() as int);
    sub_or_zero(payload.len() - off - pad, if h.extension { extension_overhead(data) } else { 0 })
}

/// Whether `e` is the event recorded for an RTP packet against `floor`.
pub open spec fn is_packet_event(
    e: Event,
    h: RtpHeader,
    payload: Seq<u8>,
    off: int,
    pad: int,
    floor: (u16, u32),
) -> bool {
    match e {
        Event::Packet { sender_id, sequence, timestamp, audio_bytes, extension } => {
            &&& sender_id == h.ssrc as u64
            &&& sequence == rebase16(h.sequence, floor.0)
            &&& timestamp == rebase32(h.timestamp, floor.1)
            &&& audio_bytes == audio_bytes_of(h, payload, off, pad)
            &&& extension_matches(h, payload.subrange(off, payload.len() as int), extension)
        },
        _ => false,
    }
}

/// The bytes recorded for a Sender or Receiver Report: its header, then its
/// payload without the leading offset and the trailing padding.
pub open spec fn rtcp_bytes(h: RtcpHeader, payload: Seq<u8>, off: int, pad: int) -> Seq<u8> {
    seq![
        ((h.version % 4) * 64 + (h.padding % 2) * 32 + h.rx_report_count % 32) as u8,
        h.packet_type,
        (h.pkt_length / 256) as u8,
        (h.pkt_length % 256) as u8,
        (h.ssrc / 16777216) as u8,
        (h.ssrc / 65536 % 256) as u8,
        (h.ssrc / 256 % 256) as u8,
        (h.ssrc % 256) as u8,
    ] + payload.subrange(off, payload.len() - pad)
}

impl LiveTrace {
    /// Whether the bookkeeping of sources and users is consistent.
    pub open spec fn wf(&self) -> bool {
        &&& queue_ssrcs(self.user_streams@).no_duplicates()
        &&& self.users@.no_duplicates()
        &&& forall|u: u64| self.users@.contains(u) <==> self.user_to_ssrc@.contains_key(u)
    }

    /// Opens the record of a call that started at `start_time`.
    pub fn new(
        start_time: u128,
        label: Label,
        users_at_start: usize,
        region_override: Option<String>,
        my_uid: Option<u64>,
    ) -> (r: Self)
        ensures
            r.wf(),
            r.start_time == start_time,
            r.label == label,
            r.users_at_start == users_at_start,
            r.region_override == region_override,
            r.my_uid == my_uid,
            r.my_ssrcs@.len() == 0,
            r.rtcps@.len() == 0,
            r.servers@.len() == 0,
            r.user_streams@.len() == 0,
            r.lost_events@.len() == 0,
            r.first_measures@ == Map::<u32, (u16, u32)>::empty(),
            r.ssrc_to_user@ == Map::<u32, u64>::empty(),
            r.user_to_ssrc@ == Map::<u64, u32>::empty(),
            r.users@.len() == 0,
    {
        LiveTrace {
            rtcps: VecDeque::new(),
            my_ssrcs: Vec::new(),
            my_uid,
            servers: VecDeque::new(),
            region_override,
            start_time,
            user_streams: Vec::new(),
            lost_events: VecDeque::new(),
            label,
            first_measures: HashMap::new(),
            ssrc_to_user: HashMap::new(),
            user_to_ssrc: HashMap::new(),
            users: Vec::new(),
            users_at_start,
        }
    }
}

/// The position of the queue of `ssrc`, if there is one.
fn find_queue(queues: &Vec<SourceQueue>, ssrc: u32) -> (r: Option<usize>)
    ensures
        match r {
            Some(i) => i < queues@.len() && queues@[i as int].ssrc == ssrc,
            None => !queue_ssrcs(queues@).contains(ssrc),
        },
{
    let mut i: usize = 0;
    while i < queues.len()
        invariant
            i <= queues@.len(),
            forall|j: int| 0 <= j < i ==> queues@[j].ssrc != ssrc,
        decreases queues@.len() - i,
    {
        if queues[i].ssrc == ssrc {
            return Some(i);
        }
        i += 1;
    }
    proof {
        if queue_ssrcs(queues@).contains(ssrc) {
            let j = choose|j: int| 0 <= j < queues@.len() && queue_ssrcs(queues@)[j] == ssrc;
            assert(queues@[j].ssrc == ssrc);
        }
    }
    None
}

impl LiveTrace {
    /// Whether the identity tables, and the listener's own identities, are those of `o`.
    pub open spec fn same_ids(&self, o: &Self) -> bool {
        &&& self.ssrc_to_user@ == o.ssrc_to_user@
        &&& self.user_to_ssrc@ == o.user_to_ssrc@
        &&& self.users@ == o.users@
        &&& self.my_ssrcs@ == o.my_ssrcs@
        &&& self.my_uid == o.my_uid
    }

    /// Whether the settings of the call are those of `o`.
    pub open spec fn same_settings(&self, o: &Self) -> bool {
        &&& self.start_time == o.start_time
        &&& self.label == o.label
        &&& self.region_override == o.region_override
        &&& self.users_at_start == o.users_at_start
    }

    /// Whether everything but the sequence floors is that of `o`.
    pub open spec fn same_but_floors(&self, o: &Self) -> bool {
        &&& self.same_ids(o)
        &&& self.same_settings(o)
        &&& self.same_other_queues(o)
        &&& self.user_streams@ == o.user_streams@
    }

    /// Whether every queue but the SSRC queues is that of `o`.
    pub open spec fn same_other_queues(&self, o: &Self) -> bool {
        &&& self.rtcps@ == o.rtcps@
        &&& self.servers@ == o.servers@
        &&& self.lost_events@ == o.lost_events@
    }

    /// Binds `ssrc` to `user_id`, which becomes that user's latest SSRC.
    pub(crate) fn register_ssrc_userid(&mut self, ssrc: u32, user_id: u64)
        requires
            old(self).wf(),
        ensures
            final(self).wf(),
            final(self).ssrc_to_user@ == old(self).ssrc_to_user@.insert(ssrc, user_id),
            final(self).user_to_ssrc@ == old(self).user_to_ssrc@.insert(user_id, ssrc),
            final(self).users@ == if old(self).users@.contains(user_id) {
                old(self).users@
            } else {
                old(self).users@.push(user_id)
            },
            final(self).same_settings(old(self)),
            final(self).same_other_queues(old(self)),
            final(self).user_streams@ == old(self).user_streams@,
            final(self).first_measures@ == old(self).first_measures@,
            final(self).my_ssrcs@ == old(self).my_ssrcs@,
            final(self).my_uid == old(self).my_uid,
    {
        self.ssrc_to_user.insert(ssrc, user_id);
        let ghost old_users = self.users@;
        if !self.user_to_ssrc.contains_key(&user_id) {
            self.users.push(user_id);
            proof {
                assert forall|u: u64| #[trigger] self.users@.contains(u) <==> (old_users.contains(u)
                    || u == user_id) by {
                    if self.users@.contains(u) {
                        let i = choose|i: int| 0 <= i < self.users@.len() && self.users@[i] == u;
                        if i < old_users.len() {
                            assert(old_users[i] == u);
                        }
                    }
                    if old_users.contains(u) {
                        let i = choose|i: int| 0 <= i < old_users.len() && old_users[i] == u;
                        assert(self.users@[i] == u);
                    }
                    if u == user_id {
                        assert(self.users@[old_users.len() as int] == u);
                    }
                }
                assert(!old_users.contains(user_id));
                assert forall|i: int, j: int|
                    0 <= i < self.users@.len() && 0 <= j < self.users@.len() && i != j implies
                    self.users@[i] != self.users@[j] by {
                    if j == old_users.len() {
                        assert(old_users[i] == self.users@[i]);
                    } else if i == old_users.len() {
                        assert(old_users[j] == self.users@[j]);
                    }
                }
            }
        }
        self.user_to_ssrc.insert(user_id, ssrc);
    }

    /// Appends a timed event to the queue of `ssrc`.
    fn push_event(&mut self, time: u128, ssrc: u32, evt: Event)
        requires
            old(self).wf(),
        ensures
            final(self).wf(),
            queues_push(old(self).user_streams@, final(self).user_streams@, ssrc, (time, evt)),
            final(self).same_ids(old(self)),
            final(self).same_settings(old(self)),
            final(self).same_other_queues(old(self)),
            final(self).first_measures@ == old(self).first_measures@,
    {
        let ghost ssrcs = queue_ssrcs(self.user_streams@);
        match find_queue(&self.user_streams, ssrc) {
            Some(i) => {
                let ghost before = self.user_streams@;
                self.user_streams[i].events.push_back((time, evt));
                proof {
                    assert forall|j: int| 0 <= j < before.len() && j != i implies
                        #[trigger] self.user_streams@[j] == before[j] by {}
                    assert(queue_ssrcs(self.user_streams@) =~= ssrcs);
                    assert(ssrcs[i as int] == ssrc);
                    assert(queue_ssrcs(before).contains(ssrc));
                    assert(self.user_streams@.len() == before.len() + 1 <==> !queue_ssrcs(before).contains(ssrc));
                    assert forall|j: int| 0 <= j < before.len() implies {
                        &&& #[trigger] self.user_streams@[j].ssrc == before[j].ssrc
                        &&& self.user_streams@[j].events@ == if before[j].ssrc == ssrc {
                            before[j].events@.push((time, evt))
                        } else {
                            before[j].events@
                        }
                    } by {
                        if j != i {
                            assert(self.user_streams@[j] == before[j]);
                            assert(before[j].ssrc == ssrcs[j]);
                            assert(ssrcs[i as int] == ssrc);
                        }
                    }
                    assert(queues_push(before, self.user_streams@, ssrc, (time, evt)));
                }
            },
            None => {
                let mut events: VecDeque<LocalTimedEvent> = VecDeque::new();
                events.push_back((time, evt));
                assert(events@ =~= seq![(time, evt)]);
                let ghost before = self.user_streams@;
                self.user_streams.push(SourceQueue { ssrc, events });
                proof {
                    assert forall|j: int| 0 <= j < before.len() implies #[trigger] self.user_streams@[j]
                        == before[j] && before[j].ssrc != ssrc by {
                        assert(before[j].ssrc == ssrcs[j]);
                    }
                    assert(queue_ssrcs(self.user_streams@) =~= ssrcs.push(ssrc));
                    assert(!ssrcs.contains(ssrc));
                    assert(queue_ssrcs(self.user_streams@).no_duplicates());
                    assert(queues_push(before, self.user_streams@, ssrc, (time, evt)));
                }
            },
        }
    }

    /// Records our own SSRC: its events are the listener's.
    pub fn add_my_ssrc(&mut self, ssrc: u32)
        ensures
            final(self).my_ssrcs@ == old(self).my_ssrcs@.push(ssrc),
            final(self).my_uid == old(self).my_uid,
            final(self).ssrc_to_user@ == old(self).ssrc_to_user@,
            final(self).user_to_ssrc@ == old(self).user_to_ssrc@,
            final(self).users@ == old(self).users@,
            final(self).user_streams@ == old(self).user_streams@,
            final(self).first_measures@ == old(self).first_measures@,
            final(self).same_settings(old(self)),
            final(self).same_other_queues(old(self)),
    {
        self.my_ssrcs.push(ssrc);
    }

    /// Records that the call moved to voice server `server` at `time`.
    pub fn change_server(&mut self, time: u128, server: String)
        ensures
            final(self).servers@ == old(self).servers@.push((time, server)),
            final(self).rtcps@ == old(self).rtcps@,
            final(self).lost_events@ == old(self).lost_events@,
            final(self).user_streams@ == old(self).user_streams@,
            final(self).first_measures@ == old(self).first_measures@,
            final(self).same_ids(old(self)),
            final(self).same_settings(old(self)),
    {
        self.servers.push_back((time, server));
    }

    /// Records a speaking-state update: where it names a user, `ssrc` is
    /// bound to that user and the capability flags are queued.
    pub fn speaking_state(&mut self, time: u128, ssrc: u32, user_id: Option<u64>, flags: u8)
        requires
            old(self).wf(),
        ensures
            final(self).wf(),
            final(self).same_settings(old(self)),
            final(self).same_other_queues(old(self)),
            final(self).first_measures@ == old(self).first_measures@,
            final(self).my_ssrcs@ == old(self).my_ssrcs@,
            final(self).my_uid == old(self).my_uid,
            match user_id {
                Some(u) => {
                    &&& final(self).ssrc_to_user@ == old(self).ssrc_to_user@.insert(ssrc, u)
                    &&& final(self).user_to_ssrc@ == old(self).user_to_ssrc@.insert(u, ssrc)
                    &&& queues_push(
                        old(self).user_streams@,
                        final(self).user_streams@,
                        ssrc,
                        (time, Event::SpeakState(u, flags)),
                    )
                },
                None => final(self).same_ids(old(self)) && final(self).user_streams@ == old(
                    self,
                ).user_streams@,
            },
    {
        if let Some(u) = user_id {
            self.register_ssrc_userid(ssrc, u);
            self.push_event(time, ssrc, Event::SpeakState(u, flags));
        }
    }

    /// Records that `user_id` joined with `ssrc`.
    pub fn client_connect(&mut self, time: u128, ssrc: u32, user_id: u64)
        requires
            old(self).wf(),
        ensures
            final(self).wf(),
            final(self).ssrc_to_user@ == old(self).ssrc_to_user@.insert(ssrc, user_id),
            final(self).user_to_ssrc@ == old(self).user_to_ssrc@.insert(user_id, ssrc),
            queues_push(
                old(self).user_streams@,
                final(self).user_streams@,
                ssrc,
                (time, Event::Connect(user_id)),
            ),
            final(self).same_settings(old(self)),
            final(self).same_other_queues(old(self)),
            final(self).first_measures@ == old(self).first_measures@,
            final(self).my_ssrcs@ == old(self).my_ssrcs@,
            final(self).my_uid == old(self).my_uid,
    {
        self.register_ssrc_userid(ssrc, user_id);
        self.push_event(time, ssrc, Event::Connect(user_id));
    }

    /// Records that `user_id` left: on the queue of its latest SSRC, or on
    /// the queue of SSRC-less events where it has none.
    pub fn client_disconnect(&mut self, time: u128, user_id: u64)
        requires
            old(self).wf(),
        ensures
            final(self).wf(),
            final(self).same_ids(old(self)),
            final(self).same_settings(old(self)),
            final(self).rtcps@ == old(self).rtcps@,
            final(self).servers@ == old(self).servers@,
            final(self).first_measures@ == old(self).first_measures@,
            old(self).user_to_ssrc@.contains_key(user_id) ==> {
                &&& queues_push(
                    old(self).user_streams@,
                    final(self).user_streams@,
                    old(self).user_to_ssrc@[user_id],
                    (time, Event::Disconnect(user_id)),
                )
                &&& final(self).lost_events@ == old(self).lost_events@
            },
            !old(self).user_to_ssrc@.contains_key(user_id) ==> {
                &&& final(self).lost_events@ == old(self).lost_events@.push(
                    (user_id, (time, Event::Disconnect(user_id))),
                )
                &&& final(self).user_streams@ == old(self).user_streams@
            },
    {
        match self.user_to_ssrc.get(&user_id) {
            Some(ssrc) => {
                let ssrc = *ssrc;
                self.push_event(time, ssrc, Event::Disconnect(user_id));
            },
            None => {
                self.lost_events.push_back((user_id, (time, Event::Disconnect(user_id))));
            },
        }
    }

    /// Records an RTP packet from its header and its payload, of which the
    /// first `payload_offset` and the last `payload_end_pad` bytes are not audio.
    ///
    /// Its sequence number and timestamp are rebased against the first ones
    /// seen from its SSRC, modulo 2^16 and 2^32; its extension, if any, is
    /// parsed and redacted. Only the size of the audio is kept.
    pub fn packet(
        &mut self,
        time: u128,
        header: &RtpHeader,
        payload: &[u8],
        payload_offset: usize,
        payload_end_pad: usize,
    )
        requires
            old(self).wf(),
            payload_offset + payload_end_pad <= payload@.len(),
        ensures
            final(self).wf(),
            final(self).same_ids(old(self)),
            final(self).same_settings(old(self)),
            final(self).same_other_queues(old(self)),
            final(self).first_measures@ == floors_with(old(self).first_measures@, *header),
            exists|e: Event|
                {
                    &&& is_packet_event(
                        e,
                        *header,
                        payload@,
                        payload_offset as int,
                        payload_end_pad as int,
                        floor_or(
                            old(self).first_measures@,
                            header.ssrc,
                            header.sequence,
                            header.timestamp,
                        ),
                    )
                    &&& queues_push(
                        old(self).user_streams@,
                        final(self).user_streams@,
                        header.ssrc,
                        (time, e),
                    )
                },
    {
        let floor = match self.first_measures.get(&header.ssrc) {
            Some(f) => *f,
            None => {
                self.first_measures.insert(header.ssrc, (header.sequence, header.timestamp));
                (header.sequence, header.timestamp)
            },
        };
        let sequence = header.sequence.wrapping_sub(floor.0);
        let timestamp = header.timestamp.wrapping_sub(floor.1);
        let data = vstd::slice::slice_subrange(payload, payload_offset, payload.len());
        let mut wasted: usize = 0;
        let extension = if header.extension {
            wasted =
            if data.len() < 4 {
                4
            } else {
                4 + 4 * ((data[2] as usize) * 256 + data[3] as usize)
            };
            parse_extension(data)
        } else {
            None
        };
        let body = payload.len() - payload_offset - payload_end_pad;
        let audio_bytes = if body >= wasted {
            body - wasted
        } else {
            0
        };
        let evt = Event::Packet {
            sender_id: header.ssrc as u64,
            sequence,
            timestamp,
            audio_bytes,
            extension,
        };
        let ghost e = evt;
        let ghost old_streams = self.user_streams@;
        let ghost old_floor = floor_or(
            old(self).first_measures@,
            header.ssrc,
            header.sequence,
            header.timestamp,
        );
        assert(floor == old_floor);
        self.push_event(time, header.ssrc, evt);
        assert(is_packet_event(
            e,
            *header,
            payload@,
            payload_offset as int,
            payload_end_pad as int,
            old_floor,
        ) && queues_push(old_streams, self.user_streams@, header.ssrc, (time, e)));
    }

    /// Records an RTCP packet from its header and its payload, of which the
    /// first `payload_offset` and the last `payload_end_pad` bytes are not
    /// part of the report.
    ///
    /// Only Sender and Receiver Reports are kept: no rewrite rule exists for
    /// the other kinds.
    pub fn rtcp(
        &mut self,
        time: u128,
        header: &RtcpHeader,
        payload: &[u8],
        payload_offset: usize,
        payload_end_pad: usize,
    )
        requires
            payload_offset + payload_end_pad <= payload@.len(),
        ensures
            final(self).same_ids(old(self)),
            final(self).same_settings(old(self)),
            final(self).servers@ == old(self).servers@,
            final(self).lost_events@ == old(self).lost_events@,
            final(self).user_streams@ == old(self).user_streams@,
            final(self).first_measures@ == old(self).first_measures@,
            header.packet_type == SENDER_REPORT || header.packet_type == RECEIVER_REPORT ==> exists|
                b: Vec<u8>,
            |
                {
                    &&& b@ == rtcp_bytes(
                        *header,
                        payload@,
                        payload_offset as int,
                        payload_end_pad as int,
                    )
                    &&& final(self).rtcps@ == old(self).rtcps@.push((time, Event::RtcpData(b)))
                },
            !(header.packet_type == SENDER_REPORT || header.packet_type == RECEIVER_REPORT)
                ==> final(self).rtcps@ == old(self).rtcps@,
    {
        if header.packet_type != SENDER_REPORT && header.packet_type != RECEIVER_REPORT {
            return;
        }
        let mut bytes: Vec<u8> = Vec::new();
        bytes.push((header.version % 4) * 64 + (header.padding % 2) * 32 + header.rx_report_count % 32);
        bytes.push(header.packet_type);
        bytes.push((header.pkt_length / 256) as u8);
        bytes.push((header.pkt_length % 256) as u8);
        bytes.push((header.ssrc / 16777216) as u8);
        bytes.push((header.ssrc / 65536 % 256) as u8);
        bytes.push((header.ssrc / 256 % 256) as u8);
        bytes.push((header.ssrc % 256) as u8);
        let ghost head = bytes@;
        let end = payload.len() - payload_end_pad;
        let mut i: usize = payload_offset;
        while i < end
            invariant
                payload_offset <= i <= end <= payload@.len(),
                bytes@ == head + payload@.subrange(payload_offset as int, i as int),
            decreases end - i,
        {
            bytes.push(payload[i]);
            i += 1;
            assert(bytes@ =~= head + payload@.subrange(payload_offset as int, i as int));
        }
        assert(bytes@ =~= rtcp_bytes(
            *header,
            payload@,
            payload_offset as int,
            payload_end_pad as int,
        ));
        self.rtcps.push_back((time, Event::RtcpData(bytes)));
    }

    /// Records that `ssrc` started or stopped speaking.
    pub fn speaking(&mut self, time: u128, ssrc: u32, speaking: bool)
        requires
            old(self).wf(),
        ensures
            final(self).wf(),
            queues_push(
                old(self).user_streams@,
                final(self).user_streams@,
                ssrc,
                (time, Event::Speaking(ssrc as u64, speaking)),
            ),
            final(self).same_ids(old(self)),
            final(self).same_settings(old(self)),
            final(self).same_other_queues(old(self)),
            final(self).first_measures@ == old(self).first_measures@,
    {
        self.push_event(time, ssrc, Event::Speaking(ssrc as u64, speaking));
    }
}

} // verus!
