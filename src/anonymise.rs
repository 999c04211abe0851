//! Unifying the queues of a live trace into one anonymised stream of events.

use crate::consts::{LISTENER_ID, MISSING_ID};
use crate::event::{Event, TimedEvent};
use crate::merge::relative;
use crate::traces::{FelyneTrace, FelyneTraceV2};
use crate::live::{queue_ssrcs, LiveTrace};
use crate::merge::{merged, proof_pop_total, total, Origin, QueuesModel};
use crate::rtcp::{compound_step, RtcpModel};
use std::collections::{HashMap, HashSet, VecDeque};
use vstd::prelude::*;

verus! {

broadcast use vstd::std_specs::hash::group_hash_axioms;

/// The identity tables while the merged stream is read.
pub struct IdModel {
    pub ssrc_to_user: Map<u32, u64>,
    pub user_to_ssrc: Map<u64, u32>,
    /// Opaque IDs handed out so far, to users other than the listener.
    pub opaque: Map<u64, u64>,
    /// The next opaque ID to hand out.
    pub next: u64,
    /// User IDs that a fresh identity must not take: the listener's, and
    /// those of users seen only through SSRC-less events.
    pub reserved: Seq<u64>,
}

/// Whether user ID `t` is in use: bound to an SSRC, or reserved.
pub open spec fn taken(known: Map<u64, u32>, reserved: Seq<u64>, t: u64) -> bool {
    known.contains_key(t) || reserved.contains(t)
}

/// The least user ID from `t` on that is not taken, or the largest one.
pub open spec fn first_free(known: Map<u64, u32>, reserved: Seq<u64>, t: u64) -> u64
    decreases u64::MAX - t,
{
    if t == u64::MAX || !taken(known, reserved, t) {
        t
    } else {
        first_free(known, reserved, (t + 1) as u64)
    }
}

/// A fresh identity is one that no user has: unless every user ID from `t`
/// up to the largest is taken.
pub proof fn lemma_first_free_is_fresh(known: Map<u64, u32>, reserved: Seq<u64>, t: u64)
    ensures
        t <= first_free(known, reserved, t),
        first_free(known, reserved, t) == u64::MAX || !taken(
            known,
            reserved,
            first_free(known, reserved, t),
        ),
        forall|v: u64| t <= v < first_free(known, reserved, t) ==> taken(known, reserved, v),
    decreases u64::MAX - t,
{
    if t != u64::MAX && taken(known, reserved, t) {
        lemma_first_free_is_fresh(known, reserved, (t + 1) as u64);
    }
}

/// The users of the SSRC-less events among `os`.
pub open spec fn lost_users(os: Seq<Origin>) -> Seq<u64>
    decreases os.len(),
{
    if os.len() == 0 {
        Seq::empty()
    } else {
        match os.last() {
            Origin::Lost(u) => lost_users(os.drop_last()).push(u),
            _ => lost_users(os.drop_last()),
        }
    }
}

/// The user IDs that no fresh identity may take, while `os` is read.
pub open spec fn reserved_users(os: Seq<Origin>, my_uid: Option<u64>) -> Seq<u64> {
    match my_uid {
        Some(m) => lost_users(os).push(m),
        None => lost_users(os),
    }
}

/// Gives `u` the next opaque ID, unless it has one. IDs are handed out from
/// zero up, and stop growing at [`MISSING_ID`].
pub open spec fn note_user(st: IdModel, u: u64) -> IdModel {
    if st.opaque.contains_key(u) {
        st
    } else {
        IdModel {
            opaque: st.opaque.insert(u, st.next),
            next: if st.next < MISSING_ID {
                (st.next + 1) as u64
            } else {
                st.next
            },
            ..st
        }
    }
}

/// The user behind an SSRC queue: the one it is bound to, else a fresh one,
/// which is then bound to it.
pub open spec fn resolve_ssrc(st: IdModel, ssrc: u32) -> (IdModel, u64) {
    if st.ssrc_to_user.contains_key(ssrc) {
        (st, st.ssrc_to_user[ssrc])
    } else {
        let u = first_free(st.user_to_ssrc, st.reserved, 0);
        (
            IdModel {
                ssrc_to_user: st.ssrc_to_user.insert(ssrc, u),
                user_to_ssrc: st.user_to_ssrc.insert(u, ssrc),
                ..st
            },
            u,
        )
    }
}

/// Reads the origin of one merged event: its user, if any, is noted, unless
/// that user or SSRC is the listener's.
pub open spec fn id_step(st: IdModel, o: Origin, my_ssrcs: Seq<u32>, my_uid: Option<u64>) -> IdModel {
    match o {
        Origin::User(ssrc) => {
            let (st1, u) = resolve_ssrc(st, ssrc);
            if my_ssrcs.contains(ssrc) || my_uid == Some(u) {
                st1
            } else {
                note_user(st1, u)
            }
        },
        Origin::Lost(u) => if my_uid == Some(u) {
            st
        } else {
            note_user(st, u)
        },
        _ => st,
    }
}

/// The identity tables after the first `n` origins of `os`.
pub open spec fn ids_after(
    os: Seq<Origin>,
    n: int,
    st0: IdModel,
    my_ssrcs: Seq<u32>,
    my_uid: Option<u64>,
) -> IdModel
    decreases n,
{
    if n <= 0 {
        st0
    } else {
        id_step(ids_after(os, n - 1, st0, my_ssrcs, my_uid), os[n - 1], my_ssrcs, my_uid)
    }
}

proof fn lemma_ids_after_keeps_reserved(
    os: Seq<Origin>,
    n: int,
    st0: IdModel,
    my_ssrcs: Seq<u32>,
    my_uid: Option<u64>,
)
    ensures
        ids_after(os, n, st0, my_ssrcs, my_uid).reserved == st0.reserved,
    decreases n,
{
    if n > 0 {
        lemma_ids_after_keeps_reserved(os, n - 1, st0, my_ssrcs, my_uid);
    }
}

/// The opaque IDs of users: those handed out, and the listener's own.
pub open spec fn user_opaques(opaque: Map<u64, u64>, my_uid: Option<u64>) -> Map<u64, u64> {
    match my_uid {
        Some(u) => opaque.insert(u, LISTENER_ID as u64),
        None => opaque,
    }
}

/// The opaque IDs of SSRCs: the listener's SSRCs map to [`LISTENER_ID`];
/// every other SSRC with a queue maps to the opaque ID of its user, if any.
pub open spec fn ssrc_opaques(
    streams: Seq<u32>,
    my_ssrcs: Seq<u32>,
    s2u: Map<u32, u64>,
    users: Map<u64, u64>,
) -> Map<u32, u64> {
    Map::new(
        |s: u32|
            my_ssrcs.contains(s) || (streams.contains(s) && s2u.contains_key(s)
                && users.contains_key(s2u[s])),
        |s: u32|
            if my_ssrcs.contains(s) {
                LISTENER_ID as u64
            } else {
                users[s2u[s]]
            },
    )
}

/// Whether the subject of an event is a forbidden user: the user behind the
/// SSRC of a packet or speaking event, or the user that a signalling event
/// names.
pub open spec fn subject_forbidden(e: Event, s2u: Map<u32, u64>, forbid: Set<u64>) -> bool {
    match e {
        Event::Connect(u) => forbid.contains(u),
        Event::Disconnect(u) => forbid.contains(u),
        Event::SpeakState(u, _) => forbid.contains(u),
        Event::Packet { sender_id, .. } => s2u.contains_key(sender_id as u32) && forbid.contains(
            s2u[sender_id as u32],
        ),
        Event::Speaking(ssrc, _) => s2u.contains_key(ssrc as u32) && forbid.contains(
            s2u[ssrc as u32],
        ),
        _ => false,
    }
}

/// The first `n` events of `es` whose subject is not forbidden.
pub open spec fn kept(es: Seq<TimedEvent>, n: int, s2u: Map<u32, u64>, forbid: Set<u64>) -> Seq<
    TimedEvent,
>
    decreases n,
{
    if n <= 0 {
        Seq::empty()
    } else if subject_forbidden(es[n - 1].1, s2u, forbid) {
        kept(es, n - 1, s2u, forbid)
    } else {
        kept(es, n - 1, s2u, forbid).push(es[n - 1])
    }
}

pub open spec fn ssrc_or_missing(m: Map<u32, u64>, ssrc: u64) -> u64 {
    if m.contains_key(ssrc as u32) {
        m[ssrc as u32]
    } else {
        MISSING_ID as u64
    }
}

pub open spec fn user_or_missing(m: Map<u64, u64>, u: u64) -> u64 {
    if m.contains_key(u) {
        m[u]
    } else {
        MISSING_ID as u64
    }
}

/// An event other than RTCP with every identifier replaced by its opaque ID.
pub open spec fn anon_event(e: Event, ssrcs: Map<u32, u64>, users: Map<u64, u64>) -> Event {
    match e {
        Event::Packet { sender_id, sequence, timestamp, audio_bytes, extension } => Event::Packet {
            sender_id: ssrc_or_missing(ssrcs, sender_id),
            sequence,
            timestamp,
            audio_bytes,
            extension,
        },
        Event::Speaking(ssrc, b) => Event::Speaking(ssrc_or_missing(ssrcs, ssrc), b),
        Event::Connect(u) => Event::Connect(user_or_missing(users, u)),
        Event::Disconnect(u) => Event::Disconnect(user_or_missing(users, u)),
        Event::SpeakState(u, f) => Event::SpeakState(user_or_missing(users, u), f),
        other => other,
    }
}

/// The RTCP floors after the RTCP events of `es` are sanitised in turn.
pub open spec fn floors_after(es: Seq<TimedEvent>, f0: RtcpModel, ssrcs: Map<u32, u64>) -> RtcpModel
    decreases es.len(),
{
    if es.len() == 0 {
        f0
    } else {
        let f = floors_after(es.drop_last(), f0, ssrcs);
        match es.last().1 {
            Event::RtcpData(b) => compound_step(
                RtcpModel { bytes: b@, ..f },
                0,
                b@.len() as int,
                ssrcs,
            ),
            _ => f,
        }
    }
}

/// Whether `out` is `e` anonymised, where RTCP is sanitised from the floors `f`.
pub open spec fn anonymised(
    e: Event,
    out: Event,
    f: RtcpModel,
    ssrcs: Map<u32, u64>,
    users: Map<u64, u64>,
) -> bool {
    match e {
        Event::RtcpData(b) => match out {
            Event::RtcpData(b2) => b2@ == compound_step(
                RtcpModel { bytes: b@, ..f },
                0,
                b@.len() as int,
                ssrcs,
            ).bytes,
            _ => false,
        },
        _ => out == anon_event(e, ssrcs, users),
    }
}

/// Whether `out` is the stream `es` anonymised in order, from the floors `f0`.
pub open spec fn anonymised_all(
    es: Seq<TimedEvent>,
    out: Seq<TimedEvent>,
    f0: RtcpModel,
    ssrcs: Map<u32, u64>,
    users: Map<u64, u64>,
) -> bool {
    &&& out.len() == es.len()
    &&& forall|j: int|
        0 <= j < es.len() ==> {
            &&& (#[trigger] out[j]).0 == es[j].0
            &&& anonymised(es[j].1, out[j].1, floors_after(es.take(j), f0, ssrcs), ssrcs, users)
        }
}

proof fn lemma_push_contains<T>(v: Seq<T>, x: T)
    ensures
        forall|s: T| #[trigger] v.push(x).contains(s) <==> (v.contains(s) || s == x),
{
    assert forall|s: T| #[trigger] v.push(x).contains(s) <==> (v.contains(s) || s == x) by {
        if v.push(x).contains(s) {
            let k = choose|k: int| 0 <= k < v.push(x).len() && v.push(x)[k] == s;
            if k < v.len() {
                assert(v[k] == s);
            }
        }
        if v.contains(s) {
            let k = choose|k: int| 0 <= k < v.len() && v[k] == s;
            assert(v.push(x)[k] == s);
        }
        if s == x {
            assert(v.push(x)[v.len() as int] == s);
        }
    }
}

/// Whether `v` holds `x`.
fn holds_u64(v: &Vec<u64>, x: u64) -> (r: bool)
    ensures
        r == v@.contains(x),
{
    let mut i: usize = 0;
    while i < v.len()
        invariant
            i <= v@.len(),
            forall|j: int| 0 <= j < i ==> v@[j] != x,
        decreases v@.len() - i,
    {
        if v[i] == x {
            return true;
        }
        i += 1;
    }
    false
}

/// Whether `v` holds `x`.
fn holds_u32(v: &Vec<u32>, x: u32) -> (r: bool)
    ensures
        r == v@.contains(x),
{
    let mut i: usize = 0;
    while i < v.len()
        invariant
            i <= v@.len(),
            forall|j: int| 0 <= j < i ==> v@[j] != x,
        decreases v@.len() - i,
    {
        if v[i] == x {
            return true;
        }
        i += 1;
    }
    false
}

/// The queues that events were drawn from, in order.
pub open spec fn origins(mg: Seq<(Origin, TimedEvent)>) -> Seq<Origin> {
    mg.map_values(|x: (Origin, TimedEvent)| x.0)
}

impl LiveTrace {
    /// Takes every queued event, in the order of the merge.
    fn drain(&mut self) -> (r: VecDeque<(Origin, TimedEvent)>)
        requires
            old(self).wf(),
        ensures
            r@ == merged(old(self).queues(), old(self).start_time),
            total(final(self).queues()) == 0,
            queue_ssrcs(final(self).user_streams@) == queue_ssrcs(old(self).user_streams@),
            final(self).wf(),
            final(self).same_ids(old(self)),
            final(self).same_settings(old(self)),
            final(self).first_measures@ == old(self).first_measures@,
    {
        let ghost m0 = self.queues();
        let ghost s0 = *self;
        let mut out: VecDeque<(Origin, TimedEvent)> = VecDeque::new();
        loop
            invariant
                merged(m0, s0.start_time) == out@ + merged(self.queues(), s0.start_time),
                queue_ssrcs(self.user_streams@) == queue_ssrcs(s0.user_streams@),
                self.wf(),
                self.same_ids(&s0),
                self.same_settings(&s0),
                self.first_measures@ == s0.first_measures@,
            ensures
                merged(m0, s0.start_time) == out@,
                total(self.queues()) == 0,
                queue_ssrcs(self.user_streams@) == queue_ssrcs(s0.user_streams@),
                self.wf(),
                self.same_ids(&s0),
                self.same_settings(&s0),
                self.first_measures@ == s0.first_measures@,
            decreases total(self.queues()),
        {
            let ghost m = self.queues();
            proof {
                proof_pop_total(m);
            }
            match self.pull_event() {
                Some(x) => {
                    let ghost before = out@;
                    out.push_back(x);
                    assert(merged(m, s0.start_time) == seq![x] + merged(self.queues(), s0.start_time));
                    assert(before + merged(m, s0.start_time) =~= out@ + merged(self.queues(), s0.start_time));
                },
                None => {
                    assert(merged(m, s0.start_time) =~= Seq::<(Origin, TimedEvent)>::empty());
                    assert(out@ + merged(m, s0.start_time) =~= out@);
                    break;
                },
            }
        }
        out
    }

    /// Reads the origins of the merged stream in order, binding SSRCs with
    /// no user to fresh ones and handing out opaque IDs to users on first sight.
    fn resolve_all(&mut self, mg: &VecDeque<(Origin, TimedEvent)>) -> (r: HashMap<u64, u64>)
        requires
            old(self).wf(),
        ensures
            final(self).wf(),
            ({
                let st = ids_after(
                    origins(mg@),
                    mg@.len() as int,
                    old(self).ids_with(reserved_users(origins(mg@), old(self).my_uid)),
                    old(self).my_ssrcs@,
                    old(self).my_uid,
                );
                &&& final(self).ssrc_to_user@ == st.ssrc_to_user
                &&& final(self).user_to_ssrc@ == st.user_to_ssrc
                &&& r@ == st.opaque
            }),
            final(self).my_ssrcs@ == old(self).my_ssrcs@,
            final(self).my_uid == old(self).my_uid,
            final(self).same_settings(old(self)),
            final(self).queues() == old(self).queues(),
            crate::live::queue_ssrcs(final(self).user_streams@) == crate::live::queue_ssrcs(
                old(self).user_streams@,
            ),
            final(self).first_measures@ == old(self).first_measures@,
    {
        let ghost s0 = *self;
        let ghost os = origins(mg@);
        let mut reserved: Vec<u64> = Vec::new();
        let mut k: usize = 0;
        while k < mg.len()
            invariant
                k <= mg@.len(),
                os == origins(mg@),
                reserved@ == lost_users(os.take(k as int)),
            decreases mg@.len() - k,
        {
            assert(os.take(k + 1).drop_last() =~= os.take(k as int));
            assert(os.take(k + 1).last() == mg@[k as int].0);
            if let Origin::Lost(u) = mg[k].0 {
                reserved.push(u);
            }
            k += 1;
        }
        assert(os.take(k as int) =~= os);
        if let Some(m) = self.my_uid {
            reserved.push(m);
        }
        assert(reserved@ == reserved_users(os, s0.my_uid));
        let mut opaque: HashMap<u64, u64> = HashMap::new();
        let mut next: u64 = 0;
        let mut i: usize = 0;
        while i < mg.len()
            invariant
                i <= mg@.len(),
                os == origins(mg@),
                self.wf(),
                ({
                    let st = ids_after(os, i as int, s0.ids_with(reserved@), s0.my_ssrcs@, s0.my_uid);
                    &&& st.reserved == reserved@
                    &&& self.ssrc_to_user@ == st.ssrc_to_user
                    &&& self.user_to_ssrc@ == st.user_to_ssrc
                    &&& opaque@ == st.opaque
                    &&& next == st.next
                }),
                self.my_ssrcs@ == s0.my_ssrcs@,
                self.my_uid == s0.my_uid,
                self.same_settings(&s0),
                self.queues() == s0.queues(),
                crate::live::queue_ssrcs(self.user_streams@) == crate::live::queue_ssrcs(
                    s0.user_streams@,
                ),
                self.first_measures@ == s0.first_measures@,
            decreases mg@.len() - i,
        {
            let origin = mg[i].0;
            assert(os[i as int] == origin);
            proof {
                lemma_ids_after_keeps_reserved(os, i as int, s0.ids_with(reserved@), s0.my_ssrcs@, s0.my_uid);
                lemma_ids_after_keeps_reserved(os, i + 1, s0.ids_with(reserved@), s0.my_ssrcs@, s0.my_uid);
            }
            let subject = match origin {
                Origin::User(ssrc) => {
                    let u = match self.ssrc_to_user.get(&ssrc) {
                        Some(u) => *u,
                        None => {
                            let u = self.fresh_user(&reserved);
                            self.register_ssrc_userid(ssrc, u);
                            u
                        },
                    };
                    if holds_u32(&self.my_ssrcs, ssrc) || self.my_uid == Some(u) {
                        None
                    } else {
                        Some(u)
                    }
                },
                Origin::Lost(u) => {
                    if self.my_uid == Some(u) {
                        None
                    } else {
                        Some(u)
                    }
                },
                _ => None,
            };
            if let Some(u) = subject {
                if !opaque.contains_key(&u) {
                    opaque.insert(u, next);
                    if next < MISSING_ID as u64 {
                        next += 1;
                    }
                }
            }
            i += 1;
        }
        opaque
    }
}

fn ssrc_lookup(m: &HashMap<u32, u64>, ssrc: u64) -> (r: u64)
    ensures
        r == ssrc_or_missing(m@, ssrc),
{
    match m.get(&(ssrc as u32)) {
        Some(o) => *o,
        None => MISSING_ID as u64,
    }
}

fn user_lookup(m: &HashMap<u64, u64>, u: u64) -> (r: u64)
    ensures
        r == user_or_missing(m@, u),
{
    match m.get(&u) {
        Some(o) => *o,
        None => MISSING_ID as u64,
    }
}

/// Whether the subject of an event is a forbidden user.
fn is_forbidden(e: &Event, s2u: &HashMap<u32, u64>, forbid: &HashSet<u64>) -> (r: bool)
    ensures
        r == subject_forbidden(*e, s2u@, forbid@),
{
    let ssrc = match e {
        Event::Packet { sender_id, .. } => *sender_id,
        Event::Speaking(ssrc, _) => *ssrc,
        Event::Connect(u) | Event::Disconnect(u) | Event::SpeakState(u, _) => {
            return forbid.contains(u);
        },
        _ => {
            return false;
        },
    };
    match s2u.get(&(ssrc as u32)) {
        Some(u) => forbid.contains(u),
        None => false,
    }
}

/// Whether the floor tables are those of `f`.
pub open spec fn floors_are(
    f: RtcpModel,
    last_sr: Map<u32, u32>,
    sender: Map<u32, (u64, u32)>,
    seq: Map<u32, (u16, u32)>,
) -> bool {
    f.last_sr == last_sr && f.sender == sender && f.seq == seq
}

impl LiveTrace {
    /// Replaces every identifier of `e` by its opaque ID; RTCP is sanitised,
    /// moving the floors on.
    fn anonymise_packet_event(
        &mut self,
        e: Event,
        ssrcs: &HashMap<u32, u64>,
        users: &HashMap<u64, u64>,
        last_sr: &mut HashMap<u32, u32>,
        sender: &mut HashMap<u32, (u64, u32)>,
    ) -> (r: Event)
        ensures
            ({
                let f = RtcpModel {
                    bytes: Seq::empty(),
                    last_sr: old(last_sr)@,
                    sender: old(sender)@,
                    seq: old(self).first_measures@,
                };
                &&& anonymised(e, r, f, ssrcs@, users@)
                &&& floors_are(
                    floors_after(seq![(0u128, e)], f, ssrcs@),
                    final(last_sr)@,
                    final(sender)@,
                    final(self).first_measures@,
                )
            }),
            final(self).same_but_floors(old(self)),
            final(self).wf() == old(self).wf(),
    {
        let ghost f = RtcpModel {
            bytes: Seq::empty(),
            last_sr: last_sr@,
            sender: sender@,
            seq: self.first_measures@,
        };
        assert(seq![(0u128, e)].drop_last() =~= Seq::<TimedEvent>::empty());
        assert(floors_after(Seq::<TimedEvent>::empty(), f, ssrcs@) == f);
        assert(seq![(0u128, e)].last() == (0u128, e));
        match e {
            Event::Packet { sender_id, sequence, timestamp, audio_bytes, extension } => Event::Packet {
                sender_id: ssrc_lookup(ssrcs, sender_id),
                sequence,
                timestamp,
                audio_bytes,
                extension,
            },
            Event::RtcpData(b) => {
                let mut b = b;
                self.sanitise_rtcp(&mut b, ssrcs, last_sr, sender);
                Event::RtcpData(b)
            },
            Event::Connect(u) => Event::Connect(user_lookup(users, u)),
            Event::Disconnect(u) => Event::Disconnect(user_lookup(users, u)),
            Event::Speaking(ssrc, b) => Event::Speaking(ssrc_lookup(ssrcs, ssrc), b),
            Event::SpeakState(u, fl) => Event::SpeakState(user_lookup(users, u), fl),
            Event::ChangeServer(s) => Event::ChangeServer(s),
        }
    }

    /// The opaque ID of every SSRC that has one, given those of users.
    fn ssrc_opaque_table(&self, users: &HashMap<u64, u64>) -> (r: HashMap<u32, u64>)
        ensures
            r@ == ssrc_opaques(
                queue_ssrcs(self.user_streams@),
                self.my_ssrcs@,
                self.ssrc_to_user@,
                users@,
            ),
    {
        let ghost streams = queue_ssrcs(self.user_streams@);
        let ghost s2u = self.ssrc_to_user@;
        let mut r: HashMap<u32, u64> = HashMap::new();
        let mut i: usize = 0;
        while i < self.user_streams.len()
            invariant
                i <= self.user_streams@.len(),
                streams == queue_ssrcs(self.user_streams@),
                s2u == self.ssrc_to_user@,
                r@ == Map::new(
                    |s: u32|
                        streams.take(i as int).contains(s) && s2u.contains_key(s) && users@.contains_key(
                            s2u[s],
                        ),
                    |s: u32| users@[s2u[s]],
                ),
            decreases self.user_streams@.len() - i,
        {
            let ssrc = self.user_streams[i].ssrc;
            assert(streams.take(i + 1) =~= streams.take(i as int).push(ssrc));
            proof {
                lemma_push_contains(streams.take(i as int), ssrc);
            }
            if let Some(u) = self.ssrc_to_user.get(&ssrc) {
                if let Some(o) = users.get(u) {
                    r.insert(ssrc, *o);
                }
            }
            i += 1;
            assert(r@ =~= Map::new(
                |s: u32|
                    streams.take(i as int).contains(s) && s2u.contains_key(s) && users@.contains_key(
                        s2u[s],
                    ),
                |s: u32| users@[s2u[s]],
            ));
        }
        assert(streams.take(i as int) =~= streams);
        let ghost mine = self.my_ssrcs@;
        let mut j: usize = 0;
        while j < self.my_ssrcs.len()
            invariant
                j <= mine.len(),
                mine == self.my_ssrcs@,
                r@ == Map::new(
                    |s: u32|
                        mine.take(j as int).contains(s) || (streams.contains(s) && s2u.contains_key(s)
                            && users@.contains_key(s2u[s])),
                    |s: u32|
                        if mine.take(j as int).contains(s) {
                            LISTENER_ID as u64
                        } else {
                            users@[s2u[s]]
                        },
                ),
            decreases mine.len() - j,
        {
            let ssrc = self.my_ssrcs[j];
            assert(mine.take(j + 1) =~= mine.take(j as int).push(ssrc));
            proof {
                lemma_push_contains(mine.take(j as int), ssrc);
            }
            r.insert(ssrc, LISTENER_ID as u64);
            j += 1;
            assert(r@ =~= Map::new(
                |s: u32|
                    mine.take(j as int).contains(s) || (streams.contains(s) && s2u.contains_key(s)
                        && users@.contains_key(s2u[s])),
                |s: u32|
                    if mine.take(j as int).contains(s) {
                        LISTENER_ID as u64
                    } else {
                        users@[s2u[s]]
                    },
            ));
        }
        assert(mine.take(j as int) =~= mine);
        assert(r@ =~= ssrc_opaques(streams, mine, s2u, users@));
        r
    }
}

/// The events of a merged stream, without their origins.
pub open spec fn events_of(mg: Seq<(Origin, TimedEvent)>) -> Seq<TimedEvent> {
    mg.map_values(|x: (Origin, TimedEvent)| x.1)
}

/// The floors that sanitising starts from: the sequence floors of the
/// sources, and no timestamp floor yet.
pub open spec fn initial_floors(seq: Map<u32, (u16, u32)>) -> RtcpModel {
    RtcpModel { bytes: Seq::empty(), last_sr: Map::empty(), sender: Map::empty(), seq }
}

impl LiveTrace {
    /// Drops the per-packet events of forbidden users from a merged stream and
    /// anonymises the rest, in order.
    fn anonymise_stream(
        &mut self,
        mg: VecDeque<(Origin, TimedEvent)>,
        forbid: &HashSet<u64>,
        ssrcs: &HashMap<u32, u64>,
        users: &HashMap<u64, u64>,
    ) -> (r: Vec<TimedEvent>)
        ensures
            ({
                let es = events_of(mg@);
                let ks = kept(es, es.len() as int, old(self).ssrc_to_user@, forbid@);
                let f0 = initial_floors(old(self).first_measures@);
                &&& anonymised_all(ks, r@, f0, ssrcs@, users@)
                &&& final(self).first_measures@ == floors_after(ks, f0, ssrcs@).seq
            }),
            final(self).queues() == old(self).queues(),
            final(self).wf() == old(self).wf(),
            queue_ssrcs(final(self).user_streams@) == queue_ssrcs(old(self).user_streams@),
            final(self).same_ids(old(self)),
            final(self).same_settings(old(self)),
    {
        let ghost s0 = *self;
        let ghost mg0 = mg@;
        let ghost es = events_of(mg@);
        let ghost s2u = self.ssrc_to_user@;
        let ghost f0 = initial_floors(self.first_measures@);
        let mut mg = mg;
        let mut out: Vec<TimedEvent> = Vec::new();
        let mut last_sr: HashMap<u32, u32> = HashMap::new();
        let mut sender: HashMap<u32, (u64, u32)> = HashMap::new();
        let n = mg.len();
        let mut i: usize = 0;
        assert(kept(es, 0, s2u, forbid@) =~= Seq::<TimedEvent>::empty());
        while i < n
            invariant
                i <= n,
                n == mg0.len(),
                es == events_of(mg0),
                mg@ == mg0.skip(i as int),
                s2u == self.ssrc_to_user@,
                anonymised_all(kept(es, i as int, s2u, forbid@), out@, f0, ssrcs@, users@),
                floors_are(
                    floors_after(kept(es, i as int, s2u, forbid@), f0, ssrcs@),
                    last_sr@,
                    sender@,
                    self.first_measures@,
                ),
                self.queues() == s0.queues(),
                self.wf() == s0.wf(),
                queue_ssrcs(self.user_streams@) == queue_ssrcs(s0.user_streams@),
                self.same_ids(&s0),
                self.same_settings(&s0),
            decreases n - i,
        {
            let ghost ks = kept(es, i as int, s2u, forbid@);
            let ghost f = floors_after(ks, f0, ssrcs@);
            let (_, (t, e)) = mg.pop_front().unwrap();
            assert(es[i as int] == (t, e));
            assert(mg@ =~= mg0.skip(i + 1));
            if !is_forbidden(&e, &self.ssrc_to_user, forbid) {
                let ghost fe = RtcpModel {
                    bytes: Seq::empty(),
                    last_sr: last_sr@,
                    sender: sender@,
                    seq: self.first_measures@,
                };
                let ghost ev = e;
                let a = self.anonymise_packet_event(e, ssrcs, users, &mut last_sr, &mut sender);
                let ghost old_out = out@;
                out.push((t, a));
                proof {
                    let ks2 = ks.push((t, ev));
                    assert(kept(es, i + 1, s2u, forbid@) == ks2);
                    assert(ks2.drop_last() =~= ks);
                    assert(ks2.take(ks.len() as int) =~= ks);
                    assert(seq![(0u128, ev)].drop_last() =~= Seq::<TimedEvent>::empty());
                    assert(RtcpModel { bytes: Seq::empty(), ..f } == fe);
                    assert(ks2.last() == (t, ev));
                    let one = seq![(0u128, ev)];
                    assert(one.last() == (0u128, ev));
                    assert(floors_after(one.drop_last(), fe, ssrcs@) == fe);
                    assert(floors_are(floors_after(one, fe, ssrcs@), last_sr@, sender@, self.first_measures@));
                    match ev {
                        Event::RtcpData(b) => {
                            assert(RtcpModel { bytes: b@, ..f } == RtcpModel { bytes: b@, ..fe });
                            assert(floors_after(one, fe, ssrcs@) == compound_step(
                                RtcpModel { bytes: b@, ..fe },
                                0,
                                b@.len() as int,
                                ssrcs@,
                            ));
                            assert(floors_after(ks2, f0, ssrcs@) == compound_step(
                                RtcpModel { bytes: b@, ..f },
                                0,
                                b@.len() as int,
                                ssrcs@,
                            ));
                        },
                        _ => {
                            assert(floors_after(ks2, f0, ssrcs@) == f);
                            assert(floors_after(one, fe, ssrcs@) == fe);
                        },
                    }
                    assert forall|j: int| 0 <= j < ks2.len() implies {
                        &&& (#[trigger] out@[j]).0 == ks2[j].0
                        &&& anonymised(
                            ks2[j].1,
                            out@[j].1,
                            floors_after(ks2.take(j), f0, ssrcs@),
                            ssrcs@,
                            users@,
                        )
                    } by {
                        if j < ks.len() {
                            assert(ks2.take(j) =~= ks.take(j));
                            assert(out@[j] == old_out[j]);
                        }
                    }
                }
            }
            else {
                assert(kept(es, i + 1, s2u, forbid@) == ks);
            }
            i += 1;
        }
        out
    }

    /// Merges every queue into one stream in time order, and anonymises it.
    ///
    /// Events are drawn by earliest time, ties going to RTCP, then to SSRC
    /// queues in the order in which they were first seen, then to SSRC-less
    /// events, then to server changes. Each user is given an opaque ID on
    /// first sight, from zero up; an SSRC with no user is bound to a fresh one,
    /// which is neither the listener's nor that of any user seen without an
    /// SSRC. The listener's own SSRCs and user ID map to [`LISTENER_ID`].
    /// Every event whose subject is a user in `forbid` is dropped: packets and
    /// speaking events through their SSRC, signalling events through the user
    /// that they name. Every identifier left
    /// is replaced by its opaque ID, or [`MISSING_ID`] where it has none, and
    /// RTCP packets are sanitised. Returns the events and the opaque ID of
    /// every user.
    pub fn unify_event_streams(&mut self, forbid: &HashSet<u64>) -> (r: (
        Vec<TimedEvent>,
        HashMap<u64, u64>,
    ))
        requires
            old(self).wf(),
        ensures
            ({
                let mg = merged(old(self).queues(), old(self).start_time);
                let st = ids_after(
                    origins(mg),
                    mg.len() as int,
                    old(self).ids_with(reserved_users(origins(mg), old(self).my_uid)),
                    old(self).my_ssrcs@,
                    old(self).my_uid,
                );
                let users = user_opaques(st.opaque, old(self).my_uid);
                let ssrcs = ssrc_opaques(
                    queue_ssrcs(old(self).user_streams@),
                    old(self).my_ssrcs@,
                    st.ssrc_to_user,
                    users,
                );
                let ks = kept(events_of(mg), mg.len() as int, st.ssrc_to_user, forbid@);
                let f0 = initial_floors(old(self).first_measures@);
                &&& anonymised_all(ks, r.0@, f0, ssrcs, users)
                &&& r.1@ == users
                &&& final(self).first_measures@ == floors_after(ks, f0, ssrcs).seq
                &&& final(self).ssrc_to_user@ == st.ssrc_to_user
                &&& final(self).user_to_ssrc@ == st.user_to_ssrc
            }),
            total(final(self).queues()) == 0,
            final(self).wf(),
            final(self).my_ssrcs@ == old(self).my_ssrcs@,
            final(self).my_uid == old(self).my_uid,
            final(self).same_settings(old(self)),
    {
        let mg = self.drain();
        let mut opaque = self.resolve_all(&mg);
        if let Some(u) = self.my_uid {
            opaque.insert(u, LISTENER_ID as u64);
        }
        let ssrcs = self.ssrc_opaque_table(&opaque);
        let events = self.anonymise_stream(mg, forbid, &ssrcs, &opaque);
        (events, opaque)
    }
}

/// The opaque IDs of the users of `forbid` that have one, in order, each once.
pub open spec fn optouts(forbid: Seq<u64>, users: Map<u64, u64>) -> Seq<u64>
    decreases forbid.len(),
{
    if forbid.len() == 0 {
        Seq::empty()
    } else {
        let o = optouts(forbid.drop_last(), users);
        if users.contains_key(forbid.last()) && !o.contains(users[forbid.last()]) {
            o.push(users[forbid.last()])
        } else {
            o
        }
    }
}

/// The number of users of `users`, which has no duplicates, other than the listener.
pub open spec fn others_count(users: Seq<u64>, my_uid: Option<u64>) -> int {
    match my_uid {
        Some(m) => if users.contains(m) {
            users.len() - 1
        } else {
            users.len() as int
        },
        None => users.len() as int,
    }
}

/// Whether a user is left out of a trace: where they opted out, or where
/// the server asks for an opt-in role that they could not be shown to hold.
/// A failed lookup counts as no role, never as consent.
pub fn is_excluded(opted_out: bool, role_needed: bool, role_confirmed: bool) -> (r: bool)
    ensures
        r == (opted_out || (role_needed && !role_confirmed)),
{
    opted_out || (role_needed && !role_confirmed)
}

/// The users that are left out of a trace, in order: of each known user,
/// whether they opted out and whether they were shown to hold the opt-in role.
pub open spec fn excluded_of(standing: Seq<(u64, bool, bool)>, role_needed: bool) -> Seq<u64>
    decreases standing.len(),
{
    if standing.len() == 0 {
        Seq::empty()
    } else {
        let rest = excluded_of(standing.drop_last(), role_needed);
        let (u, opted_out, role_confirmed) = standing.last();
        if opted_out || (role_needed && !role_confirmed) {
            rest.push(u)
        } else {
            rest
        }
    }
}

/// Applies the exclusion policy to every known user: `standing` holds, for
/// each, whether they opted out and whether a role lookup confirmed the
/// opt-in role (a failed lookup is no confirmation).
pub fn excluded_users(standing: &Vec<(u64, bool, bool)>, role_needed: bool) -> (r: Vec<u64>)
    ensures
        r@ == excluded_of(standing@, role_needed),
{
    let mut r: Vec<u64> = Vec::new();
    let mut i: usize = 0;
    while i < standing.len()
        invariant
            i <= standing@.len(),
            r@ == excluded_of(standing@.take(i as int), role_needed),
        decreases standing@.len() - i,
    {
        let (u, opted_out, role_confirmed) = standing[i];
        assert(standing@.take(i + 1).drop_last() =~= standing@.take(i as int));
        assert(standing@.take(i + 1).last() == standing@[i as int]);
        if is_excluded(opted_out, role_needed, role_confirmed) {
            r.push(u);
        }
        i += 1;
    }
    assert(standing@.take(i as int) =~= standing@);
    r
}

/// The queues without the first server change.
pub open spec fn without_first_server(m: QueuesModel) -> QueuesModel {
    QueuesModel {
        servers: if m.servers.len() > 0 {
            m.servers.drop_first()
        } else {
            m.servers
        },
        ..m
    }
}

impl LiveTrace {
    /// Whether `r` is this record closed at `end_time` with the users of
    /// `forbid` excluded.
    pub open spec fn stored_as(&self, end_time: u128, forbid: Seq<u64>, r: FelyneTrace) -> bool {
        let m = without_first_server(self.queues());
        let mg = merged(m, self.start_time);
        let st = ids_after(
            origins(mg),
            mg.len() as int,
            self.ids_with(reserved_users(origins(mg), self.my_uid)),
            self.my_ssrcs@,
            self.my_uid,
        );
        let users = user_opaques(st.opaque, self.my_uid);
        let ssrcs = ssrc_opaques(
            queue_ssrcs(self.user_streams@),
            self.my_ssrcs@,
            st.ssrc_to_user,
            users,
        );
        let ks = kept(events_of(mg), mg.len() as int, st.ssrc_to_user, forbid.to_set());
        match r {
            FelyneTrace::Vers2(t) => {
                &&& anonymised_all(ks, t.events@, initial_floors(self.first_measures@), ssrcs, users)
                &&& t.optout_users@ == optouts(forbid, users)
                &&& t.length == relative(end_time, self.start_time)
                &&& t.label == self.label
                &&& t.region is None
                &&& t.region_override == self.region_override
                &&& t.server == if self.servers@.len() > 0 {
                    Some(self.servers@[0].1)
                } else {
                    None
                }
                &&& t.total_user_count == others_count(self.users@, self.my_uid)
                &&& t.starting_user_count == self.users_at_start
            },
            _ => false,
        }
    }

    /// Every user with a known SSRC, in order of first registration.
    pub fn known_users(&self) -> (r: Vec<u64>)
        ensures
            r@ == self.users@,
    {
        let mut r: Vec<u64> = Vec::new();
        let mut i: usize = 0;
        while i < self.users.len()
            invariant
                i <= self.users@.len(),
                r@ == self.users@.take(i as int),
            decreases self.users@.len() - i,
        {
            r.push(self.users[i]);
            i += 1;
            assert(r@ =~= self.users@.take(i as int));
        }
        assert(r@ =~= self.users@);
        r
    }

    /// Closes the record of the call at `end_time` into a stored trace.
    ///
    /// The first voice server becomes the trace's server; the users in
    /// `forbid` are excluded as [`unify_event_streams`] describes, and their
    /// opaque IDs are listed as opted out.
    ///
    /// [`unify_event_streams`]: LiveTrace::unify_event_streams
    pub fn convert_to_stored(self, end_time: u128, forbid: &Vec<u64>) -> (r: FelyneTrace)
        requires
            self.wf(),
        ensures
            self.stored_as(end_time, forbid@, r),
    {
        let ghost s0 = self;
        let mut this = self;
        let length = if end_time >= this.start_time {
            end_time - this.start_time
        } else {
            0
        };
        let total_user_count = match this.my_uid {
            Some(m) => if holds_u64(&this.users, m) {
                this.users.len() - 1
            } else {
                this.users.len()
            },
            None => this.users.len(),
        };
        let server = match this.servers.pop_front() {
            Some((_, s)) => Some(s),
            None => None,
        };
        assert(this.queues() == without_first_server(s0.queues()));
        let mut forbid_set: HashSet<u64> = HashSet::new();
        let mut i: usize = 0;
        while i < forbid.len()
            invariant
                i <= forbid@.len(),
                forbid_set@ == forbid@.take(i as int).to_set(),
            decreases forbid@.len() - i,
        {
            forbid_set.insert(forbid[i]);
            assert(forbid@.take(i + 1) =~= forbid@.take(i as int).push(forbid@[i as int]));
            proof {
                lemma_push_contains(forbid@.take(i as int), forbid@[i as int]);
            }
            i += 1;
            assert(forbid_set@ =~= forbid@.take(i as int).to_set());
        }
        assert(forbid@.take(i as int) =~= forbid@);
        let (events, users) = this.unify_event_streams(&forbid_set);
        let mut optout_users: Vec<u64> = Vec::new();
        let mut j: usize = 0;
        while j < forbid.len()
            invariant
                j <= forbid@.len(),
                optout_users@ == optouts(forbid@.take(j as int), users@),
            decreases forbid@.len() - j,
        {
            assert(forbid@.take(j + 1).drop_last() =~= forbid@.take(j as int));
            if let Some(o) = users.get(&forbid[j]) {
                if !holds_u64(&optout_users, *o) {
                    optout_users.push(*o);
                }
            }
            j += 1;
        }
        assert(forbid@.take(j as int) =~= forbid@);
        FelyneTrace::Vers2(
            FelyneTraceV2 {
                events,
                length,
                label: this.label,
                region: None,
                region_override: this.region_override,
                server,
                optout_users,
                total_user_count,
                starting_user_count: this.users_at_start,
            },
        )
    }

    /// The identity tables as they stand, with no opaque ID handed out and
    /// the user IDs `reserved` kept from fresh identities.
    pub open spec fn ids_with(&self, reserved: Seq<u64>) -> IdModel {
        IdModel {
            ssrc_to_user: self.ssrc_to_user@,
            user_to_ssrc: self.user_to_ssrc@,
            opaque: Map::empty(),
            next: 0,
            reserved,
        }
    }

    /// The least user ID that is not taken, or the largest one.
    fn fresh_user(&self, reserved: &Vec<u64>) -> (r: u64)
        ensures
            r == first_free(self.user_to_ssrc@, reserved@, 0),
    {
        let mut trial: u64 = 0;
        while trial < u64::MAX && (self.user_to_ssrc.contains_key(&trial) || holds_u64(reserved, trial))
            invariant
                first_free(self.user_to_ssrc@, reserved@, 0) == first_free(
                    self.user_to_ssrc@,
                    reserved@,
                    trial,
                ),
            decreases u64::MAX - trial,
        {
            trial += 1;
        }
        trial
    }
}

} // verus!

verus! {

/// Whether a stream of events is in time order.
pub open spec fn timed_in_order(es: Seq<TimedEvent>) -> bool {
    forall|i: int, j: int| 0 <= i <= j < es.len() ==> es[i].0 <= es[j].0
}

proof fn lemma_kept_in_order(es: Seq<TimedEvent>, n: int, s2u: Map<u32, u64>, forbid: Set<u64>)
    requires
        timed_in_order(es),
        0 <= n <= es.len(),
    ensures
        timed_in_order(kept(es, n, s2u, forbid)),
        n > 0 ==> forall|k: int|
            0 <= k < kept(es, n, s2u, forbid).len() ==> #[trigger] kept(es, n, s2u, forbid)[k].0
                <= es[n - 1].0,
    decreases n,
{
    if n > 0 {
        lemma_kept_in_order(es, n - 1, s2u, forbid);
        let ks = kept(es, n - 1, s2u, forbid);
        if n > 1 {
            assert(es[n - 2].0 <= es[n - 1].0);
        }
        if !subject_forbidden(es[n - 1].1, s2u, forbid) {
            let ks2 = ks.push(es[n - 1]);
            assert forall|i: int, j: int| 0 <= i <= j < ks2.len() implies ks2[i].0 <= ks2[j].0 by {
                if j == ks.len() as int && i < j {
                    assert(ks2[i] == ks[i]);
                }
            }
        }
    }
}

/// Where every queue is in time order, the events that
/// [`LiveTrace::unify_event_streams`] yields are in non-decreasing time order,
/// however the queues interleave.
pub proof fn lemma_unified_in_time_order(
    m: QueuesModel,
    start: u128,
    s2u: Map<u32, u64>,
    forbid: Set<u64>,
    out: Seq<TimedEvent>,
    f0: RtcpModel,
    ssrcs: Map<u32, u64>,
    users: Map<u64, u64>,
)
    requires
        crate::merge::queues_in_order(m),
        anonymised_all(
            kept(
                events_of(merged(m, start)),
                merged(m, start).len() as int,
                s2u,
                forbid,
            ),
            out,
            f0,
            ssrcs,
            users,
        ),
    ensures
        timed_in_order(out),
{
    let mg = merged(m, start);
    crate::merge::lemma_merge_in_time_order(m, start);
    let es = events_of(mg);
    assert(timed_in_order(es)) by {
        assert forall|i: int, j: int| 0 <= i <= j < es.len() implies es[i].0 <= es[j].0 by {
            assert(es[i] == mg[i].1 && es[j] == mg[j].1);
        }
    }
    lemma_kept_in_order(es, es.len() as int, s2u, forbid);
    let ks = kept(es, es.len() as int, s2u, forbid);
    assert forall|i: int, j: int| 0 <= i <= j < out.len() implies out[i].0 <= out[j].0 by {
        assert(out[i].0 == ks[i].0 && out[j].0 == ks[j].0);
    }
}

/// Whether `opq` gives opaque IDs to users one for one, and uses every ID below `n`.
pub open spec fn one_to_one_below(opq: Map<u64, u64>, n: u64) -> bool {
    &&& forall|u: u64| #[trigger] opq.contains_key(u) ==> opq[u] < n
    &&& forall|u: u64, v: u64|
        opq.contains_key(u) && opq.contains_key(v) && #[trigger] opq[u] == #[trigger] opq[v] ==> u
            == v
    &&& forall|k: u64| k < n ==> #[trigger] id_in_use(opq, k)
}

/// Whether some user has the opaque ID `k`.
pub open spec fn id_in_use(opq: Map<u64, u64>, k: u64) -> bool {
    exists|u: u64| opq.contains_key(u) && #[trigger] opq[u] == k
}

/// Users get opaque IDs one for one, from zero up without gaps, for as long
/// as fewer than [`MISSING_ID`] have been handed out; the listener gets none
/// of them, and maps to [`LISTENER_ID`] instead, as do its SSRCs.
pub proof fn lemma_opaque_ids_one_to_one(
    os: Seq<Origin>,
    n: int,
    st0: IdModel,
    my_ssrcs: Seq<u32>,
    my_uid: Option<u64>,
    streams: Seq<u32>,
)
    requires
        st0.opaque == Map::<u64, u64>::empty(),
        st0.next == 0,
        0 <= n <= os.len(),
    ensures
        ({
            let st = ids_after(os, n, st0, my_ssrcs, my_uid);
            let users = user_opaques(st.opaque, my_uid);
            &&& st.next <= MISSING_ID
            &&& st.next < MISSING_ID ==> one_to_one_below(st.opaque, st.next)
            &&& my_uid matches Some(u) ==> !st.opaque.contains_key(u) && users[u] == LISTENER_ID
            &&& forall|s: u32|
                my_ssrcs.contains(s) ==> #[trigger] ssrc_opaques(
                    streams,
                    my_ssrcs,
                    st.ssrc_to_user,
                    users,
                )[s] == LISTENER_ID
        }),
    decreases n,
{
    if n > 0 {
        lemma_opaque_ids_one_to_one(os, n - 1, st0, my_ssrcs, my_uid, streams);
        let prev = ids_after(os, n - 1, st0, my_ssrcs, my_uid);
        let st = ids_after(os, n, st0, my_ssrcs, my_uid);
        let o = os[n - 1];
        let (st1, u) = match o {
            Origin::User(ssrc) => resolve_ssrc(prev, ssrc),
            Origin::Lost(u) => (prev, u),
            _ => (prev, 0),
        };
        assert(st1.opaque == prev.opaque && st1.next == prev.next);
        if st.opaque != st1.opaque || st.next != st1.next {
            assert(st == note_user(st1, u));
            assert(my_uid != Some(u));
            if !st1.opaque.contains_key(u) && st.next < MISSING_ID {
                assert(prev.next < MISSING_ID);
                let opq = st.opaque;
                assert(opq == st1.opaque.insert(u, st1.next));
                assert forall|k: u64| k < st.next implies #[trigger] id_in_use(opq, k) by {
                    if k < st1.next {
                        assert(id_in_use(st1.opaque, k));
                        let w = choose|w: u64| st1.opaque.contains_key(w) && #[trigger] st1.opaque[w] == k;
                        assert(w != u);
                        assert(opq.contains_key(w) && opq[w] == k);
                    } else {
                        assert(opq.contains_key(u) && opq[u] == k);
                    }
                }
            }
        }
    }
}

/// No event whose subject is a forbidden user survives the filter.
pub proof fn lemma_forbidden_dropped(es: Seq<TimedEvent>, n: int, s2u: Map<u32, u64>, forbid: Set<u64>)
    ensures
        forall|j: int|
            0 <= j < kept(es, n, s2u, forbid).len() ==> !subject_forbidden(
                #[trigger] kept(es, n, s2u, forbid)[j].1,
                s2u,
                forbid,
            ),
    decreases n,
{
    if n > 0 {
        lemma_forbidden_dropped(es, n - 1, s2u, forbid);
        let ks = kept(es, n - 1, s2u, forbid);
        if !subject_forbidden(es[n - 1].1, s2u, forbid) {
            assert forall|j: int| 0 <= j < ks.len() implies #[trigger] ks.push(es[n - 1])[j] == ks[j] by {}
        }
    }
}

/// Whether `x` is the opaque ID of one of `us`.
pub open spec fn opaque_of_one_of(us: Seq<u64>, users: Map<u64, u64>, x: u64) -> bool {
    exists|i: int| 0 <= i < us.len() && users.contains_key(#[trigger] us[i]) && users[us[i]] == x
}

/// Every forbidden user with an opaque ID is listed as opted out, nobody
/// else is, and no ID is listed twice.
pub proof fn lemma_forbidden_listed(forbid: Seq<u64>, users: Map<u64, u64>)
    ensures
        forall|i: int|
            0 <= i < forbid.len() && users.contains_key(#[trigger] forbid[i]) ==> optouts(
                forbid,
                users,
            ).contains(users[forbid[i]]),
        forall|k: int|
            0 <= k < optouts(forbid, users).len() ==> opaque_of_one_of(
                forbid,
                users,
                #[trigger] optouts(forbid, users)[k],
            ),
        optouts(forbid, users).no_duplicates(),
    decreases forbid.len(),
{
    if forbid.len() > 0 {
        let init = forbid.drop_last();
        lemma_forbidden_listed(init, users);
        let o = optouts(init, users);
        let r = optouts(forbid, users);
        let last = forbid.last();
        let pushed = users.contains_key(last) && !o.contains(users[last]);
        assert forall|k: int| 0 <= k < o.len() implies r[k] == o[k] by {}
        assert forall|i: int|
            0 <= i < forbid.len() && users.contains_key(#[trigger] forbid[i]) implies r.contains(
            users[forbid[i]],
        ) by {
            if i < init.len() {
                assert(init[i] == forbid[i]);
                assert(o.contains(users[forbid[i]]));
                let k = choose|k: int| 0 <= k < o.len() && o[k] == users[forbid[i]];
                assert(r[k] == o[k]);
            } else if pushed {
                assert(r[r.len() - 1] == users[forbid[i]]);
            } else {
                assert(forbid[i] == last);
                let k = choose|k: int| 0 <= k < o.len() && o[k] == users[last];
                assert(r[k] == o[k]);
            }
        }
        assert forall|k: int| 0 <= k < r.len() implies opaque_of_one_of(
            forbid,
            users,
            #[trigger] r[k],
        ) by {
            if k < o.len() {
                assert(r[k] == o[k]);
                assert(opaque_of_one_of(init, users, o[k]));
                let i = choose|i: int|
                    0 <= i < init.len() && users.contains_key(#[trigger] init[i]) && users[init[i]]
                        == o[k];
                assert(forbid[i] == init[i]);
                assert(0 <= i < forbid.len() && users.contains_key(forbid[i]) && users[forbid[i]] == r[k]);
            } else {
                let i = forbid.len() - 1;
                assert(forbid[i] == last);
                assert(0 <= i < forbid.len() && users.contains_key(forbid[i]) && users[forbid[i]] == r[k]);
            }
        }
        if pushed {
            assert forall|a: int, b: int| 0 <= a < r.len() && 0 <= b < r.len() && a != b implies r[a]
                != r[b] by {
                if a == o.len() {
                    assert(!o.contains(r[a]));
                    assert(o[b] == r[b]);
                } else if b == o.len() {
                    assert(!o.contains(r[b]));
                    assert(o[a] == r[a]);
                }
            }
        }
    }
}

} // verus!
