//! The k-way merge of the queues of a live trace, by time.

use crate::event::{Event, TimedEvent};
use crate::live::{LiveTrace, LocalTimedEvent, SourceQueue};
use vstd::prelude::*;

verus! {

/// The queue that an event was drawn from.
#[derive(Copy, Clone, Debug, PartialEq, Eq, Hash, Structural)]
pub enum Origin {
    /// The RTCP queue.
    Rtcp,
    /// The queue of an SSRC.
    User(u32),
    /// The queue of events of users with no known SSRC, with that user.
    Lost(u64),
    /// The queue of voice server changes.
    Server,
}

/// The contents of the queues of a live trace.
pub struct QueuesModel {
    pub rtcps: Seq<LocalTimedEvent>,
    pub users: Seq<(u32, Seq<LocalTimedEvent>)>,
    pub lost: Seq<(u64, LocalTimedEvent)>,
    pub servers: Seq<(u128, String)>,
}

/// Which queue the next event is drawn from.
pub enum Pick {
    Rtcp,
    User(int),
    Lost,
    Server,
    Nothing,
}

pub open spec fn users_model(q: Seq<SourceQueue>) -> Seq<(u32, Seq<LocalTimedEvent>)> {
    q.map_values(|s: SourceQueue| (s.ssrc, s.events@))
}

impl LiveTrace {
    /// The contents of the queues.
    pub open spec fn queues(&self) -> QueuesModel {
        QueuesModel {
            rtcps: self.rtcps@,
            users: users_model(self.user_streams@),
            lost: self.lost_events@,
            servers: self.servers@,
        }
    }
}

/// Among the first `n` SSRC queues, the non-empty one whose head is earliest;
/// the first of them on a tie.
pub open spec fn best_user(us: Seq<(u32, Seq<LocalTimedEvent>)>, n: int) -> Option<int>
    decreases n,
{
    if n <= 0 {
        None
    } else {
        let b = best_user(us, n - 1);
        if us[n - 1].1.len() == 0 {
            b
        } else {
            match b {
                None => Some(n - 1),
                Some(j) => if us[n - 1].1[0].0 < us[j].1[0].0 {
                    Some(n - 1)
                } else {
                    Some(j)
                },
            }
        }
    }
}

/// `cur`, or `(p, t)` where that is strictly earlier.
pub open spec fn earlier(cur: Option<(Pick, u128)>, p: Pick, t: u128) -> Option<(Pick, u128)> {
    match cur {
        None => Some((p, t)),
        Some((q, u)) => if t < u {
            Some((p, t))
        } else {
            Some((q, u))
        },
    }
}

/// The queue whose head is earliest; on a tie the first of RTCP, SSRC queues,
/// SSRC-less events and server changes.
pub open spec fn pick(m: QueuesModel) -> Pick {
    let c0 = if m.rtcps.len() > 0 {
        Some((Pick::Rtcp, m.rtcps[0].0))
    } else {
        None
    };
    let c1 = match best_user(m.users, m.users.len() as int) {
        Some(i) => earlier(c0, Pick::User(i), m.users[i].1[0].0),
        None => c0,
    };
    let c2 = if m.lost.len() > 0 {
        earlier(c1, Pick::Lost, m.lost[0].1.0)
    } else {
        c1
    };
    let c3 = if m.servers.len() > 0 {
        earlier(c2, Pick::Server, m.servers[0].0)
    } else {
        c2
    };
    match c3 {
        Some((p, _)) => p,
        None => Pick::Nothing,
    }
}

/// The queues after the head of the picked one is taken.
pub open spec fn pop(m: QueuesModel, p: Pick) -> QueuesModel {
    match p {
        Pick::Rtcp => QueuesModel { rtcps: m.rtcps.drop_first(), ..m },
        Pick::User(i) => QueuesModel {
            users: m.users.update(i, (m.users[i].0, m.users[i].1.drop_first())),
            ..m
        },
        Pick::Lost => QueuesModel { lost: m.lost.drop_first(), ..m },
        Pick::Server => QueuesModel { servers: m.servers.drop_first(), ..m },
        Pick::Nothing => m,
    }
}

/// `t` as an offset from `start`, or zero where it is earlier.
pub open spec fn relative(t: u128, start: u128) -> u128 {
    if t >= start {
        (t - start) as u128
    } else {
        0
    }
}

/// The event drawn from the picked queue, timed relative to `start`.
pub open spec fn drawn(m: QueuesModel, p: Pick, start: u128) -> (Origin, TimedEvent) {
    match p {
        Pick::Rtcp => (Origin::Rtcp, (relative(m.rtcps[0].0, start), m.rtcps[0].1)),
        Pick::User(i) => (
            Origin::User(m.users[i].0),
            (relative(m.users[i].1[0].0, start), m.users[i].1[0].1),
        ),
        Pick::Lost => (Origin::Lost(m.lost[0].0), (relative(m.lost[0].1.0, start), m.lost[0].1.1)),
        _ => (
            Origin::Server,
            (relative(m.servers[0].0, start), Event::ChangeServer(m.servers[0].1)),
        ),
    }
}

pub open spec fn users_total(us: Seq<(u32, Seq<LocalTimedEvent>)>) -> nat
    decreases us.len(),
{
    if us.len() == 0 {
        0
    } else {
        users_total(us.drop_last()) + us.last().1.len()
    }
}

/// The number of queued events.
pub open spec fn total(m: QueuesModel) -> nat {
    m.rtcps.len() + users_total(m.users) + m.lost.len() + m.servers.len()
}

/// Every event of the queues, in the order in which the merge draws them.
pub open spec fn merged(m: QueuesModel, start: u128) -> Seq<(Origin, TimedEvent)>
    decreases total(m) via merged_decreases
{
    if pick(m) is Nothing {
        Seq::empty()
    } else {
        seq![drawn(m, pick(m), start)] + merged(pop(m, pick(m)), start)
    }
}

#[via_fn]
proof fn merged_decreases(m: QueuesModel, start: u128) {
    proof_pop_total(m);
}

proof fn lemma_best_user(us: Seq<(u32, Seq<LocalTimedEvent>)>, n: int)
    requires
        0 <= n <= us.len(),
    ensures
        match best_user(us, n) {
            Some(i) => {
                &&& 0 <= i < n
                &&& us[i].1.len() > 0
                &&& forall|j: int| 0 <= j < n && us[j].1.len() > 0 ==> us[i].1[0].0 <= us[j].1[0].0
            },
            None => forall|j: int| 0 <= j < n ==> us[j].1.len() == 0,
        },
    decreases n,
{
    if n > 0 {
        lemma_best_user(us, n - 1);
    }
}

proof fn lemma_users_total_update(us: Seq<(u32, Seq<LocalTimedEvent>)>, i: int, s: Seq<LocalTimedEvent>)
    requires
        0 <= i < us.len(),
    ensures
        users_total(us.update(i, (us[i].0, s))) + us[i].1.len() == users_total(us) + s.len(),
    decreases us.len(),
{
    let u2 = us.update(i, (us[i].0, s));
    if i == us.len() - 1 {
        assert(u2.drop_last() =~= us.drop_last());
    } else {
        lemma_users_total_update(us.drop_last(), i, s);
        assert(u2.drop_last() =~= us.drop_last().update(i, (us[i].0, s)));
    }
}

proof fn lemma_users_total_empty(us: Seq<(u32, Seq<LocalTimedEvent>)>)
    requires
        forall|j: int| 0 <= j < us.len() ==> us[j].1.len() == 0,
    ensures
        users_total(us) == 0,
    decreases us.len(),
{
    if us.len() > 0 {
        lemma_users_total_empty(us.drop_last());
    }
}

/// Drawing an event leaves one fewer queued; nothing is drawn only from empty queues.
pub proof fn proof_pop_total(m: QueuesModel)
    ensures
        !(pick(m) is Nothing) ==> total(pop(m, pick(m))) + 1 == total(m),
        pick(m) is Nothing <==> total(m) == 0,
{
    lemma_best_user(m.users, m.users.len() as int);
    match best_user(m.users, m.users.len() as int) {
        Some(i) => {
            lemma_users_total_update(m.users, i, m.users[i].1.drop_first());
        },
        None => {
            lemma_users_total_empty(m.users);
        },
    }
    if let Pick::User(i) = pick(m) {
        lemma_users_total_update(m.users, i, m.users[i].1.drop_first());
    }
}

/// Whether a queue is in time order.
pub open spec fn in_time_order(q: Seq<LocalTimedEvent>) -> bool {
    forall|i: int, j: int| 0 <= i <= j < q.len() ==> q[i].0 <= q[j].0
}

/// Whether every queue is in time order.
pub open spec fn queues_in_order(m: QueuesModel) -> bool {
    &&& in_time_order(m.rtcps)
    &&& forall|k: int| 0 <= k < m.users.len() ==> in_time_order(#[trigger] m.users[k].1)
    &&& forall|i: int, j: int| 0 <= i <= j < m.lost.len() ==> m.lost[i].1.0 <= m.lost[j].1.0
    &&& forall|i: int, j: int| 0 <= i <= j < m.servers.len() ==> m.servers[i].0 <= m.servers[j].0
}

/// Whether every queued event is stamped no earlier than `lb`.
pub open spec fn all_from(m: QueuesModel, lb: u128) -> bool {
    &&& forall|i: int| 0 <= i < m.rtcps.len() ==> lb <= #[trigger] m.rtcps[i].0
    &&& forall|k: int, i: int|
        0 <= k < m.users.len() && 0 <= i < m.users[k].1.len() ==> lb <= #[trigger] m.users[k].1[i].0
    &&& forall|i: int| 0 <= i < m.lost.len() ==> lb <= #[trigger] m.lost[i].1.0
    &&& forall|i: int| 0 <= i < m.servers.len() ==> lb <= #[trigger] m.servers[i].0
}

/// The time at which the picked event was stamped.
pub open spec fn pick_time(m: QueuesModel) -> u128 {
    match pick(m) {
        Pick::Rtcp => m.rtcps[0].0,
        Pick::User(i) => m.users[i].1[0].0,
        Pick::Lost => m.lost[0].1.0,
        _ => m.servers[0].0,
    }
}

/// The picked event is the earliest head.
proof fn lemma_pick_earliest(m: QueuesModel)
    requires
        !(pick(m) is Nothing),
    ensures
        m.rtcps.len() > 0 ==> pick_time(m) <= m.rtcps[0].0,
        forall|k: int| 0 <= k < m.users.len() && m.users[k].1.len() > 0 ==> pick_time(m) <= #[trigger] m.users[k].1[0].0,
        m.lost.len() > 0 ==> pick_time(m) <= m.lost[0].1.0,
        m.servers.len() > 0 ==> pick_time(m) <= m.servers[0].0,
        pick(m) matches Pick::User(i) ==> 0 <= i < m.users.len() && m.users[i].1.len() > 0,
        pick(m) is Rtcp ==> m.rtcps.len() > 0,
        pick(m) is Lost ==> m.lost.len() > 0,
        pick(m) is Server ==> m.servers.len() > 0,
{
    lemma_best_user(m.users, m.users.len() as int);
}

/// Every event that the merge yields is stamped no earlier than a bound of every queued event.
proof fn lemma_merged_from(m: QueuesModel, start: u128, lb: u128)
    requires
        all_from(m, lb),
    ensures
        forall|k: int| 0 <= k < merged(m, start).len() ==> relative(lb, start) <= #[trigger] merged(m, start)[k].1.0,
    decreases total(m),
{
    if !(pick(m) is Nothing) {
        proof_pop_total(m);
        lemma_pick_earliest(m);
        let p = pick(m);
        let m2 = pop(m, p);
        assert(all_from(m2, lb)) by {
            if let Pick::User(i) = p {
                assert forall|k: int, j: int|
                    0 <= k < m2.users.len() && 0 <= j < m2.users[k].1.len() implies lb <= #[trigger] m2.users[k].1[j].0 by {
                    if k == i {
                        assert(m2.users[k].1[j] == m.users[k].1[j + 1]);
                    } else {
                        assert(m2.users[k] == m.users[k]);
                    }
                }
            }
            if p is Rtcp {
                assert forall|j: int| 0 <= j < m2.rtcps.len() implies lb <= #[trigger] m2.rtcps[j].0 by {
                    assert(m2.rtcps[j] == m.rtcps[j + 1]);
                }
            }
            if p is Lost {
                assert forall|j: int| 0 <= j < m2.lost.len() implies lb <= #[trigger] m2.lost[j].1.0 by {
                    assert(m2.lost[j] == m.lost[j + 1]);
                }
            }
            if p is Server {
                assert forall|j: int| 0 <= j < m2.servers.len() implies lb <= #[trigger] m2.servers[j].0 by {
                    assert(m2.servers[j] == m.servers[j + 1]);
                }
            }
        }
        lemma_merged_from(m2, start, lb);
        assert(lb <= pick_time(m));
        assert forall|k: int| 0 <= k < merged(m, start).len() implies relative(lb, start) <= #[trigger] merged(m, start)[k].1.0 by {
            if k > 0 {
                assert(merged(m, start)[k] == merged(m2, start)[k - 1]);
            }
        }
    }
}

/// Where every queue is in time order, the merge yields its events in
/// non-decreasing time order, however the queues interleave.
pub proof fn lemma_merge_in_time_order(m: QueuesModel, start: u128)
    requires
        queues_in_order(m),
    ensures
        forall|i: int, j: int|
            0 <= i <= j < merged(m, start).len() ==> merged(m, start)[i].1.0 <= merged(m, start)[j].1.0,
    decreases total(m),
{
    if !(pick(m) is Nothing) {
        proof_pop_total(m);
        lemma_pick_earliest(m);
        let p = pick(m);
        let m2 = pop(m, p);
        let t = pick_time(m);
        assert(queues_in_order(m2)) by {
            if let Pick::User(i) = p {
                assert forall|k: int| 0 <= k < m2.users.len() implies in_time_order(#[trigger] m2.users[k].1) by {
                    if k != i {
                        assert(m2.users[k] == m.users[k]);
                    } else {
                        assert(in_time_order(m.users[k].1));
                    }
                }
            }
        }
        assert(all_from(m2, t)) by {
            assert forall|k: int, j: int|
                0 <= k < m2.users.len() && 0 <= j < m2.users[k].1.len() implies t <= #[trigger] m2.users[k].1[j].0 by {
                assert(in_time_order(m.users[k].1));
                if p == Pick::User(k) {
                    assert(m2.users[k].1[j] == m.users[k].1[j + 1]);
                    assert(t == m.users[k].1[0].0);
                    assert(m.users[k].1[0].0 <= m.users[k].1[j + 1].0);
                } else {
                    assert(m2.users[k] == m.users[k]);
                    assert(t <= m.users[k].1[0].0);
                    assert(m.users[k].1[0].0 <= m.users[k].1[j].0);
                }
            }
            assert forall|j: int| 0 <= j < m2.rtcps.len() implies t <= #[trigger] m2.rtcps[j].0 by {
                if p is Rtcp {
                    assert(m2.rtcps[j] == m.rtcps[j + 1]);
                }
            }
            assert forall|j: int| 0 <= j < m2.lost.len() implies t <= #[trigger] m2.lost[j].1.0 by {
                if p is Lost {
                    assert(m2.lost[j] == m.lost[j + 1]);
                }
            }
            assert forall|j: int| 0 <= j < m2.servers.len() implies t <= #[trigger] m2.servers[j].0 by {
                if p is Server {
                    assert(m2.servers[j] == m.servers[j + 1]);
                }
            }
        }
        lemma_merged_from(m2, start, t);
        lemma_merge_in_time_order(m2, start);
        let mg = merged(m, start);
        assert(mg[0].1.0 == relative(t, start));
        assert forall|i: int, j: int| 0 <= i <= j < mg.len() implies mg[i].1.0 <= mg[j].1.0 by {
            if i > 0 {
                assert(mg[i] == merged(m2, start)[i - 1]);
                assert(mg[j] == merged(m2, start)[j - 1]);
            } else if j > 0 {
                assert(mg[j] == merged(m2, start)[j - 1]);
            }
        }
    }
}

impl LiveTrace {
    /// Times an event relative to the start of the call; events stamped
    /// before it count as at its start.
    pub fn make_event_relative(&self, evt: LocalTimedEvent) -> (r: TimedEvent)
        ensures
            r == (relative(evt.0, self.start_time), evt.1),
    {
        let t = if evt.0 >= self.start_time {
            evt.0 - self.start_time
        } else {
            0
        };
        (t, evt.1)
    }

    /// The SSRC queue whose head is earliest, the first on a tie, with that time.
    fn earliest_user(&self) -> (r: Option<(usize, u128)>)
        ensures
            match r {
                Some((i, t)) => best_user(self.queues().users, self.queues().users.len() as int)
                    == Some(i as int) && t == self.queues().users[i as int].1[0].0,
                None => best_user(self.queues().users, self.queues().users.len() as int) is None,
            },
    {
        let ghost us = self.queues().users;
        let mut best: Option<(usize, u128)> = None;
        let mut i: usize = 0;
        while i < self.user_streams.len()
            invariant
                us == self.queues().users,
                i <= us.len(),
                match best {
                    Some((j, t)) => best_user(us, i as int) == Some(j as int) && t == us[j as int].1[0].0,
                    None => best_user(us, i as int) is None,
                },
            decreases us.len() - i,
        {
            if self.user_streams[i].events.len() > 0 {
                let t = self.user_streams[i].events[0].0;
                match best {
                    None => {
                        best = Some((i, t));
                    },
                    Some((_, bt)) => {
                        if t < bt {
                            best = Some((i, t));
                        }
                    },
                }
            }
            i += 1;
        }
        best
    }

    /// Takes the earliest queued event, timed relative to the start of the
    /// call, with the queue it came from.
    pub fn pull_event(&mut self) -> (r: Option<(Origin, TimedEvent)>)
        ensures
            final(self).queues() == pop(old(self).queues(), pick(old(self).queues())),
            pick(old(self).queues()) is Nothing <==> r is None,
            r matches Some(x) ==> x == drawn(
                old(self).queues(),
                pick(old(self).queues()),
                old(self).start_time,
            ),
            crate::live::queue_ssrcs(final(self).user_streams@) == crate::live::queue_ssrcs(
                old(self).user_streams@,
            ),
            final(self).same_ids(old(self)),
            final(self).same_settings(old(self)),
            final(self).first_measures@ == old(self).first_measures@,
    {
        let ghost m = self.queues();
        // 0: RTCP, 1: an SSRC queue, 2: SSRC-less events, 3: server changes.
        let mut best: Option<(u8, u128)> = None;
        if self.rtcps.len() > 0 {
            best = Some((0, self.rtcps[0].0));
        }
        let user = self.earliest_user();
        proof {
            lemma_best_user(m.users, m.users.len() as int);
        }
        if let Some((_, t)) = user {
            best = match best {
                Some((k, u)) if u <= t => Some((k, u)),
                _ => Some((1, t)),
            };
        }
        if self.lost_events.len() > 0 {
            let t = self.lost_events[0].1.0;
            best = match best {
                Some((k, u)) if u <= t => Some((k, u)),
                _ => Some((2, t)),
            };
        }
        if self.servers.len() > 0 {
            let t = self.servers[0].0;
            best = match best {
                Some((k, u)) if u <= t => Some((k, u)),
                _ => Some((3, t)),
            };
        }
        match best {
            None => None,
            Some((0, _)) => {
                let e = self.rtcps.pop_front().unwrap();
                Some((Origin::Rtcp, self.make_event_relative(e)))
            },
            Some((1, _)) => {
                let (i, _) = user.unwrap();
                assert(m.users[i as int].1 == self.user_streams@[i as int].events@);
                let ssrc = self.user_streams[i].ssrc;
                let ghost before = self.user_streams@;
                let e = self.user_streams[i].events.pop_front().unwrap();
                proof {
                    assert(users_model(self.user_streams@) =~= users_model(before).update(
                        i as int,
                        (ssrc, users_model(before)[i as int].1.drop_first()),
                    ));
                    assert(crate::live::queue_ssrcs(self.user_streams@) =~= crate::live::queue_ssrcs(before));
                }
                Some((Origin::User(ssrc), self.make_event_relative(e)))
            },
            Some((2, _)) => {
                let (u, e) = self.lost_events.pop_front().unwrap();
                Some((Origin::Lost(u), self.make_event_relative(e)))
            },
            Some(_) => {
                let (t, s) = self.servers.pop_front().unwrap();
                Some((Origin::Server, self.make_event_relative((t, Event::ChangeServer(s)))))
            },
        }
    }
}

} // verus!
