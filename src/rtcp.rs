//! Sanitising of compound RTCP packets: Sender and Receiver Reports are
//! rewritten in place so that no SSRC, and no absolute timestamp or sequence
//! number, survives.

use crate::consts::MISSING_ID;
use crate::extension::be16;
use crate::live::LiveTrace;
use std::collections::HashMap;
use vstd::prelude::*;

verus! {

broadcast use vstd::std_specs::hash::group_hash_axioms;

/// RTCP packet type of a Sender Report.
pub const SENDER_REPORT: u8 = 200;

/// RTCP packet type of a Receiver Report.
pub const RECEIVER_REPORT: u8 = 201;

/// Size of the common header of a report: flags, type, length, SSRC.
pub const REPORT_HEADER_SIZE: usize = 8;

/// Size of the sender information of a Sender Report.
pub const SENDER_INFO_SIZE: usize = 20;

/// Size of one report block.
pub const REPORT_BLOCK_SIZE: usize = 24;

/// A big-endian 32-bit field at `at`.
pub open spec fn be32(b: Seq<u8>, at: int) -> int {
    b[at] * 16777216 + b[at + 1] * 65536 + b[at + 2] * 256 + b[at + 3]
}

/// `b` with `v` written big-endian into the 16-bit field at `at`.
pub open spec fn set_be16(b: Seq<u8>, at: int, v: u16) -> Seq<u8> {
    b.update(at, (v / 256) as u8).update(at + 1, (v % 256) as u8)
}

/// `b` with `v` written big-endian into the 32-bit field at `at`.
pub open spec fn set_be32(b: Seq<u8>, at: int, v: u32) -> Seq<u8> {
    b.update(at, (v / 16777216) as u8).update(at + 1, (v / 65536 % 256) as u8).update(
        at + 2,
        (v / 256 % 256) as u8,
    ).update(at + 3, (v % 256) as u8)
}

/// `raw - floor`, modulo 2^16.
pub open spec fn rebase16(raw: u16, floor: u16) -> u16 {
    if raw >= floor {
        (raw - floor) as u16
    } else {
        (raw - floor + 0x1_0000) as u16
    }
}

/// `raw - floor`, modulo 2^32.
pub open spec fn rebase32(raw: u32, floor: u32) -> u32 {
    if raw >= floor {
        (raw - floor) as u32
    } else {
        (raw - floor + 0x1_0000_0000) as u32
    }
}

/// `raw - floor`, modulo 2^64.
pub open spec fn rebase64(raw: u64, floor: u64) -> u64 {
    if raw >= floor {
        (raw - floor) as u64
    } else {
        (raw - floor + 0x1_0000_0000_0000_0000) as u64
    }
}

/// The opaque ID written in place of `ssrc`: its mapping, else [`MISSING_ID`].
pub open spec fn opaque_ssrc(m: Map<u32, u64>, ssrc: u32) -> u32 {
    if m.contains_key(ssrc) {
        m[ssrc] as u32
    } else {
        MISSING_ID
    }
}

/// What the sanitiser reads and changes: the bytes, and the floors that
/// rebasing starts from, each keyed by a real SSRC.
pub struct RtcpModel {
    pub bytes: Seq<u8>,
    /// Floors of "last SR" timestamps in report blocks.
    pub last_sr: Map<u32, u32>,
    /// Floors of (NTP, RTP) timestamps of Sender Reports.
    pub sender: Map<u32, (u64, u32)>,
    /// Floors of (sequence, timestamp) of each source.
    pub seq: Map<u32, (u16, u32)>,
}

/// Sanitises the report block at `at`: its SSRC becomes opaque, its last-SR
/// timestamp is rebased unless zero, and its sequence number is rebased.
pub open spec fn block_step(st: RtcpModel, at: int, opq: Map<u32, u64>) -> RtcpModel {
    let b = st.bytes;
    let ssrc = be32(b, at) as u32;
    let b1 = set_be32(b, at, opaque_ssrc(opq, ssrc));
    let seen = be32(b, at + 16) as u32;
    let lsr_base = if st.last_sr.contains_key(ssrc) {
        st.last_sr[ssrc]
    } else {
        seen
    };
    let b2 = if seen > 0 {
        set_be32(b1, at + 16, rebase32(seen, lsr_base))
    } else {
        b1
    };
    let last_sr = if seen > 0 {
        st.last_sr.insert(ssrc, lsr_base)
    } else {
        st.last_sr
    };
    let seq_seen = be16(b, at + 10) as u16;
    let seq = if st.seq.contains_key(ssrc) {
        st.seq
    } else {
        st.seq.insert(ssrc, (seq_seen, 0))
    };
    RtcpModel {
        bytes: set_be16(b2, at + 10, rebase16(seq_seen, seq[ssrc].0)),
        last_sr,
        sender: st.sender,
        seq,
    }
}

/// Sanitises up to `n` report blocks from `at` on, stopping early where the
/// bytes hold no further whole block.
pub open spec fn blocks_step(st: RtcpModel, at: int, n: nat, opq: Map<u32, u64>) -> RtcpModel
    decreases n,
{
    if n == 0 || at < 0 || at + 24 > st.bytes.len() {
        st
    } else {
        blocks_step(block_step(st, at, opq), at + 24, (n - 1) as nat, opq)
    }
}

/// How many blocks [`blocks_step`] sanitises.
pub open spec fn blocks_taken(len: int, at: int, n: nat) -> nat {
    if at < 0 || at > len {
        0
    } else if (len - at) / 24 < n {
        ((len - at) / 24) as nat
    } else {
        n
    }
}

/// The NTP timestamp of the sender information at `at`: 32.32 fixed point.
pub open spec fn ntp_at(b: Seq<u8>, at: int) -> u64 {
    (be32(b, at) * 0x1_0000_0000 + be32(b, at + 4)) as u64
}

/// Rebases the NTP and RTP timestamps of the sender information at `at`,
/// sent by `ssrc`, against the first ones seen from it.
pub open spec fn sender_info_step(st: RtcpModel, at: int, ssrc: u32) -> RtcpModel {
    let b = st.bytes;
    let ntp = ntp_at(b, at);
    let rtp = be32(b, at + 8) as u32;
    let sender = if st.sender.contains_key(ssrc) {
        st.sender
    } else {
        st.sender.insert(ssrc, (ntp, rtp))
    };
    let ntp_new = rebase64(ntp, sender[ssrc].0);
    let b1 = set_be32(b, at, (ntp_new / 0x1_0000_0000) as u32);
    let b2 = set_be32(b1, at + 4, (ntp_new % 0x1_0000_0000) as u32);
    RtcpModel {
        bytes: set_be32(b2, at + 8, rebase32(rtp, sender[ssrc].1)),
        sender,
        ..st
    }
}

/// Sanitises the compound packet from `cursor` on.
///
/// Each Sender or Receiver Report has its SSRC made opaque and its report
/// blocks sanitised, up to the count in its header; a Sender Report also has
/// its sender information rebased. Anything else ends the walk, and is cut
/// off: no rewrite rule exists for it, so none of its bytes are kept.
pub open spec fn compound_step(
    st: RtcpModel,
    cursor: int,
    len: int,
    opq: Map<u32, u64>,
) -> RtcpModel
    decreases len - cursor,
{
    let b = st.bytes;
    if cursor < 0 || len - cursor < 8 || (b[cursor + 1] != SENDER_REPORT && b[cursor + 1]
        != RECEIVER_REPORT) {
        RtcpModel {
            bytes: if 0 <= cursor <= b.len() {
                b.subrange(0, cursor)
            } else {
                b
            },
            ..st
        }
    } else {
        let ssrc = be32(b, cursor + 4) as u32;
        let n = (b[cursor] % 32) as nat;
        let st1 = RtcpModel { bytes: set_be32(b, cursor + 4, opaque_ssrc(opq, ssrc)), ..st };
        if b[cursor + 1] == SENDER_REPORT {
            if len - cursor - 8 < 20 {
                compound_step(st1, cursor + 8, len, opq)
            } else {
                let st2 = sender_info_step(st1, cursor + 8, ssrc);
                let k = blocks_taken(len, cursor + 28, n);
                compound_step(
                    blocks_step(st2, cursor + 28, n, opq),
                    cursor + 28 + 24 * k,
                    len,
                    opq,
                )
            }
        } else {
            let k = blocks_taken(len, cursor + 8, n);
            compound_step(blocks_step(st1, cursor + 8, n, opq), cursor + 8 + 24 * k, len, opq)
        }
    }
}

proof fn lemma_block_within(st: RtcpModel, at: int, opq: Map<u32, u64>)
    requires
        0 <= at,
        at + 24 <= st.bytes.len(),
    ensures
        block_step(st, at, opq).bytes.len() == st.bytes.len(),
        forall|k: int|
            0 <= k < st.bytes.len() && !(at <= k < at + 24) ==> #[trigger] block_step(
                st,
                at,
                opq,
            ).bytes[k] == st.bytes[k],
{
}

/// Sanitising report blocks rewrites no byte outside the first `n` blocks
/// from `at`: never more blocks than the header declares.
pub proof fn lemma_blocks_within_count(st: RtcpModel, at: int, n: nat, opq: Map<u32, u64>)
    requires
        0 <= at,
    ensures
        blocks_step(st, at, n, opq).bytes.len() == st.bytes.len(),
        forall|k: int|
            0 <= k < st.bytes.len() && !(at <= k < at + 24 * n) ==> #[trigger] blocks_step(
                st,
                at,
                n,
                opq,
            ).bytes[k] == st.bytes[k],
        blocks_taken(st.bytes.len() as int, at, n) <= n,
    decreases n,
{
    if n > 0 && at + 24 <= st.bytes.len() {
        let st1 = block_step(st, at, opq);
        lemma_block_within(st, at, opq);
        lemma_blocks_within_count(st1, at + 24, (n - 1) as nat, opq);
        assert forall|k: int| 0 <= k < st.bytes.len() && !(at <= k < at + 24 * n) implies
            #[trigger] blocks_step(st, at, n, opq).bytes[k] == st.bytes[k] by {
            assert(!(at + 24 <= k < at + 24 + 24 * (n - 1)));
            assert(!(at <= k < at + 24));
        }
    }
}

fn read_be16(b: &Vec<u8>, at: usize) -> (r: u16)
    requires
        at + 2 <= b@.len() <= usize::MAX,
    ensures
        r as int == be16(b@, at as int),
{
    let hi = b[at] as u16;
    let lo = b[at + 1] as u16;
    hi * 256 + lo
}

fn read_be32(b: &Vec<u8>, at: usize) -> (r: u32)
    requires
        at + 4 <= b@.len() <= usize::MAX,
    ensures
        r as int == be32(b@, at as int),
{
    let b0 = b[at] as u32;
    let b1 = b[at + 1] as u32;
    let b2 = b[at + 2] as u32;
    let b3 = b[at + 3] as u32;
    b0 * 16777216 + b1 * 65536 + b2 * 256 + b3
}

fn write_be16(b: &mut Vec<u8>, at: usize, v: u16)
    requires
        at + 2 <= old(b)@.len() <= usize::MAX,
    ensures
        final(b)@ == set_be16(old(b)@, at as int, v),
{
    b.set(at, (v / 256) as u8);
    b.set(at + 1, (v % 256) as u8);
}

fn write_be32(b: &mut Vec<u8>, at: usize, v: u32)
    requires
        at + 4 <= old(b)@.len() <= usize::MAX,
    ensures
        final(b)@ == set_be32(old(b)@, at as int, v),
{
    b.set(at, (v / 16777216) as u8);
    b.set(at + 1, (v / 65536 % 256) as u8);
    b.set(at + 2, (v / 256 % 256) as u8);
    b.set(at + 3, (v % 256) as u8);
}

/// The opaque ID that replaces `ssrc`.
pub fn opaque_of(ssrc_to_opaque: &HashMap<u32, u64>, ssrc: u32) -> (r: u32)
    ensures
        r == opaque_ssrc(ssrc_to_opaque@, ssrc),
{
    match ssrc_to_opaque.get(&ssrc) {
        Some(o) => *o as u32,
        None => MISSING_ID,
    }
}

/// The model made of the sanitiser's bytes and floors.
pub open spec fn model_of(
    bytes: Seq<u8>,
    last_sr: Map<u32, u32>,
    sender: Map<u32, (u64, u32)>,
    seq: Map<u32, (u16, u32)>,
) -> RtcpModel {
    RtcpModel { bytes, last_sr, sender, seq }
}

/// Rebases the NTP and RTP timestamps of the sender information at `at`.
fn sanitise_sender_info(
    bytes: &mut Vec<u8>,
    at: usize,
    ssrc: u32,
    sender: &mut HashMap<u32, (u64, u32)>,
)
    requires
        at + 20 <= old(bytes)@.len() <= usize::MAX,
    ensures
        ({
            let st = sender_info_step(
                model_of(old(bytes)@, Map::empty(), old(sender)@, Map::empty()),
                at as int,
                ssrc,
            );
            final(bytes)@ == st.bytes && final(sender)@ == st.sender
        }),
{
    let seconds = read_be32(bytes, at);
    let fraction = read_be32(bytes, at + 4);
    let rtp = read_be32(bytes, at + 8);
    let ntp: u64 = (seconds as u64) * 0x1_0000_0000 + fraction as u64;
    let base = match sender.get(&ssrc) {
        Some(f) => *f,
        None => {
            sender.insert(ssrc, (ntp, rtp));
            (ntp, rtp)
        },
    };
    let ntp_new = ntp.wrapping_sub(base.0);
    write_be32(bytes, at, (ntp_new / 0x1_0000_0000) as u32);
    write_be32(bytes, at + 4, (ntp_new % 0x1_0000_0000) as u32);
    write_be32(bytes, at + 8, rtp.wrapping_sub(base.1));
}

impl LiveTrace {
    /// Sanitises the report block at `at` of `bytes`: its SSRC becomes
    /// opaque, its last-SR timestamp is rebased against the first one seen
    /// for that SSRC unless zero, and its sequence number against the
    /// source's floor.
    pub fn sanitise_rtcp_report_block(
        &mut self,
        bytes: &mut Vec<u8>,
        at: usize,
        ssrc_to_opaque: &HashMap<u32, u64>,
        ssrc_ntp_timestamp_map: &mut HashMap<u32, u32>,
    )
        requires
            at + 24 <= old(bytes)@.len() <= usize::MAX,
        ensures
            ({
                let st = block_step(
                    RtcpModel {
                        bytes: old(bytes)@,
                        last_sr: old(ssrc_ntp_timestamp_map)@,
                        sender: Map::empty(),
                        seq: old(self).first_measures@,
                    },
                    at as int,
                    ssrc_to_opaque@,
                );
                &&& final(bytes)@ == st.bytes
                &&& final(ssrc_ntp_timestamp_map)@ == st.last_sr
                &&& final(self).first_measures@ == st.seq
            }),
            final(self).same_but_floors(old(self)),
            final(self).wf() == old(self).wf(),
    {
        let ssrc = read_be32(bytes, at);
        let seen = read_be32(bytes, at + 16);
        let seq_seen = read_be16(bytes, at + 10);
        let opaque = opaque_of(ssrc_to_opaque, ssrc);
        write_be32(bytes, at, opaque);
        if seen > 0 {
            let base = match ssrc_ntp_timestamp_map.get(&ssrc) {
                Some(b) => *b,
                None => seen,
            };
            ssrc_ntp_timestamp_map.insert(ssrc, base);
            write_be32(bytes, at + 16, seen.wrapping_sub(base));
        }
        let base_seq = match self.first_measures.get(&ssrc) {
            Some(f) => f.0,
            None => {
                self.first_measures.insert(ssrc, (seq_seen, 0));
                seq_seen
            },
        };
        write_be16(bytes, at + 10, seq_seen.wrapping_sub(base_seq));
    }

    /// Sanitises up to `n` report blocks from `at` on, and returns the position
    /// after the last one sanitised.
    fn sanitise_blocks(
        &mut self,
        bytes: &mut Vec<u8>,
        at: usize,
        n: u8,
        ssrc_to_opaque: &HashMap<u32, u64>,
        last_sr: &mut HashMap<u32, u32>,
        sender: &HashMap<u32, (u64, u32)>,
    ) -> (r: usize)
        requires
            at <= old(bytes)@.len() <= usize::MAX,
        ensures
            model_of(final(bytes)@, final(last_sr)@, sender@, final(self).first_measures@)
                == blocks_step(
                model_of(old(bytes)@, old(last_sr)@, sender@, old(self).first_measures@),
                at as int,
                n as nat,
                ssrc_to_opaque@,
            ),
            r == at + 24 * blocks_taken(old(bytes)@.len() as int, at as int, n as nat),
            final(bytes)@.len() == old(bytes)@.len(),
            final(self).same_but_floors(old(self)),
            final(self).wf() == old(self).wf(),
    {
        let ghost st0 = model_of(bytes@, last_sr@, sender@, self.first_measures@);
        let ghost s0 = *self;
        let len = bytes.len();
        let mut cursor: usize = at;
        let mut done: u8 = 0;
        while done < n && len - cursor >= 24
            invariant
                at <= cursor <= len,
                len == bytes@.len(),
                done <= n,
                cursor == at + 24 * done,
                blocks_step(st0, at as int, n as nat, ssrc_to_opaque@) == blocks_step(
                    model_of(bytes@, last_sr@, sender@, self.first_measures@),
                    cursor as int,
                    (n - done) as nat,
                    ssrc_to_opaque@,
                ),
                self.same_but_floors(&s0),
                self.wf() == s0.wf(),
            decreases n - done,
        {
            self.sanitise_rtcp_report_block(bytes, cursor, ssrc_to_opaque, last_sr);
            cursor += 24;
            done += 1;
        }
        proof {
            let r = len - cursor;
            if done < n {
                assert((len - at) / 24 == done as int) by (nonlinear_arith)
                    requires
                        len - at == 24 * done + r,
                        0 <= r < 24,
                ;
            } else {
                assert((len - at) / 24 >= done as int) by (nonlinear_arith)
                    requires
                        len - at == 24 * done + r,
                        0 <= r,
                ;
            }
        }
        cursor
    }

    /// Sanitises a compound RTCP packet in place.
    ///
    /// Walks the Sender and Receiver Reports that it holds: each has its SSRC
    /// replaced by an opaque ID and its report blocks sanitised, never more
    /// than its header's count; a Sender Report also has its NTP and RTP
    /// timestamps rebased against the first ones seen from its sender. The
    /// walk stops at the first packet of any other kind, or at a tail too
    /// short for a report, and the bytes from there on are discarded: no
    /// rewrite rule exists for them.
    pub fn sanitise_rtcp(
        &mut self,
        bytes: &mut Vec<u8>,
        ssrc_to_opaque: &HashMap<u32, u64>,
        ssrc_ntp_timestamp_map: &mut HashMap<u32, u32>,
        ssrc_sr_ntp_rtp_timestamp_map: &mut HashMap<u32, (u64, u32)>,
    )
        ensures
            model_of(
                final(bytes)@,
                final(ssrc_ntp_timestamp_map)@,
                final(ssrc_sr_ntp_rtp_timestamp_map)@,
                final(self).first_measures@,
            ) == compound_step(
                model_of(
                    old(bytes)@,
                    old(ssrc_ntp_timestamp_map)@,
                    old(ssrc_sr_ntp_rtp_timestamp_map)@,
                    old(self).first_measures@,
                ),
                0,
                old(bytes)@.len() as int,
                ssrc_to_opaque@,
            ),
            final(self).same_but_floors(old(self)),
            final(self).wf() == old(self).wf(),
    {
        let ghost st0 = model_of(
            bytes@,
            ssrc_ntp_timestamp_map@,
            ssrc_sr_ntp_rtp_timestamp_map@,
            self.first_measures@,
        );
        let ghost s0 = *self;
        let len = bytes.len();
        let mut cursor: usize = 0;
        while len - cursor >= 8 && (bytes[cursor + 1] == SENDER_REPORT || bytes[cursor + 1]
            == RECEIVER_REPORT)
            invariant
                cursor <= len,
                len == bytes@.len(),
                compound_step(st0, 0, len as int, ssrc_to_opaque@) == compound_step(
                    model_of(
                        bytes@,
                        ssrc_ntp_timestamp_map@,
                        ssrc_sr_ntp_rtp_timestamp_map@,
                        self.first_measures@,
                    ),
                    cursor as int,
                    len as int,
                    ssrc_to_opaque@,
                ),
                self.same_but_floors(&s0),
                self.wf() == s0.wf(),
            decreases len - cursor,
        {
            let kind = bytes[cursor + 1];
            let n = bytes[cursor] % 32;
            let ssrc = read_be32(bytes, cursor + 4);
            let opaque = opaque_of(ssrc_to_opaque, ssrc);
            write_be32(bytes, cursor + 4, opaque);
            if kind == SENDER_REPORT {
                if len - cursor - 8 < 20 {
                    cursor += 8;
                } else {
                    sanitise_sender_info(bytes, cursor + 8, ssrc, ssrc_sr_ntp_rtp_timestamp_map);
                    cursor =
                        self.sanitise_blocks(
                            bytes,
                            cursor + 28,
                            n,
                            ssrc_to_opaque,
                            ssrc_ntp_timestamp_map,
                            ssrc_sr_ntp_rtp_timestamp_map,
                        );
                }
            } else {
                cursor =
                    self.sanitise_blocks(
                        bytes,
                        cursor + 8,
                        n,
                        ssrc_to_opaque,
                        ssrc_ntp_timestamp_map,
                        ssrc_sr_ntp_rtp_timestamp_map,
                    );
            }
        }
        bytes.truncate(cursor);
    }
}

} // verus!
