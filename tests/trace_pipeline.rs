use felyne_trace::anonymise::{excluded_users, is_excluded};
use felyne_trace::live::{LiveTrace, RtcpHeader, RtpHeader};
use felyne_trace::merge::Origin;
use felyne_trace::receiver::{on_signal, Capture, CaptureEvent, ReceiverSignal, SignalPoll};
use felyne_trace::traces::FelyneTraceV2;
use felyne_trace::{
    is_safe_sub_extension, is_safe_top_extension, parse_extension, Event, Extension,
    FelyneTrace, Label, SubExtension, TopExtension, LISTENER_ID, MISSING_ID,
};
use std::collections::{HashMap, HashSet};

fn rtp(ssrc: u32, sequence: u16, timestamp: u32) -> RtpHeader {
    RtpHeader { ssrc, sequence, timestamp, extension: false }
}

fn trace() -> LiveTrace {
    LiveTrace::new(1_000, Label::Gaming, 3, Some("rotterdam".to_string()), Some(777))
}

fn be32(v: u32) -> [u8; 4] {
    v.to_be_bytes()
}

/// A Sender Report from `ssrc` with the given NTP seconds and RTP timestamp,
/// followed by `blocks` report blocks about `subject`.
fn sender_report(ssrc: u32, ntp_secs: u32, rtp_ts: u32, count: u8, blocks: usize, subject: u32) -> Vec<u8> {
    let mut b = vec![0x80 | count, 200, 0, 6];
    b.extend_from_slice(&be32(ssrc));
    b.extend_from_slice(&be32(ntp_secs));
    b.extend_from_slice(&be32(0x8000_0000));
    b.extend_from_slice(&be32(rtp_ts));
    b.extend_from_slice(&be32(10));
    b.extend_from_slice(&be32(1000));
    for _ in 0..blocks {
        b.extend_from_slice(&be32(subject));
        b.extend_from_slice(&[0, 0, 0, 0]);
        b.extend_from_slice(&[0, 0, 0x01, 0x2C]);
        b.extend_from_slice(&be32(5));
        b.extend_from_slice(&be32(0x0001_0000));
        b.extend_from_slice(&be32(0));
    }
    b
}

fn packets_of(events: &[(u128, Event)]) -> Vec<(u64, u16, u32)> {
    events
        .iter()
        .filter_map(|(_, e)| match e {
            Event::Packet { sender_id, sequence, timestamp, .. } => Some((*sender_id, *sequence, *timestamp)),
            _ => None,
        })
        .collect()
}

#[test]
fn rebasing_is_modular_per_source() {
    let mut t = trace();
    t.packet(2_000, &rtp(10, 100, 1000), &[0u8; 20], 0, 0);
    t.packet(2_100, &rtp(20, 65530, 4_294_967_000), &[0u8; 20], 0, 0);
    t.packet(2_200, &rtp(10, 105, 1960), &[0u8; 20], 0, 0);
    t.packet(2_300, &rtp(20, 4, 200), &[0u8; 20], 0, 0);
    let (events, _) = t.unify_event_streams(&HashSet::new());
    let p = packets_of(&events);
    assert_eq!(p.len(), 4);
    assert_eq!((p[0].1, p[0].2), (0, 0));
    assert_eq!((p[1].1, p[1].2), (0, 0));
    assert_eq!((p[2].1, p[2].2), (5, 960));
    assert_eq!((p[3].1, p[3].2), (10, 496));
}

#[test]
fn wrapped_second_source_gives_small_deltas() {
    let mut t = trace();
    t.packet(2_000, &rtp(1, 100, 1000), &[0u8; 8], 0, 0);
    t.packet(2_000, &rtp(2, 50000, 1000), &[0u8; 8], 0, 0);
    t.packet(3_000, &rtp(1, 101, 1960), &[0u8; 8], 0, 0);
    t.packet(3_000, &rtp(2, 50001, 1960), &[0u8; 8], 0, 0);
    t.packet(4_000, &rtp(2, 50003, 2920), &[0u8; 8], 0, 0);
    let (events, _) = t.unify_event_streams(&HashSet::new());
    let p = packets_of(&events);
    let seqs: Vec<(u16, u32)> = p.iter().map(|x| (x.1, x.2)).collect();
    assert_eq!(seqs, vec![(0, 0), (0, 0), (1, 960), (1, 960), (3, 1920)]);
}

#[test]
fn audio_bytes_exclude_offsets_and_extension() {
    let mut t = trace();
    let mut payload = vec![0xBE, 0xDE, 0, 1, 0x10, 7, 0, 0];
    payload.extend_from_slice(&[9u8; 40]);
    let h = RtpHeader { ssrc: 5, sequence: 1, timestamp: 1, extension: true };
    t.packet(2_000, &h, &payload, 0, 4);
    let (events, _) = t.unify_event_streams(&HashSet::new());
    match &events[0].1 {
        Event::Packet { audio_bytes, extension, .. } => {
            assert_eq!(*audio_bytes, 48 - 4 - 8);
            let expected = Extension::OneByte(
                TopExtension { info: 0xBEDE, length: 4 },
                vec![SubExtension { id: 1, length: 1, body: vec![7] }],
            );
            assert_eq!(extension.as_ref(), Some(&expected));
        },
        other => panic!("unexpected event {:?}", other),
    }
}

#[test]
fn one_byte_extension_keeps_only_allow_listed_bodies() {
    // id 1 (kept, 2 bytes), id 3 (dropped, 3 bytes), padding, id 9 (kept, 1 byte).
    let data = vec![0xBE, 0xDE, 0, 3, 0x11, 0xAA, 0xBB, 0x32, 1, 2, 3, 0, 0x90, 0xCC, 0, 0];
    let ext = parse_extension(&data).unwrap();
    assert_eq!(
        ext,
        Extension::OneByte(
            TopExtension { info: 0xBEDE, length: 12 },
            vec![
                SubExtension { id: 1, length: 2, body: vec![0xAA, 0xBB] },
                SubExtension { id: 3, length: 3, body: vec![] },
                SubExtension { id: 9, length: 1, body: vec![0xCC] },
            ],
        )
    );
}

#[test]
fn one_byte_extension_stops_at_id_fifteen() {
    let data = vec![0xBE, 0xDE, 0, 1, 0xF0, 0x11, 0xAA, 0];
    let ext = parse_extension(&data).unwrap();
    assert_eq!(
        ext,
        Extension::OneByte(
            TopExtension { info: 0xBEDE, length: 4 },
            vec![SubExtension { id: 15, length: 1, body: vec![] }],
        )
    );
}

#[test]
fn two_byte_extension_keeps_only_allow_listed_bodies() {
    let data = vec![0x10, 0x00, 0, 2, 9, 2, 0xDE, 0xAD, 0, 4, 1, 0xEE];
    let ext = parse_extension(&data).unwrap();
    assert_eq!(
        ext,
        Extension::TwoByte(
            TopExtension { info: 0x1000, length: 8 },
            vec![
                SubExtension { id: 9, length: 2, body: vec![0xDE, 0xAD] },
                SubExtension { id: 4, length: 1, body: vec![] },
            ],
        )
    );
}

#[test]
fn standard_extension_body_is_redacted() {
    let data = vec![0x12, 0x34, 0, 1, 1, 2, 3, 4];
    assert_eq!(
        parse_extension(&data),
        Some(Extension::Standard(TopExtension { info: 0x1234, length: 4 }, vec![]))
    );
}

#[test]
fn short_extension_is_omitted() {
    assert_eq!(parse_extension(&[0xBE, 0xDE, 0]), None);
    assert_eq!(parse_extension(&[0xBE, 0xDE, 0, 2, 0x10, 1, 0, 0]), None);
    // A kept body that runs past the declared data.
    assert_eq!(parse_extension(&[0xBE, 0xDE, 0, 1, 0, 0, 0, 0x13]), None);
}

#[test]
fn allow_lists() {
    assert!(is_safe_top_extension(0xBEDE));
    assert!(!is_safe_top_extension(0x1000));
    assert!(is_safe_sub_extension(1));
    assert!(is_safe_sub_extension(9));
    assert!(!is_safe_sub_extension(2));
}

#[test]
fn sender_report_ntp_is_rebased_on_first_sight() {
    let x: u32 = 3_900_000_000;
    let mut opq = HashMap::new();
    opq.insert(42u32, 0u64);
    let mut last_sr = HashMap::new();
    let mut sender = HashMap::new();
    let mut t = trace();

    let mut first = sender_report(42, x, 5000, 0, 0, 0);
    t.sanitise_rtcp(&mut first, &opq, &mut last_sr, &mut sender);
    assert_eq!(&first[4..8], &[0, 0, 0, 0]);
    assert_eq!(&first[8..16], &[0; 8]);
    assert_eq!(&first[16..20], &[0; 4]);

    let mut later = sender_report(42, x + 7, 5960, 0, 0, 0);
    t.sanitise_rtcp(&mut later, &opq, &mut last_sr, &mut sender);
    assert_eq!(&later[8..12], &be32(7));
    assert_eq!(&later[12..16], &[0; 4]);
    assert_eq!(&later[16..20], &be32(960));
}

#[test]
fn sender_reports_are_rebased_across_events() {
    let mut t = trace();
    let sr1 = sender_report(42, 100, 5000, 0, 0, 0);
    let sr2 = sender_report(42, 130, 6000, 0, 0, 0);
    let h = RtcpHeader { version: 2, padding: 0, rx_report_count: 0, packet_type: 200, pkt_length: 6, ssrc: 42 };
    t.rtcp(2_000, &h, &sr1[8..], 0, 0);
    t.rtcp(3_000, &h, &sr2[8..], 0, 0);
    let (events, _) = t.unify_event_streams(&HashSet::new());
    let ntp: Vec<Vec<u8>> = events
        .iter()
        .filter_map(|(_, e)| match e {
            Event::RtcpData(b) => Some(b[8..12].to_vec()),
            _ => None,
        })
        .collect();
    assert_eq!(ntp, vec![be32(0).to_vec(), be32(30).to_vec()]);
    // An SSRC with no user becomes MISSING_ID.
    if let Event::RtcpData(b) = &events[0].1 {
        assert_eq!(&b[4..8], &be32(MISSING_ID));
        assert_eq!(b[1], 200);
    }
}

#[test]
fn report_blocks_stop_at_declared_count() {
    let opq: HashMap<u32, u64> = HashMap::new();
    let mut last_sr = HashMap::new();
    let mut sender = HashMap::new();
    let mut t = trace();
    // One block declared, two present: the second is a different packet's bytes.
    let mut rr = vec![0x81, 201, 0, 7];
    rr.extend_from_slice(&be32(9));
    for _ in 0..2 {
        rr.extend_from_slice(&be32(77));
        rr.extend_from_slice(&[0, 0, 0, 0, 0, 0, 0x01, 0x2C]);
        rr.extend_from_slice(&be32(5));
        rr.extend_from_slice(&be32(0x0001_0000));
        rr.extend_from_slice(&be32(0));
    }
    let untouched = rr[32..].to_vec();
    t.sanitise_rtcp(&mut rr, &opq, &mut last_sr, &mut sender);
    assert_eq!(&rr[4..8], &be32(MISSING_ID));
    assert_eq!(&rr[8..12], &be32(MISSING_ID));
    // Sequence 300 is the first seen from SSRC 77: rebased to zero.
    assert_eq!(&rr[18..20], &[0, 0]);
    assert_eq!(&rr[24..28], &be32(0));
    // The walk then stops at the bytes after the declared block, which are
    // no report: they are discarded.
    assert_eq!(untouched.len(), 24);
    assert_eq!(rr.len(), 32);
    assert_eq!(t.first_measures.get(&77), Some(&(300u16, 0u32)));
}

#[test]
fn zero_report_count_touches_no_block() {
    let opq: HashMap<u32, u64> = HashMap::new();
    let mut last_sr = HashMap::new();
    let mut sender = HashMap::new();
    let mut t = trace();
    let mut sr = sender_report(1, 10, 10, 0, 1, 55);
    t.sanitise_rtcp(&mut sr, &opq, &mut last_sr, &mut sender);
    assert_eq!(sr.len(), 28);
    assert!(t.first_measures.is_empty());
}

#[test]
fn report_block_is_rebased_against_floors() {
    let mut t = trace();
    t.packet(2_000, &rtp(77, 290, 1), &[0u8; 4], 0, 0);
    let mut opq = HashMap::new();
    opq.insert(77u32, 3u64);
    let mut last_sr = HashMap::new();
    let mut block = vec![0u8; 4];
    block.extend_from_slice(&be32(77));
    block.extend_from_slice(&[1, 0, 0, 2, 0, 0, 0x01, 0x2C]);
    block.extend_from_slice(&be32(5));
    block.extend_from_slice(&be32(1000));
    block.extend_from_slice(&be32(9));
    t.sanitise_rtcp_report_block(&mut block, 4, &opq, &mut last_sr);
    assert_eq!(&block[4..8], &be32(3));
    assert_eq!(&block[8..12], &[1, 0, 0, 2]);
    assert_eq!(&block[14..16], &[0, 10]);
    assert_eq!(&block[20..24], &be32(0));
    assert_eq!(&block[24..28], &be32(9));
    block[4..8].copy_from_slice(&be32(77));
    block[20..24].copy_from_slice(&be32(1500));
    t.sanitise_rtcp_report_block(&mut block, 4, &opq, &mut last_sr);
    assert_eq!(&block[20..24], &be32(500));
    // A zero "last SR" means that none was seen yet: it stays zero.
    block[4..8].copy_from_slice(&be32(77));
    block[20..24].copy_from_slice(&be32(0));
    t.sanitise_rtcp_report_block(&mut block, 4, &opq, &mut last_sr);
    assert_eq!(&block[20..24], &be32(0));
}

#[test]
fn unsanitisable_tail_is_discarded() {
    let opq: HashMap<u32, u64> = HashMap::new();
    let mut last_sr = HashMap::new();
    let mut sender = HashMap::new();
    let mut t = trace();
    // A source description naming someone, alone and after a report.
    let sdes = vec![0x81, 202, 0, 2, 0, 0, 0, 9, 1, 4, b'n', b'a', b'm', b'e', 0, 0];
    let mut alone = sdes.clone();
    t.sanitise_rtcp(&mut alone, &opq, &mut last_sr, &mut sender);
    assert!(alone.is_empty());
    let mut compound = sender_report(5, 1, 1, 0, 0, 0);
    compound.extend_from_slice(&sdes);
    t.sanitise_rtcp(&mut compound, &opq, &mut last_sr, &mut sender);
    assert_eq!(compound.len(), 28);
    assert_eq!(&compound[4..8], &be32(MISSING_ID));
    // A tail too short for a report is dropped too.
    let mut short = sender_report(5, 2, 2, 0, 0, 0);
    short.extend_from_slice(&[0x80, 200, 0]);
    t.sanitise_rtcp(&mut short, &opq, &mut last_sr, &mut sender);
    assert_eq!(short.len(), 28);
}

#[test]
fn other_rtcp_kinds_are_not_kept() {
    let mut t = trace();
    let h = RtcpHeader { version: 2, padding: 0, rx_report_count: 0, packet_type: 202, pkt_length: 1, ssrc: 1 };
    t.rtcp(2_000, &h, &[0u8; 8], 0, 0);
    let (events, _) = t.unify_event_streams(&HashSet::new());
    assert!(events.is_empty());
}

#[test]
fn merge_is_in_time_order_with_fixed_ties() {
    let mut t = trace();
    t.change_server(1_500, "first".to_string());
    t.speaking(1_700, 3, true);
    t.client_disconnect(1_600, 99);
    t.packet(1_700, &rtp(4, 1, 1), &[0u8; 4], 0, 0);
    let sr = sender_report(8, 1, 1, 0, 0, 0);
    let h = RtcpHeader { version: 2, padding: 0, rx_report_count: 0, packet_type: 200, pkt_length: 6, ssrc: 8 };
    t.rtcp(1_700, &h, &sr[8..], 0, 0);
    t.speaking(1_800, 3, false);
    t.change_server(1_800, "second".to_string());
    let (events, _) = t.unify_event_streams(&HashSet::new());
    let times: Vec<u128> = events.iter().map(|e| e.0).collect();
    assert_eq!(times, vec![500, 600, 700, 700, 700, 800, 800]);
    assert!(matches!(events[0].1, Event::ChangeServer(ref s) if s == "first"));
    assert!(matches!(events[1].1, Event::Disconnect(_)));
    assert!(matches!(events[2].1, Event::RtcpData(_)));
    assert!(matches!(events[3].1, Event::Speaking(_, true)));
    assert!(matches!(events[4].1, Event::Packet { .. }));
    assert!(matches!(events[5].1, Event::Speaking(_, false)));
    assert!(matches!(events[6].1, Event::ChangeServer(_)));
}

#[test]
fn events_before_start_count_as_start() {
    let t = trace();
    assert_eq!(t.make_event_relative((400, Event::Connect(1))), (0, Event::Connect(1)));
    assert_eq!(t.make_event_relative((1_250, Event::Connect(1))), (250, Event::Connect(1)));
}

#[test]
fn opaque_ids_follow_first_sight() {
    let mut t = trace();
    t.client_connect(2_000, 30, 5000);
    t.client_connect(1_900, 20, 6000);
    t.client_connect(2_100, 10, 5000);
    t.add_my_ssrc(50);
    t.speaking(2_200, 50, true);
    t.client_connect(2_300, 40, 777);
    t.client_disconnect(2_400, 8000);
    let (events, users) = t.unify_event_streams(&HashSet::new());
    assert_eq!(users.get(&6000), Some(&0));
    assert_eq!(users.get(&5000), Some(&1));
    assert_eq!(users.get(&8000), Some(&2));
    assert_eq!(users.get(&777), Some(&(LISTENER_ID as u64)));
    assert_eq!(users.len(), 4);
    let ids: Vec<Event> = events.into_iter().map(|e| e.1).collect();
    assert_eq!(
        ids,
        vec![
            Event::Connect(0),
            Event::Connect(1),
            Event::Connect(1),
            Event::Speaking(LISTENER_ID as u64, true),
            Event::Connect(LISTENER_ID as u64),
            Event::Disconnect(2),
        ]
    );
}

#[test]
fn unbound_ssrcs_get_fresh_users() {
    let mut t = trace();
    t.client_connect(2_000, 1, 0);
    t.speaking(2_100, 2, true);
    t.speaking(2_200, 3, true);
    let (events, users) = t.unify_event_streams(&HashSet::new());
    assert_eq!(users.get(&0), Some(&0));
    assert_eq!(users.get(&1), Some(&1));
    assert_eq!(users.get(&2), Some(&2));
    assert_eq!(events[1].1, Event::Speaking(1, true));
    assert_eq!(events[2].1, Event::Speaking(2, true));
}

#[test]
fn excluded_user_leaves_only_the_others() {
    let mut t = trace();
    t.packet(2_000, &rtp(10, 1, 1), &[0u8; 4], 0, 0);
    t.packet(2_100, &rtp(20, 1, 1), &[0u8; 4], 0, 0);
    t.speaking(2_200, 10, true);
    t.speaking(2_300, 20, true);
    let forbid = vec![0u64];
    match t.convert_to_stored(5_000, &forbid) {
        FelyneTrace::Vers2(v) => {
            assert_eq!(v.optout_users, vec![0]);
            assert_eq!(v.events.len(), 2);
            assert_eq!(packets_of(&v.events), vec![(1, 0, 0)]);
            assert_eq!(v.events[1].1, Event::Speaking(1, true));
        },
        other => panic!("unexpected trace {:?}", other),
    }
}

#[test]
fn stored_trace_fields() {
    let mut t = trace();
    t.change_server(1_100, "ams1".to_string());
    t.client_connect(1_200, 3, 41);
    t.client_connect(1_300, 4, 42);
    t.change_server(1_400, "ams2".to_string());
    let stored = t.convert_to_stored(9_000, &vec![42, 43]);
    let expected = FelyneTrace::Vers2(FelyneTraceV2 {
        events: vec![(200, Event::Connect(0)), (400, Event::ChangeServer("ams2".to_string()))],
        length: 8_000,
        label: Label::Gaming,
        region: None,
        region_override: Some("rotterdam".to_string()),
        server: Some("ams1".to_string()),
        optout_users: vec![1],
        total_user_count: 2,
        starting_user_count: 3,
    });
    assert_eq!(stored, expected);
}

#[test]
fn forbidden_users_lose_all_their_events() {
    let mut t = trace();
    t.client_connect(1_100, 10, 500);
    t.client_connect(1_200, 20, 600);
    t.speaking_state(1_300, 10, Some(500), 1);
    t.speaking_state(1_400, 20, Some(600), 1);
    t.packet(1_500, &rtp(10, 1, 1), &[0u8; 4], 0, 0);
    t.packet(1_600, &rtp(20, 1, 1), &[0u8; 4], 0, 0);
    t.speaking(1_700, 10, true);
    t.speaking(1_800, 20, true);
    t.client_disconnect(1_900, 500);
    t.client_disconnect(2_000, 600);
    match t.convert_to_stored(3_000, &vec![500, 500]) {
        FelyneTrace::Vers2(v) => {
            assert_eq!(v.optout_users, vec![0]);
            let kept: Vec<Event> = v.events.into_iter().map(|e| e.1).collect();
            assert_eq!(
                kept,
                vec![
                    Event::Connect(1),
                    Event::SpeakState(1, 1),
                    Event::Packet { sender_id: 1, sequence: 0, timestamp: 0, audio_bytes: 4, extension: None },
                    Event::Speaking(1, true),
                    Event::Disconnect(1),
                ]
            );
        },
        other => panic!("unexpected trace {:?}", other),
    }
}

#[test]
fn user_count_leaves_out_the_listener() {
    let mut t = trace();
    t.client_connect(1_100, 10, 500);
    t.client_connect(1_200, 11, 777);
    t.speaking_state(1_300, 12, Some(600), 0);
    match t.convert_to_stored(2_000, &vec![]) {
        FelyneTrace::Vers2(v) => assert_eq!(v.total_user_count, 2),
        other => panic!("unexpected trace {:?}", other),
    }
}

#[test]
fn fresh_users_avoid_listener_and_ssrcless_users() {
    let mut t = LiveTrace::new(0, Label::Social, 0, None, Some(0));
    t.client_disconnect(100, 1);
    t.speaking(200, 7, true);
    let (events, users) = t.unify_event_streams(&HashSet::new());
    // User 1 was seen only without an SSRC, and 0 is the listener: SSRC 7 gets user 2.
    assert_eq!(t.ssrc_to_user.get(&7), Some(&2));
    assert_eq!(users.get(&1), Some(&0));
    assert_eq!(users.get(&2), Some(&1));
    assert_eq!(users.get(&0), Some(&(LISTENER_ID as u64)));
    assert_eq!(events[1].1, Event::Speaking(1, true));
}

#[test]
fn exclusion_applied_to_every_user() {
    let standing = vec![(1u64, false, true), (2, true, true), (3, false, false), (4, false, true)];
    assert_eq!(excluded_users(&standing, true), vec![2, 3]);
    assert_eq!(excluded_users(&standing, false), vec![2]);
    assert!(excluded_users(&vec![], true).is_empty());
}

#[test]
fn known_users_in_registration_order() {
    let mut t = trace();
    t.client_connect(1_200, 3, 41);
    t.speaking_state(1_300, 4, Some(42), 1);
    t.speaking_state(1_400, 5, None, 1);
    t.client_connect(1_500, 6, 41);
    assert_eq!(t.known_users(), vec![41, 42]);
}

#[test]
fn exclusion_policy() {
    assert!(is_excluded(true, false, false));
    assert!(is_excluded(false, true, false));
    assert!(!is_excluded(false, true, true));
    assert!(!is_excluded(false, false, false));
}

#[test]
fn signals() {
    let p = on_signal(SignalPoll::Received(ReceiverSignal::Poison), false, true);
    assert!(p.cancel);
    assert!(on_signal(SignalPoll::Disconnected, false, true).cancel);
    let a = on_signal(SignalPoll::Received(ReceiverSignal::Active), false, false);
    assert_eq!((a.cancel, a.do_nothing), (false, Some(false)));
    let i = on_signal(SignalPoll::Received(ReceiverSignal::Inactive), false, false);
    assert_eq!(i.do_nothing, Some(true));
    let g = on_signal(SignalPoll::Received(ReceiverSignal::Inactive), false, true);
    assert_eq!(g.do_nothing, Some(false));
    assert_eq!(on_signal(SignalPoll::Empty, true, true).do_nothing, None);
}

#[test]
fn capture_lifecycle() {
    let mut c = Capture::new(trace(), false, false, true);
    assert!(!c.do_nothing);
    assert!(!c.act(SignalPoll::Empty, 2_000, CaptureEvent::ClientConnect { ssrc: 1, user_id: 9 }));
    assert!(!c.act(
        SignalPoll::Received(ReceiverSignal::Inactive),
        2_100,
        CaptureEvent::Speaking { ssrc: 1, speaking: true },
    ));
    assert!(c.do_nothing);
    assert!(!c.act(
        SignalPoll::Received(ReceiverSignal::Active),
        2_200,
        CaptureEvent::DriverConnect { ssrc: 7, server: "fra2".to_string() },
    ));
    assert!(c.act(
        SignalPoll::Received(ReceiverSignal::Poison),
        2_300,
        CaptureEvent::Speaking { ssrc: 1, speaking: false },
    ));
    assert!(c.poisoned);
    // Poison is terminal: later callbacks do nothing, whatever the channel holds.
    assert!(c.act(SignalPoll::Empty, 2_400, CaptureEvent::ClientConnect { ssrc: 2, user_id: 10 }));
    assert!(c.act(
        SignalPoll::Received(ReceiverSignal::Active),
        2_500,
        CaptureEvent::ClientConnect { ssrc: 3, user_id: 11 },
    ));
    let first = c.finish(3_000, &vec![]);
    match first {
        Some(FelyneTrace::Vers2(v)) => {
            assert_eq!(v.events, vec![(1_000, Event::Connect(0))]);
            assert_eq!(v.server, Some("fra2".to_string()));
        },
        other => panic!("unexpected trace {:?}", other),
    }
    assert!(c.finish(3_000, &vec![]).is_none());
}

#[test]
fn label_default_and_constants() {
    assert_eq!(Label::default(), Label::Unlabelled);
    assert_eq!(LISTENER_ID, u32::MAX);
    assert_eq!(MISSING_ID, u32::MAX - 1);
    let _ = Origin::Server;
}
