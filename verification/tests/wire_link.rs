use zetta_com::jitter::Jitter;
use zetta_com::discovery::PeerAddr;
use zetta_com::link::{Counters, Delivery, Receiver, Transmitter};
use zetta_com::wire::{Header, HEADER_LEN, KIND_AUDIO, KIND_TEXT, MAX_PAYLOAD, VER};

const ALICE: PeerAddr = PeerAddr { ip: 0x0a00_0001, port: 9001 };
const BOB: PeerAddr = PeerAddr { ip: 0x0a00_0002, port: 9001 };

fn datagram(kind: u8, seq: u16, ts: u32, payload: &[u8]) -> Vec<u8> {
    let mut v = vec![0u8; HEADER_LEN];
    Header { ver: VER, kind, seq, ts }.write(&mut v);
    v.extend_from_slice(payload);
    v
}

#[test]
fn header_is_big_endian() {
    let mut buf = [0xAAu8; 10];
    Header { ver: 1, kind: 2, seq: 0x0102, ts: 0x0304_0506 }.write(&mut buf);
    assert_eq!(buf, [1, 2, 1, 2, 3, 4, 5, 6, 0xAA, 0xAA]);
}

#[test]
fn header_round_trips() {
    let h = Header { ver: VER, kind: KIND_TEXT, seq: 65535, ts: 0xdead_beef };
    let mut buf = [0u8; 8];
    h.write(&mut buf);
    assert_eq!(Header::parse(&buf), Some(h));
}

#[test]
fn parse_refuses_short_and_foreign() {
    assert_eq!(Header::parse(&[1]), None);
    assert_eq!(Header::parse(&[1, 0, 0, 0, 0, 0, 0]), None);
    assert_eq!(Header::parse(&[2, 0, 0, 0, 0, 0, 0, 0]), None);
    assert_eq!(
        Header::parse(&[1, 0, 0, 7, 0, 0, 1, 0, 9]),
        Some(Header { ver: 1, kind: 0, seq: 7, ts: 256 })
    );
}

fn push(j: &mut Jitter, seq: u16, b: u8) -> Vec<Option<Vec<u8>>> {
    let mut out = Vec::new();
    j.push(seq, vec![b], &mut out);
    out
}

#[test]
fn jitter_in_order_passes_through() {
    let mut j = Jitter::new();
    assert_eq!(push(&mut j, 10, 1), vec![Some(vec![1])]);
    assert_eq!(push(&mut j, 11, 2), vec![Some(vec![2])]);
    assert_eq!(push(&mut j, 12, 3), vec![Some(vec![3])]);
}

#[test]
fn jitter_reorders() {
    let mut j = Jitter::new();
    assert_eq!(push(&mut j, 0, 0), vec![Some(vec![0])]);
    assert_eq!(push(&mut j, 2, 2), vec![]);
    assert_eq!(push(&mut j, 1, 1), vec![Some(vec![1]), Some(vec![2])]);
}

#[test]
fn jitter_gives_up_after_three_banked() {
    let mut j = Jitter::new();
    push(&mut j, 0, 0);
    assert_eq!(push(&mut j, 2, 2), vec![]);
    assert_eq!(push(&mut j, 3, 3), vec![]);
    assert_eq!(
        push(&mut j, 4, 4),
        vec![None, Some(vec![2]), Some(vec![3]), Some(vec![4])]
    );
}

#[test]
fn jitter_across_the_wrap() {
    let mut j = Jitter::new();
    assert_eq!(push(&mut j, 65534, 1), vec![Some(vec![1])]);
    assert_eq!(push(&mut j, 0, 3), vec![]);
    assert_eq!(push(&mut j, 65535, 2), vec![Some(vec![2]), Some(vec![3])]);
    assert_eq!(push(&mut j, 1, 4), vec![Some(vec![4])]);
}

#[test]
fn jitter_drops_late_and_restarts_far_ahead() {
    let mut j = Jitter::new();
    push(&mut j, 100, 1);
    assert_eq!(push(&mut j, 99, 9), vec![]);
    assert_eq!(push(&mut j, 100, 9), vec![]);
    // 40 ahead is too far to be reordering: start over there.
    assert_eq!(push(&mut j, 141, 5), vec![Some(vec![5])]);
    assert_eq!(push(&mut j, 142, 6), vec![Some(vec![6])]);
}

#[test]
fn receiver_counts() {
    let mut r = Receiver::new();
    assert!(matches!(r.on_datagram(ALICE, &[1, 2, 3]), Delivery::Refused));
    assert!(matches!(r.on_datagram(ALICE, &[9, 0, 0, 0, 0, 0, 0, 0, 1]), Delivery::Refused));
    let c = r.counters();
    assert_eq!((c.bad, c.rx, c.lost), (2, 0, 0));

    match r.on_datagram(ALICE, &datagram(KIND_AUDIO, 5, 0, &[7, 7])) {
        Delivery::Audio(f) => assert_eq!(f, vec![Some(vec![7, 7])]),
        _ => panic!("expected audio"),
    }
    // Three missing between 5 and 9.
    r.on_datagram(ALICE, &datagram(2, 9, 0, &[]));
    let c = r.counters();
    assert_eq!((c.rx, c.lost, c.last_seq), (2, 3, 9));
    // A late one counts nothing.
    r.on_datagram(ALICE, &datagram(2, 7, 0, &[]));
    assert_eq!(r.counters().lost, 3);
}

#[test]
fn receiver_counts_no_loss_across_wrap() {
    let mut r = Receiver::new();
    r.on_datagram(ALICE, &datagram(2, 65535, 0, &[]));
    r.on_datagram(ALICE, &datagram(2, 0, 0, &[]));
    r.on_datagram(ALICE, &datagram(2, 1, 0, &[]));
    assert_eq!(r.counters().lost, 0);
    assert_eq!(r.counters().rx, 3);
}

#[test]
fn receiver_hands_back_text_and_ignores_empty_audio() {
    let mut r = Receiver::new();
    match r.on_datagram(ALICE, &datagram(KIND_TEXT, 0, 0, b"hi")) {
        Delivery::Text(t) => assert_eq!(t, b"hi".to_vec()),
        _ => panic!("expected text"),
    }
    assert!(matches!(r.on_datagram(ALICE, &datagram(KIND_AUDIO, 1, 0, &[])), Delivery::Nothing));
    r.note_sent();
    assert_eq!(r.counters().tx, 1);
}

#[test]
fn transmitter_numbers_datagrams() {
    let mut t = Transmitter::new();
    let a = t.audio(&[9, 8], 320).unwrap();
    assert_eq!(a, vec![1, 0, 0, 0, 0, 0, 0, 0, 9, 8]);
    let b = t.audio(&[1], 320).unwrap();
    assert_eq!(b, vec![1, 0, 0, 1, 0, 0, 1, 64, 1]);
    let c = t.text("é").unwrap();
    assert_eq!(c, vec![1, 1, 0, 2, 0, 0, 2, 128, 0xc3, 0xa9]);
    assert_eq!((t.seq, t.ts), (3, 640));
    assert!(t.audio(&vec![0u8; MAX_PAYLOAD + 1], 320).is_none());
    assert_eq!(t.seq, 3);
}

#[test]
fn transmitter_wraps() {
    let mut t = Transmitter { seq: 65535, ts: u32::MAX - 100 };
    let a = t.audio(&[], 960).unwrap();
    assert_eq!(&a[..4], &[1, 0, 0xff, 0xff]);
    assert_eq!((t.seq, t.ts), (0, 859));
}

#[test]
fn counters_snapshot() {
    let c = Counters { tx: 1, rx: 2, bad: 3, lost: 4, last_seq: 5 };
    let s = c.stats(9001, "10.0.0.2:9001".to_string());
    assert_eq!((s.port, s.tx, s.rx, s.bad, s.lost, s.last_seq), (9001, 1, 2, 3, 4, 5));
    assert_eq!(s.peer, "10.0.0.2:9001");
}

#[test]
fn heartbeat_takes_a_number_and_costs_no_loss() {
    let mut t = Transmitter { seq: 7, ts: 320 };
    let hb = t.heartbeat();
    assert_eq!(hb, vec![VER, zetta_com::wire::KIND_HEARTBEAT, 0, 7, 0, 0, 1, 64]);
    assert_eq!((t.seq, t.ts), (8, 320));
    let mut r = Receiver::new();
    assert!(matches!(r.on_datagram(ALICE, &hb), Delivery::Nothing));
    let a = t.audio(&[1], 320).unwrap();
    match r.on_datagram(ALICE, &a) {
        Delivery::Audio(f) => assert_eq!(f, vec![Some(vec![1])]),
        _ => panic!("expected audio"),
    }
    assert_eq!(r.counters().lost, 0);
    assert_eq!(r.counters().rx, 2);
    assert_eq!(r.counters().last_seq, 8);
}

#[test]
fn each_talker_has_a_window_of_their_own() {
    let mut r = Receiver::new();
    let a = |seq: u16, b: u8| datagram(KIND_AUDIO, seq, 0, &[b]);
    let got = |d: Delivery| match d {
        Delivery::Audio(f) => f,
        _ => panic!("expected audio"),
    };
    assert_eq!(got(r.on_datagram(ALICE, &a(0, 1))), vec![Some(vec![1])]);
    assert_eq!(got(r.on_datagram(BOB, &a(500, 7))), vec![Some(vec![7])]);
    assert_eq!(got(r.on_datagram(ALICE, &a(1, 2))), vec![Some(vec![2])]);
    assert_eq!(got(r.on_datagram(BOB, &a(501, 8))), vec![Some(vec![8])]);
    assert_eq!(r.counters().lost, 0);
    assert_eq!(r.counters().rx, 4);
    // A gap in one stream is counted once, and only there.
    r.on_datagram(BOB, &a(504, 9));
    assert_eq!(r.counters().lost, 2);
    assert_eq!(got(r.on_datagram(ALICE, &a(2, 3))), vec![Some(vec![3])]);
    assert_eq!(r.counters().lost, 2);
}

#[test]
fn window_is_at_rest_after_any_pushes() {
    // Whatever arrives, at most two payloads stay held and the one waited
    // for is not among them: a third banked forces a release.
    let mut j = Jitter::new();
    let mut released = 0;
    for seq in [10u16, 12, 14, 16, 11, 30, 29, 100, 99, 101] {
        released += push(&mut j, seq, seq as u8).len();
    }
    assert!(released > 0);
    assert_eq!(push(&mut j, 102, 1), vec![Some(vec![1])]);
}

#[test]
fn counters_add_up_over_a_history() {
    let mut r = Receiver::new();
    let a = |seq: u16| datagram(KIND_AUDIO, seq, 0, &[seq as u8]);
    // Alice: 0, 1, 4 (two lost), 3 (late, no loss); Bob: 65534, 1 (two lost
    // across the wrap); two refused; three sent.
    r.on_datagram(ALICE, &a(0));
    r.on_datagram(BOB, &a(65534));
    r.note_sent();
    r.on_datagram(ALICE, &a(1));
    r.on_datagram(ALICE, &[1, 2]);
    r.on_datagram(ALICE, &a(4));
    r.note_sent();
    r.on_datagram(BOB, &a(1));
    r.on_datagram(ALICE, &a(3));
    r.on_datagram(BOB, &[7; 9]);
    r.note_sent();
    let c = r.counters();
    assert_eq!((c.tx, c.rx, c.bad, c.lost, c.last_seq), (3, 6, 2, 4, 3));
}
