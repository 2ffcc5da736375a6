use zetta_com::commands::{
    audio_prefs, edit_manual, greet, manual_entry, nonblank_text, outgoing_text, set_label, CommandError,
};
use zetta_com::config::{lookup, Config};
use zetta_com::discovery::{Peer, PeerAddr};
use zetta_com::link::Delivery;
use zetta_com::session::{manual_peer, Presence, Session, HEARD_TIMEOUT_MS, TALKING_MS};
use zetta_com::wire::{Header, HEADER_LEN, KIND_AUDIO, KIND_TEXT, MAX_PAYLOAD, VER};

fn s(x: &str) -> String {
    x.to_string()
}

fn dgram(kind: u8, seq: u16, payload: &[u8]) -> Vec<u8> {
    let mut v = vec![0u8; HEADER_LEN];
    Header { ver: VER, kind, seq, ts: 0 }.write(&mut v);
    v.extend_from_slice(payload);
    v
}

const A: PeerAddr = PeerAddr { ip: 0x0a00_0005, port: 9001 };
const B: PeerAddr = PeerAddr { ip: 0x0a00_0006, port: 9001 };
const C: PeerAddr = PeerAddr { ip: 0x0a00_0007, port: 9001 };

#[test]
fn presence_tracks_heard_and_talking() {
    let mut p = Presence::new();
    assert!(!p.heard_within(A, 0, HEARD_TIMEOUT_MS));
    p.heard(A, 1000, false);
    assert!(p.heard_within(A, 1000 + HEARD_TIMEOUT_MS - 1, HEARD_TIMEOUT_MS));
    assert!(!p.heard_within(A, 1000 + HEARD_TIMEOUT_MS, HEARD_TIMEOUT_MS));
    assert!(!p.talking(A, 1000));
    p.heard(A, 2000, true);
    assert!(p.talking(A, 2000 + TALKING_MS - 1));
    assert!(!p.talking(A, 2000 + TALKING_MS));
    // Heard again without audio: still talking from the last audio.
    p.heard(A, 2100, false);
    assert!(p.talking(A, 2100));
    assert!(!p.heard_within(B, 2100, HEARD_TIMEOUT_MS));
}

#[test]
fn session_starts_empty() {
    let sess = Session::new(9001, s("10.0.0.2:9001"), vec![], vec![], vec![]);
    let st = sess.stats();
    assert_eq!((st.port, st.peer.as_str()), (9001, "10.0.0.2:9001"));
    assert_eq!((st.tx, st.rx, st.bad, st.lost, st.last_seq), (0, 0, 0, 0, 0));
    assert!(sess.messages(&vec![]).is_empty());
    assert!(sess.live_targets(&vec![A], 0).is_empty());
}

#[test]
fn session_datagrams_mark_presence_and_count() {
    let mut sess = Session::new(9001, s(""), vec![], vec![], vec![]);
    match sess.on_datagram(A, &dgram(KIND_AUDIO, 0, &[1, 2]), 1000) {
        Delivery::Audio(f) => assert_eq!(f, vec![Some(vec![1, 2])]),
        _ => panic!("expected audio"),
    }
    assert!(matches!(sess.on_datagram(B, &[1, 2, 3], 1000), Delivery::Refused));
    let st = sess.stats();
    assert_eq!((st.rx, st.bad), (1, 1));
    assert_eq!(sess.live_targets(&vec![B, A], 1000), vec![A]);
    assert!(sess.live_targets(&vec![A], 1000 + HEARD_TIMEOUT_MS).is_empty());
    sess.note_sent();
    assert_eq!(sess.stats().tx, 1);
}

#[test]
fn session_logs_what_it_sends_and_names_what_arrives() {
    let mut sess = Session::new(9001, s(""), vec![], vec![], vec![]);
    let d = sess.send_text("hi").unwrap();
    assert_eq!(d, vec![VER, KIND_TEXT, 0, 0, 0, 0, 0, 0, b'h', b'i']);
    let a = sess.audio_datagram(&[5], 320).unwrap();
    assert_eq!(a, vec![VER, KIND_AUDIO, 0, 1, 0, 0, 0, 0, 5]);
    assert!(sess.send_text(&"x".repeat(MAX_PAYLOAD + 1)).is_none());
    sess.record_text(s("10.0.0.5:9001"), s("yo"));
    sess.record_text(s("10.0.0.8:9001"), s("hey"));
    let names = vec![(s("10.0.0.5:9001"), s("Bob")), (s(""), s("Nobody"))];
    let m = sess.messages(&names);
    assert_eq!(m.len(), 3);
    assert_eq!((m[0].from.as_str(), m[0].text.as_str(), m[0].mine), ("", "hi", true));
    assert_eq!((m[1].from.as_str(), m[1].text.as_str(), m[1].mine), ("Bob", "yo", false));
    assert_eq!((m[2].from.as_str(), m[2].text.as_str()), ("10.0.0.8:9001", "hey"));
}

#[test]
fn session_aims_at_one_or_everyone_live() {
    let mut sess = Session::new(9001, s(""), vec![], vec![], vec![]);
    let live = vec![A, B];
    assert_eq!(sess.destinations(&live), live);
    sess.set_target(Some(C));
    assert_eq!(sess.destinations(&live), vec![C]);
    sess.set_target(None);
    assert_eq!(sess.destinations(&live), live);
}

fn found(name: &str, addr: PeerAddr) -> Peer {
    Peer { id: s(name), name: s(name), addr, live: true, talking: false, manual: false }
}

#[test]
fn manual_peers_join_the_send_list_once() {
    let manual = vec![manual_peer(&s("10.0.0.5:9001"), A), manual_peer(&s("pc-b:9001"), B)];
    let sess = Session::new(9001, s(""), manual, vec![], vec![]);
    assert_eq!(sess.known_targets(&vec![B, C]), vec![B, C, A]);
    assert_eq!(sess.known_targets(&vec![]), vec![A, B]);
}

#[test]
fn manual_peer_is_shown_as_typed() {
    let p = manual_peer(&s("10.0.0.5:9001"), A);
    assert_eq!(p.id, "manual:10.0.0.5:9001");
    assert_eq!(p.name, "10.0.0.5:9001");
    assert_eq!(p.addr, A);
    assert!(p.manual && !p.live && !p.talking);
}

#[test]
fn roster_merges_typed_and_found_and_reports_presence() {
    let manual = vec![manual_peer(&s("10.0.0.5:9001"), A), manual_peer(&s("typed-b"), B)];
    let mut sess = Session::new(9001, s(""), manual, vec![], vec![]);
    sess.on_datagram(B, &dgram(KIND_AUDIO, 0, &[1]), 5000);
    let ps = sess.peers(&vec![found("bob", B)], 5100);
    assert_eq!(ps.len(), 2);
    assert_eq!(ps[0].name, "10.0.0.5:9001");
    assert!(!ps[0].live && !ps[0].talking && ps[0].manual);
    assert_eq!(ps[1].name, "bob");
    assert!(ps[1].live && ps[1].talking && ps[1].manual);
    let later = sess.peers(&vec![found("bob", B)], 5000 + HEARD_TIMEOUT_MS);
    assert!(!later[1].live && !later[1].talking);
}

#[test]
fn audio_prefs_drop_blank_names() {
    let mut c = Config::default();
    c.input_device = Some(s("  Mic  "));
    c.output_device = Some(s("   "));
    let p = audio_prefs(&c);
    assert_eq!(p.input, Some(s("Mic")));
    assert_eq!(p.output, None);
    assert_eq!(nonblank_text(&None), None);
    assert_eq!(nonblank_text(&Some(s("x"))), Some(s("x")));
}

#[test]
fn greet_formats() {
    assert_eq!(greet("Ann"), "Hello, Ann! You've been greeted from Rust!");
}

#[test]
fn manual_entry_trims_and_refuses_blank() {
    assert_eq!(manual_entry(&s("  10.0.0.1:9001 ")), Ok(s("10.0.0.1:9001")));
    assert_eq!(manual_entry(&s(" \t ")), Err(CommandError::EmptyAddress));
}

#[test]
fn edit_manual_adds_once_and_removes_every_copy() {
    let mut v = vec![s("a"), s("b"), s("a")];
    edit_manual(&mut v, Some(s("c")), None);
    assert_eq!(v, vec![s("a"), s("b"), s("a"), s("c")]);
    edit_manual(&mut v, Some(s("b")), None);
    assert_eq!(v.len(), 4);
    edit_manual(&mut v, None, Some(s("a")));
    assert_eq!(v, vec![s("b"), s("c")]);
    edit_manual(&mut v, Some(s("d")), Some(s("d")));
    assert_eq!(v, vec![s("b"), s("c")]);
}

#[test]
fn outgoing_text_trims_or_sends_nothing() {
    assert_eq!(outgoing_text("  hi "), Some(s("hi")));
    assert_eq!(outgoing_text(" \n"), None);
}

#[test]
fn set_label_names_and_clears() {
    let mut labels: Vec<(String, String)> = vec![];
    set_label(&mut labels, s("10.0.0.1:9001"), &s("  Bob "));
    assert_eq!(lookup(&labels, &s("10.0.0.1:9001")), Some(s("Bob")));
    set_label(&mut labels, s("10.0.0.1:9001"), &s("Robert"));
    assert_eq!(lookup(&labels, &s("10.0.0.1:9001")), Some(s("Robert")));
    assert_eq!(labels.len(), 1);
    set_label(&mut labels, s("10.0.0.1:9001"), &s(" "));
    assert_eq!(lookup(&labels, &s("10.0.0.1:9001")), None);
}

#[test]
fn session_heartbeat_marks_presence_not_talking() {
    let mut sess = Session::new(9001, s(""), vec![], vec![], vec![]);
    sess.send_text("a").unwrap();
    let hb = sess.heartbeat_datagram();
    assert_eq!(hb, vec![VER, zetta_com::wire::KIND_HEARTBEAT, 0, 1, 0, 0, 0, 0]);
    assert_eq!(sess.send_text("b").unwrap()[..4], [VER, KIND_TEXT, 0, 2]);
    // A heartbeat marks its sender as heard, not as talking.
    let mut other = Session::new(9002, s(""), vec![], vec![], vec![]);
    assert!(matches!(other.on_datagram(A, &hb, 100), Delivery::Nothing));
    let ps = other.peers(&vec![found("a", A)], 100);
    assert!(ps[0].live && !ps[0].talking);
}

#[test]
fn roster_shows_given_names_and_the_order_asked_for() {
    let manual = vec![manual_peer(&s("10.0.0.5:9001"), A)];
    let mut sess = Session::new(9001, s(""), manual, vec![(B, s("Rafi"))], vec![]);
    let found = vec![found("DEVS002", B), found("zed", C)];
    let names: Vec<String> = sess.peers(&found, 0).into_iter().map(|p| p.name).collect();
    assert_eq!(names, vec!["10.0.0.5:9001", "Rafi", "zed"]);
    // Listed addresses first, in that order; everyone else after, by name.
    sess.set_order(vec![C, A, C]);
    let names: Vec<String> = sess.peers(&found, 0).into_iter().map(|p| p.name).collect();
    assert_eq!(names, vec!["zed", "10.0.0.5:9001", "Rafi"]);
    sess.set_labels(vec![]);
    sess.set_order(vec![PeerAddr { ip: 1, port: 1 }]);
    let names: Vec<String> = sess.peers(&found, 0).into_iter().map(|p| p.name).collect();
    assert_eq!(names, vec!["10.0.0.5:9001", "DEVS002", "zed"]);
}
