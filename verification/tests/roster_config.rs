use zetta_com::config::{default_presets, default_talk_shortcut, lookup, remove_entry, set_entry, Config};
use zetta_com::discovery::{label_of, sort_by_name, Peer, PeerAddr, Resolution, Resolved, Roster, PEER_TIMEOUT_MS};
use zetta_com::text::{chars_of, less, replaced, string_of, trimmed};

#[test]
fn trimmed_strips_unicode_whitespace() {
    assert_eq!(trimmed("  hi there \n"), "hi there");
    assert_eq!(trimmed("\u{3000}x y\u{a0}\t"), "x y");
    assert_eq!(trimmed(" \r\n "), "");
    assert_eq!(trimmed("a"), "a");
}

#[test]
fn replaced_goes_left_to_right_without_overlap() {
    assert_eq!(replaced("aaa", "aa", "b"), "ba");
    assert_eq!(replaced("CommandOrControl+KeyK", "Key", ""), "CommandOrControl+K");
    assert_eq!(replaced("abc", "x", "y"), "abc");
    assert_eq!(replaced("", "x", "y"), "");
    assert_eq!(replaced("xax", "x", "yy"), "yyayy");
}

#[test]
fn less_is_code_point_order() {
    let a = chars_of("alice");
    let b = chars_of("bob");
    let z = chars_of("Zed");
    assert!(less(&a, &b));
    assert!(!less(&b, &a));
    assert!(less(&z, &a));
    assert!(less(&chars_of("al"), &a));
    assert!(!less(&a, &a));
    assert_eq!(string_of(&chars_of("héllo")), "héllo");
}

#[test]
fn config_defaults() {
    let c = Config::default();
    assert_eq!(c.port, 0);
    assert!(c.peer.is_empty() && c.manual.is_empty() && c.presets.is_empty());
    assert!(c.shortcuts.is_empty() && c.labels.is_empty() && c.order.is_empty());
    assert!(c.talk_shortcut.is_empty());
    assert!(c.input_device.is_none() && c.output_device.is_none());
    assert_eq!(default_talk_shortcut(), "F8");
    let p = default_presets();
    assert_eq!(p.len(), 3);
    assert_eq!((p[0].label.as_str(), p[0].text.as_str()), ("On my way", "On my way"));
    assert_eq!(p[0].shortcut, "CommandOrControl+Alt+1");
    assert_eq!((p[1].label.as_str(), p[1].shortcut.as_str()), ("Lunch?", "CommandOrControl+Alt+2"));
    assert_eq!((p[2].label.as_str(), p[2].shortcut.as_str()), ("Call me", "CommandOrControl+Alt+3"));
}

#[test]
fn keyed_list_acts_as_a_map() {
    let mut v: Vec<(String, String)> = Vec::new();
    set_entry(&mut v, "a".to_string(), "1".to_string());
    set_entry(&mut v, "b".to_string(), "2".to_string());
    set_entry(&mut v, "a".to_string(), "3".to_string());
    assert_eq!(v.len(), 2);
    assert_eq!(lookup(&v, &"a".to_string()), Some("3".to_string()));
    assert_eq!(lookup(&v, &"b".to_string()), Some("2".to_string()));
    remove_entry(&mut v, &"a".to_string());
    assert_eq!(lookup(&v, &"a".to_string()), None);
    assert_eq!(lookup(&v, &"b".to_string()), Some("2".to_string()));
    remove_entry(&mut v, &"zzz".to_string());
    assert_eq!(v.len(), 1);
}

fn ev(fullname: &str, id: &str, name: &str, ipv4: Option<u32>, port: u16) -> Resolved {
    Resolved {
        fullname: fullname.to_string(),
        id: id.to_string(),
        name: name.to_string(),
        ipv4,
        port,
    }
}

const ALICE: &str = "alice._zetta._udp.local.";

#[test]
fn label_is_the_part_before_the_first_dot() {
    assert_eq!(label_of(&ALICE.to_string()), "alice");
    assert_eq!(label_of(&"nodot".to_string()), "nodot");
    assert_eq!(label_of(&".x".to_string()), "");
}

#[test]
fn roster_adds_ignores_and_refreshes() {
    let me = "me-id".to_string();
    let mut r = Roster::new();
    let addr = PeerAddr { ip: 0x0a00_0002, port: 9001 };
    assert_eq!(
        r.resolved(ev(ALICE, "a1", "", Some(0x0a00_0002), 9001), &me, 1000),
        Resolution::Added { name: "alice".to_string(), addr }
    );
    assert_eq!(r.resolved(ev("me._zetta._udp.local.", "me-id", "Me", Some(1), 1), &me, 1000), Resolution::Ourselves);
    assert_eq!(r.resolved(ev("v6._zetta._udp.local.", "v6", "", None, 1), &me, 1000), Resolution::NoIpv4);
    assert_eq!(r.peers(1000).len(), 1);
    assert_eq!(r.resolved(ev(ALICE, "a1", "Alice", Some(0x0a00_0003), 9002), &me, 2000), Resolution::Refreshed);
    let ps = r.peers(2000);
    assert_eq!(ps.len(), 1);
    assert_eq!(ps[0].name, "Alice");
    assert_eq!(ps[0].id, ALICE);
    assert_eq!(ps[0].addr, PeerAddr { ip: 0x0a00_0003, port: 9002 });
    assert!(ps[0].live && !ps[0].talking && !ps[0].manual);
}

#[test]
fn roster_liveness_is_worked_out_when_read() {
    let me = "me".to_string();
    let mut r = Roster::new();
    r.resolved(ev(ALICE, "a", "", Some(1), 1), &me, 1000);
    assert!(r.peers(1000 + PEER_TIMEOUT_MS - 1)[0].live);
    assert!(!r.peers(1000 + PEER_TIMEOUT_MS)[0].live);
    // A clock that went backwards counts as just heard.
    assert!(r.peers(0)[0].live);
}

#[test]
fn roster_removes_and_sorts() {
    let me = "me".to_string();
    let mut r = Roster::new();
    r.resolved(ev("bob.x", "b", "", Some(2), 1), &me, 0);
    r.resolved(ev(ALICE, "a", "", Some(1), 1), &me, 0);
    r.resolved(ev("zed.x", "z", "Zed", Some(3), 1), &me, 0);
    let names: Vec<String> = r.peers(0).into_iter().map(|p| p.name).collect();
    assert_eq!(names, vec!["Zed", "alice", "bob"]);
    let gone = r.removed(&"bob.x".to_string()).unwrap();
    assert_eq!(gone.name, "bob");
    assert!(r.removed(&"bob.x".to_string()).is_none());
    assert_eq!(r.peers(0).len(), 2);
}

fn peer(name: &str, ip: u32) -> Peer {
    Peer {
        id: name.to_string(),
        name: name.to_string(),
        addr: PeerAddr { ip, port: 1 },
        live: true,
        talking: false,
        manual: false,
    }
}

#[test]
fn sort_by_name_keeps_every_peer() {
    let ps = vec![peer("c", 1), peer("a", 2), peer("b", 3), peer("a", 4)];
    let s = sort_by_name(&ps);
    let got: Vec<(String, u32)> = s.iter().map(|p| (p.name.clone(), p.addr.ip)).collect();
    assert_eq!(got, vec![("a".to_string(), 2), ("a".to_string(), 4), ("b".to_string(), 3), ("c".to_string(), 1)]);
}

#[test]
fn trimming_twice_is_trimming_once() {
    for x in ["  a b  ", "\u{2003}x\u{2028}", "", "   ", "plain"] {
        let once = trimmed(x);
        assert_eq!(trimmed(&once), once);
    }
}
