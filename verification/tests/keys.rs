use zetta_com::config::{default_presets, lookup, Config, Preset};
use zetta_com::discovery::{Peer, PeerAddr};
use zetta_com::keys::{
    dispatch, display_keys, editable, info, peer_at, plan, set_shortcut, spec_for, Action, Aim, KeyError, UiEvent,
};

fn s(x: &str) -> String {
    x.to_string()
}

#[test]
fn editable_keys_and_defaults() {
    let e = editable();
    let ids: Vec<&str> = e.iter().map(|k| k.id.as_str()).collect();
    assert_eq!(ids, vec!["talk", "talk-all", "message-all", "start-stop", "add-pc", "open-window", "show-shortcuts"]);
    assert_eq!(e[4].default, "CommandOrControl+Alt+KeyA");
    assert_eq!(e[5].default, "CommandOrControl+Alt+KeyT");
}

#[test]
fn spec_for_falls_back_in_order() {
    let mut c = Config::default();
    assert_eq!(spec_for(&c, &s("talk")), "F8");
    assert_eq!(spec_for(&c, &s("talk-all")), "CommandOrControl+Alt+Digit0");
    assert_eq!(spec_for(&c, &s("message-all")), "CommandOrControl+Shift+Digit0");
    assert_eq!(spec_for(&c, &s("add-pc")), "CommandOrControl+Alt+KeyA");
    assert_eq!(spec_for(&c, &s("show-shortcuts")), "CommandOrControl+Alt+KeyK");
    assert_eq!(spec_for(&c, &s("nope")), "");
    c.talk_shortcut = s("F7");
    assert_eq!(spec_for(&c, &s("talk")), "F7");
    assert_eq!(spec_for(&c, &s("start-stop")), "CommandOrControl+Alt+KeyS");
    c.shortcuts = vec![(s("talk"), s("F6"))];
    assert_eq!(spec_for(&c, &s("talk")), "F6");
    c.shortcuts = vec![(s("talk"), s("   "))];
    assert_eq!(spec_for(&c, &s("talk")), "F7");
    c.talk_shortcut = s(" ");
    assert_eq!(spec_for(&c, &s("talk")), "F8");
}

#[test]
fn display_keys_reads_like_a_key_cap() {
    assert_eq!(display_keys("CommandOrControl+Shift+KeyK"), "Ctrl+Shift+K");
    assert_eq!(display_keys("CommandOrControl+Digit0"), "Ctrl+0");
    assert_eq!(display_keys("F8"), "F8");
}

#[test]
fn plan_lists_every_key_in_order() {
    let mut c = Config::default();
    c.presets = default_presets();
    let p = plan(&c);
    assert_eq!(p.len(), 28);
    assert_eq!(p[0].label, "Talk to whoever is selected");
    assert_eq!(p[0].spec, "F8");
    assert!(matches!(p[0].action, Action::Talk));
    assert_eq!(p[0].id.as_deref(), Some("talk"));
    assert!(matches!(p[3].action, Action::ToggleTransport));
    assert_eq!(p[4].label, "Add a PC");
    assert_eq!(p[4].spec, "CommandOrControl+Alt+KeyA");
    assert!(matches!(p[4].action, Action::AddPc));
    assert_eq!(p[4].id.as_deref(), Some("add-pc"));
    assert_eq!(p[7].label, "Send \u{201c}On my way\u{201d}");
    assert_eq!(p[7].spec, "CommandOrControl+Alt+1");
    assert!(matches!(&p[7].action, Action::Preset(t) if t == "On my way"));
    assert_eq!(p[7].id, None);
    assert_eq!(p[10].label, "Talk to PC 1");
    assert_eq!(p[10].spec, "CommandOrControl+Alt+Digit1");
    assert!(matches!(p[10].action, Action::TalkTo(1)));
    assert_eq!(p[11].label, "Message PC 1");
    assert_eq!(p[11].spec, "CommandOrControl+Shift+Digit1");
    assert_eq!(p[26].label, "Talk to PC 9");
    assert_eq!(p[26].spec, "CommandOrControl+Alt+Digit9");
    assert_eq!(p[27].label, "Message PC 9");
    assert_eq!(p[27].spec, "CommandOrControl+Shift+Digit9");
    assert!(matches!(p[27].action, Action::MessageTo(9)));
}

#[test]
fn plan_leaves_out_blank_keys() {
    let mut c = Config::default();
    assert_eq!(plan(&c).len(), 25);
    c.presets = vec![Preset { label: s("No key"), text: s("x"), shortcut: s("  ") }];
    assert_eq!(plan(&c).len(), 25);
}

#[test]
fn info_shows_the_key_and_whether_it_took() {
    let c = Config::default();
    let p = plan(&c);
    let i = info(&p[1], false);
    assert_eq!(i.label, "Talk to everyone");
    assert_eq!(i.keys, "Ctrl+Alt+0");
    assert!(!i.registered);
    assert_eq!(i.id.as_deref(), Some("talk-all"));
    let i = info(&p[8], true);
    assert_eq!(i.keys, "Ctrl+Shift+1");
    assert!(i.registered && i.id.is_none());
}

fn peer(name: &str, ip: u32) -> Peer {
    Peer { id: s(name), name: s(name), addr: PeerAddr { ip, port: 9001 }, live: true, talking: false, manual: false }
}

#[test]
fn peer_at_counts_from_one() {
    let ps = vec![peer("a", 1), peer("b", 2)];
    assert_eq!(peer_at(&ps, 1).unwrap().name, "a");
    assert_eq!(peer_at(&ps, 2).unwrap().name, "b");
    assert!(peer_at(&ps, 0).is_none());
    assert!(peer_at(&ps, 3).is_none());
}

#[test]
fn talk_keys_follow_the_key_both_ways() {
    let a = PeerAddr { ip: 7, port: 9001 };
    assert_eq!(dispatch(Action::Talk, true, None).ptt, Some(true));
    assert_eq!(dispatch(Action::Talk, false, None).ptt, Some(false));
    let e = dispatch(Action::TalkTo(2), true, Some(a));
    assert_eq!((e.aim, e.ptt, e.reveal, e.nobody_at), (Some(Aim::Peer(a)), Some(true), false, None));
    let e = dispatch(Action::TalkTo(2), false, Some(a));
    assert_eq!((e.aim, e.ptt), (None, Some(false)));
    let e = dispatch(Action::TalkAll, true, None);
    assert_eq!((e.aim, e.ptt), (Some(Aim::Everyone), Some(true)));
    assert_eq!(dispatch(Action::TalkAll, false, None).ptt, Some(false));
}

#[test]
fn nobody_at_a_position_opens_nothing() {
    let e = dispatch(Action::TalkTo(4), true, None);
    assert_eq!((e.aim, e.ptt, e.reveal, e.nobody_at), (None, None, false, Some(4)));
    let e = dispatch(Action::MessageTo(5), true, None);
    assert_eq!((e.aim, e.reveal, e.nobody_at), (None, false, Some(5)));
    assert_eq!(dispatch(Action::TalkTo(4), false, None).ptt, Some(false));
}

#[test]
fn other_keys_act_on_press_only() {
    let a = PeerAddr { ip: 9, port: 1 };
    let e = dispatch(Action::Preset(s("Lunch?")), true, None);
    assert_eq!(e.send.as_deref(), Some("Lunch?"));
    assert!(dispatch(Action::Preset(s("Lunch?")), false, None).send.is_none());
    let e = dispatch(Action::MessageTo(1), true, Some(a));
    assert_eq!((e.aim, e.reveal, e.ptt), (Some(Aim::Peer(a)), true, None));
    let e = dispatch(Action::MessageAll, true, None);
    assert_eq!((e.aim, e.reveal), (Some(Aim::Everyone), true));
    assert_eq!(dispatch(Action::ToggleTransport, true, None).emit, Some(UiEvent::ToggleTransport));
    let e = dispatch(Action::ShowShortcuts, true, None);
    assert_eq!((e.reveal, e.emit), (true, Some(UiEvent::ShowShortcuts)));
    let e = dispatch(Action::AddPc, true, None);
    assert_eq!((e.reveal, e.emit, e.aim, e.ptt), (true, Some(UiEvent::AddPc), None, None));
    assert!(dispatch(Action::ShowWindow, true, None).reveal);
    for act in [Action::MessageAll, Action::ToggleTransport, Action::AddPc, Action::ShowShortcuts, Action::ShowWindow] {
        let e = dispatch(act, false, None);
        assert_eq!((e.aim, e.ptt, e.reveal, e.emit, e.nobody_at), (None, None, false, None, None));
    }
}

#[test]
fn set_shortcut_stores_trimmed_and_keeps_talk_in_step() {
    let mut c = Config::default();
    assert_eq!(set_shortcut(&mut c, &s("talk"), &s(" F7 ")), Ok(()));
    assert_eq!(lookup(&c.shortcuts, &s("talk")), Some(s("F7")));
    assert_eq!(c.talk_shortcut, "F7");
    assert_eq!(set_shortcut(&mut c, &s("start-stop"), &s("F10")), Ok(()));
    assert_eq!(spec_for(&c, &s("start-stop")), "F10");
    assert_eq!(set_shortcut(&mut c, &s("start-stop"), &s("  ")), Ok(()));
    assert_eq!(lookup(&c.shortcuts, &s("start-stop")), None);
    assert_eq!(spec_for(&c, &s("start-stop")), "CommandOrControl+Alt+KeyS");
    // Clearing the talk key falls back to the older field, which still says F7.
    assert_eq!(set_shortcut(&mut c, &s("talk"), &s("")), Ok(()));
    assert_eq!(c.talk_shortcut, "F7");
}

#[test]
fn set_shortcut_refuses_unknown_keys() {
    let mut c = Config::default();
    c.port = 9001;
    assert_eq!(set_shortcut(&mut c, &s("launch-missiles"), &s("F12")), Err(KeyError::NotEditable(s("launch-missiles"))));
    assert!(c.shortcuts.is_empty());
    assert_eq!(c.port, 9001);
}
