//! Global shortcuts: what each key does, which keys there are and what they
//! are set to, how a key is shown, and what a press or release does.
//! Registering them with the desktop, and carrying out the effects, is the
//! caller's.

use vstd::prelude::*;

use crate::config::{as_map, keys_unique, lookup, Config, Preset};
use crate::discovery::{Peer, PeerAddr};
use crate::text::{blank, replace, replaced, trim, trimmed};

verus! {

#[derive(Debug)]
pub enum Action {
    /// Held, not toggled.
    Talk,
    /// Fires a canned message.
    Preset(String),
    /// Hold to talk to one machine: the roster entry at this position,
    /// counting from 1.
    TalkTo(usize),
    /// Aim at that machine and bring the window up ready to type.
    MessageTo(usize),
    /// Hold to talk to the whole room.
    TalkAll,
    /// Aim at the whole room and bring the window up ready to type.
    MessageAll,
    /// Ask the window to go on or off air.
    ToggleTransport,
    /// Bring the window up, ready to add a PC by hand.
    AddPc,
    /// Show the list of every key and what it does.
    ShowShortcuts,
    /// Bring the window up from the tray.
    ShowWindow,
}

impl Clone for Action {
    fn clone(&self) -> (r: Self)
        ensures
            r == *self,
    {
        match self {
            Action::Talk => Action::Talk,
            Action::Preset(t) => Action::Preset(t.clone()),
            Action::TalkTo(n) => Action::TalkTo(*n),
            Action::MessageTo(n) => Action::MessageTo(*n),
            Action::TalkAll => Action::TalkAll,
            Action::MessageAll => Action::MessageAll,
            Action::ToggleTransport => Action::ToggleTransport,
            Action::AddPc => Action::AddPc,
            Action::ShowShortcuts => Action::ShowShortcuts,
            Action::ShowWindow => Action::ShowWindow,
        }
    }
}

/// One row of the shortcut list the UI shows, with whether it registered:
/// a global shortcut that lost a race to another application does nothing
/// and says nothing, and a list that only shows intentions looks like a
/// promise.
#[derive(Debug)]
pub struct ShortcutInfo {
    pub label: String,
    pub keys: String,
    pub registered: bool,
    /// Set for the keys a user may change: the name their choice is saved
    /// under.
    pub id: Option<String>,
}

/// A rebindable key: the name it is saved under, what it does, and what it
/// is unless somebody says otherwise.
pub struct Editable {
    pub id: String,
    pub label: String,
    pub default: String,
}

/// How many keys can be rebound.
pub const EDITABLE_KEYS: usize = 7;

/// The keys that can be rebound, in the order they are shown.
pub open spec fn editable_spec() -> Seq<(Seq<char>, Seq<char>, Seq<char>)> {
    seq![
        ("talk"@, "Talk to whoever is selected"@, "F8"@),
        ("talk-all"@, "Talk to everyone"@, "CommandOrControl+Alt+Digit0"@),
        ("message-all"@, "Message everyone"@, "CommandOrControl+Shift+Digit0"@),
        ("start-stop"@, "Start or stop"@, "CommandOrControl+Alt+KeyS"@),
        ("add-pc"@, "Add a PC"@, "CommandOrControl+Alt+KeyA"@),
        ("open-window"@, "Open the window"@, "CommandOrControl+Alt+KeyT"@),
        ("show-shortcuts"@, "Show shortcuts"@, "CommandOrControl+Alt+KeyK"@),
    ]
}

fn editable_entry(id: &str, label: &str, default: &str) -> (r: Editable)
    ensures
        r.id@ == id@,
        r.label@ == label@,
        r.default@ == default@,
{
    Editable { id: String::from_str(id), label: String::from_str(label), default: String::from_str(default) }
}

/// The rebindable keys.
pub fn editable() -> (r: Vec<Editable>)
    ensures
        r@.len() == EDITABLE_KEYS,
        forall|k: int|
            0 <= k < EDITABLE_KEYS ==> ((#[trigger] r@[k]).id@, r@[k].label@, r@[k].default@) == editable_spec()[k],
{
    let mut v: Vec<Editable> = Vec::new();
    v.push(editable_entry("talk", "Talk to whoever is selected", "F8"));
    v.push(editable_entry("talk-all", "Talk to everyone", "CommandOrControl+Alt+Digit0"));
    v.push(editable_entry("message-all", "Message everyone", "CommandOrControl+Shift+Digit0"));
    v.push(editable_entry("start-stop", "Start or stop", "CommandOrControl+Alt+KeyS"));
    v.push(editable_entry("add-pc", "Add a PC", "CommandOrControl+Alt+KeyA"));
    v.push(editable_entry("open-window", "Open the window", "CommandOrControl+Alt+KeyT"));
    v.push(editable_entry("show-shortcuts", "Show shortcuts", "CommandOrControl+Alt+KeyK"));
    v
}

/// The default of the first rebindable key called `id` from position `k`
/// on; empty when there is none.
pub open spec fn default_from(id: Seq<char>, k: nat) -> Seq<char>
    decreases EDITABLE_KEYS - k,
{
    if k >= EDITABLE_KEYS {
        Seq::empty()
    } else if editable_spec()[k as int].0 == id {
        editable_spec()[k as int].2
    } else {
        default_from(id, k + 1)
    }
}

/// Whether `id` names a rebindable key.
pub open spec fn is_editable(id: Seq<char>) -> bool {
    exists|k: int| 0 <= k < EDITABLE_KEYS && editable_spec()[k].0 == id
}

/// What a rebindable key is set to: the saved choice unless it is blank; for
/// the talk key, the older `talk_shortcut` field unless that is blank; else
/// the key's default, or nothing for an id that is not a rebindable key.
pub open spec fn key_for(cfg: Config, id: Seq<char>) -> Seq<char> {
    let m = as_map(cfg.shortcuts@);
    if m.contains_key(id) && !blank(m[id]) {
        m[id]
    } else if id == "talk"@ && !blank(cfg.talk_shortcut@) {
        cfg.talk_shortcut@
    } else {
        default_from(id, 0)
    }
}

/// What a rebindable key is set to.
pub fn spec_for(cfg: &Config, id: &String) -> (r: String)
    requires
        keys_unique(cfg.shortcuts@),
    ensures
        r@ == key_for(*cfg, id@),
{
    if let Some(s) = lookup(&cfg.shortcuts, id) {
        if trimmed(s.as_str()).as_str().is_empty() == false {
            return s;
        }
    }
    // `talk_shortcut` predates the map and is still where an older config
    // keeps it, so it is honoured rather than silently replaced.
    if *id == String::from_str("talk") && !trimmed(cfg.talk_shortcut.as_str()).as_str().is_empty() {
        return cfg.talk_shortcut.clone();
    }
    assert(key_for(*cfg, id@) == default_from(id@, 0));
    let table = editable();
    let mut k: usize = 0;
    while k < table.len()
        invariant
            table@.len() == EDITABLE_KEYS,
            forall|j: int|
                0 <= j < EDITABLE_KEYS ==> ((#[trigger] table@[j]).id@, table@[j].label@, table@[j].default@)
                    == editable_spec()[j],
            k <= EDITABLE_KEYS,
            key_for(*cfg, id@) == default_from(id@, 0),
            default_from(id@, 0) == default_from(id@, k as nat),
        decreases EDITABLE_KEYS - k,
    {
        if table[k].id == *id {
            assert(table@[k as int].id@ == editable_spec()[k as int].0);
            return table[k].default.clone();
        }
        assert(table@[k as int].id@ == editable_spec()[k as int].0);
        k = k + 1;
    }
    String::new()
}

/// A key as it reads on a key cap: "CommandOrControl" as "Ctrl", and the
/// "Digit" and "Key" prefixes of digits and letters dropped.
pub open spec fn shown_keys(spec: Seq<char>) -> Seq<char> {
    replace(replace(replace(spec, "CommandOrControl"@, "Ctrl"@), "Digit"@, ""@), "Key"@, ""@)
}

pub fn display_keys(spec: &str) -> (r: String)
    ensures
        r@ == shown_keys(spec@),
{
    proof {
        reveal_strlit("CommandOrControl");
        reveal_strlit("Digit");
        reveal_strlit("Key");
    }
    let a = replaced(spec, "CommandOrControl", "Ctrl");
    let b = replaced(a.as_str(), "Digit", "");
    replaced(b.as_str(), "Key", "")
}

/// What the rebindable key `id` does.
pub open spec fn action_for(id: Seq<char>) -> Option<Action> {
    if id == "talk"@ {
        Some(Action::Talk)
    } else if id == "talk-all"@ {
        Some(Action::TalkAll)
    } else if id == "message-all"@ {
        Some(Action::MessageAll)
    } else if id == "start-stop"@ {
        Some(Action::ToggleTransport)
    } else if id == "add-pc"@ {
        Some(Action::AddPc)
    } else if id == "open-window"@ {
        Some(Action::ShowWindow)
    } else if id == "show-shortcuts"@ {
        Some(Action::ShowShortcuts)
    } else {
        None
    }
}

fn action_of(id: &String) -> (r: Option<Action>)
    ensures
        r == action_for(id@),
{
    if *id == String::from_str("talk") {
        Some(Action::Talk)
    } else if *id == String::from_str("talk-all") {
        Some(Action::TalkAll)
    } else if *id == String::from_str("message-all") {
        Some(Action::MessageAll)
    } else if *id == String::from_str("start-stop") {
        Some(Action::ToggleTransport)
    } else if *id == String::from_str("add-pc") {
        Some(Action::AddPc)
    } else if *id == String::from_str("open-window") {
        Some(Action::ShowWindow)
    } else if *id == String::from_str("show-shortcuts") {
        Some(Action::ShowShortcuts)
    } else {
        None
    }
}

/// The digit naming slot `n`, 1 to 9.
pub open spec fn digit_spec(n: int) -> Seq<char> {
    if n == 1 {
        "1"@
    } else if n == 2 {
        "2"@
    } else if n == 3 {
        "3"@
    } else if n == 4 {
        "4"@
    } else if n == 5 {
        "5"@
    } else if n == 6 {
        "6"@
    } else if n == 7 {
        "7"@
    } else if n == 8 {
        "8"@
    } else {
        "9"@
    }
}

fn digit(n: usize) -> (r: String)
    ensures
        r@ == digit_spec(n as int),
{
    if n == 1 {
        String::from_str("1")
    } else if n == 2 {
        String::from_str("2")
    } else if n == 3 {
        String::from_str("3")
    } else if n == 4 {
        String::from_str("4")
    } else if n == 5 {
        String::from_str("5")
    } else if n == 6 {
        String::from_str("6")
    } else if n == 7 {
        String::from_str("7")
    } else if n == 8 {
        String::from_str("8")
    } else {
        String::from_str("9")
    }
}

/// A key to register: what the list calls it, its spec, what it does, and the
/// name its choice is saved under when it can be rebound.
pub struct Binding {
    pub label: String,
    pub spec: String,
    pub action: Action,
    pub id: Option<String>,
}

pub open spec fn opt_chars(o: Option<String>) -> Option<Seq<char>> {
    match o {
        Some(s) => Some(s@),
        None => None,
    }
}

/// A candidate key: label, spec, what it does (if anything), saved name.
pub type Candidate = (Seq<char>, Seq<char>, Option<Action>, Option<Seq<char>>);

pub open spec fn cand_view(c: (String, String, Option<Action>, Option<String>)) -> Candidate {
    (c.0@, c.1@, c.2, opt_chars(c.3))
}

pub open spec fn bind_view(b: Binding) -> (Seq<char>, Seq<char>, Action, Option<Seq<char>>) {
    (b.label@, b.spec@, b.action, opt_chars(b.id))
}

pub open spec fn cand_views(s: Seq<(String, String, Option<Action>, Option<String>)>) -> Seq<Candidate> {
    s.map_values(|c: (String, String, Option<Action>, Option<String>)| cand_view(c))
}

pub open spec fn bind_views(s: Seq<Binding>) -> Seq<(Seq<char>, Seq<char>, Action, Option<Seq<char>>)> {
    s.map_values(|b: Binding| bind_view(b))
}

/// The rebindable keys, in their order.
pub open spec fn editable_candidates(cfg: Config) -> Seq<Candidate> {
    Seq::new(
        EDITABLE_KEYS as nat,
        |k: int|
            (
                editable_spec()[k].1,
                key_for(cfg, editable_spec()[k].0),
                action_for(editable_spec()[k].0),
                Some(editable_spec()[k].0),
            ),
    )
}

/// What a preset's key is listed as.
pub open spec fn send_label(label: Seq<char>) -> Seq<char> {
    "Send \u{201c}"@ + label + "\u{201d}"@
}

/// One key per preset that sends its text.
pub open spec fn preset_candidates(cfg: Config) -> Seq<Candidate> {
    cfg.presets@.map_values(
        |p: Preset| (send_label(p.label@), p.shortcut@, Some(Action::Preset(p.text)), None::<Seq<char>>),
    )
}

/// Nine of each per-PC key: talk is Ctrl+Alt+number, message is
/// Ctrl+Shift+number, the same number either way.
pub open spec fn slot_candidates() -> Seq<Candidate> {
    Seq::new(
        18,
        |m: int|
            {
                let slot = m / 2 + 1;
                if m % 2 == 0 {
                    (
                        "Talk to PC "@ + digit_spec(slot),
                        "CommandOrControl+Alt+Digit"@ + digit_spec(slot),
                        Some(Action::TalkTo(slot as usize)),
                        None::<Seq<char>>,
                    )
                } else {
                    (
                        "Message PC "@ + digit_spec(slot),
                        "CommandOrControl+Shift+Digit"@ + digit_spec(slot),
                        Some(Action::MessageTo(slot as usize)),
                        None::<Seq<char>>,
                    )
                }
            },
    )
}

/// Every key the app would register, in order, before dropping any.
pub open spec fn candidates(cfg: Config) -> Seq<Candidate> {
    editable_candidates(cfg) + preset_candidates(cfg) + slot_candidates()
}

/// The candidates kept: those that do something and whose spec is not blank
/// (a blank spec is a key deliberately left unset).
pub open spec fn kept(cs: Seq<Candidate>) -> Seq<(Seq<char>, Seq<char>, Action, Option<Seq<char>>)>
    decreases cs.len(),
{
    if cs.len() == 0 {
        Seq::empty()
    } else {
        let r = kept(cs.drop_last());
        let c = cs.last();
        if c.2 is Some && !blank(c.1) {
            r.push((c.0, c.1, c.2->0, c.3))
        } else {
            r
        }
    }
}

fn push_cand(
    v: &mut Vec<(String, String, Option<Action>, Option<String>)>,
    label: String,
    spec: String,
    action: Option<Action>,
    id: Option<String>,
)
    ensures
        cand_views(final(v)@) == cand_views(old(v)@).push(
            (label@, spec@, action, opt_chars(id)),
        ),
{
    v.push((label, spec, action, id));
    assert(cand_views(v@) =~= cand_views(old(v)@).push((label@, spec@, action, opt_chars(id))));
}

/// Every key the app registers, in order: the rebindable ones with their
/// saved choice or default, one per preset, then talk and message for each
/// of the nine roster positions — leaving out any whose spec is blank.
pub fn plan(cfg: &Config) -> (r: Vec<Binding>)
    requires
        keys_unique(cfg.shortcuts@),
    ensures
        bind_views(r@) == kept(candidates(*cfg)),
{
    let mut cands: Vec<(String, String, Option<Action>, Option<String>)> = Vec::new();
    let table = editable();
    let mut k: usize = 0;
    while k < EDITABLE_KEYS
        invariant
            table@.len() == EDITABLE_KEYS,
            forall|j: int|
                0 <= j < EDITABLE_KEYS ==> ((#[trigger] table@[j]).id@, table@[j].label@, table@[j].default@)
                    == editable_spec()[j],
            keys_unique(cfg.shortcuts@),
            k <= EDITABLE_KEYS,
            cand_views(cands@) == editable_candidates(*cfg).take(k as int),
        decreases EDITABLE_KEYS - k,
    {
        let e = &table[k];
        assert((e.id@, e.label@, e.default@) == editable_spec()[k as int]);
        let spec = spec_for(cfg, &e.id);
        let action = action_of(&e.id);
        push_cand(&mut cands, e.label.clone(), spec, action, Some(e.id.clone()));
        k = k + 1;
        assert(cand_views(cands@) =~= editable_candidates(*cfg).take(k as int));
    }
    assert(editable_candidates(*cfg).take(EDITABLE_KEYS as int) =~= editable_candidates(*cfg));
    let mut i: usize = 0;
    while i < cfg.presets.len()
        invariant
            i <= cfg.presets@.len(),
            cand_views(cands@) == editable_candidates(*cfg) + preset_candidates(*cfg).take(i as int),
        decreases cfg.presets@.len() - i,
    {
        let p = &cfg.presets[i];
        let mut label = String::from_str("Send \u{201c}");
        label.append(p.label.as_str());
        label.append("\u{201d}");
        push_cand(&mut cands, label, p.shortcut.clone(), Some(Action::Preset(p.text.clone())), None);
        i = i + 1;
        assert(cand_views(cands@) =~= editable_candidates(*cfg) + preset_candidates(*cfg).take(
            i as int,
        ));
    }
    assert(preset_candidates(*cfg).take(cfg.presets@.len() as int) =~= preset_candidates(*cfg));
    let mut slot: usize = 1;
    while slot <= 9
        invariant
            1 <= slot <= 10,
            cand_views(cands@) == editable_candidates(*cfg) + preset_candidates(*cfg)
                + slot_candidates().take(2 * (slot - 1)),
        decreases 10 - slot,
    {
        let d = digit(slot);
        let mut talk = String::from_str("Talk to PC ");
        talk.append(d.as_str());
        let mut talk_key = String::from_str("CommandOrControl+Alt+Digit");
        talk_key.append(d.as_str());
        push_cand(&mut cands, talk, talk_key, Some(Action::TalkTo(slot)), None);
        let mut msg = String::from_str("Message PC ");
        msg.append(d.as_str());
        let mut msg_key = String::from_str("CommandOrControl+Shift+Digit");
        msg_key.append(d.as_str());
        push_cand(&mut cands, msg, msg_key, Some(Action::MessageTo(slot)), None);
        proof {
            let m = 2 * (slot - 1);
            assert(m / 2 + 1 == slot && m % 2 == 0);
            assert((m + 1) / 2 + 1 == slot && (m + 1) % 2 == 1);
        }
        slot = slot + 1;
        assert(cand_views(cands@) =~= editable_candidates(*cfg) + preset_candidates(*cfg)
            + slot_candidates().take(2 * (slot - 1)));
    }
    assert(slot_candidates().take(18) =~= slot_candidates());
    let ghost all = candidates(*cfg);
    assert(cand_views(cands@) =~= all);
    let mut out: Vec<Binding> = Vec::new();
    let mut j: usize = 0;
    let n = cands.len();
    let mut rest = cands;
    let ghost rest0 = rest@;
    assert(all.take(0) =~= Seq::<Candidate>::empty());
    assert(rest0.skip(0) =~= rest0);
    // Taken from the front one at a time, so each candidate moves rather than
    // being copied.
    while j < n
        invariant
            n == rest0.len(),
            j <= n,
            cand_views(rest0) == all,
            rest@ == rest0.skip(j as int),
            bind_views(out@) == kept(all.take(j as int)),
        decreases n - j,
    {
        let c = rest.remove(0);
        assert(c == rest0[j as int]);
        assert(rest@ =~= rest0.skip(j + 1));
        let ghost before = out@;
        let (label, spec, action, id) = c;
        let keep = match action {
            Some(_) => !trimmed(spec.as_str()).as_str().is_empty(),
            None => false,
        };
        assert(all.take(j + 1).drop_last() =~= all.take(j as int));
        assert(all.take(j + 1).last() == cand_view(rest0[j as int]));
        if keep {
            match action {
                Some(a) => {
                    out.push(Binding { label, spec, action: a, id });
                },
                None => {},
            }
            assert(bind_views(out@) =~= bind_views(before).push(kept(all.take(j + 1)).last()));
        }
        j = j + 1;
    }
    assert(all.take(n as int) =~= all);
    out
}

/// The row the list shows for a key once its registration was tried.
pub fn info(b: &Binding, registered: bool) -> (r: ShortcutInfo)
    ensures
        r.label@ == b.label@,
        r.keys@ == shown_keys(b.spec@),
        r.registered == registered,
        opt_chars(r.id) == opt_chars(b.id),
{
    ShortcutInfo {
        id: match &b.id {
            Some(s) => Some(s.clone()),
            None => None,
        },
        label: b.label.clone(),
        keys: display_keys(b.spec.as_str()),
        registered,
    }
}

/// The roster entry at a one-based position, in the order the UI shows
/// them. A position rather than a name: the keys are registered before
/// anybody has been discovered, and keep working when a PC is renamed.
pub fn peer_at(peers: &Vec<Peer>, slot: usize) -> (r: Option<Peer>)
    ensures
        1 <= slot <= peers@.len() ==> r == Some(peers@[slot - 1]),
        !(1 <= slot <= peers@.len()) ==> r is None,
{
    if slot >= 1 && slot - 1 < peers.len() {
        Some(peers[slot - 1].clone())
    } else {
        None
    }
}

/// Where voice and text are aimed.
#[derive(Clone, Copy, Debug, PartialEq, Eq, Structural)]
pub enum Aim {
    /// One machine.
    Peer(PeerAddr),
    /// Everyone.
    Everyone,
}

/// What a key asks the window to show.
#[derive(Clone, Copy, Debug, PartialEq, Eq, Structural)]
pub enum UiEvent {
    ToggleTransport,
    AddPc,
    ShowShortcuts,
}

/// What one press or release does, carried out in this order: aim, then set
/// the talk state, then bring the window up, then tell it what to show, then
/// send a text.
#[derive(Debug)]
pub struct Effects {
    pub aim: Option<Aim>,
    /// The talk state to set: true only while a talk key is held.
    pub ptt: Option<bool>,
    pub reveal: bool,
    pub emit: Option<UiEvent>,
    pub send: Option<String>,
    /// A per-PC key pressed at a position where nobody is.
    pub nobody_at: Option<usize>,
}

pub open spec fn no_effects() -> Effects {
    Effects { aim: None, ptt: None, reveal: false, emit: None, send: None, nobody_at: None }
}

/// What a key press (`pressed`) or release does. `peer` is the address of
/// the roster entry at the key's position, for the per-PC keys.
///
/// Talk keys are held: the state follows the key both ways, so a missed
/// release cannot leave the microphone open. Aiming happens on the press,
/// so the very first frame goes to the right person; a per-PC key with
/// nobody at its position says so rather than opening the microphone to
/// whoever happened to be selected. Everything else acts on the press only
/// — firing again on release would do it twice.
pub open spec fn spec_dispatch(action: Action, pressed: bool, peer: Option<PeerAddr>) -> Effects {
    match action {
        Action::Talk => Effects { ptt: Some(pressed), ..no_effects() },
        Action::Preset(text) => if pressed {
            Effects { send: Some(text), ..no_effects() }
        } else {
            no_effects()
        },
        Action::TalkTo(slot) => if pressed {
            match peer {
                Some(a) => Effects { aim: Some(Aim::Peer(a)), ptt: Some(true), ..no_effects() },
                None => Effects { nobody_at: Some(slot), ..no_effects() },
            }
        } else {
            Effects { ptt: Some(false), ..no_effects() }
        },
        Action::MessageTo(slot) => if pressed {
            match peer {
                Some(a) => Effects { aim: Some(Aim::Peer(a)), reveal: true, ..no_effects() },
                None => Effects { nobody_at: Some(slot), ..no_effects() },
            }
        } else {
            no_effects()
        },
        Action::TalkAll => if pressed {
            Effects { aim: Some(Aim::Everyone), ptt: Some(true), ..no_effects() }
        } else {
            Effects { ptt: Some(false), ..no_effects() }
        },
        Action::MessageAll => if pressed {
            Effects { aim: Some(Aim::Everyone), reveal: true, ..no_effects() }
        } else {
            no_effects()
        },
        Action::ToggleTransport => if pressed {
            Effects { emit: Some(UiEvent::ToggleTransport), ..no_effects() }
        } else {
            no_effects()
        },
        Action::AddPc => if pressed {
            Effects { reveal: true, emit: Some(UiEvent::AddPc), ..no_effects() }
        } else {
            no_effects()
        },
        Action::ShowShortcuts => if pressed {
            Effects { reveal: true, emit: Some(UiEvent::ShowShortcuts), ..no_effects() }
        } else {
            no_effects()
        },
        Action::ShowWindow => if pressed {
            Effects { reveal: true, ..no_effects() }
        } else {
            no_effects()
        },
    }
}

fn effects() -> (r: Effects)
    ensures
        r == no_effects(),
{
    Effects { aim: None, ptt: None, reveal: false, emit: None, send: None, nobody_at: None }
}

pub fn dispatch(action: Action, pressed: bool, peer: Option<PeerAddr>) -> (r: Effects)
    ensures
        r == spec_dispatch(action, pressed, peer),
{
    let mut e = effects();
    match action {
        Action::Talk => {
            e.ptt = Some(pressed);
        },
        Action::Preset(text) => {
            if pressed {
                e.send = Some(text);
            }
        },
        Action::TalkTo(slot) => {
            if pressed {
                match peer {
                    Some(a) => {
                        e.aim = Some(Aim::Peer(a));
                        e.ptt = Some(true);
                    },
                    None => {
                        e.nobody_at = Some(slot);
                    },
                }
            } else {
                e.ptt = Some(false);
            }
        },
        Action::MessageTo(slot) => {
            if pressed {
                match peer {
                    Some(a) => {
                        e.aim = Some(Aim::Peer(a));
                        e.reveal = true;
                    },
                    None => {
                        e.nobody_at = Some(slot);
                    },
                }
            }
        },
        Action::TalkAll => {
            if pressed {
                e.aim = Some(Aim::Everyone);
            }
            e.ptt = Some(pressed);
        },
        Action::MessageAll => {
            if pressed {
                e.aim = Some(Aim::Everyone);
                e.reveal = true;
            }
        },
        Action::ToggleTransport => {
            if pressed {
                e.emit = Some(UiEvent::ToggleTransport);
            }
        },
        Action::AddPc => {
            if pressed {
                e.reveal = true;
                e.emit = Some(UiEvent::AddPc);
            }
        },
        Action::ShowShortcuts => {
            if pressed {
                e.reveal = true;
                e.emit = Some(UiEvent::ShowShortcuts);
            }
        },
        Action::ShowWindow => {
            if pressed {
                e.reveal = true;
            }
        },
    }
    e
}

/// Why a key could not be changed.
#[derive(Debug, PartialEq, Eq)]
pub enum KeyError {
    /// Not one of the rebindable keys.
    NotEditable(String),
}

/// Change one rebindable key, or clear it back to its default with a blank
/// spec. The spec is stored trimmed. The talk key is also kept in the older
/// `talk_shortcut` field, so an older build reading the config agrees.
pub fn set_shortcut(cfg: &mut Config, id: &String, spec: &String) -> (r: Result<(), KeyError>)
    requires
        keys_unique(old(cfg).shortcuts@),
    ensures
        keys_unique(final(cfg).shortcuts@),
        !is_editable(id@) ==> (r matches Err(KeyError::NotEditable(s)) && s@ == id@) && *final(cfg)
            == *old(cfg),
        is_editable(id@) ==> {
            let m = if blank(spec@) {
                as_map(old(cfg).shortcuts@).remove(id@)
            } else {
                as_map(old(cfg).shortcuts@).insert(id@, trim(spec@))
            };
            &&& r is Ok
            &&& as_map(final(cfg).shortcuts@) == m
            &&& final(cfg).talk_shortcut@ == (if id@ == "talk"@ {
                key_for(Config { shortcuts: final(cfg).shortcuts, ..*old(cfg) }, "talk"@)
            } else {
                old(cfg).talk_shortcut@
            })
            &&& final(cfg).port == old(cfg).port
            &&& final(cfg).peer == old(cfg).peer
            &&& final(cfg).manual == old(cfg).manual
            &&& final(cfg).presets == old(cfg).presets
            &&& final(cfg).labels == old(cfg).labels
            &&& final(cfg).order == old(cfg).order
            &&& final(cfg).input_device == old(cfg).input_device
            &&& final(cfg).output_device == old(cfg).output_device
        },
{
    let table = editable();
    let mut found = false;
    let mut k: usize = 0;
    while k < table.len()
        invariant
            table@.len() == EDITABLE_KEYS,
            forall|j: int|
                0 <= j < EDITABLE_KEYS ==> ((#[trigger] table@[j]).id@, table@[j].label@, table@[j].default@)
                    == editable_spec()[j],
            k <= EDITABLE_KEYS,
            found == exists|j: int| 0 <= j < k && editable_spec()[j].0 == id@,
        decreases EDITABLE_KEYS - k,
    {
        assert(table@[k as int].id@ == editable_spec()[k as int].0);
        if table[k].id == *id {
            found = true;
        }
        k = k + 1;
    }
    if !found {
        return Err(KeyError::NotEditable(id.clone()));
    }
    let t = trimmed(spec.as_str());
    if t.as_str().is_empty() {
        crate::config::remove_entry(&mut cfg.shortcuts, id);
    } else {
        crate::config::set_entry(&mut cfg.shortcuts, id.clone(), t);
    }
    if *id == String::from_str("talk") {
        let talk = String::from_str("talk");
        let s = spec_for(cfg, &talk);
        cfg.talk_shortcut = s;
    }
    Ok(())
}

/// A key set to something reads back as that, trimmed, whatever the older
/// `talk_shortcut` field or the default says.
pub proof fn lemma_set_key_reads_back(before: Config, after: Config, id: Seq<char>, spec: Seq<char>)
    requires
        !blank(spec),
        as_map(after.shortcuts@) == as_map(before.shortcuts@).insert(id, trim(spec)),
    ensures
        key_for(after, id) == trim(spec),
{
    crate::text::lemma_trim_idempotent(spec);
}

/// A key cleared reads as its default again; the talk key as the older
/// `talk_shortcut` field first, when that says something.
pub proof fn lemma_cleared_key_falls_back(before: Config, after: Config, id: Seq<char>)
    requires
        as_map(after.shortcuts@) == as_map(before.shortcuts@).remove(id),
    ensures
        key_for(after, id) == (if id == "talk"@ && !blank(after.talk_shortcut@) {
            after.talk_shortcut@
        } else {
            default_from(id, 0)
        }),
{
}

/// Talking is held, not toggled: releasing any talk key — the selected
/// target, one PC, or everyone — always closes the microphone, whoever is or
/// is not at the key's position.
pub proof fn lemma_release_stops_talking(action: Action, peer: Option<PeerAddr>)
    requires
        action is Talk || action is TalkTo || action is TalkAll,
    ensures
        spec_dispatch(action, false, peer).ptt == Some(false),
{
}

/// A per-PC key pressed where nobody is opens no microphone and aims at
/// nobody: it only says so.
pub proof fn lemma_nobody_there(slot: usize, pressed: bool)
    ensures
        pressed ==> spec_dispatch(Action::TalkTo(slot), pressed, None) == (Effects {
            nobody_at: Some(slot),
            ..no_effects()
        }),
        pressed ==> spec_dispatch(Action::MessageTo(slot), pressed, None) == (Effects {
            nobody_at: Some(slot),
            ..no_effects()
        }),
{
}

/// Only a key whose job is the window brings the window up: messaging one
/// PC that is there or everyone, adding a PC, the shortcut list, and the
/// open-window key — on the press, never the release. Talking, presets and
/// going on or off air leave whatever is being worked on in front.
pub proof fn lemma_only_window_keys_reveal(action: Action, pressed: bool, peer: Option<PeerAddr>)
    ensures
        spec_dispatch(action, pressed, peer).reveal <==> pressed && (action is MessageAll || action is AddPc
            || action is ShowShortcuts || action is ShowWindow || (action is MessageTo && peer is Some)),
{
}

/// The start/stop key only asks the window to go on or off air: on the
/// press it emits that request and does nothing else — no window brought up,
/// no aim, no talk state, no text — and on the release nothing at all.
pub proof fn lemma_start_stop_only_asks(pressed: bool, peer: Option<PeerAddr>)
    ensures
        ({
            let e = spec_dispatch(Action::ToggleTransport, pressed, peer);
            &&& e.emit == (if pressed {
                Some(UiEvent::ToggleTransport)
            } else {
                None
            })
            &&& !e.reveal
            &&& e.aim is None
            &&& e.ptt is None
            &&& e.send is None
            &&& e.nobody_at is None
        }),
{
}

/// Only the start/stop key asks to go on or off air, and only when pressed.
pub proof fn lemma_toggle_only_from_its_key(action: Action, pressed: bool, peer: Option<PeerAddr>)
    ensures
        spec_dispatch(action, pressed, peer).emit == Some(UiEvent::ToggleTransport) <==> pressed
            && action is ToggleTransport,
{
}

/// What a rebindable key must do, by the name its choice is saved under:
/// each does what its label says.
pub open spec fn saved_key_right(b: (Seq<char>, Seq<char>, Action, Option<Seq<char>>)) -> bool {
    &&& b.3 == Some("talk"@) ==> b.2 is Talk && b.0 == "Talk to whoever is selected"@
    &&& b.3 == Some("talk-all"@) ==> b.2 is TalkAll && b.0 == "Talk to everyone"@
    &&& b.3 == Some("message-all"@) ==> b.2 is MessageAll && b.0 == "Message everyone"@
    &&& b.3 == Some("start-stop"@) ==> b.2 is ToggleTransport && b.0 == "Start or stop"@
    &&& b.3 == Some("add-pc"@) ==> b.2 is AddPc && b.0 == "Add a PC"@
    &&& b.3 == Some("open-window"@) ==> b.2 is ShowWindow && b.0 == "Open the window"@
    &&& b.3 == Some("show-shortcuts"@) ==> b.2 is ShowShortcuts && b.0 == "Show shortcuts"@
}

proof fn lemma_kept_from(cs: Seq<Candidate>)
    ensures
        forall|i: int|
            0 <= i < kept(cs).len() ==> exists|j: int|
                0 <= j < cs.len() && (#[trigger] cs[j]).0 == (#[trigger] kept(cs)[i]).0 && cs[j].2 == Some(
                    kept(cs)[i].2,
                ) && cs[j].3 == kept(cs)[i].3,
    decreases cs.len(),
{
    if cs.len() > 0 {
        let t = cs.drop_last();
        lemma_kept_from(t);
        assert forall|i: int| 0 <= i < kept(cs).len() implies exists|j: int|
            0 <= j < cs.len() && (#[trigger] cs[j]).0 == (#[trigger] kept(cs)[i]).0 && cs[j].2 == Some(
                kept(cs)[i].2,
            ) && cs[j].3 == kept(cs)[i].3 by {
            if i < kept(t).len() {
                assert(kept(cs)[i] == kept(t)[i]);
                let j = choose|j: int|
                    0 <= j < t.len() && (#[trigger] t[j]).0 == kept(t)[i].0 && t[j].2 == Some(kept(t)[i].2)
                        && t[j].3 == kept(t)[i].3;
                assert(cs[j] == t[j]);
            } else {
                assert(cs[cs.len() - 1] == cs.last());
            }
        }
    }
}

/// The saved names of the rebindable keys are all different, and each
/// names the action its label promises.
proof fn lemma_action_by_name()
    ensures
        action_for("talk"@) == Some(Action::Talk),
        action_for("talk-all"@) == Some(Action::TalkAll),
        action_for("message-all"@) == Some(Action::MessageAll),
        action_for("start-stop"@) == Some(Action::ToggleTransport),
        action_for("add-pc"@) == Some(Action::AddPc),
        action_for("open-window"@) == Some(Action::ShowWindow),
        action_for("show-shortcuts"@) == Some(Action::ShowShortcuts),
        "talk"@ != "talk-all"@,
        "talk"@ != "message-all"@,
        "talk"@ != "start-stop"@,
        "talk"@ != "add-pc"@,
        "talk"@ != "open-window"@,
        "talk"@ != "show-shortcuts"@,
        "talk-all"@ != "message-all"@,
        "talk-all"@ != "start-stop"@,
        "talk-all"@ != "add-pc"@,
        "talk-all"@ != "open-window"@,
        "talk-all"@ != "show-shortcuts"@,
        "message-all"@ != "start-stop"@,
        "message-all"@ != "add-pc"@,
        "message-all"@ != "open-window"@,
        "message-all"@ != "show-shortcuts"@,
        "start-stop"@ != "add-pc"@,
        "start-stop"@ != "open-window"@,
        "start-stop"@ != "show-shortcuts"@,
        "add-pc"@ != "open-window"@,
        "add-pc"@ != "show-shortcuts"@,
        "open-window"@ != "show-shortcuts"@,
{
    reveal_strlit("talk");
    reveal_strlit("talk-all");
    reveal_strlit("message-all");
    reveal_strlit("start-stop");
    reveal_strlit("add-pc");
    reveal_strlit("open-window");
    reveal_strlit("show-shortcuts");
    assert("talk"@.len() == 4);
    assert("talk-all"@.len() == 8);
    assert("message-all"@.len() == 11);
    assert("start-stop"@.len() == 10);
    assert("add-pc"@.len() == 6);
    assert("open-window"@.len() == 11);
    assert("show-shortcuts"@.len() == 14);
    assert("message-all"@[0] != "open-window"@[0]);
}

/// Every key the app registers under a saved name does what its label says:
/// the talk keys open the microphone, the message key aims and brings the
/// window up, start/stop asks to go on or off air, and so on — whatever the
/// settings say the keys are, and whichever keys were left unset.
pub proof fn lemma_rebindable_keys_do_what_they_say(cfg: Config)
    ensures
        forall|i: int| 0 <= i < kept(candidates(cfg)).len() ==> saved_key_right(#[trigger] kept(candidates(cfg))[i]),
{
    let cs = candidates(cfg);
    let e = editable_candidates(cfg);
    let pr = preset_candidates(cfg);
    let sl = slot_candidates();
    lemma_kept_from(cs);
    assert forall|j: int| 0 <= j < cs.len() && (#[trigger] cs[j]).2 is Some implies saved_key_right(
        (cs[j].0, cs[j].1, cs[j].2->0, cs[j].3),
    ) by {
        if j < e.len() {
            assert(cs[j] == e[j]);
            let t = editable_spec();
            assert(e[j] == (t[j].1, key_for(cfg, t[j].0), action_for(t[j].0), Some(t[j].0)));
            lemma_action_by_name();
            assert(t[0].0 == "talk"@);
            assert(t[1].0 == "talk-all"@);
            assert(t[2].0 == "message-all"@);
            assert(t[3].0 == "start-stop"@);
            assert(t[4].0 == "add-pc"@);
            assert(t[5].0 == "open-window"@);
            assert(t[6].0 == "show-shortcuts"@);
        } else if j < e.len() + pr.len() {
            assert(cs[j] == pr[j - e.len()]);
            assert(pr[j - e.len()].3 is None);
        } else {
            assert(cs[j] == sl[j - e.len() - pr.len()]);
            assert(sl[j - e.len() - pr.len()].3 is None);
        }
    }
    assert forall|i: int| 0 <= i < kept(cs).len() implies saved_key_right(#[trigger] kept(cs)[i]) by {
        let j = choose|j: int|
            0 <= j < cs.len() && (#[trigger] cs[j]).0 == kept(cs)[i].0 && cs[j].2 == Some(kept(cs)[i].2)
                && cs[j].3 == kept(cs)[i].3;
        assert(saved_key_right((cs[j].0, cs[j].1, cs[j].2->0, cs[j].3)));
    }
}

} // verus!
