//! Transport settings. Reading and writing them is the caller's; what they
//! hold, their defaults, and the keyed lists inside them are here.

use vstd::prelude::*;

verus! {

/// A canned message, sent with one keystroke and no typing.
#[derive(Debug)]
pub struct Preset {
    pub label: String,
    pub text: String,
    /// Empty means the preset exists but has no key.
    pub shortcut: String,
}

impl Clone for Preset {
    fn clone(&self) -> (r: Self)
        ensures
            r == *self,
    {
        Preset { label: self.label.clone(), text: self.text.clone(), shortcut: self.shortcut.clone() }
    }
}

/// Everything saved.
#[derive(Debug)]
pub struct Config {
    pub port: u16,
    pub peer: String,
    /// Addresses typed in by hand, kept alongside whatever mDNS finds.
    pub manual: Vec<String>,
    /// Hold this to talk. Kept where an older config keeps it.
    pub talk_shortcut: String,
    /// Canned messages, each on its own key.
    pub presets: Vec<Preset>,
    /// Rebound keys, by the id of what they do.
    pub shortcuts: Vec<(String, String)>,
    /// Names given to machines, by address.
    pub labels: Vec<(String, String)>,
    /// The roster order, by address.
    pub order: Vec<String>,
    /// The chosen microphone, by name.
    pub input_device: Option<String>,
    /// The chosen speakers, by name.
    pub output_device: Option<String>,
}

impl Default for Config {
    /// Everything empty: no port, no peer, no keys, no presets. (The defaults
    /// for a key or the presets fill in a field that is missing from a saved
    /// file; they are not what an empty configuration holds.)
    fn default() -> (r: Self)
        ensures
            r.port == 0,
            r.peer@.len() == 0,
            r.manual@.len() == 0,
            r.talk_shortcut@.len() == 0,
            r.presets@.len() == 0,
            r.shortcuts@.len() == 0,
            r.labels@.len() == 0,
            r.order@.len() == 0,
            r.input_device is None,
            r.output_device is None,
    {
        Config {
            port: 0,
            peer: String::new(),
            manual: Vec::new(),
            talk_shortcut: String::new(),
            presets: Vec::new(),
            shortcuts: Vec::new(),
            labels: Vec::new(),
            order: Vec::new(),
            input_device: None,
            output_device: None,
        }
    }
}

/// The talk key when a saved file does not say: a single key, so it can be
/// held, and one nothing else tends to claim.
pub fn default_talk_shortcut() -> (r: String)
    ensures
        r@ == "F8"@,
{
    String::from_str("F8")
}

fn preset(label: &str, text: &str, shortcut: &str) -> (r: Preset)
    ensures
        r.label@ == label@,
        r.text@ == text@,
        r.shortcut@ == shortcut@,
{
    Preset { label: String::from_str(label), text: String::from_str(text), shortcut: String::from_str(shortcut) }
}

/// The presets when a saved file does not say.
pub fn default_presets() -> (r: Vec<Preset>)
    ensures
        r@.len() == 3,
        r@[0].label@ == "On my way"@ && r@[0].text@ == "On my way"@ && r@[0].shortcut@
            == "CommandOrControl+Alt+1"@,
        r@[1].label@ == "Lunch?"@ && r@[1].text@ == "Lunch?"@ && r@[1].shortcut@
            == "CommandOrControl+Alt+2"@,
        r@[2].label@ == "Call me"@ && r@[2].text@ == "Call me"@ && r@[2].shortcut@
            == "CommandOrControl+Alt+3"@,
{
    let mut v: Vec<Preset> = Vec::new();
    v.push(preset("On my way", "On my way", "CommandOrControl+Alt+1"));
    v.push(preset("Lunch?", "Lunch?", "CommandOrControl+Alt+2"));
    v.push(preset("Call me", "Call me", "CommandOrControl+Alt+3"));
    v
}

/// A keyed list: no key twice.
pub open spec fn keys_unique(v: Seq<(String, String)>) -> bool {
    forall|i: int, j: int| 0 <= i < j < v.len() ==> (#[trigger] v[i]).0@ != (#[trigger] v[j]).0@
}

/// A keyed list as the map it stands for.
pub open spec fn as_map(v: Seq<(String, String)>) -> Map<Seq<char>, Seq<char>>
    decreases v.len(),
{
    if v.len() == 0 {
        Map::empty()
    } else {
        as_map(v.drop_last()).insert(v.last().0@, v.last().1@)
    }
}

/// In a keyed list with no key twice, a key is in the map exactly when some
/// entry has it, and the map gives each entry's key that entry's value.
pub proof fn lemma_as_map(v: Seq<(String, String)>)
    requires
        keys_unique(v),
    ensures
        forall|k: Seq<char>|
            #![trigger as_map(v).contains_key(k)]
            as_map(v).contains_key(k) <==> exists|i: int| 0 <= i < v.len() && (#[trigger] v[i]).0@ == k,
        forall|i: int| 0 <= i < v.len() ==> as_map(v)[(#[trigger] v[i]).0@] == v[i].1@,
    decreases v.len(),
{
    if v.len() > 0 {
        let w = v.drop_last();
        assert(keys_unique(w));
        lemma_as_map(w);
        assert forall|k: Seq<char>| as_map(v).contains_key(k) implies exists|i: int|
            0 <= i < v.len() && (#[trigger] v[i]).0@ == k by {
            if k != v.last().0@ {
                assert(as_map(w).contains_key(k));
                let i = choose|i: int| 0 <= i < w.len() && (#[trigger] w[i]).0@ == k;
                assert(v[i] == w[i]);
            } else {
                assert(v[v.len() - 1].0@ == k);
            }
        }
        assert forall|k: Seq<char>| (exists|i: int| 0 <= i < v.len() && (#[trigger] v[i]).0@ == k)
            implies as_map(v).contains_key(k) by {
            let i = choose|i: int| 0 <= i < v.len() && (#[trigger] v[i]).0@ == k;
            if i < v.len() - 1 {
                assert(w[i] == v[i]);
            }
        }
        assert forall|i: int| 0 <= i < v.len() implies as_map(v)[(#[trigger] v[i]).0@] == v[i].1@ by {
            if i < v.len() - 1 {
                assert(w[i] == v[i]);
                assert(v[i].0@ != v[v.len() - 1].0@);
            }
        }
    }
}

proof fn lemma_as_map_ext(a: Seq<(String, String)>, m: Map<Seq<char>, Seq<char>>)
    requires
        keys_unique(a),
        forall|k: Seq<char>| m.contains_key(k) <==> exists|i: int| 0 <= i < a.len() && (#[trigger] a[i]).0@ == k,
        forall|i: int| 0 <= i < a.len() ==> m[(#[trigger] a[i]).0@] == a[i].1@,
    ensures
        as_map(a) == m,
{
    lemma_as_map(a);
    assert forall|k: Seq<char>| #[trigger] m.contains_key(k) implies as_map(a)[k] == m[k] by {
        let i = choose|i: int| 0 <= i < a.len() && (#[trigger] a[i]).0@ == k;
        assert(as_map(a)[a[i].0@] == a[i].1@);
    }
    assert(as_map(a) =~= m);
}

/// The value under `key`, if there is one.
pub fn lookup(v: &Vec<(String, String)>, key: &String) -> (r: Option<String>)
    requires
        keys_unique(v@),
    ensures
        match r {
            Some(s) => as_map(v@).contains_key(key@) && s@ == as_map(v@)[key@],
            None => !as_map(v@).contains_key(key@),
        },
{
    let mut i: usize = 0;
    while i < v.len()
        invariant
            keys_unique(v@),
            i <= v@.len(),
            forall|j: int| 0 <= j < i ==> (#[trigger] v@[j]).0@ != key@,
        decreases v@.len() - i,
    {
        if v[i].0 == *key {
            proof {
                lemma_as_map(v@);
                assert(v@[i as int].0@ == key@);
            }
            return Some(v[i].1.clone());
        }
        i = i + 1;
    }
    proof {
        lemma_as_map(v@);
    }
    None
}

/// Sets the value under `key`, replacing any that was there.
pub fn set_entry(v: &mut Vec<(String, String)>, key: String, value: String)
    requires
        keys_unique(old(v)@),
    ensures
        keys_unique(final(v)@),
        as_map(final(v)@) == as_map(old(v)@).insert(key@, value@),
{
    proof {
        lemma_as_map(v@);
    }
    let ghost old_v = v@;
    let ghost m = as_map(v@).insert(key@, value@);
    let mut i: usize = 0;
    while i < v.len()
        invariant
            v@ == old_v,
            old_v == old(v)@,
            keys_unique(old_v),
            m == as_map(old_v).insert(key@, value@),
            i <= v@.len(),
            forall|j: int| 0 <= j < i ==> (#[trigger] v@[j]).0@ != key@,
        decreases v@.len() - i,
    {
        if v[i].0 == key {
            v.set(i, (key, value));
            proof {
                lemma_as_map(old_v);
                assert forall|a: int, b: int| 0 <= a < b < v@.len() implies (#[trigger] v@[a]).0@
                    != (#[trigger] v@[b]).0@ by {
                    if a != i && b != i {
                        assert(v@[a] == old_v[a] && v@[b] == old_v[b]);
                    } else if a == i {
                        assert(old_v[i as int].0@ != old_v[b].0@);
                    } else {
                        assert(old_v[a].0@ != old_v[i as int].0@);
                    }
                }
                assert forall|k: Seq<char>| m.contains_key(k) <==> exists|j: int|
                    0 <= j < v@.len() && (#[trigger] v@[j]).0@ == k by {
                    if k == key@ {
                        assert(v@[i as int].0@ == k);
                    } else {
                        if m.contains_key(k) {
                            assert(as_map(old_v).contains_key(k));
                            let j = choose|j: int| 0 <= j < old_v.len() && (#[trigger] old_v[j]).0@ == k;
                            assert(v@[j] == old_v[j]);
                        }
                        if exists|j: int| 0 <= j < v@.len() && (#[trigger] v@[j]).0@ == k {
                            let j = choose|j: int| 0 <= j < v@.len() && (#[trigger] v@[j]).0@ == k;
                            assert(j != i);
                            assert(v@[j] == old_v[j]);
                            assert(old_v[j].0@ == k);
                            assert(as_map(old_v).contains_key(k));
                        }
                    }
                }
                assert forall|j: int| 0 <= j < v@.len() implies m[(#[trigger] v@[j]).0@] == v@[j].1@ by {
                    if j != i {
                        assert(v@[j] == old_v[j]);
                        assert(old_v[j].0@ != old_v[i as int].0@);
                    }
                }
                lemma_as_map_ext(v@, m);
            }
            return;
        }
        i = i + 1;
    }
    v.push((key, value));
    proof {
        assert(v@.drop_last() =~= old_v);
        assert forall|a: int, b: int| 0 <= a < b < v@.len() implies (#[trigger] v@[a]).0@
            != (#[trigger] v@[b]).0@ by {
            if b < old_v.len() {
                assert(v@[a] == old_v[a] && v@[b] == old_v[b]);
            }
        }
    }
}

/// Removes the value under `key`, if there is one.
pub fn remove_entry(v: &mut Vec<(String, String)>, key: &String)
    requires
        keys_unique(old(v)@),
    ensures
        keys_unique(final(v)@),
        as_map(final(v)@) == as_map(old(v)@).remove(key@),
{
    proof {
        lemma_as_map(v@);
    }
    let ghost old_v = v@;
    let ghost m = as_map(v@).remove(key@);
    let mut i: usize = 0;
    while i < v.len()
        invariant
            v@ == old_v,
            old_v == old(v)@,
            keys_unique(old_v),
            m == as_map(old_v).remove(key@),
            i <= v@.len(),
            forall|j: int| 0 <= j < i ==> (#[trigger] v@[j]).0@ != key@,
        decreases v@.len() - i,
    {
        if v[i].0 == *key {
            let _ = v.remove(i);
            proof {
                lemma_as_map(old_v);
                let back = |j: int| if j < i { j } else { j + 1 };
                assert forall|j: int| 0 <= j < v@.len() implies #[trigger] v@[j] == old_v[back(j)] by {}
                assert forall|a: int, b: int| 0 <= a < b < v@.len() implies (#[trigger] v@[a]).0@
                    != (#[trigger] v@[b]).0@ by {
                    assert(v@[a] == old_v[back(a)] && v@[b] == old_v[back(b)]);
                }
                assert forall|k: Seq<char>| m.contains_key(k) <==> exists|j: int|
                    0 <= j < v@.len() && (#[trigger] v@[j]).0@ == k by {
                    if m.contains_key(k) {
                        assert(as_map(old_v).contains_key(k));
                        let j = choose|j: int| 0 <= j < old_v.len() && (#[trigger] old_v[j]).0@ == k;
                        assert(j != i);
                        let jj = if j < i { j } else { j - 1 };
                        assert(v@[jj] == old_v[back(jj)]);
                    }
                    if exists|j: int| 0 <= j < v@.len() && (#[trigger] v@[j]).0@ == k {
                        let j = choose|j: int| 0 <= j < v@.len() && (#[trigger] v@[j]).0@ == k;
                        assert(v@[j] == old_v[back(j)]);
                        assert(old_v[back(j)].0@ != old_v[i as int].0@);
                        assert(old_v[back(j)].0@ == k);
                        assert(as_map(old_v).contains_key(k));
                    }
                }
                assert forall|j: int| 0 <= j < v@.len() implies m[(#[trigger] v@[j]).0@] == v@[j].1@ by {
                    assert(v@[j] == old_v[back(j)]);
                    assert(old_v[back(j)].0@ != old_v[i as int].0@);
                }
                lemma_as_map_ext(v@, m);
            }
            return;
        }
        i = i + 1;
    }
    proof {
        assert(as_map(old_v).remove(key@) =~= as_map(old_v));
    }
}

} // verus!
