//! What the window's commands decide, apart from reaching the running
//! session and the disk: the text they accept, and the edits they make to the
//! saved settings.

use vstd::prelude::*;

use crate::audio::Prefs;
use crate::config::{as_map, keys_unique, remove_entry, set_entry, Config};
use crate::text::{trim, trimmed};

verus! {

/// Some trimmed text, or nothing when it is blank.
pub open spec fn nonblank(o: Option<String>) -> Option<Seq<char>> {
    match o {
        Some(s) => if trim(s@).len() > 0 {
            Some(trim(s@))
        } else {
            None
        },
        None => None,
    }
}

pub open spec fn opt_chars(o: Option<String>) -> Option<Seq<char>> {
    match o {
        Some(s) => Some(s@),
        None => None,
    }
}

/// Trimmed, or nothing when blank: what clearing a field leaves behind means
/// "no preference", not a name nothing could ever match.
pub fn nonblank_text(o: &Option<String>) -> (r: Option<String>)
    ensures
        opt_chars(r) == nonblank(*o),
{
    match o {
        Some(s) => {
            let t = trimmed(s.as_str());
            if t.as_str().is_empty() {
                None
            } else {
                Some(t)
            }
        },
        None => None,
    }
}

/// The saved device names, in the shape the audio pipeline wants them.
pub fn audio_prefs(cfg: &Config) -> (r: Prefs)
    ensures
        opt_chars(r.input) == nonblank(cfg.input_device),
        opt_chars(r.output) == nonblank(cfg.output_device),
{
    Prefs { input: nonblank_text(&cfg.input_device), output: nonblank_text(&cfg.output_device) }
}

pub fn greet(name: &str) -> (r: String)
    ensures
        r@ == "Hello, "@ + name@ + "! You've been greeted from Rust!"@,
{
    let mut s = String::from_str("Hello, ");
    s.append(name);
    s.append("! You've been greeted from Rust!");
    s
}

/// Why a command refused what it was given.
#[derive(Debug, PartialEq, Eq)]
pub enum CommandError {
    /// A blank address.
    EmptyAddress,
}

/// An address typed in by hand, trimmed; refused when blank.
pub fn manual_entry(entry: &String) -> (r: Result<String, CommandError>)
    ensures
        trim(entry@).len() == 0 ==> r == Err::<String, CommandError>(CommandError::EmptyAddress),
        trim(entry@).len() > 0 ==> (r matches Ok(s) && s@ == trim(entry@)),
{
    let t = trimmed(entry.as_str());
    if t.as_str().is_empty() {
        Err(CommandError::EmptyAddress)
    } else {
        Ok(t)
    }
}

/// `v` without any entry equal to `x`, in order.
pub open spec fn without(v: Seq<String>, x: Seq<char>) -> Seq<String>
    decreases v.len(),
{
    if v.len() == 0 {
        Seq::empty()
    } else {
        let r = without(v.drop_last(), x);
        if v.last()@ == x {
            r
        } else {
            r.push(v.last())
        }
    }
}

/// The list of hand-entered addresses after adding one (unless it is there
/// already) and then removing every copy of another.
pub open spec fn edited(v: Seq<String>, add: Option<String>, remove: Option<String>) -> Seq<String> {
    let added = match add {
        Some(a) => if exists|i: int| 0 <= i < v.len() && v[i]@ == a@ {
            v
        } else {
            v.push(a)
        },
        None => v,
    };
    match remove {
        Some(x) => without(added, x@),
        None => added,
    }
}

/// Add an address to the hand-entered list, unless it is there already, then
/// remove every copy of another.
pub fn edit_manual(list: &mut Vec<String>, add: Option<String>, remove: Option<String>)
    ensures
        final(list)@ == edited(old(list)@, add, remove),
{
    if let Some(a) = add {
        let mut present = false;
        let mut i: usize = 0;
        while i < list.len()
            invariant
                i <= list@.len(),
                present == exists|j: int| 0 <= j < i && list@[j]@ == a@,
            decreases list@.len() - i,
        {
            if list[i] == a {
                present = true;
            }
            i = i + 1;
        }
        if !present {
            list.push(a);
        }
    }
    if let Some(x) = remove {
        let ghost v = list@;
        let mut kept: Vec<String> = Vec::new();
        let mut i: usize = 0;
        assert(v.take(0) =~= Seq::<String>::empty());
        while i < list.len()
            invariant
                list@ == v,
                i <= v.len(),
                kept@ == without(v.take(i as int), x@),
            decreases v.len() - i,
        {
            assert(v.take(i + 1).drop_last() =~= v.take(i as int));
            if list[i] != x {
                kept.push(list[i].clone());
            }
            i = i + 1;
        }
        assert(v.take(v.len() as int) =~= v);
        *list = kept;
    }
}

/// No address listed twice.
pub open spec fn no_repeats(v: Seq<String>) -> bool {
    forall|i: int, j: int| 0 <= i < j < v.len() ==> (#[trigger] v[i])@ != (#[trigger] v[j])@
}

proof fn lemma_without(v: Seq<String>, x: Seq<char>)
    ensures
        forall|i: int|
            0 <= i < without(v, x).len() ==> (#[trigger] without(v, x)[i])@ != x && exists|j: int|
                0 <= j < v.len() && v[j]@ == without(v, x)[i]@,
        forall|j: int|
            0 <= j < v.len() && (#[trigger] v[j])@ != x ==> exists|i: int|
                0 <= i < without(v, x).len() && without(v, x)[i]@ == v[j]@,
        no_repeats(v) ==> no_repeats(without(v, x)),
    decreases v.len(),
{
    if v.len() > 0 {
        let u = v.drop_last();
        let l = v.last();
        lemma_without(u, x);
        let w = without(u, x);
        assert forall|j: int| 0 <= j < u.len() implies #[trigger] u[j] == v[j] by {}
        if l@ == x {
            assert(without(v, x) == w);
            assert forall|j: int| 0 <= j < v.len() && (#[trigger] v[j])@ != x implies exists|i: int|
                0 <= i < w.len() && w[i]@ == v[j]@ by {
                assert(j < u.len());
                assert(u[j] == v[j]);
            }
            assert forall|i: int| 0 <= i < w.len() implies (#[trigger] w[i])@ != x && exists|j: int|
                0 <= j < v.len() && v[j]@ == w[i]@ by {
                let j = choose|j: int| 0 <= j < u.len() && u[j]@ == w[i]@;
                assert(v[j] == u[j]);
            }
            if no_repeats(v) {
                assert(no_repeats(u));
            }
        } else {
            let r = w.push(l);
            assert(without(v, x) == r);
            assert forall|j: int| 0 <= j < v.len() && (#[trigger] v[j])@ != x implies exists|i: int|
                0 <= i < r.len() && r[i]@ == v[j]@ by {
                if j == v.len() - 1 {
                    assert(r[w.len() as int] == l);
                } else {
                    assert(u[j] == v[j]);
                    let i = choose|i: int| 0 <= i < w.len() && w[i]@ == u[j]@;
                    assert(r[i] == w[i]);
                }
            }
            assert forall|i: int| 0 <= i < r.len() implies (#[trigger] r[i])@ != x && exists|j: int|
                0 <= j < v.len() && v[j]@ == r[i]@ by {
                if i == w.len() {
                    assert(v[v.len() - 1] == l);
                } else {
                    assert(r[i] == w[i]);
                    let j = choose|j: int| 0 <= j < u.len() && u[j]@ == w[i]@;
                    assert(v[j] == u[j]);
                }
            }
            if no_repeats(v) {
                assert(no_repeats(u));
                assert forall|a: int, b: int| 0 <= a < b < r.len() implies (#[trigger] r[a])@ != (
                #[trigger] r[b])@ by {
                    if b == w.len() {
                        assert(r[a] == w[a]);
                        let j = choose|j: int| 0 <= j < u.len() && u[j]@ == w[a]@;
                        assert(v[j] == u[j]);
                        assert(v[j]@ != v[v.len() - 1]@);
                    } else {
                        assert(r[a] == w[a] && r[b] == w[b]);
                    }
                }
            }
        }
    }
}

/// Editing the hand-entered list keeps it free of repeats; what was added is
/// there afterwards, unless it was also what was removed; and what was
/// removed is gone, every copy of it.
pub proof fn lemma_edit_manual(v: Seq<String>, add: Option<String>, remove: Option<String>)
    ensures
        no_repeats(v) ==> no_repeats(edited(v, add, remove)),
        remove matches Some(x) ==> forall|i: int|
            0 <= i < edited(v, add, remove).len() ==> (#[trigger] edited(v, add, remove)[i])@ != x@,
        add matches Some(a) ==> (remove matches Some(x) && x@ == a@) || exists|i: int|
            0 <= i < edited(v, add, remove).len() && (#[trigger] edited(v, add, remove)[i])@ == a@,
{
    let added = match add {
        Some(a) => if exists|i: int| 0 <= i < v.len() && v[i]@ == a@ {
            v
        } else {
            v.push(a)
        },
        None => v,
    };
    if no_repeats(v) {
        if let Some(a) = add {
            if !exists|i: int| 0 <= i < v.len() && v[i]@ == a@ {
                assert forall|i: int, j: int| 0 <= i < j < added.len() implies (#[trigger] added[i])@
                    != (#[trigger] added[j])@ by {
                    if j == v.len() {
                        assert(added[i] == v[i]);
                    } else {
                        assert(added[i] == v[i] && added[j] == v[j]);
                    }
                }
            }
        }
    }
    if let Some(a) = add {
        if !exists|i: int| 0 <= i < v.len() && v[i]@ == a@ {
            assert(added[v.len() as int] == a);
        }
        assert(exists|i: int| 0 <= i < added.len() && added[i]@ == a@);
    }
    if let Some(x) = remove {
        lemma_without(added, x@);
        let e = without(added, x@);
        assert(edited(v, add, remove) == e);
        if let Some(a) = add {
            if x@ != a@ {
                let j = choose|j: int| 0 <= j < added.len() && added[j]@ == a@;
                assert(added[j]@ != x@);
                let i = choose|i: int| 0 <= i < e.len() && e[i]@ == added[j]@;
                assert(e[i]@ == a@);
            }
        }
    } else {
        assert(edited(v, add, remove) == added);
    }
}

/// A line of text to send, trimmed; nothing to send when it is blank.
pub fn outgoing_text(text: &str) -> (r: Option<String>)
    ensures
        trim(text@).len() == 0 ==> r is None,
        trim(text@).len() > 0 ==> (r matches Some(s) && s@ == trim(text@)),
{
    let t = trimmed(text);
    if t.as_str().is_empty() {
        None
    } else {
        Some(t)
    }
}

/// Give a machine your own name for it, or clear it with a blank label.
pub fn set_label(labels: &mut Vec<(String, String)>, addr: String, label: &String)
    requires
        keys_unique(old(labels)@),
    ensures
        keys_unique(final(labels)@),
        as_map(final(labels)@) == if trim(label@).len() == 0 {
            as_map(old(labels)@).remove(addr@)
        } else {
            as_map(old(labels)@).insert(addr@, trim(label@))
        },
{
    let t = trimmed(label.as_str());
    if t.as_str().is_empty() {
        remove_entry(labels, &addr);
    } else {
        set_entry(labels, addr, t);
    }
}

} // verus!
