//! What a running session knows, apart from its threads, socket and
//! devices: the link's state, the peers typed in by hand, who has been heard
//! from, the message log, the names given to machines and the roster order —
//! and how those make the roster the UI shows and the list sent to.

use vstd::prelude::*;
use vstd::string::StringSliceAdditionalSpecFns;

use crate::discovery::{called, sort_by_name, sorted_by_name, Peer, PeerAddr};
use crate::link::{
    audio_step, bytes_of, fresh_stream, heartbeat_step, received, text_step, Counters, Receiver, Stats,
    Transmitter,
};
use crate::wire::{Header, KIND_TEXT, VER};

verus! {

/// How long an address may go unheard before it is no longer live, in
/// milliseconds: somebody who goes quiet greys out within seven seconds.
pub const HEARD_TIMEOUT_MS: u64 = 7000;

/// How recently audio must have arrived from an address for it to count as
/// talking, in milliseconds.
pub const TALKING_MS: u64 = 300;

/// One line of the message log.
#[derive(Debug)]
pub struct Message {
    /// Who sent it: an address as text until the session puts a name on it.
    pub from: String,
    pub text: String,
    /// Sent from here.
    pub mine: bool,
}

impl Clone for Message {
    fn clone(&self) -> (r: Self)
        ensures
            r == *self,
    {
        Message { from: self.from.clone(), text: self.text.clone(), mine: self.mine }
    }
}

/// When each address was last heard from, and last heard talking, in
/// milliseconds on the caller's clock.
pub struct Presence {
    seen: Vec<(PeerAddr, u64, Option<u64>)>,
}

/// What is known of `a`: when it was last heard, and last heard talking.
pub open spec fn heard_of(s: Seq<(PeerAddr, u64, Option<u64>)>, a: PeerAddr) -> Option<(u64, Option<u64>)>
    decreases s.len(),
{
    if s.len() == 0 {
        None
    } else if s[0].0 == a {
        Some((s[0].1, s[0].2))
    } else {
        heard_of(s.drop_first(), a)
    }
}

/// Whether `then` is less than `window` milliseconds before `now`.
pub open spec fn within(then: u64, now: u64, window: u64) -> bool {
    (if now >= then {
        now - then
    } else {
        0
    }) < window
}

proof fn lemma_heard_skip(s: Seq<(PeerAddr, u64, Option<u64>)>, a: PeerAddr, i: int)
    requires
        0 <= i <= s.len(),
        forall|j: int| 0 <= j < i ==> s[j].0 != a,
    ensures
        heard_of(s, a) == heard_of(s.skip(i), a),
    decreases i,
{
    if i > 0 {
        assert(s.drop_first().skip(i - 1) =~= s.skip(i));
        lemma_heard_skip(s.drop_first(), a, i - 1);
    } else {
        assert(s.skip(0) =~= s);
    }
}

proof fn lemma_heard_update(s: Seq<(PeerAddr, u64, Option<u64>)>, i: int, e: (PeerAddr, u64, Option<u64>), b: PeerAddr)
    requires
        0 <= i < s.len(),
        s[i].0 == e.0,
        forall|j: int| 0 <= j < i ==> s[j].0 != e.0,
    ensures
        heard_of(s.update(i, e), b) == if b == e.0 {
            Some((e.1, e.2))
        } else {
            heard_of(s, b)
        },
    decreases i,
{
    if i > 0 {
        assert(s.update(i, e).drop_first() =~= s.drop_first().update(i - 1, e));
        assert(s.update(i, e)[0] == s[0]);
        lemma_heard_update(s.drop_first(), i - 1, e, b);
    } else {
        assert(s.update(i, e).drop_first() =~= s.drop_first());
        assert(s.update(i, e)[0] == e);
    }
}

proof fn lemma_heard_push(s: Seq<(PeerAddr, u64, Option<u64>)>, e: (PeerAddr, u64, Option<u64>), b: PeerAddr)
    requires
        forall|j: int| 0 <= j < s.len() ==> s[j].0 != e.0,
    ensures
        heard_of(s.push(e), b) == if b == e.0 {
            Some((e.1, e.2))
        } else {
            heard_of(s, b)
        },
    decreases s.len(),
{
    if s.len() > 0 {
        assert(s.push(e).drop_first() =~= s.drop_first().push(e));
        assert(s.push(e)[0] == s[0]);
        lemma_heard_push(s.drop_first(), e, b);
        assert(s[0].0 != e.0);
    } else {
        assert(s.push(e).drop_first() =~= Seq::<(PeerAddr, u64, Option<u64>)>::empty());
        assert(s.push(e)[0] == e);
        assert(heard_of(s.push(e).drop_first(), b) is None);
        assert(heard_of(s, b) is None);
    }
}

impl Presence {
    /// What is known of each address.
    pub closed spec fn of(&self, a: PeerAddr) -> Option<(u64, Option<u64>)> {
        heard_of(self.seen@, a)
    }

    pub fn new() -> (r: Self)
        ensures
            forall|a: PeerAddr| r.of(a) is None,
    {
        Presence { seen: Vec::new() }
    }

    fn find(&self, a: PeerAddr) -> (r: Option<usize>)
        ensures
            match r {
                Some(i) => {
                    &&& i < self.seen@.len()
                    &&& self.seen@[i as int].0 == a
                    &&& forall|j: int| 0 <= j < i ==> self.seen@[j].0 != a
                },
                None => forall|i: int| 0 <= i < self.seen@.len() ==> self.seen@[i].0 != a,
            },
    {
        let mut i: usize = 0;
        while i < self.seen.len()
            invariant
                i <= self.seen@.len(),
                forall|j: int| 0 <= j < i ==> self.seen@[j].0 != a,
            decreases self.seen@.len() - i,
        {
            if self.seen[i].0 == a {
                return Some(i);
            }
            i = i + 1;
        }
        None
    }

    /// A datagram from `a` arrived at `now`; `audio` when it carried audio.
    pub fn heard(&mut self, a: PeerAddr, now: u64, audio: bool)
        ensures
            final(self).of(a) == Some(
                (
                    now,
                    if audio {
                        Some(now)
                    } else {
                        match old(self).of(a) {
                            Some(e) => e.1,
                            None => None,
                        }
                    },
                ),
            ),
            forall|b: PeerAddr| b != a ==> #[trigger] final(self).of(b) == old(self).of(b),
    {
        let ghost old_s = self.seen@;
        match self.find(a) {
            Some(i) => {
                let (_, _, last_audio) = self.seen[i];
                let talk = if audio {
                    Some(now)
                } else {
                    last_audio
                };
                proof {
                    lemma_heard_skip(old_s, a, i as int);
                    assert(old_s.skip(i as int)[0] == old_s[i as int]);
                }
                self.seen.set(i, (a, now, talk));
                proof {
                    assert forall|b: PeerAddr| #[trigger] heard_of(self.seen@, b) == if b == a {
                        Some((now, talk))
                    } else {
                        heard_of(old_s, b)
                    } by {
                        lemma_heard_update(old_s, i as int, (a, now, talk), b);
                    }
                }
            },
            None => {
                let talk = if audio {
                    Some(now)
                } else {
                    None
                };
                proof {
                    lemma_heard_skip(old_s, a, old_s.len() as int);
                    assert(old_s.skip(old_s.len() as int) =~= Seq::<(PeerAddr, u64, Option<u64>)>::empty());
                }
                self.seen.push((a, now, talk));
                proof {
                    assert forall|b: PeerAddr| #[trigger] heard_of(self.seen@, b) == if b == a {
                        Some((now, talk))
                    } else {
                        heard_of(old_s, b)
                    } by {
                        lemma_heard_push(old_s, (a, now, talk), b);
                    }
                }
            },
        }
    }

    fn get(&self, a: PeerAddr) -> (r: Option<(u64, Option<u64>)>)
        ensures
            r == self.of(a),
    {
        match self.find(a) {
            Some(i) => {
                proof {
                    lemma_heard_skip(self.seen@, a, i as int);
                    assert(self.seen@.skip(i as int)[0] == self.seen@[i as int]);
                }
                let (_, t, talk) = self.seen[i];
                Some((t, talk))
            },
            None => {
                proof {
                    lemma_heard_skip(self.seen@, a, self.seen@.len() as int);
                    assert(self.seen@.skip(self.seen@.len() as int) =~= Seq::<(PeerAddr, u64, Option<u64>)>::empty());
                }
                None
            },
        }
    }

    /// Whether anything has arrived from `a` less than `window` before `now`.
    pub fn heard_within(&self, a: PeerAddr, now: u64, window: u64) -> (r: bool)
        ensures
            r == (self.of(a) matches Some(e) && within(e.0, now, window)),
    {
        match self.get(a) {
            Some((t, _)) => now.saturating_sub(t) < window,
            None => false,
        }
    }

    /// Whether audio has arrived from `a` less than `TALKING_MS` before `now`.
    pub fn talking(&self, a: PeerAddr, now: u64) -> (r: bool)
        ensures
            r == (self.of(a) matches Some(e) && e.1 matches Some(t) && within(t, now, TALKING_MS)),
    {
        match self.get(a) {
            Some((_, Some(t))) => now.saturating_sub(t) < TALKING_MS,
            _ => false,
        }
    }
}

/// The first peer at address `a`.
pub open spec fn first_at(s: Seq<Peer>, a: PeerAddr) -> Option<int> {
    if exists|i: int| 0 <= i < s.len() && s[i].addr == a {
        Some(choose|i: int| 0 <= i < s.len() && s[i].addr == a && forall|j: int| 0 <= j < i ==> s[j].addr != a)
    } else {
        None
    }
}

/// Hand-entered peers folded into the discovered ones, in order: one that
/// is already there by address is marked as typed in too, rather than shown
/// twice; any other joins the end.
pub open spec fn merged(found: Seq<Peer>, manual: Seq<Peer>) -> Seq<Peer>
    decreases manual.len(),
{
    if manual.len() == 0 {
        found
    } else {
        let acc = merged(found, manual.drop_last());
        let m = manual.last();
        match first_at(acc, m.addr) {
            Some(i) => acc.update(i, Peer { manual: true, ..acc[i] }),
            None => acc.push(m),
        }
    }
}

/// A peer with its presence as the socket reports it at `now`: live when
/// heard from within `HEARD_TIMEOUT_MS`, talking when audio arrived within
/// `TALKING_MS`.
pub open spec fn with_presence(p: Peer, pr: Presence, now: u64) -> Peer {
    Peer {
        live: pr.of(p.addr) matches Some(e) && within(e.0, now, HEARD_TIMEOUT_MS),
        talking: pr.of(p.addr) matches Some(e) && e.1 matches Some(t) && within(t, now, TALKING_MS),
        ..p
    }
}

/// The first name listed for the address `from`.
pub open spec fn name_for(names: Seq<(String, String)>, from: Seq<char>) -> Option<String>
    decreases names.len(),
{
    if names.len() == 0 {
        None
    } else if names[0].0@ == from {
        Some(names[0].1)
    } else {
        name_for(names.drop_first(), from)
    }
}

/// A logged message with its sender's address replaced by a name, when the
/// roster has one; what was sent from here is left as it is.
pub open spec fn named(m: Message, names: Seq<(String, String)>) -> Message {
    if m.mine {
        m
    } else {
        match name_for(names, m.from@) {
            Some(n) => Message { from: n, ..m },
            None => m,
        }
    }
}

/// A peer typed in by hand, resolved to `addr`.
pub open spec fn manual_peer_spec(entry: Seq<char>, addr: PeerAddr, p: Peer) -> bool {
    &&& p.id@ == "manual:"@ + entry
    &&& p.name@ == entry
    &&& p.addr == addr
    &&& !p.live
    &&& !p.talking
    &&& p.manual
}

/// The roster entry for an address typed in by hand. It is shown by what was
/// typed, and is not live until something arrives from it.
pub fn manual_peer(entry: &String, addr: PeerAddr) -> (r: Peer)
    ensures
        manual_peer_spec(entry@, addr, r),
{
    let mut id = String::from_str("manual:");
    id.append(entry.as_str());
    Peer { id, name: entry.clone(), addr, live: false, talking: false, manual: true }
}

/// The addresses to keep the send list in step with: everyone discovered,
/// then every hand-entered address not already among them.
pub open spec fn known_spec(found: Seq<PeerAddr>, manual: Seq<Peer>) -> Seq<PeerAddr>
    decreases manual.len(),
{
    if manual.len() == 0 {
        found
    } else {
        let acc = known_spec(found, manual.drop_last());
        if acc.contains(manual.last().addr) {
            acc
        } else {
            acc.push(manual.last().addr)
        }
    }
}

/// Of `known`, those heard from within `HEARD_TIMEOUT_MS` of `now`, in order.
pub open spec fn live_of(known: Seq<PeerAddr>, pr: Presence, now: u64) -> Seq<PeerAddr>
    decreases known.len(),
{
    if known.len() == 0 {
        Seq::empty()
    } else {
        let r = live_of(known.drop_last(), pr, now);
        let a = known.last();
        if pr.of(a) matches Some(e) && within(e.0, now, HEARD_TIMEOUT_MS) {
            r.push(a)
        } else {
            r
        }
    }
}

/// The name given to the address `a`: the first one listed for it.
pub open spec fn label_for(labels: Seq<(PeerAddr, String)>, a: PeerAddr) -> Option<String>
    decreases labels.len(),
{
    if labels.len() == 0 {
        None
    } else if labels[0].0 == a {
        Some(labels[0].1)
    } else {
        label_for(labels.drop_first(), a)
    }
}

/// A peer shown under the name given to its address, when it has one.
pub open spec fn relabelled(p: Peer, labels: Seq<(PeerAddr, String)>) -> Peer {
    match label_for(labels, p.addr) {
        Some(n) => Peer { name: n, ..p },
        None => p,
    }
}

/// Whether a peer is at the address `a`.
pub open spec fn at_addr(a: PeerAddr) -> spec_fn(Peer) -> bool {
    |p: Peer| p.addr == a
}

/// Whether a peer's address is not among those in `order`.
pub open spec fn unplaced(order: Seq<PeerAddr>) -> spec_fn(Peer) -> bool {
    |p: Peer| !order.contains(p.addr)
}

/// The peers at the addresses in `order`, address by address in that order,
/// each address taken once.
pub open spec fn placed(s: Seq<Peer>, order: Seq<PeerAddr>) -> Seq<Peer>
    decreases order.len(),
{
    if order.len() == 0 {
        Seq::empty()
    } else {
        let pre = placed(s, order.drop_last());
        let a = order.last();
        if order.drop_last().contains(a) {
            pre
        } else {
            pre + s.filter(at_addr(a))
        }
    }
}

/// `s` put in the order asked for: first the peers at the addresses in
/// `order`, in that order, then everyone else as they stood.
pub open spec fn arranged(s: Seq<Peer>, order: Seq<PeerAddr>) -> Seq<Peer> {
    placed(s, order) + s.filter(unplaced(order))
}

fn label_of(labels: &Vec<(PeerAddr, String)>, a: PeerAddr) -> (r: Option<String>)
    ensures
        r == label_for(labels@, a),
{
    let mut k: usize = 0;
    assert(labels@.skip(0) =~= labels@);
    while k < labels.len()
        invariant
            k <= labels@.len(),
            label_for(labels@, a) == label_for(labels@.skip(k as int), a),
        decreases labels@.len() - k,
    {
        assert(labels@.skip(k as int)[0] == labels@[k as int]);
        if labels[k].0 == a {
            return Some(labels[k].1.clone());
        }
        assert(labels@.skip(k as int).drop_first() =~= labels@.skip(k + 1));
        k = k + 1;
    }
    None
}

fn relabel(p: Peer, labels: &Vec<(PeerAddr, String)>) -> (r: Peer)
    ensures
        r == relabelled(p, labels@),
{
    match label_of(labels, p.addr) {
        Some(n) => Peer { name: n, ..p },
        None => p,
    }
}

fn listed(order: &Vec<PeerAddr>, upto: usize, a: PeerAddr) -> (r: bool)
    requires
        upto <= order@.len(),
    ensures
        r == order@.take(upto as int).contains(a),
{
    let mut j: usize = 0;
    while j < upto
        invariant
            upto <= order@.len(),
            j <= upto,
            forall|i: int| 0 <= i < j ==> order@[i] != a,
        decreases upto - j,
    {
        if order[j] == a {
            assert(order@.take(upto as int)[j as int] == a);
            return true;
        }
        j = j + 1;
    }
    false
}

/// `s` put in the order asked for by address.
pub fn arrange(s: &Vec<Peer>, order: &Vec<PeerAddr>) -> (r: Vec<Peer>)
    ensures
        r@ == arranged(s@, order@),
{
    let mut out: Vec<Peer> = Vec::new();
    let mut k: usize = 0;
    assert(order@.take(0) =~= Seq::<PeerAddr>::empty());
    while k < order.len()
        invariant
            k <= order@.len(),
            out@ == placed(s@, order@.take(k as int)),
        decreases order@.len() - k,
    {
        let a = order[k];
        let ghost before = out@;
        assert(order@.take(k + 1).drop_last() =~= order@.take(k as int));
        assert(order@.take(k + 1).last() == a);
        if !listed(order, k, a) {
            let mut i: usize = 0;
            assert(s@.take(0) =~= Seq::<Peer>::empty());
            proof {
                reveal(Seq::filter);
            }
            while i < s.len()
                invariant
                    i <= s@.len(),
                    out@ == before + s@.take(i as int).filter(at_addr(a)),
                decreases s@.len() - i,
            {
                assert(s@.take(i + 1) =~= s@.take(i as int).push(s@[i as int]));
                proof {
                    s@.take(i as int).lemma_filter_push(s@[i as int], at_addr(a));
                }
                if s[i].addr == a {
                    out.push(s[i].clone());
                }
                i = i + 1;
                assert(out@ =~= before + s@.take(i as int).filter(at_addr(a)));
            }
            assert(s@.take(s@.len() as int) =~= s@);
        }
        k = k + 1;
    }
    assert(order@.take(order@.len() as int) =~= order@);
    let ghost head = out@;
    let mut i: usize = 0;
    assert(s@.take(0) =~= Seq::<Peer>::empty());
    proof {
        reveal(Seq::filter);
    }
    while i < s.len()
        invariant
            i <= s@.len(),
            out@ == head + s@.take(i as int).filter(unplaced(order@)),
        decreases s@.len() - i,
    {
        assert(s@.take(i + 1) =~= s@.take(i as int).push(s@[i as int]));
        proof {
            s@.take(i as int).lemma_filter_push(s@[i as int], unplaced(order@));
        }
        let there = listed(order, order.len(), s[i].addr);
        assert(order@.take(order@.len() as int) =~= order@);
        if !there {
            out.push(s[i].clone());
        }
        i = i + 1;
        assert(out@ =~= head + s@.take(i as int).filter(unplaced(order@)));
    }
    assert(s@.take(s@.len() as int) =~= s@);
    out
}

proof fn lemma_filter_all(s: Seq<Peer>, f: spec_fn(Peer) -> bool)
    requires
        forall|x: Peer| #[trigger] f(x),
    ensures
        s.filter(f) == s,
    decreases s.len(),
{
    reveal(Seq::filter);
    if s.len() > 0 {
        lemma_filter_all(s.drop_last(), f);
        assert(s.drop_last().push(s.last()) =~= s);
    }
}

/// With `q` keeping only what `p` keeps, and `r` what `p` keeps and `q` does
/// not, filtering by `p` keeps what the other two do between them.
proof fn lemma_filter_split(
    s: Seq<Peer>,
    p: spec_fn(Peer) -> bool,
    q: spec_fn(Peer) -> bool,
    r: spec_fn(Peer) -> bool,
)
    requires
        forall|x: Peer| #[trigger] q(x) ==> p(x),
        forall|x: Peer| #[trigger] r(x) == (p(x) && !q(x)),
    ensures
        s.filter(p).to_multiset() == s.filter(q).to_multiset().add(s.filter(r).to_multiset()),
    decreases s.len(),
{
    broadcast use vstd::multiset::group_multiset_axioms;

    if s.len() == 0 {
        reveal(Seq::filter);
        vstd::seq_lib::to_multiset_len(s);
        assert(s.to_multiset() =~= vstd::multiset::Multiset::<Peer>::empty());
        assert(s.filter(p) == s && s.filter(q) == s && s.filter(r) == s);
    } else {
        let t = s.drop_last();
        let x = s.last();
        lemma_filter_split(t, p, q, r);
        assert(t.push(x) =~= s);
        t.lemma_filter_push(x, p);
        t.lemma_filter_push(x, q);
        t.lemma_filter_push(x, r);
        if p(x) {
            vstd::seq_lib::to_multiset_build(t.filter(p), x);
            if q(x) {
                vstd::seq_lib::to_multiset_build(t.filter(q), x);
                assert(s.filter(p).to_multiset() =~= s.filter(q).to_multiset().add(s.filter(r).to_multiset()));
            } else {
                vstd::seq_lib::to_multiset_build(t.filter(r), x);
                assert(s.filter(p).to_multiset() =~= s.filter(q).to_multiset().add(s.filter(r).to_multiset()));
            }
        }
    }
}

/// Ordering the roster loses nobody and shows nobody twice: whatever order
/// is asked for, the roster holds the same peers.
pub proof fn lemma_arranged_keeps_everyone(s: Seq<Peer>, order: Seq<PeerAddr>)
    ensures
        arranged(s, order).to_multiset() == s.to_multiset(),
    decreases order.len(),
{
    broadcast use vstd::multiset::group_multiset_axioms;

    if order.len() == 0 {
        assert forall|x: Peer| #[trigger] unplaced(order)(x) by {}
        lemma_filter_all(s, unplaced(order));
        assert(arranged(s, order) =~= s);
    } else {
        let o = order.drop_last();
        let a = order.last();
        lemma_arranged_keeps_everyone(s, o);
        assert(o.push(a) =~= order);
        vstd::seq_lib::lemma_multiset_commutative(placed(s, o), s.filter(unplaced(o)));
        if o.contains(a) {
            assert forall|x: Peer| #[trigger] unplaced(order)(x) == unplaced(o)(x) by {
                if o.contains(x.addr) {
                    let i = choose|i: int| 0 <= i < o.len() && o[i] == x.addr;
                    assert(order[i] == x.addr);
                }
                if order.contains(x.addr) {
                    let i = choose|i: int| 0 <= i < order.len() && order[i] == x.addr;
                    if i < o.len() {
                        assert(o[i] == x.addr);
                    }
                }
            }
            assert(unplaced(order) =~= unplaced(o));
        } else {
            assert forall|x: Peer| #[trigger] at_addr(a)(x) implies unplaced(o)(x) by {}
            assert forall|x: Peer| #[trigger] unplaced(order)(x) == (unplaced(o)(x) && !at_addr(a)(x)) by {
                if o.contains(x.addr) {
                    let i = choose|i: int| 0 <= i < o.len() && o[i] == x.addr;
                    assert(order[i] == x.addr);
                }
                if x.addr == a {
                    assert(order[order.len() - 1] == x.addr);
                }
                if order.contains(x.addr) {
                    let i = choose|i: int| 0 <= i < order.len() && order[i] == x.addr;
                    if i < o.len() {
                        assert(o[i] == x.addr);
                    }
                }
            }
            lemma_filter_split(s, unplaced(o), at_addr(a), unplaced(order));
            vstd::seq_lib::lemma_multiset_commutative(placed(s, o), s.filter(at_addr(a)));
            vstd::seq_lib::lemma_multiset_commutative(placed(s, order), s.filter(unplaced(order)));
            assert(arranged(s, order).to_multiset() =~= s.to_multiset());
        }
    }
}

/// Everyone on the roster at `now`, before it is ordered: those `found`,
/// with the hand-entered peers merged in, each live and talking as heard,
/// under the names given to their addresses.
pub open spec fn roster_entries(
    found: Seq<Peer>,
    manual: Seq<Peer>,
    pr: Presence,
    labels: Seq<(PeerAddr, String)>,
    now: u64,
) -> Seq<Peer> {
    merged(found, manual).map_values(|p: Peer| relabelled(with_presence(p, pr, now), labels))
}

/// `s` is `l` ordered by name, peers of one name in the order they stand in
/// `l`.
pub open spec fn by_name(s: Seq<Peer>, l: Seq<Peer>) -> bool {
    &&& sorted_by_name(s)
    &&& s.to_multiset() == l.to_multiset()
    &&& forall|n: Seq<char>| #[trigger] called(s, n) == called(l, n)
}

/// A running session's state.
pub struct Session {
    rx: Receiver,
    tx: Transmitter,
    presence: Presence,
    manual: Vec<Peer>,
    log: Vec<Message>,
    port: u16,
    peer: String,
    target: Option<PeerAddr>,
    labels: Vec<(PeerAddr, String)>,
    order: Vec<PeerAddr>,
}

impl Session {
    pub closed spec fn wf(&self) -> bool {
        self.rx.wf()
    }

    /// The counters, as the receiver keeps them.
    pub open spec fn counts(&self) -> Counters {
        self.receiver().counts()
    }

    pub closed spec fn receiver(&self) -> Receiver {
        self.rx
    }

    pub closed spec fn sender(&self) -> Transmitter {
        self.tx
    }

    pub closed spec fn presence(&self) -> Presence {
        self.presence
    }

    pub closed spec fn manual(&self) -> Seq<Peer> {
        self.manual@
    }

    pub closed spec fn log(&self) -> Seq<Message> {
        self.log@
    }

    pub closed spec fn port(&self) -> u16 {
        self.port
    }

    pub closed spec fn peer(&self) -> Seq<char> {
        self.peer@
    }

    pub closed spec fn aimed_at(&self) -> Option<PeerAddr> {
        self.target
    }

    /// The names given to machines, by address.
    pub closed spec fn labels(&self) -> Seq<(PeerAddr, String)> {
        self.labels@
    }

    /// The roster order asked for, by address.
    pub closed spec fn order(&self) -> Seq<PeerAddr> {
        self.order@
    }

    /// What the session was set up with: its port, the peer it started
    /// toward, the peers typed in by hand, the names given to machines and
    /// the roster order. Only the setters change it.
    pub open spec fn setup(&self) -> (u16, Seq<char>, Seq<Peer>, Seq<(PeerAddr, String)>, Seq<PeerAddr>) {
        (self.port(), self.peer(), self.manual(), self.labels(), self.order())
    }

    /// A session on `port`, started toward `peer`, with the peers typed in by
    /// hand already resolved, the names given to machines and the roster
    /// order. Nothing heard, nothing sent, aimed at everyone.
    pub fn new(
        port: u16,
        peer: String,
        manual: Vec<Peer>,
        labels: Vec<(PeerAddr, String)>,
        order: Vec<PeerAddr>,
    ) -> (r: Self)
        ensures
            r.wf(),
            r.counts() == Counters::new_spec(),
            forall|a: PeerAddr| #[trigger] r.receiver().stream(a) == fresh_stream(),
            r.sender().seq == 0 && r.sender().ts == 0,
            r.setup() == (port, peer@, manual@, labels@, order@),
            r.log().len() == 0,
            r.aimed_at() is None,
            forall|a: PeerAddr| r.presence().of(a) is None,
    {
        Session {
            rx: Receiver::new(),
            tx: Transmitter::new(),
            presence: Presence::new(),
            manual,
            log: Vec::new(),
            port,
            peer,
            target: None,
            labels,
            order,
        }
    }

    /// The counters, for the UI.
    pub fn stats(&self) -> (r: Stats)
        ensures
            r.port == self.port(),
            r.peer@ == self.peer(),
            r.tx == self.counts().tx,
            r.rx == self.counts().rx,
            r.bad == self.counts().bad,
            r.lost == self.counts().lost,
            r.last_seq == self.counts().last_seq,
    {
        self.rx.counters().stats(self.port, self.peer.clone())
    }

    /// One datagram from `from`, arrived at `now`. What it does to the
    /// counters and to the sender's stream is `Receiver::on_datagram`'s; a
    /// datagram of ours also marks its sender as heard, and as talking when
    /// it carries audio.
    pub fn on_datagram(&mut self, from: PeerAddr, buf: &[u8], now: u64) -> (d: crate::link::Delivery)
        requires
            old(self).wf(),
        ensures
            final(self).wf(),
            received(old(self).receiver(), final(self).receiver(), from, buf@, d),
            final(self).sender() == old(self).sender(),
            final(self).setup() == old(self).setup(),
            final(self).log() == old(self).log(),
            final(self).aimed_at() == old(self).aimed_at(),
            match crate::wire::spec_parse(buf@) {
                None => final(self).presence() == old(self).presence(),
                Some(h) => {
                    &&& final(self).presence().of(from) == Some(
                        (
                            now,
                            if h.kind == crate::wire::KIND_AUDIO {
                                Some(now)
                            } else {
                                match old(self).presence().of(from) {
                                    Some(e) => e.1,
                                    None => None,
                                }
                            },
                        ),
                    )
                    &&& forall|b: PeerAddr|
                        b != from ==> #[trigger] final(self).presence().of(b) == old(self).presence().of(b)
                },
            },
    {
        let parsed = Header::parse(buf);
        let d = self.rx.on_datagram(from, buf);
        match parsed {
            Some(h) => {
                self.presence.heard(from, now, h.kind == crate::wire::KIND_AUDIO);
            },
            None => {},
        }
        d
    }

    /// The datagram for one encoded audio frame.
    pub fn audio_datagram(&mut self, data: &[u8], samples: u32) -> (r: Option<Vec<u8>>)
        requires
            old(self).wf(),
        ensures
            final(self).wf(),
            (bytes_of(r), final(self).sender()) == audio_step(old(self).sender(), data@, samples),
            final(self).receiver() == old(self).receiver(),
            final(self).presence() == old(self).presence(),
            final(self).setup() == old(self).setup(),
            final(self).log() == old(self).log(),
            final(self).aimed_at() == old(self).aimed_at(),
    {
        self.tx.audio(data, samples)
    }

    /// The heartbeat to send to everyone known, every couple of seconds.
    pub fn heartbeat_datagram(&mut self) -> (r: Vec<u8>)
        ensures
            final(self).wf() == old(self).wf(),
            (r@, final(self).sender()) == heartbeat_step(old(self).sender()),
            final(self).receiver() == old(self).receiver(),
            final(self).presence() == old(self).presence(),
            final(self).setup() == old(self).setup(),
            final(self).log() == old(self).log(),
            final(self).aimed_at() == old(self).aimed_at(),
    {
        self.tx.heartbeat()
    }

    /// The datagram for a line of text, which also goes in the log as sent
    /// from here (with no sender named); nothing is logged when the text is
    /// too long to send.
    pub fn send_text(&mut self, text: &str) -> (r: Option<Vec<u8>>)
        requires
            old(self).wf(),
        ensures
            final(self).wf(),
            (bytes_of(r), final(self).sender()) == text_step(old(self).sender(), text.spec_bytes()),
            r is Some ==> final(self).log().len() == old(self).log().len() + 1
                && final(self).log().drop_last() == old(self).log()
                && final(self).log().last().text@ == text@
                && final(self).log().last().from@.len() == 0
                && final(self).log().last().mine,
            r is None ==> final(self).log() == old(self).log(),
            final(self).receiver() == old(self).receiver(),
            final(self).presence() == old(self).presence(),
            final(self).setup() == old(self).setup(),
            final(self).aimed_at() == old(self).aimed_at(),
    {
        let r = self.tx.text(text);
        if r.is_some() {
            self.log.push(Message { from: String::new(), text: String::from_str(text), mine: true });
        }
        r
    }

    /// One datagram went out.
    pub fn note_sent(&mut self)
        requires
            old(self).wf(),
        ensures
            final(self).wf(),
            final(self).counts() == (Counters { tx: crate::link::bump(old(self).counts().tx, 1), ..old(self).counts() }),
            final(self).sender() == old(self).sender(),
            final(self).presence() == old(self).presence(),
            final(self).setup() == old(self).setup(),
            final(self).log() == old(self).log(),
            final(self).aimed_at() == old(self).aimed_at(),
    {
        self.rx.note_sent();
    }

    /// A text message that arrived from `from` goes in the log.
    pub fn record_text(&mut self, from: String, text: String)
        ensures
            final(self).wf() == old(self).wf(),
            final(self).log() == old(self).log().push(Message { from, text, mine: false }),
            final(self).receiver() == old(self).receiver(),
            final(self).sender() == old(self).sender(),
            final(self).presence() == old(self).presence(),
            final(self).setup() == old(self).setup(),
            final(self).aimed_at() == old(self).aimed_at(),
    {
        self.log.push(Message { from, text, mine: false });
    }

    /// The log, oldest first, with addresses replaced by names. `names` pairs
    /// each address (as text) with the name the roster shows for it; the
    /// session is the only layer that holds both the socket and the roster.
    pub fn messages(&self, names: &Vec<(String, String)>) -> (r: Vec<Message>)
        ensures
            r@.len() == self.log().len(),
            forall|i: int| 0 <= i < r@.len() ==> #[trigger] r@[i] == named(self.log()[i], names@),
    {
        let mut out: Vec<Message> = Vec::new();
        let mut i: usize = 0;
        while i < self.log.len()
            invariant
                i <= self.log@.len(),
                out@.len() == i,
                forall|j: int| 0 <= j < i ==> #[trigger] out@[j] == named(self.log@[j], names@),
            decreases self.log@.len() - i,
        {
            let mut m = self.log[i].clone();
            if !m.mine {
                let mut k: usize = 0;
                let mut found: Option<String> = None;
                assert(names@.skip(0) =~= names@);
                while k < names.len()
                    invariant
                        k <= names@.len(),
                        m == self.log@[i as int],
                        found is None ==> name_for(names@, m.from@) == name_for(names@.skip(k as int), m.from@),
                        found matches Some(n) ==> name_for(names@, m.from@) == Some(n),
                    decreases names@.len() - k,
                {
                    if found.is_none() {
                        assert(names@.skip(k as int).drop_first() =~= names@.skip(k + 1));
                        assert(names@.skip(k as int)[0] == names@[k as int]);
                        if names[k].0 == m.from {
                            found = Some(names[k].1.clone());
                        }
                    }
                    k = k + 1;
                }
                proof {
                    if found is None {
                        assert(names@.skip(names@.len() as int) =~= Seq::<(String, String)>::empty());
                    }
                }
                if let Some(n) = found {
                    m.from = n;
                }
            }
            out.push(m);
            i = i + 1;
        }
        out
    }

    /// Aim voice and text at one machine, or at everyone.
    pub fn set_target(&mut self, target: Option<PeerAddr>)
        ensures
            final(self).wf() == old(self).wf(),
            final(self).aimed_at() == target,
            final(self).receiver() == old(self).receiver(),
            final(self).sender() == old(self).sender(),
            final(self).presence() == old(self).presence(),
            final(self).setup() == old(self).setup(),
            final(self).log() == old(self).log(),
    {
        self.target = target;
    }

    /// Name machines by address; a name given here is what the roster shows.
    pub fn set_labels(&mut self, labels: Vec<(PeerAddr, String)>)
        ensures
            final(self).wf() == old(self).wf(),
            final(self).setup() == (old(self).port(), old(self).peer(), old(self).manual(), labels@, old(self).order()),
            final(self).receiver() == old(self).receiver(),
            final(self).sender() == old(self).sender(),
            final(self).presence() == old(self).presence(),
            final(self).log() == old(self).log(),
            final(self).aimed_at() == old(self).aimed_at(),
    {
        self.labels = labels;
    }

    /// Put the roster in the order wanted, by address. Applied in place: it
    /// never reaches the socket.
    pub fn set_order(&mut self, order: Vec<PeerAddr>)
        ensures
            final(self).wf() == old(self).wf(),
            final(self).setup() == (old(self).port(), old(self).peer(), old(self).manual(), old(self).labels(), order@),
            final(self).receiver() == old(self).receiver(),
            final(self).sender() == old(self).sender(),
            final(self).presence() == old(self).presence(),
            final(self).log() == old(self).log(),
            final(self).aimed_at() == old(self).aimed_at(),
    {
        self.order = order;
    }

    /// Where to send: the machine aimed at, or else everyone live.
    pub fn destinations(&self, live: &Vec<PeerAddr>) -> (r: Vec<PeerAddr>)
        ensures
            match self.aimed_at() {
                Some(a) => r@ == seq![a],
                None => r@ == live@,
            },
    {
        match self.target {
            Some(a) => {
                let mut v: Vec<PeerAddr> = Vec::new();
                v.push(a);
                assert(v@ =~= seq![a]);
                v
            },
            None => live.clone(),
        }
    }

    /// The addresses the send list follows: `found` by discovery, then every
    /// hand-entered address not already among them.
    pub fn known_targets(&self, found: &Vec<PeerAddr>) -> (r: Vec<PeerAddr>)
        ensures
            r@ == known_spec(found@, self.manual()),
    {
        let mut known = found.clone();
        let mut i: usize = 0;
        assert(self.manual@.take(0) =~= Seq::<Peer>::empty());
        while i < self.manual.len()
            invariant
                i <= self.manual@.len(),
                known@ == known_spec(found@, self.manual@.take(i as int)),
            decreases self.manual@.len() - i,
        {
            let a = self.manual[i].addr;
            let mut present = false;
            let mut k: usize = 0;
            while k < known.len()
                invariant
                    k <= known@.len(),
                    present == exists|j: int| 0 <= j < k && known@[j] == a,
                decreases known@.len() - k,
            {
                if known[k] == a {
                    present = true;
                }
                k = k + 1;
            }
            assert(self.manual@.take(i + 1).drop_last() =~= self.manual@.take(i as int));
            assert(self.manual@.take(i + 1).last() == self.manual@[i as int]);
            proof {
                if present {
                    let j = choose|j: int| 0 <= j < known@.len() && known@[j] == a;
                    assert(known@.contains(a));
                }
            }
            if !present {
                known.push(a);
            }
            i = i + 1;
        }
        assert(self.manual@.take(self.manual@.len() as int) =~= self.manual@);
        known
    }

    /// Of `known`, those heard from within `HEARD_TIMEOUT_MS` of `now`, in the
    /// same order.
    pub fn live_targets(&self, known: &Vec<PeerAddr>, now: u64) -> (r: Vec<PeerAddr>)
        ensures
            r@ == live_of(known@, self.presence(), now),
            r@ == known@.filter(
                |a: PeerAddr| self.presence().of(a) matches Some(e) && now < e.0 + HEARD_TIMEOUT_MS,
            ),
    {
        let mut out: Vec<PeerAddr> = Vec::new();
        let mut i: usize = 0;
        assert(known@.take(0) =~= Seq::<PeerAddr>::empty());
        while i < known.len()
            invariant
                i <= known@.len(),
                out@ == live_of(known@.take(i as int), self.presence(), now),
            decreases known@.len() - i,
        {
            let a = known[i];
            assert(known@.take(i + 1).drop_last() =~= known@.take(i as int));
            if self.presence.heard_within(a, now, HEARD_TIMEOUT_MS) {
                out.push(a);
            }
            i = i + 1;
        }
        assert(known@.take(known@.len() as int) =~= known@);
        proof {
            lemma_live_targets_are_recently_heard(known@, self.presence(), now);
        }
        out
    }

    /// The roster the UI shows at `now`: everyone `found` by discovery, with
    /// the hand-entered peers merged in by address rather than shown twice,
    /// each live and talking as the socket reports it — mDNS decides who
    /// exists, the socket decides who is present — under the names given to
    /// their addresses; ordered by name, peers of one name keeping the order
    /// they were merged in; and then put in the order asked for: the
    /// addresses listed first, in that order, everyone else after, by name.
    pub fn peers(&self, found: &Vec<Peer>, now: u64) -> (r: Vec<Peer>)
        ensures
            exists|s: Seq<Peer>|
                #[trigger] by_name(s, roster_entries(found@, self.manual(), self.presence(), self.labels(), now))
                    && r@ == arranged(s, self.order()),
            forall|i: int|
                0 <= i < r@.len() ==> (label_for(self.labels(), (#[trigger] r@[i]).addr) matches Some(n)
                    ==> r@[i].name == n),
    {
        let mut acc: Vec<Peer> = Vec::new();
        let mut i: usize = 0;
        while i < found.len()
            invariant
                i <= found@.len(),
                acc@ == found@.take(i as int),
            decreases found@.len() - i,
        {
            acc.push(found[i].clone());
            i = i + 1;
            assert(acc@ =~= found@.take(i as int));
        }
        assert(found@.take(found@.len() as int) =~= found@);
        let mut k: usize = 0;
        assert(self.manual@.take(0) =~= Seq::<Peer>::empty());
        while k < self.manual.len()
            invariant
                k <= self.manual@.len(),
                acc@ == merged(found@, self.manual@.take(k as int)),
            decreases self.manual@.len() - k,
        {
            let m = &self.manual[k];
            let mut p: usize = 0;
            while p < acc.len() && acc[p].addr != m.addr
                invariant
                    p <= acc@.len(),
                    forall|j: int| 0 <= j < p ==> acc@[j].addr != m.addr,
                decreases acc@.len() - p,
            {
                p = p + 1;
            }
            assert(self.manual@.take(k + 1).drop_last() =~= self.manual@.take(k as int));
            assert(self.manual@.take(k + 1).last() == self.manual@[k as int]);
            if p < acc.len() {
                proof {
                    let c = choose|i: int| 0 <= i < acc@.len() && acc@[i].addr == m.addr && forall|j: int|
                        0 <= j < i ==> acc@[j].addr != m.addr;
                    assert(acc@[p as int].addr == m.addr);
                    if c < p {
                    } else if c > p {
                    }
                    assert(c == p);
                }
                let mut e = acc[p].clone();
                e.manual = true;
                acc.set(p, e);
            } else {
                acc.push(m.clone());
            }
            k = k + 1;
        }
        assert(self.manual@.take(self.manual@.len() as int) =~= self.manual@);
        let ghost g = merged(found@, self.manual@);
        let mut shown: Vec<Peer> = Vec::new();
        let mut j: usize = 0;
        while j < acc.len()
            invariant
                acc@ == g,
                j <= acc@.len(),
                shown@ == g.take(j as int).map_values(
                    |p: Peer| relabelled(with_presence(p, self.presence(), now), self.labels()),
                ),
            decreases acc@.len() - j,
        {
            let mut p = acc[j].clone();
            p.live = self.presence.heard_within(p.addr, now, HEARD_TIMEOUT_MS);
            p.talking = self.presence.talking(p.addr, now);
            let p = relabel(p, &self.labels);
            shown.push(p);
            j = j + 1;
            assert(shown@ =~= g.take(j as int).map_values(
                |p: Peer| relabelled(with_presence(p, self.presence(), now), self.labels()),
            ));
        }
        assert(g.take(g.len() as int) =~= g);
        let ghost l = roster_entries(found@, self.manual(), self.presence(), self.labels(), now);
        assert(shown@ =~= l);
        let sorted = sort_by_name(&shown);
        assert(by_name(sorted@, l));
        let r = arrange(&sorted, &self.order);
        assert(r@ == arranged(sorted@, self.order()));
        proof {
            lemma_given_names_shown(found@, self.manual(), self.presence(), self.labels(), self.order(), now, sorted@);
        }
        r
    }
}

/// Somebody who goes quiet greys out: a peer last heard from at `t` shows as
/// live until `HEARD_TIMEOUT_MS` have passed since, and not after; one never
/// heard from never shows as live. Talking is the same with `TALKING_MS`,
/// counted from the last audio.
pub proof fn lemma_quiet_greys_out(p: Peer, pr: Presence, now: u64)
    ensures
        pr.of(p.addr) is None ==> !with_presence(p, pr, now).live && !with_presence(p, pr, now).talking,
        pr.of(p.addr) matches Some(e) ==> (with_presence(p, pr, now).live <==> now < e.0 + HEARD_TIMEOUT_MS),
        pr.of(p.addr) matches Some(e) ==> (with_presence(p, pr, now).talking <==> (e.1 matches Some(t) && now
            < t + TALKING_MS)),
{
}

/// Whoever was heard from recently gets the voice: of the addresses kept in
/// step, the send list holds, in their order, exactly those whose last
/// datagram of any kind — audio, heartbeat or text — arrived less than
/// `HEARD_TIMEOUT_MS` before `now`. Being present is enough; nobody has to
/// be talking to be talked to.
pub proof fn lemma_live_targets_are_recently_heard(known: Seq<PeerAddr>, pr: Presence, now: u64)
    ensures
        live_of(known, pr, now) == known.filter(
            |a: PeerAddr| pr.of(a) matches Some(e) && now < e.0 + HEARD_TIMEOUT_MS,
        ),
        forall|a: PeerAddr|
            #[trigger] live_of(known, pr, now).contains(a) <==> known.contains(a) && (pr.of(a) matches Some(e)
                && now < e.0 + HEARD_TIMEOUT_MS),
    decreases known.len(),
{
    let f = |a: PeerAddr| pr.of(a) matches Some(e) && now < e.0 + HEARD_TIMEOUT_MS;
    reveal(Seq::filter);
    if known.len() > 0 {
        lemma_live_targets_are_recently_heard(known.drop_last(), pr, now);
    }
    assert(live_of(known, pr, now) == known.filter(f));
    assert forall|a: PeerAddr| #[trigger] live_of(known, pr, now).contains(a) implies known.contains(a) && f(a) by {
        known.lemma_filter_contains_rev(f, a);
        let i = choose|i: int| 0 <= i < known.filter(f).len() && known.filter(f)[i] == a;
        known.lemma_filter_pred(f, i);
    }
    assert forall|a: PeerAddr| known.contains(a) && f(a) implies #[trigger] live_of(known, pr, now).contains(a) by {
        let i = choose|i: int| 0 <= i < known.len() && known[i] == a;
        known.lemma_filter_contains(f, i);
    }
}

/// A name given to an address is the name shown for it: every peer on the
/// roster whose address has been given a name appears under that name,
/// whether discovery found it, it was typed in by hand, or both, and
/// whatever order the roster is put in.
pub proof fn lemma_given_names_shown(
    found: Seq<Peer>,
    manual: Seq<Peer>,
    pr: Presence,
    labels: Seq<(PeerAddr, String)>,
    order: Seq<PeerAddr>,
    now: u64,
    s: Seq<Peer>,
)
    requires
        by_name(s, roster_entries(found, manual, pr, labels, now)),
    ensures
        forall|i: int|
            0 <= i < arranged(s, order).len() ==> (label_for(labels, (#[trigger] arranged(s, order)[i]).addr)
                matches Some(n) ==> arranged(s, order)[i].name == n),
{
    let l = roster_entries(found, manual, pr, labels, now);
    let r = arranged(s, order);
    lemma_arranged_keeps_everyone(s, order);
    assert forall|i: int| 0 <= i < r.len() implies (label_for(labels, (#[trigger] r[i]).addr) matches Some(n)
        ==> r[i].name == n) by {
        let x = r[i];
        assert(r.contains(x));
        vstd::seq_lib::to_multiset_contains(r, x);
        vstd::seq_lib::to_multiset_contains(l, x);
        assert(l.contains(x));
        let k = choose|k: int| 0 <= k < l.len() && l[k] == x;
        let m = merged(found, manual)[k];
        assert(l[k] == relabelled(with_presence(m, pr, now), labels));
    }
}

/// An address typed by hand that discovery also found is one person, not
/// two: merging it adds nobody, and marks the one found as typed in too.
pub proof fn lemma_typed_and_found_is_one(found: Seq<Peer>, m: Peer, i: int)
    requires
        0 <= i < found.len(),
        found[i].addr == m.addr,
        forall|j: int| 0 <= j < i ==> found[j].addr != m.addr,
    ensures
        merged(found, seq![m]).len() == found.len(),
        merged(found, seq![m])[i] == (Peer { manual: true, ..found[i] }),
        forall|j: int| 0 <= j < found.len() && j != i ==> merged(found, seq![m])[j] == found[j],
{
    let s = seq![m];
    assert(s.drop_last() =~= Seq::<Peer>::empty());
    assert(s.last() == m);
    assert(merged(found, s.drop_last()) == found);
    assert(0 <= i < found.len() && found[i].addr == m.addr && forall|j: int|
        0 <= j < i ==> found[j].addr != m.addr);
    let c = choose|k: int|
        0 <= k < found.len() && found[k].addr == m.addr && forall|j: int|
            0 <= j < k ==> found[j].addr != m.addr;
    if c < i {
        assert(found[c].addr != m.addr);
    } else if c > i {
        assert(found[i].addr != m.addr);
    }
    assert(first_at(found, m.addr) == Some(i));
}

} // verus!
