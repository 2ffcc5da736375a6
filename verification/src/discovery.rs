//! The roster: who has been discovered on the LAN, and whether they are
//! still there. The mDNS daemon, its thread and the clock stay with the
//! caller, which hands over each resolved advertisement as plain values and
//! the time in milliseconds.

use vstd::prelude::*;

use crate::text::{chars_of, less, seq_lt, string_of};

verus! {

/// How long a peer may go unheard before it is considered gone, in
/// milliseconds. Long enough to survive a missed announcement, short enough
/// that switching a PC off is visible while you are still looking.
pub const PEER_TIMEOUT_MS: u64 = 8000;

/// An IPv4 socket address: the address as a big-endian integer, and the port.
#[derive(Clone, Copy, Debug, PartialEq, Eq, Structural)]
pub struct PeerAddr {
    pub ip: u32,
    pub port: u16,
}

#[derive(Debug)]
pub struct Peer {
    /// Stable identity: the mDNS instance name.
    pub id: String,
    /// What to show a human.
    pub name: String,
    pub addr: PeerAddr,
    /// False once nothing has been heard from it for a while. Kept in the
    /// roster rather than removed, because "was here, now gone" is more useful
    /// than a name silently disappearing.
    pub live: bool,
    /// Audio is arriving from it.
    pub talking: bool,
    /// Typed in by hand rather than discovered.
    pub manual: bool,
}

impl Clone for Peer {
    fn clone(&self) -> (r: Self)
        ensures
            r == *self,
    {
        Peer {
            id: self.id.clone(),
            name: self.name.clone(),
            addr: self.addr,
            live: self.live,
            talking: self.talking,
            manual: self.manual,
        }
    }
}

/// Names in order: no later name sorts before an earlier one.
pub open spec fn sorted_by_name(s: Seq<Peer>) -> bool {
    forall|i: int, j: int| 0 <= i < j < s.len() ==> !seq_lt(#[trigger] s[j].name@, #[trigger] s[i].name@)
}

proof fn lemma_insert_sorted(s: Seq<Peer>, p: int, e: Peer)
    requires
        sorted_by_name(s),
        0 <= p <= s.len(),
        forall|q: int| 0 <= q < p ==> !seq_lt(e.name@, #[trigger] s[q].name@),
        p < s.len() ==> seq_lt(e.name@, s[p].name@),
    ensures
        sorted_by_name(s.insert(p, e)),
{
    let t = s.insert(p, e);
    assert forall|i: int, j: int| 0 <= i < j < t.len() implies !seq_lt(#[trigger] t[j].name@, #[trigger] t[i].name@) by {
        if i == p {
            // e against a later element s[j - 1], which is not before s[p].
            let b = s[j - 1].name@;
            if j - 1 > p {
                assert(!seq_lt(b, s[p].name@));
                crate::text::lemma_seq_lt_total(b, s[p].name@);
                if seq_lt(s[p].name@, b) {
                    crate::text::lemma_seq_lt_transitive(e.name@, s[p].name@, b);
                }
            }
            crate::text::lemma_seq_lt_asymmetric(e.name@, b);
        } else if j == p {
            assert(!seq_lt(e.name@, s[i].name@));
        } else {
            let si = if i < p { i } else { i - 1 };
            let sj = if j < p { j } else { j - 1 };
            assert(t[i] == s[si] && t[j] == s[sj]);
        }
    }
}

/// Whether a peer is called `n`.
pub open spec fn name_is(n: Seq<char>) -> spec_fn(Peer) -> bool {
    |p: Peer| p.name@ == n
}

/// The peers called `n`, in the order they stand.
pub open spec fn called(s: Seq<Peer>, n: Seq<char>) -> Seq<Peer> {
    s.filter(name_is(n))
}

proof fn lemma_called_none(s: Seq<Peer>, n: Seq<char>)
    requires
        forall|q: int| 0 <= q < s.len() ==> (#[trigger] s[q]).name@ != n,
    ensures
        called(s, n) == Seq::<Peer>::empty(),
    decreases s.len(),
{
    if s.len() > 0 {
        lemma_called_none(s.drop_last(), n);
        assert(s.drop_last().push(s.last()) =~= s);
        s.drop_last().lemma_filter_push(s.last(), name_is(n));
    } else {
        reveal(Seq::filter);
    }
}

/// Inserting `e` where `sort_by_name` puts it adds it at the end of the peers
/// that share its name, and leaves the others as they were.
proof fn lemma_called_insert(s: Seq<Peer>, p: int, e: Peer, n: Seq<char>)
    requires
        sorted_by_name(s),
        0 <= p <= s.len(),
        p < s.len() ==> seq_lt(e.name@, s[p].name@),
    ensures
        called(s.insert(p, e), n) == if e.name@ == n {
            called(s, n).push(e)
        } else {
            called(s, n)
        },
{
    let f = name_is(n);
    let a = s.take(p);
    let b = s.skip(p);
    assert(s.insert(p, e) =~= a.push(e) + b);
    assert(s =~= a + b);
    Seq::filter_distributes_over_add(a.push(e), b, f);
    Seq::filter_distributes_over_add(a, b, f);
    a.lemma_filter_push(e, f);
    if e.name@ == n {
        assert forall|q: int| 0 <= q < b.len() implies (#[trigger] b[q]).name@ != n by {
            let k = p + q;
            assert(b[q] == s[k]);
            if k > p {
                assert(!seq_lt(s[k].name@, s[p].name@));
                crate::text::lemma_seq_lt_total(s[k].name@, s[p].name@);
                if seq_lt(s[p].name@, s[k].name@) {
                    crate::text::lemma_seq_lt_transitive(e.name@, s[p].name@, s[k].name@);
                }
            }
            crate::text::lemma_seq_lt_irreflexive(e.name@);
        }
        lemma_called_none(b, n);
        assert(a.filter(f).push(e) + b.filter(f) =~= a.filter(f).push(e));
        assert(a.filter(f) + b.filter(f) =~= a.filter(f));
    }
}

/// The peers, ordered by name. A peer is placed after every peer already
/// placed whose name does not sort after its own, so peers with equal names
/// keep the order they came in.
pub fn sort_by_name(peers: &Vec<Peer>) -> (r: Vec<Peer>)
    ensures
        sorted_by_name(r@),
        r@.to_multiset() == peers@.to_multiset(),
        forall|n: Seq<char>| #[trigger] called(r@, n) == called(peers@, n),
{
    let mut out: Vec<Peer> = Vec::new();
    let mut i: usize = 0;
    assert(peers@.take(0) =~= out@);
    while i < peers.len()
        invariant
            i <= peers@.len(),
            sorted_by_name(out@),
            out@.to_multiset() == peers@.take(i as int).to_multiset(),
            forall|n: Seq<char>| #[trigger] called(out@, n) == called(peers@.take(i as int), n),
        decreases peers@.len() - i,
    {
        let e = peers[i].clone();
        let en = chars_of(e.name.as_str());
        let mut p: usize = 0;
        while p < out.len() && !less(&en, &chars_of(out[p].name.as_str()))
            invariant
                p <= out@.len(),
                en@ == e.name@,
                forall|q: int| 0 <= q < p ==> !seq_lt(e.name@, #[trigger] out@[q].name@),
            decreases out@.len() - p,
        {
            p = p + 1;
        }
        proof {
            lemma_insert_sorted(out@, p as int, e);
            vstd::seq_lib::to_multiset_insert(out@, p as int, e);
            assert(peers@.take(i + 1) =~= peers@.take(i as int).push(peers@[i as int]));
            vstd::seq_lib::to_multiset_build(peers@.take(i as int), peers@[i as int]);
            assert forall|n: Seq<char>| #[trigger] called(out@.insert(p as int, e), n) == called(
                peers@.take(i + 1),
                n,
            ) by {
                lemma_called_insert(out@, p as int, e, n);
                peers@.take(i as int).lemma_filter_push(e, name_is(n));
            }
        }
        out.insert(p, e);
        i = i + 1;
    }
    assert(peers@.take(peers@.len() as int) =~= peers@);
    out
}

/// The part of an mDNS instance name before its first dot — the whole name
/// when it has none.
pub open spec fn before_dot(s: Seq<char>) -> Seq<char>
    decreases s.len(),
{
    if s.len() == 0 || s[0] == '.' {
        Seq::empty()
    } else {
        seq![s[0]] + before_dot(s.drop_first())
    }
}

pub fn label_of(full: &String) -> (r: String)
    ensures
        r@ == before_dot(full@),
{
    let cs = chars_of(full.as_str());
    let mut out: Vec<char> = Vec::new();
    let mut i: usize = 0;
    assert(cs@.skip(0) =~= cs@);
    assert(out@ + before_dot(cs@) =~= before_dot(cs@));
    while i < cs.len() && cs[i] != '.'
        invariant
            i <= cs@.len(),
            out@ + before_dot(cs@.skip(i as int)) == before_dot(cs@),
        decreases cs@.len() - i,
    {
        let ghost rest = cs@.skip(i as int);
        assert(rest.drop_first() =~= cs@.skip(i + 1));
        let ghost before = out@;
        out.push(cs[i]);
        assert(out@ + before_dot(cs@.skip(i + 1)) =~= before + before_dot(rest));
        i = i + 1;
    }
    assert(out@ =~= before_dot(cs@));
    string_of(&out)
}

/// One resolved advertisement, as plain values.
pub struct Resolved {
    /// The full service instance name, the roster's key.
    pub fullname: String,
    /// The advertiser's instance id, from its TXT record; empty when absent.
    pub id: String,
    /// The advertiser's display name, from its TXT record; empty when absent.
    pub name: String,
    /// One IPv4 address it advertises, if it advertises any.
    pub ipv4: Option<u32>,
    pub port: u16,
}

/// What a resolved advertisement did to the roster.
#[derive(Debug, PartialEq, Eq)]
pub enum Resolution {
    /// Our own advertisement, seen because we browse where we advertise.
    Ourselves,
    /// Advertised over IPv6 only, and so unreachable from an IPv4 socket.
    NoIpv4,
    /// A peer not in the roster before.
    Added { name: String, addr: PeerAddr },
    /// A peer already in the roster, refreshed.
    Refreshed,
}

pub struct Entry {
    pub key: String,
    pub peer: Peer,
    /// When it was last resolved, in milliseconds on the caller's clock.
    pub seen: u64,
}

/// Everyone discovered, by full instance name.
pub struct Roster {
    entries: Vec<Entry>,
}

/// Whether `key` is the key of entry `i`.
pub open spec fn keyed(es: Seq<Entry>, key: Seq<char>, i: int) -> bool {
    0 <= i < es.len() && es[i].key@ == key
}

/// The name to show for a resolved advertisement: the one in its TXT record,
/// or else its instance label.
pub open spec fn display_name(ev: Resolved) -> Seq<char> {
    if ev.name@.len() > 0 {
        ev.name@
    } else {
        before_dot(ev.fullname@)
    }
}

/// The address a resolved advertisement gives.
pub open spec fn addr_of(ev: Resolved) -> PeerAddr {
    PeerAddr { ip: ev.ipv4->0, port: ev.port }
}

/// The roster entry a resolved advertisement seen at `now` makes.
pub open spec fn fresh_entry(e: Entry, ev: Resolved, now: u64) -> bool {
    &&& e.key@ == ev.fullname@
    &&& e.peer.id@ == ev.fullname@
    &&& e.peer.name@ == display_name(ev)
    &&& e.peer.addr == addr_of(ev)
    &&& e.peer.live
    &&& !e.peer.talking
    &&& !e.peer.manual
    &&& e.seen == now
}

/// A roster entry as the UI sees it at `now`: live while heard from within
/// `PEER_TIMEOUT_MS`.
pub open spec fn shown(e: Entry, now: u64) -> Peer {
    Peer { live: (if now >= e.seen { now - e.seen } else { 0 }) < PEER_TIMEOUT_MS, ..e.peer }
}

impl Roster {
    /// No two entries share a key.
    pub closed spec fn wf(&self) -> bool {
        forall|i: int, j: int|
            0 <= i < j < self.entries@.len() ==> (#[trigger] self.entries@[i]).key@
                != (#[trigger] self.entries@[j]).key@
    }

    pub closed spec fn entries(&self) -> Seq<Entry> {
        self.entries@
    }

    pub fn new() -> (r: Self)
        ensures
            r.wf(),
            r.entries().len() == 0,
    {
        Roster { entries: Vec::new() }
    }

    fn find(&self, key: &String) -> (r: Option<usize>)
        requires
            self.wf(),
        ensures
            match r {
                Some(i) => keyed(self.entries(), key@, i as int),
                None => forall|i: int| 0 <= i < self.entries().len() ==> !keyed(self.entries(), key@, i),
            },
    {
        let mut i: usize = 0;
        while i < self.entries.len()
            invariant
                i <= self.entries@.len(),
                forall|j: int| 0 <= j < i ==> !keyed(self.entries@, key@, j),
            decreases self.entries@.len() - i,
        {
            if self.entries[i].key == *key {
                return Some(i);
            }
            i = i + 1;
        }
        None
    }

    /// Take in one resolved advertisement, seen at `now`. `me` is this
    /// process's own instance id: our own advertisement is recognised by it
    /// rather than by name, because two instances on one PC share a name.
    /// One without an IPv4 address is ignored. Anything else is put in the
    /// roster under its full name, replacing what was there, with its display
    /// name taken from its TXT record or else from its instance label.
    pub fn resolved(&mut self, ev: Resolved, me: &String, now: u64) -> (r: Resolution)
        requires
            old(self).wf(),
        ensures
            final(self).wf(),
            ev.id@ == me@ ==> r == Resolution::Ourselves && final(self).entries() == old(self).entries(),
            ev.id@ != me@ && ev.ipv4 is None ==> r == Resolution::NoIpv4 && final(self).entries()
                == old(self).entries(),
            (ev.id@ != me@ && ev.ipv4 is Some && exists|i: int| keyed(old(self).entries(), ev.fullname@, i))
                ==> {
                &&& r == Resolution::Refreshed
                &&& final(self).entries().len() == old(self).entries().len()
                &&& forall|i: int| #[trigger] keyed(old(self).entries(), ev.fullname@, i) ==> {
                    &&& fresh_entry(final(self).entries()[i], ev, now)
                    &&& forall|j: int|
                        0 <= j < old(self).entries().len() && j != i ==> final(self).entries()[j]
                            == old(self).entries()[j]
                }
            },
            (ev.id@ != me@ && ev.ipv4 is Some && !exists|i: int| keyed(old(self).entries(), ev.fullname@, i))
                ==> {
                &&& (r is Added)
                &&& r->name@ == display_name(ev)
                &&& r->addr == addr_of(ev)
                &&& final(self).entries().len() == old(self).entries().len() + 1
                &&& final(self).entries().drop_last() == old(self).entries()
                &&& fresh_entry(final(self).entries().last(), ev, now)
            },
    {
        if ev.id == *me {
            return Resolution::Ourselves;
        }
        let ip = match ev.ipv4 {
            None => {
                return Resolution::NoIpv4;
            },
            Some(ip) => ip,
        };
        let addr = PeerAddr { ip, port: ev.port };
        let name = if ev.name.as_str().is_empty() {
            label_of(&ev.fullname)
        } else {
            ev.name.clone()
        };
        let peer = Peer {
            id: ev.fullname.clone(),
            name: name.clone(),
            addr,
            live: true,
            talking: false,
            manual: false,
        };
        let entry = Entry { key: ev.fullname.clone(), peer, seen: now };
        let ghost e = entry;
        match self.find(&ev.fullname) {
            Some(i) => {
                let ghost old_es = self.entries@;
                self.entries.set(i, entry);
                proof {
                    assert(keyed(old_es, ev.fullname@, i as int));
                    assert forall|c: int| #[trigger] keyed(old_es, ev.fullname@, c) implies c == i by {
                        if c < i {
                            assert(old_es[c].key@ != old_es[i as int].key@);
                        } else if c > i {
                            assert(old_es[i as int].key@ != old_es[c].key@);
                        }
                    }
                    assert forall|a: int, b: int|
                        0 <= a < b < self.entries@.len() implies (#[trigger] self.entries@[a]).key@
                        != (#[trigger] self.entries@[b]).key@ by {
                        if a == i {
                            assert(old_es[b].key@ != old_es[i as int].key@);
                        } else if b == i {
                            assert(old_es[a].key@ != old_es[i as int].key@);
                        } else {
                            assert(self.entries@[a] == old_es[a] && self.entries@[b] == old_es[b]);
                        }
                    }
                }
                Resolution::Refreshed
            },
            None => {
                let ghost old_es = self.entries@;
                self.entries.push(entry);
                proof {
                    assert(self.entries@.drop_last() =~= old_es);
                    assert forall|a: int, b: int|
                        0 <= a < b < self.entries@.len() implies (#[trigger] self.entries@[a]).key@
                        != (#[trigger] self.entries@[b]).key@ by {
                        if b == old_es.len() {
                            assert(!keyed(old_es, ev.fullname@, a));
                        } else {
                            assert(self.entries@[a] == old_es[a] && self.entries@[b] == old_es[b]);
                        }
                    }
                }
                Resolution::Added { name, addr }
            },
        }
    }

    /// An advertisement was withdrawn: the peer under that full name leaves
    /// the roster, and is handed back.
    pub fn removed(&mut self, fullname: &String) -> (r: Option<Peer>)
        requires
            old(self).wf(),
        ensures
            final(self).wf(),
            match r {
                None => {
                    &&& final(self).entries() == old(self).entries()
                    &&& forall|i: int| 0 <= i < old(self).entries().len() ==> !keyed(old(self).entries(), fullname@, i)
                },
                Some(p) => exists|i: int| {
                    &&& keyed(old(self).entries(), fullname@, i)
                    &&& p == old(self).entries()[i].peer
                    &&& final(self).entries() == old(self).entries().remove(i)
                },
            },
    {
        match self.find(fullname) {
            None => None,
            Some(i) => {
                let ghost old_es = self.entries@;
                let e = self.entries.remove(i);
                proof {
                    assert forall|a: int, b: int|
                        0 <= a < b < self.entries@.len() implies (#[trigger] self.entries@[a]).key@
                        != (#[trigger] self.entries@[b]).key@ by {
                        let oa = if a < i { a } else { a + 1 };
                        let ob = if b < i { b } else { b + 1 };
                        assert(self.entries@[a] == old_es[oa] && self.entries@[b] == old_es[ob]);
                    }
                }
                Some(e.peer)
            },
        }
    }

    /// The roster at `now`, ordered by name (peers of one name in the order
    /// they were first resolved), with liveness worked out at read time from
    /// when each peer was last heard, so it cannot go stale between polls.
    pub fn peers(&self, now: u64) -> (r: Vec<Peer>)
        ensures
            sorted_by_name(r@),
            r@.to_multiset() == self.entries().map_values(|e: Entry| shown(e, now)).to_multiset(),
            forall|n: Seq<char>|
                #[trigger] called(r@, n) == called(self.entries().map_values(|e: Entry| shown(e, now)), n),
    {
        let mut all: Vec<Peer> = Vec::new();
        let mut i: usize = 0;
        while i < self.entries.len()
            invariant
                i <= self.entries@.len(),
                all@ == self.entries@.take(i as int).map_values(|e: Entry| shown(e, now)),
            decreases self.entries@.len() - i,
        {
            let e = &self.entries[i];
            let age = now.saturating_sub(e.seen);
            let mut p = e.peer.clone();
            p.live = age < PEER_TIMEOUT_MS;
            all.push(p);
            i = i + 1;
            assert(all@ =~= self.entries@.take(i as int).map_values(|e: Entry| shown(e, now)));
        }
        assert(self.entries@.take(self.entries@.len() as int) =~= self.entries@);
        sort_by_name(&all)
    }
}

} // verus!
