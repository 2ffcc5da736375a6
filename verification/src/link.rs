//! The transport's state, apart from the socket: what goes into each datagram
//! sent, and what each datagram received does to the counters and to its
//! sender's stream — the number expected next from that sender and its
//! reorder window. The socket itself, and the threads, stay with the caller.

use vstd::prelude::*;
use vstd::string::StringSliceAdditionalSpecFns;

use crate::discovery::PeerAddr;
use crate::jitter::{spec_push, views, Jitter};
use crate::wire::{
    encode_header, spec_parse, Header, HEADER_LEN, KIND_AUDIO, KIND_HEARTBEAT, KIND_TEXT, MAX_PAYLOAD,
    VER,
};

verus! {

/// The u64 counters advance as the atomics they stand for do: wrapping.
pub open spec fn bump(c: u64, by: int) -> u64 {
    ((c + by) % 0x1_0000_0000_0000_0000) as u64
}

/// How many packets the sequence numbers say went missing when `seq` arrives
/// while `want` was expected: the gap ahead, or nothing for a packet that is
/// the expected one or older than it.
pub open spec fn gap(want: u16, seq: u16) -> int {
    let ahead = crate::jitter::dist16(want, seq);
    if ahead > 0 && ahead < 0x8000 {
        ahead
    } else {
        0
    }
}

/// What the UI polls for.
#[derive(Clone, Debug)]
pub struct Stats {
    pub port: u16,
    pub peer: String,
    pub tx: u64,
    pub rx: u64,
    /// Datagrams rejected as too short or wrong version.
    pub bad: u64,
    /// Packets the sequence numbers say never arrived.
    pub lost: u64,
    pub last_seq: u16,
}

/// Counters, so a failure says which link broke.
#[derive(Clone, Copy, Debug)]
pub struct Counters {
    pub tx: u64,
    pub rx: u64,
    pub bad: u64,
    pub lost: u64,
    pub last_seq: u16,
}

impl Counters {
    pub fn new() -> (r: Self)
        ensures
            r.tx == 0 && r.rx == 0 && r.bad == 0 && r.lost == 0 && r.last_seq == 0,
    {
        Counters { tx: 0, rx: 0, bad: 0, lost: 0, last_seq: 0 }
    }

    /// A snapshot for the UI, labelled with the port and peer the transport
    /// was started with.
    pub fn stats(&self, port: u16, peer: String) -> (r: Stats)
        ensures
            r.port == port,
            r.peer@ == peer@,
            r.tx == self.tx,
            r.rx == self.rx,
            r.bad == self.bad,
            r.lost == self.lost,
            r.last_seq == self.last_seq,
    {
        Stats {
            port,
            peer,
            tx: self.tx,
            rx: self.rx,
            bad: self.bad,
            lost: self.lost,
            last_seq: self.last_seq,
        }
    }
}

/// What arrived in one datagram, once the header has been read.
pub enum Delivery {
    /// Not a datagram of ours: too short or another version.
    Refused,
    /// Ours, with nothing to hand on (a heartbeat, or an audio header with no
    /// payload).
    Nothing,
    /// Audio frames now releasable in order; `None` is a frame to conceal.
    Audio(Vec<Option<Vec<u8>>>),
    /// The bytes of a text message.
    Text(Vec<u8>),
}

/// One sender's stream: the sequence number expected next from it, and its
/// reorder window. Each talker has its own, so two people's numbers never
/// meet in one window.
pub struct Stream {
    expect: Option<u16>,
    jitter: Jitter,
}

impl Stream {
    /// The number expected next, the number the window waits for, and what
    /// the window holds.
    pub closed spec fn state(&self) -> (Option<u16>, Option<u16>, Seq<Option<Seq<u8>>>) {
        (self.expect, self.jitter@.0, self.jitter@.1)
    }

    pub closed spec fn wf(&self) -> bool {
        self.jitter.wf()
    }

    fn new() -> (r: Self)
        ensures
            r.wf(),
            r.state() == fresh_stream(),
    {
        Stream { expect: None, jitter: Jitter::new() }
    }
}

/// The stream of a sender never heard from: nothing expected, nothing held.
pub open spec fn fresh_stream() -> (Option<u16>, Option<u16>, Seq<Option<Seq<u8>>>) {
    (None, None, crate::jitter::empty_window())
}

/// The state of the stream from `a`: the first one listed for it, or a fresh
/// one.
pub open spec fn stream_of(ss: Seq<(PeerAddr, Stream)>, a: PeerAddr) -> (
    Option<u16>,
    Option<u16>,
    Seq<Option<Seq<u8>>>,
)
    decreases ss.len(),
{
    if ss.len() == 0 {
        fresh_stream()
    } else if ss[0].0 == a {
        ss[0].1.state()
    } else {
        stream_of(ss.drop_first(), a)
    }
}

proof fn lemma_stream_first(ss: Seq<(PeerAddr, Stream)>, a: PeerAddr, i: int)
    requires
        0 <= i <= ss.len(),
        forall|j: int| 0 <= j < i ==> ss[j].0 != a,
    ensures
        stream_of(ss, a) == stream_of(ss.skip(i), a),
    decreases i,
{
    if i > 0 {
        assert(ss.drop_first().skip(i - 1) =~= ss.skip(i));
        lemma_stream_first(ss.drop_first(), a, i - 1);
    } else {
        assert(ss.skip(0) =~= ss);
    }
}

proof fn lemma_stream_update(ss: Seq<(PeerAddr, Stream)>, i: int, e: (PeerAddr, Stream), b: PeerAddr)
    requires
        0 <= i < ss.len(),
        ss[i].0 == e.0,
        forall|j: int| 0 <= j < i ==> ss[j].0 != e.0,
    ensures
        stream_of(ss.update(i, e), b) == if b == e.0 {
            e.1.state()
        } else {
            stream_of(ss, b)
        },
    decreases i,
{
    if i > 0 {
        assert(ss.update(i, e).drop_first() =~= ss.drop_first().update(i - 1, e));
        assert(ss.update(i, e)[0] == ss[0]);
        lemma_stream_update(ss.drop_first(), i - 1, e, b);
    } else {
        assert(ss.update(i, e).drop_first() =~= ss.drop_first());
        assert(ss.update(i, e)[0] == e);
    }
}

proof fn lemma_stream_push(ss: Seq<(PeerAddr, Stream)>, e: (PeerAddr, Stream), b: PeerAddr)
    requires
        forall|j: int| 0 <= j < ss.len() ==> ss[j].0 != e.0,
    ensures
        stream_of(ss.push(e), b) == if b == e.0 {
            e.1.state()
        } else {
            stream_of(ss, b)
        },
    decreases ss.len(),
{
    if ss.len() > 0 {
        assert(ss.push(e).drop_first() =~= ss.drop_first().push(e));
        assert(ss.push(e)[0] == ss[0]);
        lemma_stream_push(ss.drop_first(), e, b);
        assert(ss[0].0 != e.0);
    } else {
        assert(ss.push(e).drop_first() =~= Seq::<(PeerAddr, Stream)>::empty());
        assert(ss.push(e)[0] == e);
        assert(stream_of(ss.push(e).drop_first(), b) == fresh_stream());
        assert(stream_of(ss, b) == fresh_stream());
    }
}

/// The receiving half: the counters, and a stream for each sender heard
/// from.
pub struct Receiver {
    counters: Counters,
    streams: Vec<(PeerAddr, Stream)>,
}

fn copy_from(buf: &[u8], from: usize) -> (r: Vec<u8>)
    requires
        from <= buf@.len(),
    ensures
        r@ == buf@.subrange(from as int, buf@.len() as int),
{
    let mut v: Vec<u8> = Vec::new();
    let mut i = from;
    while i < buf.len()
        invariant
            from <= i <= buf@.len(),
            v@ == buf@.subrange(from as int, i as int),
        decreases buf@.len() - i,
    {
        v.push(buf[i]);
        i = i + 1;
        assert(v@ =~= buf@.subrange(from as int, i as int));
    }
    v
}

/// What taking in the datagram `buf` from `from` does to a receiver `r0`,
/// leaving `r1` and handing back `d`: refused and counted as bad when it does
/// not parse; otherwise counted, with the gap since the number expected from
/// that sender counted as lost, an audio payload put through that sender's
/// reorder window, and a text payload handed back as it came. Every other
/// sender's stream is left as it was.
pub open spec fn received(r0: Receiver, r1: Receiver, from: PeerAddr, buf: Seq<u8>, d: Delivery) -> bool {
    let s0 = r0.stream(from);
    let s1 = r1.stream(from);
    &&& r1.counts().tx == r0.counts().tx
    &&& forall|b: PeerAddr| b != from ==> #[trigger] r1.stream(b) == r0.stream(b)
    &&& match spec_parse(buf) {
        None => {
            &&& d is Refused
            &&& r1.counts() == (Counters { bad: bump(r0.counts().bad, 1), ..r0.counts() })
            &&& s1 == s0
        },
        Some(h) => {
            &&& r1.counts().bad == r0.counts().bad
            &&& r1.counts().rx == bump(r0.counts().rx, 1)
            &&& r1.counts().last_seq == h.seq
            &&& r1.counts().lost == bump(
                r0.counts().lost,
                match s0.0 {
                    Some(want) => gap(want, h.seq),
                    None => 0,
                },
            )
            &&& s1.0 == Some(crate::jitter::add16(h.seq, 1))
            &&& if h.kind == KIND_AUDIO && buf.len() > HEADER_LEN {
                let r = spec_push(s0.1, s0.2, h.seq, buf.subrange(HEADER_LEN as int, buf.len() as int));
                &&& s1.1 == r.0
                &&& s1.2 == r.1
                &&& d matches Delivery::Audio(frames) && views(frames@) == r.2
            } else if h.kind == KIND_TEXT {
                &&& s1.1 == s0.1
                &&& s1.2 == s0.2
                &&& d matches Delivery::Text(t) && t@ == buf.subrange(HEADER_LEN as int, buf.len() as int)
            } else {
                &&& s1.1 == s0.1
                &&& s1.2 == s0.2
                &&& d is Nothing
            }
        },
    }
}

/// What a datagram going out does to a receiver `r0`, leaving `r1`: one more
/// counted as sent, and nothing else changed.
pub open spec fn sent(r0: Receiver, r1: Receiver) -> bool {
    &&& r1.counts() == (Counters { tx: bump(r0.counts().tx, 1), ..r0.counts() })
    &&& forall|a: PeerAddr| #[trigger] r1.stream(a) == r0.stream(a)
}

/// Something that happens to the transport: a datagram went out, or one
/// arrived from a sender.
pub enum Event {
    Sent,
    Arrived(PeerAddr, Seq<u8>),
}

/// One event taking a receiver from `r0` to `r1`, handing back `d` for an
/// arrival.
pub open spec fn stepped(r0: Receiver, r1: Receiver, e: Event, d: Delivery) -> bool {
    match e {
        Event::Sent => sent(r0, r1),
        Event::Arrived(a, buf) => received(r0, r1, a, buf, d),
    }
}

/// How many datagrams went out in `h`.
pub open spec fn sent_in(h: Seq<Event>) -> nat
    decreases h.len(),
{
    if h.len() == 0 {
        0
    } else {
        sent_in(h.drop_last()) + (if h.last() is Sent {
            1nat
        } else {
            0nat
        })
    }
}

/// How many datagrams that arrived in `h` were ours (their header parsed).
pub open spec fn parsed_in(h: Seq<Event>) -> nat
    decreases h.len(),
{
    if h.len() == 0 {
        0
    } else {
        parsed_in(h.drop_last()) + (if h.last() matches Event::Arrived(_, b) && spec_parse(b) is Some {
            1nat
        } else {
            0nat
        })
    }
}

/// How many datagrams that arrived in `h` were refused.
pub open spec fn refused_in(h: Seq<Event>) -> nat
    decreases h.len(),
{
    if h.len() == 0 {
        0
    } else {
        refused_in(h.drop_last()) + (if h.last() matches Event::Arrived(_, b) && spec_parse(b) is None {
            1nat
        } else {
            0nat
        })
    }
}

/// The sequence number of the last datagram of ours from `a` in `h`.
pub open spec fn last_from(h: Seq<Event>, a: PeerAddr) -> Option<u16>
    decreases h.len(),
{
    if h.len() == 0 {
        None
    } else {
        match h.last() {
            Event::Arrived(from, b) => if from == a && spec_parse(b) is Some {
                Some(spec_parse(b)->0.seq)
            } else {
                last_from(h.drop_last(), a)
            },
            Event::Sent => last_from(h.drop_last(), a),
        }
    }
}

/// The sequence number of the last datagram of ours in `h`, from anyone.
pub open spec fn last_parsed(h: Seq<Event>) -> Option<u16>
    decreases h.len(),
{
    if h.len() == 0 {
        None
    } else {
        match h.last() {
            Event::Arrived(_, b) => if spec_parse(b) is Some {
                Some(spec_parse(b)->0.seq)
            } else {
                last_parsed(h.drop_last())
            },
            Event::Sent => last_parsed(h.drop_last()),
        }
    }
}

/// How many packets `h` says went missing: for each datagram of ours, the
/// gap since the one before it from the same sender.
pub open spec fn lost_in(h: Seq<Event>) -> int
    decreases h.len(),
{
    if h.len() == 0 {
        0
    } else {
        lost_in(h.drop_last()) + match h.last() {
            Event::Arrived(a, b) => match (spec_parse(b), last_from(h.drop_last(), a)) {
                (Some(hd), Some(s)) => gap(crate::jitter::add16(s, 1), hd.seq),
                _ => 0,
            },
            Event::Sent => 0,
        }
    }
}

proof fn lemma_bump_twice(c: u64, x: int, y: int)
    requires
        x >= 0,
        y >= 0,
    ensures
        bump(bump(c, x), y) == bump(c, x + y),
{
    vstd::arithmetic::div_mod::lemma_add_mod_noop(c + x, y, 0x1_0000_0000_0000_0000);
    vstd::arithmetic::div_mod::lemma_mod_twice(y, 0x1_0000_0000_0000_0000);
    vstd::arithmetic::div_mod::lemma_add_mod_noop(c + x + y, 0, 0x1_0000_0000_0000_0000);
}

/// The counters over a whole history: from a receiver that expects nothing
/// from anyone, after the events `h` — each taking `rs[i]` to `rs[i + 1]` —
/// `tx` has grown by the datagrams sent, `rx` by those of ours received,
/// `bad` by those refused, and `lost` by every sender's gaps, each reckoned
/// against the same sender's previous datagram; `last_seq` is the number of
/// the last datagram of ours, and each sender's next number is expected
/// after its last one.
pub proof fn lemma_counters_total(rs: Seq<Receiver>, ds: Seq<Delivery>, h: Seq<Event>)
    requires
        rs.len() == h.len() + 1,
        ds.len() == h.len(),
        forall|i: int| 0 <= i < h.len() ==> stepped(#[trigger] rs[i], rs[i + 1], h[i], ds[i]),
        forall|a: PeerAddr| (#[trigger] rs[0].stream(a)).0 is None,
    ensures
        rs.last().counts().tx == bump(rs[0].counts().tx, sent_in(h) as int),
        rs.last().counts().rx == bump(rs[0].counts().rx, parsed_in(h) as int),
        rs.last().counts().bad == bump(rs[0].counts().bad, refused_in(h) as int),
        lost_in(h) >= 0,
        rs.last().counts().lost == bump(rs[0].counts().lost, lost_in(h)),
        rs.last().counts().last_seq == match last_parsed(h) {
            Some(s) => s,
            None => rs[0].counts().last_seq,
        },
        forall|a: PeerAddr|
            (#[trigger] rs.last().stream(a)).0 == match last_from(h, a) {
                Some(s) => Some(crate::jitter::add16(s, 1)),
                None => None::<u16>,
            },
    decreases h.len(),
{
    let c0 = rs[0].counts();
    if h.len() == 0 {
        assert(rs.last() == rs[0]);
        vstd::arithmetic::div_mod::lemma_small_mod(c0.tx as nat, 0x1_0000_0000_0000_0000);
        vstd::arithmetic::div_mod::lemma_small_mod(c0.rx as nat, 0x1_0000_0000_0000_0000);
        vstd::arithmetic::div_mod::lemma_small_mod(c0.bad as nat, 0x1_0000_0000_0000_0000);
        vstd::arithmetic::div_mod::lemma_small_mod(c0.lost as nat, 0x1_0000_0000_0000_0000);
    } else {
        let n = h.len() - 1;
        let rs2 = rs.drop_last();
        let h2 = h.drop_last();
        assert forall|i: int| 0 <= i < h2.len() implies stepped(#[trigger] rs2[i], rs2[i + 1], h2[i], ds.drop_last()[i]) by {
            assert(rs2[i] == rs[i] && rs2[i + 1] == rs[i + 1] && h2[i] == h[i]);
        }
        lemma_counters_total(rs2, ds.drop_last(), h2);
        let r0 = rs[n];
        let r1 = rs[n + 1];
        assert(rs2.last() == r0);
        assert(rs.last() == r1);
        assert(stepped(r0, r1, h[n], ds[n]));
        assert(h.last() == h[n]);
        match h[n] {
            Event::Sent => {
                lemma_bump_twice(c0.tx, sent_in(h2) as int, 1);
                assert forall|a: PeerAddr| (#[trigger] r1.stream(a)).0 == match last_from(h, a) {
                    Some(s) => Some(crate::jitter::add16(s, 1)),
                    None => None::<u16>,
                } by {
                    assert(r1.stream(a) == r0.stream(a));
                    assert(rs2.last().stream(a) == r0.stream(a));
                }
            },
            Event::Arrived(from, b) => {
                assert(rs2.last().stream(from) == r0.stream(from));
                match spec_parse(b) {
                    None => {
                        lemma_bump_twice(c0.bad, refused_in(h2) as int, 1);
                    },
                    Some(hd) => {
                        lemma_bump_twice(c0.rx, parsed_in(h2) as int, 1);
                        let g = match last_from(h2, from) {
                            Some(s) => gap(crate::jitter::add16(s, 1), hd.seq),
                            None => 0,
                        };
                        assert(g >= 0);
                        lemma_bump_twice(c0.lost, lost_in(h2), g);
                    },
                }
                assert forall|a: PeerAddr| (#[trigger] r1.stream(a)).0 == match last_from(h, a) {
                    Some(s) => Some(crate::jitter::add16(s, 1)),
                    None => None::<u16>,
                } by {
                    assert(rs2.last().stream(a) == r0.stream(a));
                    if a != from {
                        assert(r1.stream(a) == r0.stream(a));
                    }
                }
            },
        }
    }
}

impl Receiver {
    pub closed spec fn wf(&self) -> bool {
        forall|k: int| 0 <= k < self.streams@.len() ==> (#[trigger] self.streams@[k]).1.wf()
    }

    /// The counters as they stand.
    pub closed spec fn counts(&self) -> Counters {
        self.counters
    }

    /// The stream from `a`, as it stands.
    pub closed spec fn stream(&self, a: PeerAddr) -> (Option<u16>, Option<u16>, Seq<Option<Seq<u8>>>) {
        stream_of(self.streams@, a)
    }

    pub fn counters(&self) -> (r: Counters)
        ensures
            r == self.counts(),
    {
        self.counters
    }

    /// One datagram went out.
    pub fn note_sent(&mut self)
        requires
            old(self).wf(),
        ensures
            final(self).wf(),
            sent(*old(self), *final(self)),
    {
        self.counters.tx = self.counters.tx.wrapping_add(1);
    }

    pub fn new() -> (r: Self)
        ensures
            r.wf(),
            r.counts() == Counters::new_spec(),
            forall|a: PeerAddr| #[trigger] r.stream(a) == fresh_stream(),
    {
        Receiver { counters: Counters { tx: 0, rx: 0, bad: 0, lost: 0, last_seq: 0 }, streams: Vec::new() }
    }

    fn find(&self, a: PeerAddr) -> (r: Option<usize>)
        ensures
            match r {
                Some(i) => {
                    &&& i < self.streams@.len()
                    &&& self.streams@[i as int].0 == a
                    &&& forall|j: int| 0 <= j < i ==> self.streams@[j].0 != a
                },
                None => forall|j: int| 0 <= j < self.streams@.len() ==> self.streams@[j].0 != a,
            },
    {
        let mut i: usize = 0;
        while i < self.streams.len()
            invariant
                i <= self.streams@.len(),
                forall|j: int| 0 <= j < i ==> self.streams@[j].0 != a,
            decreases self.streams@.len() - i,
        {
            if self.streams[i].0 == a {
                return Some(i);
            }
            i = i + 1;
        }
        None
    }

    /// One datagram off the socket, from `from`.
    ///
    /// Refused and counted as bad when it is too short or of another version.
    /// Otherwise counted, with the gap since the number expected from that
    /// sender counted as lost — compared with wrapping arithmetic, because
    /// `seq` wraps after about 22 minutes of talking and a plain comparison
    /// would stall at the wrap. An audio payload goes through that sender's
    /// reorder window; a text payload is handed back as it came.
    pub fn on_datagram(&mut self, from: PeerAddr, buf: &[u8]) -> (d: Delivery)
        requires
            old(self).wf(),
        ensures
            final(self).wf(),
            received(*old(self), *final(self), from, buf@, d),
    {
        let h = match Header::parse(buf) {
            Some(h) => h,
            None => {
                self.counters.bad = self.counters.bad.wrapping_add(1);
                return Delivery::Refused;
            },
        };
        let ghost ss0 = self.streams@;
        let i = match self.find(from) {
            Some(i) => {
                proof {
                    lemma_stream_first(ss0, from, i as int);
                    assert(ss0.skip(i as int)[0] == ss0[i as int]);
                }
                i
            },
            None => {
                let fresh = Stream::new();
                proof {
                    lemma_stream_first(ss0, from, ss0.len() as int);
                    assert(ss0.skip(ss0.len() as int) =~= Seq::<(PeerAddr, Stream)>::empty());
                    assert forall|b: PeerAddr| #[trigger] stream_of(ss0.push((from, fresh)), b) == stream_of(
                        ss0,
                        b,
                    ) by {
                        lemma_stream_push(ss0, (from, fresh), b);
                    }
                }
                self.streams.push((from, fresh));
                self.streams.len() - 1
            },
        };
        let ghost ss1 = self.streams@;
        assert(stream_of(ss1, from) == stream_of(ss0, from));
        assert(ss1[i as int].1.state() == stream_of(ss0, from));
        let (a, mut st) = self.streams.remove(i);
        assert(st.wf());
        let want = st.expect;
        if let Some(want) = want {
            let ahead = h.seq.wrapping_sub(want);
            if ahead > 0 && ahead < 0x8000 {
                self.counters.lost = self.counters.lost.wrapping_add(ahead as u64);
            }
        }
        st.expect = Some(h.seq.wrapping_add(1));
        self.counters.rx = self.counters.rx.wrapping_add(1);
        self.counters.last_seq = h.seq;

        let d = if h.kind == KIND_AUDIO && buf.len() > HEADER_LEN {
            let payload = copy_from(buf, HEADER_LEN);
            let mut ready: Vec<Option<Vec<u8>>> = Vec::new();
            st.jitter.push(h.seq, payload, &mut ready);
            assert(views(ready@) =~= views(Seq::<Option<Vec<u8>>>::empty()) + views(ready@));
            Delivery::Audio(ready)
        } else if h.kind == KIND_TEXT {
            Delivery::Text(copy_from(buf, HEADER_LEN))
        } else {
            Delivery::Nothing
        };
        self.streams.insert(i, (a, st));
        proof {
            assert(self.streams@ =~= ss1.update(i as int, (a, st)));
            assert forall|b: PeerAddr| #[trigger] stream_of(self.streams@, b) == (if b == from {
                st.state()
            } else {
                stream_of(ss1, b)
            }) by {
                lemma_stream_update(ss1, i as int, (a, st), b);
            }
            assert forall|k: int| 0 <= k < self.streams@.len() implies (#[trigger] self.streams@[k]).1.wf() by {
                if k != i {
                    assert(self.streams@[k] == ss1[k]);
                }
            }
        }
        d
    }
}

impl Counters {
    pub open spec fn new_spec() -> Counters {
        Counters { tx: 0, rx: 0, bad: 0, lost: 0, last_seq: 0 }
    }
}

/// The sending half: the sequence number and timestamp of the next datagram.
///
/// One sequence for every kind of datagram, because the receiver counts loss
/// by sequence number whatever the datagram carries.
pub struct Transmitter {
    pub seq: u16,
    pub ts: u32,
}

/// A datagram: the header, then the payload.
pub open spec fn datagram(h: Header, payload: Seq<u8>) -> Seq<u8> {
    encode_header(h) + payload
}

fn build(h: Header, payload: &[u8]) -> (r: Vec<u8>)
    ensures
        r@ == datagram(h, payload@),
{
    let mut buf: Vec<u8> = vec![0u8, 0u8, 0u8, 0u8, 0u8, 0u8, 0u8, 0u8];
    h.write(buf.as_mut_slice());
    assert(buf@ =~= encode_header(h));
    let mut i: usize = 0;
    while i < payload.len()
        invariant
            0 <= i <= payload@.len(),
            buf@ == encode_header(h) + payload@.subrange(0, i as int),
        decreases payload@.len() - i,
    {
        buf.push(payload[i]);
        i = i + 1;
        assert(buf@ =~= encode_header(h) + payload@.subrange(0, i as int));
    }
    assert(payload@.subrange(0, payload@.len() as int) =~= payload@);
    buf
}

/// A datagram by its bytes.
pub open spec fn bytes_of(r: Option<Vec<u8>>) -> Option<Seq<u8>> {
    match r {
        Some(v) => Some(v@),
        None => None,
    }
}

/// What sending one audio frame does: the datagram, and the sender after.
/// Nothing advances for a frame larger than `MAX_PAYLOAD`.
pub open spec fn audio_step(t: Transmitter, data: Seq<u8>, samples: u32) -> (Option<Seq<u8>>, Transmitter) {
    if data.len() > MAX_PAYLOAD {
        (None, t)
    } else {
        (
            Some(datagram(Header { ver: VER, kind: KIND_AUDIO, seq: t.seq, ts: t.ts }, data)),
            Transmitter {
                seq: crate::jitter::add16(t.seq, 1),
                ts: ((t.ts + samples) % 0x1_0000_0000) as u32,
            },
        )
    }
}

/// What sending a line of text (as its UTF-8 bytes) does: the datagram, and
/// the sender after. Nothing advances for text longer than `MAX_PAYLOAD`.
pub open spec fn text_step(t: Transmitter, bytes: Seq<u8>) -> (Option<Seq<u8>>, Transmitter) {
    if bytes.len() > MAX_PAYLOAD {
        (None, t)
    } else {
        (
            Some(datagram(Header { ver: VER, kind: KIND_TEXT, seq: t.seq, ts: t.ts }, bytes)),
            Transmitter { seq: crate::jitter::add16(t.seq, 1), ts: t.ts },
        )
    }
}

/// What sending a heartbeat does: a bare header that says only "still
/// here", and the sender after. It takes a sequence number like any datagram
/// and leaves the timestamp where it is.
pub open spec fn heartbeat_step(t: Transmitter) -> (Seq<u8>, Transmitter) {
    (
        datagram(Header { ver: VER, kind: KIND_HEARTBEAT, seq: t.seq, ts: t.ts }, Seq::empty()),
        Transmitter { seq: crate::jitter::add16(t.seq, 1), ts: t.ts },
    )
}

impl Transmitter {
    pub fn new() -> (r: Self)
        ensures
            r.seq == 0 && r.ts == 0,
    {
        Transmitter { seq: 0, ts: 0 }
    }

    /// The datagram for one encoded audio frame, or `None` when the frame is
    /// larger than `MAX_PAYLOAD` — in which case nothing advances. `samples`
    /// is the sender's frame size, so the timestamp advances by what this
    /// machine actually captured rather than by a constant the receiver would
    /// have to guess at.
    pub fn audio(&mut self, data: &[u8], samples: u32) -> (r: Option<Vec<u8>>)
        ensures
            (bytes_of(r), *final(self)) == audio_step(*old(self), data@, samples),
    {
        if data.len() > MAX_PAYLOAD {
            return None;
        }
        let h = Header { ver: VER, kind: KIND_AUDIO, seq: self.seq, ts: self.ts };
        self.seq = self.seq.wrapping_add(1);
        self.ts = self.ts.wrapping_add(samples);
        Some(build(h, data))
    }

    /// The datagram for a line of text, as UTF-8, or `None` when it is longer
    /// than `MAX_PAYLOAD` bytes — in which case nothing advances. Text takes a
    /// sequence number like any datagram and leaves the timestamp where it is.
    pub fn text(&mut self, text: &str) -> (r: Option<Vec<u8>>)
        ensures
            (bytes_of(r), *final(self)) == text_step(*old(self), text.spec_bytes()),
    {
        let bytes = text.as_bytes();
        if bytes.len() > MAX_PAYLOAD {
            return None;
        }
        let h = Header { ver: VER, kind: KIND_TEXT, seq: self.seq, ts: self.ts };
        self.seq = self.seq.wrapping_add(1);
        Some(build(h, bytes))
    }

    /// The datagram that tells everyone this machine is still here, sent
    /// every couple of seconds whether or not anyone is talking: it is what
    /// lets a roster report that somebody is *not* there.
    pub fn heartbeat(&mut self) -> (r: Vec<u8>)
        ensures
            (r@, *final(self)) == heartbeat_step(*old(self)),
    {
        let h = Header { ver: VER, kind: KIND_HEARTBEAT, seq: self.seq, ts: self.ts };
        self.seq = self.seq.wrapping_add(1);
        let none: Vec<u8> = Vec::new();
        let r = build(h, none.as_slice());
        assert(none@ =~= Seq::<u8>::empty());
        r
    }
}

/// A line of text arrives as it was sent: whatever receiver takes in the
/// datagram the sender built for it hands back exactly those bytes.
pub proof fn lemma_text_arrives_as_sent(
    t: Transmitter,
    bytes: Seq<u8>,
    r0: Receiver,
    r1: Receiver,
    from: PeerAddr,
    d: Delivery,
)
    requires
        bytes.len() <= MAX_PAYLOAD,
        received(r0, r1, from, text_step(t, bytes).0->0, d),
    ensures
        d matches Delivery::Text(x) && x@ == bytes,
{
    let h = Header { ver: VER, kind: KIND_TEXT, seq: t.seq, ts: t.ts };
    let buf = datagram(h, bytes);
    crate::wire::lemma_write_then_parse(h, bytes);
    assert(buf.subrange(HEADER_LEN as int, buf.len() as int) =~= bytes);
}

/// An audio frame arrives as it was sent: a receiver whose window for the
/// sender waits for exactly its number, with nothing held, plays it at once
/// and waits for the next.
pub proof fn lemma_audio_arrives_in_order(
    t: Transmitter,
    data: Seq<u8>,
    samples: u32,
    r0: Receiver,
    r1: Receiver,
    from: PeerAddr,
    d: Delivery,
)
    requires
        0 < data.len() <= MAX_PAYLOAD,
        r0.stream(from).1 == Some(t.seq),
        r0.stream(from).2 == crate::jitter::empty_window(),
        received(r0, r1, from, audio_step(t, data, samples).0->0, d),
    ensures
        d matches Delivery::Audio(frames) && views(frames@) == seq![Some(data)],
        r1.stream(from).1 == Some(audio_step(t, data, samples).1.seq),
        r1.stream(from).2 == crate::jitter::empty_window(),
{
    let h = Header { ver: VER, kind: KIND_AUDIO, seq: t.seq, ts: t.ts };
    let buf = datagram(h, data);
    crate::wire::lemma_write_then_parse(h, data);
    assert(buf.subrange(HEADER_LEN as int, buf.len() as int) =~= data);
    crate::jitter::lemma_in_order_passes_through(t.seq, data);
}

/// Each talker has a stream of their own: what arrives from one sender
/// leaves every other sender's expected number and reorder window as they
/// were, so two people talking at once never scramble each other.
pub proof fn lemma_talkers_do_not_mix(
    r0: Receiver,
    r1: Receiver,
    from: PeerAddr,
    buf: Seq<u8>,
    d: Delivery,
    other: PeerAddr,
)
    requires
        received(r0, r1, from, buf, d),
        other != from,
    ensures
        r1.stream(other) == r0.stream(other),
{
}

/// Consecutive sequence numbers never count as loss, across the wrap at
/// 65535 as anywhere else; a packet `d` ahead of the expected one (for `d`
/// under half the sequence space) counts the `d` between as lost; and a late
/// packet counts nothing.
pub proof fn lemma_loss_counting(want: u16, d: int)
    requires
        0 <= d < 0x1_0000,
    ensures
        gap(want, crate::jitter::add16(want, d)) == (if d < 0x8000 {
            d
        } else {
            0
        }),
{
    let s = crate::jitter::add16(want, d);
    if want + d < 0x1_0000 {
        vstd::arithmetic::div_mod::lemma_small_mod((want + d) as nat, 0x1_0000);
    } else {
        vstd::arithmetic::div_mod::lemma_mod_multiples_vanish(1, want + d - 0x1_0000, 0x1_0000);
        vstd::arithmetic::div_mod::lemma_small_mod((want + d - 0x1_0000) as nat, 0x1_0000);
    }
}

/// A heartbeat costs the audio nothing: it parses as a heartbeat, so it
/// reaches nobody's reorder window, and the datagram sent after it carries
/// the very number the receiver then expects, which counts as no loss.
pub proof fn lemma_heartbeat_costs_nothing(t: Transmitter)
    ensures
        spec_parse(heartbeat_step(t).0) == Some(Header { ver: VER, kind: KIND_HEARTBEAT, seq: t.seq, ts: t.ts }),
        gap(crate::jitter::add16(t.seq, 1), heartbeat_step(t).1.seq) == 0,
{
    let h = Header { ver: VER, kind: KIND_HEARTBEAT, seq: t.seq, ts: t.ts };
    crate::wire::lemma_write_then_parse(h, Seq::empty());
    lemma_loss_counting(crate::jitter::add16(t.seq, 1), 0);
    assert(crate::jitter::add16(crate::jitter::add16(t.seq, 1), 0) == crate::jitter::add16(t.seq, 1));
}

} // verus!
