//! Reorder window.
//!
//! UDP delivers late, out of order, and not at all, and decoding in arrival
//! order turns every one of those into a click. This holds packets by sequence
//! number and releases them in order, giving a straggler a few frames' grace
//! before declaring it lost.
//!
//! Indexed by `seq % SLOTS` rather than kept in a map, because a map keyed on
//! u16 sorts wrongly across the wrap at 65535.
//!
//! The model: a window of `SLOTS` positions starting at the sequence number
//! waited for (`next`). Position `i` holds the payload of `next + i`, if it
//! has arrived.

use vstd::prelude::*;

verus! {

/// How many packets to hold before giving up on a missing one. Three frames
/// is 60 ms — audible as latency, and the price of not clicking on every
/// reorder.
pub const JITTER_TARGET: usize = 3;

/// Slots in the reorder window. Exceeds `JITTER_TARGET` with room to spare,
/// and divides 65536 so `% SLOTS` wraps with the sequence number.
pub const SLOTS: usize = 32;

/// A received payload, by its contents.
pub open spec fn opt_view(o: Option<Vec<u8>>) -> Option<Seq<u8>> {
    match o {
        Some(v) => Some(v@),
        None => None,
    }
}

/// A list of released frames, by their contents.
pub open spec fn views(v: Seq<Option<Vec<u8>>>) -> Seq<Option<Seq<u8>>> {
    v.map_values(|o: Option<Vec<u8>>| opt_view(o))
}

/// `n` positions with nothing in them.
pub open spec fn nones(n: nat) -> Seq<Option<Seq<u8>>> {
    Seq::new(n, |i: int| None)
}

/// A window with nothing in it.
pub open spec fn empty_window() -> Seq<Option<Seq<u8>>> {
    nones(SLOTS as nat)
}

/// How many positions of `w` hold a payload.
pub open spec fn count_some(w: Seq<Option<Seq<u8>>>) -> nat
    decreases w.len(),
{
    if w.len() == 0 {
        0
    } else {
        (if w[0] is Some {
            1nat
        } else {
            0nat
        }) + count_some(w.drop_first())
    }
}

/// The first position, from `i` on, at which releasing stops: a missing
/// payload with fewer than `JITTER_TARGET` payloads held from there on, or the
/// end of the window.
pub open spec fn stop_from(w: Seq<Option<Seq<u8>>>, i: nat) -> nat
    decreases w.len() - i,
{
    if i >= w.len() {
        w.len()
    } else if w[i as int] is None && count_some(w.skip(i as int)) < JITTER_TARGET {
        i
    } else {
        stop_from(w, i + 1)
    }
}

/// How many positions are released from the front of `w`.
pub open spec fn release_len(w: Seq<Option<Seq<u8>>>) -> nat {
    stop_from(w, 0)
}

/// The distance from `from` forward to `to`, counting across the wrap.
pub open spec fn dist16(from: u16, to: u16) -> int {
    if to >= from {
        to - from
    } else {
        to - from + 0x1_0000
    }
}

/// `a` advanced by `k`, wrapping at 65536.
pub open spec fn add16(a: u16, k: int) -> u16 {
    ((a + k) % 0x1_0000) as u16
}

/// What one `push` does, on the model: the new `next`, the new window, and the
/// frames released in order (`None` for a frame given up as lost).
pub open spec fn spec_push(
    next: Option<u16>,
    w: Seq<Option<Seq<u8>>>,
    seq: u16,
    p: Seq<u8>,
) -> (Option<u16>, Seq<Option<Seq<u8>>>, Seq<Option<Seq<u8>>>) {
    let n0 = match next {
        Some(n) => n,
        None => seq,
    };
    let w0 = match next {
        Some(n) => w,
        None => empty_window(),
    };
    let ahead = dist16(n0, seq);
    if ahead >= 0x8000 {
        (Some(n0), w0, Seq::empty())
    } else {
        let n1 = if ahead >= SLOTS {
            seq
        } else {
            n0
        };
        let w1 = if ahead >= SLOTS {
            empty_window()
        } else {
            w0
        };
        let a1 = if ahead >= SLOTS {
            0
        } else {
            ahead
        };
        let w2 = w1.update(a1, Some(p));
        let s = release_len(w2);
        (Some(add16(n1, s as int)), w2.skip(s as int) + nones(s), w2.take(s as int))
    }
}

pub struct Jitter {
    slots: Vec<Option<Vec<u8>>>,
    /// The sequence number waited for. `None` until the first packet arrives
    /// and sets the origin.
    next: Option<u16>,
    depth: usize,
}

/// The slot holding window position `i` when `next` is waited for.
pub open spec fn slot_of(next: u16, i: int) -> int {
    (next + i) % (SLOTS as int)
}

pub open spec fn window_of(slots: Seq<Option<Vec<u8>>>, next: u16) -> Seq<Option<Seq<u8>>> {
    Seq::new(SLOTS as nat, |i: int| opt_view(slots[slot_of(next, i)]))
}

impl View for Jitter {
    type V = (Option<u16>, Seq<Option<Seq<u8>>>);

    /// The sequence number waited for, and the window that starts there.
    closed spec fn view(&self) -> (Option<u16>, Seq<Option<Seq<u8>>>) {
        match self.next {
            Some(n) => (Some(n), window_of(self.slots@, n)),
            None => (None, empty_window()),
        }
    }
}

proof fn lemma_count_skip(w: Seq<Option<Seq<u8>>>, k: int)
    requires
        0 <= k < w.len(),
    ensures
        count_some(w.skip(k)) == (if w[k] is Some {
            1nat
        } else {
            0nat
        }) + count_some(w.skip(k + 1)),
{
    assert(w.skip(k).drop_first() =~= w.skip(k + 1));
}

proof fn lemma_count_concat(a: Seq<Option<Seq<u8>>>, b: Seq<Option<Seq<u8>>>)
    ensures
        count_some(a + b) == count_some(a) + count_some(b),
    decreases a.len(),
{
    if a.len() == 0 {
        assert(a + b =~= b);
    } else {
        assert((a + b).drop_first() =~= a.drop_first() + b);
        lemma_count_concat(a.drop_first(), b);
    }
}

proof fn lemma_count_nones(n: nat)
    ensures
        count_some(nones(n)) == 0,
    decreases n,
{
    if n > 0 {
        assert(nones(n).drop_first() =~= nones((n - 1) as nat));
        lemma_count_nones((n - 1) as nat);
    }
}

proof fn lemma_count_update(w: Seq<Option<Seq<u8>>>, a: int, p: Seq<u8>)
    requires
        0 <= a < w.len(),
    ensures
        count_some(w.update(a, Some(p))) == count_some(w) + (if w[a] is None {
            1nat
        } else {
            0nat
        }),
    decreases w.len(),
{
    if a == 0 {
        assert(w.update(a, Some(p)).drop_first() =~= w.drop_first());
    } else {
        assert(w.update(a, Some(p)).drop_first() =~= w.drop_first().update(a - 1, Some(p)));
        lemma_count_update(w.drop_first(), a - 1, p);
    }
}

proof fn lemma_count_bound(w: Seq<Option<Seq<u8>>>)
    ensures
        count_some(w) <= w.len(),
    decreases w.len(),
{
    if w.len() > 0 {
        lemma_count_bound(w.drop_first());
    }
}

/// Positions `0..32` of a window starting anywhere land in distinct slots,
/// and a window starting one later is the same slots shifted by one.
proof fn lemma_mod_wrap(x: int, i: int)
    requires
        x >= 0,
        i >= 0,
    ensures
        ((x % 0x1_0000) + i) % 32 == (x + i) % 32,
{
    let q = x / 0x1_0000;
    let r = x % 0x1_0000;
    vstd::arithmetic::div_mod::lemma_fundamental_div_mod(x, 0x1_0000);
    assert(x + i == 32 * (2048 * q) + (r + i)) by (nonlinear_arith)
        requires
            x == 0x1_0000 * q + r,
    ;
    vstd::arithmetic::div_mod::lemma_mod_multiples_vanish(2048 * q, r + i, 32);
}

proof fn lemma_slot_distinct(n: u16, i: int, j: int)
    requires
        0 <= i < 32,
        0 <= j < 32,
        i != j,
    ensures
        slot_of(n, i) != slot_of(n, j),
{
    let m = n as int % 32;
    vstd::arithmetic::div_mod::lemma_fundamental_div_mod(n as int, 32);
    let q = n as int / 32;
    vstd::arithmetic::div_mod::lemma_mod_multiples_vanish(q, m + i, 32);
    vstd::arithmetic::div_mod::lemma_mod_multiples_vanish(q, m + j, 32);
    assert(n + i == 32 * q + (m + i));
    assert(n + j == 32 * q + (m + j));
    assert(0 <= m < 32);
    if m + i < 32 {
        vstd::arithmetic::div_mod::lemma_small_mod((m + i) as nat, 32);
    } else {
        vstd::arithmetic::div_mod::lemma_mod_multiples_vanish(1, m + i - 32, 32);
        vstd::arithmetic::div_mod::lemma_small_mod((m + i - 32) as nat, 32);
    }
    if m + j < 32 {
        vstd::arithmetic::div_mod::lemma_small_mod((m + j) as nat, 32);
    } else {
        vstd::arithmetic::div_mod::lemma_mod_multiples_vanish(1, m + j - 32, 32);
        vstd::arithmetic::div_mod::lemma_small_mod((m + j - 32) as nat, 32);
    }
}

/// Advancing `next` by one shifts the window: what was at position `i + 1`
/// is now at `i`, and the slot that held position 0 becomes the last one.
proof fn lemma_slot_step(n: u16, i: int)
    requires
        0 <= i,
    ensures
        slot_of(add16(n, 1), i) == slot_of(n, i + 1),
{
    lemma_mod_wrap(n + 1, i);
}

proof fn lemma_slot_wrap(n: u16)
    ensures
        slot_of(n, 32) == slot_of(n, 0),
{
    vstd::arithmetic::div_mod::lemma_mod_multiples_vanish(1, n as int, 32);
}

proof fn lemma_stop_same(w: Seq<Option<Seq<u8>>>, k: nat)
    requires
        k < w.len(),
        !(w[k as int] is None && count_some(w.skip(k as int)) < JITTER_TARGET),
    ensures
        stop_from(w, k) == stop_from(w, k + 1),
{
}

proof fn lemma_stop_bounds(w: Seq<Option<Seq<u8>>>, k: nat)
    requires
        k <= w.len(),
    ensures
        k <= stop_from(w, k) <= w.len(),
    decreases w.len() - k,
{
    if k < w.len() {
        lemma_stop_bounds(w, k + 1);
    }
}

impl Jitter {
    /// Internal consistency: one slot per window position, `depth` counts the
    /// held payloads, and nothing is held before the origin is set.
    pub closed spec fn wf(&self) -> bool {
        &&& self.slots@.len() == SLOTS
        &&& self.depth == count_some(self@.1)
        &&& (self.next is None ==> forall|i: int|
            0 <= i < SLOTS ==> #[trigger] self.slots@[i] is None)
    }

    fn empty_slots() -> (r: Vec<Option<Vec<u8>>>)
        ensures
            r@.len() == SLOTS,
            forall|i: int| 0 <= i < SLOTS ==> #[trigger] r@[i] is None,
    {
        let mut v: Vec<Option<Vec<u8>>> = Vec::with_capacity(SLOTS);
        let mut k: usize = 0;
        while k < SLOTS
            invariant
                k <= SLOTS,
                v@.len() == k,
                forall|i: int| 0 <= i < k ==> #[trigger] v@[i] is None,
            decreases SLOTS - k,
        {
            v.push(None);
            k = k + 1;
        }
        v
    }

    /// Nothing held, no origin yet.
    pub fn new() -> (r: Self)
        ensures
            r.wf(),
            r@ == (None::<u16>, empty_window()),
            settled(r@),
    {
        proof {
            lemma_count_nones(SLOTS as nat);
        }
        Jitter { slots: Self::empty_slots(), next: None, depth: 0 }
    }

    /// Forget everything held and wait for `seq` next.
    pub fn reset(&mut self, seq: u16)
        ensures
            final(self).wf(),
            final(self)@ == (Some(seq), empty_window()),
            settled(final(self)@),
    {
        self.slots = Self::empty_slots();
        self.depth = 0;
        self.next = Some(seq);
        assert(self@.1 =~= empty_window());
        proof {
            lemma_count_nones(SLOTS as nat);
        }
    }

    /// Take a packet in, and append to `out` everything now releasable, in
    /// order. `None` in the output means a frame is genuinely missing and the
    /// decoder should conceal it rather than skip it.
    pub fn push(&mut self, seq: u16, payload: Vec<u8>, out: &mut Vec<Option<Vec<u8>>>)
        requires
            old(self).wf(),
        ensures
            final(self).wf(),
            ({
                let r = spec_push(old(self)@.0, old(self)@.1, seq, payload@);
                &&& final(self)@ == (r.0, r.1)
                &&& views(final(out)@) == views(old(out)@) + r.2
            }),
            settled(old(self)@) ==> settled(final(self)@) && final(self)@.0 is Some,
    {
        proof {
            if settled(self@) {
                lemma_push_settles(self@.0, self@.1, seq, payload@);
            }
        }
        let ghost r = spec_push(self@.0, self@.1, seq, payload@);
        let ghost old_out = views(out@);
        let next = match self.next {
            Some(n) => n,
            None => {
                self.reset(seq);
                seq
            },
        };
        let ahead = seq.wrapping_sub(next);
        assert(ahead == dist16(next, seq));
        if ahead >= 0x8000 {
            assert(views(out@) =~= old_out + r.2);
            return;
        }
        if ahead as usize >= SLOTS {
            self.reset(seq);
        }
        let ghost n1: u16 = self.next->0;
        let ghost a1: int = dist16(n1, seq);
        let ghost w1 = self@.1;
        assert(a1 < SLOTS);
        let idx = (seq as usize) % SLOTS;
        proof {
            // seq sits `a1` positions after n1, so it lands in that position's slot.
            assert(seq == (n1 + a1) % 0x1_0000);
            lemma_mod_wrap(n1 + a1, 0);
            assert(idx == slot_of(n1, a1));
            lemma_count_update(w1, a1, payload@);
        }
        let ghost p = payload@;
        if self.slots[idx].is_none() {
            proof {
                lemma_count_bound(w1);
            }
            self.depth = self.depth + 1;
        }
        self.slots.set(idx, Some(payload));
        let ghost w2 = w1.update(a1, Some(p));
        assert(window_of(self.slots@, n1) =~= w2) by {
            assert forall|i: int| 0 <= i < SLOTS implies window_of(self.slots@, n1)[i] == w2[i] by {
                if i != a1 {
                    lemma_slot_distinct(n1, i, a1);
                }
            }
        }
        proof {
            assert(w2.skip(0) =~= w2);
            assert(w2.skip(0) + nones(0) =~= w2);
            assert(views(out@) + w2.take(0) =~= views(out@));
        }
        let ghost mut k: nat = 0;
        loop
            invariant
                self.slots@.len() == SLOTS,
                k <= SLOTS,
                w2.len() == SLOTS,
                self.next == Some(add16(n1, k as int)),
                window_of(self.slots@, add16(n1, k as int)) == w2.skip(k as int) + nones(k),
                self.depth == count_some(w2.skip(k as int)),
                stop_from(w2, 0) == stop_from(w2, k),
                views(out@) == old_out + w2.take(k as int),
                r == spec_push(old(self)@.0, old(self)@.1, seq, p),
                r.0 == Some(add16(n1, stop_from(w2, 0) as int)),
                r.1 == w2.skip(stop_from(w2, 0) as int) + nones(stop_from(w2, 0)),
                r.2 == w2.take(stop_from(w2, 0) as int),
            ensures
                self.slots@.len() == SLOTS,
                self.next == Some(add16(n1, stop_from(w2, 0) as int)),
                window_of(self.slots@, add16(n1, stop_from(w2, 0) as int)) == w2.skip(
                    stop_from(w2, 0) as int,
                ) + nones(stop_from(w2, 0)),
                self.depth == count_some(w2.skip(stop_from(w2, 0) as int)),
                views(out@) == old_out + w2.take(stop_from(w2, 0) as int),
            decreases SLOTS - k,
        {
            let next = match self.next {
                Some(n) => n,
                None => seq,
            };
            let ghost cur = window_of(self.slots@, next);
            let idx = (next as usize) % SLOTS;
            assert(idx == slot_of(next, 0));
            assert(cur[0] == opt_view(self.slots@[idx as int]));
            proof {
                if k == SLOTS {
                    assert(w2.skip(k as int) =~= Seq::<Option<Seq<u8>>>::empty());
                    assert(cur[0] == nones(k)[0]);
                } else {
                    assert(cur[0] == w2[k as int]);
                }
            }
            let mut taken: Option<Vec<u8>> = None;
            self.slots.set_and_swap(idx, &mut taken);
            assert(opt_view(taken) == cur[0]);
            // The slot of position 0 is now empty whatever it held.
            let ghost after = self.slots@;
            assert(after =~= after.update(idx as int, None));
            let is_some = taken.is_some();
            if !is_some && self.depth < JITTER_TARGET {
                proof {
                    if k < SLOTS {
                        assert(w2[k as int] is None);
                    }
                    assert(stop_from(w2, k) == k);
                }
                // Nothing was taken, so nothing changed.
                assert(self.slots@ =~= after);
                break;
            }
            proof {
                if k == SLOTS {
                    lemma_count_nones(0);
                    assert(w2.skip(k as int) =~= Seq::<Option<Seq<u8>>>::empty());
                    assert(false);
                }
                lemma_count_skip(w2, k as int);
                lemma_stop_same(w2, k);
            }
            let ghost before = out@;
            match taken {
                Some(v) => {
                    self.depth = self.depth - 1;
                    out.push(Some(v));
                },
                None => {
                    out.push(None);
                },
            }
            assert(views(out@) =~= views(before).push(w2[k as int]));
            let nn = next.wrapping_add(1);
            self.next = Some(nn);
            proof {
                assert(nn == add16(next, 1));
                assert(next == add16(n1, k as int));
                assert(add16(n1, (k + 1) as int) == add16(add16(n1, k as int), 1)) by {
                    lemma_mod_wrap(n1 + k, 1);
                    vstd::arithmetic::div_mod::lemma_add_mod_noop(n1 + k, 1, 0x1_0000);
                    vstd::arithmetic::div_mod::lemma_mod_twice(n1 + k, 0x1_0000);
                }
                let nw = window_of(self.slots@, nn);
                let want = w2.skip((k + 1) as int) + nones(k + 1);
                assert forall|i: int| 0 <= i < SLOTS implies nw[i] == want[i] by {
                    lemma_slot_step(next, i);
                    if i < 31 {
                        lemma_slot_distinct(next, i + 1, 0);
                        assert(nw[i] == cur[i + 1]);
                    } else {
                        lemma_slot_wrap(next);
                        assert(nw[i] == None::<Seq<u8>>);
                    }
                }
                assert(nw =~= want);
                assert(w2.take((k + 1) as int) =~= w2.take(k as int).push(w2[k as int]));
                assert(views(out@) =~= old_out + w2.take((k + 1) as int));
                k = k + 1;
            }
        }
        proof {
            lemma_stop_bounds(w2, 0);
            let s = stop_from(w2, 0);
            lemma_count_concat(w2.skip(s as int), nones(s));
            lemma_count_nones(s);
        }
    }
}

/// A well-formed window has `SLOTS` positions.
pub proof fn lemma_window_len(j: Jitter)
    requires
        j.wf(),
    ensures
        j@.1.len() == SLOTS,
{
}

/// A window at rest between packets: `SLOTS` positions, and once the origin
/// is set, nothing at the position waited for and fewer than
/// `JITTER_TARGET` payloads held — anything more would already have been
/// released.
pub open spec fn settled(v: (Option<u16>, Seq<Option<Seq<u8>>>)) -> bool {
    &&& v.1.len() == SLOTS
    &&& v.0 is Some ==> v.1[0] is None && count_some(v.1) < JITTER_TARGET
}

/// The window after pushing `ops` in turn into a new one.
pub open spec fn after_pushes(ops: Seq<(u16, Seq<u8>)>) -> (Option<u16>, Seq<Option<Seq<u8>>>)
    decreases ops.len(),
{
    if ops.len() == 0 {
        (None, empty_window())
    } else {
        let v = after_pushes(ops.drop_last());
        let r = spec_push(v.0, v.1, ops.last().0, ops.last().1);
        (r.0, r.1)
    }
}

proof fn lemma_stop_found(w: Seq<Option<Seq<u8>>>, k: nat)
    requires
        k <= w.len(),
        stop_from(w, k) < w.len(),
    ensures
        w[stop_from(w, k) as int] is None,
        count_some(w.skip(stop_from(w, k) as int)) < JITTER_TARGET,
    decreases w.len() - k,
{
    if !(w[k as int] is None && count_some(w.skip(k as int)) < JITTER_TARGET) {
        lemma_stop_found(w, k + 1);
    }
}

/// One push leaves a window at rest at rest again, with its origin set.
pub proof fn lemma_push_settles(next: Option<u16>, w: Seq<Option<Seq<u8>>>, seq: u16, p: Seq<u8>)
    requires
        settled((next, w)),
    ensures
        spec_push(next, w, seq, p).0 is Some,
        settled((spec_push(next, w, seq, p).0, spec_push(next, w, seq, p).1)),
{
    lemma_count_nones(SLOTS as nat);
    let n0 = match next {
        Some(n) => n,
        None => seq,
    };
    let w0 = match next {
        Some(n) => w,
        None => empty_window(),
    };
    let ahead = dist16(n0, seq);
    if ahead < 0x8000 {
        let w1 = if ahead >= SLOTS {
            empty_window()
        } else {
            w0
        };
        let a1 = if ahead >= SLOTS {
            0
        } else {
            ahead
        };
        let w2 = w1.update(a1, Some(p));
        let s = release_len(w2);
        lemma_stop_bounds(w2, 0);
        let out = w2.skip(s as int) + nones(s);
        lemma_count_concat(w2.skip(s as int), nones(s));
        lemma_count_nones(s);
        if s < w2.len() {
            lemma_stop_found(w2, 0);
            assert(out[0] == w2[s as int]);
        } else {
            assert(out =~= nones(s));
        }
    }
}

/// However many packets have come in, in whatever order, the window is at
/// rest afterwards: `SLOTS` positions, nothing at the one waited for, and
/// fewer than `JITTER_TARGET` payloads held; and once one packet has come
/// in, the origin is set.
pub proof fn lemma_window_settles(ops: Seq<(u16, Seq<u8>)>)
    ensures
        settled(after_pushes(ops)),
        ops.len() > 0 ==> after_pushes(ops).0 is Some,
    decreases ops.len(),
{
    if ops.len() == 0 {
        lemma_count_nones(SLOTS as nat);
    } else {
        lemma_window_settles(ops.drop_last());
        let v = after_pushes(ops.drop_last());
        lemma_push_settles(v.0, v.1, ops.last().0, ops.last().1);
    }
}

/// Packets that arrive in order pass straight through: with nothing held and
/// `n` waited for, pushing `n` releases exactly that payload and waits for the
/// next one, across the wrap at 65535 as anywhere else.
pub proof fn lemma_in_order_passes_through(n: u16, p: Seq<u8>)
    ensures
        spec_push(Some(n), empty_window(), n, p) == (
            Some(add16(n, 1)),
            empty_window(),
            seq![Some(p)],
        ),
{
    let w2 = empty_window().update(0, Some(p));
    assert(w2.skip(1) =~= nones(31));
    lemma_count_nones(31);
    assert(stop_from(w2, 1) == 1);
    assert(stop_from(w2, 0) == 1);
    assert(w2.skip(1) + nones(1) =~= empty_window());
    assert(w2.take(1) =~= seq![Some(p)]);
}

/// A packet too far ahead to be reordering — the talker restarted, or the
/// network went away and came back — starts the window over at it: it is
/// played at once, and whatever was held before is dropped rather than
/// released as half a window of concealment.
pub proof fn lemma_far_ahead_restarts(n: u16, w: Seq<Option<Seq<u8>>>, seq: u16, p: Seq<u8>)
    requires
        SLOTS <= dist16(n, seq) < 0x8000,
    ensures
        spec_push(Some(n), w, seq, p) == (Some(add16(seq, 1)), empty_window(), seq![Some(p)]),
{
    lemma_in_order_passes_through(seq, p);
    assert(spec_push(Some(n), w, seq, p) == spec_push(Some(seq), empty_window(), seq, p));
}

/// A packet older than what has already been released lost its race: playing
/// it now would put it in the wrong place, so it is dropped and nothing
/// changes.
pub proof fn lemma_late_packet_dropped(n: u16, w: Seq<Option<Seq<u8>>>, seq: u16, p: Seq<u8>)
    requires
        dist16(n, seq) >= 0x8000,
    ensures
        spec_push(Some(n), w, seq, p) == (Some(n), w, Seq::<Option<Seq<u8>>>::empty()),
{
}

/// A missing frame is given up on only once enough packets are banked behind
/// it: every `None` released from a window stands where at least
/// `JITTER_TARGET` payloads were held from that position on.
pub proof fn lemma_gap_needs_bank(w: Seq<Option<Seq<u8>>>, j: nat)
    requires
        j < release_len(w),
    ensures
        w[j as int] is Some || count_some(w.skip(j as int)) >= JITTER_TARGET,
{
    lemma_stop_prefix(w, 0, j);
}

proof fn lemma_stop_prefix(w: Seq<Option<Seq<u8>>>, i: nat, j: nat)
    requires
        i <= j,
        j < stop_from(w, i),
    ensures
        w[j as int] is Some || count_some(w.skip(j as int)) >= JITTER_TARGET,
    decreases j - i,
{
    if i < j {
        if i < w.len() && !(w[i as int] is None && count_some(w.skip(i as int)) < JITTER_TARGET) {
            lemma_stop_prefix(w, i + 1, j);
        }
    }
}

/// Shifting every sequence number by the same amount changes nothing but the
/// numbers: the wrap at 65535 is not a special place.
pub proof fn lemma_shift_invariant(
    next: Option<u16>,
    w: Seq<Option<Seq<u8>>>,
    seq: u16,
    p: Seq<u8>,
    k: u16,
)
    ensures
        ({
            let a = spec_push(next, w, seq, p);
            let shifted_next = match next {
                Some(n) => Some(add16(n, k as int)),
                None => None,
            };
            let b = spec_push(shifted_next, w, add16(seq, k as int), p);
            &&& b.1 == a.1
            &&& b.2 == a.2
            &&& b.0 == Some(add16(a.0->0, k as int))
        }),
{
    let n0 = match next {
        Some(n) => n,
        None => seq,
    };
    lemma_dist_shift(n0, seq, k);
    let ahead = dist16(n0, seq);
    if ahead < 0x8000 {
        let n1 = if ahead >= SLOTS {
            seq
        } else {
            n0
        };
        let w1 = if ahead >= SLOTS {
            empty_window()
        } else {
            match next {
                Some(n) => w,
                None => empty_window(),
            }
        };
        let a1 = if ahead >= SLOTS {
            0
        } else {
            ahead
        };
        let s = release_len(w1.update(a1, Some(p)));
        lemma_add_comm(n1, s as int, k as int);
    }
}

proof fn lemma_dist_shift(a: u16, b: u16, k: u16)
    ensures
        dist16(add16(a, k as int), add16(b, k as int)) == dist16(a, b),
{
    let x = add16(a, k as int);
    let y = add16(b, k as int);
    assert(x == (a + k) % 0x1_0000);
    assert(y == (b + k) % 0x1_0000);
    if a + k < 0x1_0000 {
        vstd::arithmetic::div_mod::lemma_small_mod((a + k) as nat, 0x1_0000);
    } else {
        vstd::arithmetic::div_mod::lemma_mod_multiples_vanish(1, a + k - 0x1_0000, 0x1_0000);
        vstd::arithmetic::div_mod::lemma_small_mod((a + k - 0x1_0000) as nat, 0x1_0000);
    }
    if b + k < 0x1_0000 {
        vstd::arithmetic::div_mod::lemma_small_mod((b + k) as nat, 0x1_0000);
    } else {
        vstd::arithmetic::div_mod::lemma_mod_multiples_vanish(1, b + k - 0x1_0000, 0x1_0000);
        vstd::arithmetic::div_mod::lemma_small_mod((b + k - 0x1_0000) as nat, 0x1_0000);
    }
}

proof fn lemma_mod_add(x: int, k: int, m: int)
    requires
        x >= 0,
        m > 0,
    ensures
        ((x % m) + k) % m == (x + k) % m,
{
    vstd::arithmetic::div_mod::lemma_fundamental_div_mod(x, m);
    let q = x / m;
    let r = x % m;
    assert(x + k == m * q + (r + k));
    vstd::arithmetic::div_mod::lemma_mod_multiples_vanish(q, r + k, m);
}

proof fn lemma_add_comm(n: u16, s: int, k: int)
    requires
        s >= 0,
        k >= 0,
    ensures
        add16(add16(n, s), k) == add16(add16(n, k), s),
{
    lemma_mod_add(n + s, k, 0x1_0000);
    lemma_mod_add(n + k, s, 0x1_0000);
    assert((n + s) + k == (n + k) + s);
}

} // verus!
