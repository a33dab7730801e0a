//! Sliding-window retransmission queue.
//!
//! The queue holds payload chunks that were sent but not yet acknowledged.
//! Identifiers are assigned in increasing order modulo the window size
//! `2^B` and the live identifiers always form a contiguous circular range
//! starting at `head`.  `push` appends a chunk, `check` acknowledges every
//! chunk through a given identifier, and `list` replays the chunks that come
//! circularly after a cursor.

use vstd::prelude::*;
use vstd::arithmetic::div_mod::{
    lemma_add_mod_noop_right,
    lemma_add_mod_noop,
    lemma_mod_multiples_vanish,
    lemma_small_mod,
    lemma_sub_mod_noop,
};
use vstd::arithmetic::power2::{lemma2_to64, lemma_pow2_strictly_increases, pow2};
use vstd::bits::lemma_u64_shl_is_mul;
use std::collections::VecDeque;

verus! {

/// Why a queue operation was refused.
#[derive(Debug, PartialEq, Eq, Structural, Clone, Copy)]
pub enum QueueError {
    /// `push` on a queue whose window is exhausted.
    Full,
    /// `check` of an identifier that is not live.
    InvalidAck,
    /// `list` from a cursor that is neither live nor just before the live range.
    InvalidCursor,
}

/// Mathematical model of a sliding-window queue: the identifier of the
/// oldest live entry, the window modulus `2^B`, and the live payloads in
/// assignment order.
pub struct QueueView {
    pub head: int,
    pub modulus: int,
    pub entries: Seq<Seq<u8>>,
}

impl QueueView {
    /// The well-formed states: the head is an identifier, at most a full
    /// window is live, and every payload fits a 16-bit length field.
    pub open spec fn wf(self) -> bool {
        &&& 2 <= self.modulus <= 0x1_0000_0000
        &&& 0 <= self.head < self.modulus
        &&& self.entries.len() <= self.modulus
        &&& forall|i: int|
            0 <= i < self.entries.len() ==> #[trigger] self.entries[i].len() <= 0xFFFF
    }

    /// How many positions `id` lies circularly after `head`.
    pub open spec fn dist(self, id: u32) -> int {
        (id - self.head) % self.modulus
    }

    /// The identifier assigned to the entry at position `i`.
    pub open spec fn id_at(self, i: int) -> u32 {
        ((self.head + i) % self.modulus) as u32
    }

    /// Whether `id` names a live entry.
    pub open spec fn is_live(self, id: u32) -> bool {
        self.dist(id) < self.entries.len()
    }

    /// Whether a push is accepted: the window is not exhausted.
    pub open spec fn push_ok(self) -> bool {
        self.entries.len() < self.modulus
    }

    /// The identifier a successful push assigns.
    pub open spec fn push_id(self) -> u32 {
        self.id_at(self.entries.len() as int)
    }

    /// The state after a successful push of `p`.
    pub open spec fn push_view(self, p: Seq<u8>) -> QueueView {
        QueueView { entries: self.entries.push(p), ..self }
    }

    /// Whether acknowledging through `id` is accepted: `id` must be live.
    pub open spec fn check_ok(self, id: u32) -> bool {
        self.is_live(id)
    }

    /// The state after acknowledging through `id`: every entry up to and
    /// including `id` is dropped and the head moves past `id`.
    pub open spec fn check_view(self, id: u32) -> QueueView {
        QueueView {
            head: (id + 1) % self.modulus,
            entries: self.entries.skip(self.dist(id) + 1),
            ..self
        }
    }

    /// How many leading entries a listing from `cursor` skips.
    pub open spec fn list_skip(self, cursor: u32) -> int {
        (cursor - self.head + 1) % self.modulus
    }

    /// Whether listing from `cursor` is accepted: the cursor is live or
    /// lies circularly just before the live range.
    pub open spec fn list_ok(self, cursor: u32) -> bool {
        self.list_skip(cursor) <= self.entries.len()
    }

    /// The listed entries: identifier and payload of everything circularly
    /// after `cursor`, in assignment order.
    pub open spec fn list_view(self, cursor: u32) -> Seq<(u32, Seq<u8>)> {
        Seq::new(
            (self.entries.len() - self.list_skip(cursor)) as nat,
            |i: int|
                (
                    self.id_at(self.list_skip(cursor) + i),
                    self.entries[self.list_skip(cursor) + i],
                ),
        )
    }
}

/// The state after acknowledging each identifier of `ids` in order.
pub open spec fn check_seq(v: QueueView, ids: Seq<u32>) -> QueueView
    decreases ids.len(),
{
    if ids.len() == 0 {
        v
    } else {
        check_seq(v.check_view(ids[0]), ids.skip(1))
    }
}

/// Whether every acknowledgement of `ids`, applied in order, is accepted.
pub open spec fn checks_ok(v: QueueView, ids: Seq<u32>) -> bool
    decreases ids.len(),
{
    if ids.len() == 0 {
        true
    } else {
        v.check_ok(ids[0]) && checks_ok(v.check_view(ids[0]), ids.skip(1))
    }
}

/// Acknowledging one more identifier after a run of acknowledgements is
/// the run folded first, then the extra acknowledgement.
pub proof fn lemma_check_seq_push(v: QueueView, ids: Seq<u32>, x: u32)
    ensures
        check_seq(v, ids.push(x)) == check_seq(v, ids).check_view(x),
        checks_ok(v, ids.push(x)) == (checks_ok(v, ids) && check_seq(v, ids).check_ok(x)),
    decreases ids.len(),
{
    if ids.len() == 0 {
        assert(ids.push(x)[0] == x);
        assert(ids.push(x).skip(1) =~= Seq::<u32>::empty());
        assert(check_seq(v, ids.push(x)) == check_seq(v.check_view(x), ids.push(x).skip(1)));
        assert(check_seq(v.check_view(x), ids.push(x).skip(1)) == v.check_view(x));
        assert(check_seq(v, ids) == v);
        assert(checks_ok(v, ids.push(x)) == (v.check_ok(x) && checks_ok(
            v.check_view(x),
            ids.push(x).skip(1),
        )));
        assert(checks_ok(v.check_view(x), ids.push(x).skip(1)));
    } else {
        assert(ids.push(x)[0] == ids[0]);
        assert(ids.push(x).skip(1) =~= ids.skip(1).push(x));
        lemma_check_seq_push(v.check_view(ids[0]), ids.skip(1), x);
        assert(check_seq(v, ids.push(x)) == check_seq(v.check_view(ids[0]), ids.skip(1).push(x)));
        assert(check_seq(v, ids) == check_seq(v.check_view(ids[0]), ids.skip(1)));
        assert(checks_ok(v, ids.push(x)) == (v.check_ok(ids[0]) && checks_ok(
            v.check_view(ids[0]),
            ids.skip(1).push(x),
        )));
        assert(checks_ok(v, ids) == (v.check_ok(ids[0]) && checks_ok(
            v.check_view(ids[0]),
            ids.skip(1),
        )));
    }
}

/// The identifiers a listing from `cursor` returns, in order.
pub open spec fn listed_ids(v: QueueView, cursor: u32) -> Seq<u32> {
    Seq::new(v.list_view(cursor).len(), |i: int| v.list_view(cursor)[i].0)
}

/// The identifiers of the entries at positions `s..` in assignment order.
spec fn tail_ids(v: QueueView, s: int) -> Seq<u32> {
    Seq::new((v.entries.len() - s) as nat, |i: int| v.id_at(s + i))
}

/// The entry at position `i` carries the `i`-th identifier after the head.
proof fn lemma_dist_id_at(v: QueueView, i: int)
    requires
        v.wf(),
        0 <= i < v.modulus,
    ensures
        v.dist(v.id_at(i)) == i,
{
    lemma_small_mod(v.head as nat, v.modulus as nat);
    lemma_sub_mod_noop(v.head + i, v.head, v.modulus);
    lemma_small_mod(i as nat, v.modulus as nat);
}

/// How the circular distance of any identifier moves when everything
/// through `k` is acknowledged.
proof fn lemma_dist_after_check(v: QueueView, k: u32, id: u32)
    requires
        v.wf(),
        v.check_ok(k),
    ensures
        v.check_view(k).dist(id) == if v.dist(id) > v.dist(k) {
            v.dist(id) - v.dist(k) - 1
        } else {
            v.dist(id) - v.dist(k) - 1 + v.modulus
        },
{
    let m = v.modulus;
    let h = v.head;
    let a = v.dist(id);
    let d = v.dist(k);
    let h2 = (k + 1) % m;
    // (id - h2) % m == (id - k - 1) % m
    lemma_small_mod(h2 as nat, m as nat);
    lemma_sub_mod_noop(id as int, h2, m);
    lemma_sub_mod_noop(id as int, k + 1, m);
    assert((id - h2) % m == (id - k - 1) % m);
    // (id - k - 1) % m == (a - d - 1) % m
    lemma_sub_mod_noop(id - h, k - h, m);
    assert(((id - h) - (k - h)) % m == (a - d) % m);
    lemma_sub_mod_noop((id - h) - (k - h), 1, m);
    lemma_sub_mod_noop(a - d, 1, m);
    lemma_small_mod(1, m as nat);
    assert((id - k - 1) % m == (a - d - 1) % m);
    if a > d {
        lemma_small_mod((a - d - 1) as nat, m as nat);
    } else {
        lemma_mod_multiples_vanish(1, a - d - 1, m);
        lemma_small_mod((a - d - 1 + m) as nat, m as nat);
    }
}

/// Acknowledging through a live identifier leaves a well-formed queue.
pub proof fn lemma_check_view_wf(v: QueueView, k: u32)
    requires
        v.wf(),
        v.check_ok(k),
    ensures
        v.check_view(k).wf(),
{
    assert forall|i: int| 0 <= i < v.check_view(k).entries.len() implies #[trigger] v.check_view(
        k,
    ).entries[i].len() <= 0xFFFF by {
        assert(v.check_view(k).entries[i] == v.entries[i + v.dist(k) + 1]);
    }
}

/// After acknowledging through `k`, the head is `k + 1` modulo the window
/// and the live identifiers are exactly those previously live identifiers
/// that lie circularly after `k`.
pub proof fn lemma_check_live_ids(v: QueueView, k: u32)
    requires
        v.wf(),
        v.check_ok(k),
    ensures
        v.check_view(k).wf(),
        v.check_view(k).head == (k + 1) % v.modulus,
        v.check_view(k).entries.len() == v.entries.len() - v.dist(k) - 1,
        forall|id: u32| #[trigger]
            v.check_view(k).is_live(id) <==> v.is_live(id) && v.dist(id) > v.dist(k),
{
    lemma_check_view_wf(v, k);
    assert forall|id: u32| #[trigger]
        v.check_view(k).is_live(id) <==> v.is_live(id) && v.dist(id) > v.dist(k) by {
        lemma_dist_after_check(v, k, id);
    }
}

/// Acknowledging the same identifier a second time is refused: after
/// `check(k)` the identifier `k` is no longer live, so the repeated call
/// fails with `InvalidAck` and (by `check`'s contract) changes nothing.
pub proof fn lemma_ack_twice_rejected(v: QueueView, k: u32)
    requires
        v.wf(),
        v.check_ok(k),
    ensures
        !v.check_view(k).check_ok(k),
{
    lemma_dist_after_check(v, k, k);
}

/// Listing from a cursor and then acknowledging every listed identifier in
/// order is accepted and leaves the queue exactly as a single
/// acknowledge-through of the last listed identifier would: empty, with the
/// head one past that identifier.
pub proof fn lemma_list_then_ack_all(v: QueueView, cursor: u32)
    requires
        v.wf(),
        v.list_ok(cursor),
        v.list_view(cursor).len() > 0,
    ensures
        checks_ok(v, listed_ids(v, cursor)),
        check_seq(v, listed_ids(v, cursor)) == v.check_view(
            listed_ids(v, cursor).last(),
        ),
        check_seq(v, listed_ids(v, cursor)).entries.len() == 0,
{
    let s = v.list_skip(cursor);
    assert(listed_ids(v, cursor) =~= tail_ids(v, s));
    lemma_ack_run(v, s);
    let last = listed_ids(v, cursor).last();
    assert(last == v.id_at(v.entries.len() - 1));
    lemma_dist_id_at(v, v.entries.len() - 1);
    assert(v.check_view(last).entries.len() == 0);
}

/// Acknowledging the entries at positions `s..` one by one, each through
/// its own identifier, is accepted and ends in the same state as a single
/// acknowledge-through of the newest identifier.
proof fn lemma_ack_run(v: QueueView, s: int)
    requires
        v.wf(),
        0 <= s < v.entries.len(),
    ensures
        checks_ok(v, tail_ids(v, s)),
        check_seq(v, tail_ids(v, s)) == v.check_view(v.id_at(v.entries.len() - 1)),
    decreases v.entries.len() - s,
{
    let m = v.modulus;
    let h = v.head;
    let n = v.entries.len() as int;
    let first = v.id_at(s);
    lemma_dist_id_at(v, s);
    assert(v.check_ok(first));
    let v1 = v.check_view(first);
    lemma_check_view_wf(v, first);
    // The head after the acknowledgement sits s + 1 past the old head.
    lemma_small_mod(((h + s) % m) as nat, m as nat);
    lemma_add_mod_noop(h + s, 1, m);
    lemma_small_mod(1, m as nat);
    assert(v1.head == (h + s + 1) % m);
    let t = tail_ids(v, s);
    assert(t.len() == n - s);
    assert(t[0] == first);
    if s == n - 1 {
        assert(t.skip(1) =~= Seq::<u32>::empty());
        assert(check_seq(v, t) == check_seq(v1, t.skip(1)));
        assert(check_seq(v1, t.skip(1)) == v1);
        assert(checks_ok(v1, t.skip(1)));
        assert(checks_ok(v, t));
    } else {
        assert forall|i: int| 0 <= i < n - s - 1 implies v1.id_at(i) == v.id_at(s + 1 + i) by {
            lemma_add_mod_noop(h + s + 1, i, m);
            lemma_small_mod(i as nat, m as nat);
            lemma_small_mod(((h + s + 1 + i) % m) as nat, m as nat);
            assert(((h + s + 1) % m + i) % m == (h + s + 1 + i) % m);
        }
        assert(t.skip(1) =~= tail_ids(v1, 0));
        lemma_ack_run(v1, 0);
        assert(check_seq(v, t) == check_seq(v1, t.skip(1)));
        assert(checks_ok(v, t) == (v.check_ok(first) && checks_ok(v1, t.skip(1))));
        let lastv = v.id_at(n - 1);
        let last1 = v1.id_at(v1.entries.len() - 1);
        assert(last1 == lastv);
        // Both final states are the empty queue with head one past `lastv`.
        lemma_dist_id_at(v, n - 1);
        lemma_dist_id_at(v1, v1.entries.len() - 1);
        let fin = v1.check_view(last1);
        assert(fin.entries =~= v.check_view(lastv).entries);
        assert(fin == v.check_view(lastv));
        assert(check_seq(v, t) == check_seq(v1, tail_ids(v1, 0)));
    }
}

/// What a listing replays is ordered: the first identifier is one past the
/// cursor, and each further identifier is one past its predecessor, modulo
/// the window.
pub proof fn lemma_listed_ids_consecutive(v: QueueView, cursor: u32)
    requires
        v.wf(),
        v.list_ok(cursor),
    ensures
        v.list_view(cursor).len() > 0 ==> v.list_view(cursor)[0].0 as int == (cursor + 1)
            % v.modulus,
        forall|i: int|
            0 <= i < v.list_view(cursor).len() - 1 ==> (#[trigger] v.list_view(cursor)[i + 1].0)
                as int == (v.list_view(cursor)[i].0 + 1) % v.modulus,
{
    let m = v.modulus;
    let h = v.head;
    let s = v.list_skip(cursor);
    if v.list_view(cursor).len() > 0 {
        lemma_add_mod_noop_right(h, cursor - h + 1, m);
        assert((h + s) % m == (cursor + 1) % m);
    }
    assert forall|i: int| 0 <= i < v.list_view(cursor).len() - 1 implies (#[trigger] v.list_view(
        cursor,
    )[i + 1].0) as int == (v.list_view(cursor)[i].0 + 1) % m by {
        lemma_small_mod(1, m as nat);
        lemma_add_mod_noop(h + s + i, 1, m);
        assert(((h + s + i) % m + 1) % m == (h + s + i + 1) % m);
    }
}

/// Per-direction sliding-window queue of unacknowledged payload chunks.
pub struct Queue {
    q: VecDeque<Vec<u8>>,
    head: u32,
    max: u32,
}

impl View for Queue {
    type V = QueueView;

    closed spec fn view(&self) -> QueueView {
        QueueView {
            head: self.head as int,
            modulus: self.max as int + 1,
            entries: self.q.deep_view(),
        }
    }
}

impl Queue {
    /// A queue is well formed when its model is.
    pub open spec fn wf(self) -> bool {
        self@.wf()
    }

    /// Creates an empty queue for window bits `bit`: identifiers wrap
    /// modulo `2^bit` and the head starts at 1.
    pub fn new(bit: u8) -> (r: Queue)
        requires
            1 <= bit <= 32,
        ensures
            r.wf(),
            r@.head == 1,
            r@.entries =~= Seq::<Seq<u8>>::empty(),
            r@.modulus == pow2(bit as nat),
    {
        proof {
            lemma2_to64();
            lemma_pow2_strictly_increases(0, bit as nat);
            if (bit as nat) < 32 {
                lemma_pow2_strictly_increases(bit as nat, 32);
            }
            lemma_u64_shl_is_mul(1u64, bit as u64);
        }
        let m: u64 = 1u64 << (bit as u64);
        Queue { q: VecDeque::new(), head: 1, max: (m - 1) as u32 }
    }

    /// Adds two identifiers modulo the window.
    pub fn add(&self, a: u32, b: u32) -> (r: u32)
        requires
            self.wf(),
        ensures
            r as int == (a + b) % self@.modulus,
    {
        let m: u64 = self.max as u64 + 1;
        ((a as u64 + b as u64) % m) as u32
    }

    /// Subtracts two identifiers modulo the window.
    pub fn sub(&self, a: u32, b: u32) -> (r: u32)
        requires
            self.wf(),
        ensures
            r as int == (a - b) % self@.modulus,
    {
        let m: u64 = self.max as u64 + 1;
        let r = ((a as u64 % m + m - b as u64 % m) % m) as u32;
        proof {
            lemma_mod_multiples_vanish(1, a as int % m as int - b as int % m as int, m as int);
            lemma_sub_mod_noop(a as int, b as int, m as int);
        }
        r
    }

    /// The number of live entries.
    pub fn len(&self) -> (r: u32)
        requires
            self.wf(),
        ensures
            self@.entries.len() <= u32::MAX ==> r == self@.entries.len(),
            r as int == self@.entries.len() as int % 0x1_0000_0000,
    {
        let n = self.q.len();
        if n as u64 <= u32::MAX as u64 {
            n as u32
        } else {
            0
        }
    }

    /// The identifier of the oldest live entry (the next to be popped by an
    /// acknowledgement).
    pub fn head(&self) -> (r: u32)
        requires
            self.wf(),
        ensures
            r as int == self@.head,
    {
        self.head
    }

    /// Turns a position into the identifier assigned at that position.
    pub fn vidx(&self, idx: u32) -> (r: u32)
        requires
            self.wf(),
        ensures
            r as int == (idx + self@.head) % self@.modulus,
    {
        self.add(idx, self.head)
    }

    /// Turns an identifier into its circular distance from the head.
    pub fn idx(&self, vidx: u32) -> (r: u32)
        requires
            self.wf(),
        ensures
            r as int == self@.dist(vidx),
    {
        self.sub(vidx, self.head)
    }

    /// Appends a chunk and returns its assigned identifier, or `Full` when
    /// a whole window of chunks is already live.
    pub fn push(&mut self, buf: Vec<u8>) -> (r: Result<u32, QueueError>)
        requires
            old(self).wf(),
            buf@.len() <= 0xFFFF,
        ensures
            final(self).wf(),
            match r {
                Ok(id) => {
                    &&& old(self)@.push_ok()
                    &&& id == old(self)@.push_id()
                    &&& final(self)@ == old(self)@.push_view(buf@)
                },
                Err(e) => {
                    &&& e == QueueError::Full
                    &&& !old(self)@.push_ok()
                    &&& final(self)@ == old(self)@
                },
            },
    {
        if self.q.len() as u64 > self.max as u64 {
            return Err(QueueError::Full);
        }
        let n: u32 = self.len();
        self.q.push_back(buf);
        proof {
            assert(buf.deep_view() =~= buf@);
            assert(self.q.deep_view() =~= old(self).q.deep_view().push(buf@));
            assert(self@ == old(self)@.push_view(buf@));
        }
        let id = self.vidx(n);
        Ok(id)
    }

    /// Acknowledges every live entry through `vidx`: those entries are
    /// dropped and the head moves to `vidx + 1` modulo the window.  Fails
    /// with `InvalidAck`, leaving the queue unchanged, when `vidx` is not
    /// live.
    pub fn check(&mut self, vidx: u32) -> (r: Result<(), QueueError>)
        requires
            old(self).wf(),
        ensures
            final(self).wf(),
            match r {
                Ok(()) => {
                    &&& old(self)@.check_ok(vidx)
                    &&& final(self)@ == old(self)@.check_view(vidx)
                },
                Err(e) => {
                    &&& e == QueueError::InvalidAck
                    &&& !old(self)@.check_ok(vidx)
                    &&& final(self)@ == old(self)@
                },
            },
    {
        let idx = self.idx(vidx);
        if self.q.len() as u64 <= idx as u64 {
            return Err(QueueError::InvalidAck);
        }
        let new_head = self.add(vidx, 1);
        let tail = self.q.split_off(idx as usize + 1);
        self.q = tail;
        self.head = new_head;
        proof {
            assert(self.q.deep_view() =~= old(self)@.entries.skip(old(self)@.dist(vidx) + 1));
            assert(self@ == old(self)@.check_view(vidx));
        }
        Ok(())
    }

    /// Lists every live entry circularly after `cursor`, in assignment
    /// order.  A cursor equal to the identifier just before the head yields
    /// the whole queue; the most recent identifier yields an empty list; a
    /// cursor outside that range fails with `InvalidCursor`.
    pub fn list(&self, vidx: u32) -> (r: Result<Vec<(u32, Vec<u8>)>, QueueError>)
        requires
            self.wf(),
        ensures
            match r {
                Ok(l) => {
                    &&& self@.list_ok(vidx)
                    &&& l.deep_view() == self@.list_view(vidx)
                },
                Err(e) => {
                    &&& e == QueueError::InvalidCursor
                    &&& !self@.list_ok(vidx)
                },
            },
    {
        let idx = self.add(self.idx(vidx), 1);
        proof {
            lemma_small_mod(1, self@.modulus as nat);
            lemma_add_mod_noop(vidx - self@.head, 1, self@.modulus);
            assert((self@.dist(vidx) + 1) % self@.modulus == self@.list_skip(vidx));
        }
        if (self.q.len() as u64) < idx as u64 {
            return Err(QueueError::InvalidCursor);
        }
        let mut ret: Vec<(u32, Vec<u8>)> = Vec::new();
        let mut i: usize = idx as usize;
        while i < self.q.len()
            invariant
                self.wf(),
                self@.list_skip(vidx) == idx as int,
                idx as int <= i as int <= self@.entries.len(),
                ret@.len() == i - idx as int,
                forall|j: int|
                    0 <= j < ret@.len() ==> (#[trigger] ret@[j]).0 == self@.list_view(vidx)[j].0
                        && ret@[j].1@ == self@.list_view(vidx)[j].1,
            decreases self@.entries.len() - i as int,
        {
            let id = self.vidx(i as u32);
            let buf = (&self.q[i]).clone();
            proof {
                assert(buf@ =~= self@.entries[i as int]);
                let lv = self@.list_view(vidx);
                let k = i - idx as int;
                assert(lv[k].1 == self@.entries[i as int]);
                assert(lv[k].0 == id);
            }
            ret.push((id, buf));
            i = i + 1;
        }
        proof {
            let lv = self@.list_view(vidx);
            assert forall|j: int| 0 <= j < ret@.len() implies ret.deep_view()[j] == lv[j] by {
                assert(ret@[j].1.deep_view() =~= ret@[j].1@);
            }
            assert(ret.deep_view() =~= lv);
        }
        Ok(ret)
    }
}

} // verus!
