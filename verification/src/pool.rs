//! Server-side connection pool bookkeeping.
//!
//! The pool keeps one entry per client identity (the SubjectPublicKeyInfo
//! bytes of its certificate) so that the upstream socket, the transmit
//! queue and the last-ack cursor survive QUIC disconnects.  Those shared
//! resources live with the asynchronous drivers; the pool decides, under
//! one serialization, which identities exist, which entry a session holds,
//! when an idle entry may be collected, and how the control plane sees and
//! kills entries.
//!
//! An entry is either *held* by exactly one session (no last-active stamp)
//! or *idle* (stamped with the time its last holder released it).

use vstd::prelude::*;
use crate::ident::{hex_of, id_prefix_len, pubkey_to_id};

verus! {

/// Why a pool operation was refused.
#[derive(Debug, PartialEq, Eq, Structural, Clone, Copy)]
pub enum PoolError {
    /// No entry has the given key.
    NotFound,
}

/// What the control plane's kill request came to.
#[derive(Debug, PartialEq, Eq, Structural, Clone, Copy)]
pub enum KillOutcome {
    /// The entry was removed.
    Killed,
    /// A session holds the entry; nothing was changed.
    InUse,
    /// No entry has the given identifier.
    NotFound,
}

/// Bookkeeping for one client identity.
pub struct PoolEntry {
    /// The SubjectPublicKeyInfo bytes of the client's certificate.
    pub key: Vec<u8>,
    /// The display name from the certificate's CommonName, if any.
    pub name: Option<String>,
    /// Whether a session holds the entry right now.
    pub held: bool,
    /// When the last holder released the entry; `None` while a session
    /// holds it.
    pub last_active: Option<u64>,
}

/// One row of the control plane's connection listing.
pub struct ConnRow {
    /// The short hex identifier derived from the key.
    pub id: Vec<u8>,
    /// The display name, if any.
    pub name: Option<String>,
    /// Seconds since the entry was released, or `None` while it is held.
    pub last_active: Option<u64>,
    /// How many chunks the entry's transmit queue holds.
    pub pkt_buf: u32,
}

/// The short identifier of an entry's key.
pub open spec fn entry_id(e: PoolEntry) -> Seq<u8> {
    hex_of(e.key@.take(id_prefix_len(e.key@)))
}

/// The index of the first entry with the given key, or -1.
pub open spec fn spec_find(s: Seq<PoolEntry>, key: Seq<u8>) -> int
    decreases s.len(),
{
    if s.len() == 0 {
        -1
    } else if s[0].key@ == key {
        0
    } else {
        let r = spec_find(s.skip(1), key);
        if r < 0 {
            -1
        } else {
            1 + r
        }
    }
}

/// The index of the first entry whose short identifier is `id`, or -1.
pub open spec fn spec_find_by_id(s: Seq<PoolEntry>, id: Seq<u8>) -> int
    decreases s.len(),
{
    if s.len() == 0 {
        -1
    } else if entry_id(s[0]) == id {
        0
    } else {
        let r = spec_find_by_id(s.skip(1), id);
        if r < 0 {
            -1
        } else {
            1 + r
        }
    }
}

/// What `spec_find` finds: the first index whose key matches, or -1 when
/// no key matches.
proof fn lemma_spec_find_char(s: Seq<PoolEntry>, key: Seq<u8>)
    ensures
        spec_find(s, key) >= 0 ==> spec_find(s, key) < s.len() && s[spec_find(s, key)].key@ == key,
        spec_find(s, key) < 0 ==> spec_find(s, key) == -1,
        forall|j: int| 0 <= j < s.len() && s[j].key@ == key ==> 0 <= spec_find(s, key) <= j,
    decreases s.len(),
{
    if s.len() > 0 {
        lemma_spec_find_char(s.skip(1), key);
        assert forall|j: int| 1 <= j < s.len() implies s.skip(1)[j - 1] == s[j] by {}
    }
}

/// What `spec_find_by_id` finds: the first index whose short identifier
/// matches, or -1 when none matches.
proof fn lemma_spec_find_by_id_char(s: Seq<PoolEntry>, id: Seq<u8>)
    ensures
        spec_find_by_id(s, id) >= 0 ==> spec_find_by_id(s, id) < s.len() && entry_id(
            s[spec_find_by_id(s, id)],
        ) == id,
        spec_find_by_id(s, id) < 0 ==> spec_find_by_id(s, id) == -1,
        forall|j: int| 0 <= j < s.len() && entry_id(s[j]) == id ==> 0 <= spec_find_by_id(s, id) <= j,
    decreases s.len(),
{
    if s.len() > 0 {
        lemma_spec_find_by_id_char(s.skip(1), id);
        assert forall|j: int| 1 <= j < s.len() implies s.skip(1)[j - 1] == s[j] by {}
    }
}

/// Whether an idle entry's age at time `now` exceeds `timeout`.
pub open spec fn spec_expired(e: PoolEntry, now: u64, timeout: u64) -> bool {
    match e.last_active {
        Some(t) => t <= now && now - t > timeout,
        None => false,
    }
}

/// Byte-vector equality, the pool's key comparison.
fn keys_equal(a: &Vec<u8>, b: &Vec<u8>) -> (r: bool)
    ensures
        r == (a@ == b@),
{
    if a.len() != b.len() {
        return false;
    }
    let mut i: usize = 0;
    while i < a.len()
        invariant
            a@.len() == b@.len(),
            i <= a@.len(),
            forall|j: int| 0 <= j < i ==> a@[j] == b@[j],
        decreases a@.len() - i as int,
    {
        if a[i] != b[i] {
            return false;
        }
        i = i + 1;
    }
    proof {
        assert(a@ =~= b@);
    }
    true
}

/// Server-side pool of client identities, keyed by public key.
pub struct ConnPool {
    hold_timeout: u64,
    entries: Vec<PoolEntry>,
}

impl ConnPool {
    /// The entries, in insertion order.
    pub closed spec fn entry_seq(self) -> Seq<PoolEntry> {
        self.entries@
    }

    /// The configured idle eviction age, in seconds.
    pub closed spec fn spec_hold_timeout(self) -> u64 {
        self.hold_timeout
    }

    /// The pool invariant: keys are unique, and a held entry carries no
    /// last-active stamp.
    pub open spec fn wf(self) -> bool {
        &&& forall|i: int, j: int|
            0 <= i < j < self.entry_seq().len() ==> self.entry_seq()[i].key@
                != self.entry_seq()[j].key@
        &&& forall|i: int|
            0 <= i < self.entry_seq().len() ==> (#[trigger] self.entry_seq()[i]).held
                ==> self.entry_seq()[i].last_active is None
    }

    /// An empty pool with the given idle eviction age.
    pub fn new(hold_timeout: u64) -> (r: ConnPool)
        ensures
            r.wf(),
            r.entry_seq() =~= Seq::<PoolEntry>::empty(),
            r.spec_hold_timeout() == hold_timeout,
    {
        ConnPool { hold_timeout, entries: Vec::new() }
    }

    /// Finds the position of the entry with the given key.
    fn find(&self, pubkey: &Vec<u8>) -> (r: Option<usize>)
        ensures
            match r {
                Some(i) => i as int == spec_find(self.entry_seq(), pubkey@),
                None => spec_find(self.entry_seq(), pubkey@) == -1,
            },
    {
        let mut i: usize = 0;
        while i < self.entries.len()
            invariant
                i <= self.entry_seq().len(),
                forall|j: int| 0 <= j < i ==> (#[trigger] self.entry_seq()[j]).key@ != pubkey@,
            decreases self.entry_seq().len() - i as int,
        {
            if keys_equal(&self.entries[i].key, pubkey) {
                proof {
                    lemma_spec_find_char(self.entry_seq(), pubkey@);
                }
                return Some(i);
            }
            i = i + 1;
        }
        proof {
            lemma_spec_find_char(self.entry_seq(), pubkey@);
            if spec_find(self.entry_seq(), pubkey@) >= 0 {
                assert(self.entry_seq()[spec_find(self.entry_seq(), pubkey@)].key@ == pubkey@);
            }
        }
        None
    }

    /// Whether an entry with the given key exists.
    pub fn get(&self, pubkey: &Vec<u8>) -> (r: bool)
        ensures
            r == (spec_find(self.entry_seq(), pubkey@) >= 0),
    {
        proof {
            lemma_spec_find_char(self.entry_seq(), pubkey@);
        }
        self.find(pubkey).is_some()
    }

    /// Inserts bookkeeping for a new identity, stamped idle at `now`; an
    /// existing entry for the key is replaced.
    pub fn insert(&mut self, pubkey: Vec<u8>, name: Option<String>, now: u64)
        requires
            old(self).wf(),
        ensures
            final(self).wf(),
            final(self).spec_hold_timeout() == old(self).spec_hold_timeout(),
            ({
                let i = spec_find(old(self).entry_seq(), pubkey@);
                let e = final(self).entry_seq()[if i >= 0 {
                    i
                } else {
                    old(self).entry_seq().len() as int
                }];
                &&& (if i >= 0 {
                    final(self).entry_seq() == old(self).entry_seq().update(i, e)
                } else {
                    final(self).entry_seq() == old(self).entry_seq().push(e)
                })
                &&& e.key@ == pubkey@
                &&& e.name == name
                &&& e.held == false
                &&& e.last_active == Some(now)
            }),
    {
        let entry = PoolEntry { key: pubkey, name, held: false, last_active: Some(now) };
        let ghost pre = self.entry_seq();
        let ghost key = entry.key@;
        proof {
            lemma_spec_find_char(pre, key);
        }
        match self.find(&entry.key) {
            Some(i) => {
                self.entries.remove(i);
                self.entries.insert(i, entry);
                proof {
                    assert(self.entry_seq() =~= pre.update(i as int, self.entry_seq()[i as int]));
                    assert forall|a: int, b: int|
                        0 <= a < b < self.entry_seq().len() implies self.entry_seq()[a].key@
                        != self.entry_seq()[b].key@ by {
                        assert(pre[a].key@ != pre[b].key@);
                        if a == i as int {
                            assert(pre[b].key@ != key);
                        }
                        if b == i as int {
                            assert(pre[a].key@ != key);
                        }
                    }
                }
            },
            None => {
                self.entries.push(entry);
                proof {
                    assert forall|a: int, b: int|
                        0 <= a < b < self.entry_seq().len() implies self.entry_seq()[a].key@
                        != self.entry_seq()[b].key@ by {
                        if b < pre.len() {
                            assert(pre[a].key@ != pre[b].key@);
                        } else {
                            if pre[a].key@ == key {
                                assert(0 <= spec_find(pre, key));
                            }
                        }
                    }
                }
            },
        }
    }

    /// Drops the entry at a known position.
    fn remove_at(&mut self, i: usize)
        requires
            old(self).wf(),
            i < old(self).entry_seq().len(),
        ensures
            final(self).wf(),
            final(self).spec_hold_timeout() == old(self).spec_hold_timeout(),
            final(self).entry_seq() == old(self).entry_seq().remove(i as int),
    {
        let ghost pre = self.entry_seq();
        self.entries.remove(i);
        proof {
            assert forall|a: int, b: int|
                0 <= a < b < self.entry_seq().len() implies self.entry_seq()[a].key@
                != self.entry_seq()[b].key@ by {
                let a0 = if a < i as int {
                    a
                } else {
                    a + 1
                };
                let b0 = if b < i as int {
                    b
                } else {
                    b + 1
                };
                assert(self.entry_seq()[a] == pre[a0]);
                assert(self.entry_seq()[b] == pre[b0]);
                assert(pre[a0].key@ != pre[b0].key@);
            }
            assert forall|a: int|
                0 <= a < self.entry_seq().len() && (#[trigger] self.entry_seq()[a]).held implies self.entry_seq()[a].last_active is None by {
                let a0 = if a < i as int {
                    a
                } else {
                    a + 1
                };
                assert(self.entry_seq()[a] == pre[a0]);
            }
        }
    }

    /// Drops the entry with the given key, if one exists.
    pub fn remove(&mut self, pubkey: &Vec<u8>)
        requires
            old(self).wf(),
        ensures
            final(self).wf(),
            final(self).spec_hold_timeout() == old(self).spec_hold_timeout(),
            ({
                let i = spec_find(old(self).entry_seq(), pubkey@);
                if i >= 0 {
                    final(self).entry_seq() == old(self).entry_seq().remove(i)
                } else {
                    final(self).entry_seq() == old(self).entry_seq()
                }
            }),
    {
        proof {
            lemma_spec_find_char(self.entry_seq(), pubkey@);
        }
        match self.find(pubkey) {
            Some(i) => self.remove_at(i),
            None => {},
        }
    }

    /// Every key in the pool, in insertion order.
    pub fn list(&self) -> (r: Vec<Vec<u8>>)
        ensures
            r@.len() == self.entry_seq().len(),
            forall|i: int| 0 <= i < r@.len() ==> (#[trigger] r@[i])@ == self.entry_seq()[i].key@,
    {
        let mut out: Vec<Vec<u8>> = Vec::new();
        let mut i: usize = 0;
        while i < self.entries.len()
            invariant
                i <= self.entry_seq().len(),
                out@.len() == i,
                forall|j: int| 0 <= j < out@.len() ==> (#[trigger] out@[j])@ == self.entry_seq()[j].key@,
            decreases self.entry_seq().len() - i as int,
        {
            out.push(self.entries[i].key.clone());
            proof {
                assert(out@[i as int]@ =~= self.entry_seq()[i as int].key@);
            }
            i = i + 1;
        }
        out
    }

    /// Marks the entry as held by a session and suspends its idle
    /// accounting.  Returns false, changing nothing, when the key is
    /// missing or another session already holds the entry.
    pub fn hold(&mut self, pubkey: &Vec<u8>) -> (r: bool)
        requires
            old(self).wf(),
        ensures
            final(self).wf(),
            final(self).spec_hold_timeout() == old(self).spec_hold_timeout(),
            ({
                let i = spec_find(old(self).entry_seq(), pubkey@);
                if i >= 0 && !old(self).entry_seq()[i].held {
                    let e = final(self).entry_seq()[i];
                    &&& r == true
                    &&& final(self).entry_seq() == old(self).entry_seq().update(i, e)
                    &&& e.key == old(self).entry_seq()[i].key
                    &&& e.name == old(self).entry_seq()[i].name
                    &&& e.held == true
                    &&& e.last_active is None
                } else {
                    r == false && final(self).entry_seq() == old(self).entry_seq()
                }
            }),
    {
        let ghost pre = self.entry_seq();
        proof {
            lemma_spec_find_char(pre, pubkey@);
        }
        match self.find(pubkey) {
            None => false,
            Some(i) => {
                if self.entries[i].held {
                    false
                } else {
                    let e = self.entries.remove(i);
                    let e2 = PoolEntry { held: true, last_active: None, ..e };
                    self.entries.insert(i, e2);
                    proof {
                        assert(self.entry_seq() =~= pre.update(
                            i as int,
                            self.entry_seq()[i as int],
                        ));
                        assert forall|a: int, b: int|
                            0 <= a < b < self.entry_seq().len() implies self.entry_seq()[a].key@
                            != self.entry_seq()[b].key@ by {
                            assert(pre[a].key@ != pre[b].key@);
                        }
                    }
                    true
                }
            },
        }
    }

    /// Releases a held entry and stamps it idle at `now`.  A release of a
    /// missing key changes nothing.
    pub fn release(&mut self, pubkey: &Vec<u8>, now: u64)
        requires
            old(self).wf(),
        ensures
            final(self).wf(),
            final(self).spec_hold_timeout() == old(self).spec_hold_timeout(),
            ({
                let i = spec_find(old(self).entry_seq(), pubkey@);
                if i >= 0 {
                    let e = final(self).entry_seq()[i];
                    &&& final(self).entry_seq() == old(self).entry_seq().update(i, e)
                    &&& e.key == old(self).entry_seq()[i].key
                    &&& e.name == old(self).entry_seq()[i].name
                    &&& e.held == false
                    &&& e.last_active == Some(now)
                } else {
                    final(self).entry_seq() == old(self).entry_seq()
                }
            }),
    {
        let ghost pre = self.entry_seq();
        proof {
            lemma_spec_find_char(pre, pubkey@);
        }
        match self.find(pubkey) {
            None => {},
            Some(i) => {
                let e = self.entries.remove(i);
                let e2 = PoolEntry { held: false, last_active: Some(now), ..e };
                self.entries.insert(i, e2);
                proof {
                    assert(self.entry_seq() =~= pre.update(i as int, self.entry_seq()[i as int]));
                    assert forall|a: int, b: int|
                        0 <= a < b < self.entry_seq().len() implies self.entry_seq()[a].key@
                        != self.entry_seq()[b].key@ by {
                        assert(pre[a].key@ != pre[b].key@);
                    }
                }
            },
        }
    }

    /// Removes the entry with the given key unless a session holds it:
    /// `Ok(true)` when it was removed, `Ok(false)` (changing nothing) when
    /// it is held, `NotFound` when the key is missing.
    pub fn kill(&mut self, pubkey: &Vec<u8>) -> (r: Result<bool, PoolError>)
        requires
            old(self).wf(),
        ensures
            final(self).wf(),
            final(self).spec_hold_timeout() == old(self).spec_hold_timeout(),
            ({
                let i = spec_find(old(self).entry_seq(), pubkey@);
                match r {
                    Ok(true) => i >= 0 && !old(self).entry_seq()[i].held && final(self).entry_seq()
                        == old(self).entry_seq().remove(i),
                    Ok(false) => i >= 0 && old(self).entry_seq()[i].held && final(self).entry_seq()
                        == old(self).entry_seq(),
                    Err(e) => e == PoolError::NotFound && i < 0 && final(self).entry_seq() == old(self).entry_seq(),
                }
            }),
    {
        proof {
            lemma_spec_find_char(self.entry_seq(), pubkey@);
        }
        match self.find(pubkey) {
            None => Err(PoolError::NotFound),
            Some(i) => {
                if self.entries[i].held {
                    Ok(false)
                } else {
                    self.remove_at(i);
                    Ok(true)
                }
            },
        }
    }

    /// Seconds since the entry was released, or `None` when the key is
    /// missing or a session holds the entry.  A stamp later than `now`
    /// counts as age zero.
    pub fn last_active(&self, pubkey: &Vec<u8>, now: u64) -> (r: Option<u64>)
        ensures
            ({
                let i = spec_find(self.entry_seq(), pubkey@);
                match r {
                    Some(age) => i >= 0 && match self.entry_seq()[i].last_active {
                        Some(t) => age == if t <= now {
                            now - t
                        } else {
                            0
                        },
                        None => false,
                    },
                    None => i < 0 || self.entry_seq()[i].last_active is None,
                }
            }),
    {
        proof {
            lemma_spec_find_char(self.entry_seq(), pubkey@);
        }
        match self.find(pubkey) {
            None => None,
            Some(i) => match self.entries[i].last_active {
                Some(t) => if t <= now {
                    Some(now - t)
                } else {
                    Some(0)
                },
                None => None,
            },
        }
    }

    /// Evicts every idle entry whose age at `now` exceeds the configured
    /// timeout, and returns the removed keys in order.  Held entries are
    /// never evicted.
    pub fn collect(&mut self, now: u64) -> (r: Vec<Vec<u8>>)
        requires
            old(self).wf(),
        ensures
            final(self).wf(),
            final(self).spec_hold_timeout() == old(self).spec_hold_timeout(),
            final(self).entry_seq() == old(self).entry_seq().filter(
                |e: PoolEntry| !spec_expired(e, now, old(self).spec_hold_timeout()),
            ),
            ({
                let gone = old(self).entry_seq().filter(
                    |e: PoolEntry| spec_expired(e, now, old(self).spec_hold_timeout()),
                );
                &&& r@.len() == gone.len()
                &&& forall|i: int| 0 <= i < r@.len() ==> (#[trigger] r@[i])@ == gone[i].key@
            }),
    {
        let ghost pre = self.entry_seq();
        let ghost timeout = self.hold_timeout;
        let ghost keep = |e: PoolEntry| !spec_expired(e, now, timeout);
        let ghost expire = |e: PoolEntry| spec_expired(e, now, timeout);
        let mut removed: Vec<Vec<u8>> = Vec::new();
        let mut i: usize = 0;
        let ghost mut j: int = 0;
        proof {
            reveal(Seq::filter);
            assert(pre.take(0).filter(keep) =~= Seq::<PoolEntry>::empty());
            assert(pre.take(0).filter(expire) =~= Seq::<PoolEntry>::empty());
            assert(self.entry_seq() =~= pre.take(0).filter(keep) + pre.skip(0));
        }
        while i < self.entries.len()
            invariant
                self.wf(),
                self.spec_hold_timeout() == timeout,
                keep == (|e: PoolEntry| !spec_expired(e, now, timeout)),
                expire == (|e: PoolEntry| spec_expired(e, now, timeout)),
                0 <= j <= pre.len(),
                i as int == pre.take(j).filter(keep).len(),
                self.entry_seq() == pre.take(j).filter(keep) + pre.skip(j),
                removed@.len() == pre.take(j).filter(expire).len(),
                forall|a: int|
                    0 <= a < removed@.len() ==> (#[trigger] removed@[a])@ == pre.take(j).filter(
                        expire,
                    )[a].key@,
            decreases pre.len() - j,
        {
            proof {
                reveal(Seq::filter);
                assert(pre.skip(j).len() > 0);
                assert(pre.skip(j)[0] == pre[j]);
                assert(self.entry_seq()[i as int] == pre.skip(j)[0]);
                assert(pre.take(j + 1).drop_last() =~= pre.take(j));
                assert(pre.take(j + 1).last() == pre[j]);
            }
            let expired: bool = match self.entries[i].last_active {
                Some(t) => t <= now && now - t > self.hold_timeout,
                None => false,
            };
            if expired {
                let ghost prev = self.entry_seq();
                let e = self.entries.remove(i);
                removed.push(e.key);
                proof {
                    reveal(Seq::filter);
                    assert(pre.take(j + 1).filter(keep) =~= pre.take(j).filter(keep));
                    assert(pre.take(j + 1).filter(expire) =~= pre.take(j).filter(expire).push(
                        pre[j],
                    ));
                    assert(pre.skip(j).skip(1) =~= pre.skip(j + 1));
                    assert(self.entry_seq() =~= pre.take(j + 1).filter(keep) + pre.skip(j + 1));
                    assert forall|a: int, b: int|
                        0 <= a < b < self.entry_seq().len() implies self.entry_seq()[a].key@
                        != self.entry_seq()[b].key@ by {
                        assert(prev[if a < i as int {
                            a
                        } else {
                            a + 1
                        }].key@ != prev[if b < i as int {
                            b
                        } else {
                            b + 1
                        }].key@);
                    }
                    assert forall|a: int|
                        0 <= a < self.entry_seq().len() && (#[trigger] self.entry_seq()[a]).held implies self.entry_seq()[a].last_active is None by {
                        let a0 = if a < i as int {
                            a
                        } else {
                            a + 1
                        };
                        assert(self.entry_seq()[a] == prev[a0]);
                    }
                }
            } else {
                proof {
                    reveal(Seq::filter);
                    assert(pre.take(j + 1).filter(keep) =~= pre.take(j).filter(keep).push(pre[j]));
                    assert(pre.take(j + 1).filter(expire) =~= pre.take(j).filter(expire));
                    assert(pre.skip(j).skip(1) =~= pre.skip(j + 1));
                    assert(self.entry_seq() =~= pre.take(j + 1).filter(keep) + pre.skip(j + 1));
                }
                i = i + 1;
            }
            proof {
                j = j + 1;
            }
        }
        proof {
            assert(pre.skip(j).len() == 0);
            assert(pre.take(j) =~= pre);
            assert(self.entry_seq() =~= pre.filter(keep));
        }
        removed
    }

    /// The control-plane row for the entry with the given key: its short
    /// identifier, display name, idle age at `now`, and the queue length
    /// the caller read from the entry's transmit queue.
    pub fn conn_row(&self, pubkey: &Vec<u8>, now: u64, qlen: u32) -> (r: Option<ConnRow>)
        ensures
            ({
                let i = spec_find(self.entry_seq(), pubkey@);
                match r {
                    Some(row) => {
                        &&& i >= 0
                        &&& row.id@ == hex_of(pubkey@.take(id_prefix_len(pubkey@)))
                        &&& row.name == self.entry_seq()[i].name
                        &&& (match row.last_active {
                            Some(age) => match self.entry_seq()[i].last_active {
                                Some(t) => age == if t <= now {
                                    now - t
                                } else {
                                    0
                                },
                                None => false,
                            },
                            None => self.entry_seq()[i].last_active is None,
                        })
                        &&& row.pkt_buf == qlen
                    },
                    None => i < 0,
                }
            }),
    {
        proof {
            lemma_spec_find_char(self.entry_seq(), pubkey@);
        }
        match self.find(pubkey) {
            None => None,
            Some(i) => {
                let id = pubkey_to_id(self.entries[i].key.as_slice());
                proof {
                    assert(self.entry_seq()[i as int].key@ == pubkey@);
                }
                let name = match &self.entries[i].name {
                    Some(s) => Some(s.clone()),
                    None => None,
                };
                let last_active = self.last_active(pubkey, now);
                Some(ConnRow { id, name, last_active, pkt_buf: qlen })
            },
        }
    }

    /// Finds the position of the entry whose short identifier is `id`.
    fn find_by_id(&self, id: &Vec<u8>) -> (r: Option<usize>)
        ensures
            match r {
                Some(i) => i as int == spec_find_by_id(self.entry_seq(), id@),
                None => spec_find_by_id(self.entry_seq(), id@) == -1,
            },
    {
        let mut i: usize = 0;
        while i < self.entries.len()
            invariant
                i <= self.entry_seq().len(),
                forall|j: int| 0 <= j < i ==> entry_id(#[trigger] self.entry_seq()[j]) != id@,
            decreases self.entry_seq().len() - i as int,
        {
            let this_id = pubkey_to_id(self.entries[i].key.as_slice());
            if keys_equal(&this_id, id) {
                proof {
                    lemma_spec_find_by_id_char(self.entry_seq(), id@);
                }
                return Some(i);
            }
            i = i + 1;
        }
        proof {
            lemma_spec_find_by_id_char(self.entry_seq(), id@);
            if spec_find_by_id(self.entry_seq(), id@) >= 0 {
                assert(entry_id(self.entry_seq()[spec_find_by_id(self.entry_seq(), id@)]) == id@);
            }
        }
        None
    }

    /// The control-plane kill: finds the entry whose short identifier is
    /// `id` and removes it unless a session holds it.
    pub fn kill_by_id(&mut self, id: &Vec<u8>) -> (r: KillOutcome)
        requires
            old(self).wf(),
        ensures
            final(self).wf(),
            final(self).spec_hold_timeout() == old(self).spec_hold_timeout(),
            ({
                let i = spec_find_by_id(old(self).entry_seq(), id@);
                match r {
                    KillOutcome::Killed => i >= 0 && !old(self).entry_seq()[i].held && final(self).entry_seq() == old(self).entry_seq().remove(i),
                    KillOutcome::InUse => i >= 0 && old(self).entry_seq()[i].held && final(self).entry_seq() == old(self).entry_seq(),
                    KillOutcome::NotFound => i < 0 && final(self).entry_seq() == old(self).entry_seq(),
                }
            }),
    {
        proof {
            lemma_spec_find_by_id_char(self.entry_seq(), id@);
        }
        match self.find_by_id(id) {
            None => KillOutcome::NotFound,
            Some(i) => {
                if self.entries[i].held {
                    KillOutcome::InUse
                } else {
                    self.remove_at(i);
                    KillOutcome::Killed
                }
            },
        }
    }
}

} // verus!
