//! Reconnect bookkeeping: at most one dial attempt in flight per peer, and
//! exponential backoff between failed attempts. Times are monotonic
//! nanoseconds.
use vstd::prelude::*;

use crate::identity::AgentId;
use crate::keyed::{KeyedMap, group_map_values};
use crate::text::copy_chars;

verus! {

broadcast use group_map_values;

/// The first wait after a failure (1 s).
pub const INITIAL_BACKOFF: u64 = 1_000_000_000;

/// The longest wait between attempts (30 s).
pub const MAX_BACKOFF: u64 = 30_000_000_000;

/// Proof that the holder owns the peer's current attempt.
#[derive(Debug, Clone, Copy, PartialEq, Eq, Structural)]
pub struct AttemptTicket {
    pub version: u64,
}

#[derive(Debug, Clone, Copy, PartialEq, Eq, Structural)]
pub struct AttemptState {
    pub version: u64,
    pub next_attempt: u64,
    pub backoff: u64,
    pub in_flight: bool,
}

pub struct ReconnectBook {
    pub next_version: u64,
    pub attempts: KeyedMap<AttemptState>,
}

#[verifier::ext_equal]
pub struct BookView {
    pub next_version: u64,
    pub attempts: Map<Seq<char>, AttemptState>,
}

impl View for ReconnectBook {
    type V = BookView;

    open spec fn view(&self) -> BookView {
        BookView { next_version: self.next_version, attempts: self.attempts.as_map() }
    }
}

/// Every attempt has a non-zero version and a backoff within bounds.
pub open spec fn book_wf(b: BookView) -> bool {
    forall|p: Seq<char>| #[trigger] b.attempts.contains_key(p) ==> {
        &&& b.attempts[p].version != 0
        &&& INITIAL_BACKOFF <= b.attempts[p].backoff <= MAX_BACKOFF
    }
}

/// The version after `v`: the next number, skipping zero on wrap-around.
pub open spec fn bump(v: u64) -> u64 {
    if v == u64::MAX {
        1
    } else {
        (v + 1) as u64
    }
}

/// A claim of `peer`'s next attempt at `now`: a peer without an attempt
/// record gets a fresh one under the next version, due now; the claim is
/// refused while an attempt is in flight or not yet due, and otherwise
/// marks the attempt in flight and hands out its version.
pub open spec fn claimed(b: BookView, peer: Seq<char>, now: u64) -> (BookView, Option<u64>) {
    let b1 = if b.attempts.contains_key(peer) {
        b
    } else {
        let v = bump(b.next_version);
        BookView {
            next_version: v,
            attempts: b.attempts.insert(peer, AttemptState { version: v, next_attempt: now, backoff: INITIAL_BACKOFF, in_flight: false }),
        }
    };
    let a = b1.attempts[peer];
    if a.in_flight || a.next_attempt > now {
        (b1, None)
    } else {
        (BookView { attempts: b1.attempts.insert(peer, AttemptState { in_flight: true, ..a }), ..b1 }, Some(a.version))
    }
}

/// The backoff after one more failure: doubled, at most `MAX_BACKOFF`.
pub open spec fn next_backoff(b: u64) -> u64 {
    if 2 * b > MAX_BACKOFF {
        MAX_BACKOFF
    } else {
        (2 * b) as u64
    }
}

/// The failure at `now` of `peer`'s attempt under `version`: when that is
/// the peer's current attempt, it is due again after its current backoff
/// (the result), the backoff doubles up to `MAX_BACKOFF`, and it is no
/// longer in flight; otherwise nothing changes and the result is `None`.
pub open spec fn failed_at(b: BookView, peer: Seq<char>, version: u64, now: u64) -> (BookView, Option<u64>) {
    if b.attempts.contains_key(peer) && b.attempts[peer].version == version {
        let a = b.attempts[peer];
        (
            BookView {
                attempts: b.attempts.insert(
                    peer,
                    AttemptState { next_attempt: (now + a.backoff) as u64, backoff: next_backoff(a.backoff), in_flight: false, ..a },
                ),
                ..b
            },
            Some(a.backoff),
        )
    } else {
        (b, None)
    }
}

impl ReconnectBook {
    pub open spec fn wf(&self) -> bool {
        self.attempts.wf() && book_wf(self@)
    }

    pub fn new() -> (b: ReconnectBook)
        ensures
            b.wf(),
            b@.next_version == 0,
            b@.attempts == Map::<Seq<char>, AttemptState>::empty(),
    {
        let b = ReconnectBook { next_version: 0, attempts: KeyedMap::new() };
        assert(b@.attempts =~= Map::<Seq<char>, AttemptState>::empty());
        b
    }

    /// Claim `peer`'s next dial attempt at `now` (see `claimed`).
    pub fn claim(&mut self, peer: &AgentId, now: u64) -> (r: Option<AttemptTicket>)
        requires
            old(self).wf(),
        ensures
            final(self).wf(),
            (final(self)@, match r {
                Some(t) => Some(t.version),
                None => None,
            }) == claimed(old(self)@, peer@, now),
    {
        let ghost b = self@;
        let key = peer.to_chars();
        if !self.attempts.contains(&key) {
            let v = if self.next_version == u64::MAX {
                1
            } else {
                self.next_version + 1
            };
            self.next_version = v;
            self.attempts.insert(
                copy_chars(&key),
                AttemptState { version: v, next_attempt: now, backoff: INITIAL_BACKOFF, in_flight: false },
            );
        }
        let ghost b1 = self@;
        assert(self.attempts.as_map().contains_key(key@));
        assert(self.attempts.has(key@));
        assert(book_wf(b1)) by {
            if !b.attempts.contains_key(peer@) {
                assert forall|p: Seq<char>| #[trigger] b1.attempts.contains_key(p) implies {
                    &&& b1.attempts[p].version != 0
                    &&& INITIAL_BACKOFF <= b1.attempts[p].backoff <= MAX_BACKOFF
                } by {
                    if p != peer@ {
                        assert(b.attempts.contains_key(p));
                    }
                }
            }
        }
        let a = match self.attempts.get_value(&key) {
            Some(a) => *a,
            None => {
                assert(false);
                return None;
            },
        };
        assert(a == b1.attempts[peer@]);
        if a.in_flight || a.next_attempt > now {
            return None;
        }
        self.attempts.insert(key, AttemptState { in_flight: true, ..a });
        proof {
            assert(b1.attempts.contains_key(peer@));
            assert forall|p: Seq<char>| #[trigger] self@.attempts.contains_key(p) implies {
                &&& self@.attempts[p].version != 0
                &&& INITIAL_BACKOFF <= self@.attempts[p].backoff <= MAX_BACKOFF
            } by {
                assert(b1.attempts.contains_key(p));
            }
        }
        Some(AttemptTicket { version: a.version })
    }

    /// The attempt under `ticket` connected: its record is dropped; a stale
    /// ticket changes nothing.
    pub fn succeeded(&mut self, peer: &AgentId, ticket: AttemptTicket)
        requires
            old(self).wf(),
        ensures
            final(self).wf(),
            final(self)@ == (if old(self)@.attempts.contains_key(peer@) && old(self)@.attempts[peer@].version == ticket.version {
                BookView { attempts: old(self)@.attempts.remove(peer@), ..old(self)@ }
            } else {
                old(self)@
            }),
    {
        let key = peer.to_chars();
        let current = match self.attempts.get_value(&key) {
            Some(a) => a.version == ticket.version,
            None => false,
        };
        if current {
            let ghost b = self@;
            let _ = self.attempts.remove(&key);
            proof {
                assert forall|p: Seq<char>| #[trigger] self@.attempts.contains_key(p) implies {
                    &&& self@.attempts[p].version != 0
                    &&& INITIAL_BACKOFF <= self@.attempts[p].backoff <= MAX_BACKOFF
                } by {
                    assert(b.attempts.contains_key(p));
                }
            }
        }
    }

    /// The attempt under `ticket` failed at `now`: it is due again after
    /// the current backoff (returned), the backoff doubles up to
    /// `MAX_BACKOFF`, and it is no longer in flight; a stale ticket changes
    /// nothing.
    pub fn failed(&mut self, peer: &AgentId, ticket: AttemptTicket, now: u64) -> (r: Option<u64>)
        requires
            old(self).wf(),
            now <= u64::MAX - MAX_BACKOFF,
        ensures
            final(self).wf(),
            (final(self)@, r) == failed_at(old(self)@, peer@, ticket.version, now),
    {
        let key = peer.to_chars();
        let a = match self.attempts.get_value(&key) {
            Some(a) => *a,
            None => return None,
        };
        if a.version != ticket.version {
            return None;
        }
        let ghost b = self@;
        assert(b.attempts.contains_key(key@));
        let wait = a.backoff;
        let doubled = if wait > MAX_BACKOFF / 2 {
            MAX_BACKOFF
        } else {
            wait * 2
        };
        self.attempts.insert(key, AttemptState { next_attempt: now + wait, backoff: doubled, in_flight: false, ..a });
        proof {
            assert forall|p: Seq<char>| #[trigger] self@.attempts.contains_key(p) implies {
                &&& self@.attempts[p].version != 0
                &&& INITIAL_BACKOFF <= self@.attempts[p].backoff <= MAX_BACKOFF
            } by {
                assert(b.attempts.contains_key(p));
            }
        }
        Some(wait)
    }

    /// Keep only the attempts of peers in `enrolled`.
    pub fn retain(&mut self, enrolled: &Vec<AgentId>)
        requires
            old(self).wf(),
        ensures
            final(self).wf(),
            final(self)@ == (BookView {
                attempts: old(self)@.attempts.restrict(Set::new(|p: Seq<char>| exists|i: int| 0 <= i < enrolled@.len() && (#[trigger] enrolled@[i])@ == p)),
                ..old(self)@
            }),
    {
        let ghost b = self@;
        let ghost keep = Set::new(|p: Seq<char>| exists|i: int| 0 <= i < enrolled@.len() && (#[trigger] enrolled@[i])@ == p);
        let mut kept: KeyedMap<AttemptState> = KeyedMap::new();
        let mut i: usize = 0;
        while i < self.attempts.len()
            invariant
                self.wf(),
                self@ == b,
                kept.wf(),
                keep == Set::new(|p: Seq<char>| exists|i: int| 0 <= i < enrolled@.len() && (#[trigger] enrolled@[i])@ == p),
                i <= self.attempts.entries@.len(),
                kept.as_map() == b.attempts.restrict(keep.intersect(Set::new(|p: Seq<char>| exists|j: int| 0 <= j < i && self.attempts.key_at(j) == p))),
            decreases self.attempts.entries@.len() - i,
        {
            let key = &self.attempts.entries[i].0;
            let ghost k = key@;
            proof {
                self.attempts.lemma_index_unique(i as int, k);
            }
            let mut found = false;
            let mut j: usize = 0;
            while j < enrolled.len()
                invariant
                    key@ == k,
                    j <= enrolled@.len(),
                    found == exists|j2: int| 0 <= j2 < j && (#[trigger] enrolled@[j2])@ == k,
                decreases enrolled@.len() - j,
            {
                if crate::text::chars_equal(&enrolled[j].to_chars(), key) {
                    found = true;
                    assert(enrolled@[j as int]@ == k);
                }
                j = j + 1;
            }
            let ghost m0 = kept.as_map();
            if found {
                kept.insert(copy_chars(key), self.attempts.entries[i].1);
            }
            proof {
                let before = Set::new(|p: Seq<char>| exists|j2: int| 0 <= j2 < i && self.attempts.key_at(j2) == p);
                let after = Set::new(|p: Seq<char>| exists|j2: int| 0 <= j2 < i + 1 && self.attempts.key_at(j2) == p);
                assert(after =~= before.insert(k));
                assert(found == keep.contains(k));
                assert(kept.as_map() =~= b.attempts.restrict(keep.intersect(after)));
            }
            i = i + 1;
        }
        proof {
            let all = Set::new(|p: Seq<char>| exists|j: int| 0 <= j < self.attempts.entries@.len() && self.attempts.key_at(j) == p);
            assert forall|p: Seq<char>| b.attempts.contains_key(p) implies all.contains(p) by {
                let j = self.attempts.index_of(p);
                self.attempts.lemma_index_unique(j, p);
            }
            assert(kept.as_map() =~= b.attempts.restrict(keep));
        }
        self.attempts = kept;
    }
}

/// At most one attempt per peer is in flight: once a claim succeeds, every
/// further claim is refused until the attempt's outcome is recorded.
pub proof fn lemma_single_flight(b: BookView, peer: Seq<char>, now: u64, later: u64)
    requires
        claimed(b, peer, now).1 is Some,
    ensures
        claimed(claimed(b, peer, now).0, peer, later).1 is None,
        claimed(claimed(b, peer, now).0, peer, later).0 == claimed(b, peer, now).0,
{
}

/// The backoff a failure of a claimed attempt waits: the peer's current
/// backoff, or `INITIAL_BACKOFF` for a peer without an attempt record.
pub open spec fn current_backoff(b: BookView, peer: Seq<char>) -> u64 {
    if b.attempts.contains_key(peer) {
        b.attempts[peer].backoff
    } else {
        INITIAL_BACKOFF
    }
}

/// Claim, fail, retry: once `peer`'s claim at `t0` succeeded under version
/// `v`, the failure of that attempt at `now` returns the peer's current
/// backoff `w` (one second for a peer without a record); afterwards a claim
/// at `t` is refused while `t < now + w` and succeeds under the same
/// version from `now + w` on, and the next failure waits
/// `next_backoff(w)`, twice as long up to thirty seconds. A ticket of
/// another version fails nothing and changes nothing.
pub proof fn lemma_failure_backoff(b: BookView, peer: Seq<char>, t0: u64, now: u64, t: u64, other: u64)
    requires
        book_wf(b),
        claimed(b, peer, t0).1 is Some,
        now <= u64::MAX - MAX_BACKOFF,
        other != claimed(b, peer, t0).1->0,
    ensures
        ({
            let b1 = claimed(b, peer, t0).0;
            let v = claimed(b, peer, t0).1->0;
            let w = current_backoff(b, peer);
            let b2 = failed_at(b1, peer, v, now).0;
            &&& failed_at(b1, peer, v, now).1 == Some(w)
            &&& t < now + w ==> claimed(b2, peer, t).1 is None
            &&& t >= now + w ==> claimed(b2, peer, t).1 == Some(v)
            &&& current_backoff(b2, peer) == next_backoff(w)
            &&& failed_at(b1, peer, other, now) == (b1, None::<u64>)
        }),
{
}

/// Backoff doubles from one second per failure and never exceeds thirty.
pub proof fn lemma_backoff_bounds(b: u64)
    requires
        INITIAL_BACKOFF <= b <= MAX_BACKOFF,
    ensures
        INITIAL_BACKOFF <= next_backoff(b) <= MAX_BACKOFF,
        b <= next_backoff(b),
        next_backoff(b) == MAX_BACKOFF || next_backoff(b) == 2 * b,
{
}

} // verus!
