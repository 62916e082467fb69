//! Per-peer enrollment epochs: revoking a peer advances its epoch, and a
//! connection is admitted only if its peer's epoch is unchanged since the
//! handshake began and the peer is still pinned.
use vstd::prelude::*;

use crate::identity::AgentId;
use crate::keyed::KeyedMap;
use crate::text::copy_chars;

verus! {

/// A peer's epoch in a table of epochs; a peer never revoked is at zero.
pub open spec fn epoch_of(epochs: Map<Seq<char>, u64>, peer: Seq<char>) -> u64 {
    if epochs.contains_key(peer) {
        epochs[peer]
    } else {
        0
    }
}

/// The epoch after a revocation: one more, wrapping as an atomic counter.
pub open spec fn next_epoch(e: u64) -> u64 {
    if e == u64::MAX {
        0
    } else {
        (e + 1) as u64
    }
}

/// Whether a handshake that captured `captured` for `peer` may be admitted:
/// the peer's epoch has not moved since, and the peer is pinned.
pub open spec fn admissible(epochs: Map<Seq<char>, u64>, peer: Seq<char>, captured: u64, pinned: bool) -> bool {
    epoch_of(epochs, peer) == captured && pinned
}

/// The enrollment epoch of each peer ever revoked.
pub struct EnrollmentEpochs {
    pub epochs: KeyedMap<u64>,
}

impl EnrollmentEpochs {
    pub open spec fn wf(&self) -> bool {
        self.epochs.wf()
    }

    pub open spec fn table(&self) -> Map<Seq<char>, u64> {
        self.epochs.as_map()
    }

    pub fn new() -> (e: EnrollmentEpochs)
        ensures
            e.wf(),
            e.table() == Map::<Seq<char>, u64>::empty(),
    {
        let e = EnrollmentEpochs { epochs: KeyedMap::new() };
        assert(e.table() =~= Map::<Seq<char>, u64>::empty());
        e
    }

    /// The peer's current enrollment epoch (zero if never revoked).
    pub fn peer_enrollment_epoch(&self, peer: &AgentId) -> (r: u64)
        requires
            self.wf(),
        ensures
            r == epoch_of(self.table(), peer@),
    {
        match self.epochs.get_value(&peer.to_chars()) {
            Some(e) => *e,
            None => 0,
        }
    }

    /// A copy of every tracked peer's epoch, taken before an inbound
    /// handshake begins.
    pub fn capture_enrollment_epochs(&self) -> (r: EnrollmentEpochs)
        requires
            self.wf(),
        ensures
            r.wf(),
            r.table() == self.table(),
    {
        let mut entries: Vec<(Vec<char>, u64)> = Vec::new();
        let mut i: usize = 0;
        while i < self.epochs.entries.len()
            invariant
                i <= self.epochs.entries@.len(),
                entries@.len() == i,
                forall|j: int| 0 <= j < i ==> (#[trigger] entries@[j]).0@ == self.epochs.key_at(j) && entries@[j].1
                    == self.epochs.val_at(j),
            decreases self.epochs.entries@.len() - i,
        {
            entries.push((copy_chars(&self.epochs.entries[i].0), self.epochs.entries[i].1));
            i = i + 1;
        }
        let r = EnrollmentEpochs { epochs: KeyedMap { entries } };
        proof {
            assert forall|j: int| 0 <= j < r.epochs.entries@.len() implies r.epochs.key_at(j) == self.epochs.key_at(j)
                && r.epochs.val_at(j) == self.epochs.val_at(j) by {
                assert(entries@[j].0@ == self.epochs.key_at(j));
            }
            assert forall|k: Seq<char>| r.epochs.has(k) <==> self.epochs.has(k) by {
                if r.epochs.has(k) {
                    let j = choose|j: int| 0 <= j < r.epochs.entries@.len() && #[trigger] r.epochs.key_at(j) == k;
                    assert(self.epochs.key_at(j) == k);
                }
                if self.epochs.has(k) {
                    let j = choose|j: int| 0 <= j < self.epochs.entries@.len() && #[trigger] self.epochs.key_at(j) == k;
                    assert(r.epochs.key_at(j) == k);
                }
            }
            assert forall|k: Seq<char>| self.epochs.has(k) implies r.epochs.get(k) == self.epochs.get(k) by {
                let j = self.epochs.index_of(k);
                self.epochs.lemma_index_unique(j, k);
                r.epochs.lemma_index_unique(j, k);
            }
            assert(r.table() =~= self.table());
        }
        r
    }

    /// Advance the peer's epoch (see `next_epoch`): every
    /// handshake captured before is refused from now on.
    pub fn advance_enrollment_epoch(&mut self, peer: &AgentId)
        requires
            old(self).wf(),
        ensures
            final(self).wf(),
            final(self).table() == old(self).table().insert(peer@, next_epoch(epoch_of(old(self).table(), peer@))),
    {
        let current = self.peer_enrollment_epoch(peer);
        let next = current.wrapping_add(1);
        self.epochs.insert(peer.to_chars(), next);
    }

    /// The admission gate: a handshake for `peer` that captured epoch
    /// `captured_epoch` is admitted only if the epoch is unchanged and the
    /// peer is `pinned` in the published pin set.
    pub fn admission_gate(&self, peer: &AgentId, captured_epoch: u64, pinned: bool) -> (r: bool)
        requires
            self.wf(),
        ensures
            r == admissible(self.table(), peer@, captured_epoch, pinned),
    {
        self.peer_enrollment_epoch(peer) == captured_epoch && pinned
    }
}

/// Revocation is peer-scoped: once `revoked`'s epoch advances, a handshake
/// for it captured before is refused, while every other peer's handshake is
/// judged exactly as before.
pub proof fn lemma_revocation_is_peer_scoped(
    epochs: Map<Seq<char>, u64>,
    revoked: Seq<char>,
    other: Seq<char>,
    captured: u64,
    pinned: bool,
)
    requires
        other != revoked,
    ensures
        ({
            let after = epochs.insert(revoked, next_epoch(epoch_of(epochs, revoked)));
            &&& !admissible(after, revoked, epoch_of(epochs, revoked), pinned)
            &&& admissible(after, other, captured, pinned) == admissible(epochs, other, captured, pinned)
        }),
{
}

} // verus!
