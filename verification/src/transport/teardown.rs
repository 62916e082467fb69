//! Closing a peer: its enrollment epoch advances first, so every handshake
//! that began before fails admission even if the peer is enrolled again at
//! once; then its in-flight dial is cancelled and its connection slot
//! vacated. Revoking a peer closes it after its removal from the directory
//! is committed.
use vstd::prelude::*;

use crate::identity::AgentId;
use crate::keyed::KeyedMap;
use crate::transport::epochs::{EnrollmentEpochs, admissible, epoch_of, next_epoch};
use crate::transport::registry::{RegistryState, RegistryView, vacated};

verus! {

/// What closing a peer leaves the caller to do: close the connection of
/// the vacated slot (its stable ID), and cancel the peer's dial token (its
/// handle).
#[derive(Debug, Clone, Copy, PartialEq, Eq, Structural)]
pub struct Teardown {
    pub close_connection: Option<usize>,
    pub cancel_dial: Option<u64>,
}

/// Close `peer`: advance its enrollment epoch, take its dial token (by
/// handle) out of `dial_tokens` for cancelling, and vacate its connection
/// slot, advancing its generation.
pub fn close_peer(
    epochs: &mut EnrollmentEpochs,
    dial_tokens: &mut KeyedMap<u64>,
    registry: &mut RegistryState,
    peer: &AgentId,
) -> (r: Teardown)
    requires
        old(epochs).wf(),
        old(dial_tokens).wf(),
        old(registry).wf(),
    ensures
        final(epochs).wf(),
        final(epochs).table() == old(epochs).table().insert(peer@, next_epoch(epoch_of(old(epochs).table(), peer@))),
        final(dial_tokens).wf(),
        final(dial_tokens).as_map() == old(dial_tokens).as_map().remove(peer@),
        r.cancel_dial == (if old(dial_tokens).has(peer@) {
            Some(old(dial_tokens).get(peer@))
        } else {
            None
        }),
        final(registry).wf(),
        final(registry)@ == vacated(old(registry)@, peer@),
        r.close_connection == (if old(registry)@.slots.contains_key(peer@) {
            Some(old(registry)@.slots[peer@].stable_id)
        } else {
            None
        }),
{
    epochs.advance_enrollment_epoch(peer);
    let cancel_dial = dial_tokens.remove(&peer.to_chars());
    let close_connection = registry.close_peer(peer);
    Teardown { close_connection, cancel_dial }
}

/// After a peer is closed it has no connection slot and no dial token, and
/// no handshake for it that captured its epoch before the close is
/// admitted, pinned or not; every other peer keeps its slot, its token and
/// the admission verdicts it had.
pub proof fn lemma_closed_peer_is_shut_out(
    epochs: Map<Seq<char>, u64>,
    tokens: Map<Seq<char>, u64>,
    registry_before: RegistryView,
    peer: Seq<char>,
    other: Seq<char>,
    captured: u64,
    pinned: bool,
)
    requires
        other != peer,
    ensures
        ({
            let epochs_after = epochs.insert(peer, next_epoch(epoch_of(epochs, peer)));
            let registry_after = vacated(registry_before, peer);
            &&& !registry_after.slots.contains_key(peer)
            &&& !tokens.remove(peer).contains_key(peer)
            &&& !admissible(epochs_after, peer, epoch_of(epochs, peer), pinned)
            &&& registry_after.slots.contains_key(other) == registry_before.slots.contains_key(other)
            &&& registry_before.slots.contains_key(other) ==> registry_after.slots[other] == registry_before.slots[other]
            &&& tokens.remove(peer).contains_key(other) == tokens.contains_key(other)
            &&& admissible(epochs_after, other, captured, pinned) == admissible(epochs, other, captured, pinned)
        }),
{
}

} // verus!
