//! Persistent edits as plans: each validates an edit against the current
//! directory and yields the durable content to save before the edit is
//! applied to live state (by the matching `commit_*` method).
use vstd::prelude::*;

use crate::identity::{AgentId, PeerIdentity};
use crate::keyed::{KeyedMap, group_map_values, lemma_dom_len, lemma_map_values_insert, lemma_map_values_remove};
use crate::peer_directory::locators::views_of;
use crate::peer_directory::state::{
    DirectoryState, MAX_ENROLLED_PEERS, MAX_LOCATORS_PER_PEER, after_enroll, after_enroll_candidate,
    after_remove_peer, durable, enroll_candidate_identity, enroll_candidate_refusal, enroll_refusal, failure_of,
};
use crate::peer_directory::store::StoredPeer;
use crate::peer_directory::types::{DirectoryError, PeerLocator};
use crate::text::copy_chars;

verus! {

broadcast use group_map_values;

/// A validated persistent edit.
pub struct PersistPlan {
    /// The durable content once the edit is applied, keyed and ordered by
    /// Agent ID: what the peer store saves.
    pub saved: KeyedMap<StoredPeer>,
    /// What the edit hands back to its caller.
    pub value: PeerIdentity,
}

/// Plan promoting candidate `agent_id` (a no-op plan for an enrolled peer).
pub fn enroll_candidate_plan(current: &DirectoryState, agent_id: &AgentId) -> (r: Result<PersistPlan, DirectoryError>)
    requires
        current.wf(),
    ensures
        match r {
            Ok(p) => enroll_candidate_refusal(current@, agent_id@) is None
                && p.value@ == enroll_candidate_identity(current@, agent_id@)
                && p.saved.wf()
                && p.saved.view_map() == durable(after_enroll_candidate(current@, agent_id@, p.value@)),
            Err(e) => failure_of(e) == enroll_candidate_refusal(current@, agent_id@) && failure_of(e) is Some
                && (e matches DirectoryError::NotObserved(x) ==> x@ == agent_id@),
        },
{
    let ghost v = current@;
    let a = agent_id.to_chars();
    proof {
        lemma_dom_len(&current.enrolled);
    }
    match current.enrolled.get_value(&a) {
        Some(peer) => {
            let value = peer.identity.duplicate();
            return Ok(PersistPlan { saved: current.durable_snapshot(), value });
        },
        None => {},
    }
    let identity = match current.candidates.get_value(&a) {
        Some(c) => c.identity.duplicate(),
        None => return Err(DirectoryError::NotObserved(agent_id.duplicate())),
    };
    if current.enrolled.len() >= MAX_ENROLLED_PEERS {
        return Err(DirectoryError::EnrolledCapacity);
    }
    let mut saved = current.durable_snapshot();
    let stored = StoredPeer { agent_id: agent_id.duplicate(), public_key: identity.public_key().to_owned(), locators: Vec::new() };
    let ghost m0 = saved.as_map();
    let ghost sg = stored;
    saved.insert(copy_chars(&a), stored);
    proof {
        lemma_map_values_insert(m0, a@, sg, |x: StoredPeer| x@);
        assert(views_of(sg.locators@) =~= Seq::empty());
        assert(saved.view_map() =~= durable(after_enroll_candidate(v, a@, identity@)));
    }
    Ok(PersistPlan { saved, value: identity })
}

/// Plan enrolling `identity` with `locators` added to its configured set.
pub fn enroll_plan(current: &DirectoryState, identity: &PeerIdentity, locators: &Vec<PeerLocator>) -> (r: Result<PersistPlan, DirectoryError>)
    requires
        current.wf(),
    ensures
        match r {
            Ok(p) => enroll_refusal(current@, identity@, views_of(locators@)) is None && p.value@ == identity@
                && p.saved.wf()
                && p.saved.view_map() == durable(after_enroll(current@, identity@, views_of(locators@))),
            Err(e) => failure_of(e) == enroll_refusal(current@, identity@, views_of(locators@)) && failure_of(e) is Some,
        },
{
    let ghost v = current@;
    let a = identity.agent_id().to_chars();
    proof {
        lemma_dom_len(&current.enrolled);
    }
    let was_enrolled = current.enrolled.contains(&a);
    if !was_enrolled && current.enrolled.len() >= MAX_ENROLLED_PEERS {
        return Err(DirectoryError::EnrolledCapacity);
    }
    let merged = current.merged_locators(&a, locators);
    assert(after_enroll(v, identity@, views_of(locators@)).enrolled[a@].locators == views_of(merged@));
    if merged.len() > MAX_LOCATORS_PER_PEER {
        return Err(DirectoryError::LocatorCapacity);
    }
    let public_key = match current.enrolled.get_value(&a) {
        Some(p) => p.identity.public_key().to_owned(),
        None => identity.public_key().to_owned(),
    };
    let mut saved = current.durable_snapshot();
    let stored = StoredPeer { agent_id: identity.agent_id().duplicate(), public_key, locators: merged };
    let ghost m0 = saved.as_map();
    let ghost sg = stored;
    saved.insert(a, stored);
    proof {
        lemma_map_values_insert(m0, a@, sg, |x: StoredPeer| x@);
        assert(saved.view_map() =~= durable(after_enroll(v, identity@, views_of(locators@))));
    }
    Ok(PersistPlan { saved, value: identity.duplicate() })
}

/// Plan revoking enrolled peer `agent_id`.
pub fn remove_peer_plan(current: &DirectoryState, agent_id: &AgentId) -> (r: Result<PersistPlan, DirectoryError>)
    requires
        current.wf(),
    ensures
        match r {
            Ok(p) => current@.enrolled.contains_key(agent_id@) && p.value@ == current@.enrolled[agent_id@].identity
                && p.saved.wf()
                && p.saved.view_map() == durable(after_remove_peer(current@, agent_id@)),
            Err(e) => !current@.enrolled.contains_key(agent_id@)
                && (e matches DirectoryError::NotEnrolled(x) && x@ == agent_id@),
        },
{
    let ghost v = current@;
    let a = agent_id.to_chars();
    let value = match current.enrolled.get_value(&a) {
        Some(p) => p.identity.duplicate(),
        None => return Err(DirectoryError::NotEnrolled(agent_id.duplicate())),
    };
    let mut saved = current.durable_snapshot();
    let ghost m0 = saved.as_map();
    let _ = saved.remove(&a);
    proof {
        lemma_map_values_remove(m0, a@, |x: StoredPeer| x@);
        assert(saved.view_map() =~= durable(after_remove_peer(v, a@)));
    }
    Ok(PersistPlan { saved, value })
}

} // verus!
