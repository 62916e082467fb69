//! The directory's live state: enrolled peers, discovery candidates and the
//! index from each live observation to the peer that made it.
use vstd::prelude::*;

use crate::identity::{AgentId, PeerIdentity, PeerIdentityView, canonical_identity};
use crate::keyed::{KeyedMap, group_map_values, lemma_dom_len, lemma_map_values_insert, lemma_map_values_remove};
use crate::net::SocketAddress;
use crate::peer_directory::locators::{copy_locators, extend_locators, lemma_ordered, ordered, views_of};
use crate::peer_directory::store::{StoredPeer, StoredView};
use crate::peer_directory::types::{DirectoryError, LocatorView, ObserveOutcome, PeerLocator, PeerObservation, locator_lt};
use crate::text::{chars_equal, copy_chars};

verus! {

broadcast use group_map_values;

pub const MAX_ENROLLED_PEERS: usize = 256;
pub const MAX_CANDIDATE_PEERS: usize = 256;
pub const MAX_LOCATORS_PER_PEER: usize = 8;
pub const MAX_OBSERVATIONS_PER_PEER: usize = 16;

/// How long a live discovery observation lasts (60 s, in nanoseconds).
pub const OBSERVATION_STALE_TIMEOUT: u64 = 60_000_000_000;

/// One live observation of a peer: where it was seen, under what name,
/// and when (monotonic nanoseconds).
pub struct LiveObservation {
    pub endpoint: Option<SocketAddress>,
    pub display_name: Option<String>,
    pub observed_at: u64,
}

#[verifier::ext_equal]
pub struct ObsView {
    pub endpoint: Option<SocketAddress>,
    pub display_name: Option<Seq<char>>,
    pub observed_at: u64,
}

impl View for LiveObservation {
    type V = ObsView;

    open spec fn view(&self) -> ObsView {
        ObsView {
            endpoint: self.endpoint,
            display_name: match &self.display_name {
                Some(n) => Some(n@),
                None => None,
            },
            observed_at: self.observed_at,
        }
    }
}

pub struct EnrolledPeer {
    pub identity: PeerIdentity,
    pub locators: Vec<PeerLocator>,
    pub observations: KeyedMap<LiveObservation>,
}

#[verifier::ext_equal]
pub struct EnrolledView {
    pub identity: PeerIdentityView,
    pub locators: Seq<LocatorView>,
    pub observations: Map<Seq<char>, ObsView>,
}

impl View for EnrolledPeer {
    type V = EnrolledView;

    open spec fn view(&self) -> EnrolledView {
        EnrolledView {
            identity: self.identity@,
            locators: self.locators@.map_values(|l: PeerLocator| l@),
            observations: self.observations.view_map(),
        }
    }
}

pub struct CandidatePeer {
    pub identity: PeerIdentity,
    pub observations: KeyedMap<LiveObservation>,
}

#[verifier::ext_equal]
pub struct CandidateView {
    pub identity: PeerIdentityView,
    pub observations: Map<Seq<char>, ObsView>,
}

impl View for CandidatePeer {
    type V = CandidateView;

    open spec fn view(&self) -> CandidateView {
        CandidateView { identity: self.identity@, observations: self.observations.view_map() }
    }
}

pub struct DirectoryState {
    pub enrolled: KeyedMap<EnrolledPeer>,
    pub candidates: KeyedMap<CandidatePeer>,
    pub index: KeyedMap<AgentId>,
}

/// The directory as maps: enrolled peers and candidates by Agent ID, and
/// each live observation ID's owner.
#[verifier::ext_equal]
pub struct DirectoryView {
    pub enrolled: Map<Seq<char>, EnrolledView>,
    pub candidates: Map<Seq<char>, CandidateView>,
    pub index: Map<Seq<char>, Seq<char>>,
}

impl View for DirectoryState {
    type V = DirectoryView;

    open spec fn view(&self) -> DirectoryView {
        DirectoryView {
            enrolled: self.enrolled.view_map(),
            candidates: self.candidates.view_map(),
            index: self.index.view_map(),
        }
    }
}

/// Whether agent `a` holds live observation `k`.
pub open spec fn owns(v: DirectoryView, a: Seq<char>, k: Seq<char>) -> bool {
    ||| v.enrolled.contains_key(a) && v.enrolled[a].observations.contains_key(k)
    ||| v.candidates.contains_key(a) && v.candidates[a].observations.contains_key(k)
}

pub open spec fn locators_sorted(ls: Seq<LocatorView>) -> bool {
    forall|i: int, j: int| 0 <= i < j < ls.len() ==> locator_lt(#[trigger] ls[i], #[trigger] ls[j])
}

/// The directory's invariant: records are keyed by their own Agent ID and
/// hold canonical key bindings, no
/// peer is both enrolled and a candidate, every candidate has a live
/// observation, capacity bounds hold, and the observation index holds
/// exactly the live observations with their owners (no ghost entries).
pub open spec fn view_wf(v: DirectoryView) -> bool {
    &&& v.enrolled.dom().finite()
    &&& v.candidates.dom().finite()
    &&& v.index.dom().finite()
    &&& forall|a: Seq<char>|
        #[trigger] v.enrolled.contains_key(a) ==> {
            &&& v.enrolled[a].identity.agent_id == a
            &&& canonical_identity(v.enrolled[a].identity)
            &&& v.enrolled[a].observations.dom().finite()
            &&& v.enrolled[a].observations.len() <= MAX_OBSERVATIONS_PER_PEER
            &&& locators_sorted(v.enrolled[a].locators)
        }
    &&& forall|a: Seq<char>|
        #[trigger] v.candidates.contains_key(a) ==> {
            &&& v.candidates[a].identity.agent_id == a
            &&& canonical_identity(v.candidates[a].identity)
            &&& v.candidates[a].observations.dom().finite()
            &&& 1 <= v.candidates[a].observations.len() <= MAX_OBSERVATIONS_PER_PEER
        }
    &&& v.candidates.len() <= MAX_CANDIDATE_PEERS
    &&& forall|a: Seq<char>| !(#[trigger] v.enrolled.contains_key(a) && v.candidates.contains_key(a))
    &&& forall|k: Seq<char>| #[trigger] v.index.contains_key(k) ==> owns(v, v.index[k], k)
    &&& forall|a: Seq<char>, k: Seq<char>| #[trigger] owns(v, a, k) ==> v.index.contains_key(k) && v.index[k] == a
}

impl DirectoryState {
    /// Every map is ordered and every record's own maps are ordered.
    pub open spec fn concrete_wf(&self) -> bool {
        &&& self.enrolled.wf()
        &&& self.candidates.wf()
        &&& self.index.wf()
        &&& forall|k: Seq<char>| #[trigger] self.enrolled.as_map().contains_key(k) ==> self.enrolled.as_map()[k].observations.wf()
        &&& forall|k: Seq<char>| #[trigger] self.candidates.as_map().contains_key(k) ==> self.candidates.as_map()[k].observations.wf()
    }

    pub open spec fn wf(&self) -> bool {
        self.concrete_wf() && view_wf(self@)
    }
}

/// The directory after withdrawing live observation `k`: its owner loses it,
/// and a candidate left without observations is dropped.
pub open spec fn without_observation(v: DirectoryView, k: Seq<char>) -> DirectoryView {
    if !v.index.contains_key(k) {
        v
    } else {
        let a = v.index[k];
        let enrolled = if v.enrolled.contains_key(a) {
            v.enrolled.insert(a, EnrolledView { observations: v.enrolled[a].observations.remove(k), ..v.enrolled[a] })
        } else {
            v.enrolled
        };
        let candidates = if v.candidates.contains_key(a) {
            let rest = v.candidates[a].observations.remove(k);
            if rest.len() == 0 {
                v.candidates.remove(a)
            } else {
                v.candidates.insert(a, CandidateView { observations: rest, ..v.candidates[a] })
            }
        } else {
            v.candidates
        };
        DirectoryView { enrolled, candidates, index: v.index.remove(k) }
    }
}

impl DirectoryState {
    pub fn new() -> (s: DirectoryState)
        ensures
            s.wf(),
            s@.enrolled == Map::<Seq<char>, EnrolledView>::empty(),
            s@.candidates == Map::<Seq<char>, CandidateView>::empty(),
            s@.index == Map::<Seq<char>, Seq<char>>::empty(),
    {
        let s = DirectoryState { enrolled: KeyedMap::new(), candidates: KeyedMap::new(), index: KeyedMap::new() };
        proof {
            lemma_dom_len(&s.enrolled);
            lemma_dom_len(&s.candidates);
            lemma_dom_len(&s.index);
            assert(s@.enrolled =~= Map::<Seq<char>, EnrolledView>::empty());
            assert(s@.candidates =~= Map::<Seq<char>, CandidateView>::empty());
            assert(s@.index =~= Map::<Seq<char>, Seq<char>>::empty());
        }
        s
    }

    /// Withdraw live observation `id`, returning its owner.
    pub fn remove_observation(&mut self, id: &Vec<char>) -> (r: Option<AgentId>)
        requires
            old(self).wf(),
        ensures
            final(self).wf(),
            final(self)@ == without_observation(old(self)@, id@),
            r matches Some(a) ==> old(self)@.index.contains_key(id@) && a@ == old(self)@.index[id@],
            r is None ==> !old(self)@.index.contains_key(id@),
    {
        let ghost v0 = self@;
        let agent = match self.index.remove(id) {
            None => {
                assert(self@ == old(self)@);
                return None;
            },
            Some(a) => a,
        };
        proof {
            lemma_map_values_remove(old(self).index.as_map(), id@, |v: AgentId| v@);
            assert(self@.index == v0.index.remove(id@));
        }
        let key = agent.to_chars();
        let ghost a = key@;
        assert(v0.index[id@] == a);
        let ghost e0 = self.enrolled.as_map();
        let e_removed = self.enrolled.remove(&key);
        match e_removed {
            Some(mut peer) => {
                assert(e0.contains_key(a) && e0[a] == peer);
                let ghost pv = peer@;
                let ghost om = peer.observations.as_map();
                let _gone = peer.observations.remove(id);
                proof {
                    lemma_map_values_remove(om, id@, |v: LiveObservation| v@);
                    assert(peer@.observations =~= pv.observations.remove(id@));
                    assert(peer@ =~= EnrolledView { observations: v0.enrolled[a].observations.remove(id@), ..v0.enrolled[a] });
                }
                self.enrolled.insert(copy_chars(&key), peer);
                proof {
                    assert(self.enrolled.as_map() == e0.remove(a).insert(a, peer));
                    assert(e0.remove(a).insert(a, peer) =~= e0.insert(a, peer));
                    lemma_map_values_insert(e0, a, peer, |v: EnrolledPeer| v@);
                }
            },
            None => {},
        }
        let ghost c0 = self.candidates.as_map();
        let c_removed = self.candidates.remove(&key);
        match c_removed {
            Some(mut peer) => {
                assert(c0.contains_key(a) && c0[a] == peer);
                let ghost pv = peer@;
                let ghost om = peer.observations.as_map();
                let _gone = peer.observations.remove(id);
                proof {
                    lemma_map_values_remove(om, id@, |v: LiveObservation| v@);
                    assert(peer@.observations =~= pv.observations.remove(id@));
                    lemma_dom_len(&peer.observations);
                    lemma_map_values_remove(c0, a, |v: CandidatePeer| v@);
                }
                if peer.observations.len() > 0 {
                    self.candidates.insert(key, peer);
                    proof {
                        assert(self.candidates.as_map() == c0.remove(a).insert(a, peer));
                        assert(c0.remove(a).insert(a, peer) =~= c0.insert(a, peer));
                        lemma_map_values_insert(c0, a, peer, |v: CandidatePeer| v@);
                        assert(peer@ =~= CandidateView { observations: v0.candidates[a].observations.remove(id@), ..v0.candidates[a] });
                    }
                }
            },
            None => {},
        }
        proof {
            assert(self@ =~~= without_observation(v0, id@));
            lemma_without_observation_wf(v0, id@);
        }
        Some(agent)
    }
}

/// Withdrawing a live observation keeps the directory's invariant.
pub proof fn lemma_without_observation_wf(v: DirectoryView, k: Seq<char>)
    requires
        view_wf(v),
    ensures
        view_wf(without_observation(v, k)),
{
    if v.index.contains_key(k) {
        let w = without_observation(v, k);
        let a = v.index[k];
        assert(owns(v, a, k));
        if v.candidates.contains_key(a) {
            v.candidates[a].observations.lemma_remove_key_len(k);
            if v.candidates[a].observations.remove(k).len() == 0 {
                v.candidates.lemma_remove_key_len(a);
            }
        }
        assert forall|x: Seq<char>| #[trigger] w.index.contains_key(x) implies owns(w, w.index[x], x) by {
            assert(owns(v, v.index[x], x));
        }
        assert forall|b: Seq<char>, x: Seq<char>| #[trigger] owns(w, b, x) implies w.index.contains_key(x) && w.index[x] == b by {
            assert(owns(v, b, x));
        }
        assert forall|b: Seq<char>| #[trigger] w.enrolled.contains_key(b) implies {
            &&& w.enrolled[b].identity.agent_id == b
            &&& w.enrolled[b].observations.dom().finite()
            &&& w.enrolled[b].observations.len() <= MAX_OBSERVATIONS_PER_PEER
            &&& locators_sorted(w.enrolled[b].locators)
        } by {
            if b == a {
                v.enrolled[a].observations.lemma_remove_key_len(k);
            }
        }
        assert forall|b: Seq<char>| #[trigger] w.candidates.contains_key(b) implies {
            &&& w.candidates[b].identity.agent_id == b
            &&& w.candidates[b].observations.dom().finite()
            &&& 1 <= w.candidates[b].observations.len() <= MAX_OBSERVATIONS_PER_PEER
        } by {
        }
    }
}

/// The view of an observation record.
pub open spec fn obs_of(v: DirectoryView, b: Seq<char>, k: Seq<char>) -> ObsView {
    if v.enrolled.contains_key(b) {
        v.enrolled[b].observations[k]
    } else {
        v.candidates[b].observations[k]
    }
}

/// Whether a peer other than `a` holds a live observation at endpoint `e`.
pub open spec fn contested(v: DirectoryView, a: Seq<char>, e: SocketAddress) -> bool {
    exists|b: Seq<char>, k: Seq<char>| b != a && #[trigger] owns(v, b, k) && obs_of(v, b, k).endpoint == Some(e)
}

/// An observation of `a` whose endpoint another peer also claims: such an
/// endpoint is quarantined, neither dialed nor listed.
pub open spec fn quarantined(v: DirectoryView, a: Seq<char>, o: ObsView) -> bool {
    match o.endpoint {
        Some(e) => contested(v, a, e),
        None => false,
    }
}

pub open spec fn observation_view(o: PeerObservation) -> ObsView {
    ObsView {
        endpoint: o.endpoint,
        display_name: match o.display_name {
            Some(n) => Some(n@),
            None => None,
        },
        observed_at: o.observed_at,
    }
}

pub open spec fn refresh_outcome(
    x: DirectoryView,
    a: Seq<char>,
    o: ObsView,
    was_enrolled: bool,
    was_candidate: bool,
) -> ObserveOutcome {
    if quarantined(x, a, o) {
        ObserveOutcome::LocatorConflict
    } else if was_enrolled {
        ObserveOutcome::EnrolledPeerRefreshed
    } else if was_candidate {
        ObserveOutcome::CandidateRefreshed
    } else {
        ObserveOutcome::CandidateAdded
    }
}

/// The directory after recording observation `id` of `identity` (seen as
/// `o`), and the outcome: the local agent is ignored; an ID already held by
/// another peer is refused; a new candidate beyond capacity is refused; the
/// ID's earlier record is then withdrawn and, within the per-peer bound,
/// the observation is added to the enrolled record or to the (possibly new)
/// candidate record.
pub open spec fn observed(
    v: DirectoryView,
    local: Seq<char>,
    id: Seq<char>,
    identity: PeerIdentityView,
    o: ObsView,
) -> (DirectoryView, ObserveOutcome) {
    let a = identity.agent_id;
    if a == local {
        (v, ObserveOutcome::IgnoredSelf)
    } else if v.index.contains_key(id) && v.index[id] != a {
        (v, ObserveOutcome::IdentityConflict)
    } else {
        let was_enrolled = v.enrolled.contains_key(a);
        let was_candidate = v.candidates.contains_key(a);
        if !was_enrolled && !was_candidate && v.candidates.len() >= MAX_CANDIDATE_PEERS {
            (v, ObserveOutcome::CapacityReached)
        } else {
            let w = without_observation(v, id);
            if was_enrolled {
                if w.enrolled[a].observations.len() >= MAX_OBSERVATIONS_PER_PEER {
                    (w, ObserveOutcome::CapacityReached)
                } else {
                    let x = DirectoryView {
                        enrolled: w.enrolled.insert(
                            a,
                            EnrolledView { observations: w.enrolled[a].observations.insert(id, o), ..w.enrolled[a] },
                        ),
                        index: w.index.insert(id, a),
                        ..w
                    };
                    (x, refresh_outcome(x, a, o, was_enrolled, was_candidate))
                }
            } else if w.candidates.contains_key(a) && w.candidates[a].observations.len() >= MAX_OBSERVATIONS_PER_PEER {
                (w, ObserveOutcome::CapacityReached)
            } else {
                let base = if w.candidates.contains_key(a) {
                    w.candidates[a]
                } else {
                    CandidateView { identity, observations: Map::empty() }
                };
                let x = DirectoryView {
                    candidates: w.candidates.insert(
                        a,
                        CandidateView { observations: base.observations.insert(id, o), ..base },
                    ),
                    index: w.index.insert(id, a),
                    ..w
                };
                (x, refresh_outcome(x, a, o, was_enrolled, was_candidate))
            }
        }
    }
}

impl DirectoryState {
    /// Whether a peer other than `a` holds a live observation at `e`.
    pub fn is_contested(&self, a: &Vec<char>, e: &SocketAddress) -> (r: bool)
        requires
            self.wf(),
        ensures
            r == contested(self@, a@, *e),
    {
        let ghost v = self@;
        let mut i: usize = 0;
        while i < self.enrolled.len()
            invariant
                self.wf(),
                v == self@,
                i <= self.enrolled.entries@.len(),
                forall|i2: int, k: Seq<char>| 0 <= i2 < i && self.enrolled.key_at(i2) != a@
                    && #[trigger] self.enrolled.val_at(i2).observations.as_map().contains_key(k)
                    ==> self.enrolled.val_at(i2).observations.as_map()[k].endpoint != Some(*e),
            decreases self.enrolled.entries@.len() - i,
        {
            let ghost b = self.enrolled.key_at(i as int);
            proof {
                self.enrolled.lemma_index_unique(i as int, b);
                assert(self.enrolled.as_map().contains_key(b));
                assert(self.enrolled.as_map()[b] == self.enrolled.val_at(i as int));
            }
            if !chars_equal(&self.enrolled.entries[i].0, a) {
                let obs = &self.enrolled.entries[i].1.observations;
                let mut j: usize = 0;
                while j < obs.len()
                    invariant
                        self.wf(),
                        v == self@,
                        i < self.enrolled.entries@.len(),
                        obs == self.enrolled.val_at(i as int).observations,
                        obs.wf(),
                        self.enrolled.as_map().contains_key(b),
                        self.enrolled.as_map()[b] == self.enrolled.val_at(i as int),
                        b != a@,
                        j <= obs.entries@.len(),
                        forall|j2: int| 0 <= j2 < j ==> (#[trigger] obs.val_at(j2)).endpoint != Some(*e),
                    decreases obs.entries@.len() - j,
                {
                    if let Some(x) = obs.entries[j].1.endpoint {
                        if x == *e {
                            proof {
                                let k = obs.key_at(j as int);
                                obs.lemma_index_unique(j as int, k);
                                assert(obs.as_map().contains_key(k));
                                assert(owns(v, b, k));
                                assert(obs_of(v, b, k).endpoint == Some(*e));
                            }
                            return true;
                        }
                    }
                    j = j + 1;
                }
                proof {
                    assert forall|k: Seq<char>| #[trigger] obs.as_map().contains_key(k) implies obs.as_map()[k].endpoint != Some(*e) by {
                        let jj = obs.index_of(k);
                        obs.lemma_index_unique(jj, k);
                    }
                }
            }
            i = i + 1;
        }
        let mut i: usize = 0;
        while i < self.candidates.len()
            invariant
                self.wf(),
                v == self@,
                i <= self.candidates.entries@.len(),
                forall|i2: int, k: Seq<char>| 0 <= i2 < self.enrolled.entries@.len() && self.enrolled.key_at(i2) != a@
                    && #[trigger] self.enrolled.val_at(i2).observations.as_map().contains_key(k)
                    ==> self.enrolled.val_at(i2).observations.as_map()[k].endpoint != Some(*e),
                forall|i2: int, k: Seq<char>| 0 <= i2 < i && self.candidates.key_at(i2) != a@
                    && #[trigger] self.candidates.val_at(i2).observations.as_map().contains_key(k)
                    ==> self.candidates.val_at(i2).observations.as_map()[k].endpoint != Some(*e),
            decreases self.candidates.entries@.len() - i,
        {
            let ghost b = self.candidates.key_at(i as int);
            proof {
                self.candidates.lemma_index_unique(i as int, b);
                assert(self.candidates.as_map().contains_key(b));
                assert(self.candidates.as_map()[b] == self.candidates.val_at(i as int));
            }
            if !chars_equal(&self.candidates.entries[i].0, a) {
                let obs = &self.candidates.entries[i].1.observations;
                let mut j: usize = 0;
                while j < obs.len()
                    invariant
                        self.wf(),
                        v == self@,
                        i < self.candidates.entries@.len(),
                        obs == self.candidates.val_at(i as int).observations,
                        obs.wf(),
                        self.candidates.as_map().contains_key(b),
                        self.candidates.as_map()[b] == self.candidates.val_at(i as int),
                        b != a@,
                        j <= obs.entries@.len(),
                        forall|j2: int| 0 <= j2 < j ==> (#[trigger] obs.val_at(j2)).endpoint != Some(*e),
                    decreases obs.entries@.len() - j,
                {
                    if let Some(x) = obs.entries[j].1.endpoint {
                        if x == *e {
                            proof {
                                let k = obs.key_at(j as int);
                                obs.lemma_index_unique(j as int, k);
                                assert(obs.as_map().contains_key(k));
                                assert(owns(v, b, k));
                                assert(obs_of(v, b, k).endpoint == Some(*e));
                            }
                            return true;
                        }
                    }
                    j = j + 1;
                }
                proof {
                    assert forall|k: Seq<char>| #[trigger] obs.as_map().contains_key(k) implies obs.as_map()[k].endpoint != Some(*e) by {
                        let jj = obs.index_of(k);
                        obs.lemma_index_unique(jj, k);
                    }
                }
            }
            i = i + 1;
        }
        proof {
            if contested(v, a@, *e) {
                let (b, k) = choose|b: Seq<char>, k: Seq<char>| b != a@ && #[trigger] owns(v, b, k) && obs_of(v, b, k).endpoint == Some(*e);
                if v.enrolled.contains_key(b) {
                    let ii = self.enrolled.index_of(b);
                    self.enrolled.lemma_index_unique(ii, b);
                    assert(self.enrolled.val_at(ii).observations.as_map().contains_key(k));
                } else {
                    let ii = self.candidates.index_of(b);
                    self.candidates.lemma_index_unique(ii, b);
                    assert(self.candidates.val_at(ii).observations.as_map().contains_key(k));
                }
            }
        }
        false
    }
}

impl DirectoryState {
    /// Record a discovery observation (see `observed`).
    pub fn observe(&mut self, local: &AgentId, obs: PeerObservation) -> (r: ObserveOutcome)
        requires
            old(self).wf(),
        ensures
            final(self).wf(),
            (final(self)@, r) == observed(old(self)@, local@, obs.id@, obs.identity@, observation_view(obs)),
    {
        let ghost v = self@;
        let ghost ov = observation_view(obs);
        let a = obs.identity.agent_id().to_chars();
        if chars_equal(&a, &local.to_chars()) {
            return ObserveOutcome::IgnoredSelf;
        }
        let id = obs.id.to_chars();
        match self.index.get_value(&id) {
            Some(owner) => {
                if !owner.same_as(obs.identity.agent_id()) {
                    return ObserveOutcome::IdentityConflict;
                }
            },
            None => {},
        }
        let was_enrolled = self.enrolled.contains(&a);
        let was_candidate = self.candidates.contains(&a);
        proof {
            lemma_dom_len(&self.candidates);
        }
        if !was_enrolled && !was_candidate && self.candidates.len() >= MAX_CANDIDATE_PEERS {
            proof {
                lemma_dom_len(&self.candidates);
            }
            return ObserveOutcome::CapacityReached;
        }
        let _previous = self.remove_observation(&id);
        let ghost w = self@;
        assert(w == without_observation(v, id@));
        proof {
            lemma_without_observation_wf(v, id@);
        }
        let endpoint = obs.endpoint;
        let live = LiveObservation { endpoint: obs.endpoint, display_name: obs.display_name, observed_at: obs.observed_at };
        assert(live@ == ov);
        let ghost x = observed(v, local@, obs.id@, obs.identity@, ov).0;
        if was_enrolled {
            let ghost e0 = self.enrolled.as_map();
            assert(w.enrolled.contains_key(a@));
            assert(self.enrolled.has(a@));
            let mut peer = match self.enrolled.remove(&a) {
                Some(p) => p,
                None => {
                    assert(false);
                    return ObserveOutcome::CapacityReached;
                },
            };
            assert(e0.contains_key(a@) && e0[a@] == peer);
            proof {
                lemma_dom_len(&peer.observations);
            }
            if peer.observations.len() >= MAX_OBSERVATIONS_PER_PEER {
                self.enrolled.insert(copy_chars(&a), peer);
                proof {
                    assert(self.enrolled.as_map() =~= e0);
                    assert(self@ =~~= w);
                }
                return ObserveOutcome::CapacityReached;
            }
            let ghost om = peer.observations.as_map();
            peer.observations.insert(copy_chars(&id), live);
            proof {
                lemma_map_values_insert(om, id@, live, |x: LiveObservation| x@);
                assert(peer@ =~~= EnrolledView { observations: w.enrolled[a@].observations.insert(id@, ov), ..w.enrolled[a@] });
            }
            self.enrolled.insert(copy_chars(&a), peer);
            proof {
                assert(self.enrolled.as_map() =~= e0.insert(a@, peer));
                lemma_map_values_insert(e0, a@, peer, |x: EnrolledPeer| x@);
                assert(self@.enrolled =~~= w.enrolled.insert(a@, EnrolledView { observations: w.enrolled[a@].observations.insert(id@, ov), ..w.enrolled[a@] }));
                assert(self@.candidates =~~= w.candidates);
                assert(self@.enrolled == x.enrolled);
                assert(self@.candidates == x.candidates);
            }
        } else {
            let ghost c0 = self.candidates.as_map();
            match self.candidates.remove(&a) {
                Some(mut peer) => {
                    assert(c0.contains_key(a@) && c0[a@] == peer);
                    proof {
                        lemma_dom_len(&peer.observations);
                    }
                    if peer.observations.len() >= MAX_OBSERVATIONS_PER_PEER {
                        self.candidates.insert(copy_chars(&a), peer);
                        proof {
                            assert(self.candidates.as_map() =~= c0);
                            assert(self@ =~~= w);
                        }
                        return ObserveOutcome::CapacityReached;
                    }
                    let ghost om = peer.observations.as_map();
                    peer.observations.insert(copy_chars(&id), live);
                    proof {
                        lemma_map_values_insert(om, id@, live, |x: LiveObservation| x@);
                        assert(peer@ =~~= CandidateView { observations: w.candidates[a@].observations.insert(id@, ov), ..w.candidates[a@] });
                    }
                    self.candidates.insert(copy_chars(&a), peer);
                    proof {
                        assert(self.candidates.as_map() =~= c0.insert(a@, peer));
                        lemma_map_values_insert(c0, a@, peer, |x: CandidatePeer| x@);
                        assert(self@.candidates =~~= w.candidates.insert(a@, CandidateView { observations: w.candidates[a@].observations.insert(id@, ov), ..w.candidates[a@] }));
                        assert(self@.enrolled =~~= w.enrolled);
                        assert(self@.enrolled == x.enrolled);
                        assert(self@.candidates == x.candidates);
                    }
                },
                None => {
                    let mut observations = KeyedMap::new();
                    let ghost om = observations.as_map();
                    observations.insert(copy_chars(&id), live);
                    proof {
                        lemma_map_values_insert(om, id@, live, |x: LiveObservation| x@);
                        assert(om =~= Map::empty());
                    }
                    let peer = CandidatePeer { identity: obs.identity.duplicate(), observations };
                    proof {
                        assert(peer@ =~~= CandidateView { identity: obs.identity@, observations: Map::<Seq<char>, ObsView>::empty().insert(id@, ov) });
                    }
                    self.candidates.insert(copy_chars(&a), peer);
                    proof {
                        assert(self.candidates.as_map() =~= c0.insert(a@, peer));
                        lemma_map_values_insert(c0, a@, peer, |x: CandidatePeer| x@);
                        assert(!w.candidates.contains_key(a@));
                        assert(self@.candidates =~~= w.candidates.insert(a@, CandidateView { identity: obs.identity@, observations: Map::<Seq<char>, ObsView>::empty().insert(id@, ov) }));
                        assert(self@.enrolled =~~= w.enrolled);
                        assert(self@.enrolled == x.enrolled);
                        assert(self@.candidates == x.candidates);
                    }
                },
            }
        }
        let ghost i0 = self.index.as_map();
        let owner = obs.identity.agent_id().duplicate();
        let ghost owner_g = owner;
        self.index.insert(id, owner);
        proof {
            lemma_map_values_insert(i0, id@, owner_g, |x: AgentId| x@);
        }
        assert(self@.index =~= w.index.insert(id@, a@));
        assert(self@.enrolled == x.enrolled);
        assert(self@.candidates == x.candidates);
        assert(self@.index == x.index);
        assert(self@ =~~= x);
        proof {
            use_type_invariant(&obs.identity);
            lemma_observed_wf(v, local@, obs.id@, obs.identity@, ov);
        }
        let conflicted = match endpoint {
            Some(e) => self.is_contested(&a, &e),
            None => false,
        };
        if conflicted {
            ObserveOutcome::LocatorConflict
        } else if was_enrolled {
            ObserveOutcome::EnrolledPeerRefreshed
        } else if was_candidate {
            ObserveOutcome::CandidateRefreshed
        } else {
            ObserveOutcome::CandidateAdded
        }
    }
}

/// The durable content of a directory: each enrolled peer's key binding and
/// configured locators.
pub open spec fn durable(v: DirectoryView) -> Map<Seq<char>, StoredView> {
    Map::new(
        |a: Seq<char>| v.enrolled.contains_key(a),
        |a: Seq<char>| StoredView { agent_id: a, public_key: v.enrolled[a].identity.public_key, locators: v.enrolled[a].locators },
    )
}

/// The TLS pin set: each enrolled Agent ID with its public key.
pub open spec fn pins_of(v: DirectoryView) -> Map<Seq<char>, Seq<char>> {
    Map::new(|a: Seq<char>| v.enrolled.contains_key(a), |a: Seq<char>| v.enrolled[a].identity.public_key)
}

/// Candidate `a` promoted with `identity`, keeping its current observations.
pub open spec fn after_enroll_candidate(v: DirectoryView, a: Seq<char>, identity: PeerIdentityView) -> DirectoryView {
    if v.enrolled.contains_key(a) {
        v
    } else {
        let observations = if v.candidates.contains_key(a) {
            v.candidates[a].observations
        } else {
            Map::empty()
        };
        DirectoryView {
            enrolled: v.enrolled.insert(a, EnrolledView { identity, locators: Seq::empty(), observations }),
            candidates: v.candidates.remove(a),
            index: v.index,
        }
    }
}

/// `identity` enrolled (or kept, if already enrolled) with `locators` added
/// to its configured set; a candidate record's observations move along.
pub open spec fn after_enroll(v: DirectoryView, identity: PeerIdentityView, locators: Seq<LocatorView>) -> DirectoryView {
    let a = identity.agent_id;
    let observations = if v.candidates.contains_key(a) {
        v.candidates[a].observations
    } else {
        Map::empty()
    };
    let base = if v.enrolled.contains_key(a) {
        v.enrolled[a]
    } else {
        EnrolledView { identity, locators: Seq::empty(), observations }
    };
    DirectoryView {
        enrolled: v.enrolled.insert(
            a,
            EnrolledView { locators: ordered(base.locators.to_set() + locators.to_set()), ..base },
        ),
        candidates: v.candidates.remove(a),
        index: v.index,
    }
}

/// Enrolled peer `a` revoked, its live observations withdrawn with it.
pub open spec fn after_remove_peer(v: DirectoryView, a: Seq<char>) -> DirectoryView {
    if v.enrolled.contains_key(a) {
        DirectoryView {
            enrolled: v.enrolled.remove(a),
            candidates: v.candidates,
            index: v.index.remove_keys(v.enrolled[a].observations.dom()),
        }
    } else {
        v
    }
}

/// The failure kinds of a persistent edit.
pub enum EditFailure {
    NotEnrolled,
    NotObserved,
    EnrolledCapacity,
    LocatorCapacity,
    LocalAgentId,
}

pub open spec fn failure_of(e: DirectoryError) -> Option<EditFailure> {
    match e {
        DirectoryError::NotEnrolled(_) => Some(EditFailure::NotEnrolled),
        DirectoryError::NotObserved(_) => Some(EditFailure::NotObserved),
        DirectoryError::EnrolledCapacity => Some(EditFailure::EnrolledCapacity),
        DirectoryError::LocatorCapacity => Some(EditFailure::LocatorCapacity),
        DirectoryError::LocalAgentId(_) => Some(EditFailure::LocalAgentId),
        DirectoryError::Persist(_) => None,
    }
}

/// When promoting candidate `a` is refused.
pub open spec fn enroll_candidate_refusal(v: DirectoryView, a: Seq<char>) -> Option<EditFailure> {
    if v.enrolled.contains_key(a) {
        None
    } else if !v.candidates.contains_key(a) {
        Some(EditFailure::NotObserved)
    } else if v.enrolled.len() >= MAX_ENROLLED_PEERS {
        Some(EditFailure::EnrolledCapacity)
    } else {
        None
    }
}

/// The identity that promoting `a` yields.
pub open spec fn enroll_candidate_identity(v: DirectoryView, a: Seq<char>) -> PeerIdentityView {
    if v.enrolled.contains_key(a) {
        v.enrolled[a].identity
    } else {
        v.candidates[a].identity
    }
}

/// When enrolling `identity` with `locators` is refused.
pub open spec fn enroll_refusal(v: DirectoryView, identity: PeerIdentityView, locators: Seq<LocatorView>) -> Option<EditFailure> {
    let a = identity.agent_id;
    if !v.enrolled.contains_key(a) && v.enrolled.len() >= MAX_ENROLLED_PEERS {
        Some(EditFailure::EnrolledCapacity)
    } else if after_enroll(v, identity, locators).enrolled[a].locators.len() > MAX_LOCATORS_PER_PEER {
        Some(EditFailure::LocatorCapacity)
    } else {
        None
    }
}

impl DirectoryState {
    /// The `i`-th enrolled entry is the record of its own key.
    pub proof fn lemma_enrolled_at(&self, i: int)
        requires
            self.wf(),
            0 <= i < self.enrolled.entries@.len(),
        ensures
            self@.enrolled.contains_key(self.enrolled.key_at(i)),
            self@.enrolled[self.enrolled.key_at(i)] == self.enrolled.val_at(i)@,
            self.enrolled.val_at(i)@.identity.agent_id == self.enrolled.key_at(i),
            self.enrolled.val_at(i).observations.wf(),
    {
        let a = self.enrolled.key_at(i);
        self.enrolled.lemma_index_unique(i, a);
        assert(self.enrolled.as_map().contains_key(a));
        assert(self.enrolled.as_map()[a] == self.enrolled.val_at(i));
        assert(self@.enrolled.contains_key(a));
    }

    /// The `i`-th candidate entry is the record of its own key.
    pub proof fn lemma_candidate_at(&self, i: int)
        requires
            self.wf(),
            0 <= i < self.candidates.entries@.len(),
        ensures
            self@.candidates.contains_key(self.candidates.key_at(i)),
            self@.candidates[self.candidates.key_at(i)] == self.candidates.val_at(i)@,
            self.candidates.val_at(i)@.identity.agent_id == self.candidates.key_at(i),
            self.candidates.val_at(i).observations.wf(),
    {
        let a = self.candidates.key_at(i);
        self.candidates.lemma_index_unique(i, a);
        assert(self.candidates.as_map().contains_key(a));
        assert(self.candidates.as_map()[a] == self.candidates.val_at(i));
        assert(self@.candidates.contains_key(a));
    }

    /// The stored form of every enrolled peer, keyed and ordered by Agent ID.
    pub fn durable_snapshot(&self) -> (r: KeyedMap<StoredPeer>)
        requires
            self.wf(),
        ensures
            r.wf(),
            r.view_map() == durable(self@),
    {
        let mut r: KeyedMap<StoredPeer> = KeyedMap::new();
        let mut i: usize = 0;
        while i < self.enrolled.len()
            invariant
                self.wf(),
                r.wf(),
                i <= self.enrolled.entries@.len(),
                forall|a: Seq<char>| #[trigger] r.view_map().contains_key(a) <==> exists|j: int| 0 <= j < i && self.enrolled.key_at(j) == a,
                forall|a: Seq<char>| #[trigger] r.view_map().contains_key(a) ==> r.view_map()[a] == durable(self@)[a],
            decreases self.enrolled.entries@.len() - i,
        {
            let peer = &self.enrolled.entries[i].1;
            let ghost a = self.enrolled.key_at(i as int);
            proof {
                self.lemma_enrolled_at(i as int);
            }
            let stored = StoredPeer {
                agent_id: peer.identity.agent_id().duplicate(),
                public_key: peer.identity.public_key().to_owned(),
                locators: copy_locators(&peer.locators),
            };
            let ghost m0 = r.as_map();
            let ghost old_map = r.view_map();
            r.insert(copy_chars(&self.enrolled.entries[i].0), stored);
            proof {
                lemma_map_values_insert(m0, a, stored, |x: StoredPeer| x@);
                assert(stored@ == durable(self@)[a]);
                assert(r.view_map() == old_map.insert(a, stored@));
                assert forall|b: Seq<char>| #[trigger] r.view_map().contains_key(b) <==> exists|j: int| 0 <= j < i + 1 && self.enrolled.key_at(j) == b by {
                    if b == a {
                        assert(self.enrolled.key_at(i as int) == b);
                    } else if exists|j: int| 0 <= j < i + 1 && self.enrolled.key_at(j) == b {
                        let j = choose|j: int| 0 <= j < i + 1 && self.enrolled.key_at(j) == b;
                        assert(j != i);
                        assert(old_map.contains_key(b));
                    }
                }
                assert forall|b: Seq<char>| #[trigger] r.view_map().contains_key(b) implies r.view_map()[b] == durable(self@)[b] by {
                    if b != a {
                        assert(old_map.contains_key(b));
                    }
                }
            }
            i = i + 1;
        }
        proof {
            assert forall|a: Seq<char>| #[trigger] r.view_map().contains_key(a) <==> durable(self@).contains_key(a) by {
                if durable(self@).contains_key(a) {
                    let j = self.enrolled.index_of(a);
                    self.enrolled.lemma_index_unique(j, a);
                }
            }
            assert(r.view_map() =~= durable(self@));
        }
        r
    }

    /// Each enrolled Agent ID with its public key, in Agent ID order.
    pub fn pins(&self) -> (r: Vec<(String, String)>)
        requires
            self.wf(),
        ensures
            r@.len() == self.enrolled.entries@.len(),
            forall|i: int| 0 <= i < r@.len() ==> (#[trigger] r@[i]).0@ == self.enrolled.key_at(i)
                && r@[i].1@ == pins_of(self@)[self.enrolled.key_at(i)],
    {
        let mut r: Vec<(String, String)> = Vec::new();
        let mut i: usize = 0;
        while i < self.enrolled.len()
            invariant
                self.wf(),
                i <= self.enrolled.entries@.len(),
                r@.len() == i,
                forall|j: int| 0 <= j < i ==> (#[trigger] r@[j]).0@ == self.enrolled.key_at(j)
                    && r@[j].1@ == pins_of(self@)[self.enrolled.key_at(j)],
            decreases self.enrolled.entries@.len() - i,
        {
            let peer = &self.enrolled.entries[i].1;
            proof {
                self.lemma_enrolled_at(i as int);
            }
            let ghost r0 = r@;
            r.push((peer.identity.agent_id().as_str().to_owned(), peer.identity.public_key().to_owned()));
            assert forall|j: int| 0 <= j < i + 1 implies (#[trigger] r@[j]).0@ == self.enrolled.key_at(j)
                && r@[j].1@ == pins_of(self@)[self.enrolled.key_at(j)] by {
                if j < i {
                    assert(r@[j] == r0[j]);
                }
            }
            i = i + 1;
        }
        r
    }

    /// The enrolled Agent IDs in order.
    pub fn enrolled_agent_ids(&self) -> (r: Vec<AgentId>)
        requires
            self.wf(),
        ensures
            r@.len() == self.enrolled.entries@.len(),
            forall|i: int| 0 <= i < r@.len() ==> (#[trigger] r@[i])@ == self.enrolled.key_at(i),
    {
        let mut r: Vec<AgentId> = Vec::new();
        let mut i: usize = 0;
        while i < self.enrolled.len()
            invariant
                self.wf(),
                i <= self.enrolled.entries@.len(),
                r@.len() == i,
                forall|j: int| 0 <= j < i ==> (#[trigger] r@[j])@ == self.enrolled.key_at(j),
            decreases self.enrolled.entries@.len() - i,
        {
            let peer = &self.enrolled.entries[i].1;
            proof {
                self.lemma_enrolled_at(i as int);
            }
            let ghost r0 = r@;
            r.push(peer.identity.agent_id().duplicate());
            assert forall|j: int| 0 <= j < i + 1 implies (#[trigger] r@[j])@ == self.enrolled.key_at(j) by {
                if j < i {
                    assert(r@[j] == r0[j]);
                }
            }
            i = i + 1;
        }
        r
    }

    pub fn get_enrolled(&self, agent_id: &AgentId) -> (r: Option<PeerIdentity>)
        requires
            self.wf(),
        ensures
            r matches Some(id) ==> self@.enrolled.contains_key(agent_id@) && id@ == self@.enrolled[agent_id@].identity,
            r is None ==> !self@.enrolled.contains_key(agent_id@),
    {
        match self.enrolled.get_value(&agent_id.to_chars()) {
            Some(peer) => Some(peer.identity.duplicate()),
            None => None,
        }
    }

    pub fn is_enrolled(&self, agent_id: &AgentId) -> (r: bool)
        requires
            self.wf(),
        ensures
            r == self@.enrolled.contains_key(agent_id@),
    {
        self.enrolled.contains(&agent_id.to_chars())
    }

    /// Move candidate `identity`'s record into the enrolled set (a no-op if
    /// it is already enrolled).
    pub fn commit_enroll_candidate(&mut self, identity: &PeerIdentity)
        requires
            old(self).wf(),
        ensures
            final(self).wf(),
            final(self)@ == after_enroll_candidate(old(self)@, identity@.agent_id, identity@),
    {
        let a = identity.agent_id().to_chars();
        if self.enrolled.contains(&a) {
            return;
        }
        let ghost v = self@;
        let ghost c0 = self.candidates.as_map();
        let observations = match self.candidates.remove(&a) {
            Some(c) => {
                assert(c0.contains_key(a@) && c0[a@] == c);
                proof {
                    lemma_map_values_remove(c0, a@, |x: CandidatePeer| x@);
                }
                c.observations
            },
            None => {
                let m = KeyedMap::new();
                proof {
                    assert(m.view_map() =~= Map::empty());
                    assert(self.candidates.as_map() =~= c0.remove(a@));
                    lemma_map_values_remove(c0, a@, |x: CandidatePeer| x@);
                }
                m
            },
        };
        let peer = EnrolledPeer { identity: identity.duplicate(), locators: Vec::new(), observations };
        let ghost e0 = self.enrolled.as_map();
        let ghost pg = peer;
        self.enrolled.insert(a, peer);
        proof {
            lemma_map_values_insert(e0, a@, pg, |x: EnrolledPeer| x@);
            assert(pg@.locators =~= Seq::<LocatorView>::empty());
            assert(self@ =~~= after_enroll_candidate(v, a@, identity@));
            use_type_invariant(identity);
            lemma_after_enroll_candidate_wf(v, a@, identity@);
        }
    }
}

/// Promoting a candidate keeps the directory's invariant.
pub proof fn lemma_after_enroll_candidate_wf(v: DirectoryView, a: Seq<char>, identity: PeerIdentityView)
    requires
        view_wf(v),
        identity.agent_id == a,
        canonical_identity(identity),
    ensures
        view_wf(after_enroll_candidate(v, a, identity)),
{
    let w = after_enroll_candidate(v, a, identity);
    if !v.enrolled.contains_key(a) {
        if v.candidates.contains_key(a) {
            v.candidates.lemma_remove_key_len(a);
        } else {
            assert(v.candidates.remove(a) =~= v.candidates);
        }
        assert forall|x: Seq<char>| #[trigger] w.index.contains_key(x) implies owns(w, w.index[x], x) by {
            assert(owns(v, v.index[x], x));
        }
        assert forall|b: Seq<char>, x: Seq<char>| #[trigger] owns(w, b, x) implies w.index.contains_key(x) && w.index[x] == b by {
            if b == a {
                assert(owns(v, a, x));
            } else {
                assert(owns(v, b, x));
            }
        }
    }
}

/// Recording an observation keeps the directory's invariant.
pub proof fn lemma_observed_wf(v: DirectoryView, local: Seq<char>, id: Seq<char>, identity: PeerIdentityView, o: ObsView)
    requires
        view_wf(v),
        canonical_identity(identity),
    ensures
        view_wf(observed(v, local, id, identity, o).0),
{
    let a = identity.agent_id;
    lemma_without_observation_wf(v, id);
    let w = without_observation(v, id);
    if a != local && !(v.index.contains_key(id) && v.index[id] != a) {
        let was_enrolled = v.enrolled.contains_key(a);
        let was_candidate = v.candidates.contains_key(a);
        if !(!was_enrolled && !was_candidate && v.candidates.len() >= MAX_CANDIDATE_PEERS) {
            assert(!w.index.contains_key(id));
            assert forall|b: Seq<char>| !owns(w, b, id) by {
                if owns(w, b, id) {
                    assert(w.index.contains_key(id));
                }
            }
            let x = observed(v, local, id, identity, o).0;
            if was_enrolled {
                assert(w.enrolled.contains_key(a));
                if w.enrolled[a].observations.len() < MAX_OBSERVATIONS_PER_PEER {
                    assert(!owns(w, a, id));
                    assert(!w.enrolled[a].observations.contains_key(id));
                    assert(w.enrolled[a].observations.insert(id, o).len() == w.enrolled[a].observations.len() + 1);
                    assert forall|x2: Seq<char>| #[trigger] x.index.contains_key(x2) implies owns(x, x.index[x2], x2) by {
                        if x2 != id {
                            assert(owns(w, w.index[x2], x2));
                        }
                    }
                    assert forall|b: Seq<char>, x2: Seq<char>| #[trigger] owns(x, b, x2) implies x.index.contains_key(x2) && x.index[x2] == b by {
                        if x2 != id {
                            assert(owns(w, b, x2));
                        } else if b != a {
                            assert(owns(w, b, id));
                        }
                    }
                }
            } else if !(w.candidates.contains_key(a) && w.candidates[a].observations.len() >= MAX_OBSERVATIONS_PER_PEER) {
                let base = if w.candidates.contains_key(a) {
                    w.candidates[a]
                } else {
                    CandidateView { identity, observations: Map::empty() }
                };
                assert(!owns(w, a, id));
                assert(!base.observations.contains_key(id));
                assert(base.observations.insert(id, o).len() == base.observations.len() + 1);
                if !w.candidates.contains_key(a) {
                    assert(!v.candidates.contains_key(a) || v.candidates.len() <= MAX_CANDIDATE_PEERS);
                    if v.candidates.contains_key(a) {
                        assert(w.candidates.len() + 1 == v.candidates.len()) by {
                            v.candidates.lemma_remove_key_len(a);
                            assert(w.candidates =~= v.candidates.remove(a));
                        }
                    } else {
                        assert(w.candidates.len() <= v.candidates.len()) by {
                            if v.index.contains_key(id) {
                                let b = v.index[id];
                                if v.candidates.contains_key(b) && v.candidates[b].observations.remove(id).len() == 0 {
                                    v.candidates.lemma_remove_key_len(b);
                                } else {
                                    assert(w.candidates.dom() =~= v.candidates.dom());
                                }
                            }
                        }
                    }
                } else {
                    assert(x.candidates.dom() =~= w.candidates.dom());
                }
                assert forall|x2: Seq<char>| #[trigger] x.index.contains_key(x2) implies owns(x, x.index[x2], x2) by {
                    if x2 != id {
                        assert(owns(w, w.index[x2], x2));
                    }
                }
                assert forall|b: Seq<char>, x2: Seq<char>| #[trigger] owns(x, b, x2) implies x.index.contains_key(x2) && x.index[x2] == b by {
                    if x2 != id {
                        assert(owns(w, b, x2));
                    } else if b != a {
                        assert(owns(w, b, id));
                    }
                }
            }
        }
    }
}


impl DirectoryState {
    /// Enroll `identity` (or keep it, if already enrolled) with `locators`
    /// added to its configured set; a candidate record's observations move
    /// along (see `after_enroll`).
    pub fn commit_enroll(&mut self, identity: &PeerIdentity, locators: &Vec<PeerLocator>)
        requires
            old(self).wf(),
        ensures
            final(self).wf(),
            final(self)@ == after_enroll(old(self)@, identity@, views_of(locators@)),
    {
        let ghost v = self@;
        let ghost lv = views_of(locators@);
        let a = identity.agent_id().to_chars();
        let mut merged = self.merged_locators(&a, locators);
        let ghost c0 = self.candidates.as_map();
        let moved = match self.candidates.remove(&a) {
            Some(c) => {
                assert(c0.contains_key(a@) && c0[a@] == c);
                c.observations
            },
            None => KeyedMap::new(),
        };
        proof {
            lemma_map_values_remove(c0, a@, |x: CandidatePeer| x@);
            assert(self@.candidates == v.candidates.remove(a@));
            if !v.candidates.contains_key(a@) {
                assert(moved.view_map() =~= Map::<Seq<char>, ObsView>::empty());
            }
        }
        let ghost e0 = self.enrolled.as_map();
        let peer = match self.enrolled.remove(&a) {
            Some(mut p) => {
                assert(e0.contains_key(a@) && e0[a@] == p);
                p.locators = merged;
                p
            },
            None => EnrolledPeer { identity: identity.duplicate(), locators: merged, observations: moved },
        };
        let ghost pg = peer;
        self.enrolled.insert(a, peer);
        proof {
            assert(self.enrolled.as_map() =~= e0.insert(a@, pg));
            lemma_map_values_insert(e0, a@, pg, |x: EnrolledPeer| x@);
            let w = after_enroll(v, identity@, lv);
            assert(pg@ =~~= w.enrolled[a@]);
            assert(self@ =~~= w);
            use_type_invariant(identity);
            lemma_after_enroll_wf(v, identity@, lv);
        }
    }

    /// The configured locators that enrolling `a` with `locators` yields.
    pub fn merged_locators(&self, a: &Vec<char>, locators: &Vec<PeerLocator>) -> (r: Vec<PeerLocator>)
        requires
            self.wf(),
        ensures
            locators_sorted(views_of(r@)),
            views_of(r@) == after_enroll(self@, PeerIdentityView { agent_id: a@, public_key: Seq::empty() }, views_of(locators@)).enrolled[a@].locators,
            forall|pk: Seq<char>| #[trigger] after_enroll(self@, PeerIdentityView { agent_id: a@, public_key: pk }, views_of(locators@)).enrolled[a@].locators == views_of(r@),
    {
        let ghost v = self@;
        let ghost lv = views_of(locators@);
        let mut merged = match self.enrolled.get_value(a) {
            Some(p) => copy_locators(&p.locators),
            None => Vec::new(),
        };
        proof {
            if v.enrolled.contains_key(a@) {
                assert(views_of(merged@) == v.enrolled[a@].locators);
                assert(locators_sorted(v.enrolled[a@].locators));
            } else {
                assert(views_of(merged@) =~= Seq::<LocatorView>::empty());
            }
        }
        let ghost base_set = views_of(merged@).to_set();
        extend_locators(&mut merged, locators);
        proof {
            lemma_ordered(views_of(merged@));
            assert(views_of(merged@).to_set() == base_set + lv.to_set());
            assert(ordered(base_set + lv.to_set()) == views_of(merged@));
        }
        merged
    }

    /// Revoke enrolled peer `agent_id`, withdrawing its live observations
    /// (see `after_remove_peer`); returns the revoked identity, or `None`
    /// for a peer that is not enrolled.
    pub fn commit_remove_peer(&mut self, agent_id: &AgentId) -> (r: Option<PeerIdentity>)
        requires
            old(self).wf(),
        ensures
            final(self).wf(),
            final(self)@ == after_remove_peer(old(self)@, agent_id@),
            r matches Some(id) ==> old(self)@.enrolled.contains_key(agent_id@) && id@ == old(self)@.enrolled[agent_id@].identity,
            r is None ==> !old(self)@.enrolled.contains_key(agent_id@),
    {
        let ghost v = self@;
        let a = agent_id.to_chars();
        let ghost e0 = self.enrolled.as_map();
        let record = match self.enrolled.remove(&a) {
            Some(p) => p,
            None => {
                assert(self.enrolled.as_map() =~= old(self).enrolled.as_map());
                assert(self@ =~~= old(self)@);
                return None;
            },
        };
        assert(e0.contains_key(a@) && e0[a@] == record);
        proof {
            lemma_map_values_remove(e0, a@, |x: EnrolledPeer| x@);
        }
        let ghost gone = v.enrolled[a@].observations.dom();
        let ghost i0 = self.index.view_map();
        let ghost e1 = self.enrolled;
        let ghost c1 = self.candidates;
        let obs = &record.observations;
        let mut j: usize = 0;
        while j < obs.len()
            invariant
                self.enrolled == e1,
                self.candidates == c1,
                v.enrolled.contains_key(a@),
                obs.wf(),
                obs.view_map() == v.enrolled[a@].observations,
                self.index.wf(),
                j <= obs.entries@.len(),
                self.index.view_map() == i0.remove_keys(Set::new(|k: Seq<char>| exists|j2: int| 0 <= j2 < j && obs.key_at(j2) == k)),
            decreases obs.entries@.len() - j,
        {
            let ghost before = self.index.view_map();
            let ghost im = self.index.as_map();
            let _ = self.index.remove(&obs.entries[j].0);
            proof {
                lemma_map_values_remove(im, obs.key_at(j as int), |x: AgentId| x@);
                let s_old = Set::new(|k: Seq<char>| exists|j2: int| 0 <= j2 < j && obs.key_at(j2) == k);
                let s_new = Set::new(|k: Seq<char>| exists|j2: int| 0 <= j2 < j + 1 && obs.key_at(j2) == k);
                assert(s_new =~= s_old.insert(obs.key_at(j as int)));
                assert(self.index.view_map() =~= i0.remove_keys(s_new));
            }
            j = j + 1;
        }
        proof {
            let s_all = Set::new(|k: Seq<char>| exists|j2: int| 0 <= j2 < obs.entries@.len() && obs.key_at(j2) == k);
            assert forall|k: Seq<char>| s_all.contains(k) <==> gone.contains(k) by {
                if gone.contains(k) {
                    let jj = obs.index_of(k);
                    obs.lemma_index_unique(jj, k);
                }
            }
            assert(s_all =~= gone);
            assert(self@ =~~= after_remove_peer(v, a@));
            lemma_after_remove_peer_wf(v, a@);
        }
        Some(record.identity)
    }
}

/// Enrolling keeps the directory's invariant.
pub proof fn lemma_after_enroll_wf(v: DirectoryView, identity: PeerIdentityView, locators: Seq<LocatorView>)
    requires
        view_wf(v),
        canonical_identity(identity),
        locators_sorted(after_enroll(v, identity, locators).enrolled[identity.agent_id].locators),
    ensures
        view_wf(after_enroll(v, identity, locators)),
{
    let a = identity.agent_id;
    let w = after_enroll(v, identity, locators);
    if v.candidates.contains_key(a) {
        v.candidates.lemma_remove_key_len(a);
    } else {
        assert(v.candidates.remove(a) =~= v.candidates);
    }
    assert forall|x: Seq<char>| #[trigger] w.index.contains_key(x) implies owns(w, w.index[x], x) by {
        assert(owns(v, v.index[x], x));
    }
    assert forall|b: Seq<char>, x: Seq<char>| #[trigger] owns(w, b, x) implies w.index.contains_key(x) && w.index[x] == b by {
        assert(owns(v, b, x));
    }
}

/// Revoking keeps the directory's invariant.
pub proof fn lemma_after_remove_peer_wf(v: DirectoryView, a: Seq<char>)
    requires
        view_wf(v),
    ensures
        view_wf(after_remove_peer(v, a)),
{
    if v.enrolled.contains_key(a) {
        let w = after_remove_peer(v, a);
        let gone = v.enrolled[a].observations.dom();
        assert(w.index.dom() =~= v.index.dom().difference(gone));
        vstd::set::axiom_set_difference_finite(v.index.dom(), gone);
        assert forall|x: Seq<char>| #[trigger] w.index.contains_key(x) implies owns(w, w.index[x], x) by {
            assert(owns(v, v.index[x], x));
            if v.index[x] == a {
                assert(gone.contains(x));
            }
        }
        assert forall|b: Seq<char>, x: Seq<char>| #[trigger] owns(w, b, x) implies w.index.contains_key(x) && w.index[x] == b by {
            assert(owns(v, b, x));
            if gone.contains(x) {
                assert(owns(v, a, x));
            }
        }
    }
}

} // verus!
