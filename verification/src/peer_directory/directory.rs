//! The peer directory of one local agent: the live state behind its
//! invariant, with the local Agent ID it never enrolls.
use vstd::prelude::*;

use crate::identity::{AgentId, IdentityError, PeerIdentity, PeerIdentityView, identity_error_text, identity_from_parts};
use crate::keyed::{KeyedMap, group_map_values, lemma_dom_len, lemma_map_values_insert};
use crate::peer_directory::expiry::{lemma_without_observation_shrinks, owned_one_of, stale_ids, without_all};
use crate::peer_directory::listing::{dial_plan, lists};
use crate::peer_directory::locators::{extend_locators, lemma_ordered, ordered, views_of};
use crate::peer_directory::plans::{PersistPlan, enroll_candidate_plan, enroll_plan, remove_peer_plan};
use crate::peer_directory::state::{
    CandidateView, DirectoryState, DirectoryView, EnrolledPeer, EnrolledView, ObsView, after_enroll, after_enroll_candidate,
    after_remove_peer, durable, enroll_candidate_identity, enroll_candidate_refusal, enroll_refusal, failure_of,
    observation_view, observed, owns, pins_of, view_wf, without_observation, MAX_ENROLLED_PEERS,
    MAX_LOCATORS_PER_PEER,
};
use crate::peer_directory::store::{StoreError, StoredPeer, StoredView, peers_check, peers_prefix_check, stored_views};
use crate::peer_directory::types::{
    DialTarget, DirectoryError, ObservationId, ObserveOutcome, PeerLocator, PeerObservation, PeerTrust,
    PeerView, lemma_locator_lt_order, locator_lt,
};
use crate::text::{chars_lt, lemma_chars_lt_irreflexive};

verus! {

broadcast use group_map_values;

/// Why stored peers could not be loaded.
#[derive(Debug)]
pub enum LoadError {
    /// A stored key does not bind its Agent ID.
    Identity(IdentityError),
    /// The store enrolls the local agent itself.
    LocalAgentId(AgentId),
    /// The store holds an Agent ID twice.
    DuplicateAgentId(AgentId),
}

pub enum LoadFailure {
    Identity(IdentityError),
    LocalAgentId(Seq<char>),
    DuplicateAgentId(Seq<char>),
}

impl View for LoadError {
    type V = LoadFailure;

    open spec fn view(&self) -> LoadFailure {
        match self {
            LoadError::Identity(e) => LoadFailure::Identity(*e),
            LoadError::LocalAgentId(a) => LoadFailure::LocalAgentId(a@),
            LoadError::DuplicateAgentId(a) => LoadFailure::DuplicateAgentId(a@),
        }
    }
}

/// How each load error reads.
pub open spec fn load_error_text(e: LoadError) -> Seq<char> {
    match e {
        LoadError::Identity(e) => identity_error_text(e),
        LoadError::LocalAgentId(_) => "peer store cannot enroll the local Agent ID"@,
        LoadError::DuplicateAgentId(_) => "peer store contains duplicate Agent ID"@,
    }
}

impl LoadError {
    pub fn message(&self) -> (s: &'static str)
        ensures
            s@ == load_error_text(*self),
    {
        match self {
            LoadError::Identity(e) => e.message(),
            LoadError::LocalAgentId(_) => "peer store cannot enroll the local Agent ID",
            LoadError::DuplicateAgentId(_) => "peer store contains duplicate Agent ID",
        }
    }
}

/// The enrolled records that loading `peers` in order yields, or the first
/// failure: each peer's key must bind its Agent ID, which must be neither
/// the local one nor seen before; its locators become an ordered set.
pub open spec fn loaded(local: Seq<char>, peers: Seq<StoredView>) -> Result<Map<Seq<char>, EnrolledView>, LoadFailure>
    decreases peers.len(),
{
    if peers.len() == 0 {
        Ok(Map::empty())
    } else {
        match loaded(local, peers.drop_last()) {
            Err(e) => Err(e),
            Ok(m) => {
                let p = peers.last();
                match identity_from_parts(p.agent_id, p.public_key) {
                    Err(e) => Err(LoadFailure::Identity(e)),
                    Ok(id) => if p.agent_id == local {
                        Err(LoadFailure::LocalAgentId(p.agent_id))
                    } else if m.contains_key(p.agent_id) {
                        Err(LoadFailure::DuplicateAgentId(p.agent_id))
                    } else {
                        Ok(
                            m.insert(
                                p.agent_id,
                                EnrolledView { identity: id, locators: ordered(p.locators.to_set()), observations: Map::empty() },
                            ),
                        )
                    },
                }
            },
        }
    }
}

proof fn lemma_loaded_failure_stays(local: Seq<char>, peers: Seq<StoredView>, n: int)
    requires
        0 <= n <= peers.len(),
        loaded(local, peers.take(n)) is Err,
    ensures
        loaded(local, peers) == loaded(local, peers.take(n)),
    decreases peers.len() - n,
{
    if n < peers.len() {
        assert(peers.take(n + 1).drop_last() =~= peers.take(n));
        lemma_loaded_failure_stays(local, peers, n + 1);
    } else {
        assert(peers.take(n) =~= peers);
    }
}

/// What reloading a directory restores: each enrolled peer's key binding
/// and configured locators, with no live observations yet.
pub open spec fn restored(v: DirectoryView) -> Map<Seq<char>, EnrolledView> {
    Map::new(
        |a: Seq<char>| v.enrolled.contains_key(a),
        |a: Seq<char>| EnrolledView { observations: Map::empty(), ..v.enrolled[a] },
    )
}

/// A snapshot's records in Agent ID order, as the store writes them.
pub open spec fn saved_records(saved: KeyedMap<StoredPeer>) -> Seq<StoredView> {
    Seq::new(saved.entries@.len(), |i: int| saved.val_at(i)@)
}

/// The Agent IDs among a snapshot's first `n` entries.
pub open spec fn first_keys(saved: KeyedMap<StoredPeer>, n: int) -> Set<Seq<char>> {
    Set::new(|a: Seq<char>| exists|i: int| 0 <= i < n && saved.key_at(i) == a)
}

proof fn lemma_reload_prefix(v: DirectoryView, local: Seq<char>, saved: KeyedMap<StoredPeer>, n: int)
    requires
        view_wf(v),
        !v.enrolled.contains_key(local),
        saved.wf(),
        saved.view_map() == durable(v),
        0 <= n <= saved.entries@.len(),
    ensures
        loaded(local, saved_records(saved).take(n)) == Ok::<Map<Seq<char>, EnrolledView>, LoadFailure>(
            restored(v).restrict(first_keys(saved, n)),
        ),
    decreases n,
{
    let s = saved_records(saved).take(n);
    if n == 0 {
        assert(s.len() == 0);
        assert(restored(v).restrict(first_keys(saved, 0)) =~= Map::empty());
    } else {
        lemma_reload_prefix(v, local, saved, n - 1);
        assert(s.drop_last() =~= saved_records(saved).take(n - 1));
        let a = saved.key_at(n - 1);
        saved.lemma_index_unique(n - 1, a);
        let p = s.last();
        assert(p == saved.val_at(n - 1)@);
        assert(saved.view_map().contains_key(a));
        assert(v.enrolled.contains_key(a));
        let e = v.enrolled[a];
        assert(p == durable(v)[a]);
        assert(identity_from_parts(p.agent_id, p.public_key) == Ok::<PeerIdentityView, IdentityError>(e.identity));
        let m = restored(v).restrict(first_keys(saved, n - 1));
        assert(!m.contains_key(a)) by {
            assert forall|i: int| 0 <= i < n - 1 implies saved.key_at(i) != a by {
                assert(chars_lt(saved.key_at(i), saved.key_at(n - 1)));
                lemma_chars_lt_irreflexive(a);
            }
        }
        lemma_ordered(e.locators);
        assert(first_keys(saved, n) =~= first_keys(saved, n - 1).insert(a)) by {
            assert(saved.key_at(n - 1) == a);
        }
        assert(m.insert(a, EnrolledView { identity: e.identity, locators: ordered(p.locators.to_set()), observations: Map::empty() })
            =~= restored(v).restrict(first_keys(saved, n)));
    }
}

/// Reloading what a directory saves gives back its enrolled peers: loading
/// the records of a snapshot of its durable content, in the order the
/// snapshot holds them, succeeds and restores every enrolled peer's key
/// binding (so the pin set) and configured locators, and nothing else.
pub proof fn lemma_reload_restores_enrolled(v: DirectoryView, local: Seq<char>, saved: KeyedMap<StoredPeer>)
    requires
        view_wf(v),
        !v.enrolled.contains_key(local),
        saved.wf(),
        saved.view_map() == durable(v),
    ensures
        loaded(local, saved_records(saved)) == Ok::<Map<Seq<char>, EnrolledView>, LoadFailure>(restored(v)),
        pins_of(DirectoryView { enrolled: restored(v), candidates: Map::empty(), index: Map::empty() }) == pins_of(v),
{
    let n = saved.entries@.len() as int;
    lemma_reload_prefix(v, local, saved, n);
    assert(saved_records(saved).take(n) =~= saved_records(saved));
    assert(restored(v).restrict(first_keys(saved, n)) =~= restored(v)) by {
        assert forall|a: Seq<char>| v.enrolled.contains_key(a) implies #[trigger] first_keys(saved, n).contains(a) by {
            assert(durable(v).contains_key(a));
            assert(saved.view_map().contains_key(a));
            assert(saved.has(a));
            let i = saved.index_of(a);
            assert(0 <= i < n && saved.key_at(i) == a);
        }
    }
    assert(pins_of(DirectoryView { enrolled: restored(v), candidates: Map::empty(), index: Map::empty() }) =~= pins_of(v));
}

proof fn lemma_saved_prefix_check(v: DirectoryView, saved: KeyedMap<StoredPeer>, n: int)
    requires
        view_wf(v),
        saved.wf(),
        saved.view_map() == durable(v),
        0 <= n <= saved.entries@.len(),
    ensures
        peers_prefix_check(saved_records(saved), n as nat) == Ok::<Set<Seq<char>>, StoreError>(first_keys(saved, n)),
    decreases n,
{
    let ps = saved_records(saved);
    if n == 0 {
        assert(first_keys(saved, 0) =~= Set::<Seq<char>>::empty());
    } else {
        lemma_saved_prefix_check(v, saved, n - 1);
        let a = saved.key_at(n - 1);
        saved.lemma_index_unique(n - 1, a);
        let p = ps[n - 1];
        assert(p == saved.val_at(n - 1)@);
        assert(saved.view_map().contains_key(a));
        assert(v.enrolled.contains_key(a));
        assert(p == durable(v)[a]);
        let e = v.enrolled[a];
        assert(identity_from_parts(p.agent_id, p.public_key) == Ok::<PeerIdentityView, IdentityError>(e.identity));
        assert(!first_keys(saved, n - 1).contains(a)) by {
            assert forall|i: int| 0 <= i < n - 1 implies saved.key_at(i) != a by {
                assert(chars_lt(saved.key_at(i), saved.key_at(n - 1)));
                lemma_chars_lt_irreflexive(a);
            }
        }
        assert(p.locators.no_duplicates()) by {
            assert forall|i: int, j: int| 0 <= i < p.locators.len() && 0 <= j < p.locators.len() && i != j implies p.locators[i]
                != p.locators[j] by {
                if i < j {
                    assert(locator_lt(p.locators[i], p.locators[j]));
                    lemma_locator_lt_order(p.locators[i], p.locators[j], p.locators[j]);
                } else {
                    assert(locator_lt(p.locators[j], p.locators[i]));
                    lemma_locator_lt_order(p.locators[j], p.locators[i], p.locators[i]);
                }
            }
        }
        assert(first_keys(saved, n) =~= first_keys(saved, n - 1).insert(a)) by {
            assert(saved.key_at(n - 1) == a);
        }
    }
}

/// What a directory within its bounds saves passes the store's checks: the
/// records of a snapshot of its durable content, in the order the snapshot
/// holds them, are at most `MAX_ENROLLED_PEERS` valid, distinct key
/// bindings, each with at most `MAX_LOCATORS_PER_PEER` distinct locators.
pub proof fn lemma_saved_records_pass_checks(v: DirectoryView, saved: KeyedMap<StoredPeer>)
    requires
        view_wf(v),
        v.enrolled.len() <= MAX_ENROLLED_PEERS,
        forall|a: Seq<char>| #[trigger] v.enrolled.contains_key(a) ==> v.enrolled[a].locators.len() <= MAX_LOCATORS_PER_PEER,
        saved.wf(),
        saved.view_map() == durable(v),
    ensures
        peers_check(saved_records(saved)) is Ok,
{
    let ps = saved_records(saved);
    lemma_dom_len(&saved);
    assert(saved.view_map().dom() =~= v.enrolled.dom());
    assert(ps.len() <= MAX_ENROLLED_PEERS);
    assert forall|i: int| 0 <= i < ps.len() implies (#[trigger] ps[i]).locators.len() <= MAX_LOCATORS_PER_PEER by {
        let a = saved.key_at(i);
        saved.lemma_index_unique(i, a);
        assert(saved.view_map().contains_key(a));
        assert(ps[i] == durable(v)[a]);
    }
    lemma_saved_prefix_check(v, saved, ps.len() as int);
}

/// Restart restores the durable pins: take a directory within its bounds
/// whose local agent is not enrolled, a snapshot `saved` of its durable
/// content, and the records read back from what was written of it
/// (`records`, in the snapshot's order). The store's document checks accept
/// those records, so decoding hands them back unchanged; loading them for
/// the same local agent succeeds with exactly the enrolled peers, each with
/// its key binding and configured locators and no live observation; the
/// pin set is the one before the restart, and no candidate survives.
pub proof fn lemma_restart_restores_pins(v: DirectoryView, local: Seq<char>, saved: KeyedMap<StoredPeer>, records: Seq<StoredPeer>)
    requires
        view_wf(v),
        !v.enrolled.contains_key(local),
        v.enrolled.len() <= MAX_ENROLLED_PEERS,
        forall|a: Seq<char>| #[trigger] v.enrolled.contains_key(a) ==> v.enrolled[a].locators.len() <= MAX_LOCATORS_PER_PEER,
        saved.wf(),
        saved.view_map() == durable(v),
        stored_views(records) == saved_records(saved),
    ensures
        peers_check(stored_views(records)) is Ok,
        loaded(local, stored_views(records)) == Ok::<Map<Seq<char>, EnrolledView>, LoadFailure>(restored(v)),
        restored(v).dom() == v.enrolled.dom(),
        forall|a: Seq<char>| #[trigger] restored(v).contains_key(a) ==> restored(v)[a].identity == v.enrolled[a].identity
            && restored(v)[a].locators == v.enrolled[a].locators && restored(v)[a].observations.dom().is_empty(),
        pins_of(DirectoryView { enrolled: restored(v), candidates: Map::empty(), index: Map::empty() }) == pins_of(v),
{
    lemma_saved_records_pass_checks(v, saved);
    lemma_reload_restores_enrolled(v, local, saved);
    assert(restored(v).dom() =~= v.enrolled.dom());
}

/// The restart law at `PeerDirectory::load`: when a directory `before`
/// (within its bounds, its local agent not enrolled) is saved as snapshot
/// `saved`, its records read back as `records`, and `load` for the same
/// local agent builds `after` from them (what `load` promises of its
/// result; by `lemma_restart_restores_pins` that load succeeds), then
/// `after` has exactly the enrolled peers of `before`, each with the same
/// key binding and configured locators, the same pin set, and no
/// candidates.
pub proof fn lemma_load_after_restart(
    before: DirectoryView,
    local: Seq<char>,
    saved: KeyedMap<StoredPeer>,
    records: Seq<StoredPeer>,
    after: DirectoryView,
)
    requires
        view_wf(before),
        !before.enrolled.contains_key(local),
        before.enrolled.len() <= MAX_ENROLLED_PEERS,
        forall|a: Seq<char>| #[trigger] before.enrolled.contains_key(a) ==> before.enrolled[a].locators.len() <= MAX_LOCATORS_PER_PEER,
        saved.wf(),
        saved.view_map() == durable(before),
        stored_views(records) == saved_records(saved),
        loaded(local, stored_views(records)) == Ok::<Map<Seq<char>, EnrolledView>, LoadFailure>(after.enrolled),
        after.candidates.dom().is_empty(),
        after.index.dom().is_empty(),
    ensures
        after.enrolled.dom() == before.enrolled.dom(),
        forall|a: Seq<char>| #[trigger] after.enrolled.contains_key(a) ==> after.enrolled[a].identity == before.enrolled[a].identity
            && after.enrolled[a].locators == before.enrolled[a].locators,
        pins_of(after) == pins_of(before),
        after.candidates == Map::<Seq<char>, CandidateView>::empty(),
{
    lemma_restart_restores_pins(before, local, saved, records);
    assert(after.candidates =~= Map::<Seq<char>, CandidateView>::empty());
    assert(after.index =~= Map::<Seq<char>, Seq<char>>::empty());
    assert(after == DirectoryView { enrolled: restored(before), candidates: Map::empty(), index: Map::empty() });
}

/// A local agent's peer directory.
pub struct PeerDirectory {
    local_agent_id: AgentId,
    state: DirectoryState,
}

impl PeerDirectory {
    #[verifier::type_invariant]
    spec fn inv(self) -> bool {
        &&& self.state.wf()
        &&& !self.state@.enrolled.contains_key(self.local_agent_id@)
        &&& !self.state@.candidates.contains_key(self.local_agent_id@)
    }

    /// The local Agent ID.
    pub closed spec fn local(self) -> Seq<char> {
        self.local_agent_id@
    }

    /// The live state.
    pub closed spec fn state(self) -> DirectoryState {
        self.state
    }

    /// The directory's structural consistency: the state is well formed,
    /// the local agent is not enrolled, every observation index entry
    /// resolves to a live record of its owner and every live record is
    /// indexed under its owner (no ghost observations).
    pub fn assert_no_ghost_observations(&self)
        ensures
            self.state().wf(),
            !self.state()@.enrolled.contains_key(self.local()),
            !self.state()@.candidates.contains_key(self.local()),
            forall|k: Seq<char>| #[trigger] self.state()@.index.contains_key(k) ==> owns(self.state()@, self.state()@.index[k], k),
            forall|a: Seq<char>, k: Seq<char>| #[trigger] owns(self.state()@, a, k) ==> self.state()@.index.contains_key(k)
                && self.state()@.index[k] == a,
    {
        proof {
            use_type_invariant(self);
        }
    }

    /// Build the directory from stored peers (see `loaded`); it starts with
    /// no candidates and no live observations.
    pub fn load(local_agent_id: AgentId, peers: &Vec<StoredPeer>) -> (r: Result<PeerDirectory, LoadError>)
        ensures
            match r {
                Ok(d) => d.local() == local_agent_id@ && loaded(local_agent_id@, stored_views(peers@)) == Ok::<
                    Map<Seq<char>, EnrolledView>,
                    LoadFailure,
                >(d.state()@.enrolled) && d.state()@.candidates.dom().is_empty() && d.state()@.index.dom().is_empty(),
                Err(e) => loaded(local_agent_id@, stored_views(peers@)) == Err::<Map<Seq<char>, EnrolledView>, LoadFailure>(e@),
            },
    {
        let ghost sv = stored_views(peers@);
        let mut state = DirectoryState::new();
        assert(sv.take(0) =~= Seq::<StoredView>::empty());
        let mut i: usize = 0;
        while i < peers.len()
            invariant
                sv == stored_views(peers@),
                i <= peers@.len(),
                state.wf(),
                state@.candidates.dom().is_empty(),
                state@.index.dom().is_empty(),
                loaded(local_agent_id@, sv.take(i as int)) == Ok::<Map<Seq<char>, EnrolledView>, LoadFailure>(state@.enrolled),
                !state@.enrolled.contains_key(local_agent_id@),
            decreases peers@.len() - i,
        {
            proof {
                assert(sv.take(i + 1).drop_last() =~= sv.take(i as int));
                assert(sv.take(i + 1).last() == peers@[i as int]@);
            }
            let peer = &peers[i];
            let identity = match PeerIdentity::from_parts(peer.agent_id.duplicate(), peer.public_key.as_str()) {
                Ok(id) => id,
                Err(e) => {
                    proof {
                        lemma_loaded_failure_stays(local_agent_id@, sv, i + 1);
                    }
                    return Err(LoadError::Identity(e));
                },
            };
            proof {
                use_type_invariant(&identity);
            }
            let key = peer.agent_id.to_chars();
            if peer.agent_id.same_as(&local_agent_id) {
                proof {
                    lemma_loaded_failure_stays(local_agent_id@, sv, i + 1);
                }
                return Err(LoadError::LocalAgentId(peer.agent_id.duplicate()));
            }
            if state.enrolled.contains(&key) {
                proof {
                    lemma_loaded_failure_stays(local_agent_id@, sv, i + 1);
                }
                return Err(LoadError::DuplicateAgentId(peer.agent_id.duplicate()));
            }
            let mut locators: Vec<PeerLocator> = Vec::new();
            assert(views_of(locators@) =~= Seq::empty());
            extend_locators(&mut locators, &peer.locators);
            proof {
                assert(views_of(locators@).to_set() =~= views_of(peer.locators@).to_set());
                lemma_ordered(views_of(locators@));
            }
            let record = EnrolledPeer { identity, locators, observations: KeyedMap::new() };
            let ghost e0 = state.enrolled.as_map();
            let ghost v0 = state@;
            let ghost rg = record;
            state.enrolled.insert(key, record);
            proof {
                lemma_map_values_insert(e0, peer.agent_id@, rg, |x: EnrolledPeer| x@);
                assert(rg.observations.view_map() =~= Map::<Seq<char>, ObsView>::empty());
                lemma_dom_len(&rg.observations);
                assert(state@.enrolled =~~= v0.enrolled.insert(peer.agent_id@, rg@));
                assert(state@.candidates == v0.candidates);
                assert(state@.index == v0.index);
                assert forall|a: Seq<char>, k: Seq<char>| !owns(state@, a, k) by {
                    if a == peer.agent_id@ {
                        assert(!rg@.observations.contains_key(k));
                    } else {
                        assert(!owns(v0, a, k));
                    }
                }
                assert(view_wf(state@));
            }
            i = i + 1;
        }
        proof {
            assert(sv.take(peers@.len() as int) =~= sv);
        }
        Ok(PeerDirectory { local_agent_id, state })
    }
}


impl PeerDirectory {
    /// The TLS pin set: each enrolled Agent ID with its public key, in
    /// Agent ID order.
    pub fn pinning_snapshot(&self) -> (r: Vec<(String, String)>)
        ensures
            r@.len() == self.state().enrolled.entries@.len(),
            forall|i: int| 0 <= i < r@.len() ==> (#[trigger] r@[i]).0@ == self.state().enrolled.key_at(i)
                && r@[i].1@ == pins_of(self.state()@)[self.state().enrolled.key_at(i)],
            forall|i: int, j: int| 0 <= i < j < r@.len() ==> chars_lt(#[trigger] r@[i].0@, #[trigger] r@[j].0@),
            forall|a: Seq<char>| #[trigger] pins_of(self.state()@).contains_key(a) <==> exists|i: int| 0 <= i < r@.len() && r@[i].0@ == a,
    {
        proof {
            use_type_invariant(self);
        }
        let r = self.state.pins();
        proof {
            assert forall|a: Seq<char>| #[trigger] pins_of(self.state()@).contains_key(a) <==> exists|i: int| 0 <= i < r@.len() && r@[i].0@ == a by {
                if pins_of(self.state()@).contains_key(a) {
                    let i = self.state.enrolled.index_of(a);
                    self.state.enrolled.lemma_index_unique(i, a);
                    assert(r@[i].0@ == a);
                }
                if exists|i: int| 0 <= i < r@.len() && r@[i].0@ == a {
                    let i = choose|i: int| 0 <= i < r@.len() && r@[i].0@ == a;
                    self.state.lemma_enrolled_at(i);
                }
            }
        }
        r
    }

    /// Record a discovery observation (see `observed`).
    pub fn observe(&mut self, observation: PeerObservation) -> (r: ObserveOutcome)
        ensures
            final(self).local() == old(self).local(),
            (final(self).state()@, r) == observed(
                old(self).state()@,
                old(self).local(),
                observation.id@,
                observation.identity@,
                observation_view(observation),
            ),
    {
        proof {
            use_type_invariant(&*self);
        }
        let ghost v = self.state@;
        let ghost ov = observation_view(observation);
        let ghost id = observation.id@;
        let ghost ident = observation.identity@;
        let mut st = DirectoryState::new();
        std::mem::swap(&mut st, &mut self.state);
        let r = st.observe(&self.local_agent_id, observation);
        proof {
            let a = ident.agent_id;
            if a != self.local_agent_id@ && !(v.index.contains_key(id) && v.index[id] != a) {
                assert(!without_observation(v, id).enrolled.contains_key(self.local_agent_id@));
            }
        }
        self.state = st;
        r
    }

    /// Withdraw live observation `id`.
    pub fn remove_observation(&mut self, id: &ObservationId)
        ensures
            final(self).local() == old(self).local(),
            final(self).state()@ == without_observation(old(self).state()@, id@),
    {
        proof {
            use_type_invariant(&*self);
        }
        let mut st = DirectoryState::new();
        std::mem::swap(&mut st, &mut self.state);
        let _ = st.remove_observation(&id.to_chars());
        self.state = st;
    }

    /// Withdraw every stale observation (see `DirectoryState::expire_observations`).
    pub fn expire_observations(&mut self, now: u64, ttl: u64) -> (r: Vec<AgentId>)
        ensures
            final(self).local() == old(self).local(),
            final(self).state()@ == without_all(old(self).state()@, stale_ids(&old(self).state(), now, ttl)),
            forall|i: int, j: int| 0 <= i < j < r@.len() ==> chars_lt(#[trigger] r@[i]@, #[trigger] r@[j]@),
            forall|i: int| 0 <= i < r@.len() ==> owned_one_of(old(self).state()@, stale_ids(&old(self).state(), now, ttl), #[trigger] r@[i]@)
                && !final(self).state()@.candidates.contains_key(r@[i]@),
            forall|a: Seq<char>| #[trigger] owned_one_of(old(self).state()@, stale_ids(&old(self).state(), now, ttl), a)
                && !final(self).state()@.candidates.contains_key(a) ==> exists|i: int| 0 <= i < r@.len() && r@[i]@ == a,
    {
        proof {
            use_type_invariant(&*self);
        }
        let ghost v = self.state@;
        let ghost s0 = self.state;
        let mut st = DirectoryState::new();
        std::mem::swap(&mut st, &mut self.state);
        assert(st == s0);
        let r = st.expire_observations(now, ttl);
        proof {
            lemma_without_all_enrolled(v, stale_ids(&old(self).state(), now, ttl));
            lemma_without_all_candidates(v, stale_ids(&old(self).state(), now, ttl));
        }
        self.state = st;
        r
    }

    /// Promote candidate `agent_id` to enrolled (see `enroll_candidate_plan`
    /// and `DirectoryState::commit_enroll_candidate`).
    pub fn enroll_candidate(&mut self, agent_id: &AgentId) -> (r: Result<PeerIdentity, DirectoryError>)
        ensures
            final(self).local() == old(self).local(),
            match r {
                Ok(id) => enroll_candidate_refusal(old(self).state()@, agent_id@) is None
                    && id@ == enroll_candidate_identity(old(self).state()@, agent_id@)
                    && final(self).state()@ == after_enroll_candidate(old(self).state()@, agent_id@, id@),
                Err(e) => failure_of(e) == enroll_candidate_refusal(old(self).state()@, agent_id@) && failure_of(e) is Some
                    && final(self).state()@ == old(self).state()@,
            },
    {
        proof {
            use_type_invariant(&*self);
        }
        let plan = self.enroll_candidate_plan(agent_id)?;
        proof {
            let v = self.state@;
            if v.enrolled.contains_key(agent_id@) {
                assert(plan.value@.agent_id == agent_id@);
            } else {
                assert(v.candidates.contains_key(agent_id@));
                assert(plan.value@.agent_id == agent_id@);
            }
        }
        self.commit_enroll_candidate(&plan.value);
        Ok(plan.value)
    }

    /// Plan promoting candidate `agent_id` (see `enroll_candidate_plan`).
    pub fn enroll_candidate_plan(&self, agent_id: &AgentId) -> (r: Result<PersistPlan, DirectoryError>)
        ensures
            match r {
                Ok(p) => enroll_candidate_refusal(self.state()@, agent_id@) is None
                    && p.value@ == enroll_candidate_identity(self.state()@, agent_id@)
                    && p.saved.wf()
                    && p.saved.view_map() == crate::peer_directory::state::durable(
                        after_enroll_candidate(self.state()@, agent_id@, p.value@),
                    ),
                Err(e) => failure_of(e) == enroll_candidate_refusal(self.state()@, agent_id@) && failure_of(e) is Some,
            },
    {
        proof {
            use_type_invariant(self);
        }
        enroll_candidate_plan(&self.state, agent_id)
    }

    /// Apply a candidate promotion to live state.
    pub fn commit_enroll_candidate(&mut self, identity: &PeerIdentity)
        ensures
            final(self).local() == old(self).local(),
            identity@.agent_id != old(self).local() ==> final(self).state()@ == after_enroll_candidate(
                old(self).state()@,
                identity@.agent_id,
                identity@,
            ),
            identity@.agent_id == old(self).local() ==> final(self).state()@ == old(self).state()@,
    {
        proof {
            use_type_invariant(&*self);
        }
        if identity.agent_id().same_as(&self.local_agent_id) {
            return;
        }
        let mut st = DirectoryState::new();
        std::mem::swap(&mut st, &mut self.state);
        st.commit_enroll_candidate(identity);
        self.state = st;
    }

    /// Enroll `identity` with `locators` added to its configured set; the
    /// local agent is refused first.
    pub fn enroll(&mut self, identity: PeerIdentity, locators: Vec<PeerLocator>) -> (r: Result<PeerIdentity, DirectoryError>)
        ensures
            final(self).local() == old(self).local(),
            identity@.agent_id == old(self).local() ==> (r matches Err(DirectoryError::LocalAgentId(x)) && x@ == identity@.agent_id)
                && final(self).state()@ == old(self).state()@,
            identity@.agent_id != old(self).local() ==> match r {
                Ok(id) => enroll_refusal(old(self).state()@, identity@, views_of(locators@)) is None && id@ == identity@
                    && final(self).state()@ == after_enroll(old(self).state()@, identity@, views_of(locators@)),
                Err(e) => failure_of(e) == enroll_refusal(old(self).state()@, identity@, views_of(locators@))
                    && failure_of(e) is Some && final(self).state()@ == old(self).state()@,
            },
    {
        let plan = self.enroll_plan(&identity, &locators)?;
        self.commit_enroll(&identity, &locators);
        Ok(plan.value)
    }

    /// Plan enrolling `identity` with `locators` (see `enroll_plan`); the
    /// local agent is refused first.
    pub fn enroll_plan(&self, identity: &PeerIdentity, locators: &Vec<PeerLocator>) -> (r: Result<PersistPlan, DirectoryError>)
        ensures
            identity@.agent_id == self.local() ==> (r matches Err(DirectoryError::LocalAgentId(x)) && x@ == identity@.agent_id),
            identity@.agent_id != self.local() ==> match r {
                Ok(p) => enroll_refusal(self.state()@, identity@, views_of(locators@)) is None && p.value@ == identity@
                    && p.saved.wf()
                    && p.saved.view_map() == crate::peer_directory::state::durable(
                        after_enroll(self.state()@, identity@, views_of(locators@)),
                    ),
                Err(e) => failure_of(e) == enroll_refusal(self.state()@, identity@, views_of(locators@)) && failure_of(e) is Some,
            },
    {
        proof {
            use_type_invariant(self);
        }
        if identity.agent_id().same_as(&self.local_agent_id) {
            return Err(DirectoryError::LocalAgentId(identity.agent_id().duplicate()));
        }
        enroll_plan(&self.state, identity, locators)
    }

    /// Apply an enrollment to live state (the local agent is never enrolled).
    pub fn commit_enroll(&mut self, identity: &PeerIdentity, locators: &Vec<PeerLocator>)
        ensures
            final(self).local() == old(self).local(),
            identity@.agent_id != old(self).local() ==> final(self).state()@ == after_enroll(
                old(self).state()@,
                identity@,
                views_of(locators@),
            ),
            identity@.agent_id == old(self).local() ==> final(self).state()@ == old(self).state()@,
    {
        proof {
            use_type_invariant(&*self);
        }
        if identity.agent_id().same_as(&self.local_agent_id) {
            return;
        }
        let mut st = DirectoryState::new();
        std::mem::swap(&mut st, &mut self.state);
        st.commit_enroll(identity, locators);
        self.state = st;
    }

    /// Revoke enrolled peer `agent_id` (see `remove_peer_plan` and
    /// `DirectoryState::commit_remove_peer`).
    pub fn remove_peer(&mut self, agent_id: &AgentId) -> (r: Result<PeerIdentity, DirectoryError>)
        ensures
            final(self).local() == old(self).local(),
            match r {
                Ok(id) => old(self).state()@.enrolled.contains_key(agent_id@)
                    && id@ == old(self).state()@.enrolled[agent_id@].identity
                    && final(self).state()@ == after_remove_peer(old(self).state()@, agent_id@),
                Err(e) => !old(self).state()@.enrolled.contains_key(agent_id@) && final(self).state()@ == old(self).state()@
                    && (e matches DirectoryError::NotEnrolled(x) && x@ == agent_id@),
            },
    {
        let plan = self.remove_peer_plan(agent_id)?;
        self.commit_remove_peer(agent_id);
        Ok(plan.value)
    }

    /// Plan revoking enrolled peer `agent_id` (see `remove_peer_plan`).
    pub fn remove_peer_plan(&self, agent_id: &AgentId) -> (r: Result<PersistPlan, DirectoryError>)
        ensures
            match r {
                Ok(p) => self.state()@.enrolled.contains_key(agent_id@) && p.value@ == self.state()@.enrolled[agent_id@].identity
                    && p.saved.wf()
                    && p.saved.view_map() == crate::peer_directory::state::durable(after_remove_peer(self.state()@, agent_id@)),
                Err(e) => !self.state()@.enrolled.contains_key(agent_id@)
                    && (e matches DirectoryError::NotEnrolled(x) && x@ == agent_id@),
            },
    {
        proof {
            use_type_invariant(self);
        }
        remove_peer_plan(&self.state, agent_id)
    }

    /// Apply a revocation to live state.
    pub fn commit_remove_peer(&mut self, agent_id: &AgentId)
        ensures
            final(self).local() == old(self).local(),
            final(self).state()@ == after_remove_peer(old(self).state()@, agent_id@),
    {
        proof {
            use_type_invariant(&*self);
        }
        let mut st = DirectoryState::new();
        std::mem::swap(&mut st, &mut self.state);
        let _ = st.commit_remove_peer(agent_id);
        self.state = st;
    }

    /// The enrolled identity of `agent_id`, if enrolled.
    pub fn get_enrolled(&self, agent_id: &AgentId) -> (r: Option<PeerIdentity>)
        ensures
            r matches Some(id) ==> self.state()@.enrolled.contains_key(agent_id@) && id@ == self.state()@.enrolled[agent_id@].identity,
            r is None ==> !self.state()@.enrolled.contains_key(agent_id@),
    {
        proof {
            use_type_invariant(self);
        }
        self.state.get_enrolled(agent_id)
    }

    /// The connection-admission predicate: whether `agent_id` is enrolled.
    pub fn is_enrolled(&self, agent_id: &AgentId) -> (r: bool)
        ensures
            r == self.state()@.enrolled.contains_key(agent_id@),
    {
        proof {
            use_type_invariant(self);
        }
        self.state.is_enrolled(agent_id)
    }

    /// The enrolled Agent IDs in order.
    pub fn enrolled_agent_ids(&self) -> (r: Vec<AgentId>)
        ensures
            r@.len() == self.state().enrolled.entries@.len(),
            forall|i: int| 0 <= i < r@.len() ==> (#[trigger] r@[i])@ == self.state().enrolled.key_at(i),
    {
        proof {
            use_type_invariant(self);
        }
        self.state.enrolled_agent_ids()
    }

    /// Where to dial `agent_id` (see `dial_plan`).
    pub fn dial_targets(&self, agent_id: &AgentId) -> (r: Vec<DialTarget>)
        ensures
            r@.map_values(|t: DialTarget| t@) == dial_plan(&self.state(), agent_id@),
    {
        proof {
            use_type_invariant(self);
        }
        self.state.dial_targets(agent_id)
    }

    /// Every known peer (see `DirectoryState::views`).
    pub fn list(&self) -> (r: Vec<PeerView>)
        ensures
            r@.len() == self.state().enrolled.entries@.len() + self.state().candidates.entries@.len(),
            forall|i: int| 0 <= i < self.state().enrolled.entries@.len() ==> {
                let p = self.state().enrolled.val_at(i);
                &&& (#[trigger] r@[i])@.identity == p@.identity
                &&& lists(r@[i]@, self.state()@, self.state().enrolled.key_at(i), PeerTrust::Enrolled, p@.locators, &p.observations)
            },
            forall|i: int| 0 <= i < self.state().candidates.entries@.len() ==> {
                let p = self.state().candidates.val_at(i);
                &&& (#[trigger] r@[self.state().enrolled.entries@.len() + i])@.identity == p@.identity
                &&& lists(
                    r@[self.state().enrolled.entries@.len() + i]@,
                    self.state()@,
                    self.state().candidates.key_at(i),
                    PeerTrust::Candidate,
                    Seq::empty(),
                    &p.observations,
                )
            },
    {
        proof {
            use_type_invariant(self);
        }
        self.state.views()
    }
}

/// Withdrawing observations never adds a candidate.
proof fn lemma_without_all_candidates(v: DirectoryView, ids: Seq<Seq<char>>)
    ensures
        forall|a: Seq<char>| #[trigger] without_all(v, ids).candidates.contains_key(a) ==> v.candidates.contains_key(a),
    decreases ids.len(),
{
    if ids.len() > 0 {
        lemma_without_all_candidates(v, ids.drop_last());
        lemma_without_observation_shrinks(without_all(v, ids.drop_last()), ids.last());
    }
}

/// Withdrawing observations never enrolls anyone.
proof fn lemma_without_all_enrolled(v: DirectoryView, ids: Seq<Seq<char>>)
    ensures
        without_all(v, ids).enrolled.dom() == v.enrolled.dom(),
    decreases ids.len(),
{
    if ids.len() > 0 {
        lemma_without_all_enrolled(v, ids.drop_last());
        let w = without_all(v, ids.drop_last());
        assert(without_observation(w, ids.last()).enrolled.dom() =~= w.enrolled.dom());
    }
}

} // verus!
