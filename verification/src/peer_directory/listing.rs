//! What the directory offers to dialers and to users: an enrolled peer's
//! dial targets, and the listing of every known peer.
use vstd::prelude::*;

use crate::identity::AgentId;
use crate::keyed::{KeyedMap, group_map_values};
use crate::net::{SocketAddress, insert_addr, sorted_addrs};
use crate::peer_directory::locators::{copy_locators, views_of};
use crate::peer_directory::state::{DirectoryState, DirectoryView, LiveObservation, ObsView, contested};
use crate::peer_directory::types::{DialTarget, DialTargetView, ListedPeer, LocatorView, PeerTrust, PeerView};

verus! {

broadcast use group_map_values;

/// A record's observations in observation-ID order.
pub open spec fn observation_values(m: &KeyedMap<LiveObservation>) -> Seq<ObsView> {
    Seq::new(m.entries@.len(), |i: int| m.val_at(i)@)
}

/// The dial targets that the observations `obs` of peer `a` add, in order:
/// each endpoint that no other peer also claims.
pub open spec fn observed_targets(v: DirectoryView, a: Seq<char>, obs: Seq<ObsView>) -> Seq<DialTargetView>
    decreases obs.len(),
{
    if obs.len() == 0 {
        Seq::empty()
    } else {
        let rest = observed_targets(v, a, obs.drop_last());
        match obs.last().endpoint {
            Some(e) => if contested(v, a, e) {
                rest
            } else {
                rest.push(DialTargetView::Observed(e))
            },
            None => rest,
        }
    }
}

pub open spec fn configured_targets(ls: Seq<LocatorView>) -> Seq<DialTargetView> {
    ls.map_values(|l: LocatorView| DialTargetView::Configured(l))
}

/// Where to dial peer `a`: nothing unless it is enrolled; else its
/// configured locators in order, then its unquarantined observed endpoints.
pub open spec fn dial_plan(s: &DirectoryState, a: Seq<char>) -> Seq<DialTargetView> {
    if s.enrolled.has(a) {
        let p = s.enrolled.get(a);
        configured_targets(views_of(p.locators@)) + observed_targets(s@, a, observation_values(&p.observations))
    } else {
        Seq::empty()
    }
}

/// The endpoints of `a`'s observations `m` that no other peer claims.
pub open spec fn live_endpoint_set(v: DirectoryView, a: Seq<char>, m: Map<Seq<char>, ObsView>) -> Set<SocketAddress> {
    Set::new(|e: SocketAddress| !contested(v, a, e) && exists|k: Seq<char>| #[trigger] m.contains_key(k) && m[k].endpoint == Some(e))
}

/// The newest named observation: its time and name. Among equally new
/// ones the last in order wins.
pub open spec fn latest_name(obs: Seq<ObsView>) -> Option<(u64, Seq<char>)>
    decreases obs.len(),
{
    if obs.len() == 0 {
        None
    } else {
        let prev = latest_name(obs.drop_last());
        let o = obs.last();
        match o.display_name {
            Some(n) => match prev {
                Some(p) => if o.observed_at >= p.0 {
                    Some((o.observed_at, n))
                } else {
                    prev
                },
                None => Some((o.observed_at, n)),
            },
            None => prev,
        }
    }
}

pub open spec fn name_of(x: Option<(u64, Seq<char>)>) -> Option<Seq<char>> {
    match x {
        Some(p) => Some(p.1),
        None => None,
    }
}

/// Whether `p` lists peer `a` of trust `trust` with configured locators
/// `locators` and live observations `obs`.
pub open spec fn lists(
    p: ListedPeer,
    v: DirectoryView,
    a: Seq<char>,
    trust: PeerTrust,
    locators: Seq<LocatorView>,
    obs: &KeyedMap<LiveObservation>,
) -> bool {
    &&& p.trust == trust
    &&& p.configured_locators == locators
    &&& sorted_addrs(p.observed_endpoints)
    &&& p.observed_endpoints.to_set() == live_endpoint_set(v, a, obs.view_map())
    &&& p.display_name == name_of(latest_name(observation_values(obs)))
}

/// The unquarantined endpoints of `a`'s observations, sorted and distinct.
pub fn live_endpoints(s: &DirectoryState, a: &Vec<char>, obs: &KeyedMap<LiveObservation>) -> (r: Vec<SocketAddress>)
    requires
        s.wf(),
        obs.wf(),
    ensures
        sorted_addrs(r@),
        r@.to_set() == live_endpoint_set(s@, a@, obs.view_map()),
{
    let mut r: Vec<SocketAddress> = Vec::new();
    let mut j: usize = 0;
    while j < obs.len()
        invariant
            s.wf(),
            obs.wf(),
            j <= obs.entries@.len(),
            sorted_addrs(r@),
            forall|e: SocketAddress| r@.to_set().contains(e) <==> (!contested(s@, a@, e)
                && exists|j2: int| 0 <= j2 < j && (#[trigger] obs.val_at(j2)).endpoint == Some(e)),
        decreases obs.entries@.len() - j,
    {
        let ghost r0 = r@;
        let ghost oj = obs.val_at(j as int);
        match obs.entries[j].1.endpoint {
            Some(e) => {
                if !s.is_contested(a, &e) {
                    insert_addr(&mut r, e);
                    assert(r@.to_set() == r0.to_set().insert(e));
                } else {
                    assert(r@ == r0);
                }
            },
            None => {
                assert(r@ == r0);
            },
        }
        proof {
            assert forall|e: SocketAddress| r@.to_set().contains(e) <==> (!contested(s@, a@, e)
                && exists|j2: int| 0 <= j2 < j + 1 && (#[trigger] obs.val_at(j2)).endpoint == Some(e)) by {
                if r0.to_set().contains(e) {
                    let j2 = choose|j2: int| 0 <= j2 < j && (#[trigger] obs.val_at(j2)).endpoint == Some(e);
                    assert(obs.val_at(j2).endpoint == Some(e));
                }
                if !contested(s@, a@, e) && exists|j2: int| 0 <= j2 < j + 1 && (#[trigger] obs.val_at(j2)).endpoint == Some(e) {
                    let j2 = choose|j2: int| 0 <= j2 < j + 1 && (#[trigger] obs.val_at(j2)).endpoint == Some(e);
                    if j2 < j {
                        assert(r0.to_set().contains(e));
                    } else {
                        assert(oj.endpoint == Some(e));
                    }
                }
                if oj.endpoint == Some(e) && !contested(s@, a@, e) {
                    assert(obs.val_at(j as int).endpoint == Some(e));
                }
            }
        }
        j = j + 1;
    }
    proof {
        assert forall|e: SocketAddress| r@.to_set().contains(e) <==> live_endpoint_set(s@, a@, obs.view_map()).contains(e) by {
            if r@.to_set().contains(e) {
                let j2 = choose|j2: int| 0 <= j2 < obs.entries@.len() && (#[trigger] obs.val_at(j2)).endpoint == Some(e);
                let k = obs.key_at(j2);
                obs.lemma_index_unique(j2, k);
                assert(obs.view_map().contains_key(k));
            }
            if live_endpoint_set(s@, a@, obs.view_map()).contains(e) {
                let k = choose|k: Seq<char>| #[trigger] obs.view_map().contains_key(k) && obs.view_map()[k].endpoint == Some(e);
                let j2 = obs.index_of(k);
                obs.lemma_index_unique(j2, k);
                assert(obs.val_at(j2).endpoint == Some(e));
            }
        }
        assert(r@.to_set() =~= live_endpoint_set(s@, a@, obs.view_map()));
    }
    r
}

/// The display name of the newest named observation (the last such among
/// equally new ones).
pub fn latest_display_name(obs: &KeyedMap<LiveObservation>) -> (r: Option<String>)
    ensures
        (match r {
            Some(n) => Some(n@),
            None => None,
        }) == name_of(latest_name(observation_values(obs))),
{
    let ghost vals = observation_values(obs);
    let mut best: Option<(u64, String)> = None;
    let mut j: usize = 0;
    while j < obs.len()
        invariant
            j <= obs.entries@.len(),
            vals == observation_values(obs),
            (match best {
                Some(b) => Some((b.0, b.1@)),
                None => None,
            }) == latest_name(vals.take(j as int)),
        decreases obs.entries@.len() - j,
    {
        proof {
            assert(vals.take(j + 1).drop_last() =~= vals.take(j as int));
        }
        let o = &obs.entries[j].1;
        match &o.display_name {
            Some(n) => {
                let newer = match &best {
                    Some(b) => o.observed_at >= b.0,
                    None => true,
                };
                if newer {
                    best = Some((o.observed_at, n.clone()));
                }
            },
            None => {},
        }
        j = j + 1;
    }
    proof {
        assert(vals.take(obs.entries@.len() as int) =~= vals);
    }
    match best {
        Some(b) => Some(b.1),
        None => None,
    }
}

proof fn lemma_observed_targets_members(v: DirectoryView, a: Seq<char>, obs: Seq<ObsView>, e: SocketAddress)
    ensures
        observed_targets(v, a, obs).contains(DialTargetView::Observed(e)) <==> (!contested(v, a, e)
            && exists|j: int| 0 <= j < obs.len() && (#[trigger] obs[j]).endpoint == Some(e)),
    decreases obs.len(),
{
    if obs.len() > 0 {
        let rest = obs.drop_last();
        lemma_observed_targets_members(v, a, rest, e);
        let t = observed_targets(v, a, obs);
        let tr = observed_targets(v, a, rest);
        if exists|j: int| 0 <= j < obs.len() && (#[trigger] obs[j]).endpoint == Some(e) {
            let j = choose|j: int| 0 <= j < obs.len() && (#[trigger] obs[j]).endpoint == Some(e);
            if j < obs.len() - 1 {
                assert(rest[j] == obs[j]);
            }
        }
        if exists|j: int| 0 <= j < rest.len() && (#[trigger] rest[j]).endpoint == Some(e) {
            let j = choose|j: int| 0 <= j < rest.len() && (#[trigger] rest[j]).endpoint == Some(e);
            assert(obs[j] == rest[j]);
        }
        if t.contains(DialTargetView::Observed(e)) && !tr.contains(DialTargetView::Observed(e)) {
            let i = choose|i: int| 0 <= i < t.len() && t[i] == DialTargetView::Observed(e);
            assert(obs[obs.len() - 1].endpoint == Some(e));
        }
        if tr.contains(DialTargetView::Observed(e)) {
            let i = choose|i: int| 0 <= i < tr.len() && tr[i] == DialTargetView::Observed(e);
            assert(t[i] == tr[i]);
        }
        if obs.last().endpoint == Some(e) && !contested(v, a, e) {
            assert(t[t.len() - 1] == DialTargetView::Observed(e));
        }
    }
}

/// Quarantine is per endpoint, never per peer: an observed endpoint is
/// among an enrolled peer's dial targets exactly when one of the peer's
/// live observations holds it and no other peer claims it.
pub proof fn lemma_dial_targets_quarantine(s: &DirectoryState, a: Seq<char>, e: SocketAddress)
    requires
        s.wf(),
        s@.enrolled.contains_key(a),
    ensures
        dial_plan(s, a).contains(DialTargetView::Observed(e)) <==> live_endpoint_set(s@, a, s@.enrolled[a].observations).contains(e),
{
    let ii = s.enrolled.index_of(a);
    s.enrolled.lemma_index_unique(ii, a);
    s.lemma_enrolled_at(ii);
    let p = s.enrolled.get(a);
    let cfg = configured_targets(views_of(p.locators@));
    let vals = observation_values(&p.observations);
    let obs_t = observed_targets(s@, a, vals);
    lemma_observed_targets_members(s@, a, vals, e);
    let d = dial_plan(s, a);
    assert(d == cfg + obs_t);
    if d.contains(DialTargetView::Observed(e)) {
        let i = choose|i: int| 0 <= i < d.len() && d[i] == DialTargetView::Observed(e);
        if i < cfg.len() {
            assert(d[i] == cfg[i]);
        } else {
            assert(d[i] == obs_t[i - cfg.len()]);
        }
    }
    if obs_t.contains(DialTargetView::Observed(e)) {
        let i = choose|i: int| 0 <= i < obs_t.len() && obs_t[i] == DialTargetView::Observed(e);
        assert(d[cfg.len() + i] == obs_t[i]);
    }
    let m = s@.enrolled[a].observations;
    if exists|j: int| 0 <= j < vals.len() && (#[trigger] vals[j]).endpoint == Some(e) {
        let j = choose|j: int| 0 <= j < vals.len() && (#[trigger] vals[j]).endpoint == Some(e);
        let k = p.observations.key_at(j);
        p.observations.lemma_index_unique(j, k);
        assert(m.contains_key(k) && m[k].endpoint == Some(e));
    }
    if exists|k: Seq<char>| #[trigger] m.contains_key(k) && m[k].endpoint == Some(e) {
        let k = choose|k: Seq<char>| #[trigger] m.contains_key(k) && m[k].endpoint == Some(e);
        let j = p.observations.index_of(k);
        p.observations.lemma_index_unique(j, k);
        assert(vals[j].endpoint == Some(e));
    }
}

impl DirectoryState {
    /// The places to dial enrolled peer `agent_id` (see `dial_plan`).
    pub fn dial_targets(&self, agent_id: &AgentId) -> (r: Vec<DialTarget>)
        requires
            self.wf(),
        ensures
            r@.map_values(|t: DialTarget| t@) == dial_plan(self, agent_id@),
    {
        let a = agent_id.to_chars();
        let peer = match self.enrolled.get_value(&a) {
            Some(p) => p,
            None => {
                assert(dial_plan(self, agent_id@) =~= Seq::<DialTargetView>::empty());
                return Vec::new();
            },
        };
        let ghost lv = views_of(peer.locators@);
        let ghost vals = observation_values(&peer.observations);
        proof {
            let ii = self.enrolled.index_of(a@);
            self.enrolled.lemma_index_unique(ii, a@);
            self.lemma_enrolled_at(ii);
        }
        let mut r: Vec<DialTarget> = Vec::new();
        let mut i: usize = 0;
        while i < peer.locators.len()
            invariant
                i <= peer.locators@.len(),
                lv == views_of(peer.locators@),
                r@.map_values(|t: DialTarget| t@) == configured_targets(lv.take(i as int)),
            decreases peer.locators@.len() - i,
        {
            let ghost r0 = r@;
            let d = peer.locators[i].duplicate();
            r.push(DialTarget::Configured(d));
            proof {
                assert(lv.take(i + 1) =~= lv.take(i as int).push(lv[i as int]));
                assert(r@.map_values(|t: DialTarget| t@) =~= r0.map_values(|t: DialTarget| t@).push(DialTargetView::Configured(d@)));
                assert(configured_targets(lv.take(i + 1)) =~= configured_targets(lv.take(i as int)).push(DialTargetView::Configured(lv[i as int])));
            }
            i = i + 1;
        }
        proof {
            assert(lv.take(peer.locators@.len() as int) =~= lv);
        }
        let obs = &peer.observations;
        let mut j: usize = 0;
        while j < obs.len()
            invariant
                self.wf(),
                j <= obs.entries@.len(),
                vals == observation_values(obs),
                r@.map_values(|t: DialTarget| t@) == configured_targets(lv) + observed_targets(self@, a@, vals.take(j as int)),
            decreases obs.entries@.len() - j,
        {
            proof {
                assert(vals.take(j + 1).drop_last() =~= vals.take(j as int));
            }
            let ghost before = r@.map_values(|t: DialTarget| t@);
            match obs.entries[j].1.endpoint {
                Some(e) => {
                    if !self.is_contested(&a, &e) {
                        r.push(DialTarget::Observed(e));
                        proof {
                            assert(r@.map_values(|t: DialTarget| t@) =~= before.push(DialTargetView::Observed(e)));
                        }
                    }
                },
                None => {},
            }
            proof {
                assert(r@.map_values(|t: DialTarget| t@) =~= configured_targets(lv) + observed_targets(self@, a@, vals.take(j + 1)));
            }
            j = j + 1;
        }
        proof {
            assert(vals.take(obs.entries@.len() as int) =~= vals);
        }
        r
    }

    /// Every known peer: the enrolled ones in Agent ID order, then the
    /// candidates in Agent ID order.
    pub fn views(&self) -> (r: Vec<PeerView>)
        requires
            self.wf(),
        ensures
            r@.len() == self.enrolled.entries@.len() + self.candidates.entries@.len(),
            forall|i: int| 0 <= i < self.enrolled.entries@.len() ==> {
                let p = self.enrolled.val_at(i);
                &&& (#[trigger] r@[i])@.identity == p@.identity
                &&& lists(r@[i]@, self@, self.enrolled.key_at(i), PeerTrust::Enrolled, p@.locators, &p.observations)
            },
            forall|i: int| 0 <= i < self.candidates.entries@.len() ==> {
                let p = self.candidates.val_at(i);
                &&& (#[trigger] r@[self.enrolled.entries@.len() + i])@.identity == p@.identity
                &&& lists(r@[self.enrolled.entries@.len() + i]@, self@, self.candidates.key_at(i), PeerTrust::Candidate, Seq::empty(), &p.observations)
            },
    {
        let mut r: Vec<PeerView> = Vec::new();
        let mut i: usize = 0;
        while i < self.enrolled.len()
            invariant
                self.wf(),
                i <= self.enrolled.entries@.len(),
                r@.len() == i,
                forall|i2: int| 0 <= i2 < i ==> {
                    let p = self.enrolled.val_at(i2);
                    &&& (#[trigger] r@[i2])@.identity == p@.identity
                    &&& lists(r@[i2]@, self@, self.enrolled.key_at(i2), PeerTrust::Enrolled, p@.locators, &p.observations)
                },
            decreases self.enrolled.entries@.len() - i,
        {
            proof {
                self.lemma_enrolled_at(i as int);
            }
            let key = &self.enrolled.entries[i].0;
            let peer = &self.enrolled.entries[i].1;
            let view = PeerView {
                identity: peer.identity.duplicate(),
                trust: PeerTrust::Enrolled,
                configured_locators: copy_locators(&peer.locators),
                observed_endpoints: live_endpoints(self, key, &peer.observations),
                display_name: latest_display_name(&peer.observations),
            };
            let ghost r0 = r@;
            r.push(view);
            proof {
                assert forall|i2: int| 0 <= i2 < i + 1 implies {
                    let p = self.enrolled.val_at(i2);
                    &&& (#[trigger] r@[i2])@.identity == p@.identity
                    &&& lists(r@[i2]@, self@, self.enrolled.key_at(i2), PeerTrust::Enrolled, p@.locators, &p.observations)
                } by {
                    if i2 < i {
                        assert(r@[i2] == r0[i2]);
                    }
                }
            }
            i = i + 1;
        }
        let ne = self.enrolled.len();
        let mut i: usize = 0;
        while i < self.candidates.len()
            invariant
                self.wf(),
                ne == self.enrolled.entries@.len(),
                i <= self.candidates.entries@.len(),
                r@.len() == ne + i,
                forall|i2: int| 0 <= i2 < ne ==> {
                    let p = self.enrolled.val_at(i2);
                    &&& (#[trigger] r@[i2])@.identity == p@.identity
                    &&& lists(r@[i2]@, self@, self.enrolled.key_at(i2), PeerTrust::Enrolled, p@.locators, &p.observations)
                },
                forall|i2: int| 0 <= i2 < i ==> {
                    let p = self.candidates.val_at(i2);
                    &&& (#[trigger] r@[ne + i2])@.identity == p@.identity
                    &&& lists(r@[ne + i2]@, self@, self.candidates.key_at(i2), PeerTrust::Candidate, Seq::empty(), &p.observations)
                },
            decreases self.candidates.entries@.len() - i,
        {
            proof {
                self.lemma_candidate_at(i as int);
            }
            let key = &self.candidates.entries[i].0;
            let peer = &self.candidates.entries[i].1;
            let view = PeerView {
                identity: peer.identity.duplicate(),
                trust: PeerTrust::Candidate,
                configured_locators: Vec::new(),
                observed_endpoints: live_endpoints(self, key, &peer.observations),
                display_name: latest_display_name(&peer.observations),
            };
            proof {
                assert(view@.configured_locators =~= Seq::<LocatorView>::empty());
            }
            let ghost r0 = r@;
            r.push(view);
            proof {
                assert forall|i2: int| 0 <= i2 < ne implies {
                    let p = self.enrolled.val_at(i2);
                    &&& (#[trigger] r@[i2])@.identity == p@.identity
                    &&& lists(r@[i2]@, self@, self.enrolled.key_at(i2), PeerTrust::Enrolled, p@.locators, &p.observations)
                } by {
                    assert(r@[i2] == r0[i2]);
                }
                assert forall|i2: int| 0 <= i2 < i + 1 implies {
                    let p = self.candidates.val_at(i2);
                    &&& (#[trigger] r@[ne + i2])@.identity == p@.identity
                    &&& lists(r@[ne + i2]@, self@, self.candidates.key_at(i2), PeerTrust::Candidate, Seq::empty(), &p.observations)
                } by {
                    if i2 < i {
                        assert(r@[ne + i2] == r0[ne + i2]);
                    }
                }
            }
            i = i + 1;
        }
        r
    }
}

} // verus!
