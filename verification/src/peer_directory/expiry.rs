//! Expiry of stale discovery observations.
use vstd::prelude::*;

use crate::identity::AgentId;
use crate::keyed::{KeyedMap, group_map_values, keys_seq};
use crate::identity::PeerIdentityView;
use crate::peer_directory::state::{
    DirectoryState, DirectoryView, LiveObservation, ObsView, durable, obs_of, observed, owns, pins_of, without_observation,
};
use crate::text::{chars_lt, copy_chars};

verus! {

broadcast use group_map_values;

/// Whether an observation made at `seen` is older than `ttl` at `now`; an
/// observation stamped after `now` has age zero.
pub open spec fn is_stale(seen: u64, now: u64, ttl: u64) -> bool {
    now > seen && now - seen > ttl
}

/// The IDs among `keys` of live observations that are stale, in order.
pub open spec fn stale_among(v: DirectoryView, keys: Seq<Seq<char>>, now: u64, ttl: u64) -> Seq<Seq<char>>
    decreases keys.len(),
{
    if keys.len() == 0 {
        Seq::empty()
    } else {
        let rest = stale_among(v, keys.drop_last(), now, ttl);
        let k = keys.last();
        if v.index.contains_key(k) && is_stale(obs_of(v, v.index[k], k).observed_at, now, ttl) {
            rest.push(k)
        } else {
            rest
        }
    }
}

/// The stale live observation IDs, in ID order.
pub open spec fn stale_ids(s: &DirectoryState, now: u64, ttl: u64) -> Seq<Seq<char>> {
    stale_among(s@, keys_seq(&s.index), now, ttl)
}

/// The directory after withdrawing the observations `ids` one by one.
pub open spec fn without_all(v: DirectoryView, ids: Seq<Seq<char>>) -> DirectoryView
    decreases ids.len(),
{
    if ids.len() == 0 {
        v
    } else {
        without_observation(without_all(v, ids.drop_last()), ids.last())
    }
}

/// Whether `a` owned one of the observations `ids` in `v`.
pub open spec fn owned_one_of(v: DirectoryView, ids: Seq<Seq<char>>, a: Seq<char>) -> bool {
    exists|i: int| 0 <= i < ids.len() && v.index[#[trigger] ids[i]] == a
}

proof fn lemma_stale_among_keys(v: DirectoryView, keys: Seq<Seq<char>>, now: u64, ttl: u64)
    ensures
        forall|i: int| 0 <= i < stale_among(v, keys, now, ttl).len() ==> v.index.contains_key(#[trigger] stale_among(v, keys, now, ttl)[i]),
    decreases keys.len(),
{
    if keys.len() > 0 {
        let rest = stale_among(v, keys.drop_last(), now, ttl);
        let r = stale_among(v, keys, now, ttl);
        lemma_stale_among_keys(v, keys.drop_last(), now, ttl);
        assert forall|i: int| 0 <= i < r.len() implies v.index.contains_key(#[trigger] r[i]) by {
            if i < rest.len() {
                assert(r[i] == rest[i]);
            }
        }
    }
}

/// Withdrawing one observation only shrinks the candidate set, and only by
/// the observation's owner.
pub proof fn lemma_without_observation_shrinks(v: DirectoryView, k: Seq<char>)
    ensures
        without_observation(v, k).index == v.index.remove(k),
        forall|b: Seq<char>| #[trigger] without_observation(v, k).candidates.contains_key(b) ==> v.candidates.contains_key(b),
        forall|b: Seq<char>| v.candidates.contains_key(b) && !(#[trigger] without_observation(v, k).candidates.contains_key(b))
            ==> v.index.contains_key(k) && b == v.index[k],
{
    if !v.index.contains_key(k) {
        assert(v.index.remove(k) =~= v.index);
    }
}

impl DirectoryState {
    /// The live observation recorded under `id`.
    pub fn observation(&self, id: &Vec<char>) -> (r: Option<&LiveObservation>)
        requires
            self.wf(),
        ensures
            r matches Some(o) ==> self@.index.contains_key(id@) && o@ == obs_of(self@, self@.index[id@], id@),
            r is None ==> !self@.index.contains_key(id@),
    {
        let owner = match self.index.get_value(id) {
            Some(a) => a.to_chars(),
            None => return None,
        };
        let ghost a = owner@;
        assert(owns(self@, a, id@));
        match self.enrolled.get_value(&owner) {
            Some(p) => {
                proof {
                    let ii = self.enrolled.index_of(a);
                    self.enrolled.lemma_index_unique(ii, a);
                    self.lemma_enrolled_at(ii);
                }
                return match p.observations.get_value(id) {
                    Some(o) => Some(o),
                    None => None,
                };
            },
            None => {},
        }
        match self.candidates.get_value(&owner) {
            Some(p) => {
                proof {
                    let ii = self.candidates.index_of(a);
                    self.candidates.lemma_index_unique(ii, a);
                    self.lemma_candidate_at(ii);
                }
                match p.observations.get_value(id) {
                    Some(o) => Some(o),
                    None => None,
                }
            },
            None => None,
        }
    }

    /// Withdraw every stale observation (see `stale_ids`) and return, in
    /// Agent ID order and without repeats, the owners of withdrawn
    /// observations that are not candidates afterwards.
    pub fn expire_observations(&mut self, now: u64, ttl: u64) -> (r: Vec<AgentId>)
        requires
            old(self).wf(),
        ensures
            final(self).wf(),
            final(self)@ == without_all(old(self)@, stale_ids(old(self), now, ttl)),
            forall|i: int, j: int| 0 <= i < j < r@.len() ==> chars_lt(#[trigger] r@[i]@, #[trigger] r@[j]@),
            forall|i: int| 0 <= i < r@.len() ==> owned_one_of(old(self)@, stale_ids(old(self), now, ttl), #[trigger] r@[i]@)
                && !final(self)@.candidates.contains_key(r@[i]@),
            forall|a: Seq<char>| #[trigger] owned_one_of(old(self)@, stale_ids(old(self), now, ttl), a)
                && !final(self)@.candidates.contains_key(a) ==> exists|i: int| 0 <= i < r@.len() && r@[i]@ == a,
    {
        let ghost v = self@;
        let ghost keys = keys_seq(&self.index);
        let ghost stale = stale_ids(self, now, ttl);
        let mut ids: Vec<Vec<char>> = Vec::new();
        let mut j: usize = 0;
        while j < self.index.len()
            invariant
                self.wf(),
                self@ == v,
                keys == keys_seq(&self.index),
                j <= self.index.entries@.len(),
                ids@.map_values(|x: Vec<char>| x@) == stale_among(v, keys.take(j as int), now, ttl),
            decreases self.index.entries@.len() - j,
        {
            proof {
                assert(keys.take(j + 1).drop_last() =~= keys.take(j as int));
                self.index.lemma_index_unique(j as int, keys[j as int]);
            }
            let k = &self.index.entries[j].0;
            let ghost before = ids@.map_values(|x: Vec<char>| x@);
            match self.observation(k) {
                Some(o) => {
                    if now > o.observed_at && now - o.observed_at > ttl {
                        ids.push(copy_chars(k));
                        proof {
                            assert(ids@.map_values(|x: Vec<char>| x@) =~= before.push(k@));
                        }
                    }
                },
                None => {},
            }
            proof {
                assert(ids@.map_values(|x: Vec<char>| x@) == stale_among(v, keys.take(j + 1), now, ttl));
            }
            j = j + 1;
        }
        proof {
            assert(keys.take(self.index.entries@.len() as int) =~= keys);
            lemma_stale_among_keys(v, keys, now, ttl);
        }
        let ghost idv = ids@.map_values(|x: Vec<char>| x@);
        assert(idv == stale);
        let mut out: KeyedMap<AgentId> = KeyedMap::new();
        let mut i: usize = 0;
        while i < ids.len()
            invariant
                self.wf(),
                idv == ids@.map_values(|x: Vec<char>| x@),
                idv == stale,
                forall|i2: int| 0 <= i2 < idv.len() ==> v.index.contains_key(#[trigger] idv[i2]),
                i <= ids@.len(),
                self@ == without_all(v, idv.take(i as int)),
                self@.index == v.index.remove_keys(idv.take(i as int).to_set()),
                out.wf(),
                forall|k: Seq<char>| #[trigger] out.has(k) ==> out.get(k)@ == k,
                forall|a: Seq<char>| #[trigger] out.has(a) <==> (owned_one_of(v, idv.take(i as int), a)
                    && !self@.candidates.contains_key(a)),
            decreases ids@.len() - i,
        {
            let ghost cur = self@;
            let ghost id = idv[i as int];
            proof {
                assert(idv.take(i + 1).drop_last() =~= idv.take(i as int));
                assert(idv.take(i + 1).last() == id);
                assert(idv.take(i + 1).to_set() =~= idv.take(i as int).to_set().insert(id));
                lemma_without_observation_shrinks(cur, id);
            }
            let ghost out0 = out;
            let removed = self.remove_observation(&ids[i]);
            proof {
                assert(self@ == without_all(v, idv.take(i + 1)));
                assert(self@.index =~= v.index.remove_keys(idv.take(i + 1).to_set()));
            }
            match removed {
                Some(owner) => {
                    let key = owner.to_chars();
                    assert(cur.index.contains_key(id));
                    assert(!idv.take(i as int).to_set().contains(id));
                    assert(owner@ == v.index[id]);
                    if !self.candidates.contains(&key) {
                        let ghost og = owner;
                        out.insert(key, owner);
                        proof {
                            assert forall|k: Seq<char>| #[trigger] out.has(k) implies out.get(k)@ == k by {
                                assert(out.as_map().contains_key(k));
                                assert(out.get(k) == out.as_map()[k]);
                                if k != og@ {
                                    assert(out0.as_map().contains_key(k));
                                    assert(out0.has(k));
                                    assert(out0.get(k) == out0.as_map()[k]);
                                    assert(out0.get(k)@ == k);
                                } else {
                                    assert(out.as_map()[k] == og);
                                }
                            }
                        }
                    }
                },
                None => {
                    assert(idv.take(i as int).to_set().contains(id));
                },
            }
            proof {
                let a0 = v.index[id];
                assert forall|a: Seq<char>| #[trigger] out.has(a) <==> (owned_one_of(v, idv.take(i + 1), a)
                    && !self@.candidates.contains_key(a)) by {
                    let t0 = idv.take(i as int);
                    let t1 = idv.take(i + 1);
                    if owned_one_of(v, t0, a) {
                        let i2 = choose|i2: int| 0 <= i2 < t0.len() && v.index[#[trigger] t0[i2]] == a;
                        assert(t1[i2] == t0[i2]);
                    }
                    if owned_one_of(v, t1, a) {
                        let i2 = choose|i2: int| 0 <= i2 < t1.len() && v.index[#[trigger] t1[i2]] == a;
                        if i2 < i {
                            assert(t0[i2] == t1[i2]);
                        } else {
                            assert(a == a0);
                            if !owned_one_of(v, t0, a) {
                                assert(cur.index.contains_key(id)) by {
                                    if !cur.index.contains_key(id) {
                                        assert(t0.to_set().contains(id));
                                        let i3 = choose|i3: int| 0 <= i3 < t0.len() && t0[i3] == id;
                                        assert(v.index[t0[i3]] == a);
                                    }
                                }
                            }
                        }
                    }
                    if a == a0 {
                        assert(t1[i as int] == id);
                    }
                    assert(out.as_map().contains_key(a) == out.has(a));
                }
            }
            i = i + 1;
        }
        proof {
            assert(idv.take(ids@.len() as int) =~= idv);
            assert forall|a: Seq<char>| #[trigger] out.has(a) <==> (owned_one_of(v, stale, a)
                && !self@.candidates.contains_key(a)) by {
            }
        }
        let r = out.into_values();
        proof {
            assert forall|i1: int, j1: int| 0 <= i1 < j1 < r@.len() implies chars_lt(#[trigger] r@[i1]@, #[trigger] r@[j1]@) by {
                out.lemma_index_unique(i1, out.key_at(i1));
                out.lemma_index_unique(j1, out.key_at(j1));
                assert(chars_lt(out.key_at(i1), out.key_at(j1)));
            }
            assert forall|a: Seq<char>| (exists|i1: int| 0 <= i1 < r@.len() && #[trigger] r@[i1]@ == a) <==> (owned_one_of(v, stale, a)
                && !self@.candidates.contains_key(a)) by {
                assert(out.has(a) <==> (owned_one_of(v, stale, a) && !self@.candidates.contains_key(a)));
                if exists|i1: int| 0 <= i1 < r@.len() && #[trigger] r@[i1]@ == a {
                    let i1 = choose|i1: int| 0 <= i1 < r@.len() && #[trigger] r@[i1]@ == a;
                    out.lemma_index_unique(i1, out.key_at(i1));
                    assert(out.has(out.key_at(i1)));
                }
                if out.has(a) {
                    let i1 = out.index_of(a);
                    out.lemma_index_unique(i1, a);
                    assert(r@[i1]@ == a);
                }
            }
        }
        r
    }
}

proof fn lemma_withdraw_keeps_trust(v: DirectoryView, id: Seq<char>)
    ensures
        durable(without_observation(v, id)) == durable(v),
        pins_of(without_observation(v, id)) == pins_of(v),
{
    assert(durable(without_observation(v, id)) =~= durable(v));
    assert(pins_of(without_observation(v, id)) =~= pins_of(v));
}

proof fn lemma_expiry_keeps_trust(v: DirectoryView, ids: Seq<Seq<char>>)
    ensures
        durable(without_all(v, ids)) == durable(v),
        pins_of(without_all(v, ids)) == pins_of(v),
    decreases ids.len(),
{
    if ids.len() > 0 {
        lemma_expiry_keeps_trust(v, ids.drop_last());
        lemma_withdraw_keeps_trust(without_all(v, ids.drop_last()), ids.last());
    }
}

/// Discovery alone never changes the trust set: recording, withdrawing or
/// expiring live observations leaves the enrolled peers, their key bindings
/// and configured locators as they were, so the pin set and the durable
/// records are unchanged.
pub proof fn lemma_discovery_keeps_trust(
    v: DirectoryView,
    local: Seq<char>,
    id: Seq<char>,
    identity: PeerIdentityView,
    o: ObsView,
    ids: Seq<Seq<char>>,
)
    ensures
        durable(observed(v, local, id, identity, o).0) == durable(v),
        pins_of(observed(v, local, id, identity, o).0) == pins_of(v),
        durable(without_observation(v, id)) == durable(v),
        pins_of(without_observation(v, id)) == pins_of(v),
        durable(without_all(v, ids)) == durable(v),
        pins_of(without_all(v, ids)) == pins_of(v),
{
    lemma_withdraw_keeps_trust(v, id);
    lemma_expiry_keeps_trust(v, ids);
    let x = observed(v, local, id, identity, o).0;
    assert(durable(x) =~= durable(v));
    assert(pins_of(x) =~= pins_of(v));
}

} // verus!
