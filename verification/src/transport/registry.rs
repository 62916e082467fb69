//! The registry of authoritative connections: at most one slot per peer,
//! a per-peer generation that advances whenever a slot is vacated so that
//! stale outcomes cannot touch a newer slot, and the admission rule for
//! simultaneous cross-dials. Connections are named by their stable IDs;
//! times are monotonic nanoseconds.
use vstd::prelude::*;

use crate::identity::AgentId;
use crate::keyed::{KeyedMap, group_map_values};
use crate::text::{chars_lt, compare_chars, copy_chars, Order};

verus! {

broadcast use group_map_values;

#[derive(Debug, Clone, Copy, PartialEq, Eq, Structural)]
pub enum Direction {
    Inbound,
    Outbound,
}

#[derive(Debug, Clone, Copy, PartialEq, Eq, Structural)]
pub struct ConnectionSlot {
    pub generation: u64,
    pub direction: Direction,
    pub stable_id: usize,
    /// When the slot became authoritative.
    pub installed_at: u64,
}

/// The outcome of an admission.
#[derive(Debug, Clone, Copy, PartialEq, Eq, Structural)]
pub enum Admission {
    /// The candidate is now authoritative under `generation`; `replaced`
    /// names the incumbent it displaced, which the caller closes.
    Accepted { generation: u64, replaced: Option<usize> },
    /// The incumbent stays; `close_candidate` tells the caller to close the
    /// candidate as a duplicate.
    Existing { incumbent: usize, close_candidate: bool },
    /// The peer is not authorized; the caller closes the candidate.
    Rejected,
}

pub struct RegistryState {
    pub slots: KeyedMap<ConnectionSlot>,
    pub generations: KeyedMap<u64>,
}

#[verifier::ext_equal]
pub struct RegistryView {
    pub slots: Map<Seq<char>, ConnectionSlot>,
    pub generations: Map<Seq<char>, u64>,
}

impl View for RegistryState {
    type V = RegistryView;

    open spec fn view(&self) -> RegistryView {
        RegistryView { slots: self.slots.as_map(), generations: self.generations.as_map() }
    }
}

/// Peer `p`'s generation (zero until first recorded).
pub open spec fn generation_of(v: RegistryView, p: Seq<char>) -> u64 {
    if v.generations.contains_key(p) {
        v.generations[p]
    } else {
        0
    }
}

/// Vacate `p`'s slot and advance its generation.
pub open spec fn vacated(v: RegistryView, p: Seq<char>) -> RegistryView {
    RegistryView {
        slots: v.slots.remove(p),
        generations: v.generations.insert(p, generation_of(v, p).wrapping_add(1)),
    }
}

/// The registry after lazily reaping `p`'s slot, whose connection has
/// closed when `closed`.
pub open spec fn reaped(v: RegistryView, p: Seq<char>, closed: bool) -> RegistryView {
    if v.slots.contains_key(p) && closed {
        vacated(v, p)
    } else {
        v
    }
}

/// Every slot carries its peer's current generation.
pub open spec fn slots_current(v: RegistryView) -> bool {
    forall|p: Seq<char>| #[trigger] v.slots.contains_key(p) ==> v.slots[p].generation == generation_of(v, p)
}

/// The registry after a release of `p`'s slot by the holder of connection
/// `stable_id` under `generation`: only the slot it still names is vacated.
pub open spec fn released(v: RegistryView, p: Seq<char>, generation: u64, stable_id: usize) -> RegistryView {
    if v.slots.contains_key(p) && v.slots[p].generation == generation && v.slots[p].stable_id == stable_id {
        vacated(v, p)
    } else {
        v
    }
}

/// The direction that wins a simultaneous cross-dial between `local` and
/// `peer`: the lower Agent ID dials out.
pub open spec fn preferred_direction(local: Seq<char>, peer: Seq<char>) -> Direction {
    if chars_lt(local, peer) {
        Direction::Outbound
    } else {
        Direction::Inbound
    }
}

/// Admission of a candidate connection for a peer at time `now`: unless
/// `allowed` (the peer is still authorized), nothing changes and the
/// candidate is rejected.
/// Otherwise a closed incumbent is first reaped; the candidate that is the
/// incumbent is confirmed; a healthy incumbent keeps its slot unless it
/// lies in the non-preferred direction, the candidate in the preferred one,
/// and the incumbent was installed no longer than `window` ago; otherwise
/// the candidate takes the slot under the peer's current generation.
pub open spec fn admitted(
    v: RegistryView,
    local: Seq<char>,
    peer: Seq<char>,
    id: usize,
    direction: Direction,
    allowed: bool,
    incumbent_closed: bool,
    now: u64,
    window: u64,
) -> (RegistryView, Admission) {
    if !allowed {
        (v, Admission::Rejected)
    } else {
        let r = reaped(v, peer, incumbent_closed);
        let g = generation_of(r, peer);
        let r1 = RegistryView { generations: r.generations.insert(peer, g), ..r };
        let installed = RegistryView {
            slots: r1.slots.insert(peer, ConnectionSlot { generation: g, direction, stable_id: id, installed_at: now }),
            ..r1
        };
        if r1.slots.contains_key(peer) {
            let inc = r1.slots[peer];
            let preferred = preferred_direction(local, peer);
            let within = now <= inc.installed_at || now - inc.installed_at <= window;
            if inc.stable_id == id {
                (r1, Admission::Existing { incumbent: inc.stable_id, close_candidate: false })
            } else if inc.direction == preferred || direction != preferred || !within {
                (r1, Admission::Existing { incumbent: inc.stable_id, close_candidate: true })
            } else {
                (installed, Admission::Accepted { generation: g, replaced: Some(inc.stable_id) })
            }
        } else {
            (installed, Admission::Accepted { generation: g, replaced: None })
        }
    }
}

impl RegistryState {
    pub open spec fn wf(&self) -> bool {
        self.slots.wf() && self.generations.wf() && slots_current(self@)
    }

    pub fn new() -> (s: RegistryState)
        ensures
            s.wf(),
            s@.slots == Map::<Seq<char>, ConnectionSlot>::empty(),
            s@.generations == Map::<Seq<char>, u64>::empty(),
    {
        let s = RegistryState { slots: KeyedMap::new(), generations: KeyedMap::new() };
        assert(s@.slots =~= Map::<Seq<char>, ConnectionSlot>::empty());
        assert(s@.generations =~= Map::<Seq<char>, u64>::empty());
        s
    }

    fn generation(&self, p: &Vec<char>) -> (g: u64)
        requires
            self.wf(),
        ensures
            g == generation_of(self@, p@),
    {
        match self.generations.get_value(p) {
            Some(g) => *g,
            None => 0,
        }
    }

    /// Vacate `p`'s slot, returning it, and advance `p`'s generation.
    fn vacate(&mut self, p: &Vec<char>) -> (r: Option<ConnectionSlot>)
        requires
            old(self).wf(),
        ensures
            final(self).wf(),
            final(self)@ == vacated(old(self)@, p@),
            r matches Some(s) ==> old(self)@.slots.contains_key(p@) && s == old(self)@.slots[p@],
            r is None ==> !old(self)@.slots.contains_key(p@),
    {
        let g = self.generation(p);
        let removed = self.slots.remove(p);
        self.generations.insert(copy_chars(p), g.wrapping_add(1));
        proof {
            assert(self@ =~~= vacated(old(self)@, p@));
        }
        removed
    }

    /// Reap `peer`'s slot if its connection has closed (see `reaped`).
    pub fn reap_closed(&mut self, peer: &AgentId, closed: bool)
        requires
            old(self).wf(),
        ensures
            final(self).wf(),
            final(self)@ == reaped(old(self)@, peer@, closed),
    {
        let p = peer.to_chars();
        if closed && self.slots.contains(&p) {
            let _ = self.vacate(&p);
        }
    }

    /// `peer`'s authoritative connection, after reaping a closed slot.
    pub fn live_slot(&mut self, peer: &AgentId, closed: bool) -> (r: Option<usize>)
        requires
            old(self).wf(),
        ensures
            final(self).wf(),
            final(self)@ == reaped(old(self)@, peer@, closed),
            r == (if final(self)@.slots.contains_key(peer@) {
                Some(final(self)@.slots[peer@].stable_id)
            } else {
                None
            }),
    {
        self.reap_closed(peer, closed);
        match self.slots.get_value(&peer.to_chars()) {
            Some(s) => Some(s.stable_id),
            None => None,
        }
    }

    /// Admit candidate connection `id` for `peer` (see `admitted`).
    pub fn admit_gated(
        &mut self,
        local: &AgentId,
        peer: &AgentId,
        id: usize,
        direction: Direction,
        allowed: bool,
        incumbent_closed: bool,
        now: u64,
        window: u64,
    ) -> (r: Admission)
        requires
            old(self).wf(),
        ensures
            final(self).wf(),
            (final(self)@, r) == admitted(old(self)@, local@, peer@, id, direction, allowed, incumbent_closed, now, window),
    {
        if !allowed {
            return Admission::Rejected;
        }
        self.reap_closed(peer, incumbent_closed);
        let p = peer.to_chars();
        let g = self.generation(&p);
        self.generations.insert(copy_chars(&p), g);
        let ghost r1 = self@;
        match self.slots.get_value(&p) {
            Some(inc) => {
                let inc = *inc;
                if inc.stable_id == id {
                    return Admission::Existing { incumbent: inc.stable_id, close_candidate: false };
                }
                let preferred = if compare_chars(&local.to_chars(), &p) == Order::Less {
                    Direction::Outbound
                } else {
                    Direction::Inbound
                };
                let within = now <= inc.installed_at || now - inc.installed_at <= window;
                if inc.direction == preferred || direction != preferred || !within {
                    return Admission::Existing { incumbent: inc.stable_id, close_candidate: true };
                }
                self.slots.insert(p, ConnectionSlot { generation: g, direction, stable_id: id, installed_at: now });
                proof {
                    assert(self@ =~~= admitted(old(self)@, local@, peer@, id, direction, allowed, incumbent_closed, now, window).0);
                }
                Admission::Accepted { generation: g, replaced: Some(inc.stable_id) }
            },
            None => {
                self.slots.insert(p, ConnectionSlot { generation: g, direction, stable_id: id, installed_at: now });
                proof {
                    assert(self@ =~~= admitted(old(self)@, local@, peer@, id, direction, allowed, incumbent_closed, now, window).0);
                }
                Admission::Accepted { generation: g, replaced: None }
            },
        }
    }

    /// Vacate `peer`'s slot only if it still holds connection `stable_id`
    /// under `generation`; a stale release changes nothing.
    pub fn release_if_current(&mut self, peer: &AgentId, generation: u64, stable_id: usize)
        requires
            old(self).wf(),
        ensures
            final(self).wf(),
            final(self)@ == released(old(self)@, peer@, generation, stable_id),
    {
        let p = peer.to_chars();
        let current = match self.slots.get_value(&p) {
            Some(s) => s.generation == generation && s.stable_id == stable_id,
            None => false,
        };
        if current {
            let _ = self.vacate(&p);
        }
    }

    /// Vacate `peer`'s slot only if it still holds connection `stable_id`,
    /// returning that connection for the caller to close.
    pub fn retire_if_current_connection(&mut self, peer: &AgentId, stable_id: usize) -> (r: Option<usize>)
        requires
            old(self).wf(),
        ensures
            final(self).wf(),
            old(self)@.slots.contains_key(peer@) && old(self)@.slots[peer@].stable_id == stable_id ==> r == Some(stable_id)
                && final(self)@ == vacated(old(self)@, peer@),
            !(old(self)@.slots.contains_key(peer@) && old(self)@.slots[peer@].stable_id == stable_id) ==> r is None
                && final(self)@ == old(self)@,
    {
        let p = peer.to_chars();
        let current = match self.slots.get_value(&p) {
            Some(s) => s.stable_id == stable_id,
            None => false,
        };
        if current {
            let _ = self.vacate(&p);
            Some(stable_id)
        } else {
            None
        }
    }

    /// Vacate `peer`'s slot (returning its connection for the caller to
    /// close) and advance its generation in any case.
    pub fn close_peer(&mut self, peer: &AgentId) -> (r: Option<usize>)
        requires
            old(self).wf(),
        ensures
            final(self).wf(),
            final(self)@ == vacated(old(self)@, peer@),
            r == (if old(self)@.slots.contains_key(peer@) {
                Some(old(self)@.slots[peer@].stable_id)
            } else {
                None
            }),
    {
        match self.vacate(&peer.to_chars()) {
            Some(s) => Some(s.stable_id),
            None => None,
        }
    }

    /// Clear every slot, returning their connections for the caller to close.
    pub fn close_all(&mut self) -> (r: Vec<usize>)
        requires
            old(self).wf(),
        ensures
            final(self).wf(),
            final(self)@.slots == Map::<Seq<char>, ConnectionSlot>::empty(),
            final(self)@.generations == old(self)@.generations,
            r@.len() == old(self).slots.entries@.len(),
            forall|i: int| 0 <= i < r@.len() ==> r@[i] == #[trigger] old(self).slots.val_at(i).stable_id,
    {
        let mut r: Vec<usize> = Vec::new();
        let mut i: usize = 0;
        while i < self.slots.len()
            invariant
                i <= self.slots.entries@.len(),
                r@.len() == i,
                forall|j: int| 0 <= j < i ==> r@[j] == #[trigger] self.slots.val_at(j).stable_id,
            decreases self.slots.entries@.len() - i,
        {
            r.push(self.slots.entries[i].1.stable_id);
            i = i + 1;
        }
        self.slots = KeyedMap::new();
        assert(self@.slots =~= Map::<Seq<char>, ConnectionSlot>::empty());
        r
    }

    /// How many peers have an authoritative connection.
    pub fn count(&self) -> (n: usize)
        ensures
            n == self.slots.entries@.len(),
    {
        self.slots.len()
    }
}

/// A healthy incumbent wins within its generation: a candidate arriving
/// after the cross-dial window, or in the non-preferred direction, or
/// against an incumbent already in the preferred one, never displaces it.
pub proof fn lemma_incumbent_wins(
    v: RegistryView,
    local: Seq<char>,
    peer: Seq<char>,
    id: usize,
    direction: Direction,
    now: u64,
    window: u64,
)
    requires
        v.slots.contains_key(peer),
        v.slots[peer].stable_id != id,
        v.slots[peer].direction == preferred_direction(local, peer) || direction != preferred_direction(local, peer) || (now
            > v.slots[peer].installed_at && now - v.slots[peer].installed_at > window),
    ensures
        admitted(v, local, peer, id, direction, true, false, now, window).1 == (Admission::Existing {
            incumbent: v.slots[peer].stable_id,
            close_candidate: true,
        }),
        admitted(v, local, peer, id, direction, true, false, now, window).0.slots == v.slots,
{
}

/// A vacated slot stays dead to its stale holders: releasing it with the
/// old slot's generation and connection changes nothing, and whatever slot
/// an admission installs for the peer afterwards carries a new generation,
/// so the stale release cannot touch it either.
pub proof fn lemma_vacated_slot_stays_dead(
    v: RegistryView,
    p: Seq<char>,
    local: Seq<char>,
    id: usize,
    direction: Direction,
    allowed: bool,
    incumbent_closed: bool,
    now: u64,
    window: u64,
)
    requires
        slots_current(v),
        v.slots.contains_key(p),
    ensures
        ({
            let s = v.slots[p];
            let w = vacated(v, p);
            let x = admitted(w, local, p, id, direction, allowed, incumbent_closed, now, window).0;
            &&& released(w, p, s.generation, s.stable_id) == w
            &&& x.slots.contains_key(p) ==> x.slots[p].generation != s.generation
            &&& released(x, p, s.generation, s.stable_id) == x
        }),
{
    let s = v.slots[p];
    let w = vacated(v, p);
    assert(generation_of(w, p) == s.generation.wrapping_add(1));
    assert(s.generation.wrapping_add(1) != s.generation);
}

/// A closed incumbent never blocks its peer's reconnection: when the peer's
/// slot holds a connection that has closed and the candidate is allowed,
/// the candidate is accepted with nothing to replace, under the
/// incumbent's generation plus one, and takes the slot; no other peer's
/// slot changes.
pub proof fn lemma_closed_incumbent_is_reaped(
    v: RegistryView,
    local: Seq<char>,
    peer: Seq<char>,
    id: usize,
    direction: Direction,
    now: u64,
    window: u64,
    other: Seq<char>,
)
    requires
        slots_current(v),
        v.slots.contains_key(peer),
        other != peer,
    ensures
        ({
            let (after, outcome) = admitted(v, local, peer, id, direction, true, true, now, window);
            let g = v.slots[peer].generation.wrapping_add(1);
            &&& outcome == Admission::Accepted { generation: g, replaced: None }
            &&& after.slots.contains_key(peer)
            &&& after.slots[peer] == ConnectionSlot { generation: g, direction, stable_id: id, installed_at: now }
            &&& after.slots.contains_key(other) == v.slots.contains_key(other)
            &&& v.slots.contains_key(other) ==> after.slots[other] == v.slots[other]
        }),
{
}

} // verus!
