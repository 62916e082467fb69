//! The table of reachable peers: one record per canonical (lower-case)
//! Agent ID, at most one peer per address, with the public-key map that the
//! TLS verifiers pin against kept over the same Agent IDs.
//!
//! Times are monotonic nanoseconds supplied by the caller. A measured
//! round-trip time is carried as the bit pattern of its `f64` value; the
//! table only stores it.
use vstd::prelude::*;

use crate::identity::AgentId;
use crate::keyed::{KeyedMap, group_map_values, lemma_dom_len, lemma_map_values_insert, lemma_map_values_remove};
use crate::net::SocketAddress;
use crate::text::{ascii_lower, ascii_lowercase, chars_lt, chars_of, copy_chars, string_from_chars};

verus! {

broadcast use group_map_values;

/// How long a discovered peer may go unseen before it is dropped (60 s).
pub const STALE_TIMEOUT_NANOS: u64 = 60_000_000_000;

#[derive(Debug, Clone, Copy, PartialEq, Eq, Structural)]
pub enum PeerSource {
    Static,
    Discovered,
    Cached,
}

#[derive(Debug, Clone, Copy, PartialEq, Eq, Structural)]
pub enum ConnectionStatus {
    Discovered,
    Connecting,
    Connected,
    Disconnected,
}

/// A configured peer.
#[derive(Debug, Clone)]
pub struct StaticPeerConfig {
    pub agent_id: AgentId,
    pub addr: SocketAddress,
    pub pubkey: String,
}

/// A peer remembered from an earlier run.
#[derive(Debug, Clone)]
pub struct KnownPeer {
    pub agent_id: AgentId,
    pub addr: SocketAddress,
    pub pubkey: String,
    pub last_seen_unix_ms: u64,
}

#[derive(Debug, Clone)]
pub struct PeerRecord {
    pub agent_id: AgentId,
    pub addr: SocketAddress,
    pub pubkey: String,
    pub source: PeerSource,
    pub status: ConnectionStatus,
    /// The round-trip time in milliseconds, as the bits of an `f64`.
    pub rtt_ms: Option<u64>,
    /// When the peer was last seen (monotonic nanoseconds).
    pub last_seen: u64,
}

pub struct RecordView {
    pub agent_id: Seq<char>,
    pub addr: SocketAddress,
    pub pubkey: Seq<char>,
    pub source: PeerSource,
    pub status: ConnectionStatus,
    pub rtt_ms: Option<u64>,
    pub last_seen: u64,
}

impl View for PeerRecord {
    type V = RecordView;

    open spec fn view(&self) -> RecordView {
        RecordView {
            agent_id: self.agent_id@,
            addr: self.addr,
            pubkey: self.pubkey@,
            source: self.source,
            status: self.status,
            rtt_ms: self.rtt_ms,
            last_seen: self.last_seen,
        }
    }
}

/// The canonical form of an Agent ID: ASCII letters lower-cased.
pub fn canonical_agent_id(agent_id: &str) -> (r: AgentId)
    ensures
        r@ == ascii_lower(agent_id@),
{
    AgentId::from_string(string_from_chars(&ascii_lowercase(&chars_of(agent_id))))
}

/// A fresh record of `source` for a peer seen at `now`.
pub open spec fn fresh_record(agent_id: Seq<char>, addr: SocketAddress, pubkey: Seq<char>, source: PeerSource, now: u64) -> RecordView {
    RecordView {
        agent_id: ascii_lower(agent_id),
        addr,
        pubkey,
        source,
        status: ConnectionStatus::Discovered,
        rtt_ms: None,
        last_seen: now,
    }
}

impl PeerRecord {
    pub fn from_static(cfg: &StaticPeerConfig, now: u64) -> (r: PeerRecord)
        ensures
            r@ == fresh_record(cfg.agent_id@, cfg.addr, cfg.pubkey@, PeerSource::Static, now),
    {
        PeerRecord {
            agent_id: canonical_agent_id(cfg.agent_id.as_str()),
            addr: cfg.addr,
            pubkey: cfg.pubkey.clone(),
            source: PeerSource::Static,
            status: ConnectionStatus::Discovered,
            rtt_ms: None,
            last_seen: now,
        }
    }

    pub fn from_cached(peer: &KnownPeer, now: u64) -> (r: PeerRecord)
        ensures
            r@ == fresh_record(peer.agent_id@, peer.addr, peer.pubkey@, PeerSource::Cached, now),
    {
        PeerRecord {
            agent_id: canonical_agent_id(peer.agent_id.as_str()),
            addr: peer.addr,
            pubkey: peer.pubkey.clone(),
            source: PeerSource::Cached,
            status: ConnectionStatus::Discovered,
            rtt_ms: None,
            last_seen: now,
        }
    }

    pub fn duplicate(&self) -> (r: PeerRecord)
        ensures
            r@ == self@,
    {
        PeerRecord {
            agent_id: self.agent_id.duplicate(),
            addr: self.addr,
            pubkey: self.pubkey.clone(),
            source: self.source,
            status: self.status,
            rtt_ms: self.rtt_ms,
            last_seen: self.last_seen,
        }
    }
}

/// The table as maps keyed by canonical Agent ID.
#[verifier::ext_equal]
pub struct TableView {
    pub records: Map<Seq<char>, RecordView>,
    pub pubkeys: Map<Seq<char>, Seq<char>>,
}

/// The table's invariant: each record sits under its own Agent ID, the
/// pubkey map covers exactly the recorded peers, and no two peers share an
/// address.
pub open spec fn table_wf(t: TableView) -> bool {
    &&& t.records.dom().finite()
    &&& forall|a: Seq<char>| #[trigger] t.records.contains_key(a) ==> t.records[a].agent_id == a
    &&& forall|a: Seq<char>| #[trigger] t.records.contains_key(a) <==> t.pubkeys.contains_key(a)
    &&& forall|a: Seq<char>| #[trigger] t.records.contains_key(a) ==> t.pubkeys[a] == t.records[a].pubkey
    &&& forall|a: Seq<char>, b: Seq<char>|
        #[trigger] t.records.contains_key(a) && #[trigger] t.records.contains_key(b) && a != b ==> t.records[a].addr
            != t.records[b].addr
}

/// The peers other than `a` at `addr`.
pub open spec fn others_at(m: Map<Seq<char>, RecordView>, a: Seq<char>, addr: SocketAddress) -> Set<Seq<char>> {
    Set::new(|b: Seq<char>| m.contains_key(b) && b != a && m[b].addr == addr)
}

/// Whether a static peer other than `a` occupies `addr`.
pub open spec fn static_conflict(m: Map<Seq<char>, RecordView>, a: Seq<char>, addr: SocketAddress) -> bool {
    exists|b: Seq<char>| #[trigger] others_at(m, a, addr).contains(b) && m[b].source == PeerSource::Static
}

/// A discovered sighting of `agent_id` at `addr` with `pubkey`: refused
/// where another static peer holds the address; otherwise the others there
/// are evicted and the record is refreshed (a static record keeps its
/// address, key and source) or created; the pubkey map takes the record's
/// key, so a static peer keeps its configured key.
pub open spec fn after_discovered(t: TableView, agent_id: Seq<char>, addr: SocketAddress, pubkey: Seq<char>, now: u64) -> TableView {
    let a = ascii_lower(agent_id);
    if static_conflict(t.records, a, addr) {
        t
    } else {
        let evicted = others_at(t.records, a, addr);
        let m = t.records.remove_keys(evicted);
        let rec = if m.contains_key(a) {
            if m[a].source != PeerSource::Static {
                RecordView { addr, pubkey, source: PeerSource::Discovered, last_seen: now, ..m[a] }
            } else {
                RecordView { last_seen: now, ..m[a] }
            }
        } else {
            fresh_record(agent_id, addr, pubkey, PeerSource::Discovered, now)
        };
        TableView { records: m.insert(a, rec), pubkeys: t.pubkeys.remove_keys(evicted).insert(a, rec.pubkey) }
    }
}

/// A configured peer: every other peer at its address is evicted and its
/// record is replaced by a fresh static one.
pub open spec fn after_static(t: TableView, cfg_id: Seq<char>, addr: SocketAddress, pubkey: Seq<char>, now: u64) -> TableView {
    let a = ascii_lower(cfg_id);
    let evicted = others_at(t.records, a, addr);
    TableView {
        records: t.records.remove_keys(evicted).insert(a, fresh_record(cfg_id, addr, pubkey, PeerSource::Static, now)),
        pubkeys: t.pubkeys.remove_keys(evicted).insert(a, pubkey),
    }
}

/// A remembered peer: refused where another static peer holds the address;
/// otherwise the others there are evicted and a record is created unless
/// one exists (an existing record and its key are kept).
pub open spec fn after_cached(t: TableView, peer_id: Seq<char>, addr: SocketAddress, pubkey: Seq<char>, now: u64) -> TableView {
    let a = ascii_lower(peer_id);
    if static_conflict(t.records, a, addr) {
        t
    } else {
        let evicted = others_at(t.records, a, addr);
        let m = t.records.remove_keys(evicted);
        let p = t.pubkeys.remove_keys(evicted);
        if m.contains_key(a) {
            TableView { records: m, pubkeys: p }
        } else {
            TableView {
                records: m.insert(a, fresh_record(peer_id, addr, pubkey, PeerSource::Cached, now)),
                pubkeys: p.insert(a, pubkey),
            }
        }
    }
}

/// The table with `a`'s record (if any) replaced by `f` of it.
pub open spec fn updated(t: TableView, a: Seq<char>, f: spec_fn(RecordView) -> RecordView) -> TableView {
    if t.records.contains_key(a) {
        TableView { records: t.records.insert(a, f(t.records[a])), ..t }
    } else {
        t
    }
}

/// Whether a discovered record is older than `ttl` at `now` (a record seen
/// after `now` has age zero).
pub open spec fn stale_discovered(r: RecordView, now: u64, ttl: u64) -> bool {
    r.source == PeerSource::Discovered && now > r.last_seen && now - r.last_seen > ttl
}

pub struct PeerTable {
    pub records: KeyedMap<PeerRecord>,
    pub pubkeys: KeyedMap<String>,
}

impl View for PeerTable {
    type V = TableView;

    open spec fn view(&self) -> TableView {
        TableView { records: self.records.view_map(), pubkeys: self.pubkeys.view_map() }
    }
}

impl PeerTable {
    pub open spec fn wf(&self) -> bool {
        &&& self.records.wf()
        &&& self.pubkeys.wf()
        &&& table_wf(self@)
    }

    pub fn new() -> (t: PeerTable)
        ensures
            t.wf(),
            t@.records == Map::<Seq<char>, RecordView>::empty(),
            t@.pubkeys == Map::<Seq<char>, Seq<char>>::empty(),
    {
        let t = PeerTable { records: KeyedMap::new(), pubkeys: KeyedMap::new() };
        proof {
            assert(t@.records =~= Map::<Seq<char>, RecordView>::empty());
            assert(t@.pubkeys =~= Map::<Seq<char>, Seq<char>>::empty());
        }
        t
    }

    /// The position of the record at `addr`, if any.
    fn position_at(&self, addr: &SocketAddress) -> (r: Option<usize>)
        requires
            self.records.wf(),
        ensures
            r matches Some(i) ==> i < self.records.entries@.len() && self.records.val_at(i as int).addr == *addr,
            r is None ==> forall|i: int| 0 <= i < self.records.entries@.len() ==> (#[trigger] self.records.val_at(i)).addr != *addr,
    {
        let mut i: usize = 0;
        while i < self.records.len()
            invariant
                i <= self.records.entries@.len(),
                forall|j: int| 0 <= j < i ==> (#[trigger] self.records.val_at(j)).addr != *addr,
            decreases self.records.entries@.len() - i,
        {
            if self.records.entries[i].1.addr == *addr {
                return Some(i);
            }
            i = i + 1;
        }
        None
    }

    /// The peer other than `a` at `addr`, if any (there is at most one).
    fn other_at(&self, a: &Vec<char>, addr: &SocketAddress) -> (r: Option<usize>)
        requires
            self.wf(),
        ensures
            r matches Some(i) ==> i < self.records.entries@.len() && others_at(self@.records, a@, *addr) == set![
                self.records.key_at(i as int),
            ] && self.records.get(self.records.key_at(i as int)) == self.records.val_at(i as int),
            r is None ==> others_at(self@.records, a@, *addr) == Set::<Seq<char>>::empty(),
    {
        match self.position_at(addr) {
            Some(i) => {
                let ghost k = self.records.key_at(i as int);
                proof {
                    self.records.lemma_index_unique(i as int, k);
                }
                if crate::text::chars_equal(&self.records.entries[i].0, a) {
                    proof {
                        assert forall|b: Seq<char>| !others_at(self@.records, a@, *addr).contains(b) by {
                            if others_at(self@.records, a@, *addr).contains(b) {
                                assert(self@.records.contains_key(k));
                            }
                        }
                        assert(others_at(self@.records, a@, *addr) =~= Set::<Seq<char>>::empty());
                    }
                    None
                } else {
                    proof {
                        assert forall|b: Seq<char>| others_at(self@.records, a@, *addr).contains(b) <==> b == k by {
                            assert(self@.records.contains_key(k));
                        }
                        assert(others_at(self@.records, a@, *addr) =~= set![k]);
                    }
                    Some(i)
                }
            },
            None => {
                proof {
                    assert forall|b: Seq<char>| !others_at(self@.records, a@, *addr).contains(b) by {
                        if self@.records.contains_key(b) {
                            let j = self.records.index_of(b);
                            self.records.lemma_index_unique(j, b);
                        }
                    }
                    assert(others_at(self@.records, a@, *addr) =~= Set::<Seq<char>>::empty());
                }
                None
            },
        }
    }

    /// Remove the record (and its pubkey) under the key at position `i`.
    fn evict_at(&mut self, i: usize) -> (r: AgentId)
        requires
            old(self).wf(),
            i < old(self).records.entries@.len(),
        ensures
            final(self).records.wf(),
            final(self).pubkeys.wf(),
            r@ == old(self).records.key_at(i as int),
            final(self)@ == (TableView {
                records: old(self)@.records.remove(r@),
                pubkeys: old(self)@.pubkeys.remove(r@),
            }),
    {
        let key = copy_chars(&self.records.entries[i].0);
        let ghost m0 = self.records.as_map();
        let ghost p0 = self.pubkeys.as_map();
        let _ = self.records.remove(&key);
        let _ = self.pubkeys.remove(&key);
        proof {
            lemma_map_values_remove(m0, key@, |x: PeerRecord| x@);
            lemma_map_values_remove(p0, key@, |x: String| x@);
        }
        AgentId::from_string(string_from_chars(&key))
    }
}


proof fn lemma_remove_keys_one<K, V>(m: Map<K, V>, s: Set<K>, k: K)
    requires
        s == set![k] || s == Set::<K>::empty(),
    ensures
        s == set![k] ==> m.remove_keys(s) == m.remove(k),
        s == Set::<K>::empty() ==> m.remove_keys(s) == m,
{
    if s == set![k] {
        assert(m.remove_keys(s) =~= m.remove(k));
    } else {
        assert(m.remove_keys(s) =~= m);
    }
}

/// A discovered sighting keeps the table's invariant.
pub proof fn lemma_after_discovered_wf(t: TableView, agent_id: Seq<char>, addr: SocketAddress, pubkey: Seq<char>, now: u64)
    requires
        table_wf(t),
    ensures
        table_wf(after_discovered(t, agent_id, addr, pubkey, now)),
{
    let a = ascii_lower(agent_id);
    if !static_conflict(t.records, a, addr) {
        let evicted = others_at(t.records, a, addr);
        let w = after_discovered(t, agent_id, addr, pubkey, now);
        assert(t.records.remove_keys(evicted).dom() =~= t.records.dom().difference(evicted));
        assert forall|x: Seq<char>, y: Seq<char>|
            #[trigger] w.records.contains_key(x) && #[trigger] w.records.contains_key(y) && x != y implies w.records[x].addr
                != w.records[y].addr by {
            if x == a && w.records[x].addr == addr {
                assert(!evicted.contains(y));
            } else if y == a && w.records[y].addr == addr {
                assert(!evicted.contains(x));
            }
        }
    }
}

/// A configured peer keeps the table's invariant.
pub proof fn lemma_after_static_wf(t: TableView, cfg_id: Seq<char>, addr: SocketAddress, pubkey: Seq<char>, now: u64)
    requires
        table_wf(t),
    ensures
        table_wf(after_static(t, cfg_id, addr, pubkey, now)),
{
    let a = ascii_lower(cfg_id);
    let evicted = others_at(t.records, a, addr);
    let w = after_static(t, cfg_id, addr, pubkey, now);
    assert(t.records.remove_keys(evicted).dom() =~= t.records.dom().difference(evicted));
    assert forall|x: Seq<char>, y: Seq<char>|
        #[trigger] w.records.contains_key(x) && #[trigger] w.records.contains_key(y) && x != y implies w.records[x].addr
            != w.records[y].addr by {
        if x == a {
            assert(!evicted.contains(y));
        } else if y == a {
            assert(!evicted.contains(x));
        }
    }
}

/// A remembered peer keeps the table's invariant.
pub proof fn lemma_after_cached_wf(t: TableView, peer_id: Seq<char>, addr: SocketAddress, pubkey: Seq<char>, now: u64)
    requires
        table_wf(t),
    ensures
        table_wf(after_cached(t, peer_id, addr, pubkey, now)),
{
    let a = ascii_lower(peer_id);
    if !static_conflict(t.records, a, addr) {
        let evicted = others_at(t.records, a, addr);
        let w = after_cached(t, peer_id, addr, pubkey, now);
        assert(t.records.remove_keys(evicted).dom() =~= t.records.dom().difference(evicted));
        assert forall|x: Seq<char>, y: Seq<char>|
            #[trigger] w.records.contains_key(x) && #[trigger] w.records.contains_key(y) && x != y implies w.records[x].addr
                != w.records[y].addr by {
            if x == a && !t.records.contains_key(a) {
                assert(!evicted.contains(y));
            } else if y == a && !t.records.contains_key(a) {
                assert(!evicted.contains(x));
            }
        }
    }
}

impl PeerTable {
    /// Record a discovered sighting (see `after_discovered`).
    pub fn upsert_discovered(&mut self, agent_id: AgentId, addr: SocketAddress, pubkey: String, now: u64)
        requires
            old(self).wf(),
        ensures
            final(self).wf(),
            final(self)@ == after_discovered(old(self)@, agent_id@, addr, pubkey@, now),
    {
        let ghost t = self@;
        let canon = canonical_agent_id(agent_id.as_str());
        let a = canon.to_chars();
        let other = self.other_at(&a, &addr);
        proof {
            lemma_remove_keys_one(t.records, others_at(t.records, a@, addr), if other is Some { self.records.key_at(other->0 as int) } else { a@ });
            lemma_remove_keys_one(t.pubkeys, others_at(t.records, a@, addr), if other is Some { self.records.key_at(other->0 as int) } else { a@ });
        }
        match other {
            Some(i) => {
                let ghost k = self.records.key_at(i as int);
                assert(others_at(t.records, a@, addr).contains(k));
                if self.records.entries[i].1.source == PeerSource::Static {
                    assert(static_conflict(t.records, a@, addr));
                    return;
                }
                assert(!static_conflict(t.records, a@, addr));
                let _ = self.evict_at(i);
            },
            None => {
                assert(!static_conflict(t.records, a@, addr));
            },
        }
        let ghost m1 = self@;
        let ghost r0 = self.records.as_map();
        let rec = match self.records.remove(&a) {
            Some(mut e) => {
                assert(m1.records.contains_key(a@) && m1.records[a@] == e@);
                if e.source != PeerSource::Static {
                    e.addr = addr;
                    e.pubkey = pubkey.clone();
                    e.source = PeerSource::Discovered;
                }
                e.last_seen = now;
                e
            },
            None => PeerRecord {
                agent_id: canon,
                addr,
                pubkey: pubkey.clone(),
                source: PeerSource::Discovered,
                status: ConnectionStatus::Discovered,
                rtt_ms: None,
                last_seen: now,
            },
        };
        let ghost rg = rec;
        let ghost p0 = self.pubkeys.as_map();
        let key = rec.pubkey.clone();
        self.records.insert(copy_chars(&a), rec);
        self.pubkeys.insert(a, key);
        proof {
            assert(self.records.as_map() =~= r0.insert(a@, rg));
            lemma_map_values_insert(r0, a@, rg, |x: PeerRecord| x@);
            lemma_map_values_insert(p0, a@, key, |x: String| x@);
            assert(self@ =~~= after_discovered(t, agent_id@, addr, pubkey@, now));
            lemma_after_discovered_wf(t, agent_id@, addr, pubkey@, now);
        }
    }

    /// Install a configured peer (see `after_static`).
    pub fn upsert_static(&mut self, cfg: &StaticPeerConfig, now: u64)
        requires
            old(self).wf(),
        ensures
            final(self).wf(),
            final(self)@ == after_static(old(self)@, cfg.agent_id@, cfg.addr, cfg.pubkey@, now),
    {
        let ghost t = self@;
        let rec = PeerRecord::from_static(cfg, now);
        let a = rec.agent_id.to_chars();
        let other = self.other_at(&a, &cfg.addr);
        proof {
            lemma_remove_keys_one(t.records, others_at(t.records, a@, cfg.addr), if other is Some { self.records.key_at(other->0 as int) } else { a@ });
            lemma_remove_keys_one(t.pubkeys, others_at(t.records, a@, cfg.addr), if other is Some { self.records.key_at(other->0 as int) } else { a@ });
        }
        match other {
            Some(i) => {
                let _ = self.evict_at(i);
            },
            None => {},
        }
        let ghost rg = rec;
        let ghost r0 = self.records.as_map();
        let ghost p0 = self.pubkeys.as_map();
        self.records.insert(copy_chars(&a), rec);
        self.pubkeys.insert(a, cfg.pubkey.clone());
        proof {
            lemma_map_values_insert(r0, a@, rg, |x: PeerRecord| x@);
            lemma_map_values_insert(p0, a@, cfg.pubkey, |x: String| x@);
            assert(self@ =~~= after_static(t, cfg.agent_id@, cfg.addr, cfg.pubkey@, now));
            lemma_after_static_wf(t, cfg.agent_id@, cfg.addr, cfg.pubkey@, now);
        }
    }

    /// Install a remembered peer (see `after_cached`).
    pub fn upsert_cached(&mut self, peer: &KnownPeer, now: u64)
        requires
            old(self).wf(),
        ensures
            final(self).wf(),
            final(self)@ == after_cached(old(self)@, peer.agent_id@, peer.addr, peer.pubkey@, now),
    {
        let ghost t = self@;
        let rec = PeerRecord::from_cached(peer, now);
        let a = rec.agent_id.to_chars();
        let other = self.other_at(&a, &peer.addr);
        proof {
            lemma_remove_keys_one(t.records, others_at(t.records, a@, peer.addr), if other is Some { self.records.key_at(other->0 as int) } else { a@ });
            lemma_remove_keys_one(t.pubkeys, others_at(t.records, a@, peer.addr), if other is Some { self.records.key_at(other->0 as int) } else { a@ });
        }
        match other {
            Some(i) => {
                let ghost k = self.records.key_at(i as int);
                assert(others_at(t.records, a@, peer.addr).contains(k));
                if self.records.entries[i].1.source == PeerSource::Static {
                    assert(static_conflict(t.records, a@, peer.addr));
                    return;
                }
                assert(!static_conflict(t.records, a@, peer.addr));
                let _ = self.evict_at(i);
            },
            None => {
                assert(!static_conflict(t.records, a@, peer.addr));
            },
        }
        if self.records.contains(&a) {
            proof {
                assert(self@ =~~= after_cached(t, peer.agent_id@, peer.addr, peer.pubkey@, now));
                lemma_after_cached_wf(t, peer.agent_id@, peer.addr, peer.pubkey@, now);
            }
            return;
        }
        let ghost rg = rec;
        let ghost r0 = self.records.as_map();
        let ghost p0 = self.pubkeys.as_map();
        self.records.insert(copy_chars(&a), rec);
        self.pubkeys.insert(a, peer.pubkey.clone());
        proof {
            lemma_map_values_insert(r0, a@, rg, |x: PeerRecord| x@);
            lemma_map_values_insert(p0, a@, peer.pubkey, |x: String| x@);
            assert(self@ =~~= after_cached(t, peer.agent_id@, peer.addr, peer.pubkey@, now));
            lemma_after_cached_wf(t, peer.agent_id@, peer.addr, peer.pubkey@, now);
        }
    }
}


/// The record as `set_status` leaves it.
pub open spec fn with_status(s: ConnectionStatus) -> spec_fn(RecordView) -> RecordView {
    |r: RecordView| RecordView { status: s, ..r }
}

/// The record as `set_connected` leaves it.
pub open spec fn connected_with(rtt: Option<u64>) -> spec_fn(RecordView) -> RecordView {
    |r: RecordView| RecordView { status: ConnectionStatus::Connected, rtt_ms: rtt, ..r }
}

/// The record as `set_disconnected` leaves it.
pub open spec fn disconnected() -> spec_fn(RecordView) -> RecordView {
    |r: RecordView| RecordView { status: ConnectionStatus::Disconnected, rtt_ms: None, ..r }
}

/// The record as `set_rtt` leaves it.
pub open spec fn with_rtt(rtt: u64) -> spec_fn(RecordView) -> RecordView {
    |r: RecordView| RecordView { rtt_ms: Some(rtt), ..r }
}

/// The record as `touch` leaves it.
pub open spec fn seen_at(now: u64) -> spec_fn(RecordView) -> RecordView {
    |r: RecordView| RecordView { last_seen: now, ..r }
}

/// The Agent IDs of discovered peers unseen for longer than `ttl`.
pub open spec fn stale_set(t: TableView, now: u64, ttl: u64) -> Set<Seq<char>> {
    Set::new(|a: Seq<char>| t.records.contains_key(a) && stale_discovered(t.records[a], now, ttl))
}

impl PeerTable {
    /// Replace the record under `a` by `rec`, which keeps its address.
    fn replace_record(&mut self, a: &Vec<char>, rec: PeerRecord)
        requires
            old(self).wf(),
            old(self)@.records.contains_key(a@),
            rec@.agent_id == a@,
            rec.addr == old(self)@.records[a@].addr,
            rec@.pubkey == old(self)@.records[a@].pubkey,
        ensures
            final(self).wf(),
            final(self)@ == (TableView { records: old(self)@.records.insert(a@, rec@), ..old(self)@ }),
    {
        let ghost t = self@;
        let ghost r0 = self.records.as_map();
        let ghost rg = rec;
        self.records.insert(copy_chars(a), rec);
        proof {
            lemma_map_values_insert(r0, a@, rg, |x: PeerRecord| x@);
            let w = self@;
            assert forall|x: Seq<char>, y: Seq<char>|
                #[trigger] w.records.contains_key(x) && #[trigger] w.records.contains_key(y) && x != y implies w.records[x].addr
                    != w.records[y].addr by {
                assert(t.records.contains_key(x) && t.records.contains_key(y));
            }
        }
    }

    /// Remove `agent_id`'s record and its pinned key.
    pub fn remove(&mut self, agent_id: &str) -> (r: Option<PeerRecord>)
        requires
            old(self).wf(),
        ensures
            final(self).wf(),
            final(self)@ == (TableView {
                records: old(self)@.records.remove(ascii_lower(agent_id@)),
                pubkeys: old(self)@.pubkeys.remove(ascii_lower(agent_id@)),
            }),
            r matches Some(x) ==> old(self)@.records.contains_key(ascii_lower(agent_id@)) && x@ == old(self)@.records[ascii_lower(agent_id@)],
            r is None ==> !old(self)@.records.contains_key(ascii_lower(agent_id@)),
    {
        let ghost t = self@;
        let a = canonical_agent_id(agent_id).to_chars();
        let ghost r0 = self.records.as_map();
        let ghost p0 = self.pubkeys.as_map();
        let removed = self.records.remove(&a);
        let _ = self.pubkeys.remove(&a);
        proof {
            lemma_map_values_remove(r0, a@, |x: PeerRecord| x@);
            lemma_map_values_remove(p0, a@, |x: String| x@);
            assert(self.records.view_map().dom().finite()) by {
                assert(self.records.view_map().dom() =~= t.records.dom().remove(a@));
            }
        }
        removed
    }

    /// A copy of `agent_id`'s record.
    pub fn get(&self, agent_id: &str) -> (r: Option<PeerRecord>)
        requires
            self.wf(),
        ensures
            r matches Some(x) ==> self@.records.contains_key(ascii_lower(agent_id@)) && x@ == self@.records[ascii_lower(agent_id@)],
            r is None ==> !self@.records.contains_key(ascii_lower(agent_id@)),
    {
        let a = canonical_agent_id(agent_id).to_chars();
        match self.records.get_value(&a) {
            Some(rec) => Some(rec.duplicate()),
            None => None,
        }
    }

    /// Every record, ordered by Agent ID.
    pub fn list(&self) -> (r: Vec<PeerRecord>)
        requires
            self.wf(),
        ensures
            r@.len() == self@.records.dom().len(),
            forall|i: int| 0 <= i < r@.len() ==> self@.records.contains_key((#[trigger] r@[i])@.agent_id)
                && self@.records[r@[i]@.agent_id] == r@[i]@,
            forall|i: int, j: int| 0 <= i < j < r@.len() ==> chars_lt((#[trigger] r@[i])@.agent_id, (#[trigger] r@[j])@.agent_id),
            forall|a: Seq<char>| #[trigger] self@.records.contains_key(a) ==> exists|i: int| 0 <= i < r@.len() && r@[i]@.agent_id == a,
    {
        self.selected(false)
    }

    /// The records whose status is `Discovered`, ordered by Agent ID.
    pub fn peers_needing_connection(&self) -> (r: Vec<PeerRecord>)
        requires
            self.wf(),
        ensures
            forall|i: int| 0 <= i < r@.len() ==> self@.records.contains_key((#[trigger] r@[i])@.agent_id)
                && self@.records[r@[i]@.agent_id] == r@[i]@ && r@[i]@.status == ConnectionStatus::Discovered,
            forall|i: int, j: int| 0 <= i < j < r@.len() ==> chars_lt((#[trigger] r@[i])@.agent_id, (#[trigger] r@[j])@.agent_id),
            forall|a: Seq<char>| #[trigger] self@.records.contains_key(a) && self@.records[a].status == ConnectionStatus::Discovered
                ==> exists|i: int| 0 <= i < r@.len() && r@[i]@.agent_id == a,
    {
        self.selected(true)
    }

    /// Copies of the records (only those with status `Discovered`, when
    /// `needing` is set), ordered by Agent ID.
    fn selected(&self, needing: bool) -> (r: Vec<PeerRecord>)
        requires
            self.wf(),
        ensures
            !needing ==> r@.len() == self@.records.dom().len(),
            forall|i: int| 0 <= i < r@.len() ==> self@.records.contains_key((#[trigger] r@[i])@.agent_id)
                && self@.records[r@[i]@.agent_id] == r@[i]@ && (needing ==> r@[i]@.status == ConnectionStatus::Discovered),
            forall|i: int, j: int| 0 <= i < j < r@.len() ==> chars_lt((#[trigger] r@[i])@.agent_id, (#[trigger] r@[j])@.agent_id),
            forall|a: Seq<char>| #[trigger] self@.records.contains_key(a) && (needing ==> self@.records[a].status
                == ConnectionStatus::Discovered) ==> exists|i: int| 0 <= i < r@.len() && r@[i]@.agent_id == a,
    {
        let mut r: Vec<PeerRecord> = Vec::new();
        let ghost mut idx: Seq<int> = Seq::empty();
        let mut i: usize = 0;
        while i < self.records.len()
            invariant
                self.wf(),
                i <= self.records.entries@.len(),
                !needing ==> r@.len() == i,
                idx.len() == r@.len(),
                forall|j: int| 0 <= j < idx.len() ==> 0 <= #[trigger] idx[j] < i,
                forall|j1: int, j2: int| 0 <= j1 < j2 < idx.len() ==> #[trigger] idx[j1] < #[trigger] idx[j2],
                forall|j: int| 0 <= j < r@.len() ==> (#[trigger] r@[j])@ == self.records.val_at(idx[j])@,
                forall|k: int| 0 <= k < i && (needing ==> self.records.val_at(k).status == ConnectionStatus::Discovered)
                    ==> exists|j: int| 0 <= j < idx.len() && #[trigger] idx[j] == k,
                forall|j: int| 0 <= j < idx.len() ==> (needing ==> self.records.val_at(#[trigger] idx[j]).status == ConnectionStatus::Discovered),
            decreases self.records.entries@.len() - i,
        {
            let rec = &self.records.entries[i].1;
            if !needing || rec.status == ConnectionStatus::Discovered {
                let ghost r0 = r@;
                let ghost idx0 = idx;
                r.push(rec.duplicate());
                proof {
                    idx = idx.push(i as int);
                    assert forall|k: int| 0 <= k < i + 1 && (needing ==> self.records.val_at(k).status == ConnectionStatus::Discovered)
                        implies exists|j: int| 0 <= j < idx.len() && #[trigger] idx[j] == k by {
                        if k < i {
                            let j = choose|j: int| 0 <= j < idx0.len() && #[trigger] idx0[j] == k;
                            assert(idx[j] == idx0[j]);
                        } else {
                            assert(idx[idx.len() - 1] == k);
                        }
                    }
                    assert forall|j: int| 0 <= j < r@.len() implies (#[trigger] r@[j])@ == self.records.val_at(idx[j])@ by {
                        if j < r0.len() {
                            assert(r@[j] == r0[j]);
                        }
                    }
                }
            }
            i = i + 1;
        }
        proof {
            lemma_dom_len(&self.records);
            assert forall|j: int| 0 <= j < r@.len() implies self@.records.contains_key((#[trigger] r@[j])@.agent_id)
                && self@.records[r@[j]@.agent_id] == r@[j]@ && (needing ==> r@[j]@.status == ConnectionStatus::Discovered) by {
                let k = idx[j];
                self.records.lemma_index_unique(k, self.records.key_at(k));
                assert(self@.records.contains_key(self.records.key_at(k)));
            }
            assert forall|j1: int, j2: int| 0 <= j1 < j2 < r@.len() implies chars_lt((#[trigger] r@[j1])@.agent_id, (#[trigger] r@[j2])@.agent_id) by {
                let k1 = idx[j1];
                let k2 = idx[j2];
                self.records.lemma_index_unique(k1, self.records.key_at(k1));
                self.records.lemma_index_unique(k2, self.records.key_at(k2));
                assert(self@.records.contains_key(self.records.key_at(k1)));
                assert(self@.records.contains_key(self.records.key_at(k2)));
                assert(chars_lt(self.records.key_at(k1), self.records.key_at(k2)));
            }
            assert forall|a: Seq<char>| #[trigger] self@.records.contains_key(a) && (needing ==> self@.records[a].status
                == ConnectionStatus::Discovered) implies exists|j: int| 0 <= j < r@.len() && r@[j]@.agent_id == a by {
                let kk = self.records.index_of(a);
                self.records.lemma_index_unique(kk, a);
                let j = choose|j: int| 0 <= j < idx.len() && #[trigger] idx[j] == kk;
                assert(r@[j]@ == self.records.val_at(kk)@);
            }
        }
        r
    }

    pub fn set_status(&mut self, agent_id: &str, status: ConnectionStatus)
        requires
            old(self).wf(),
        ensures
            final(self).wf(),
            final(self)@ == updated(old(self)@, ascii_lower(agent_id@), with_status(status)),
    {
        let ghost t = self@;
        let a = canonical_agent_id(agent_id).to_chars();
        match self.records.get_value(&a) {
            Some(rec) => {
                let mut next = rec.duplicate();
                next.status = status;
                self.replace_record(&a, next);
                proof {
                    assert(self@ =~~= updated(t, a@, with_status(status)));
                }
            },
            None => {},
        }
    }

    pub fn set_connected(&mut self, agent_id: &str, rtt_ms: Option<u64>)
        requires
            old(self).wf(),
        ensures
            final(self).wf(),
            final(self)@ == updated(old(self)@, ascii_lower(agent_id@), connected_with(rtt_ms)),
    {
        let ghost t = self@;
        let a = canonical_agent_id(agent_id).to_chars();
        match self.records.get_value(&a) {
            Some(rec) => {
                let mut next = rec.duplicate();
                next.status = ConnectionStatus::Connected;
                next.rtt_ms = rtt_ms;
                self.replace_record(&a, next);
                proof {
                    assert(self@ =~~= updated(t, a@, connected_with(rtt_ms)));
                }
            },
            None => {},
        }
    }

    pub fn set_disconnected(&mut self, agent_id: &str)
        requires
            old(self).wf(),
        ensures
            final(self).wf(),
            final(self)@ == updated(old(self)@, ascii_lower(agent_id@), disconnected()),
    {
        let ghost t = self@;
        let a = canonical_agent_id(agent_id).to_chars();
        match self.records.get_value(&a) {
            Some(rec) => {
                let mut next = rec.duplicate();
                next.status = ConnectionStatus::Disconnected;
                next.rtt_ms = None;
                self.replace_record(&a, next);
                proof {
                    assert(self@ =~~= updated(t, a@, disconnected()));
                }
            },
            None => {},
        }
    }

    pub fn set_rtt(&mut self, agent_id: &str, rtt_ms: u64)
        requires
            old(self).wf(),
        ensures
            final(self).wf(),
            final(self)@ == updated(old(self)@, ascii_lower(agent_id@), with_rtt(rtt_ms)),
    {
        let ghost t = self@;
        let a = canonical_agent_id(agent_id).to_chars();
        match self.records.get_value(&a) {
            Some(rec) => {
                let mut next = rec.duplicate();
                next.rtt_ms = Some(rtt_ms);
                self.replace_record(&a, next);
                proof {
                    assert(self@ =~~= updated(t, a@, with_rtt(rtt_ms)));
                }
            },
            None => {},
        }
    }

    /// Mark `agent_id` as seen at `now`.
    pub fn touch(&mut self, agent_id: &str, now: u64)
        requires
            old(self).wf(),
        ensures
            final(self).wf(),
            final(self)@ == updated(old(self)@, ascii_lower(agent_id@), seen_at(now)),
    {
        let ghost t = self@;
        let a = canonical_agent_id(agent_id).to_chars();
        match self.records.get_value(&a) {
            Some(rec) => {
                let mut next = rec.duplicate();
                next.last_seen = now;
                self.replace_record(&a, next);
                proof {
                    assert(self@ =~~= updated(t, a@, seen_at(now)));
                }
            },
            None => {},
        }
    }

    /// Drop every discovered peer unseen for longer than `ttl` at `now`;
    /// returns their Agent IDs in order.
    pub fn remove_stale(&mut self, now: u64, ttl: u64) -> (r: Vec<AgentId>)
        requires
            old(self).wf(),
        ensures
            final(self).wf(),
            final(self)@ == (TableView {
                records: old(self)@.records.remove_keys(stale_set(old(self)@, now, ttl)),
                pubkeys: old(self)@.pubkeys.remove_keys(stale_set(old(self)@, now, ttl)),
            }),
            forall|i: int, j: int| 0 <= i < j < r@.len() ==> chars_lt((#[trigger] r@[i])@, (#[trigger] r@[j])@),
            forall|i: int| 0 <= i < r@.len() ==> stale_set(old(self)@, now, ttl).contains(#[trigger] r@[i]@),
            forall|a: Seq<char>| #[trigger] stale_set(old(self)@, now, ttl).contains(a) ==> exists|i: int| 0 <= i < r@.len() && r@[i]@ == a,
    {
        let ghost t = self@;
        let ghost st = stale_set(t, now, ttl);
        let mut stale: Vec<AgentId> = Vec::new();
        let mut i: usize = 0;
        while i < self.records.len()
            invariant
                self.wf(),
                self@ == t,
                st == stale_set(t, now, ttl),
                i <= self.records.entries@.len(),
                forall|j: int| 0 <= j < stale@.len() ==> exists|k: int| 0 <= k < i && self.records.key_at(k) == (#[trigger] stale@[j])@,
                forall|j: int| 0 <= j < stale@.len() ==> st.contains((#[trigger] stale@[j])@),
                forall|j1: int, j2: int| 0 <= j1 < j2 < stale@.len() ==> chars_lt((#[trigger] stale@[j1])@, (#[trigger] stale@[j2])@),
                forall|k: int| 0 <= k < i && st.contains(self.records.key_at(k)) ==> exists|j: int| 0 <= j < stale@.len()
                    && (#[trigger] stale@[j])@ == self.records.key_at(k),
            decreases self.records.entries@.len() - i,
        {
            let ghost k = self.records.key_at(i as int);
            proof {
                self.records.lemma_index_unique(i as int, k);
                assert(t.records.contains_key(k));
            }
            let rec = &self.records.entries[i].1;
            if rec.source == PeerSource::Discovered && now > rec.last_seen && now - rec.last_seen > ttl {
                let ghost s0 = stale@;
                stale.push(rec.agent_id.duplicate());
                proof {
                    assert(st.contains(k));
                    assert forall|j1: int, j2: int| 0 <= j1 < j2 < stale@.len() implies chars_lt((#[trigger] stale@[j1])@, (#[trigger] stale@[j2])@) by {
                        if j2 == stale@.len() - 1 {
                            assert(stale@[j1] == s0[j1]);
                            let kk = choose|kk: int| 0 <= kk < i && self.records.key_at(kk) == (#[trigger] s0[j1])@;
                            assert(chars_lt(self.records.key_at(kk), self.records.key_at(i as int)));
                        } else {
                            assert(stale@[j1] == s0[j1] && stale@[j2] == s0[j2]);
                        }
                    }
                    assert forall|j: int| 0 <= j < stale@.len() implies exists|kk: int| 0 <= kk < i + 1 && self.records.key_at(kk) == (#[trigger] stale@[j])@ by {
                        if j < s0.len() {
                            assert(stale@[j] == s0[j]);
                            let kk = choose|kk: int| 0 <= kk < i && self.records.key_at(kk) == (#[trigger] s0[j])@;
                        } else {
                            assert(self.records.key_at(i as int) == stale@[j]@);
                        }
                    }
                    assert forall|j: int| 0 <= j < stale@.len() implies st.contains((#[trigger] stale@[j])@) by {
                        if j < s0.len() {
                            assert(stale@[j] == s0[j]);
                        }
                    }
                    assert forall|kk: int| 0 <= kk < i + 1 && st.contains(self.records.key_at(kk)) implies exists|j: int| 0 <= j < stale@.len()
                        && (#[trigger] stale@[j])@ == self.records.key_at(kk) by {
                        if kk < i {
                            let j = choose|j: int| 0 <= j < s0.len() && (#[trigger] s0[j])@ == self.records.key_at(kk);
                            assert(stale@[j] == s0[j]);
                        } else {
                            assert(stale@[stale@.len() - 1]@ == self.records.key_at(kk));
                        }
                    }
                }
            } else {
                proof {
                    assert(!st.contains(k));
                    assert forall|j: int| 0 <= j < stale@.len() implies exists|kk: int| 0 <= kk < i + 1 && self.records.key_at(kk) == (#[trigger] stale@[j])@ by {
                        let kk = choose|kk: int| 0 <= kk < i && self.records.key_at(kk) == (#[trigger] stale@[j])@;
                    }
                }
            }
            i = i + 1;
        }
        proof {
            assert forall|a: Seq<char>| #[trigger] st.contains(a) implies exists|j: int| 0 <= j < stale@.len() && stale@[j]@ == a by {
                let kk = self.records.index_of(a);
                self.records.lemma_index_unique(kk, a);
                let j = choose|j: int| 0 <= j < stale@.len() && (#[trigger] stale@[j])@ == self.records.key_at(kk);
            }
        }
        let mut j: usize = 0;
        while j < stale.len()
            invariant
                self.records.wf(),
                self.pubkeys.wf(),
                j <= stale@.len(),
                st == stale_set(t, now, ttl),
                forall|j2: int| 0 <= j2 < stale@.len() ==> st.contains((#[trigger] stale@[j2])@),
                self@ == (TableView {
                    records: t.records.remove_keys(Set::new(|a: Seq<char>| exists|j2: int| 0 <= j2 < j && (#[trigger] stale@[j2])@ == a)),
                    pubkeys: t.pubkeys.remove_keys(Set::new(|a: Seq<char>| exists|j2: int| 0 <= j2 < j && (#[trigger] stale@[j2])@ == a)),
                }),
            decreases stale@.len() - j,
        {
            let key = stale[j].to_chars();
            let ghost r0 = self.records.as_map();
            let ghost p0 = self.pubkeys.as_map();
            let _ = self.records.remove(&key);
            let _ = self.pubkeys.remove(&key);
            proof {
                lemma_map_values_remove(r0, key@, |x: PeerRecord| x@);
                lemma_map_values_remove(p0, key@, |x: String| x@);
                let s_old = Set::new(|a: Seq<char>| exists|j2: int| 0 <= j2 < j && (#[trigger] stale@[j2])@ == a);
                let s_new = Set::new(|a: Seq<char>| exists|j2: int| 0 <= j2 < j + 1 && (#[trigger] stale@[j2])@ == a);
                assert(s_new =~= s_old.insert(key@));
                assert(self@.records =~= t.records.remove_keys(s_new));
                assert(self@.pubkeys =~= t.pubkeys.remove_keys(s_new));
            }
            j = j + 1;
        }
        proof {
            let s_all = Set::new(|a: Seq<char>| exists|j2: int| 0 <= j2 < stale@.len() && (#[trigger] stale@[j2])@ == a);
            assert(s_all =~= st);
            let w = self@;
            assert(w.records.dom() =~= t.records.dom().difference(st));
            assert forall|x: Seq<char>, y: Seq<char>|
                #[trigger] w.records.contains_key(x) && #[trigger] w.records.contains_key(y) && x != y implies w.records[x].addr
                    != w.records[y].addr by {
                assert(t.records.contains_key(x) && t.records.contains_key(y));
            }
        }
        stale
    }

    /// The records as remembered peers, ordered by Agent ID, each stamped
    /// `now_unix_ms`.
    pub fn to_known_peers(&self, now_unix_ms: u64) -> (r: Vec<KnownPeer>)
        requires
            self.wf(),
        ensures
            r@.len() == self.records.entries@.len(),
            forall|i: int| 0 <= i < r@.len() ==> {
                let p = self.records.val_at(i)@;
                &&& (#[trigger] r@[i]).agent_id@ == p.agent_id
                &&& r@[i].addr == p.addr
                &&& r@[i].pubkey@ == p.pubkey
                &&& r@[i].last_seen_unix_ms == now_unix_ms
            },
    {
        let mut r: Vec<KnownPeer> = Vec::new();
        let mut i: usize = 0;
        while i < self.records.len()
            invariant
                i <= self.records.entries@.len(),
                r@.len() == i,
                forall|j: int| 0 <= j < i ==> {
                    let p = self.records.val_at(j)@;
                    &&& (#[trigger] r@[j]).agent_id@ == p.agent_id
                    &&& r@[j].addr == p.addr
                    &&& r@[j].pubkey@ == p.pubkey
                    &&& r@[j].last_seen_unix_ms == now_unix_ms
                },
            decreases self.records.entries@.len() - i,
        {
            let rec = &self.records.entries[i].1;
            r.push(KnownPeer {
                agent_id: rec.agent_id.duplicate(),
                addr: rec.addr,
                pubkey: rec.pubkey.clone(),
                last_seen_unix_ms: now_unix_ms,
            });
            i = i + 1;
        }
        r
    }

    /// The pinned keys, ordered by Agent ID.
    pub fn pubkey_map(&self) -> (r: Vec<(String, String)>)
        requires
            self.wf(),
        ensures
            r@.len() == self.pubkeys.entries@.len(),
            forall|i: int| 0 <= i < r@.len() ==> (#[trigger] r@[i]).0@ == self.pubkeys.key_at(i)
                && r@[i].1@ == self@.pubkeys[self.pubkeys.key_at(i)],
    {
        let mut r: Vec<(String, String)> = Vec::new();
        let mut i: usize = 0;
        while i < self.pubkeys.len()
            invariant
                self.wf(),
                i <= self.pubkeys.entries@.len(),
                r@.len() == i,
                forall|j: int| 0 <= j < i ==> (#[trigger] r@[j]).0@ == self.pubkeys.key_at(j)
                    && r@[j].1@ == self@.pubkeys[self.pubkeys.key_at(j)],
            decreases self.pubkeys.entries@.len() - i,
        {
            proof {
                self.pubkeys.lemma_index_unique(i as int, self.pubkeys.key_at(i as int));
            }
            let ghost r0 = r@;
            r.push((string_from_chars(&self.pubkeys.entries[i].0), self.pubkeys.entries[i].1.clone()));
            proof {
                assert forall|j: int| 0 <= j < i + 1 implies (#[trigger] r@[j]).0@ == self.pubkeys.key_at(j)
                    && r@[j].1@ == self@.pubkeys[self.pubkeys.key_at(j)] by {
                    if j < i {
                        assert(r@[j] == r0[j]);
                    }
                }
            }
            i = i + 1;
        }
        r
    }
}


/// Static peers are authoritative for their address: a discovered or
/// remembered peer never displaces a static record, and after a configured
/// peer is installed no other peer remains at its address.
pub proof fn lemma_static_peers_are_authoritative(
    t: TableView,
    id: Seq<char>,
    addr: SocketAddress,
    pubkey: Seq<char>,
    now: u64,
    b: Seq<char>,
)
    requires
        table_wf(t),
        t.records.contains_key(b),
        t.records[b].source == PeerSource::Static,
    ensures
        after_discovered(t, id, addr, pubkey, now).records.contains_key(b),
        after_discovered(t, id, addr, pubkey, now).records[b].addr == t.records[b].addr,
        after_discovered(t, id, addr, pubkey, now).records[b].pubkey == t.records[b].pubkey,
        after_cached(t, id, addr, pubkey, now).records.contains_key(b),
        after_cached(t, id, addr, pubkey, now).records[b] == t.records[b],
        forall|c: Seq<char>| #[trigger] after_static(t, id, addr, pubkey, now).records.contains_key(c) && c != ascii_lower(id)
            ==> after_static(t, id, addr, pubkey, now).records[c].addr != addr,
{
    let a = ascii_lower(id);
    if others_at(t.records, a, addr).contains(b) {
        assert(static_conflict(t.records, a, addr));
    }
}

/// Every table operation keeps the invariant: records under their own
/// Agent IDs, the pinned keys over exactly the recorded peers, and at most
/// one peer per address.
pub proof fn lemma_table_ops_keep_invariant(t: TableView, id: Seq<char>, addr: SocketAddress, pubkey: Seq<char>, now: u64)
    requires
        table_wf(t),
    ensures
        table_wf(after_discovered(t, id, addr, pubkey, now)),
        table_wf(after_static(t, id, addr, pubkey, now)),
        table_wf(after_cached(t, id, addr, pubkey, now)),
{
    lemma_after_discovered_wf(t, id, addr, pubkey, now);
    lemma_after_static_wf(t, id, addr, pubkey, now);
    lemma_after_cached_wf(t, id, addr, pubkey, now);
}

/// Only discovered peers go stale: a peer is in the stale set (so
/// `remove_stale` returns it and drops its record and pinned key) exactly
/// when its record was discovered and last seen more than `ttl` before
/// `now`. Cached and static records, and discovered ones seen within
/// `ttl`, stay unchanged with their pinned keys.
pub proof fn lemma_only_discovered_peers_go_stale(t: TableView, now: u64, ttl: u64, a: Seq<char>)
    ensures
        stale_set(t, now, ttl).contains(a) <==> (t.records.contains_key(a) && t.records[a].source == PeerSource::Discovered
            && now > t.records[a].last_seen && now - t.records[a].last_seen > ttl),
        t.records.contains_key(a) && t.records[a].source != PeerSource::Discovered ==> {
            &&& t.records.remove_keys(stale_set(t, now, ttl)).contains_key(a)
            &&& t.records.remove_keys(stale_set(t, now, ttl))[a] == t.records[a]
            &&& t.pubkeys.contains_key(a) ==> t.pubkeys.remove_keys(stale_set(t, now, ttl)).contains_key(a)
                && t.pubkeys.remove_keys(stale_set(t, now, ttl))[a] == t.pubkeys[a]
        },
{
}

} // verus!
