//! The durable peer store's content rules: size cap, version, bounds,
//! identity bindings and uniqueness. Reading and writing the file is the
//! caller's business; every decoded document passes through here.
use vstd::prelude::*;

use crate::identity::{AgentId, IdentityError, PeerIdentity, identity_error_text, identity_from_parts};
use crate::keyed::{KeyedMap, group_map_values};
use crate::peer_directory::locators::views_of;
use crate::peer_directory::state::{MAX_ENROLLED_PEERS, MAX_LOCATORS_PER_PEER};
use crate::peer_directory::types::{LocatorView, PeerLocator};

verus! {

broadcast use group_map_values;

pub const PEER_STORE_VERSION: u32 = 1;

/// Hard cap on peer-store content size (1 MiB).
pub const MAX_PEER_STORE_BYTES: usize = 1048576;

#[verifier::external_type_specification]
#[verifier::external_body]
pub struct ExPathBuf(std::path::PathBuf);

#[verifier::external_type_specification]
#[verifier::external_body]
pub struct ExPath(std::path::Path);

/// Where the peer store lives.
#[derive(Debug)]
pub struct PeerStore {
    path: std::path::PathBuf,
}

/// The path that `PathBuf::as_path` borrows from `p`.
pub uninterp spec fn path_of(p: std::path::PathBuf) -> &'static std::path::Path;

/// `PathBuf::as_path`: the path the buffer holds, borrowed; the contract
/// names it (`path_of`) as a function of the buffer alone.
#[verifier::external_body]
fn path_buf_as_path(p: &std::path::PathBuf) -> (r: &std::path::Path)
    ensures
        r == path_of(*p),
{
    p.as_path()
}

impl PeerStore {
    /// The configured store location.
    pub closed spec fn location(&self) -> std::path::PathBuf {
        self.path
    }

    pub fn new(path: std::path::PathBuf) -> (s: PeerStore)
        ensures
            s.location() == path,
    {
        PeerStore { path }
    }

    /// The store's file path: the configured location.
    pub fn path(&self) -> (r: &std::path::Path)
        ensures
            r == path_of(self.location()),
    {
        path_buf_as_path(&self.path)
    }

    /// Refuse content over the size cap before parsing it.
    pub fn check_size(len: usize) -> (r: Result<(), StoreError>)
        ensures
            r is Ok <==> len <= MAX_PEER_STORE_BYTES,
            r matches Err(e) ==> e == StoreError::TooLarge,
    {
        if len > MAX_PEER_STORE_BYTES {
            return Err(StoreError::TooLarge);
        }
        Ok(())
    }

    /// Validate a parsed peer-store document: the version must be current
    /// and the peers must pass `validate_peers`.
    pub fn decode_document(version: u32, peers: Vec<StoredPeer>) -> (r: Result<Vec<StoredPeer>, StoreError>)
        ensures
            version != PEER_STORE_VERSION ==> r == Err::<Vec<StoredPeer>, StoreError>(StoreError::UnsupportedVersion),
            version == PEER_STORE_VERSION ==> match r {
                Ok(out) => out@ == peers@ && peers_check(stored_views(peers@)) is Ok,
                Err(e) => peers_check(stored_views(peers@)) == Err::<(), StoreError>(e),
            },
    {
        if version != PEER_STORE_VERSION {
            return Err(StoreError::UnsupportedVersion);
        }
        validate_peers(&peers)?;
        Ok(peers)
    }
}

/// Why peer-store content was refused.
#[derive(Debug, Clone, Copy, PartialEq, Eq, Structural)]
pub enum StoreError {
    TooLarge,
    UnsupportedVersion,
    TooManyPeers,
    TooManyLocators,
    Identity(IdentityError),
    DuplicateAgentId,
    DuplicateLocators,
}

/// How each store error reads.
pub open spec fn store_error_text(e: StoreError) -> Seq<char> {
    match e {
        StoreError::TooLarge => "peer store content exceeds the maximum size"@,
        StoreError::UnsupportedVersion => "unsupported peer-store version; expected 1"@,
        StoreError::TooManyPeers => "peer store contains more peers than the maximum"@,
        StoreError::TooManyLocators => "peer contains more locators than the maximum"@,
        StoreError::Identity(e) => identity_error_text(e),
        StoreError::DuplicateAgentId => "peer store contains duplicate Agent ID"@,
        StoreError::DuplicateLocators => "peer contains duplicate locators"@,
    }
}

impl StoreError {
    pub fn message(&self) -> (s: &'static str)
        ensures
            s@ == store_error_text(*self),
    {
        match self {
            StoreError::TooLarge => "peer store content exceeds the maximum size",
            StoreError::UnsupportedVersion => "unsupported peer-store version; expected 1",
            StoreError::TooManyPeers => "peer store contains more peers than the maximum",
            StoreError::TooManyLocators => "peer contains more locators than the maximum",
            StoreError::Identity(e) => e.message(),
            StoreError::DuplicateAgentId => "peer store contains duplicate Agent ID",
            StoreError::DuplicateLocators => "peer contains duplicate locators",
        }
    }
}

/// One enrolled peer as the store records it.
#[derive(Debug, Clone, PartialEq, Eq)]
pub struct StoredPeer {
    pub agent_id: AgentId,
    pub public_key: String,
    pub locators: Vec<PeerLocator>,
}

pub struct StoredView {
    pub agent_id: Seq<char>,
    pub public_key: Seq<char>,
    pub locators: Seq<LocatorView>,
}

impl View for StoredPeer {
    type V = StoredView;

    open spec fn view(&self) -> StoredView {
        StoredView { agent_id: self.agent_id@, public_key: self.public_key@, locators: views_of(self.locators@) }
    }
}

pub open spec fn stored_views(ps: Seq<StoredPeer>) -> Seq<StoredView> {
    ps.map_values(|p: StoredPeer| p@)
}

/// The per-peer checks, in order over the first `n` peers: a valid
/// identity binding, an Agent ID not seen before, no duplicate locator.
pub open spec fn peers_prefix_check(ps: Seq<StoredView>, n: nat) -> Result<Set<Seq<char>>, StoreError>
    decreases n,
{
    if n == 0 {
        Ok(Set::empty())
    } else {
        match peers_prefix_check(ps, (n - 1) as nat) {
            Err(e) => Err(e),
            Ok(seen) => {
                let p = ps[n - 1];
                match identity_from_parts(p.agent_id, p.public_key) {
                    Err(e) => Err(StoreError::Identity(e)),
                    Ok(_) => if seen.contains(p.agent_id) {
                        Err(StoreError::DuplicateAgentId)
                    } else if !p.locators.no_duplicates() {
                        Err(StoreError::DuplicateLocators)
                    } else {
                        Ok(seen.insert(p.agent_id))
                    },
                }
            },
        }
    }
}

/// The store's content rules: at most 256 peers, at most 8 locators each,
/// then the per-peer checks in order.
pub open spec fn peers_check(ps: Seq<StoredView>) -> Result<(), StoreError> {
    if ps.len() > MAX_ENROLLED_PEERS {
        Err(StoreError::TooManyPeers)
    } else if exists|i: int| 0 <= i < ps.len() && (#[trigger] ps[i]).locators.len() > MAX_LOCATORS_PER_PEER {
        Err(StoreError::TooManyLocators)
    } else {
        match peers_prefix_check(ps, ps.len()) {
            Err(e) => Err(e),
            Ok(_) => Ok(()),
        }
    }
}

fn has_duplicate_locator(ls: &Vec<PeerLocator>) -> (r: bool)
    ensures
        r == !views_of(ls@).no_duplicates(),
{
    let ghost v = views_of(ls@);
    let mut i: usize = 0;
    while i < ls.len()
        invariant
            v == views_of(ls@),
            i <= ls.len(),
            forall|a: int, b: int| 0 <= a < b < ls.len() && a < i ==> v[a] != v[b],
        decreases ls.len() - i,
    {
        let mut j: usize = i + 1;
        while j < ls.len()
            invariant
                v == views_of(ls@),
                i < ls.len(),
                i + 1 <= j <= ls.len(),
                forall|a: int, b: int| 0 <= a < b < ls.len() && a < i ==> v[a] != v[b],
                forall|b: int| i < b < j ==> v[i as int] != v[b],
            decreases ls.len() - j,
        {
            if ls[i].equals(&ls[j]) {
                assert(v[i as int] == v[j as int]);
                return true;
            }
            j = j + 1;
        }
        i = i + 1;
    }
    false
}

/// Stored peers that a store within bounds may hold: at most
/// `MAX_ENROLLED_PEERS`, each with a valid key binding, an Agent ID no other
/// record has, and at most `MAX_LOCATORS_PER_PEER` distinct locators.
pub open spec fn storable(ps: Seq<StoredView>) -> bool {
    &&& ps.len() <= MAX_ENROLLED_PEERS
    &&& forall|i: int| 0 <= i < ps.len() ==> {
        &&& identity_from_parts((#[trigger] ps[i]).agent_id, ps[i].public_key) is Ok
        &&& ps[i].locators.len() <= MAX_LOCATORS_PER_PEER
        &&& ps[i].locators.no_duplicates()
    }
    &&& forall|i: int, j: int| 0 <= i < j < ps.len() ==> (#[trigger] ps[i]).agent_id != (#[trigger] ps[j]).agent_id
}

proof fn lemma_storable_prefix(ps: Seq<StoredView>, n: nat)
    requires
        storable(ps),
        n <= ps.len(),
    ensures
        peers_prefix_check(ps, n) == Ok::<Set<Seq<char>>, StoreError>(
            Set::new(|a: Seq<char>| exists|i: int| 0 <= i < n && (#[trigger] ps[i]).agent_id == a),
        ),
    decreases n,
{
    let seen = Set::new(|a: Seq<char>| exists|i: int| 0 <= i < n && (#[trigger] ps[i]).agent_id == a);
    if n == 0 {
        assert(seen =~= Set::<Seq<char>>::empty());
    } else {
        lemma_storable_prefix(ps, (n - 1) as nat);
        let before = Set::new(|a: Seq<char>| exists|i: int| 0 <= i < n - 1 && (#[trigger] ps[i]).agent_id == a);
        let p = ps[n - 1];
        assert(identity_from_parts(p.agent_id, p.public_key) is Ok);
        assert(!before.contains(p.agent_id)) by {
            assert forall|i: int| 0 <= i < n - 1 implies (#[trigger] ps[i]).agent_id != p.agent_id by {
                assert(ps[i].agent_id != ps[n - 1].agent_id);
            }
        }
        assert(seen =~= before.insert(p.agent_id));
    }
}

/// Storable peers pass the store's content checks, so a document of the
/// current version holding them decodes to the same records in the same
/// order (`PeerStore::decode_document`).
pub proof fn lemma_storable_peers_pass_checks(ps: Seq<StoredView>)
    requires
        storable(ps),
    ensures
        peers_check(ps) == Ok::<(), StoreError>(()),
{
    lemma_storable_prefix(ps, ps.len());
}

/// The identity, bounds and uniqueness checks on a list of stored peers.
pub fn validate_peers(peers: &Vec<StoredPeer>) -> (r: Result<(), StoreError>)
    ensures
        r == peers_check(stored_views(peers@)),
{
    let ghost ps = stored_views(peers@);
    if peers.len() > MAX_ENROLLED_PEERS {
        return Err(StoreError::TooManyPeers);
    }
    let mut i: usize = 0;
    while i < peers.len()
        invariant
            ps == stored_views(peers@),
            i <= peers.len(),
            ps.len() == peers.len(),
            peers.len() <= MAX_ENROLLED_PEERS,
            forall|k: int| 0 <= k < i ==> (#[trigger] ps[k]).locators.len() <= MAX_LOCATORS_PER_PEER,
        decreases peers.len() - i,
    {
        assert(ps[i as int] == peers@[i as int]@);
        if peers[i].locators.len() > MAX_LOCATORS_PER_PEER {
            proof {
                assert(ps[i as int].locators.len() > MAX_LOCATORS_PER_PEER);
            }
            return Err(StoreError::TooManyLocators);
        }
        i = i + 1;
    }
    let mut seen: KeyedMap<()> = KeyedMap::new();
    let mut i: usize = 0;
    while i < peers.len()
        invariant
            ps == stored_views(peers@),
            i <= peers.len(),
            seen.wf(),
            ps.len() == peers.len(),
            peers.len() <= MAX_ENROLLED_PEERS,
            forall|k: int| 0 <= k < peers.len() ==> (#[trigger] ps[k]).locators.len() <= MAX_LOCATORS_PER_PEER,
            peers_prefix_check(ps, i as nat) is Ok,
            peers_prefix_check(ps, i as nat)->Ok_0 == seen.as_map().dom(),
        decreases peers.len() - i,
    {
        let p = &peers[i];
        assert(ps[i as int] == p@);
        match PeerIdentity::from_parts(p.agent_id.duplicate(), p.public_key.as_str()) {
            Err(e) => {
                proof {
                    assert(peers_prefix_check(ps, (i + 1) as nat) == Err::<Set<Seq<char>>, StoreError>(StoreError::Identity(e)));
                    lemma_prefix_error_persists(ps, (i + 1) as nat, ps.len());
                }
                return Err(StoreError::Identity(e));
            },
            Ok(_) => {},
        }
        let key = p.agent_id.to_chars();
        if seen.contains(&key) {
            proof {
                lemma_prefix_error_persists(ps, (i + 1) as nat, ps.len());
            }
            return Err(StoreError::DuplicateAgentId);
        }
        if has_duplicate_locator(&p.locators) {
            proof {
                lemma_prefix_error_persists(ps, (i + 1) as nat, ps.len());
            }
            return Err(StoreError::DuplicateLocators);
        }
        seen.insert(key, ());
        proof {
            assert(seen.as_map().dom() =~= peers_prefix_check(ps, i as nat)->Ok_0.insert(ps[i as int].agent_id));
        }
        i = i + 1;
    }
    Ok(())
}

proof fn lemma_prefix_error_persists(ps: Seq<StoredView>, n: nat, m: nat)
    requires
        n <= m,
        peers_prefix_check(ps, n) is Err,
    ensures
        peers_prefix_check(ps, m) == peers_prefix_check(ps, n),
    decreases m - n,
{
    if n < m {
        lemma_prefix_error_persists(ps, n, (m - 1) as nat);
    }
}

} // verus!
