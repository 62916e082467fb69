//! The broker's decisions over its state: the handler lease, the pending
//! requests and the completed-response cache. Responses are opaque values
//! of type `R` built by the caller; each pending request carries the
//! responses that end it if it times out or is orphaned by its handler.
use vstd::prelude::*;

use crate::identity::AgentId;
use crate::reply::{ErrorReply, ErrorReplyView, error_reply, error_reply_of, text_with_uuid, uuid_text};
use crate::transport::send::MAX_MESSAGE_SIZE;
use crate::request_broker::cache::{
    CompletedCache, CompletedResponse, RequestKey, Tombstone, cached_at, lemma_remembered_keeps_absent,
    remembered,
};

verus! {

/// Inbound requests that may wait for their handler at once.
pub const MAX_PENDING_REQUESTS: usize = 1024;

#[derive(Debug, Clone, Copy, PartialEq, Eq, Structural)]
pub enum BrokerError {
    HandlerBusy,
    NotHandler,
    RequestNotFound,
    /// The request ID matches more than one peer-scoped pending request and
    /// no peer was supplied to disambiguate.
    AmbiguousRequest,
    InvalidPayload,
}

/// A request waiting for its handler's reply.
pub struct PendingRequest<R> {
    pub key: RequestKey,
    /// The handler client it was delivered to.
    pub owner: u64,
    /// When it was admitted (monotonic nanoseconds).
    pub inserted_at: u64,
    /// Its outcome if it outlives the pending deadline.
    pub on_timeout: Tombstone<R>,
    /// Its outcome if its handler goes away first.
    pub on_orphan: Tombstone<R>,
}

/// What `begin` decided for an inbound request.
#[derive(Debug, Clone, Copy, PartialEq, Eq, Structural)]
pub enum BeginAction {
    /// No authenticated origin: answer `invalid_envelope`.
    InvalidEnvelope,
    /// Answer with the cached outcome of the same key.
    Replay,
    /// No handler is registered: answer `unhandled`.
    Unhandled,
    /// The same key is still in flight: answer `overloaded`, retryable.
    Duplicate,
    /// The pending capacity is exhausted: answer `overloaded`, retryable.
    Overloaded,
    /// Deliver to this handler client; the request is now pending.
    Deliver(u64),
    /// A describe request: answered by the broker from the published
    /// manifest (see `BrokerState::describe`), never delivered.
    Describe,
}

/// Which pending requests a sweep ends, and with which outcome.
pub enum Sweep {
    /// Those admitted more than `ttl` before `now` (timeout outcome).
    Expired { now: u64, ttl: u64 },
    /// Those owned by this client (orphan outcome).
    OwnedBy(u64),
    /// Those whose owner is not among the live clients (orphan outcome).
    OwnerGone,
}

pub open spec fn is_expired(inserted_at: u64, now: u64, ttl: u64) -> bool {
    now > inserted_at && now - inserted_at > ttl
}

pub open spec fn swept_by<R>(s: Sweep, live: Seq<u64>, p: PendingRequest<R>) -> bool {
    match s {
        Sweep::Expired { now, ttl } => is_expired(p.inserted_at, now, ttl),
        Sweep::OwnedBy(c) => p.owner == c,
        Sweep::OwnerGone => !live.contains(p.owner),
    }
}

pub open spec fn outcome_for<R>(s: Sweep, p: PendingRequest<R>) -> CompletedResponse<R> {
    let t = match s {
        Sweep::Expired { .. } => p.on_timeout,
        _ => p.on_orphan,
    };
    CompletedResponse { key: p.key, response: t.response, wire_bytes: t.wire_bytes }
}

/// The pending requests a sweep keeps, in order.
pub open spec fn kept<R>(s: Sweep, live: Seq<u64>, ps: Seq<PendingRequest<R>>) -> Seq<PendingRequest<R>>
    decreases ps.len(),
{
    if ps.len() == 0 {
        Seq::empty()
    } else if swept_by(s, live, ps.last()) {
        kept(s, live, ps.drop_last())
    } else {
        kept(s, live, ps.drop_last()).push(ps.last())
    }
}

/// The cache after a sweep records each ended request's outcome, in order.
pub open spec fn cache_after<R>(s: Sweep, live: Seq<u64>, q: Seq<CompletedResponse<R>>, ps: Seq<PendingRequest<R>>) -> Seq<CompletedResponse<R>>
    decreases ps.len(),
{
    if ps.len() == 0 {
        q
    } else if swept_by(s, live, ps.last()) {
        remembered(cache_after(s, live, q, ps.drop_last()), outcome_for(s, ps.last()))
    } else {
        cache_after(s, live, q, ps.drop_last())
    }
}

/// The keys of the requests a sweep ends, in order.
pub open spec fn ended<R>(s: Sweep, live: Seq<u64>, ps: Seq<PendingRequest<R>>) -> Seq<(Seq<char>, u128)>
    decreases ps.len(),
{
    if ps.len() == 0 {
        Seq::empty()
    } else if swept_by(s, live, ps.last()) {
        ended(s, live, ps.drop_last()).push(ps.last().key@)
    } else {
        ended(s, live, ps.drop_last())
    }
}

/// No key is pending twice: the pending requests form a map by key.
pub open spec fn unique_keys<R>(ps: Seq<PendingRequest<R>>) -> bool {
    forall|i: int, j: int| 0 <= i < j < ps.len() ==> (#[trigger] ps[i]).key@ != (#[trigger] ps[j]).key@
}

/// A sweep keeps requests of `ps` only, so it keeps their keys unique.
proof fn lemma_kept_unique<R>(s: Sweep, live: Seq<u64>, ps: Seq<PendingRequest<R>>)
    ensures
        forall|i: int| 0 <= i < kept(s, live, ps).len() ==> exists|j: int| 0 <= j < ps.len() && #[trigger] kept(s, live, ps)[i] == ps[j],
        forall|i: int| 0 <= i < kept(s, live, ps).len() ==> !swept_by(s, live, #[trigger] kept(s, live, ps)[i]),
        kept(s, live, ps).len() <= ps.len(),
        unique_keys(ps) ==> unique_keys(kept(s, live, ps)),
    decreases ps.len(),
{
    if ps.len() > 0 {
        let init = ps.drop_last();
        lemma_kept_unique(s, live, init);
        let k0 = kept(s, live, init);
        let k = kept(s, live, ps);
        assert forall|i: int| 0 <= i < k.len() implies exists|j: int| 0 <= j < ps.len() && #[trigger] k[i] == ps[j] by {
            if i < k0.len() {
                assert(k[i] == k0[i]);
                let j = choose|j: int| 0 <= j < init.len() && k0[i] == init[j];
                assert(k[i] == ps[j]);
            } else {
                assert(k[i] == ps[ps.len() - 1]);
            }
        }
        assert forall|i: int| 0 <= i < k.len() implies !swept_by(s, live, #[trigger] k[i]) by {
            if i < k0.len() {
                assert(k[i] == k0[i]);
            }
        }
        if unique_keys(ps) && !swept_by(s, live, ps.last()) {
            assert forall|i: int, j: int| 0 <= i < j < k.len() implies (#[trigger] k[i]).key@ != (#[trigger] k[j]).key@ by {
                if j == k.len() - 1 {
                    let jj = choose|jj: int| 0 <= jj < init.len() && k0[i] == init[jj];
                    assert(k[i] == ps[jj]);
                    assert(k[j] == ps[ps.len() - 1]);
                } else {
                    assert(k[i] == k0[i] && k[j] == k0[j]);
                }
            }
        }
    }
}

/// Removing one pending request keeps the keys unique.
proof fn lemma_remove_unique<R>(ps: Seq<PendingRequest<R>>, i: int)
    requires
        unique_keys(ps),
        0 <= i < ps.len(),
    ensures
        unique_keys(ps.remove(i)),
{
    let r = ps.remove(i);
    assert forall|a: int, b: int| 0 <= a < b < r.len() implies (#[trigger] r[a]).key@ != (#[trigger] r[b]).key@ by {
        let a0 = if a < i { a } else { a + 1 };
        let b0 = if b < i { b } else { b + 1 };
        assert(r[a] == ps[a0] && r[b] == ps[b0]);
    }
}

/// No pending request has a cached outcome: a request in flight is never
/// answered from the cache, and a cached outcome never meets a live request.
pub open spec fn uncached<R>(ps: Seq<PendingRequest<R>>, q: Seq<CompletedResponse<R>>) -> bool {
    forall|i: int| 0 <= i < ps.len() ==> cached_at(q, (#[trigger] ps[i]).key@) is None
}

/// A sweep caches only the keys it ends.
proof fn lemma_cache_after_absent<R>(
    s: Sweep,
    live: Seq<u64>,
    q: Seq<CompletedResponse<R>>,
    ps: Seq<PendingRequest<R>>,
    k: (Seq<char>, u128),
)
    requires
        cached_at(q, k) is None,
        forall|j: int| 0 <= j < ps.len() && swept_by(s, live, #[trigger] ps[j]) ==> ps[j].key@ != k,
    ensures
        cached_at(cache_after(s, live, q, ps), k) is None,
    decreases ps.len(),
{
    if ps.len() > 0 {
        let init = ps.drop_last();
        assert forall|j: int| 0 <= j < init.len() && swept_by(s, live, #[trigger] init[j]) implies init[j].key@ != k by {
            assert(init[j] == ps[j]);
        }
        lemma_cache_after_absent(s, live, q, init, k);
        if swept_by(s, live, ps.last()) {
            assert(ps[ps.len() - 1].key@ != k);
            lemma_remembered_keeps_absent(cache_after(s, live, q, init), outcome_for(s, ps.last()), k);
        }
    }
}

/// A sweep keeps the requests it keeps uncached.
proof fn lemma_sweep_uncached<R>(s: Sweep, live: Seq<u64>, q: Seq<CompletedResponse<R>>, ps: Seq<PendingRequest<R>>)
    requires
        unique_keys(ps),
        uncached(ps, q),
    ensures
        uncached(kept(s, live, ps), cache_after(s, live, q, ps)),
{
    lemma_kept_unique(s, live, ps);
    let k = kept(s, live, ps);
    assert forall|i: int| 0 <= i < k.len() implies cached_at(cache_after(s, live, q, ps), (#[trigger] k[i]).key@) is None by {
        let j = choose|j: int| 0 <= j < ps.len() && k[i] == ps[j];
        assert(!swept_by(s, live, k[i]));
        assert(cached_at(q, ps[j].key@) is None);
        assert forall|m: int| 0 <= m < ps.len() && swept_by(s, live, #[trigger] ps[m]) implies ps[m].key@ != k[i].key@ by {
            assert(m != j);
            if m < j {
                assert(ps[m].key@ != ps[j].key@);
            } else {
                assert(ps[j].key@ != ps[m].key@);
            }
        }
        lemma_cache_after_absent(s, live, q, ps, k[i].key@);
    }
}

/// Ending pending request `i` and caching its outcome keeps the rest
/// uncached.
proof fn lemma_end_one_uncached<R>(ps: Seq<PendingRequest<R>>, q: Seq<CompletedResponse<R>>, i: int, e: CompletedResponse<R>)
    requires
        unique_keys(ps),
        uncached(ps, q),
        0 <= i < ps.len(),
        e.key@ == ps[i].key@,
    ensures
        uncached(ps.remove(i), remembered(q, e)),
{
    let r = ps.remove(i);
    assert forall|a: int| 0 <= a < r.len() implies cached_at(remembered(q, e), (#[trigger] r[a]).key@) is None by {
        let a0 = if a < i { a } else { a + 1 };
        assert(r[a] == ps[a0]);
        if a0 < i {
            assert(ps[a0].key@ != ps[i].key@);
        } else {
            assert(ps[i].key@ != ps[a0].key@);
        }
        lemma_remembered_keeps_absent(q, e, r[a].key@);
    }
}

/// Whether key `k` is pending in `ps`.
pub open spec fn is_pending<R>(ps: Seq<PendingRequest<R>>, k: (Seq<char>, u128)) -> bool {
    exists|i: int| 0 <= i < ps.len() && (#[trigger] ps[i]).key@ == k
}

/// The keys of the pending requests that a reply by `client` to request
/// `id` (from `peer`, when given) may resolve, in order.
pub open spec fn reply_candidates<R>(ps: Seq<PendingRequest<R>>, client: u64, id: u128, peer: Option<Seq<char>>) -> Seq<int>
    decreases ps.len(),
{
    if ps.len() == 0 {
        Seq::empty()
    } else {
        let rest = reply_candidates(ps.drop_last(), client, id, peer);
        let p = ps.last();
        if p.key.id == id && p.owner == client && (peer matches Some(x) ==> p.key.peer@ == x) {
            rest.push(ps.len() - 1)
        } else {
            rest
        }
    }
}

pub struct BrokerState<R> {
    pub handler: Option<u64>,
    /// The manifest the handler published when it took the lease, ready to
    /// answer describe requests.
    pub manifest: Option<R>,
    pub pending: Vec<PendingRequest<R>>,
    pub completed: CompletedCache<R>,
}

impl<R> BrokerState<R> {
    /// The cache keeps its budgets, the pending set its capacity with each
    /// key at most once, and no pending request has a cached outcome.
    pub open spec fn wf(&self) -> bool {
        &&& self.completed.wf()
        &&& self.pending@.len() <= MAX_PENDING_REQUESTS
        &&& unique_keys(self.pending@)
        &&& uncached(self.pending@, self.completed.queue@)
    }

    pub fn new() -> (s: Self)
        ensures
            s.wf(),
            s.handler is None,
            s.manifest is None,
            s.pending@.len() == 0,
            s.completed.queue@.len() == 0,
    {
        BrokerState { handler: None, manifest: None, pending: Vec::new(), completed: CompletedCache::new() }
    }

    /// Take the handler lease for `client_id`, publishing `manifest` for
    /// describe requests; the holder may take it again (refreshing the
    /// manifest), anyone else is refused while it is held.
    pub fn register(&mut self, client_id: u64, manifest: Option<R>) -> (r: Result<(), BrokerError>)
        requires
            old(self).wf(),
        ensures
            final(self).wf(),
            final(self).pending@ == old(self).pending@,
            final(self).completed == old(self).completed,
            match old(self).handler {
                None => r is Ok && final(self).handler == Some(client_id) && final(self).manifest == manifest,
                Some(h) => final(self).handler == old(self).handler && (if h == client_id {
                    r is Ok && final(self).manifest == manifest
                } else {
                    r == Err::<(), BrokerError>(BrokerError::HandlerBusy) && final(self).manifest == old(self).manifest
                }),
            },
    {
        match self.handler {
            None => {
                self.handler = Some(client_id);
                self.manifest = manifest;
                Ok(())
            },
            Some(owner) => if owner == client_id {
                self.manifest = manifest;
                Ok(())
            } else {
                Err(BrokerError::HandlerBusy)
            },
        }
    }

    /// The answer to a describe request, whose response built from the
    /// manifest is `response_wire_bytes` long on the wire (`None`: it does
    /// not encode): the manifest, unless none is published
    /// (`no_manifest`) or the response would exceed `MAX_MESSAGE_SIZE`
    /// (`manifest_too_large`). Nothing else is read or changed.
    pub fn describe(&self, response_wire_bytes: Option<usize>) -> (r: Result<&R, ErrorReply>)
        ensures
            match self.manifest {
                None => r matches Err(e) && e@ == no_manifest_reply_of(),
                Some(m) => match response_wire_bytes {
                    Some(b) if b <= MAX_MESSAGE_SIZE => r == Ok::<&R, ErrorReply>(&m),
                    _ => r matches Err(e) && e@ == manifest_too_large_reply_of(),
                },
            },
    {
        match &self.manifest {
            None => Err(no_manifest_reply()),
            Some(m) => match response_wire_bytes {
                Some(b) => if b <= MAX_MESSAGE_SIZE {
                    Ok(m)
                } else {
                    Err(manifest_too_large_reply())
                },
                None => Err(manifest_too_large_reply()),
            },
        }
    }

    /// How many requests are pending.
    pub fn pending_count(&self) -> (n: usize)
        ensures
            n == self.pending@.len(),
    {
        self.pending.len()
    }

    /// The position of pending key `key`.
    fn pending_position(&self, key: &RequestKey) -> (r: Option<usize>)
        ensures
            r matches Some(i) ==> i < self.pending@.len() && self.pending@[i as int].key@ == key@,
            r is None ==> !is_pending(self.pending@, key@),
    {
        let mut i: usize = 0;
        while i < self.pending.len()
            invariant
                i <= self.pending@.len(),
                forall|j: int| 0 <= j < i ==> (#[trigger] self.pending@[j]).key@ != key@,
            decreases self.pending@.len() - i,
        {
            if self.pending[i].key.same_as(key) {
                return Some(i);
            }
            i = i + 1;
        }
        None
    }

    fn selects(s: &Sweep, p: &PendingRequest<R>, live: &Vec<u64>) -> (r: bool)
        ensures
            r == swept_by(*s, live@, *p),
    {
        match s {
            Sweep::Expired { now, ttl } => *now > p.inserted_at && *now - p.inserted_at > *ttl,
            Sweep::OwnedBy(c) => p.owner == *c,
            Sweep::OwnerGone => {
                let mut i: usize = 0;
                while i < live.len()
                    invariant
                        *s is OwnerGone,
                        i <= live@.len(),
                        forall|j: int| 0 <= j < i ==> live@[j] != p.owner,
                    decreases live@.len() - i,
                {
                    if live[i] == p.owner {
                        assert(live@[i as int] == p.owner);
                        assert(live@.contains(p.owner));
                        return false;
                    }
                    i = i + 1;
                }
                true
            },
        }
    }

    /// End every pending request that `s` selects, caching its outcome;
    /// returns the ended keys in order.
    pub fn sweep(&mut self, s: Sweep, live: &Vec<u64>) -> (r: Vec<RequestKey>)
        requires
            old(self).wf(),
        ensures
            final(self).wf(),
            final(self).handler == old(self).handler,
            final(self).manifest == old(self).manifest,
            final(self).pending@ == kept(s, live@, old(self).pending@),
            final(self).completed.queue@ == cache_after(s, live@, old(self).completed.queue@, old(self).pending@),
            r@.map_values(|k: RequestKey| k@) == ended(s, live@, old(self).pending@),
    {
        let ghost all = self.pending@;
        let ghost q0 = self.completed.queue@;
        let ghost h0 = self.handler;
        let ghost m0 = self.manifest;
        let mut rest: Vec<PendingRequest<R>> = Vec::new();
        std::mem::swap(&mut rest, &mut self.pending);
        let mut keep: Vec<PendingRequest<R>> = Vec::new();
        let mut out: Vec<RequestKey> = Vec::new();
        let mut n: usize = 0;
        while rest.len() > 0
            invariant
                self.completed.wf(),
                self.handler == h0,
                self.manifest == m0,
                n <= all.len(),
                rest@ == all.subrange(n as int, all.len() as int),
                keep@ == kept(s, live@, all.take(n as int)),
                keep@.len() <= n,
                self.completed.queue@ == cache_after(s, live@, q0, all.take(n as int)),
                out@.map_values(|k: RequestKey| k@) == ended(s, live@, all.take(n as int)),
                all.len() <= MAX_PENDING_REQUESTS,
                unique_keys(all),
                uncached(all, q0),
            decreases rest@.len(),
        {
            let p = rest.remove(0);
            proof {
                assert(all.take(n + 1).drop_last() =~= all.take(n as int));
                assert(all.take(n + 1).last() == p);
            }
            let ghost out0 = out@;
            if Self::selects(&s, &p, live) {
                out.push(p.key.duplicate());
                let t = match s {
                    Sweep::Expired { .. } => p.on_timeout,
                    _ => p.on_orphan,
                };
                self.completed.remember(p.key, t.response, t.wire_bytes);
                proof {
                    assert(out@.map_values(|k: RequestKey| k@) =~= out0.map_values(|k: RequestKey| k@).push(p.key@));
                }
            } else {
                keep.push(p);
            }
            n = n + 1;
        }
        proof {
            assert(all.take(all.len() as int) =~= all);
            lemma_kept_unique(s, live@, all);
            lemma_sweep_uncached(s, live@, q0, all);
        }
        self.pending = keep;
        out
    }

    /// Decide an inbound request with key `key` (none without an
    /// authenticated origin) at `now`: a describe request (`describe`) is
    /// left to `describe`, changing nothing; a cached outcome is replayed;
    /// without a handler it is unhandled; otherwise requests older than
    /// `ttl` are swept to their timeout outcome (returned keys), a key just
    /// swept replays its timeout, a key in flight is a duplicate, a full
    /// pending set overloads, and else the request becomes pending for the
    /// handler with `on_timeout` and `on_orphan` as its outcomes.
    pub fn begin(
        &mut self,
        key: Option<RequestKey>,
        describe: bool,
        now: u64,
        ttl: u64,
        on_timeout: Tombstone<R>,
        on_orphan: Tombstone<R>,
    ) -> (r: (BeginAction, Vec<RequestKey>))
        requires
            old(self).wf(),
        ensures
            final(self).wf(),
            final(self).manifest == old(self).manifest,
            final(self).handler == old(self).handler,
            match key {
                None => r.0 == BeginAction::InvalidEnvelope && r.1@.len() == 0 && *final(self) == *old(self),
                Some(k) => if describe {
                    r.0 == BeginAction::Describe && r.1@.len() == 0 && *final(self) == *old(self)
                } else if cached_at(old(self).completed.queue@, k@) is Some {
                    r.0 == BeginAction::Replay && r.1@.len() == 0 && *final(self) == *old(self)
                } else {
                    match old(self).handler {
                        None => r.0 == BeginAction::Unhandled && r.1@.len() == 0 && *final(self) == *old(self),
                        Some(h) => {
                            let sw = Sweep::Expired { now, ttl };
                            let ps = kept(sw, Seq::empty(), old(self).pending@);
                            let q = cache_after(sw, Seq::empty(), old(self).completed.queue@, old(self).pending@);
                            &&& r.1@.map_values(|x: RequestKey| x@) == ended(sw, Seq::empty(), old(self).pending@)
                            &&& final(self).completed.queue@ == q
                            &&& if cached_at(q, k@) is Some {
                                r.0 == BeginAction::Replay && final(self).pending@ == ps
                            } else if is_pending(ps, k@) {
                                r.0 == BeginAction::Duplicate && final(self).pending@ == ps
                            } else if ps.len() >= MAX_PENDING_REQUESTS {
                                r.0 == BeginAction::Overloaded && final(self).pending@ == ps
                            } else {
                                &&& r.0 == BeginAction::Deliver(h)
                                &&& final(self).pending@.len() == ps.len() + 1
                                &&& final(self).pending@.drop_last() == ps
                                &&& final(self).pending@.last().key@ == k@
                                &&& final(self).pending@.last().owner == h
                                &&& final(self).pending@.last().inserted_at == now
                                &&& final(self).pending@.last().on_timeout == on_timeout
                                &&& final(self).pending@.last().on_orphan == on_orphan
                            }
                        },
                    }
                },
            },
    {
        let key = match key {
            Some(k) => k,
            None => return (BeginAction::InvalidEnvelope, Vec::new()),
        };
        if describe {
            return (BeginAction::Describe, Vec::new());
        }
        if self.completed.has(&key) {
            return (BeginAction::Replay, Vec::new());
        }
        let client_id = match self.handler {
            Some(h) => h,
            None => return (BeginAction::Unhandled, Vec::new()),
        };
        let no_live: Vec<u64> = Vec::new();
        assert(no_live@ =~= Seq::<u64>::empty());
        let swept = self.sweep(Sweep::Expired { now, ttl }, &no_live);
        if self.completed.has(&key) {
            return (BeginAction::Replay, swept);
        }
        if self.pending_position(&key).is_some() {
            return (BeginAction::Duplicate, swept);
        }
        if self.pending.len() >= MAX_PENDING_REQUESTS {
            return (BeginAction::Overloaded, swept);
        }
        let ghost ps = self.pending@;
        self.pending.push(PendingRequest { key, owner: client_id, inserted_at: now, on_timeout, on_orphan });
        proof {
            assert(self.pending@.drop_last() =~= ps);
            let n = self.pending@.len() - 1;
            assert forall|a: int, b: int| 0 <= a < b < self.pending@.len() implies (#[trigger] self.pending@[a]).key@
                != (#[trigger] self.pending@[b]).key@ by {
                if b == n {
                    assert(ps[a] == self.pending@[a]);
                } else {
                    assert(ps[a] == self.pending@[a] && ps[b] == self.pending@[b]);
                }
            }
        }
        (BeginAction::Deliver(client_id), swept)
    }

    /// The pending request that `client_id`'s reply to `request_id` (from
    /// `peer`, when given) resolves: refused unless `client_id` holds the
    /// lease, then unless the payload is an object; then no candidate is
    /// not found, and several are ambiguous.
    pub fn resolve_reply(&self, client_id: u64, request_id: u128, peer: Option<&AgentId>, payload_is_object: bool) -> (r: Result<
        usize,
        BrokerError,
    >)
        ensures
            self.handler != Some(client_id) ==> r == Err::<usize, BrokerError>(BrokerError::NotHandler),
            self.handler == Some(client_id) && !payload_is_object ==> r == Err::<usize, BrokerError>(BrokerError::InvalidPayload),
            self.handler == Some(client_id) && payload_is_object ==> {
                let c = reply_candidates(
                    self.pending@,
                    client_id,
                    request_id,
                    match peer {
                        Some(p) => Some(p@),
                        None => None,
                    },
                );
                &&& c.len() == 0 ==> r == Err::<usize, BrokerError>(BrokerError::RequestNotFound)
                &&& c.len() == 1 ==> r == Ok::<usize, BrokerError>(c[0] as usize)
                &&& c.len() > 1 ==> r == Err::<usize, BrokerError>(BrokerError::AmbiguousRequest)
            },
            r matches Ok(i) ==> i < self.pending@.len(),
    {
        if self.handler != Some(client_id) {
            return Err(BrokerError::NotHandler);
        }
        if !payload_is_object {
            return Err(BrokerError::InvalidPayload);
        }
        let ghost pv = match peer {
            Some(p) => Some(p@),
            None => None,
        };
        let peer_chars = match peer {
            Some(p) => Some(p.to_chars()),
            None => None,
        };
        let mut count: usize = 0;
        let mut first: usize = 0;
        let mut i: usize = 0;
        while i < self.pending.len()
            invariant
                i <= self.pending@.len(),
                pv == (match peer {
                    Some(p) => Some(p@),
                    None => None,
                }),
                peer_chars matches Some(pc) ==> pv == Some(pc@),
                peer_chars is None ==> pv is None,
                count == reply_candidates(self.pending@.take(i as int), client_id, request_id, pv).len(),
                count <= i,
                count > 0 ==> first == reply_candidates(self.pending@.take(i as int), client_id, request_id, pv)[0],
            decreases self.pending@.len() - i,
        {
            let ghost before = reply_candidates(self.pending@.take(i as int), client_id, request_id, pv);
            proof {
                assert(self.pending@.take(i + 1).drop_last() =~= self.pending@.take(i as int));
                assert(self.pending@.take(i + 1).last() == self.pending@[i as int]);
                lemma_candidates_first(self.pending@.take(i + 1), client_id, request_id, pv);
            }
            let p = &self.pending[i];
            let peer_ok = match &peer_chars {
                Some(pc) => crate::text::chars_equal(&p.key.peer.to_chars(), pc),
                None => true,
            };
            if p.key.id == request_id && p.owner == client_id && peer_ok {
                if count == 0 {
                    first = i;
                }
                count = count + 1;
            }
            i = i + 1;
        }
        proof {
            assert(self.pending@.take(self.pending@.len() as int) =~= self.pending@);
        }
        if count == 0 {
            Err(BrokerError::RequestNotFound)
        } else if count == 1 {
            proof {
                lemma_candidates_in_range(self.pending@, client_id, request_id, pv);
            }
            Ok(first)
        } else {
            Err(BrokerError::AmbiguousRequest)
        }
    }

    /// Complete pending request `i` with the handler's `response`: refused
    /// (the request stays pending) when its wire size is unknown or over
    /// `MAX_MESSAGE_SIZE`; otherwise it leaves the pending set and its
    /// response is cached.
    pub fn complete(&mut self, i: usize, response: R, wire_bytes: Option<usize>) -> (r: Result<
        RequestKey,
        BrokerError,
    >)
        requires
            old(self).wf(),
            i < old(self).pending@.len(),
        ensures
            final(self).wf(),
            final(self).handler == old(self).handler,
            match wire_bytes {
                Some(b) if b <= MAX_MESSAGE_SIZE => {
                    &&& r matches Ok(k) && k@ == old(self).pending@[i as int].key@
                    &&& final(self).pending@ == old(self).pending@.remove(i as int)
                    &&& final(self).completed.queue@ == remembered(
                        old(self).completed.queue@,
                        CompletedResponse { key: old(self).pending@[i as int].key, response, wire_bytes: b },
                    )
                },
                _ => r == Err::<RequestKey, BrokerError>(BrokerError::InvalidPayload) && *final(self) == *old(self),
            },
    {
        let bytes = match wire_bytes {
            Some(b) => b,
            None => return Err(BrokerError::InvalidPayload),
        };
        if bytes > MAX_MESSAGE_SIZE {
            return Err(BrokerError::InvalidPayload);
        }
        let ghost p0 = self.pending@;
        let ghost q0 = self.completed.queue@;
        proof {
            lemma_remove_unique(self.pending@, i as int);
            lemma_end_one_uncached(p0, q0, i as int, CompletedResponse { key: p0[i as int].key, response, wire_bytes: bytes });
        }
        let p = self.pending.remove(i);
        let key = p.key.duplicate();
        self.completed.remember(p.key, response, bytes);
        Ok(key)
    }

    /// End pending request `key` with `outcome`, if it is pending; returns
    /// whether it was.
    pub fn fail(&mut self, key: &RequestKey, outcome: Tombstone<R>) -> (r: bool)
        requires
            old(self).wf(),
        ensures
            final(self).wf(),
            final(self).handler == old(self).handler,
            r == is_pending(old(self).pending@, key@),
            !r ==> *final(self) == *old(self),
            r ==> exists|i: int| 0 <= i < old(self).pending@.len() && (#[trigger] old(self).pending@[i]).key@ == key@
                && final(self).pending@ == old(self).pending@.remove(i)
                && final(self).completed.queue@ == remembered(
                    old(self).completed.queue@,
                    CompletedResponse { key: old(self).pending@[i].key, response: outcome.response, wire_bytes: outcome.wire_bytes },
                ),
    {
        match self.pending_position(key) {
            Some(i) => {
                let ghost p0 = self.pending@;
                let ghost q0 = self.completed.queue@;
                proof {
                    lemma_remove_unique(p0, i as int);
                    lemma_end_one_uncached(
                        p0,
                        q0,
                        i as int,
                        CompletedResponse { key: p0[i as int].key, response: outcome.response, wire_bytes: outcome.wire_bytes },
                    );
                }
                let p = self.pending.remove(i);
                self.completed.remember(p.key, outcome.response, outcome.wire_bytes);
                assert(p0[i as int].key@ == key@);
                true
            },
            None => false,
        }
    }

    /// Release `client_id`'s handler lease, ending its pending requests
    /// with their orphan outcomes (returned keys); a client that does not
    /// hold the lease changes nothing.
    pub fn disconnect(&mut self, client_id: u64) -> (r: Vec<RequestKey>)
        requires
            old(self).wf(),
        ensures
            final(self).wf(),
            old(self).handler != Some(client_id) ==> *final(self) == *old(self) && r@.len() == 0,
            old(self).handler == Some(client_id) ==> {
                let sw = Sweep::OwnedBy(client_id);
                &&& final(self).handler is None
                &&& final(self).manifest is None
                &&& final(self).pending@ == kept(sw, Seq::empty(), old(self).pending@)
                &&& final(self).completed.queue@ == cache_after(sw, Seq::empty(), old(self).completed.queue@, old(self).pending@)
                &&& r@.map_values(|k: RequestKey| k@) == ended(sw, Seq::empty(), old(self).pending@)
            },
    {
        if self.handler != Some(client_id) {
            return Vec::new();
        }
        self.handler = None;
        self.manifest = None;
        let no_live: Vec<u64> = Vec::new();
        assert(no_live@ =~= Seq::<u64>::empty());
        self.sweep(Sweep::OwnedBy(client_id), &no_live)
    }

    /// Drop the lease of a holder that is not among `live_clients`, and end
    /// every pending request whose owner is not among them with its orphan
    /// outcome (returned keys).
    pub fn reconcile_clients(&mut self, live_clients: &Vec<u64>) -> (r: Vec<RequestKey>)
        requires
            old(self).wf(),
        ensures
            final(self).wf(),
            final(self).handler == (match old(self).handler {
                Some(h) => if live_clients@.contains(h) {
                    Some(h)
                } else {
                    None
                },
                None => None,
            }),
            final(self).manifest == (if final(self).handler is None {
                None
            } else {
                old(self).manifest
            }),
            final(self).pending@ == kept(Sweep::OwnerGone, live_clients@, old(self).pending@),
            final(self).completed.queue@ == cache_after(Sweep::OwnerGone, live_clients@, old(self).completed.queue@, old(self).pending@),
            r@.map_values(|k: RequestKey| k@) == ended(Sweep::OwnerGone, live_clients@, old(self).pending@),
    {
        match self.handler {
            Some(h) => {
                let mut found = false;
                let mut i: usize = 0;
                while i < live_clients.len()
                    invariant
                        i <= live_clients@.len(),
                        found == exists|j: int| 0 <= j < i && live_clients@[j] == h,
                    decreases live_clients@.len() - i,
                {
                    if live_clients[i] == h {
                        found = true;
                    }
                    i = i + 1;
                }
                if !found {
                    self.handler = None;
                    self.manifest = None;
                }
            },
            None => {
                self.manifest = None;
            },
        }
        self.sweep(Sweep::OwnerGone, live_clients)
    }

    /// The cached outcome of `key`.
    pub fn replay(&self, key: &RequestKey) -> (r: Option<&R>)
        ensures
            r matches Some(x) ==> cached_at(self.completed.queue@, key@) matches Some(i) && *x
                == self.completed.queue@[i].response,
            r is None ==> cached_at(self.completed.queue@, key@) is None,
    {
        self.completed.replay(key)
    }
}

proof fn lemma_candidates_first<R>(ps: Seq<PendingRequest<R>>, client: u64, id: u128, peer: Option<Seq<char>>)
    requires
        ps.len() > 0,
    ensures
        reply_candidates(ps.drop_last(), client, id, peer).len() > 0 ==> reply_candidates(ps, client, id, peer)[0]
            == reply_candidates(ps.drop_last(), client, id, peer)[0],
{
}

proof fn lemma_candidates_in_range<R>(ps: Seq<PendingRequest<R>>, client: u64, id: u128, peer: Option<Seq<char>>)
    ensures
        forall|j: int| 0 <= j < reply_candidates(ps, client, id, peer).len() ==> 0 <= #[trigger] reply_candidates(ps, client, id, peer)[j] < ps.len(),
    decreases ps.len(),
{
    if ps.len() > 0 {
        lemma_candidates_in_range(ps.drop_last(), client, id, peer);
        let rest = reply_candidates(ps.drop_last(), client, id, peer);
        let c = reply_candidates(ps, client, id, peer);
        assert forall|j: int| 0 <= j < c.len() implies 0 <= #[trigger] c[j] < ps.len() by {
            if j < rest.len() {
                assert(c[j] == rest[j]);
            }
        }
    }
}

/// The error reply that answers a request with `action` (for request
/// `request_id`), where the action is answered by the broker with an error.
pub open spec fn begin_reply_of(action: BeginAction, request_id: u128) -> Option<ErrorReplyView> {
    match action {
        BeginAction::InvalidEnvelope => Some(
            error_reply_of("invalid_envelope"@, "request lacks an authenticated origin identity"@, false),
        ),
        BeginAction::Unhandled => Some(
            error_reply_of(
                "unhandled"@,
                "no application handler registered for request '"@ + uuid_text(request_id) + "'"@,
                false,
            ),
        ),
        BeginAction::Duplicate => Some(
            error_reply_of("overloaded"@, "duplicate of an in-flight request; retry after it resolves"@, true),
        ),
        BeginAction::Overloaded => Some(error_reply_of("overloaded"@, "inbound request capacity is exhausted"@, true)),
        _ => None,
    }
}

/// The error reply for `action` on request `request_id` (see
/// `begin_reply_of`); a replay, a delivery and a describe carry none.
pub fn begin_reply(action: BeginAction, request_id: u128) -> (r: Option<ErrorReply>)
    ensures
        match r {
            Some(e) => begin_reply_of(action, request_id) == Some(e@),
            None => begin_reply_of(action, request_id) is None,
        },
{
    match action {
        BeginAction::InvalidEnvelope => Some(
            error_reply("invalid_envelope", "request lacks an authenticated origin identity".to_string(), false),
        ),
        BeginAction::Unhandled => Some(
            error_reply("unhandled", text_with_uuid("no application handler registered for request '", request_id, "'"), false),
        ),
        BeginAction::Duplicate => Some(
            error_reply("overloaded", "duplicate of an in-flight request; retry after it resolves".to_string(), true),
        ),
        BeginAction::Overloaded => Some(error_reply("overloaded", "inbound request capacity is exhausted".to_string(), true)),
        _ => None,
    }
}

/// The outcome cached for a request that a sweep ends: a timeout for an
/// expired request, `unhandled` for one whose handler went away.
pub open spec fn sweep_reply_of(s: Sweep) -> ErrorReplyView {
    match s {
        Sweep::Expired { .. } => error_reply_of("timeout"@, "request timed out waiting for a response"@, true),
        _ => error_reply_of("unhandled"@, "application handler disconnected before replying"@, true),
    }
}

/// The error reply that ends a request swept by `s` (see
/// `sweep_reply_of`); it is what a request's timeout and orphan outcomes
/// hold.
pub fn sweep_reply(s: &Sweep) -> (r: ErrorReply)
    ensures
        r@ == sweep_reply_of(*s),
{
    match s {
        Sweep::Expired { .. } => error_reply("timeout", "request timed out waiting for a response".to_string(), true),
        _ => error_reply("unhandled", "application handler disconnected before replying".to_string(), true),
    }
}

/// The reply a delivered request's waiter gets when no answer comes: a
/// timeout when the wait ran out, `unhandled` when the handler vanished.
pub open spec fn wait_failure_reply_of(timed_out: bool) -> ErrorReplyView {
    if timed_out {
        error_reply_of("timeout"@, "request handler timed out"@, true)
    } else {
        error_reply_of("unhandled"@, "request handler disconnected"@, true)
    }
}

pub fn wait_failure_reply(timed_out: bool) -> (r: ErrorReply)
    ensures
        r@ == wait_failure_reply_of(timed_out),
{
    if timed_out {
        error_reply("timeout", "request handler timed out".to_string(), true)
    } else {
        error_reply("unhandled", "request handler disconnected".to_string(), true)
    }
}

pub open spec fn no_manifest_reply_of() -> ErrorReplyView {
    error_reply_of(
        "no_manifest"@,
        "no capability manifest registered; the application handler has not published one (serve with a manifest to publish it)"@,
        false,
    )
}

fn no_manifest_reply() -> (r: ErrorReply)
    ensures
        r@ == no_manifest_reply_of(),
{
    error_reply(
        "no_manifest",
        "no capability manifest registered; the application handler has not published one (serve with a manifest to publish it)".to_string(),
        false,
    )
}

pub open spec fn manifest_too_large_reply_of() -> ErrorReplyView {
    error_reply_of("manifest_too_large"@, "registered capability manifest exceeds the wire limit"@, false)
}

fn manifest_too_large_reply() -> (r: ErrorReply)
    ensures
        r@ == manifest_too_large_reply_of(),
{
    error_reply("manifest_too_large", "registered capability manifest exceeds the wire limit".to_string(), false)
}

} // verus!
