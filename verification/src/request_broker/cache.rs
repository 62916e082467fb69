//! Cached terminal responses, so that a retried request is answered with
//! its recorded outcome instead of being executed again. The cache keeps
//! the newest entries within a count and a byte budget, dropping the
//! oldest first.
use vstd::prelude::*;

use crate::identity::AgentId;
use crate::text::chars_equal;

verus! {

/// Completed-request responses kept at most.
pub const MAX_COMPLETED_CACHE_ENTRIES: usize = 256;

/// Wire bytes of completed responses kept at most (4 MiB).
pub const MAX_COMPLETED_CACHE_BYTES: usize = 4194304;

/// A request's correlation key: the authenticated remote peer and the
/// request UUID it chose (as a 128-bit number).
#[derive(Debug)]
pub struct RequestKey {
    pub peer: AgentId,
    pub id: u128,
}

impl View for RequestKey {
    type V = (Seq<char>, u128);

    open spec fn view(&self) -> (Seq<char>, u128) {
        (self.peer@, self.id)
    }
}

impl RequestKey {
    /// The key of a request from `from` with UUID `id`; none without an
    /// authenticated origin.
    pub fn of(from: Option<&AgentId>, id: u128) -> (r: Option<RequestKey>)
        ensures
            from is None ==> r is None,
            from matches Some(p) ==> r matches Some(k) && k@ == (p@, id),
    {
        match from {
            Some(p) => Some(RequestKey { peer: p.duplicate(), id }),
            None => None,
        }
    }

    pub fn duplicate(&self) -> (r: RequestKey)
        ensures
            r@ == self@,
    {
        RequestKey { peer: self.peer.duplicate(), id: self.id }
    }

    pub fn same_as(&self, other: &RequestKey) -> (r: bool)
        ensures
            r == (self@ == other@),
    {
        self.id == other.id && chars_equal(&self.peer.to_chars(), &other.peer.to_chars())
    }
}

/// A response ready to be cached: the response and its wire size.
pub struct Tombstone<R> {
    pub response: R,
    pub wire_bytes: usize,
}

pub struct CompletedResponse<R> {
    pub key: RequestKey,
    pub response: R,
    pub wire_bytes: usize,
}

/// The total wire size of the cached responses `q`.
pub open spec fn bytes_of<R>(q: Seq<CompletedResponse<R>>) -> nat
    decreases q.len(),
{
    if q.len() == 0 {
        0
    } else {
        q[0].wire_bytes as nat + bytes_of(q.drop_first())
    }
}

/// `q` with its oldest entries dropped until a response of `bytes` fits in
/// both budgets.
pub open spec fn evicted_for<R>(q: Seq<CompletedResponse<R>>, bytes: nat) -> Seq<CompletedResponse<R>>
    decreases q.len(),
{
    if q.len() > 0 && (bytes_of(q) + bytes > MAX_COMPLETED_CACHE_BYTES || q.len() >= MAX_COMPLETED_CACHE_ENTRIES) {
        evicted_for(q.drop_first(), bytes)
    } else {
        q
    }
}

/// The cache after remembering `e`: an entry larger than the whole byte
/// budget is not cached; otherwise the oldest entries make room and `e`
/// becomes the newest.
pub open spec fn remembered<R>(q: Seq<CompletedResponse<R>>, e: CompletedResponse<R>) -> Seq<CompletedResponse<R>> {
    if e.wire_bytes > MAX_COMPLETED_CACHE_BYTES {
        q
    } else {
        evicted_for(q, e.wire_bytes as nat).push(e)
    }
}

/// The position of the oldest cached response for key `k`.
pub open spec fn cached_at<R>(q: Seq<CompletedResponse<R>>, k: (Seq<char>, u128)) -> Option<int> {
    if exists|i: int| 0 <= i < q.len() && (#[trigger] q[i]).key@ == k {
        Some(choose|i: int| 0 <= i < q.len() && (#[trigger] q[i]).key@ == k && forall|j: int| 0 <= j < i ==> (#[trigger] q[j]).key@ != k)
    } else {
        None
    }
}

proof fn lemma_bytes_of_push<R>(q: Seq<CompletedResponse<R>>, e: CompletedResponse<R>)
    ensures
        bytes_of(q.push(e)) == bytes_of(q) + e.wire_bytes,
    decreases q.len(),
{
    if q.len() > 0 {
        assert(q.push(e).drop_first() =~= q.drop_first().push(e));
        assert(q.push(e)[0] == q[0]);
        lemma_bytes_of_push(q.drop_first(), e);
        assert(bytes_of(q.push(e)) == q[0].wire_bytes as nat + bytes_of(q.drop_first().push(e)));
    } else {
        assert(q.push(e).drop_first() =~= Seq::<CompletedResponse<R>>::empty());
        assert(q.push(e)[0] == e);
        assert(bytes_of(q.push(e).drop_first()) == 0);
        assert(bytes_of(q) == 0);
    }
}

proof fn lemma_evicted_bounds<R>(q: Seq<CompletedResponse<R>>, bytes: nat)
    requires
        bytes <= MAX_COMPLETED_CACHE_BYTES,
    ensures
        bytes_of(evicted_for(q, bytes)) + bytes <= MAX_COMPLETED_CACHE_BYTES,
        evicted_for(q, bytes).len() < MAX_COMPLETED_CACHE_ENTRIES,
    decreases q.len(),
{
    if q.len() > 0 && (bytes_of(q) + bytes > MAX_COMPLETED_CACHE_BYTES || q.len() >= MAX_COMPLETED_CACHE_ENTRIES) {
        lemma_evicted_bounds(q.drop_first(), bytes);
    }
}

/// Its existence makes `cached_at` pick the first match.
proof fn lemma_cached_at<R>(q: Seq<CompletedResponse<R>>, k: (Seq<char>, u128), i: int)
    requires
        0 <= i < q.len(),
        q[i].key@ == k,
        forall|j: int| 0 <= j < i ==> (#[trigger] q[j]).key@ != k,
    ensures
        cached_at(q, k) == Some(i),
{
    let c = choose|c: int| 0 <= c < q.len() && (#[trigger] q[c]).key@ == k && forall|j: int| 0 <= j < c ==> (#[trigger] q[j]).key@ != k;
    assert(0 <= c < q.len() && q[c].key@ == k && forall|j: int| 0 <= j < c ==> (#[trigger] q[j]).key@ != k);
    if c < i {
        assert(q[c].key@ != k);
    } else if c > i {
        assert(q[i].key@ != k);
    }
}

pub struct CompletedCache<R> {
    pub queue: Vec<CompletedResponse<R>>,
    pub total_bytes: usize,
}

impl<R> CompletedCache<R> {
    /// The byte total is the sum of the entries' sizes, and both budgets hold.
    pub open spec fn wf(&self) -> bool {
        &&& self.total_bytes == bytes_of(self.queue@)
        &&& self.queue@.len() <= MAX_COMPLETED_CACHE_ENTRIES
        &&& self.total_bytes <= MAX_COMPLETED_CACHE_BYTES
    }

    pub fn new() -> (c: Self)
        ensures
            c.wf(),
            c.queue@.len() == 0,
    {
        CompletedCache { queue: Vec::new(), total_bytes: 0 }
    }

    /// Remember `response` (of `wire_bytes` on the wire) as the outcome of
    /// `key` (see `remembered`).
    pub fn remember(&mut self, key: RequestKey, response: R, wire_bytes: usize)
        requires
            old(self).wf(),
        ensures
            final(self).wf(),
            final(self).queue@ == remembered(old(self).queue@, CompletedResponse { key, response, wire_bytes }),
    {
        let ghost e = CompletedResponse { key, response, wire_bytes };
        if wire_bytes > MAX_COMPLETED_CACHE_BYTES {
            return;
        }
        let ghost q0 = self.queue@;
        while self.total_bytes + wire_bytes > MAX_COMPLETED_CACHE_BYTES || self.queue.len() >= MAX_COMPLETED_CACHE_ENTRIES
            invariant
                self.wf(),
                wire_bytes <= MAX_COMPLETED_CACHE_BYTES,
                evicted_for(self.queue@, wire_bytes as nat) == evicted_for(q0, wire_bytes as nat),
            decreases self.queue@.len(),
        {
            let ghost q = self.queue@;
            assert(q.len() > 0);
            let old_entry = self.queue.remove(0);
            proof {
                assert(self.queue@ =~= q.drop_first());
            }
            self.total_bytes = self.total_bytes - old_entry.wire_bytes;
        }
        proof {
            lemma_bytes_of_push(self.queue@, e);
        }
        self.total_bytes = self.total_bytes + wire_bytes;
        self.queue.push(CompletedResponse { key, response, wire_bytes });
    }

    /// The cached outcome of `key`, the oldest if several.
    pub fn replay(&self, key: &RequestKey) -> (r: Option<&R>)
        ensures
            r matches Some(x) ==> cached_at(self.queue@, key@) matches Some(i) && *x == self.queue@[i].response,
            r is None ==> cached_at(self.queue@, key@) is None,
    {
        let mut i: usize = 0;
        while i < self.queue.len()
            invariant
                i <= self.queue@.len(),
                forall|j: int| 0 <= j < i ==> (#[trigger] self.queue@[j]).key@ != key@,
            decreases self.queue@.len() - i,
        {
            if self.queue[i].key.same_as(key) {
                proof {
                    lemma_cached_at(self.queue@, key@, i as int);
                }
                return Some(&self.queue[i].response);
            }
            i = i + 1;
        }
        None
    }

    /// Whether an outcome of `key` is cached.
    pub fn has(&self, key: &RequestKey) -> (r: bool)
        ensures
            r == cached_at(self.queue@, key@) is Some,
    {
        match self.replay(key) {
            Some(_) => true,
            None => false,
        }
    }
}

/// A remembered entry respects both budgets.
pub proof fn lemma_remembered_bounds<R>(q: Seq<CompletedResponse<R>>, e: CompletedResponse<R>)
    requires
        bytes_of(q) <= MAX_COMPLETED_CACHE_BYTES,
        q.len() <= MAX_COMPLETED_CACHE_ENTRIES,
    ensures
        bytes_of(remembered(q, e)) <= MAX_COMPLETED_CACHE_BYTES,
        remembered(q, e).len() <= MAX_COMPLETED_CACHE_ENTRIES,
{
    if e.wire_bytes <= MAX_COMPLETED_CACHE_BYTES {
        lemma_evicted_bounds(q, e.wire_bytes as nat);
        lemma_bytes_of_push(evicted_for(q, e.wire_bytes as nat), e);
    }
}


proof fn lemma_evicted_suffix<R>(q: Seq<CompletedResponse<R>>, bytes: nat)
    ensures
        exists|n: int| 0 <= n <= q.len() && evicted_for(q, bytes) == q.subrange(n, q.len() as int),
    decreases q.len(),
{
    if q.len() > 0 && (bytes_of(q) + bytes > MAX_COMPLETED_CACHE_BYTES || q.len() >= MAX_COMPLETED_CACHE_ENTRIES) {
        lemma_evicted_suffix(q.drop_first(), bytes);
        let n = choose|n: int| 0 <= n <= q.drop_first().len() && evicted_for(q.drop_first(), bytes) == q.drop_first().subrange(n, q.drop_first().len() as int);
        assert(q.drop_first().subrange(n, q.drop_first().len() as int) =~= q.subrange(n + 1, q.len() as int));
    } else {
        assert(q.subrange(0, q.len() as int) =~= q);
    }
}

/// What a remember writes, a replay reads back: a response within the byte
/// budget is cached, and if its key had no cached outcome before, replaying
/// the key yields exactly that response.
pub proof fn lemma_remember_then_replay<R>(q: Seq<CompletedResponse<R>>, e: CompletedResponse<R>)
    requires
        e.wire_bytes <= MAX_COMPLETED_CACHE_BYTES,
    ensures
        cached_at(remembered(q, e), e.key@) is Some,
        cached_at(q, e.key@) is None ==> cached_at(remembered(q, e), e.key@) == Some(remembered(q, e).len() - 1)
            && remembered(q, e)[remembered(q, e).len() - 1].response == e.response,
{
    let r = remembered(q, e);
    let last = r.len() - 1;
    assert(r[last] == e);
    assert(exists|i: int| 0 <= i < r.len() && (#[trigger] r[i]).key@ == e.key@);
    if cached_at(q, e.key@) is None {
        lemma_evicted_suffix(q, e.wire_bytes as nat);
        let n = choose|n: int| 0 <= n <= q.len() && evicted_for(q, e.wire_bytes as nat) == q.subrange(n, q.len() as int);
        assert forall|j: int| 0 <= j < last implies (#[trigger] r[j]).key@ != e.key@ by {
            assert(r[j] == q[n + j]);
            if q[n + j].key@ == e.key@ {
                assert(exists|i: int| 0 <= i < q.len() && (#[trigger] q[i]).key@ == e.key@);
            }
        }
        lemma_cached_at(r, e.key@, last);
    }
}

/// Remembering `e` caches no key but its own: a key other than `e`'s with
/// no cached outcome still has none.
pub proof fn lemma_remembered_keeps_absent<R>(q: Seq<CompletedResponse<R>>, e: CompletedResponse<R>, k: (Seq<char>, u128))
    requires
        k != e.key@,
        cached_at(q, k) is None,
    ensures
        cached_at(remembered(q, e), k) is None,
{
    if e.wire_bytes <= MAX_COMPLETED_CACHE_BYTES {
        let r = remembered(q, e);
        lemma_evicted_suffix(q, e.wire_bytes as nat);
        let n = choose|n: int| 0 <= n <= q.len() && evicted_for(q, e.wire_bytes as nat) == q.subrange(n, q.len() as int);
        assert forall|j: int| 0 <= j < r.len() implies (#[trigger] r[j]).key@ != k by {
            if j < r.len() - 1 {
                assert(r[j] == q[n + j]);
                if q[n + j].key@ == k {
                    assert(exists|i: int| 0 <= i < q.len() && (#[trigger] q[i]).key@ == k);
                }
            } else {
                assert(r[j] == e);
            }
        }
    }
}

} // verus!
