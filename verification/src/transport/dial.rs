//! The decisions of an outbound dial to a peer: gather the addresses its
//! dial targets give, then try them in address order, each once, until one
//! connects, the dial is cancelled or the exchange budget runs out. The
//! resolving, dialing and clock reading happen outside; they report back
//! as events.
use vstd::prelude::*;

use crate::net::{SocketAddress, addr_lt, insert_addr, sorted_addrs};

verus! {

/// Why a dial to a peer failed; every such failure happens before any
/// payload byte is written.
#[derive(Debug, Clone, PartialEq, Eq)]
pub enum DialFailure {
    /// A configured locator failed to resolve, with this error text.
    Resolve(String),
    /// Resolving a configured locator ran out of budget.
    ResolveTimedOut,
    /// No budget was left to resolve this configured locator (its text).
    BudgetBeforeResolve(String),
    /// The dial was cancelled while a locator was resolving.
    CancelledWhileResolving,
    /// The dial was cancelled before an address was tried.
    Cancelled,
    /// No budget was left to dial this address.
    BudgetBeforeDial(SocketAddress),
    /// Dialing an address failed, with this error text.
    Dial(String),
    /// The peer has no usable dial target.
    NoTarget,
}

/// Whether a dial failure is an exhausted budget rather than an error.
pub open spec fn failure_timed_out(f: DialFailure) -> bool {
    match f {
        DialFailure::ResolveTimedOut | DialFailure::BudgetBeforeResolve(_) | DialFailure::BudgetBeforeDial(_) => true,
        _ => false,
    }
}

impl DialFailure {
    /// See `failure_timed_out`.
    pub fn timed_out(&self) -> (r: bool)
        ensures
            r == failure_timed_out(*self),
    {
        match self {
            DialFailure::ResolveTimedOut | DialFailure::BudgetBeforeResolve(_) | DialFailure::BudgetBeforeDial(_) => true,
            _ => false,
        }
    }
}

/// What the outside reports to a dial.
pub enum DialEvent {
    /// A dial target gave these addresses: an observed address, or what a
    /// configured locator resolved to.
    Resolved(Vec<SocketAddress>),
    /// A configured locator failed to resolve, with this error text.
    ResolveFailed(String),
    /// Resolving a configured locator ran out of budget.
    ResolveTimedOut,
    /// No budget was left to resolve this configured locator (its text).
    NoBudgetToResolve(String),
    /// The dial was cancelled while a locator was resolving.
    CancelledWhileResolving,
    /// Every dial target has been gathered.
    TargetsDone,
    /// Before the next address: whether the dial has been cancelled and
    /// whether any budget is left.
    Ready { cancelled: bool, budget_left: bool },
    /// Dialing the last address handed out failed, with this error text.
    DialFailed(String),
}

/// What the dial asks of the outside next.
#[derive(Debug, Clone, PartialEq, Eq)]
pub enum DialAction {
    /// Gather the next dial target.
    NextTarget,
    /// Report cancellation and budget (`Ready`).
    CheckReady,
    /// Dial this address; a connection ends the dial.
    Dial(SocketAddress),
    /// The dial failed.
    Fail(DialFailure),
    /// The event does not belong to the current phase; nothing changed.
    Ignore,
}

/// A dial in progress: whether it is still gathering targets, the
/// addresses gathered (in address order, each once), how many of them
/// were handed out to dial, and the last failure seen.
pub struct DialState {
    pub gathering: bool,
    pub addresses: Vec<SocketAddress>,
    pub next: usize,
    pub last_error: Option<DialFailure>,
}

impl DialState {
    /// The addresses are in address order, each once; none is handed out
    /// while gathering.
    pub open spec fn wf(&self) -> bool {
        &&& sorted_addrs(self.addresses@)
        &&& self.next <= self.addresses@.len()
        &&& self.gathering ==> self.next == 0
    }

    /// A dial that has gathered nothing yet.
    pub fn new() -> (s: DialState)
        ensures
            s.wf(),
            s.gathering,
            s.addresses@.len() == 0,
            s.next == 0,
            s.last_error is None,
    {
        DialState { gathering: true, addresses: Vec::new(), next: 0, last_error: None }
    }
}

/// The dial state `n` is `s` with the gathering over and `last_error`
/// set to `e`, its addresses unchanged and none handed out yet.
pub open spec fn gathering_ended(s: DialState, n: DialState, e: Option<DialFailure>) -> bool {
    &&& !n.gathering
    &&& n.addresses@ == s.addresses@
    &&& n.next == 0
    &&& n.last_error == e
}

/// The dial state `n` is `s` with `last_error` set to `e`.
pub open spec fn with_error(s: DialState, n: DialState, e: Option<DialFailure>) -> bool {
    &&& n.gathering == s.gathering
    &&& n.addresses@ == s.addresses@
    &&& n.next == s.next
    &&& n.last_error == e
}

/// One step of a dial on event `ev`, giving state `r.0` and action `r.1`.
///
/// While gathering: addresses join the ordered set and the next target is
/// asked for; a failed or timed-out resolution is remembered and the next
/// target asked for; running out of budget before a resolution, or a
/// cancellation during one, is remembered and ends the gathering, as does
/// the last target. Then, before each address: past the last address the
/// dial fails with the last failure seen (or `NoTarget`), which it hands
/// over; a cancelled dial
/// fails as `Cancelled`; without budget it fails as `BudgetBeforeDial` of
/// that address; otherwise the address is dialed, and its failure is
/// remembered before the next check. Events of the other phase change
/// nothing.
pub open spec fn dial_step_fits(s: DialState, ev: DialEvent, r: (DialState, DialAction)) -> bool {
    let n = r.0;
    let a = r.1;
    if s.gathering {
        match ev {
            DialEvent::Resolved(v) => {
                &&& n.gathering
                &&& n.next == 0
                &&& n.last_error == s.last_error
                &&& sorted_addrs(n.addresses@)
                &&& n.addresses@.to_set() == s.addresses@.to_set() + v@.to_set()
                &&& a == DialAction::NextTarget
            },
            DialEvent::ResolveFailed(t) => with_error(s, n, Some(DialFailure::Resolve(t))) && a == DialAction::NextTarget,
            DialEvent::ResolveTimedOut => with_error(s, n, Some(DialFailure::ResolveTimedOut)) && a == DialAction::NextTarget,
            DialEvent::NoBudgetToResolve(l) => gathering_ended(s, n, Some(DialFailure::BudgetBeforeResolve(l)))
                && a == DialAction::CheckReady,
            DialEvent::CancelledWhileResolving => gathering_ended(s, n, Some(DialFailure::CancelledWhileResolving))
                && a == DialAction::CheckReady,
            DialEvent::TargetsDone => gathering_ended(s, n, s.last_error) && a == DialAction::CheckReady,
            _ => with_error(s, n, s.last_error) && a == DialAction::Ignore,
        }
    } else {
        match ev {
            DialEvent::Ready { cancelled, budget_left } => if s.next >= s.addresses@.len() {
                with_error(s, n, None) && a == DialAction::Fail(
                    match s.last_error {
                        Some(e) => e,
                        None => DialFailure::NoTarget,
                    },
                )
            } else if cancelled {
                with_error(s, n, s.last_error) && a == DialAction::Fail(DialFailure::Cancelled)
            } else if !budget_left {
                let e = DialFailure::BudgetBeforeDial(s.addresses@[s.next as int]);
                with_error(s, n, Some(e)) && a == DialAction::Fail(e)
            } else {
                &&& !n.gathering
                &&& n.addresses@ == s.addresses@
                &&& n.next == s.next + 1
                &&& n.last_error == s.last_error
                &&& a == DialAction::Dial(s.addresses@[s.next as int])
            },
            DialEvent::DialFailed(t) => with_error(s, n, Some(DialFailure::Dial(t))) && a == DialAction::CheckReady,
            _ => with_error(s, n, s.last_error) && a == DialAction::Ignore,
        }
    }
}

/// One step of a dial (see `dial_step_fits`); it keeps the state well
/// formed, so every gathered address is dialed at most once, in address
/// order.
pub fn dial_step(s: DialState, ev: DialEvent) -> (r: (DialState, DialAction))
    requires
        s.wf(),
    ensures
        r.0.wf(),
        dial_step_fits(s, ev, r),
{
    let ghost s0 = s;
    let DialState { gathering, mut addresses, next, last_error } = s;
    if gathering {
        match ev {
            DialEvent::Resolved(v) => {
                let mut i: usize = 0;
                while i < v.len()
                    invariant
                        i <= v@.len(),
                        sorted_addrs(addresses@),
                        addresses@.to_set() == s0.addresses@.to_set() + v@.subrange(0, i as int).to_set(),
                    decreases v@.len() - i,
                {
                    insert_addr(&mut addresses, v[i]);
                    proof {
                        let p = v@.subrange(0, i as int);
                        assert(v@.subrange(0, i + 1) =~= p.push(v@[i as int]));
                        Seq::lemma_to_set_insert_commutes(p, v@[i as int]);
                        assert(p.push(v@[i as int]) =~= p + seq![v@[i as int]]);
                        assert(addresses@.to_set() =~= s0.addresses@.to_set() + v@.subrange(0, i + 1).to_set());
                    }
                    i = i + 1;
                }
                proof {
                    assert(v@.subrange(0, v@.len() as int) =~= v@);
                }
                (DialState { gathering: true, addresses, next: 0, last_error }, DialAction::NextTarget)
            },
            DialEvent::ResolveFailed(t) => (
                DialState { gathering: true, addresses, next, last_error: Some(DialFailure::Resolve(t)) },
                DialAction::NextTarget,
            ),
            DialEvent::ResolveTimedOut => (
                DialState { gathering: true, addresses, next, last_error: Some(DialFailure::ResolveTimedOut) },
                DialAction::NextTarget,
            ),
            DialEvent::NoBudgetToResolve(l) => (
                DialState { gathering: false, addresses, next: 0, last_error: Some(DialFailure::BudgetBeforeResolve(l)) },
                DialAction::CheckReady,
            ),
            DialEvent::CancelledWhileResolving => (
                DialState { gathering: false, addresses, next: 0, last_error: Some(DialFailure::CancelledWhileResolving) },
                DialAction::CheckReady,
            ),
            DialEvent::TargetsDone => (DialState { gathering: false, addresses, next: 0, last_error }, DialAction::CheckReady),
            _ => (DialState { gathering, addresses, next, last_error }, DialAction::Ignore),
        }
    } else {
        match ev {
            DialEvent::Ready { cancelled, budget_left } => {
                if next >= addresses.len() {
                    let e = match last_error {
                        Some(e) => e,
                        None => DialFailure::NoTarget,
                    };
                    (DialState { gathering, addresses, next, last_error: None }, DialAction::Fail(e))
                } else if cancelled {
                    (DialState { gathering, addresses, next, last_error }, DialAction::Fail(DialFailure::Cancelled))
                } else if !budget_left {
                    let addr = addresses[next];
                    (
                        DialState { gathering, addresses, next, last_error: Some(DialFailure::BudgetBeforeDial(addr)) },
                        DialAction::Fail(DialFailure::BudgetBeforeDial(addr)),
                    )
                } else {
                    let addr = addresses[next];
                    (DialState { gathering, addresses, next: next + 1, last_error }, DialAction::Dial(addr))
                }
            },
            DialEvent::DialFailed(t) => (
                DialState { gathering, addresses, next, last_error: Some(DialFailure::Dial(t)) },
                DialAction::CheckReady,
            ),
            _ => (DialState { gathering, addresses, next, last_error }, DialAction::Ignore),
        }
    }
}

/// Once gathering is over, every step keeps the ordered address list and
/// never moves the cursor back, and a dial hands out the address under the
/// cursor and moves past it: addresses are dialed in strictly increasing
/// address order, each at most once.
pub proof fn lemma_dials_move_forward(s: DialState, ev: DialEvent, r: (DialState, DialAction))
    requires
        s.wf(),
        !s.gathering,
        dial_step_fits(s, ev, r),
    ensures
        !r.0.gathering,
        r.0.addresses@ == s.addresses@,
        r.0.next >= s.next,
        r.1 matches DialAction::Dial(x) ==> r.0.next == s.next + 1 && x == s.addresses@[s.next as int]
            && forall|j: int| r.0.next <= j < r.0.addresses@.len() ==> addr_lt(x, #[trigger] r.0.addresses@[j]),
{
}

} // verus!
