use vstd::prelude::*;

verus! {

/// The most outgoing sessions kept at once.
pub const MAX_OUTGOING: u32 = 30;

/// What happens to the pool of active sessions.
#[derive(Debug, Clone, Copy, PartialEq, Eq)]
pub enum PoolEvent {
    /// A dialed peer completed its handshake.
    Connected,
    /// A session ended; `outgoing` tells whether this client had dialed it.
    Died { outgoing: bool },
}

/// The outgoing count after an event: a connection counts only while below
/// the cap, a death of an outgoing session frees a place.
pub open spec fn pool_step(n: nat, e: PoolEvent) -> nat {
    match e {
        PoolEvent::Connected => if n < 30 {
            n + 1
        } else {
            n
        },
        PoolEvent::Died { outgoing } => if outgoing && n > 0 {
            (n - 1) as nat
        } else {
            n
        },
    }
}

/// The outgoing count after a sequence of events.
pub open spec fn pool_run(n: nat, events: Seq<PoolEvent>) -> nat
    decreases events.len(),
{
    if events.len() == 0 {
        n
    } else {
        pool_run(pool_step(n, events[0]), events.drop_first())
    }
}

/// Whatever the events, the outgoing count never goes past the cap.
pub proof fn lemma_pool_cap(n: nat, events: Seq<PoolEvent>)
    requires
        n <= 30,
    ensures
        pool_run(n, events) <= 30,
    decreases events.len(),
{
    if events.len() > 0 {
        lemma_pool_cap(pool_step(n, events[0]), events.drop_first());
    }
}

/// The decisions of the peer-pool manager: how many outgoing sessions are
/// active, and whether another may be dialed.
#[derive(Debug, PartialEq, Eq)]
pub struct PeerPool {
    outgoing: u32,
}

impl PeerPool {
    /// The number of outgoing sessions.
    pub closed spec fn count(&self) -> nat {
        self.outgoing as nat
    }

    /// An empty pool.
    pub fn new() -> (r: PeerPool)
        ensures
            r.count() == 0,
    {
        PeerPool { outgoing: 0 }
    }

    /// The number of outgoing sessions.
    pub fn outgoing_count(&self) -> (r: u32)
        ensures
            r == self.count(),
    {
        self.outgoing
    }

    /// Whether another outgoing session may be dialed.
    pub fn should_dial(&self) -> (r: bool)
        ensures
            r == (self.count() < 30),
    {
        self.outgoing < MAX_OUTGOING
    }

    /// Records an event. Returns whether a connection was counted: one
    /// arriving at the cap is not, and the caller drops it.
    pub fn on_event(&mut self, e: PoolEvent) -> (r: bool)
        requires
            old(self).count() <= 30,
        ensures
            final(self).count() == pool_step(old(self).count(), e),
            final(self).count() <= 30,
            r == (e is Connected && old(self).count() < 30),
    {
        match e {
            PoolEvent::Connected => {
                if self.outgoing < MAX_OUTGOING {
                    self.outgoing = self.outgoing + 1;
                    true
                } else {
                    false
                }
            },
            PoolEvent::Died { outgoing } => {
                if outgoing && self.outgoing > 0 {
                    self.outgoing = self.outgoing - 1;
                }
                false
            },
        }
    }
}

/// What the tracker-refresh worker does next.
#[derive(Debug, Clone, Copy, PartialEq, Eq)]
pub enum RefreshAction {
    /// Wrap-up was signalled: end the worker.
    Stop,
    /// Wait one more second.
    Sleep,
    /// The interval has passed: announce again.
    Announce,
}

/// The tracker-refresh decision after `waited` seconds of an interval of
/// `interval` seconds: stop on wrap-up, else sleep until the interval has
/// passed, then announce.
pub fn refresh_action(waited: u32, interval: u32, wrap_up: bool) -> (r: RefreshAction)
    ensures
        r == if wrap_up {
            RefreshAction::Stop
        } else if waited < interval {
            RefreshAction::Sleep
        } else {
            RefreshAction::Announce
        },
{
    if wrap_up {
        RefreshAction::Stop
    } else if waited < interval {
        RefreshAction::Sleep
    } else {
        RefreshAction::Announce
    }
}

/// The position of the first session with the given peer id.
pub fn position_of_id(ids: &Vec<[u8; 20]>, id: &[u8; 20]) -> (r: Option<usize>)
    ensures
        match r {
            Some(i) => i < ids@.len() && ids@[i as int]@ == id@ && forall|j: int|
                0 <= j < i ==> ids@[j]@ != id@,
            None => forall|j: int| 0 <= j < ids@.len() ==> ids@[j]@ != id@,
        },
{
    let mut k: usize = 0;
    while k < ids.len()
        invariant
            k <= ids@.len(),
            forall|j: int| 0 <= j < k ==> ids@[j]@ != id@,
        decreases ids.len() - k,
    {
        if crate::digest::bytes_equal(&ids[k], id) {
            return Some(k);
        }
        k = k + 1;
    }
    None
}

} // verus!
