//! The server core behind the accept loop and the per-connection handlers:
//! the registry plus the accept loop's identity counter. Accepting a
//! connection derives a fresh identity and registers the peer; a read line
//! becomes a broadcast plan; a read failure or end of stream deregisters the
//! peer exactly once, and doing so again is a no-op.

use vstd::prelude::*;
use crate::broadcast::{plan_broadcast, plan_spec, views_of, Delivery};
use crate::frame::line_ok;
use crate::registry::{has_id, ids_of, unique_ids, without_id, PeerEntry, Registry};

verus! {

/// The shared server state: all live peers, and the next identity the
/// accept loop will hand out. Identities grow monotonically, so every
/// registered identity is below the counter and never reused.
pub struct Relay {
    registry: Registry,
    next_id: u64,
}

impl Relay {
    /// The registered peers as `(identity, address)` pairs, in order.
    pub closed spec fn model(self) -> Seq<PeerEntry> {
        self.registry.model()
    }

    /// The identity the next accepted connection will receive.
    pub closed spec fn upcoming(self) -> u64 {
        self.next_id
    }

    pub open spec fn wf(self) -> bool {
        unique_ids(self.model()) && (forall|i: int|
            0 <= i < self.model().len() ==> (#[trigger] self.model()[i]).0 < self.upcoming())
    }

    /// Room for one more identity; `u64` exhaustion is the only limit.
    pub open spec fn can_accept(self) -> bool {
        self.upcoming() < u64::MAX
    }

    pub fn new() -> (r: Relay)
        ensures
            r.model() == Seq::<PeerEntry>::empty(),
            r.wf(),
            r.upcoming() == 0,
    {
        Relay { registry: Registry::new(), next_id: 0 }
    }

    /// Whether one more connection can still get an identity.
    pub fn has_capacity(&self) -> (r: bool)
        ensures
            r == self.can_accept(),
    {
        self.next_id < u64::MAX
    }

    /// Accepting a connection: derives a stable fresh identity for the peer
    /// at `addr` and registers it, making it a broadcast target.
    pub fn on_accept(&mut self, addr: String) -> (id: u64)
        requires
            old(self).wf(),
            old(self).can_accept(),
        ensures
            final(self).wf(),
            id == old(self).upcoming(),
            !has_id(old(self).model(), id),
            final(self).model() == old(self).model().push((id, addr@)),
            final(self).upcoming() == id + 1,
    {
        let id = self.next_id;
        proof {
            let m = self.model();
            if has_id(m, id) {
                let i = choose|i: int| 0 <= i < m.len() && (#[trigger] m[i]).0 == id;
                assert(m[i].0 < id);
            }
        }
        self.registry.register(id, addr);
        self.next_id = id + 1;
        proof {
            let m1 = self.model();
            let m0 = old(self).model();
            assert forall|i: int| 0 <= i < m1.len() implies (#[trigger] m1[i]).0 < self.upcoming() by {
                if i < m0.len() {
                    assert(m1[i] == m0[i]);
                } else {
                    assert(m1[i] == (id, m1[i].1));
                }
            }
        }
        id
    }

    /// A complete line read from the registered peer `sender`: the handler
    /// forwards it to the broadcast engine, which plans one framed write for
    /// every other registered peer.
    pub fn on_line(&self, sender: u64, msg: &str) -> (plan: Vec<Delivery>)
        requires
            self.wf(),
            has_id(self.model(), sender),
            line_ok(msg@),
        ensures
            views_of(plan@) == plan_spec(self.model(), sender, msg@),
    {
        plan_broadcast(&self.registry, sender, msg)
    }

    /// A read failure or end of stream on the connection of `id`: the peer
    /// leaves the registry. Removing an already-absent peer is a no-op, so
    /// the disconnect path may race a voluntary shutdown.
    pub fn on_disconnect(&mut self, id: u64)
        requires
            old(self).wf(),
        ensures
            final(self).wf(),
            final(self).model() == without_id(old(self).model(), id),
            final(self).upcoming() == old(self).upcoming(),
    {
        let ghost m0 = self.model();
        self.registry.unregister(id);
        proof {
            crate::registry::lemma_without_id_unique(m0, id);
            let m1 = self.model();
            assert forall|i: int| 0 <= i < m1.len() implies (#[trigger] m1[i]).0 < self.upcoming() by {
                assert(has_id(m1, m1[i].0));
                assert(has_id(m0, m1[i].0));
                let j = choose|j: int| 0 <= j < m0.len() && (#[trigger] m0[j]).0 == m1[i].0;
            }
        }
    }

    /// Every currently-registered identity, for the broadcast engine's
    /// read-consistent fan-out and for bookkeeping.
    pub fn snapshot(&self) -> (r: Vec<u64>)
        ensures
            r@ == ids_of(self.model()),
    {
        self.registry.snapshot()
    }

    /// Whether the peer with identity `id` is currently registered.
    pub fn contains(&self, id: u64) -> (r: bool)
        ensures
            r == has_id(self.model(), id),
    {
        self.registry.contains(id)
    }

    /// How many peers are connected.
    pub fn len(&self) -> (n: usize)
        ensures
            n == self.model().len(),
    {
        self.registry.len()
    }

    /// The address registered for `id`, if it is connected.
    pub fn find_addr(&self, id: u64) -> (r: Option<String>)
        requires
            self.wf(),
        ensures
            match r {
                Some(a) => has_id(self.model(), id) && a@ == crate::registry::addr_in(
                    self.model(),
                    id,
                ),
                None => !has_id(self.model(), id),
            },
    {
        self.registry.find_addr(id)
    }
}

} // verus!
