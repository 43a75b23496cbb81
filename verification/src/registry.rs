//! The connection registry: the set of currently-attached peers, with
//! registration, idempotent removal, and a snapshot for broadcast fan-out.
//! Its model is a sequence of `(identity, address)` pairs in registration
//! order, with identities pairwise distinct.

use vstd::prelude::*;

verus! {

/// One connected participant: a stable numeric identity assigned at accept
/// time, and the network address used to label its messages.
pub struct Peer {
    pub id: u64,
    pub addr: String,
}

/// A registered peer as the specifications see it: identity and address.
pub type PeerEntry = (u64, Seq<char>);

/// The identities of a model, in registration order.
pub open spec fn ids_of(m: Seq<PeerEntry>) -> Seq<u64> {
    m.map(|i: int, p: PeerEntry| p.0)
}

/// Whether some registered peer carries the identity `id`.
pub open spec fn has_id(m: Seq<PeerEntry>, id: u64) -> bool {
    exists|i: int| 0 <= i < m.len() && (#[trigger] m[i]).0 == id
}

/// Identities are pairwise distinct: the registry invariant.
pub open spec fn unique_ids(m: Seq<PeerEntry>) -> bool {
    forall|i: int, j: int| 0 <= i < j < m.len() ==> (#[trigger] m[i]).0 != (#[trigger] m[j]).0
}

/// The model with every entry of identity `id` taken out, order kept.
pub open spec fn without_id(m: Seq<PeerEntry>, id: u64) -> Seq<PeerEntry>
    decreases m.len(),
{
    if m.len() == 0 {
        Seq::empty()
    } else if m.last().0 == id {
        without_id(m.drop_last(), id)
    } else {
        without_id(m.drop_last(), id).push(m.last())
    }
}

/// The address registered under `id` (the last one, where several occur;
/// under `unique_ids` there is at most one).
pub open spec fn addr_in(m: Seq<PeerEntry>, id: u64) -> Seq<char>
    decreases m.len(),
{
    if m.len() == 0 {
        Seq::empty()
    } else if m.last().0 == id {
        m.last().1
    } else {
        addr_in(m.drop_last(), id)
    }
}

/// The set of live peers. All bookkeeping (add, remove, snapshot) happens
/// here; callers serialize access around it and never hold it across a
/// blocking write.
pub struct Registry {
    peers: Vec<Peer>,
}

impl Registry {
    /// The registered peers as `(identity, address)` pairs, in order.
    pub closed spec fn model(self) -> Seq<PeerEntry> {
        self.peers@.map(|i: int, p: Peer| (p.id, p.addr@))
    }

    pub open spec fn wf(self) -> bool {
        unique_ids(self.model())
    }

    pub fn new() -> (r: Registry)
        ensures
            r.model() == Seq::<PeerEntry>::empty(),
            r.wf(),
    {
        let r = Registry { peers: Vec::new() };
        proof {
            assert(r.model() =~= Seq::<PeerEntry>::empty());
        }
        r
    }

    /// Inserts a peer; always succeeds. The peer becomes a broadcast target.
    pub fn register(&mut self, id: u64, addr: String)
        requires
            old(self).wf(),
            !has_id(old(self).model(), id),
        ensures
            final(self).model() == old(self).model().push((id, addr@)),
            final(self).wf(),
    {
        let ghost m0 = self.model();
        let ghost a: Seq<char> = addr@;
        self.peers.push(Peer { id, addr });
        proof {
            let m1 = self.model();
            assert(m1 =~= m0.push((id, a)));
            assert forall|i: int, j: int| 0 <= i < j < m1.len() implies (#[trigger] m1[i]).0
                != (#[trigger] m1[j]).0 by {
                if j < m0.len() {
                    assert(m1[i] == m0[i] && m1[j] == m0[j]);
                } else {
                    assert(m1[j].0 == id);
                    if m1[i].0 == id {
                        assert(m0[i].0 == id);
                        assert(has_id(m0, id));
                    }
                }
            }
        }
    }

    /// The index of the peer with identity `id`, if one is registered.
    fn index_of(&self, id: u64) -> (r: Option<usize>)
        ensures
            match r {
                Some(i) => i < self.model().len() && self.model()[i as int].0 == id,
                None => !has_id(self.model(), id),
            },
    {
        let ghost m = self.model();
        let n = self.peers.len();
        proof {
            assert(m.len() == n);
        }
        let mut i: usize = 0;
        while i < n
            invariant
                i <= n,
                n == self.peers@.len(),
                m == self.model(),
                m.len() == n,
                forall|j: int| 0 <= j < i ==> (#[trigger] m[j]).0 != id,
            decreases n - i,
        {
            if self.peers[i].id == id {
                proof {
                    assert(m[i as int].0 == id);
                }
                return Some(i);
            }
            i += 1;
        }
        proof {
            assert(!has_id(m, id));
        }
        None
    }

    /// Removes the peer with identity `id`; removing an absent peer is a
    /// no-op, not an error, so removal may race a voluntary shutdown.
    pub fn unregister(&mut self, id: u64)
        requires
            old(self).wf(),
        ensures
            final(self).model() == without_id(old(self).model(), id),
            final(self).wf(),
    {
        let ghost m0 = self.model();
        match self.index_of(id) {
            Some(i) => {
                self.peers.remove(i);
                proof {
                    let m1 = self.model();
                    assert(m1 =~= m0.remove(i as int));
                    lemma_without_id_at(m0, id, i as int);
                    assert(m0.remove(i as int) =~= m0.subrange(0, i as int) + m0.subrange(
                        i as int + 1,
                        m0.len() as int,
                    ));
                    assert(m1 =~= without_id(m0, id));
                    lemma_without_id_unique(m0, id);
                }
            },
            None => {
                proof {
                    lemma_without_id_absent(m0, id);
                }
            },
        }
    }

    /// Every currently-registered identity, in order: the read-consistent
    /// view the broadcast engine fans out over.
    pub fn snapshot(&self) -> (r: Vec<u64>)
        ensures
            r@ == ids_of(self.model()),
    {
        let ghost m = self.model();
        let n = self.peers.len();
        proof {
            assert(m.len() == n);
            assert(ids_of(m).len() == n);
        }
        let mut r: Vec<u64> = Vec::new();
        let mut i: usize = 0;
        while i < n
            invariant
                i <= n,
                n == self.peers@.len(),
                m == self.model(),
                m.len() == n,
                ids_of(m).len() == n,
                r@ == ids_of(m).subrange(0, i as int),
            decreases n - i,
        {
            r.push(self.peers[i].id);
            proof {
                assert(ids_of(m)[i as int] == m[i as int].0);
                assert(r@ =~= ids_of(m).subrange(0, i as int + 1));
            }
            i += 1;
        }
        proof {
            assert(ids_of(m).subrange(0, n as int) =~= ids_of(m));
        }
        r
    }

    /// How many peers are registered.
    pub fn len(&self) -> (n: usize)
        ensures
            n == self.model().len(),
    {
        proof {
            assert(self.model().len() == self.peers@.len());
        }
        self.peers.len()
    }

    /// The identity registered at position `i`.
    pub fn id_at(&self, i: usize) -> (id: u64)
        requires
            i < self.model().len(),
        ensures
            id == self.model()[i as int].0,
    {
        proof {
            assert(self.model().len() == self.peers@.len());
            assert(self.model()[i as int] == (self.peers@[i as int].id, self.peers@[i as int].addr@));
        }
        self.peers[i].id
    }

    /// The address of the peer registered under `id`, if any.
    pub fn find_addr(&self, id: u64) -> (r: Option<String>)
        requires
            self.wf(),
        ensures
            match r {
                Some(a) => has_id(self.model(), id) && a@ == addr_in(self.model(), id),
                None => !has_id(self.model(), id),
            },
    {
        match self.index_of(id) {
            Some(i) => {
                proof {
                    assert(self.model()[i as int].0 == id);
                    lemma_addr_in_at(self.model(), id, i as int);
                    assert(self.model()[i as int] == (
                        self.peers@[i as int].id,
                        self.peers@[i as int].addr@,
                    ));
                }
                Some(self.peers[i].addr.clone())
            },
            None => None,
        }
    }

    /// Whether the peer with identity `id` is registered.
    pub fn contains(&self, id: u64) -> (r: bool)
        ensures
            r == has_id(self.model(), id),
    {
        match self.index_of(id) {
            Some(i) => {
                proof {
                    assert(self.model()[i as int].0 == id);
                }
                true
            },
            None => false,
        }
    }
}

/// Under distinct identities, the address looked up for `id` is the address
/// stored at any index that carries `id`.
pub proof fn lemma_addr_in_at(m: Seq<PeerEntry>, id: u64, k: int)
    requires
        unique_ids(m),
        0 <= k < m.len(),
        m[k].0 == id,
    ensures
        addr_in(m, id) == m[k].1,
    decreases m.len(),
{
    if k == m.len() - 1 {
        assert(m.last() == m[k]);
    } else {
        assert(m.last().0 != id) by {
            assert(m[m.len() - 1] == m.last());
            assert(m[k].0 != m[m.len() - 1].0);
        }
        let d = m.drop_last();
        assert forall|i: int, j: int| 0 <= i < j < d.len() implies (#[trigger] d[i]).0
            != (#[trigger] d[j]).0 by {
            assert(d[i] == m[i] && d[j] == m[j]);
        }
        assert(d[k] == m[k]);
        lemma_addr_in_at(d, id, k);
    }
}

/// Removal of an identity that is not registered changes nothing.
pub proof fn lemma_without_id_absent(m: Seq<PeerEntry>, id: u64)
    requires
        !has_id(m, id),
    ensures
        without_id(m, id) == m,
    decreases m.len(),
{
    if m.len() == 0 {
        assert(without_id(m, id) =~= m);
    } else {
        assert(m.drop_last() =~= m.subrange(0, m.len() - 1));
        assert forall|i: int| 0 <= i < m.drop_last().len() implies (#[trigger] m.drop_last()[i]).0
            != id by {
            assert(m.drop_last()[i] == m[i]);
        }
        lemma_without_id_absent(m.drop_last(), id);
        assert(m.last().0 != id) by {
            assert(m[m.len() - 1] == m.last());
        }
        assert(without_id(m, id) == m.drop_last().push(m.last()));
        assert(m.drop_last().push(m.last()) =~= m);
    }
}

/// Under distinct identities, removing `id` found at index `k` deletes
/// exactly the entry at `k` and keeps every other entry, order unchanged.
pub proof fn lemma_without_id_at(m: Seq<PeerEntry>, id: u64, k: int)
    requires
        unique_ids(m),
        0 <= k < m.len(),
        m[k].0 == id,
    ensures
        without_id(m, id) == m.subrange(0, k) + m.subrange(k + 1, m.len() as int),
    decreases m.len(),
{
    if k == m.len() - 1 {
        assert forall|i: int| 0 <= i < m.drop_last().len() implies (#[trigger] m.drop_last()[i]).0
            != id by {
            assert(m.drop_last()[i] == m[i]);
            assert(m[i].0 != m[k].0);
        }
        assert(!has_id(m.drop_last(), id));
        lemma_without_id_absent(m.drop_last(), id);
        assert(m.last().0 == id) by {
            assert(m.last() == m[k]);
        }
        assert(without_id(m, id) == m.drop_last());
        assert(m.drop_last() =~= m.subrange(0, k) + m.subrange(k + 1, m.len() as int));
    } else {
        let d = m.drop_last();
        assert forall|i: int, j: int| 0 <= i < j < d.len() implies (#[trigger] d[i]).0
            != (#[trigger] d[j]).0 by {
            assert(d[i] == m[i] && d[j] == m[j]);
        }
        assert(d[k] == m[k]);
        lemma_without_id_at(d, id, k);
        assert(m.last().0 != id) by {
            assert(m[m.len() - 1] == m.last());
            assert(m[k].0 != m[m.len() - 1].0);
        }
        assert(without_id(m, id) == without_id(d, id).push(m.last()));
        assert(without_id(d, id).push(m.last()) =~= m.subrange(0, k) + m.subrange(
            k + 1,
            m.len() as int,
        )) by {
            assert(without_id(d, id) == d.subrange(0, k) + d.subrange(k + 1, d.len() as int));
            assert forall|i: int| 0 <= i < d.subrange(0, k).len() implies d.subrange(0, k)[i]
                == m.subrange(0, k)[i] by {
                assert(d.subrange(0, k)[i] == m[i]);
            }
        }
    }
}

/// Removal keeps identities pairwise distinct.
pub proof fn lemma_without_id_unique(m: Seq<PeerEntry>, id: u64)
    requires
        unique_ids(m),
    ensures
        unique_ids(without_id(m, id)),
        forall|x: u64| has_id(without_id(m, id), x) ==> has_id(m, x),
    decreases m.len(),
{
    let w = without_id(m, id);
    if m.len() == 0 {
    } else {
        let d = m.drop_last();
        assert forall|i: int, j: int| 0 <= i < j < d.len() implies (#[trigger] d[i]).0
            != (#[trigger] d[j]).0 by {
            assert(d[i] == m[i] && d[j] == m[j]);
        }
        lemma_without_id_unique(d, id);
        assert forall|x: u64| has_id(without_id(d, id), x) implies has_id(m, x) by {
            assert(has_id(d, x));
            let i = choose|i: int| 0 <= i < d.len() && (#[trigger] d[i]).0 == x;
            assert(m[i].0 == x);
        }
        if m.last().0 == id {
        } else {
            let wd = without_id(d, id);
            assert(w == wd.push(m.last()));
            assert forall|i: int, j: int| 0 <= i < j < w.len() implies (#[trigger] w[i]).0
                != (#[trigger] w[j]).0 by {
                if j < wd.len() {
                    assert(w[i] == wd[i] && w[j] == wd[j]);
                } else {
                    assert(w[j] == m.last());
                    assert(w[i] == wd[i]);
                    if wd[i].0 == m.last().0 {
                        assert(has_id(wd, m.last().0));
                        assert(has_id(d, m.last().0));
                        let t = choose|t: int| 0 <= t < d.len() && (#[trigger] d[t]).0
                            == m.last().0;
                        assert(m[t].0 == m[m.len() - 1].0);
                    }
                }
            }
            assert forall|x: u64| has_id(w, x) implies has_id(m, x) by {
                let i = choose|i: int| 0 <= i < w.len() && (#[trigger] w[i]).0 == x;
                if i < wd.len() {
                    assert(wd[i].0 == x);
                    assert(has_id(wd, x));
                } else {
                    assert(w[i] == m.last());
                    assert(m[m.len() - 1].0 == x);
                }
            }
        }
    }
}

/// Registry correctness: after any run of registrations that left the
/// identities distinct, unregistering one registered peer leaves exactly one
/// member fewer, the unregistered identity is gone, and every other
/// registered identity is kept.
pub proof fn lemma_unregister_removes_one(m: Seq<PeerEntry>, id: u64)
    requires
        unique_ids(m),
        has_id(m, id),
    ensures
        without_id(m, id).len() == m.len() - 1,
        !has_id(without_id(m, id), id),
        forall|x: u64| x != id ==> (has_id(without_id(m, id), x) <==> has_id(m, x)),
        ids_of(without_id(m, id)) == ids_of(m).remove(choose|k: int|
            0 <= k < m.len() && (#[trigger] m[k]).0 == id),
{
    let k = choose|k: int| 0 <= k < m.len() && (#[trigger] m[k]).0 == id;
    lemma_without_id_at(m, id, k);
    let w = without_id(m, id);
    assert(w.len() == m.len() - 1);
    assert forall|i: int| 0 <= i < w.len() implies (#[trigger] w[i]).0 != id by {
        if i < k {
            assert(w[i] == m[i]);
            assert(m[i].0 != m[k].0);
        } else {
            assert(w[i] == m[i + 1]);
            assert(m[i + 1].0 != m[k].0);
        }
    }
    assert forall|x: u64| x != id && has_id(m, x) implies has_id(w, x) by {
        let i = choose|i: int| 0 <= i < m.len() && (#[trigger] m[i]).0 == x;
        if i < k {
            assert(w[i] == m[i]);
        } else {
            assert(i != k);
            assert(w[i - 1] == m[i]);
        }
    }
    assert forall|x: u64| x != id && has_id(w, x) implies has_id(m, x) by {
        let i = choose|i: int| 0 <= i < w.len() && (#[trigger] w[i]).0 == x;
        if i < k {
            assert(w[i] == m[i]);
        } else {
            assert(w[i] == m[i + 1]);
        }
    }
    assert(ids_of(w) =~= ids_of(m).remove(k));
}

/// Eventual deregistration, stated over the model: once an identity has been
/// removed, it stays absent under further removals and under registrations
/// of other identities, and removing it again changes nothing.
pub proof fn lemma_unregister_is_lasting(m: Seq<PeerEntry>, id: u64, p: PeerEntry, other: u64)
    requires
        p.0 != id,
        other != id,
    ensures
        !has_id(without_id(m, id), id),
        without_id(without_id(m, id), id) == without_id(m, id),
        !has_id(without_id(m, id).push(p), id),
        !has_id(without_id(without_id(m, id), other), id),
{
    let w = without_id(m, id);
    lemma_without_id_never_has(m, id);
    lemma_without_id_absent(w, id);
    assert forall|i: int| 0 <= i < w.push(p).len() implies (#[trigger] w.push(p)[i]).0 != id by {
        if i < w.len() {
            assert(w.push(p)[i] == w[i]);
        } else {
            assert(w.push(p)[i] == p);
        }
    }
    lemma_without_id_keeps_absent(w, other, id);
}

/// No entry of `without_id(m, id)` carries the identity `id`.
pub proof fn lemma_without_id_never_has(m: Seq<PeerEntry>, id: u64)
    ensures
        !has_id(without_id(m, id), id),
    decreases m.len(),
{
    if m.len() == 0 {
    } else {
        lemma_without_id_never_has(m.drop_last(), id);
        let wd = without_id(m.drop_last(), id);
        if m.last().0 != id {
            assert forall|i: int| 0 <= i < wd.push(m.last()).len() implies (#[trigger] wd.push(
                m.last(),
            )[i]).0 != id by {
                if i < wd.len() {
                    assert(wd.push(m.last())[i] == wd[i]);
                } else {
                    assert(wd.push(m.last())[i] == m.last());
                }
            }
        }
    }
}

/// Removing one identity does not make another identity appear.
pub proof fn lemma_without_id_keeps_absent(m: Seq<PeerEntry>, removed: u64, id: u64)
    requires
        !has_id(m, id),
    ensures
        !has_id(without_id(m, removed), id),
    decreases m.len(),
{
    if m.len() == 0 {
    } else {
        let d = m.drop_last();
        assert forall|i: int| 0 <= i < d.len() implies (#[trigger] d[i]).0 != id by {
            assert(d[i] == m[i]);
        }
        lemma_without_id_keeps_absent(d, removed, id);
        let wd = without_id(d, removed);
        if m.last().0 != removed {
            assert(m.last().0 != id) by {
                assert(m[m.len() - 1] == m.last());
            }
            assert forall|i: int| 0 <= i < wd.push(m.last()).len() implies (#[trigger] wd.push(
                m.last(),
            )[i]).0 != id by {
                if i < wd.len() {
                    assert(wd.push(m.last())[i] == wd[i]);
                } else {
                    assert(wd.push(m.last())[i] == m.last());
                }
            }
        }
    }
}

} // verus!
