//! The broadcast engine. From a registry snapshot, a sender and a message it
//! plans one framed write per registered peer other than the sender; the
//! caller performs the writes and reports each outcome, and a per-peer
//! failure never disturbs delivery to the remaining peers.

use vstd::prelude::*;
use crate::frame::{frame_spec, line_ok};
use crate::registry::{addr_in, has_id, ids_of, unique_ids, PeerEntry, Registry};

verus! {

/// One planned write of a broadcast fan-out: the frame that the peer with
/// identity `peer` is to receive.
#[derive(Clone)]
pub struct Delivery {
    pub peer: u64,
    pub frame: String,
}

/// A sequence of deliveries as the specifications see it.
pub open spec fn views_of(s: Seq<Delivery>) -> Seq<(u64, Seq<char>)> {
    s.map(|i: int, d: Delivery| (d.peer, d.frame@))
}

/// One entry `(identity, frame)` per peer of `m` other than `sender`, in
/// registration order.
pub open spec fn plan_to(m: Seq<PeerEntry>, sender: u64, frame: Seq<char>) -> Seq<(u64, Seq<char>)>
    decreases m.len(),
{
    if m.len() == 0 {
        Seq::empty()
    } else if m.last().0 == sender {
        plan_to(m.drop_last(), sender, frame)
    } else {
        plan_to(m.drop_last(), sender, frame).push((m.last().0, frame))
    }
}

/// The full broadcast plan: every peer of `m` other than `sender` receives
/// the frame that carries the sender's address and the message.
pub open spec fn plan_spec(m: Seq<PeerEntry>, sender: u64, msg: Seq<char>) -> Seq<(u64, Seq<char>)> {
    plan_to(m, sender, frame_spec(addr_in(m, sender), msg))
}

/// Plans the fan-out of `msg` from the registered peer `sender`: one framed
/// write for every other registered peer, the sender excluded.
pub fn plan_broadcast(reg: &Registry, sender: u64, msg: &str) -> (plan: Vec<Delivery>)
    requires
        reg.wf(),
        has_id(reg.model(), sender),
        line_ok(msg@),
    ensures
        views_of(plan@) == plan_spec(reg.model(), sender, msg@),
{
    let ghost m = reg.model();
    let addr = reg.find_addr(sender).unwrap();
    let frame_text = crate::frame::frame_line(addr.as_str(), msg);
    let ghost f = frame_text@;
    let n = reg.len();
    let mut plan: Vec<Delivery> = Vec::new();
    let mut i: usize = 0;
    proof {
        assert(views_of(plan@) =~= plan_to(m.take(0), sender, f));
    }
    while i < n
        invariant
            i <= n,
            n == m.len(),
            m == reg.model(),
            reg.wf(),
            f == frame_text@,
            views_of(plan@) == plan_to(m.take(i as int), sender, f),
        decreases n - i,
    {
        let id = reg.id_at(i);
        let ghost plan_pre = plan@;
        if id != sender {
            plan.push(Delivery { peer: id, frame: frame_text.clone() });
        }
        proof {
            assert(m.take(i + 1).drop_last() =~= m.take(i as int));
            assert(m.take(i + 1).last() == m[i as int]);
            if id != sender {
                assert(views_of(plan@) =~= views_of(plan_pre).push((id, f)));
            }
        }
        i += 1;
    }
    proof {
        assert(m.take(n as int) =~= m);
        assert(plan_spec(m, sender, msg@) == plan_to(m, sender, f));
    }
    plan
}

/// The identities that received their write, in plan order: entry `i` of the
/// plan is delivered exactly when outcome `i` reports success.
pub open spec fn delivered_spec(p: Seq<(u64, Seq<char>)>, ok: Seq<bool>) -> Seq<u64>
    decreases p.len(),
{
    if p.len() == 0 || p.len() != ok.len() {
        Seq::empty()
    } else if ok.last() {
        delivered_spec(p.drop_last(), ok.drop_last()).push(p.last().0)
    } else {
        delivered_spec(p.drop_last(), ok.drop_last())
    }
}

/// Carries a plan through given per-write outcomes: every write is
/// attempted, a failed one is skipped, and the identities whose write
/// succeeded come back in plan order. A failure aborts nothing.
pub fn deliver_all(plan: &Vec<Delivery>, ok: &Vec<bool>) -> (delivered: Vec<u64>)
    requires
        ok@.len() == plan@.len(),
    ensures
        delivered@ == delivered_spec(views_of(plan@), ok@),
{
    let ghost vp = views_of(plan@);
    let n = plan.len();
    proof {
        assert(vp.len() == n);
    }
    let mut delivered: Vec<u64> = Vec::new();
    let mut i: usize = 0;
    proof {
        assert(delivered@ =~= delivered_spec(vp.take(0), ok@.take(0)));
    }
    while i < n
        invariant
            i <= n,
            n == plan@.len(),
            n == ok@.len(),
            vp == views_of(plan@),
            vp.len() == n,
            delivered@ == delivered_spec(vp.take(i as int), ok@.take(i as int)),
        decreases n - i,
    {
        if ok[i] {
            delivered.push(plan[i].peer);
        }
        proof {
            assert(vp.take(i + 1).drop_last() =~= vp.take(i as int));
            assert(ok@.take(i + 1).drop_last() =~= ok@.take(i as int));
            assert(vp.take(i + 1).last() == vp[i as int]);
            assert(ok@.take(i + 1).last() == ok@[i as int]);
            assert(vp[i as int].0 == plan@[i as int].peer);
        }
        i += 1;
    }
    proof {
        assert(vp.take(n as int) =~= vp);
        assert(ok@.take(n as int) =~= ok@);
    }
    delivered
}

/// How many entries of a plan target the identity `x`.
pub open spec fn count_for(p: Seq<(u64, Seq<char>)>, x: u64) -> nat
    decreases p.len(),
{
    if p.len() == 0 {
        0
    } else {
        count_for(p.drop_last(), x) + (if p.last().0 == x {
            1nat
        } else {
            0nat
        })
    }
}

/// The frames a plan holds for the identity `x`, in plan order.
pub open spec fn frames_to(p: Seq<(u64, Seq<char>)>, x: u64) -> Seq<Seq<char>>
    decreases p.len(),
{
    if p.len() == 0 {
        Seq::empty()
    } else if p.last().0 == x {
        frames_to(p.drop_last(), x).push(p.last().1)
    } else {
        frames_to(p.drop_last(), x)
    }
}

proof fn lemma_unique_drop_last(m: Seq<PeerEntry>)
    requires
        unique_ids(m),
        m.len() > 0,
    ensures
        unique_ids(m.drop_last()),
        forall|x: u64| has_id(m.drop_last(), x) ==> has_id(m, x),
        forall|x: u64|
            has_id(m, x) && x != m.last().0 ==> has_id(m.drop_last(), x),
        !has_id(m.drop_last(), m.last().0),
{
    let d = m.drop_last();
    assert forall|i: int, j: int| 0 <= i < j < d.len() implies (#[trigger] d[i]).0
        != (#[trigger] d[j]).0 by {
        assert(d[i] == m[i] && d[j] == m[j]);
    }
    assert forall|x: u64| has_id(d, x) implies has_id(m, x) by {
        let i = choose|i: int| 0 <= i < d.len() && (#[trigger] d[i]).0 == x;
        assert(m[i].0 == x);
    }
    assert forall|x: u64| has_id(m, x) && x != m.last().0 implies has_id(d, x) by {
        let i = choose|i: int| 0 <= i < m.len() && (#[trigger] m[i]).0 == x;
        assert(m[m.len() - 1] == m.last());
        assert(i < m.len() - 1);
        assert(d[i].0 == x);
    }
    assert forall|i: int| 0 <= i < d.len() implies (#[trigger] d[i]).0 != m.last().0 by {
        assert(d[i] == m[i]);
        assert(m[m.len() - 1] == m.last());
        assert(m[i].0 != m[m.len() - 1].0);
    }
}

proof fn lemma_plan_to_counts(m: Seq<PeerEntry>, sender: u64, f: Seq<char>, x: u64)
    requires
        unique_ids(m),
    ensures
        x == sender ==> count_for(plan_to(m, sender, f), x) == 0,
        x != sender && has_id(m, x) ==> count_for(plan_to(m, sender, f), x) == 1,
        !has_id(m, x) ==> count_for(plan_to(m, sender, f), x) == 0,
    decreases m.len(),
{
    if m.len() == 0 {
    } else {
        lemma_unique_drop_last(m);
        let d = m.drop_last();
        lemma_plan_to_counts(d, sender, f, x);
        let sub = plan_to(d, sender, f);
        if m.last().0 != sender {
            assert(plan_to(m, sender, f) == sub.push((m.last().0, f)));
            assert(sub.push((m.last().0, f)).drop_last() =~= sub);
            assert(count_for(sub.push((m.last().0, f)), x) == count_for(sub, x) + (
            if m.last().0 == x {
                1nat
            } else {
                0nat
            }));
            if m.last().0 == x {
                assert(m[m.len() - 1] == m.last());
                assert(has_id(m, x));
            }
        }
        if has_id(m, x) && x != m.last().0 {
            assert(has_id(d, x));
        }
    }
}

proof fn lemma_plan_to_frames(m: Seq<PeerEntry>, sender: u64, f: Seq<char>)
    ensures
        forall|i: int|
            0 <= i < plan_to(m, sender, f).len() ==> (#[trigger] plan_to(m, sender, f)[i]).1 == f,
        forall|i: int|
            0 <= i < plan_to(m, sender, f).len() ==> (#[trigger] plan_to(m, sender, f)[i]).0
                != sender,
    decreases m.len(),
{
    if m.len() == 0 {
    } else {
        lemma_plan_to_frames(m.drop_last(), sender, f);
        let sub = plan_to(m.drop_last(), sender, f);
        if m.last().0 != sender {
            assert forall|i: int| 0 <= i < plan_to(m, sender, f).len() implies (
            #[trigger] plan_to(m, sender, f)[i]).1 == f && plan_to(m, sender, f)[i].0 != sender by {
                if i < sub.len() {
                    assert(plan_to(m, sender, f)[i] == sub[i]);
                } else {
                    assert(plan_to(m, sender, f)[i] == (m.last().0, f));
                }
            }
        }
    }
}

/// No-echo, exactly once: the plan for a broadcast from a registered sender
/// targets every other registered peer exactly once, never the sender,
/// never an unregistered identity, and every planned frame is the sender's
/// frame for this message.
pub proof fn lemma_broadcast_exactly_once(m: Seq<PeerEntry>, sender: u64, msg: Seq<char>)
    requires
        unique_ids(m),
        has_id(m, sender),
    ensures
        count_for(plan_spec(m, sender, msg), sender) == 0,
        forall|x: u64|
            x != sender && has_id(m, x) ==> count_for(plan_spec(m, sender, msg), x) == 1,
        forall|x: u64| !has_id(m, x) ==> count_for(plan_spec(m, sender, msg), x) == 0,
        forall|i: int|
            0 <= i < plan_spec(m, sender, msg).len() ==> (#[trigger] plan_spec(m, sender, msg)[i]).1
                == frame_spec(addr_in(m, sender), msg),
        forall|i: int|
            0 <= i < plan_spec(m, sender, msg).len() ==> (#[trigger] plan_spec(m, sender, msg)[i]).0
                != sender,
{
    let f = frame_spec(addr_in(m, sender), msg);
    assert forall|x: u64| x != sender && has_id(m, x) implies count_for(plan_to(m, sender, f), x)
        == 1 by {
        lemma_plan_to_counts(m, sender, f, x);
    }
    assert forall|x: u64| !has_id(m, x) implies count_for(plan_to(m, sender, f), x) == 0 by {
        lemma_plan_to_counts(m, sender, f, x);
    }
    lemma_plan_to_counts(m, sender, f, sender);
    lemma_plan_to_frames(m, sender, f);
}

/// When every write of a fan-out succeeds, exactly the planned recipients
/// receive the message, in plan order; with `lemma_broadcast_exactly_once`,
/// a broadcast whose writes all succeed reaches every other registered peer
/// exactly once and never its sender.
pub proof fn lemma_all_ok_delivers(p: Seq<(u64, Seq<char>)>, ok: Seq<bool>)
    requires
        p.len() == ok.len(),
        forall|i: int| 0 <= i < ok.len() ==> ok[i],
    ensures
        delivered_spec(p, ok) == ids_of(p),
    decreases p.len(),
{
    if p.len() == 0 {
        assert(delivered_spec(p, ok) =~= ids_of(p));
    } else {
        assert(ok.last());
        assert forall|i: int| 0 <= i < ok.drop_last().len() implies ok.drop_last()[i] by {
            assert(ok.drop_last()[i] == ok[i]);
        }
        lemma_all_ok_delivers(p.drop_last(), ok.drop_last());
        assert(delivered_spec(p, ok) == ids_of(p.drop_last()).push(p.last().0));
        assert(ids_of(p.drop_last()).push(p.last().0) =~= ids_of(p));
    }
}

/// Fault isolation: when the write to one recipient of a fan-out to K peers
/// fails and every other write succeeds, exactly the remaining K-1
/// recipients receive the message — the failure aborts nothing.
pub proof fn lemma_fault_isolation(p: Seq<(u64, Seq<char>)>, ok: Seq<bool>, j: int)
    requires
        p.len() == ok.len(),
        0 <= j < p.len(),
        !ok[j],
        forall|i: int| 0 <= i < p.len() && i != j ==> ok[i],
    ensures
        delivered_spec(p, ok) == ids_of(p).remove(j),
        delivered_spec(p, ok).len() == p.len() - 1,
        forall|i: int|
            0 <= i < p.len() && i != j ==> delivered_spec(p, ok).contains(p[i].0),
    decreases p.len(),
{
    let l = p.len() - 1;
    let res = delivered_spec(p, ok);
    if j == l {
        assert(ok[l] == ok.last());
        assert forall|i: int| 0 <= i < ok.drop_last().len() implies ok.drop_last()[i] by {
            assert(ok.drop_last()[i] == ok[i]);
        }
        lemma_all_ok_delivers(p.drop_last(), ok.drop_last());
        assert(res == ids_of(p.drop_last()));
        assert(ids_of(p.drop_last()) =~= ids_of(p).remove(j));
    } else {
        assert(ok.last()) by {
            assert(ok[l]);
        }
        assert(p.drop_last().len() == ok.drop_last().len());
        assert(!ok.drop_last()[j]) by {
            assert(ok.drop_last()[j] == ok[j]);
        }
        assert forall|i: int| 0 <= i < p.drop_last().len() && i != j implies ok.drop_last()[i] by {
            assert(ok.drop_last()[i] == ok[i]);
        }
        lemma_fault_isolation(p.drop_last(), ok.drop_last(), j);
        assert(res == ids_of(p.drop_last()).remove(j).push(p.last().0));
        assert(ids_of(p.drop_last()).remove(j).push(p.last().0) =~= ids_of(p).remove(j));
    }
    assert(ids_of(p).remove(j).len() == p.len() - 1);
    assert forall|i: int| 0 <= i < p.len() && i != j implies res.contains(p[i].0) by {
        if i < j {
            assert(res[i] == ids_of(p).remove(j)[i]);
            assert(ids_of(p).remove(j)[i] == ids_of(p)[i]);
            assert(ids_of(p)[i] == p[i].0);
        } else {
            assert(res[i - 1] == ids_of(p).remove(j)[i - 1]);
            assert(ids_of(p).remove(j)[i - 1] == ids_of(p)[i]);
            assert(ids_of(p)[i] == p[i].0);
        }
    }
}

proof fn lemma_frames_to_add(a: Seq<(u64, Seq<char>)>, b: Seq<(u64, Seq<char>)>, x: u64)
    ensures
        frames_to(a + b, x) == frames_to(a, x) + frames_to(b, x),
    decreases b.len(),
{
    if b.len() == 0 {
        assert(a + b =~= a);
        assert(frames_to(b, x) =~= Seq::<Seq<char>>::empty());
        assert(frames_to(a, x) + frames_to(b, x) =~= frames_to(a, x));
    } else {
        assert((a + b).drop_last() =~= a + b.drop_last());
        assert((a + b).last() == b.last());
        lemma_frames_to_add(a, b.drop_last(), x);
        if b.last().0 == x {
            assert(frames_to(a + b, x) == (frames_to(a, x) + frames_to(b.drop_last(), x)).push(
                b.last().1,
            ));
            assert((frames_to(a, x) + frames_to(b.drop_last(), x)).push(b.last().1) =~= frames_to(
                a,
                x,
            ) + frames_to(b.drop_last(), x).push(b.last().1));
        }
    }
}

proof fn lemma_plan_to_frames_absent(m: Seq<PeerEntry>, sender: u64, f: Seq<char>, x: u64)
    requires
        !has_id(m, x),
    ensures
        frames_to(plan_to(m, sender, f), x) == Seq::<Seq<char>>::empty(),
    decreases m.len(),
{
    if m.len() == 0 {
        assert(frames_to(plan_to(m, sender, f), x) =~= Seq::<Seq<char>>::empty());
    } else {
        let d = m.drop_last();
        assert forall|i: int| 0 <= i < d.len() implies (#[trigger] d[i]).0 != x by {
            assert(d[i] == m[i]);
        }
        lemma_plan_to_frames_absent(d, sender, f, x);
        if m.last().0 != sender {
            assert(m.last().0 != x) by {
                assert(m[m.len() - 1] == m.last());
            }
            let sub = plan_to(d, sender, f);
            assert(plan_to(m, sender, f) == sub.push((m.last().0, f)));
            assert(sub.push((m.last().0, f)).drop_last() =~= sub);
            assert(sub.push((m.last().0, f)).last() == (m.last().0, f));
        }
    }
}

proof fn lemma_plan_to_frames_once(m: Seq<PeerEntry>, sender: u64, f: Seq<char>, x: u64)
    requires
        unique_ids(m),
        has_id(m, x),
        x != sender,
    ensures
        frames_to(plan_to(m, sender, f), x) == seq![f],
    decreases m.len(),
{
    assert(m.len() > 0);
    lemma_unique_drop_last(m);
    let d = m.drop_last();
    let sub = plan_to(d, sender, f);
    if m.last().0 == sender {
        assert(has_id(d, x));
        lemma_plan_to_frames_once(d, sender, f, x);
    } else {
        assert(plan_to(m, sender, f) == sub.push((m.last().0, f)));
        assert(sub.push((m.last().0, f)).drop_last() =~= sub);
        assert(sub.push((m.last().0, f)).last() == (m.last().0, f));
        if m.last().0 == x {
            assert(!has_id(d, x));
            lemma_plan_to_frames_absent(d, sender, f, x);
            assert(frames_to(plan_to(m, sender, f), x) == frames_to(sub, x).push(f));
            assert(frames_to(sub, x).push(f) =~= seq![f]);
        } else {
            assert(has_id(d, x));
            lemma_plan_to_frames_once(d, sender, f, x);
        }
    }
}

/// Per-sender FIFO: two messages broadcast one after the other by the same
/// registered sender reach any other registered peer as exactly the two
/// frames of those messages, in the order they were sent.
pub proof fn lemma_per_sender_fifo(
    m: Seq<PeerEntry>,
    sender: u64,
    msg1: Seq<char>,
    msg2: Seq<char>,
    x: u64,
)
    requires
        unique_ids(m),
        has_id(m, sender),
        has_id(m, x),
        x != sender,
    ensures
        frames_to(plan_spec(m, sender, msg1) + plan_spec(m, sender, msg2), x) == seq![
            frame_spec(addr_in(m, sender), msg1),
            frame_spec(addr_in(m, sender), msg2),
        ],
{
    let a = addr_in(m, sender);
    let p1 = plan_spec(m, sender, msg1);
    let p2 = plan_spec(m, sender, msg2);
    lemma_frames_to_add(p1, p2, x);
    lemma_plan_to_frames_once(m, sender, frame_spec(a, msg1), x);
    lemma_plan_to_frames_once(m, sender, frame_spec(a, msg2), x);
    assert(seq![frame_spec(a, msg1)] + seq![frame_spec(a, msg2)] =~= seq![
        frame_spec(a, msg1),
        frame_spec(a, msg2),
    ]);
}

} // verus!
