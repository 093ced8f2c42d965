//! The hub: a registry of live participants, each with a bounded outbound
//! queue, and the best-effort broadcast that publishes an envelope to all
//! of them.  A full queue drops the envelope for that participant alone;
//! the broadcaster is never blocked and never fails.

use vstd::prelude::*;
use crate::envelope::{Envelope, EnvelopeData};

verus! {

/// One registry entry: a participant id and its outbound queue.
struct HubEntry {
    id: usize,
    queue: Vec<Envelope>,
}

/// The registry of live participants.  Viewed as a map from participant
/// id to the pending envelopes of that participant's outbound queue.
pub struct Hub {
    entries: Vec<HubEntry>,
    cap: usize,
}

/// The envelopes of a queue, as values.
spec fn queue_view(q: Seq<Envelope>) -> Seq<EnvelopeData> {
    q.map_values(|e: Envelope| e@)
}

spec fn entries_map(s: Seq<HubEntry>) -> Map<usize, Seq<EnvelopeData>>
    decreases s.len(),
{
    if s.len() == 0 {
        Map::empty()
    } else {
        entries_map(s.drop_last()).insert(s.last().id, queue_view(s.last().queue@))
    }
}

spec fn distinct_ids(s: Seq<HubEntry>) -> bool {
    forall|i: int, j: int| 0 <= i < j < s.len() ==> s[i].id != s[j].id
}

/// What one delivery attempt does to one queue: the envelope is enqueued
/// if there is room and dropped otherwise.
pub open spec fn broadcast_q(q: Seq<EnvelopeData>, cap: usize, e: EnvelopeData) -> Seq<
    EnvelopeData,
> {
    if q.len() < cap {
        q.push(e)
    } else {
        q
    }
}

/// Whether every registered queue still has room.
pub open spec fn all_room(m: Map<usize, Seq<EnvelopeData>>, cap: usize) -> bool {
    forall|id: usize| m.dom().contains(id) ==> (#[trigger] m[id]).len() < cap
}

/// What a broadcast does to the whole registry: one delivery attempt per
/// participant, each independent of the others.
pub open spec fn broadcast_map(
    m: Map<usize, Seq<EnvelopeData>>,
    cap: usize,
    e: EnvelopeData,
) -> Map<usize, Seq<EnvelopeData>> {
    Map::new(|id: usize| m.dom().contains(id), |id: usize| broadcast_q(m[id], cap, e))
}

impl View for Hub {
    type V = Map<usize, Seq<EnvelopeData>>;

    closed spec fn view(&self) -> Map<usize, Seq<EnvelopeData>> {
        entries_map(self.entries@)
    }
}

proof fn lemma_entries_map_facts(s: Seq<HubEntry>)
    requires
        distinct_ids(s),
    ensures
        entries_map(s).dom().finite(),
        entries_map(s).dom().len() == s.len(),
        forall|j: int| 0 <= j < s.len() ==> entries_map(s).dom().contains(#[trigger] s[j].id),
        forall|j: int|
            0 <= j < s.len() ==> entries_map(s)[#[trigger] s[j].id] == queue_view(s[j].queue@),
        forall|id: usize|
            #[trigger] entries_map(s).dom().contains(id) ==> exists|j: int|
                0 <= j < s.len() && s[j].id == id,
    decreases s.len(),
{
    broadcast use vstd::set::group_set_axioms;

    if s.len() > 0 {
        let s0 = s.drop_last();
        assert(distinct_ids(s0)) by {
            assert forall|i: int, j: int| 0 <= i < j < s0.len() implies s0[i].id != s0[j].id by {
                assert(s[i].id != s[j].id);
            }
        }
        lemma_entries_map_facts(s0);
        let last = s.last();
        assert(!entries_map(s0).dom().contains(last.id)) by {
            if entries_map(s0).dom().contains(last.id) {
                let j = choose|j: int| 0 <= j < s0.len() && s0[j].id == last.id;
                assert(s[j].id == s[s.len() - 1].id);
            }
        }
        assert forall|j: int| 0 <= j < s.len() implies entries_map(s).dom().contains(
            #[trigger] s[j].id,
        ) && entries_map(s)[s[j].id] == queue_view(s[j].queue@) by {
            if j < s.len() - 1 {
                assert(s0[j] == s[j]);
                assert(s[j].id != last.id);
            }
        }
        assert forall|id: usize| #[trigger] entries_map(s).dom().contains(id) implies exists|j: int|
            0 <= j < s.len() && s[j].id == id by {
            if id == last.id {
                assert(s[s.len() - 1].id == id);
            } else {
                assert(entries_map(s0).dom().contains(id));
                let j = choose|j: int| 0 <= j < s0.len() && s0[j].id == id;
                assert(s[j].id == id);
            }
        }
    }
}

proof fn lemma_entries_map_update(s: Seq<HubEntry>, j: int, ent: HubEntry)
    requires
        distinct_ids(s),
        0 <= j < s.len(),
        ent.id == s[j].id,
    ensures
        entries_map(s.update(j, ent)) == entries_map(s).insert(ent.id, queue_view(ent.queue@)),
    decreases s.len(),
{
    let s2 = s.update(j, ent);
    if j == s.len() - 1 {
        assert(s2.drop_last() =~= s.drop_last());
        assert(s2.last() == ent);
        assert(entries_map(s).insert(ent.id, queue_view(ent.queue@)) =~= entries_map(
            s.drop_last(),
        ).insert(ent.id, queue_view(ent.queue@)));
    } else {
        let s0 = s.drop_last();
        assert(distinct_ids(s0)) by {
            assert forall|a: int, b: int| 0 <= a < b < s0.len() implies s0[a].id != s0[b].id by {
                assert(s[a].id != s[b].id);
            }
        }
        assert(s0[j] == s[j]);
        lemma_entries_map_update(s0, j, ent);
        assert(s2.drop_last() =~= s0.update(j, ent));
        assert(s2.last() == s.last());
        assert(s[j].id != s.last().id);
        assert(entries_map(s2) == entries_map(s0).insert(ent.id, queue_view(ent.queue@)).insert(
            s.last().id,
            queue_view(s.last().queue@),
        ));
        assert(entries_map(s0).insert(ent.id, queue_view(ent.queue@)).insert(
            s.last().id,
            queue_view(s.last().queue@),
        ) =~= entries_map(s0).insert(s.last().id, queue_view(s.last().queue@)).insert(
            ent.id,
            queue_view(ent.queue@),
        ));
    }
}

proof fn lemma_entries_map_remove(s: Seq<HubEntry>, j: int)
    requires
        distinct_ids(s),
        0 <= j < s.len(),
    ensures
        entries_map(s.remove(j)) == entries_map(s).remove(s[j].id),
    decreases s.len(),
{
    let s0 = s.drop_last();
    assert(distinct_ids(s0)) by {
        assert forall|a: int, b: int| 0 <= a < b < s0.len() implies s0[a].id != s0[b].id by {
            assert(s[a].id != s[b].id);
        }
    }
    lemma_entries_map_facts(s0);
    let last = s.last();
    if j == s.len() - 1 {
        assert(s.remove(j) =~= s0);
        assert(!entries_map(s0).dom().contains(last.id)) by {
            if entries_map(s0).dom().contains(last.id) {
                let k = choose|k: int| 0 <= k < s0.len() && s0[k].id == last.id;
                assert(s[k].id == s[s.len() - 1].id);
            }
        }
        assert(entries_map(s).remove(last.id) =~= entries_map(s0));
    } else {
        assert(s0[j] == s[j]);
        lemma_entries_map_remove(s0, j);
        assert(s.remove(j).drop_last() =~= s0.remove(j));
        assert(s.remove(j).last() == last);
        assert(entries_map(s.remove(j)) == entries_map(s0).remove(s[j].id).insert(
            last.id,
            queue_view(last.queue@),
        ));
        assert(s[j].id != last.id);
        assert(entries_map(s0).remove(s[j].id).insert(last.id, queue_view(last.queue@))
            =~= entries_map(s0).insert(last.id, queue_view(last.queue@)).remove(s[j].id));
    }
}

impl Hub {
    /// The queue capacity this hub was created with.
    pub closed spec fn capacity(self) -> usize {
        self.cap
    }

    /// The registry is a finite map.
    pub proof fn lemma_dom_finite(self)
        requires
            self.wf(),
        ensures
            self@.dom().finite(),
    {
        lemma_entries_map_facts(self.entries@);
    }

    /// Internal consistency: one entry per id, queues within capacity.
    pub closed spec fn wf(self) -> bool {
        &&& distinct_ids(self.entries@)
        &&& forall|j: int|
            0 <= j < self.entries@.len() ==> (#[trigger] self.entries@[j]).queue@.len() <= self.cap
    }

    /// An empty hub whose queues will hold at most `cap` envelopes.
    pub fn new(cap: usize) -> (r: Hub)
        ensures
            r.wf(),
            r@ == Map::<usize, Seq<EnvelopeData>>::empty(),
            r.capacity() == cap,
    {
        let r = Hub { entries: Vec::new(), cap };
        proof {
            assert(r@ =~= Map::<usize, Seq<EnvelopeData>>::empty());
        }
        r
    }

    fn find_index(&self, id: usize) -> (r: Option<usize>)
        ensures
            match r {
                Some(j) => j < self.entries@.len() && self.entries@[j as int].id == id,
                None => forall|j: int| 0 <= j < self.entries@.len() ==> self.entries@[j].id != id,
            },
    {
        let n = self.entries.len();
        let mut i: usize = 0;
        while i < n
            invariant
                i <= n,
                n == self.entries@.len(),
                forall|j: int| 0 <= j < i ==> self.entries@[j].id != id,
            decreases n - i,
        {
            if self.entries[i].id == id {
                return Some(i);
            }
            i = i + 1;
        }
        None
    }

    /// The number of registered participants.
    pub fn get_user_count(&self) -> (r: usize)
        requires
            self.wf(),
        ensures
            r == self@.dom().len(),
    {
        proof {
            lemma_entries_map_facts(self.entries@);
        }
        self.entries.len()
    }

    /// Whether a participant is registered.
    pub fn contains(&self, id: usize) -> (r: bool)
        requires
            self.wf(),
        ensures
            r == self@.dom().contains(id),
    {
        proof {
            lemma_entries_map_facts(self.entries@);
        }
        match self.find_index(id) {
            Some(_) => true,
            None => {
                proof {
                    if self@.dom().contains(id) {
                        let j = choose|j: int|
                            0 <= j < self.entries@.len() && self.entries@[j].id == id;
                        assert(self.entries@[j].id == id);
                    }
                }
                false
            },
        }
    }

    /// Registers a participant with an empty outbound queue.  Fails, and
    /// changes nothing, exactly when the id is already present.
    pub fn register(&mut self, id: usize) -> (r: bool)
        requires
            old(self).wf(),
        ensures
            final(self).wf(),
            final(self).capacity() == old(self).capacity(),
            r == !old(self)@.dom().contains(id),
            r ==> final(self)@ == old(self)@.insert(id, Seq::<EnvelopeData>::empty()),
            !r ==> *final(self) == *old(self),
    {
        proof {
            lemma_entries_map_facts(self.entries@);
        }
        match self.find_index(id) {
            Some(_) => false,
            None => {
                proof {
                    if self@.dom().contains(id) {
                        let j = choose|j: int|
                            0 <= j < self.entries@.len() && self.entries@[j].id == id;
                        assert(self.entries@[j].id == id);
                    }
                }
                let ghost s_old = self.entries@;
                self.entries.push(HubEntry { id, queue: Vec::new() });
                proof {
                    assert(self.entries@.drop_last() =~= s_old);
                    assert(self.entries@.last().id == id);
                    assert(queue_view(self.entries@.last().queue@) =~= Seq::<
                        EnvelopeData,
                    >::empty());
                    assert(distinct_ids(self.entries@)) by {
                        assert forall|a: int, b: int|
                            0 <= a < b < self.entries@.len() implies self.entries@[a].id
                            != self.entries@[b].id by {
                            if b < self.entries@.len() - 1 {
                                assert(s_old[a].id != s_old[b].id);
                            } else {
                                assert(s_old[a].id != id);
                            }
                        }
                    }
                }
                true
            },
        }
    }

    /// Removes a participant if present; a second removal of the same id
    /// changes nothing.
    pub fn deregister(&mut self, id: usize)
        requires
            old(self).wf(),
        ensures
            final(self).wf(),
            final(self).capacity() == old(self).capacity(),
            final(self)@ == old(self)@.remove(id),
    {
        proof {
            lemma_entries_map_facts(self.entries@);
        }
        match self.find_index(id) {
            None => {
                proof {
                    if self@.dom().contains(id) {
                        let j = choose|j: int|
                            0 <= j < self.entries@.len() && self.entries@[j].id == id;
                        assert(self.entries@[j].id == id);
                    }
                    assert(self@.remove(id) =~= self@);
                }
            },
            Some(j) => {
                let ghost s_old = self.entries@;
                self.entries.remove(j);
                proof {
                    lemma_entries_map_remove(s_old, j as int);
                    assert(distinct_ids(self.entries@)) by {
                        assert forall|a: int, b: int|
                            0 <= a < b < self.entries@.len() implies self.entries@[a].id
                            != self.entries@[b].id by {
                            let a0 = if a < j { a } else { a + 1 };
                            let b0 = if b < j { b } else { b + 1 };
                            assert(self.entries@[a] == s_old[a0]);
                            assert(self.entries@[b] == s_old[b0]);
                            assert(s_old[a0].id != s_old[b0].id);
                        }
                    }
                }
            },
        }
    }

    /// Attempts delivery of the envelope to every registered participant:
    /// a non-blocking enqueue onto each queue, dropped where a queue is
    /// full.  True exactly when every participant got it.
    pub fn broadcast(&mut self, env: &Envelope) -> (r: bool)
        requires
            old(self).wf(),
        ensures
            final(self).wf(),
            final(self).capacity() == old(self).capacity(),
            final(self)@ == broadcast_map(old(self)@, old(self).capacity(), env@),
            r == all_room(old(self)@, old(self).capacity()),
    {
        proof {
            lemma_entries_map_facts(self.entries@);
        }
        let ghost s_old = self.entries@;
        let n = self.entries.len();
        let mut ok = true;
        let mut i: usize = 0;
        while i < n
            invariant
                i <= n,
                n == self.entries@.len(),
                n == s_old.len(),
                self.cap == old(self).cap,
                forall|j: int| 0 <= j < n ==> self.entries@[j].id == s_old[j].id,
                forall|j: int| i <= j < n ==> self.entries@[j] == s_old[j],
                forall|j: int|
                    0 <= j < i ==> queue_view((#[trigger] self.entries@[j]).queue@) == broadcast_q(
                        queue_view(s_old[j].queue@),
                        self.cap,
                        env@,
                    ),
                forall|j: int|
                    0 <= j < n ==> (#[trigger] self.entries@[j]).queue@.len() <= self.cap,
                ok == forall|j: int|
                    0 <= j < i ==> (#[trigger] s_old[j]).queue@.len() < self.cap,
            decreases n - i,
        {
            let ghost s_cur = self.entries@;
            let ghost ok_before = ok;
            let mut ent = self.entries.remove(i);
            let ghost pre = ent.queue@;
            if ent.queue.len() < self.cap {
                ent.queue.push(env.duplicate());
                proof {
                    assert(queue_view(ent.queue@) =~= queue_view(pre).push(env@));
                }
            } else {
                ok = false;
            }
            let ghost entg = ent;
            self.entries.insert(i, ent);
            proof {
                assert(self.entries@ =~= s_cur.update(i as int, entg));
                assert(queue_view(pre).len() == pre.len());
                assert(pre == s_old[i as int].queue@);
                if ok {
                    assert forall|j: int|
                        0 <= j < i + 1 implies (#[trigger] s_old[j]).queue@.len() < self.cap by {
                        if j == i {
                            assert(s_old[j].queue@ == pre);
                        }
                    }
                } else {
                    if pre.len() >= self.cap {
                        assert(!(s_old[i as int].queue@.len() < self.cap));
                    } else {
                        assert(!ok_before);
                        let w = choose|w: int|
                            0 <= w < i && !((#[trigger] s_old[w]).queue@.len() < self.cap);
                        assert(!(s_old[w].queue@.len() < self.cap));
                    }
                }
            }
            i = i + 1;
        }
        let ghost s_new = self.entries@;
        proof {
            assert(distinct_ids(s_new)) by {
                assert forall|a: int, b: int|
                    0 <= a < b < s_new.len() implies s_new[a].id != s_new[b].id by {
                    assert(s_old[a].id != s_old[b].id);
                }
            }
            lemma_entries_map_facts(s_old);
            lemma_entries_map_facts(s_new);
            let mo = entries_map(s_old);
            let mn = entries_map(s_new);
            let c = self.cap;
            let bm = broadcast_map(mo, c, env@);
            assert forall|id: usize| #[trigger] mn.dom().contains(id) implies mo.dom().contains(id)
                && mn[id] == broadcast_q(mo[id], c, env@) by {
                let j = choose|j: int| 0 <= j < s_new.len() && s_new[j].id == id;
                assert(s_old[j].id == id);
                assert(mo[id] == queue_view(s_old[j].queue@));
                assert(mn[id] == queue_view(s_new[j].queue@));
            }
            assert forall|id: usize| #[trigger] mo.dom().contains(id) implies mn.dom().contains(
                id,
            ) by {
                let j = choose|j: int| 0 <= j < s_old.len() && s_old[j].id == id;
                assert(s_new[j].id == id);
            }
            assert(mn =~= bm);
            if ok {
                assert forall|id: usize| mo.dom().contains(id) implies (#[trigger] mo[id]).len()
                    < c by {
                    let j = choose|j: int| 0 <= j < s_old.len() && s_old[j].id == id;
                    assert(mo[id] == queue_view(s_old[j].queue@));
                    assert(s_old[j].queue@.len() < c);
                }
            } else {
                let j = choose|j: int| 0 <= j < s_old.len() && !(s_old[j].queue@.len() < c);
                assert(mo.dom().contains(s_old[j].id));
                assert(mo[s_old[j].id] == queue_view(s_old[j].queue@));
                assert(!all_room(mo, c));
            }
        }
        ok
    }

    /// Takes the oldest pending envelope of a participant's queue, if the
    /// participant is registered and has one.
    pub fn pop_pending(&mut self, id: usize) -> (r: Option<Envelope>)
        requires
            old(self).wf(),
        ensures
            final(self).wf(),
            final(self).capacity() == old(self).capacity(),
            match r {
                Some(e) => {
                    &&& old(self)@.dom().contains(id)
                    &&& old(self)@[id].len() > 0
                    &&& e@ == old(self)@[id][0]
                    &&& final(self)@ == old(self)@.insert(id, old(self)@[id].drop_first())
                },
                None => {
                    &&& (!old(self)@.dom().contains(id) || old(self)@[id].len() == 0)
                    &&& *final(self) == *old(self)
                },
            },
    {
        proof {
            lemma_entries_map_facts(self.entries@);
        }
        match self.find_index(id) {
            None => {
                proof {
                    if self@.dom().contains(id) {
                        let j = choose|j: int|
                            0 <= j < self.entries@.len() && self.entries@[j].id == id;
                        assert(self.entries@[j].id == id);
                    }
                }
                None
            },
            Some(j) => {
                if self.entries[j].queue.len() == 0 {
                    proof {
                        assert(queue_view(self.entries@[j as int].queue@) =~= Seq::<
                            EnvelopeData,
                        >::empty());
                    }
                    return None;
                }
                let ghost s_old = self.entries@;
                let mut ent = self.entries.remove(j);
                let ghost pre = ent.queue@;
                let e = ent.queue.remove(0);
                self.entries.insert(j, ent);
                proof {
                    assert(self.entries@ =~= s_old.update(j as int, self.entries@[j as int]));
                    lemma_entries_map_update(s_old, j as int, self.entries@[j as int]);
                    assert(queue_view(self.entries@[j as int].queue@) =~= queue_view(
                        pre,
                    ).drop_first());
                    assert(e@ == queue_view(pre)[0]);
                    assert(distinct_ids(self.entries@)) by {
                        assert forall|a: int, b: int|
                            0 <= a < b < self.entries@.len() implies self.entries@[a].id
                            != self.entries@[b].id by {
                            assert(s_old[a].id != s_old[b].id);
                        }
                    }
                }
                Some(e)
            },
        }
    }
}


/// A broadcast changes no registration: the registry's domain stays.
pub proof fn lemma_broadcast_map_dom(m: Map<usize, Seq<EnvelopeData>>, cap: usize, e: EnvelopeData)
    ensures
        broadcast_map(m, cap, e).dom() == m.dom(),
{
    assert(broadcast_map(m, cap, e).dom() =~= m.dom());
}

/// One call of the registry's two mutators, as a value: what `register`
/// and `deregister` do to the hub's view, per their contracts.
pub ghost enum HubOp {
    Register { id: usize },
    Deregister { id: usize },
}

/// The registry after one call: `register` inserts an empty queue only if
/// the id is fresh; `deregister` removes the id's entry if present.
pub open spec fn apply_op(m: Map<usize, Seq<EnvelopeData>>, op: HubOp) -> Map<
    usize,
    Seq<EnvelopeData>,
> {
    match op {
        HubOp::Register { id } => if m.dom().contains(id) {
            m
        } else {
            m.insert(id, Seq::empty())
        },
        HubOp::Deregister { id } => m.remove(id),
    }
}

/// The registry after a sequence of calls, first call first.
pub open spec fn apply_ops(m: Map<usize, Seq<EnvelopeData>>, ops: Seq<HubOp>) -> Map<
    usize,
    Seq<EnvelopeData>,
>
    decreases ops.len(),
{
    if ops.len() == 0 {
        m
    } else {
        apply_ops(apply_op(m, ops[0]), ops.drop_first())
    }
}

/// How many of the calls register a fresh id, with the registry evolving
/// call by call.
pub open spec fn effective_registers(m: Map<usize, Seq<EnvelopeData>>, ops: Seq<HubOp>) -> int
    decreases ops.len(),
{
    if ops.len() == 0 {
        0
    } else {
        (match ops[0] {
            HubOp::Register { id } => if m.dom().contains(id) {
                0
            } else {
                1
            },
            HubOp::Deregister { id } => 0int,
        }) + effective_registers(apply_op(m, ops[0]), ops.drop_first())
    }
}

/// How many of the calls deregister an id that was present.
pub open spec fn effective_deregisters(m: Map<usize, Seq<EnvelopeData>>, ops: Seq<HubOp>) -> int
    decreases ops.len(),
{
    if ops.len() == 0 {
        0
    } else {
        (match ops[0] {
            HubOp::Register { id } => 0int,
            HubOp::Deregister { id } => if m.dom().contains(id) {
                1
            } else {
                0
            },
        }) + effective_deregisters(apply_op(m, ops[0]), ops.drop_first())
    }
}

/// After any sequence of `register` and `deregister` calls, the count is
/// what it was plus the registrations that took effect minus the
/// deregistrations that matched a present id — whatever the interleaving.
pub proof fn lemma_count_after_ops(m: Map<usize, Seq<EnvelopeData>>, ops: Seq<HubOp>)
    requires
        m.dom().finite(),
    ensures
        apply_ops(m, ops).dom().finite(),
        apply_ops(m, ops).dom().len() == m.dom().len() + effective_registers(m, ops)
            - effective_deregisters(m, ops),
    decreases ops.len(),
{
    broadcast use vstd::set::group_set_axioms;

    if ops.len() > 0 {
        let m1 = apply_op(m, ops[0]);
        match ops[0] {
            HubOp::Register { id } => {
                if m.dom().contains(id) {
                    assert(m1.dom().len() == m.dom().len() + 1 - 1) by {
                        assert(m1 == m);
                    }
                } else {
                    assert(m1.dom() =~= m.dom().insert(id));
                }
            },
            HubOp::Deregister { id } => {
                assert(m1.dom() =~= m.dom().remove(id));
            },
        }
        lemma_count_after_ops(m1, ops.drop_first());
    }
}

/// A queue after broadcasting a sequence of envelopes, one at a time.
pub open spec fn broadcast_seq(q: Seq<EnvelopeData>, cap: usize, es: Seq<EnvelopeData>) -> Seq<
    EnvelopeData,
>
    decreases es.len(),
{
    if es.len() == 0 {
        q
    } else {
        broadcast_seq(broadcast_q(q, cap, es[0]), cap, es.drop_first())
    }
}

/// Broadcasting into a queue with room fills it with the earliest
/// envelopes, in order, and drops the rest.
pub proof fn lemma_broadcast_seq_fills(q: Seq<EnvelopeData>, cap: usize, es: Seq<EnvelopeData>)
    requires
        q.len() <= cap,
    ensures
        broadcast_seq(q, cap, es) == q + es.take(
            if cap - q.len() <= es.len() {
                cap - q.len()
            } else {
                es.len() as int
            },
        ),
    decreases es.len(),
{
    let room = cap - q.len();
    let m = if room <= es.len() {
        room
    } else {
        es.len() as int
    };
    if es.len() == 0 {
        assert(q + es.take(m) =~= q);
    } else {
        if q.len() < cap {
            let q2 = q.push(es[0]);
            lemma_broadcast_seq_fills(q2, cap, es.drop_first());
            let rest = es.drop_first();
            let m2 = if cap - q2.len() <= rest.len() {
                cap - q2.len()
            } else {
                rest.len() as int
            };
            assert(m2 == m - 1);
            assert(q2 + rest.take(m2) =~= q + es.take(m));
        } else {
            lemma_broadcast_seq_fills(q, cap, es.drop_first());
            assert(m == 0);
            let rest = es.drop_first();
            let m2 = if cap - q.len() <= rest.len() {
                cap - q.len()
            } else {
                rest.len() as int
            };
            assert(m2 == 0);
            assert(q + rest.take(0) =~= q + es.take(0));
        }
    }
}

/// Broadcasting into a hub with one participant whose queue started empty:
/// the first `cap` envelopes enqueue, later ones are dropped.
pub proof fn lemma_queue_fills_then_drops(cap: usize, es: Seq<EnvelopeData>)
    ensures
        broadcast_seq(Seq::empty(), cap, es) == es.take(
            if cap as int <= es.len() {
                cap as int
            } else {
                es.len() as int
            },
        ),
{
    lemma_broadcast_seq_fills(Seq::empty(), cap, es);
    assert(Seq::empty() + es.take(
        if cap as int <= es.len() {
            cap as int
        } else {
            es.len() as int
        },
    ) =~= es.take(
        if cap as int <= es.len() {
            cap as int
        } else {
            es.len() as int
        },
    ));
}

} // verus!
