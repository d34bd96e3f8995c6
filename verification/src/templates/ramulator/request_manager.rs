use std::collections::HashMap;
use std::collections::VecDeque;

use vstd::prelude::*;

use super::access::SimpleRead;
use super::address::ByteAddress;

verus! {

broadcast use vstd::std_specs::hash::group_hash_axioms;

/// The reads waiting for memory, queued per byte address in the order they
/// were issued.
pub struct RequestManager {
    addr_to_access_map: HashMap<u64, VecDeque<SimpleRead>>,
}

impl RequestManager {
    /// The waiting reads of each address (addresses with none are absent).
    pub closed spec fn queues(&self) -> Map<u64, Seq<SimpleRead>> {
        Map::new(
            |k: u64| self.addr_to_access_map@.contains_key(k),
            |k: u64| self.addr_to_access_map@[k]@,
        )
    }

    /// The queue of reads waiting at address `a`.
    pub open spec fn waiting(&self, a: u64) -> Seq<SimpleRead> {
        if self.queues().contains_key(a) { self.queues()[a] } else { seq![] }
    }

    /// No address keeps an empty queue.
    pub closed spec fn wf(&self) -> bool {
        forall|k: u64| #[trigger] self.queues().contains_key(k) ==> self.queues()[k].len() > 0
    }

    pub fn new() -> (r: Self)
        ensures
            r.wf(),
            forall|a: u64| r.waiting(a) == Seq::<SimpleRead>::empty(),
    {
        let r = RequestManager { addr_to_access_map: HashMap::new() };
        assert(r.queues() =~= Map::empty());
        r
    }

    /// Queues a read behind the earlier reads of its address.
    pub fn add_request(&mut self, access: SimpleRead)
        requires
            old(self).wf(),
        ensures
            final(self).wf(),
            final(self).waiting(access.base.0) == old(self).waiting(access.base.0).push(access),
            forall|a: u64| a != access.base.0 ==> final(self).waiting(a) == old(self).waiting(a),
    {
        let key = access.base.0;
        let ghost before = self.queues();
        let q = self.addr_to_access_map.remove(&key);
        let mut dq: VecDeque<SimpleRead> = match q {
            Some(d) => d,
            None => VecDeque::new(),
        };
        dq.push_back(access);
        self.addr_to_access_map.insert(key, dq);
        proof {
            assert(self.queues() =~= before.insert(key, (if before.contains_key(key) { before[key] } else { seq![] }).push(access)));
        }
    }

    /// Hands out the oldest read waiting at `addr`, marked resolved.
    pub fn register_recv(&mut self, addr: ByteAddress) -> (r: SimpleRead)
        requires
            old(self).wf(),
            old(self).waiting(addr.0).len() > 0,
        ensures
            final(self).wf(),
            r == old(self).waiting(addr.0)[0],
            final(self).waiting(addr.0) == old(self).waiting(addr.0).drop_first(),
            forall|a: u64| a != addr.0 ==> final(self).waiting(a) == old(self).waiting(a),
    {
        let key = addr.0;
        let ghost before = self.queues();
        let q = self.addr_to_access_map.remove(&key);
        let mut dq = q.unwrap();
        let front = dq.pop_front();
        let mut acc = front.unwrap();
        if dq.len() > 0 {
            self.addr_to_access_map.insert(key, dq);
            proof {
                assert(self.queues() =~= before.insert(key, before[key].drop_first()));
            }
        } else {
            proof {
                assert(self.queues() =~= before.remove(key));
            }
        }
        acc.mark_resolved_read();
        acc
    }

    /// No read is waiting.
    pub fn is_empty(&self) -> (r: bool)
        requires
            self.wf(),
        ensures
            r == forall|a: u64| self.waiting(a).len() == 0,
    {
        let r = self.addr_to_access_map.len() == 0;
        proof {
            if !r {
                assert(self.addr_to_access_map@.dom().len() > 0);
                let k = self.addr_to_access_map@.dom().choose();
                assert(self.queues().contains_key(k));
                assert(self.waiting(k).len() > 0);
            } else {
                assert(self.addr_to_access_map@.dom() =~= Set::empty()) by {
                    if exists|k: u64| self.addr_to_access_map@.dom().contains(k) {
                        let k = choose|k: u64| self.addr_to_access_map@.dom().contains(k);
                        vstd::set_lib::lemma_set_empty_equivalency_len(self.addr_to_access_map@.dom());
                    }
                }
            }
        }
        r
    }
}


/// A call on the request manager: a read queued (`add_request`), or the
/// oldest read waiting at an address handed out (`register_recv`).
pub enum QueueOp {
    Add(SimpleRead),
    Recv(u64),
}

/// The reads waiting at address `a` after the calls `ops` on a new request
/// manager, as `add_request` and `register_recv` state them.
pub open spec fn replay(ops: Seq<QueueOp>, a: u64) -> Seq<SimpleRead>
    decreases ops.len(),
{
    if ops.len() == 0 {
        seq![]
    } else {
        let q = replay(ops.drop_last(), a);
        match ops.last() {
            QueueOp::Add(r) => if r.base.0 == a { q.push(r) } else { q },
            QueueOp::Recv(b) => if b == a { q.drop_first() } else { q },
        }
    }
}

/// Every `register_recv` of `ops` finds a read waiting at its address (as
/// its `requires` asks).
pub open spec fn ops_valid(ops: Seq<QueueOp>) -> bool {
    forall|i: int|
        0 <= i < ops.len() && (#[trigger] ops[i]) is Recv ==> replay(ops.take(i), ops[i]->Recv_0).len() > 0
}

/// How many reads of address `a` the calls `ops` queue.
pub open spec fn adds(ops: Seq<QueueOp>, a: u64) -> nat
    decreases ops.len(),
{
    if ops.len() == 0 {
        0
    } else {
        adds(ops.drop_last(), a) + match ops.last() {
            QueueOp::Add(r) => if r.base.0 == a { 1nat } else { 0nat },
            QueueOp::Recv(_) => 0nat,
        }
    }
}

/// How many reads of address `a` the calls `ops` hand out.
pub open spec fn recvs(ops: Seq<QueueOp>, a: u64) -> nat
    decreases ops.len(),
{
    if ops.len() == 0 {
        0
    } else {
        recvs(ops.drop_last(), a) + match ops.last() {
            QueueOp::Add(_) => 0nat,
            QueueOp::Recv(b) => if b == a { 1nat } else { 0nat },
        }
    }
}

/// Law: after any calls that the manager accepts, the reads waiting at an
/// address are as many as were queued there less those handed out.
pub proof fn lemma_waiting_counts(ops: Seq<QueueOp>, a: u64)
    requires
        ops_valid(ops),
    ensures
        recvs(ops, a) <= adds(ops, a),
        replay(ops, a).len() == adds(ops, a) - recvs(ops, a),
    decreases ops.len(),
{
    if ops.len() > 0 {
        let init = ops.drop_last();
        assert forall|i: int| 0 <= i < init.len() && (#[trigger] init[i]) is Recv implies replay(init.take(i), init[i]->Recv_0).len()
            > 0 by {
            assert(init.take(i) =~= ops.take(i));
            assert(init[i] == ops[i]);
        }
        lemma_waiting_counts(init, a);
        let n = ops.len() - 1;
        if ops.last() is Recv {
            assert(ops[n] is Recv);
            assert(ops.take(n) =~= init);
        }
    }
}

/// Law: after any calls that the manager accepts, it is empty (`is_empty`)
/// exactly when every address has had as many reads handed out as queued.
pub proof fn lemma_empty_iff_balanced(ops: Seq<QueueOp>)
    requires
        ops_valid(ops),
    ensures
        (forall|a: u64| #[trigger] replay(ops, a).len() == 0) <==> (forall|a: u64| #[trigger] adds(ops, a) == recvs(ops, a)),
{
    assert forall|a: u64| #[trigger] replay(ops, a).len() == 0 <==> adds(ops, a) == recvs(ops, a) by {
        lemma_waiting_counts(ops, a);
    }
    if forall|a: u64| #[trigger] replay(ops, a).len() == 0 {
        assert forall|a: u64| #[trigger] adds(ops, a) == recvs(ops, a) by {
            lemma_waiting_counts(ops, a);
            assert(replay(ops, a).len() == 0);
        }
    }
    if forall|a: u64| #[trigger] adds(ops, a) == recvs(ops, a) {
        assert forall|a: u64| #[trigger] replay(ops, a).len() == 0 by {
            lemma_waiting_counts(ops, a);
            assert(adds(ops, a) == recvs(ops, a));
        }
    }
}

/// Law: right after a read is queued the manager is not empty.
pub proof fn lemma_not_empty_after_add(ops: Seq<QueueOp>, r: SimpleRead)
    ensures
        replay(ops.push(QueueOp::Add(r)), r.base.0).len() > 0,
{
    assert(ops.push(QueueOp::Add(r)).drop_last() =~= ops);
}

} // verus!
