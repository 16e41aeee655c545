//! The shared drawing board's fan-out: every connected client has a queue of
//! drawing instructions; what one client draws is queued for all the others.
use vstd::prelude::*;
use std::collections::VecDeque;

verus! {

/// A line from (x1, y1) to (x2, y2).
#[derive(Debug, Clone, Copy, PartialEq, Eq)]
pub struct DrawInstruction {
    pub x1: i32,
    pub y1: i32,
    pub x2: i32,
    pub y2: i32,
}

/// A client and the instructions waiting to be sent to it.
pub struct ClientQueue {
    id: u32,
    pending: VecDeque<DrawInstruction>,
}

/// The queues of all connected clients, in the order they connected.
pub struct ClientQueues {
    clients: Vec<ClientQueue>,
}

/// Each client's queue after `from` drew `x`: every other client gets `x`
/// at the back of its queue.
pub open spec fn broadcast_spec(qs: Seq<(u32, Seq<DrawInstruction>)>, from: u32, x: DrawInstruction) -> Seq<(u32, Seq<DrawInstruction>)> {
    Seq::new(qs.len(), |i: int| if qs[i].0 != from { (qs[i].0, qs[i].1.push(x)) } else { qs[i] })
}

/// The first entry at or after `i` of client `id` whose queue is not empty.
pub open spec fn first_pending_from(qs: Seq<(u32, Seq<DrawInstruction>)>, id: u32, i: int) -> Option<int>
    decreases qs.len() - i,
{
    if i < 0 || i >= qs.len() {
        None
    } else if qs[i].0 == id && qs[i].1.len() > 0 {
        Some(i)
    } else {
        first_pending_from(qs, id, i + 1)
    }
}

/// The first entry of client `id` whose queue is not empty.
pub open spec fn first_pending(qs: Seq<(u32, Seq<DrawInstruction>)>, id: u32) -> Option<int> {
    first_pending_from(qs, id, 0)
}

/// The first entry at or after `i` of client `id`.
pub open spec fn first_entry_from(qs: Seq<(u32, Seq<DrawInstruction>)>, id: u32, i: int) -> Option<int>
    decreases qs.len() - i,
{
    if i < 0 || i >= qs.len() {
        None
    } else if qs[i].0 == id {
        Some(i)
    } else {
        first_entry_from(qs, id, i + 1)
    }
}

/// The first entry of client `id`.
pub open spec fn first_entry(qs: Seq<(u32, Seq<DrawInstruction>)>, id: u32) -> Option<int> {
    first_entry_from(qs, id, 0)
}

/// What `first_entry_from` finds is the first entry of the client from `i` on.
proof fn lemma_first_entry_from(qs: Seq<(u32, Seq<DrawInstruction>)>, id: u32, i: int)
    requires
        0 <= i,
    ensures
        first_entry_from(qs, id, i) matches Some(k) ==> i <= k < qs.len() && qs[k].0 == id && forall|j: int| i <= j < k ==> qs[j].0 != id,
        first_entry_from(qs, id, i) is None ==> forall|j: int| i <= j < qs.len() ==> qs[j].0 != id,
    decreases qs.len() - i,
{
    if i < qs.len() && qs[i].0 != id {
        lemma_first_entry_from(qs, id, i + 1);
    }
}

/// What `first_pending_from` finds is the first non-empty queue of the client
/// from `i` on.
proof fn lemma_first_pending_from(qs: Seq<(u32, Seq<DrawInstruction>)>, id: u32, i: int)
    requires
        0 <= i,
    ensures
        first_pending_from(qs, id, i) matches Some(k) ==> i <= k < qs.len() && qs[k].0 == id && qs[k].1.len() > 0
            && forall|j: int| i <= j < k ==> !(qs[j].0 == id && qs[j].1.len() > 0),
        first_pending_from(qs, id, i) is None ==> forall|j: int| i <= j < qs.len() ==> !(qs[j].0 == id && qs[j].1.len() > 0),
    decreases qs.len() - i,
{
    if i < qs.len() && !(qs[i].0 == id && qs[i].1.len() > 0) {
        lemma_first_pending_from(qs, id, i + 1);
    }
}

/// A client's entry as plain values.
spec fn entry_view(c: ClientQueue) -> (u32, Seq<DrawInstruction>) {
    (c.id, c.pending@)
}

impl View for ClientQueues {
    type V = Seq<(u32, Seq<DrawInstruction>)>;

    closed spec fn view(&self) -> Seq<(u32, Seq<DrawInstruction>)> {
        self.clients@.map_values(|c: ClientQueue| entry_view(c))
    }
}

impl ClientQueues {
    /// No clients.
    pub fn new() -> (r: Self)
        ensures
            r@ == Seq::<(u32, Seq<DrawInstruction>)>::empty(),
    {
        let r = ClientQueues { clients: Vec::new() };
        assert(r@ =~= Seq::<(u32, Seq<DrawInstruction>)>::empty());
        r
    }

    /// Adds client `id` with an empty queue.
    pub fn register(&mut self, id: u32)
        ensures
            final(self)@ == old(self)@.push((id, Seq::<DrawInstruction>::empty())),
    {
        self.clients.push(ClientQueue { id, pending: VecDeque::new() });
        assert(self@ =~= old(self)@.push((id, Seq::<DrawInstruction>::empty())));
    }

    /// Queues `instruction`, drawn by client `from`, for every other client.
    pub fn broadcast(&mut self, from: u32, instruction: DrawInstruction)
        ensures
            final(self)@ == broadcast_spec(old(self)@, from, instruction),
    {
        let ghost before = self@;
        let mut rest: Vec<ClientQueue> = Vec::new();
        std::mem::swap(&mut rest, &mut self.clients);
        assert(rest@.map_values(|c: ClientQueue| entry_view(c)) == before);
        let n = rest.len();
        let mut i: usize = 0;
        while i < n
            invariant
                n == before.len(),
                i <= n,
                rest@.len() == n - i,
                forall|j: int| 0 <= j < n - i ==> #[trigger] entry_view(rest@[j]) == before[i + j],
                self.clients@.len() == i,
                forall|j: int| 0 <= j < i ==> #[trigger] entry_view(self.clients@[j]) == broadcast_spec(before, from, instruction)[j],
            decreases n - i,
        {
            let ghost rest_before = rest@;
            let mut entry = rest.remove(0);
            assert(entry_view(entry) == before[i as int]);
            if entry.id != from {
                entry.pending.push_back(instruction);
            }
            self.clients.push(entry);
            assert forall|j: int| 0 <= j < n - i - 1 implies #[trigger] entry_view(rest@[j]) == before[i + 1 + j] by {
                assert(rest@[j] == rest_before[j + 1]);
            }
            i = i + 1;
        }
        assert(self@ =~= broadcast_spec(before, from, instruction));
    }

    /// Takes the next instruction waiting for client `id`: the front of its
    /// first non-empty queue.
    pub fn pop_pending(&mut self, id: u32) -> (r: Option<DrawInstruction>)
        ensures
            match first_pending(old(self)@, id) {
                None => r is None && final(self)@ == old(self)@,
                Some(i) => r == Some(old(self)@[i].1[0]) && final(self)@ == old(self)@.update(
                    i,
                    (id, old(self)@[i].1.drop_first()),
                ),
            },
    {
        let ghost before = self@;
        let n = self.clients.len();
        let mut i: usize = 0;
        while i < n
            invariant
                n == before.len(),
                self@ == before,
                before == old(self)@,
                i <= n,
                first_pending(before, id) == first_pending_from(before, id, i as int),
            decreases n - i,
        {
            assert(entry_view(self.clients@[i as int]) == before[i as int]);
            if self.clients[i].id == id && self.clients[i].pending.len() > 0 {
                let mut entry = self.clients.remove(i);
                let x = entry.pending.pop_front();
                self.clients.insert(i, entry);
                proof {
                    assert(first_pending_from(before, id, i as int) == Some(i as int));
                    assert(self@ =~= before.update(i as int, (id, before[i as int].1.drop_first())));
                }
                return x;
            }
            i = i + 1;
        }
        None
    }

    /// The index of the first entry of client `id`; `None` when it is not
    /// registered.
    pub fn position(&self, id: u32) -> (r: Option<usize>)
        ensures
            match first_entry(self@, id) {
                None => r is None,
                Some(i) => r == Some(i as usize),
            },
    {
        let ghost qs = self@;
        let n = self.clients.len();
        let mut i: usize = 0;
        while i < n
            invariant
                n == qs.len(),
                qs == self@,
                i <= n,
                first_entry(qs, id) == first_entry_from(qs, id, i as int),
            decreases n - i,
        {
            assert(entry_view(self.clients@[i as int]) == qs[i as int]);
            if self.clients[i].id == id {
                return Some(i);
            }
            i = i + 1;
        }
        None
    }

    /// Removes the first entry of client `id`, which must be registered.
    pub fn remove_client(&mut self, id: u32)
        requires
            first_entry(old(self)@, id) is Some,
        ensures
            final(self)@ == old(self)@.remove(first_entry(old(self)@, id)->0),
    {
        let ghost before = self@;
        let n = self.clients.len();
        let mut i: usize = 0;
        while i < n
            invariant
                n == before.len(),
                self@ == before,
                before == old(self)@,
                first_entry(before, id) is Some,
                i <= n,
                first_entry(before, id) == first_entry_from(before, id, i as int),
            decreases n - i,
        {
            assert(entry_view(self.clients@[i as int]) == before[i as int]);
            if self.clients[i].id == id {
                let _ = self.clients.remove(i);
                proof {
                    assert(first_entry_from(before, id, i as int) == Some(i as int));
                    assert(self@ =~= before.remove(i as int));
                }
                return;
            }
            i = i + 1;
        }
        assert(first_entry_from(before, id, i as int) is None);
    }
}

/// A client never receives its own drawing: broadcasting leaves the queues of
/// the sender unchanged and appends to every other queue.
pub proof fn law_broadcast_skips_sender(qs: Seq<(u32, Seq<DrawInstruction>)>, from: u32, x: DrawInstruction, i: int)
    requires
        0 <= i < qs.len(),
    ensures
        broadcast_spec(qs, from, x).len() == qs.len(),
        broadcast_spec(qs, from, x)[i].0 == qs[i].0,
        qs[i].0 == from ==> broadcast_spec(qs, from, x)[i].1 == qs[i].1,
        qs[i].0 != from ==> broadcast_spec(qs, from, x)[i].1 == qs[i].1.push(x),
{
}

/// Instructions come out of a queue in the order they went in: after a
/// broadcast onto a queue that was empty, the next instruction taken for that
/// client is the broadcast one.
pub proof fn law_broadcast_then_pop(qs: Seq<(u32, Seq<DrawInstruction>)>, from: u32, x: DrawInstruction, id: u32)
    requires
        id != from,
        first_entry(qs, id) is Some,
        forall|i: int| 0 <= i < qs.len() && qs[i].0 == id ==> qs[i].1.len() == 0,
    ensures
        ({
            let b = broadcast_spec(qs, from, x);
            &&& first_pending(b, id) == first_entry(qs, id)
            &&& b[first_pending(b, id)->0].1[0] == x
        }),
{
    let b = broadcast_spec(qs, from, x);
    lemma_first_entry_from(qs, id, 0);
    lemma_first_pending_from(b, id, 0);
    let k = first_entry(qs, id)->0;
    assert(b[k].0 == id && b[k].1.len() > 0);
    match first_pending(b, id) {
        None => {
            assert(!(b[k].0 == id && b[k].1.len() > 0));
        },
        Some(p) => {
            if p < k {
                assert(qs[p].0 != id);
            }
            if k < p {
                assert(!(b[k].0 == id && b[k].1.len() > 0));
            }
        },
    }
    assert(b[k].1 == qs[k].1.push(x));
}

} // verus!
