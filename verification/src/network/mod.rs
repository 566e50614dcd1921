//! Messages exchanged between the participants of a game, and the queues that
//! carry them between the game loop and the network side.

use vstd::prelude::*;

use crate::world::{EntityID, Point};

pub mod client;
pub mod server;

verus! {

/// Identifies one connection of the server.
pub type StreamID = u32;

/// A change of the shared game state, flooded from one machine to all others.
#[derive(Clone, Copy, Debug, PartialEq, Eq, Structural)]
pub enum Diff {
    /// An entity came into existence at a point.
    Creation(EntityID, Point),
    /// An existing entity moved to a point.
    Movement(EntityID, Point),
}

/// The kinds of communication between client and server.
#[derive(Clone, Copy, Debug, PartialEq, Eq, Structural)]
pub enum NetworkMessage {
    Diff,
    MetaMessage,
}

/// Requests for information; the server answers these directly instead of
/// flooding them.
#[derive(Clone, Copy, Debug, PartialEq, Eq, Structural)]
pub enum MetaMessage {
    RequestEntity(EntityID),
    ProvideEntity(EntityID, Point),
}

/// What the game loop sees of the other participants: it hands them the
/// diffs it produces and takes the diffs that arrived from them.
pub trait RemoteInformant {
    /// Diffs handed over for sending, oldest first.
    spec fn outgoing_diffs(&self) -> Seq<Diff>;

    /// Diffs received and not yet taken, oldest first.
    spec fn incoming_diffs(&self) -> Seq<Diff>;

    /// Hands over several diffs for sending, in order.
    fn update_all(&mut self, diffs: Vec<Diff>)
        ensures
            final(self).outgoing_diffs() == old(self).outgoing_diffs() + diffs@,
            final(self).incoming_diffs() == old(self).incoming_diffs(),
    ;

    /// Hands over one diff for sending.
    fn update(&mut self, diff: Diff)
        ensures
            final(self).outgoing_diffs() == old(self).outgoing_diffs().push(diff),
            final(self).incoming_diffs() == old(self).incoming_diffs(),
    ;

    /// Takes every received diff, oldest first.
    fn drain(&mut self) -> (r: Vec<Diff>)
        ensures
            r@ == old(self).incoming_diffs(),
            final(self).incoming_diffs() == Seq::<Diff>::empty(),
            final(self).outgoing_diffs() == old(self).outgoing_diffs(),
    ;
}

proof fn lemma_updates_accumulate<I: RemoteInformant>(ds: Seq<Diff>, steps: Seq<I>)
    requires
        steps.len() == ds.len() + 1,
        forall|k: int|
            0 <= k < ds.len() ==> (#[trigger] steps[k + 1]).outgoing_diffs()
                == steps[k].outgoing_diffs().push(ds[k]) && steps[k + 1].incoming_diffs()
                == steps[k].incoming_diffs(),
    ensures
        steps.last().outgoing_diffs() == steps[0].outgoing_diffs() + ds,
        steps.last().incoming_diffs() == steps[0].incoming_diffs(),
    decreases ds.len(),
{
    if ds.len() == 0 {
        assert(steps[0].outgoing_diffs() + ds =~= steps[0].outgoing_diffs());
    } else {
        let n = ds.len() - 1;
        assert forall|k: int| 0 <= k < ds.drop_last().len() implies (
        #[trigger] steps.drop_last()[k + 1]).outgoing_diffs() == steps.drop_last()[k].outgoing_diffs().push(
            ds.drop_last()[k],
        ) && steps.drop_last()[k + 1].incoming_diffs() == steps.drop_last()[k].incoming_diffs() by {
            assert(steps[k + 1].outgoing_diffs() == steps[k].outgoing_diffs().push(ds[k]));
        }
        lemma_updates_accumulate(ds.drop_last(), steps.drop_last());
        assert(steps[n + 1].outgoing_diffs() == steps[n].outgoing_diffs().push(ds[n]));
        assert(steps[0].outgoing_diffs() + ds =~= (steps[0].outgoing_diffs() + ds.drop_last()).push(
            ds[n],
        ));
    }
}

/// Handing over several diffs at once has the effect of handing them over
/// one by one. `after_all` is what `update_all(ds)` leaves of `start` (its
/// contract); `steps` are what `update(ds[0])`, `update(ds[1])`, ... leave of
/// `start` in turn (their contracts). The last step and `after_all` hold the
/// same diffs to send and the same diffs received.
pub proof fn lemma_update_all_is_repeated_update<I: RemoteInformant>(
    start: I,
    ds: Seq<Diff>,
    after_all: I,
    steps: Seq<I>,
)
    requires
        after_all.outgoing_diffs() == start.outgoing_diffs() + ds,
        after_all.incoming_diffs() == start.incoming_diffs(),
        steps.len() == ds.len() + 1,
        steps[0] == start,
        forall|k: int|
            0 <= k < ds.len() ==> (#[trigger] steps[k + 1]).outgoing_diffs()
                == steps[k].outgoing_diffs().push(ds[k]) && steps[k + 1].incoming_diffs()
                == steps[k].incoming_diffs(),
    ensures
        after_all.outgoing_diffs() == steps.last().outgoing_diffs(),
        after_all.incoming_diffs() == steps.last().incoming_diffs(),
{
    lemma_updates_accumulate(ds, steps);
}

/// A queue of diffs between the game loop and the network side.
pub struct MsgQueueStruct {
    pub v: Vec<Diff>,
}

impl MsgQueueStruct {
    /// An empty queue.
    pub fn new() -> (q: MsgQueueStruct)
        ensures
            q.v@ == Seq::<Diff>::empty(),
    {
        MsgQueueStruct { v: Vec::new() }
    }
}

/// The game loop's informant on a client or on the server: diffs to send
/// wait in `outgoing`, diffs received wait in `incoming`.
pub struct ClientsideInformant {
    incoming: MsgQueueStruct,
    outgoing: MsgQueueStruct,
}

impl ClientsideInformant {
    /// An informant over the two queues.
    pub fn new(incoming: MsgQueueStruct, outgoing: MsgQueueStruct) -> (ri: ClientsideInformant)
        ensures
            ri.incoming_diffs() == incoming.v@,
            ri.outgoing_diffs() == outgoing.v@,
    {
        ClientsideInformant { incoming: incoming, outgoing: outgoing }
    }

    /// Whether a diff waits to be sent.
    pub fn has_outgoing(&self) -> (b: bool)
        ensures
            b == (self.outgoing_diffs().len() > 0),
    {
        self.outgoing.v.len() > 0
    }

    /// Takes the diff to send next: the oldest one handed over, so that the
    /// others replay diffs in the order they were made.
    pub fn pop_outgoing(&mut self) -> (r: Option<Diff>)
        ensures
            old(self).outgoing_diffs().len() == 0 ==> r is None && final(self).outgoing_diffs()
                == old(self).outgoing_diffs(),
            old(self).outgoing_diffs().len() > 0 ==> r == Some(old(self).outgoing_diffs().first())
                && final(self).outgoing_diffs() == old(self).outgoing_diffs().drop_first(),
            final(self).incoming_diffs() == old(self).incoming_diffs(),
    {
        if self.outgoing.v.len() == 0 {
            None
        } else {
            let d = self.outgoing.v.remove(0);
            assert(self.outgoing.v@ =~= old(self).outgoing.v@.drop_first());
            Some(d)
        }
    }

    /// Takes every diff waiting to be sent, oldest first.
    pub fn take_outgoing(&mut self) -> (r: Vec<Diff>)
        ensures
            r@ == old(self).outgoing_diffs(),
            final(self).outgoing_diffs() == Seq::<Diff>::empty(),
            final(self).incoming_diffs() == old(self).incoming_diffs(),
    {
        let mut r: Vec<Diff> = Vec::new();
        std::mem::swap(&mut r, &mut self.outgoing.v);
        r
    }

    /// Records a diff that arrived from elsewhere.
    pub fn deliver(&mut self, diff: Diff)
        ensures
            final(self).incoming_diffs() == old(self).incoming_diffs().push(diff),
            final(self).outgoing_diffs() == old(self).outgoing_diffs(),
    {
        self.incoming.v.push(diff);
    }
}

impl RemoteInformant for ClientsideInformant {
    closed spec fn outgoing_diffs(&self) -> Seq<Diff> {
        self.outgoing.v@
    }

    closed spec fn incoming_diffs(&self) -> Seq<Diff> {
        self.incoming.v@
    }

    fn update_all(&mut self, diffs: Vec<Diff>) {
        let ghost before = self.outgoing.v@;
        let mut i: usize = 0;
        while i < diffs.len()
            invariant
                0 <= i <= diffs.len(),
                self.outgoing.v@ == before + diffs@.take(i as int),
                self.incoming.v@ == old(self).incoming.v@,
            decreases diffs.len() - i,
        {
            self.outgoing.v.push(diffs[i]);
            assert(diffs@.take(i + 1) =~= diffs@.take(i as int).push(diffs@[i as int]));
            i = i + 1;
        }
        assert(diffs@.take(diffs@.len() as int) =~= diffs@);
    }

    fn update(&mut self, diff: Diff) {
        self.outgoing.v.push(diff);
    }

    fn drain(&mut self) -> (r: Vec<Diff>) {
        let mut r: Vec<Diff> = Vec::new();
        std::mem::swap(&mut r, &mut self.incoming.v);
        r
    }
}

/// A call on a `SharedQueue`.
pub enum QueueCall<T> {
    Push(T),
    Drain,
}

/// The elements pushed by the calls, in order.
pub open spec fn pushed<T>(calls: Seq<QueueCall<T>>) -> Seq<T>
    decreases calls.len(),
{
    if calls.len() == 0 {
        Seq::empty()
    } else {
        let rest = pushed(calls.drop_last());
        match calls.last() {
            QueueCall::Push(t) => rest.push(t),
            QueueCall::Drain => rest,
        }
    }
}

/// One call as the contracts of `lock_push_notify` and
/// `wait_until_nonempty_drain` give it: from contents `before` to `after`,
/// handing out `out` (empty for a push and for a drain that found nothing).
pub open spec fn queue_step<T>(call: QueueCall<T>, before: Seq<T>, after: Seq<T>, out: Seq<T>) -> bool {
    match call {
        QueueCall::Push(t) => after == before.push(t) && out == Seq::<T>::empty(),
        QueueCall::Drain => if before.len() == 0 {
            after == before && out == Seq::<T>::empty()
        } else {
            out == before && after == Seq::<T>::empty()
        },
    }
}

/// Exactly once, in order: over any sequence of calls on a queue, what the
/// drains handed out, followed by what is still queued, is what was queued
/// at the start followed by everything pushed, in push order. So no element
/// is lost or handed out twice, and an element pushed before another comes
/// out no later and, in the same drain, before it.
pub proof fn lemma_queue_hands_out_each_once_in_order<T>(
    calls: Seq<QueueCall<T>>,
    states: Seq<Seq<T>>,
    outs: Seq<Seq<T>>,
)
    requires
        states.len() == calls.len() + 1,
        outs.len() == calls.len(),
        forall|k: int|
            0 <= k < calls.len() ==> queue_step(#[trigger] calls[k], states[k], states[k + 1], outs[k]),
    ensures
        outs.flatten_alt() + states.last() == states[0] + pushed(calls),
    decreases calls.len(),
{
    if calls.len() == 0 {
        assert(outs.flatten_alt() + states.last() =~= states[0] + pushed(calls));
    } else {
        let n = calls.len() - 1;
        assert forall|k: int| 0 <= k < calls.drop_last().len() implies queue_step(
            #[trigger] calls.drop_last()[k],
            states.drop_last()[k],
            states.drop_last()[k + 1],
            outs.drop_last()[k],
        ) by {
            assert(queue_step(calls[k], states[k], states[k + 1], outs[k]));
        }
        lemma_queue_hands_out_each_once_in_order(calls.drop_last(), states.drop_last(), outs.drop_last());
        assert(queue_step(calls[n], states[n], states[n + 1], outs[n]));
        assert(states.drop_last().last() == states[n]);
        assert(calls.last() == calls[n]);
        match calls[n] {
            QueueCall::Push(t) => {
                let f = outs.drop_last().flatten_alt();
                assert(outs.last() == outs[n]);
                assert(outs.flatten_alt() == f + outs[n]);
                assert(pushed(calls) == pushed(calls.drop_last()).push(t));
                assert(f + states[n] == states[0] + pushed(calls.drop_last()));
                assert(f + outs[n] + states[n + 1] =~= (f + states[n]).push(t));
                assert(outs.flatten_alt() + states.last() =~= states[0] + pushed(calls));
            },
            QueueCall::Drain => {
                let f = outs.drop_last().flatten_alt();
                assert(outs.last() == outs[n]);
                assert(outs.flatten_alt() == f + outs[n]);
                assert(pushed(calls) == pushed(calls.drop_last()));
                assert(f + states[n] == states[0] + pushed(calls.drop_last()));
                if states[n].len() == 0 {
                    assert(f + outs[n] + states[n + 1] =~= f + states[n]);
                } else {
                    assert(f + outs[n] + states[n + 1] =~= f + states[n]);
                }
                assert(outs.flatten_alt() + states.last() =~= states[0] + pushed(calls));
            },
        }
    }
}

/// A queue shared between threads: producers push and notify, a consumer
/// waits until something is there and then takes everything. Locking and
/// waking belong to whoever shares it; this is the queue's state.
pub struct SharedQueue<T> {
    queue: Vec<T>,
}

impl<T> View for SharedQueue<T> {
    type V = Seq<T>;

    closed spec fn view(&self) -> Seq<T> {
        self.queue@
    }
}

impl<T> SharedQueue<T> {
    /// An empty queue.
    pub fn new() -> (q: Self)
        ensures
            q@ == Seq::<T>::empty(),
    {
        SharedQueue { queue: Vec::new() }
    }

    /// Appends `t`; the sharer then wakes the waiting consumers.
    pub fn lock_push_notify(&mut self, t: T)
        ensures
            final(self)@ == old(self)@.push(t),
    {
        self.queue.push(t);
    }

    /// `None` while the queue is empty (the consumer waits and asks again);
    /// otherwise everything in it, oldest first, leaving it empty.
    pub fn wait_until_nonempty_drain(&mut self) -> (r: Option<Vec<T>>)
        ensures
            old(self)@.len() == 0 ==> r is None && final(self)@ == old(self)@,
            old(self)@.len() > 0 ==> (r matches Some(v) && v@ == old(self)@),
            old(self)@.len() > 0 ==> final(self)@ == Seq::<T>::empty(),
    {
        if self.queue.len() == 0 {
            None
        } else {
            let mut t: Vec<T> = Vec::new();
            std::mem::swap(&mut t, &mut self.queue);
            Some(t)
        }
    }
}

} // verus!
