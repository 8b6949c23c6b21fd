//! The consensus event relay: each event, in delivery order, drives the registry and the
//! pool; and a bounded buffer of events for subscribers that drops the oldest when full.
use vstd::prelude::*;

use crate::bytes::byte_seqs;
use crate::pool::{without_decided, TransactionPool};
use crate::registry::{chain_keys, proposal_post, survives_decide, BuilderError, BuilderState, ForkKey, GlobalState, QuorumProposal};

verus! {

/// A decide: `view` is finalized along `leaf_chain`, and `included` lists the commitments
/// of the transactions the finalized blocks include.
#[derive(Debug)]
pub struct DecideEvent {
    pub view: u64,
    pub leaf_chain: Vec<ForkKey>,
    pub included: Vec<Vec<u8>>,
}

/// An event of the consensus stream.
#[derive(Debug)]
pub enum Event {
    QuorumProposal(QuorumProposal),
    Decide(DecideEvent),
}

/// The pool and the registry that consensus events drive.
pub struct Builder {
    pub pool: TransactionPool,
    pub registry: GlobalState,
}

impl Builder {
    /// The pool and the registry are well formed.
    pub open spec fn wf(&self) -> bool {
        self.pool.wf() && self.registry.wf()
    }

    /// Handles one event. A proposal registers the fork built on the proposed block; a
    /// decide prunes the registry, drops the decided transactions from the pool, and
    /// returns the decided view, whose state is to be signed next.
    pub fn handle_event(&mut self, e: &Event) -> (r: Result<Option<u64>, BuilderError>)
        requires
            old(self).wf(),
        ensures
            final(self).wf(),
            final(self).pool.capacity == old(self).pool.capacity,
            match *e {
                Event::QuorumProposal(p) => {
                    &&& final(self).pool@ == old(self).pool@
                    &&& exists|ri: Result<usize, BuilderError>| #[trigger] proposal_post(
                        old(self).registry,
                        p,
                        final(self).registry,
                        ri,
                    ) && match ri {
                        Ok(_) => r == Ok::<Option<u64>, BuilderError>(None),
                        Err(x) => r == Err::<Option<u64>, BuilderError>(x),
                    }
                },
                Event::Decide(d) => {
                    &&& r == Ok::<Option<u64>, BuilderError>(Some(d.view))
                    &&& final(self).pool@ == without_decided(old(self).pool@, byte_seqs(d.included@))
                    &&& final(self).registry.states@ == old(self).registry.states@.filter(
                        |s: BuilderState| survives_decide(s.key@, d.view, chain_keys(d.leaf_chain@)),
                    )
                },
            },
    {
        match e {
            Event::QuorumProposal(p) => {
                let ri = self.registry.handle_quorum_proposal(p);
                assert(proposal_post(old(self).registry, *p, self.registry, ri));
                match ri {
                    Ok(_) => Ok(None),
                    Err(x) => Err(x),
                }
            },
            Event::Decide(d) => {
                self.registry.handle_decide(d.view, &d.leaf_chain);
                self.pool.remove_decided(&d.included);
                Ok(Some(d.view))
            },
        }
    }
}

/// Why a subscriber could not read an event.
#[derive(Debug, PartialEq, Eq, Structural)]
pub enum ReplayError {
    /// The event was dropped to make room for newer ones.
    Lagged,
    /// No event with that sequence number has been published yet.
    NotYet,
}

/// The last `capacity` events published, the first of them with sequence number
/// `first_seq`.
pub struct EventBuffer<T> {
    pub capacity: usize,
    pub items: Vec<T>,
    pub first_seq: u64,
}

impl<T> EventBuffer<T> {
    /// The buffer holds at most `capacity` events, which is at least one, and sequence
    /// numbers stay representable.
    pub open spec fn wf(&self) -> bool {
        &&& 0 < self.capacity
        &&& self.items@.len() <= self.capacity
        &&& self.first_seq + self.items@.len() <= u64::MAX
    }

    /// An empty buffer of the given capacity; `None` for capacity zero.
    pub fn new(capacity: usize) -> (r: Option<EventBuffer<T>>)
        ensures
            capacity == 0 <==> r is None,
            r matches Some(b) ==> (b.wf() && b.capacity == capacity && b.items@.len() == 0 && b.first_seq == 0),
    {
        if capacity == 0 {
            None
        } else {
            Some(EventBuffer { capacity, items: Vec::new(), first_seq: 0 })
        }
    }

    /// The sequence number the next published event gets.
    pub fn next_seq(&self) -> (r: u64)
        requires
            self.wf(),
        ensures
            r == self.first_seq + self.items@.len(),
    {
        self.first_seq + self.items.len() as u64
    }

    /// Publishes an event; when the buffer is full the oldest event is dropped first.
    pub fn publish(&mut self, item: T)
        requires
            old(self).wf(),
            old(self).first_seq + old(self).items@.len() < u64::MAX,
        ensures
            final(self).wf(),
            final(self).capacity == old(self).capacity,
            old(self).items@.len() < old(self).capacity ==> (final(self).items@ == old(self).items@.push(item)
                && final(self).first_seq == old(self).first_seq),
            old(self).items@.len() == old(self).capacity ==> (final(self).items@ == old(self).items@.subrange(
                1,
                old(self).items@.len() as int,
            ).push(item) && final(self).first_seq == old(self).first_seq + 1),
    {
        if self.items.len() == self.capacity {
            self.items.remove(0);
            self.first_seq = self.first_seq + 1;
        }
        self.items.push(item);
    }

    /// The event with sequence number `seq`: `Lagged` when it has been dropped, `NotYet`
    /// when it has not been published.
    pub fn get(&self, seq: u64) -> (r: Result<&T, ReplayError>)
        requires
            self.wf(),
        ensures
            seq < self.first_seq ==> r == Err::<&T, ReplayError>(ReplayError::Lagged),
            seq >= self.first_seq + self.items@.len() ==> r == Err::<&T, ReplayError>(ReplayError::NotYet),
            self.first_seq <= seq < self.first_seq + self.items@.len() ==> r == Ok::<&T, ReplayError>(
                &self.items@[seq - self.first_seq],
            ),
    {
        if seq < self.first_seq {
            return Err(ReplayError::Lagged);
        }
        let k = seq - self.first_seq;
        if k >= self.items.len() as u64 {
            return Err(ReplayError::NotYet);
        }
        Ok(&self.items[k as usize])
    }
}

} // verus!
