//! The bounded message queue between the reader task and the router: FIFO, so
//! messages reach the router in exactly the order they were parsed, with an
//! explicit overflow policy — past `QUEUE_CAPACITY` the oldest message is
//! dropped, matching the log ring's eviction, so a stalled consumer bounds
//! memory instead of growing it.

use std::collections::VecDeque;
use vstd::prelude::*;

use crate::message::ParsedMessage;

verus! {

/// Capacity of the reader-to-router queue.
pub const QUEUE_CAPACITY: usize = 1024;

/// Bounded FIFO of parsed messages, drop-oldest on overflow.
pub struct MessageQueue {
    entries: VecDeque<ParsedMessage>,
}

impl View for MessageQueue {
    type V = Seq<ParsedMessage>;

    closed spec fn view(&self) -> Seq<ParsedMessage> {
        self.entries@
    }
}

impl MessageQueue {
    /// The queue never holds more than its capacity.
    pub open spec fn wf(self) -> bool {
        self@.len() <= QUEUE_CAPACITY
    }

    /// An empty queue.
    pub fn new() -> (r: MessageQueue)
        ensures
            r.wf(),
            r@ == Seq::<ParsedMessage>::empty(),
    {
        MessageQueue { entries: VecDeque::new() }
    }

    /// Number of queued messages.
    pub fn len(&self) -> (r: usize)
        ensures
            r == self@.len(),
    {
        self.entries.len()
    }

    /// Enqueue one message at the back; when full, the oldest is dropped.
    pub fn push(&mut self, msg: ParsedMessage)
        requires
            old(self).wf(),
        ensures
            final(self).wf(),
            final(self)@ == if old(self)@.len() < QUEUE_CAPACITY {
                old(self)@.push(msg)
            } else {
                old(self)@.skip(1).push(msg)
            },
    {
        if self.entries.len() >= QUEUE_CAPACITY {
            self.entries.pop_front();
        }
        self.entries.push_back(msg);
        proof {
            if old(self)@.len() >= QUEUE_CAPACITY {
                assert(self@ =~= old(self)@.skip(1).push(msg));
            }
        }
    }

    /// Dequeue the oldest message, if any.
    pub fn pop(&mut self) -> (r: Option<ParsedMessage>)
        requires
            old(self).wf(),
        ensures
            final(self).wf(),
            match r {
                Some(m) => old(self)@.len() > 0 && m == old(self)@[0] && final(self)@ == old(
                    self,
                )@.skip(1),
                None => old(self)@.len() == 0 && final(self)@ == old(self)@,
            },
    {
        let r = self.entries.pop_front();
        proof {
            if old(self)@.len() > 0 {
                assert(self@ =~= old(self)@.skip(1));
            }
        }
        r
    }
}

} // verus!
