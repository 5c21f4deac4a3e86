//! Bounded log ring: the last `LOG_CAPACITY` display strings, oldest first,
//! with FIFO eviction. A ghost history of everything ever appended ties the
//! retained window down exactly.

use std::collections::VecDeque;
use vstd::prelude::*;

use crate::parser::views;

verus! {

/// Capacity of the log ring.
pub const LOG_CAPACITY: usize = 100;

/// The window of a history that a ring of capacity `LOG_CAPACITY` retains:
/// the whole history while it fits, else its last `LOG_CAPACITY` lines.
pub open spec fn log_window(history: Seq<Seq<char>>) -> Seq<Seq<char>> {
    if history.len() <= LOG_CAPACITY {
        history
    } else {
        history.skip(history.len() - LOG_CAPACITY)
    }
}

/// Bounded FIFO of display strings; appending past capacity drops the oldest.
pub struct LogRing {
    entries: VecDeque<String>,
    history: Ghost<Seq<Seq<char>>>,
}

impl LogRing {
    /// Every line ever appended, oldest first.
    pub closed spec fn history(self) -> Seq<Seq<char>> {
        self.history@
    }

    /// The retained lines, oldest first.
    pub closed spec fn lines(self) -> Seq<Seq<char>> {
        views(self.entries@)
    }

    /// The ring retains exactly the window of its history.
    pub open spec fn wf(self) -> bool {
        self.lines() == log_window(self.history())
    }

    /// An empty ring.
    pub fn new() -> (r: LogRing)
        ensures
            r.wf(),
            r.history() == Seq::<Seq<char>>::empty(),
    {
        let r = LogRing { entries: VecDeque::new(), history: Ghost(Seq::empty()) };
        proof {
            assert(r.lines() =~= log_window(r.history()));
        }
        r
    }

    /// Append one line, dropping the oldest line if the ring is full.
    pub fn append(&mut self, line: String)
        requires
            old(self).wf(),
        ensures
            final(self).wf(),
            final(self).history() == old(self).history().push(line@),
    {
        let ghost old_entries = self.entries@;
        let ghost old_history = self.history@;
        proof {
            assert(views(old_entries) == log_window(old_history));
            assert(views(old_entries).len() == old_entries.len());
        }
        proof {
            self.history@ = self.history@.push(line@);
        }
        self.entries.push_back(line);
        if self.entries.len() > LOG_CAPACITY {
            self.entries.pop_front();
            proof {
                let newh = old_history.push(line@);
                assert(old_entries.len() == LOG_CAPACITY);
                assert(old_history.len() >= LOG_CAPACITY);
                assert forall|i: int| 0 <= i < views(self.entries@).len() implies views(
                    self.entries@,
                )[i] == log_window(newh)[i] by {
                    assert(self.entries@[i] == old_entries.push(line)[i + 1]);
                    if i < LOG_CAPACITY - 1 {
                        assert(views(old_entries)[i + 1] == log_window(old_history)[i + 1]);
                    }
                }
                assert(views(self.entries@) =~= log_window(newh));
            }
        } else {
            proof {
                let newh = old_history.push(line@);
                assert(old_history.len() < LOG_CAPACITY);
                assert(views(self.entries@) =~= views(old_entries).push(line@));
                assert(views(self.entries@) =~= log_window(newh));
            }
        }
    }

    /// Number of retained lines.
    pub fn len(&self) -> (r: usize)
        ensures
            r == self.lines().len(),
    {
        self.entries.len()
    }

    /// The `i`-th retained line, oldest first.
    pub fn get(&self, i: usize) -> (r: &String)
        requires
            i < self.lines().len(),
        ensures
            r@ == self.lines()[i as int],
    {
        &self.entries[i]
    }
}

/// Law: the ring retains exactly the most recent `LOG_CAPACITY` lines of its
/// history, oldest first — no more, no fewer, in order.
pub proof fn lemma_log_ring_bound(r: LogRing)
    requires
        r.wf(),
    ensures
        r.lines().len() == vstd::math::min(r.history().len() as int, LOG_CAPACITY as int),
        forall|i: int|
            0 <= i < r.lines().len() ==> r.lines()[i] == r.history()[r.history().len()
                - r.lines().len() + i],
{
}

} // verus!
