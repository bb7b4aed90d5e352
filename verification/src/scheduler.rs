//! Decision core of the bounded collection orchestrator.
//!
//! The scheduler hands out one permit per in-flight page fetch and takes
//! it back when the fetch completes. `new` establishes the
//! well-formedness invariant and every method preserves it, so in every
//! reachable state the number of in-flight fetches stays at or under
//! the concurrency ceiling. The caller that runs the fetches launches a
//! page only when `launch` grants it and reports each completion.

use vstd::prelude::*;

verus! {

/// Permit-pool state of one collection job over numbered pages
/// `1..=total_pages`.
pub struct Scheduler {
    pub capacity: u32,
    pub total_pages: u32,
    pub next_page: u32,
    pub in_flight: u32,
    pub completed: u32,
}

impl Scheduler {
    /// The scheduler's invariant: the next page to launch stays within
    /// range, in-flight fetches never exceed the ceiling, and pages
    /// launched so far are exactly those completed or in flight.
    pub open spec fn wf(self) -> bool {
        &&& self.capacity >= 1
        &&& self.total_pages < u32::MAX
        &&& 1 <= self.next_page <= self.total_pages as int + 1
        &&& self.in_flight <= self.capacity
        &&& self.completed + self.in_flight == self.next_page - 1
    }

    /// A job of `total_pages` pages under ceiling `capacity`, nothing
    /// launched yet.
    pub fn new(total_pages: u32, capacity: u32) -> (r: Scheduler)
        requires
            capacity >= 1,
            total_pages < u32::MAX,
        ensures
            r.wf(),
            r.capacity == capacity,
            r.total_pages == total_pages,
            r.next_page == 1,
            r.in_flight == 0,
            r.completed == 0,
    {
        Scheduler { capacity, total_pages, next_page: 1, in_flight: 0, completed: 0 }
    }

    /// Grants a permit for the next page when one is free and pages
    /// remain: the granted page joins the in-flight count. Returns
    /// nothing when the ceiling is reached or no page is left, leaving
    /// the state unchanged.
    pub fn launch(&mut self) -> (r: Option<u32>)
        requires
            old(self).wf(),
        ensures
            final(self).wf(),
            (r is Some) == (old(self).in_flight < old(self).capacity && old(self).next_page <= old(
                self,
            ).total_pages),
            r matches Some(p) ==> p == old(self).next_page && final(self).next_page == old(
                self,
            ).next_page + 1 && final(self).in_flight == old(self).in_flight + 1,
            r is None ==> *final(self) == *old(self),
            final(self).capacity == old(self).capacity,
            final(self).total_pages == old(self).total_pages,
            final(self).completed == old(self).completed,
    {
        if self.in_flight < self.capacity && self.next_page <= self.total_pages {
            let p = self.next_page;
            self.next_page = self.next_page + 1;
            self.in_flight = self.in_flight + 1;
            Some(p)
        } else {
            None
        }
    }

    /// Returns the permit of one in-flight page whose fetch finished,
    /// whatever its outcome was.
    pub fn complete(&mut self)
        requires
            old(self).wf(),
            old(self).in_flight >= 1,
        ensures
            final(self).wf(),
            final(self).in_flight == old(self).in_flight - 1,
            final(self).completed == old(self).completed + 1,
            final(self).capacity == old(self).capacity,
            final(self).total_pages == old(self).total_pages,
            final(self).next_page == old(self).next_page,
    {
        self.in_flight = self.in_flight - 1;
        self.completed = self.completed + 1;
    }

    /// Whether every page of the job has been launched and completed.
    pub fn done(&self) -> (r: bool)
        requires
            self.wf(),
        ensures
            r == (self.completed == self.total_pages && self.in_flight == 0),
    {
        self.completed == self.total_pages && self.in_flight == 0
    }
}

/// Law: in every well-formed scheduler state — `new` establishes the
/// invariant and each method keeps it — the number of concurrently
/// in-flight page fetches is at most the configured ceiling.
pub proof fn lemma_in_flight_bounded(s: Scheduler)
    requires
        s.wf(),
    ensures
        s.in_flight <= s.capacity,
{
}

} // verus!
