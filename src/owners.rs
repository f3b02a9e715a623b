//! Owner counts for handles that are freed when their last owner goes.
//!
//! Each allocation made through an owning handle gets a ticket; every copy
//! of the handle is one owner of the ticket, and the allocation is to be
//! freed exactly when the count of its ticket falls to zero.

use std::collections::HashMap;
use vstd::prelude::*;

verus! {

broadcast use vstd::std_specs::hash::group_hash_axioms;

/// The owner count of each live ticket.
pub struct OwnerTable {
    counts: HashMap<u64, u64>,
    next: u64,
}

impl OwnerTable {
    /// Each live ticket to its number of owners.
    pub closed spec fn owners(&self) -> Map<u64, u64> {
        self.counts@
    }

    /// The next ticket to hand out.
    pub closed spec fn next_ticket(&self) -> u64 {
        self.next
    }

    /// Every live ticket was handed out and has at least one owner.
    pub closed spec fn wf(&self) -> bool {
        forall|t: u64| #[trigger] self.counts@.contains_key(t) ==> t < self.next && self.counts@[t] >= 1
    }

    /// A table with no tickets.
    pub fn new() -> (r: Self)
        ensures
            r.wf(),
            r.owners() == Map::<u64, u64>::empty(),
            r.next_ticket() == 0,
    {
        OwnerTable { counts: HashMap::new(), next: 0 }
    }

    /// The next ticket to hand out; `register` needs it below `u64::MAX`.
    pub fn peek_next(&self) -> (r: u64)
        ensures
            r == self.next_ticket(),
    {
        self.next
    }

    /// What `register` does: a ticket that was not live gets one owner.
    pub open spec fn register_post(pre: Self, t: u64, post: Self) -> bool {
        &&& !pre.owners().contains_key(t)
        &&& post.owners() == pre.owners().insert(t, 1)
        &&& post.next_ticket() == pre.next_ticket() + 1
    }

    /// Hands out a new ticket with one owner.
    pub fn register(&mut self) -> (t: u64)
        requires
            old(self).wf(),
            old(self).next_ticket() < u64::MAX,
        ensures
            final(self).wf(),
            Self::register_post(*old(self), t, *final(self)),
    {
        let t = self.next;
        self.counts.insert(t, 1);
        self.next = self.next + 1;
        t
    }

    /// The number of owners of a ticket; zero for one that is not live.
    pub fn owner_count(&self, t: u64) -> (r: u64)
        ensures
            self.owners().contains_key(t) ==> r == self.owners()[t],
            !self.owners().contains_key(t) ==> r == 0,
    {
        match self.counts.get(&t) {
            Some(c) => *c,
            None => 0,
        }
    }

    /// What `acquire` does: one more owner for a live ticket.
    pub open spec fn acquire_post(pre: Self, t: u64, post: Self) -> bool {
        &&& post.owners() == pre.owners().insert(t, (pre.owners()[t] + 1) as u64)
        &&& post.next_ticket() == pre.next_ticket()
    }

    /// Adds an owner to a live ticket (a handle was copied).
    pub fn acquire(&mut self, t: u64)
        requires
            old(self).wf(),
            old(self).owners().contains_key(t),
            old(self).owners()[t] < u64::MAX,
        ensures
            final(self).wf(),
            Self::acquire_post(*old(self), t, *final(self)),
    {
        let c = *self.counts.get(&t).unwrap();
        self.counts.insert(t, c + 1);
    }

    /// What `release` does: one owner fewer; the last owner's release takes
    /// the ticket out and reports that the allocation must be freed. A
    /// ticket that is not live is left alone.
    pub open spec fn release_post(pre: Self, t: u64, last: bool, post: Self) -> bool {
        &&& post.next_ticket() == pre.next_ticket()
        &&& if !pre.owners().contains_key(t) {
            !last && post.owners() == pre.owners()
        } else if pre.owners()[t] == 1 {
            last && post.owners() == pre.owners().remove(t)
        } else {
            !last && post.owners() == pre.owners().insert(t, (pre.owners()[t] - 1) as u64)
        }
    }

    /// Removes an owner of a ticket (a handle was dropped); returns whether
    /// it was the last one.
    pub fn release(&mut self, t: u64) -> (last: bool)
        requires
            old(self).wf(),
        ensures
            final(self).wf(),
            Self::release_post(*old(self), t, last, *final(self)),
    {
        match self.counts.get(&t) {
            Some(c) => {
                let c = *c;
                if c == 1 {
                    self.counts.remove(&t);
                    true
                } else {
                    self.counts.insert(t, c - 1);
                    false
                }
            },
            None => false,
        }
    }

    /// A handle that was copied once keeps its allocation when the first of
    /// the two copies is dropped, and the drop of the second one frees it.
    pub proof fn lemma_last_owner_frees(
        a: Self,
        t: u64,
        b: Self,
        c: Self,
        first: bool,
        d: Self,
        second: bool,
        e: Self,
    )
        requires
            Self::register_post(a, t, b),
            Self::acquire_post(b, t, c),
            Self::release_post(c, t, first, d),
            Self::release_post(d, t, second, e),
        ensures
            !first,
            second,
            !e.owners().contains_key(t),
    {
    }
}

} // verus!
