//! Cooperative tasks: their identities, the run queue, and the machines behind
//! the keyboard, the mouse and the one-second tick.
use vstd::prelude::*;

pub mod executor;
pub mod keyboard;
pub mod mouse;
pub mod queue;
pub mod tick;

verus! {

/// What a task is known by: a number that counts the tasks.
#[derive(Debug, Clone, Copy, PartialEq, Eq, PartialOrd, Ord, Hash, Structural)]
pub struct TaskId(u64);

impl TaskId {
    /// The number.
    pub closed spec fn number(self) -> u64 {
        self.0
    }

    /// The number that comes after `n`: after the largest, zero.
    pub open spec fn after(n: u64) -> u64 {
        if n == u64::MAX {
            0
        } else {
            (n + 1) as u64
        }
    }

    /// The next identity; `next` counts them.
    fn new(next: &mut u64) -> (r: TaskId)
        ensures
            r.number() == *old(next),
            *final(next) == TaskId::after(*old(next)),
    {
        let id: u64 = *next;
        *next = id.wrapping_add(1);
        TaskId(id)
    }

    /// The number.
    pub fn get(self) -> (r: u64)
        ensures
            r == self.number(),
    {
        self.0
    }
}

/// Work that is done bit by bit, and what it is known by.
pub struct Task<F> {
    id: TaskId,
    future: F,
}

impl<F> Task<F> {
    /// What the task is known by.
    pub closed spec fn id(self) -> u64 {
        self.id.number()
    }

    /// The work.
    pub closed spec fn work(self) -> F {
        self.future
    }

    /// A task for the work, with the next identity.
    pub fn new(next: &mut u64, future: F) -> (r: Task<F>)
        ensures
            r.id() == *old(next),
            r.work() == future,
            *final(next) == TaskId::after(*old(next)),
    {
        Task { id: TaskId::new(next), future }
    }

    /// What the task is known by.
    pub fn task_id(&self) -> (r: TaskId)
        ensures
            r.number() == self.id(),
    {
        self.id
    }

    /// Lends the work out.
    pub fn future_mut(&mut self) -> (r: &mut F)
        ensures
            *r == old(self).work(),
            final(self).work() == *final(r),
            final(self).id() == old(self).id(),
    {
        &mut self.future
    }
}

// ---------- Laws ----------

/// The identity that comes `n` tasks after `first`.
pub open spec fn id_after(first: u64, n: int) -> u64
    decreases n,
{
    if n <= 0 {
        first
    } else {
        TaskId::after(id_after(first, n - 1))
    }
}

proof fn lemma_id_after(first: u64, n: int)
    requires
        0 <= n,
    ensures
        id_after(first, n) == (first + n) % 0x1_0000_0000_0000_0000,
    decreases n,
{
    if n > 0 {
        lemma_id_after(first, n - 1);
    }
}

/// No two tasks have the same identity, as long as no more than two to the power
/// of sixty-four are made.
pub proof fn law_ids_distinct(first: u64, i: int, j: int)
    requires
        0 <= i < j <= u64::MAX,
    ensures
        id_after(first, i) != id_after(first, j),
{
    lemma_id_after(first, i);
    lemma_id_after(first, j);
}

} // verus!
