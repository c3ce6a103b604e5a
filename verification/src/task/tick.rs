//! The one-second tick: every hundredth tick of the timer is handed on.
use vstd::prelude::*;

use crate::task::queue::ByteQueue;

verus! {

/// How many seconds can wait.
pub const TICK_QUEUE_CAPACITY: usize = 8;

/// How often the timer ticks in a second.
pub const TICKS_PER_SECOND: u32 = 100;

/// The seconds that have passed and were not yet asked for.
pub struct SecondStream {
    queue: ByteQueue,
}

impl SecondStream {
    /// How many seconds wait.
    pub closed spec fn seconds(self) -> nat {
        self.queue@.len()
    }

    pub closed spec fn wf(self) -> bool {
        self.queue.wf() && self.queue.capacity() == TICK_QUEUE_CAPACITY
    }

    /// A stream for which no second has passed.
    pub fn new() -> (r: Self)
        ensures
            r.wf(),
            r.seconds() == 0,
    {
        SecondStream { queue: ByteQueue::new(TICK_QUEUE_CAPACITY) }
    }

    /// Takes one of the waiting seconds, if there is one.
    pub fn next(&mut self) -> (r: Option<()>)
        requires
            old(self).wf(),
        ensures
            final(self).wf(),
            r is Some <==> old(self).seconds() > 0,
            final(self).seconds() == if old(self).seconds() > 0 {
                old(self).seconds() - 1
            } else {
                0
            },
    {
        match self.queue.pop() {
            Some(_) => Some(()),
            None => None,
        }
    }

    /// Hands a second on. Where too many wait already, it is lost.
    fn second(&mut self)
        requires
            old(self).wf(),
        ensures
            final(self).wf(),
            final(self).seconds() == if old(self).seconds() < TICK_QUEUE_CAPACITY {
                old(self).seconds() + 1
            } else {
                old(self).seconds()
            },
    {
        let _ = self.queue.push(0);
    }
}

impl Default for SecondStream {
    fn default() -> (r: Self)
        ensures
            r.wf(),
            r.seconds() == 0,
    {
        SecondStream::new()
    }
}

/// Whether a tick ends a second.
pub open spec fn ends_second(subtick: u32) -> bool {
    subtick + 1 >= TICKS_PER_SECOND
}

/// The ticks of the second so far, after one more.
pub open spec fn subtick_after(subtick: u32) -> u32 {
    if ends_second(subtick) {
        0
    } else {
        (subtick + 1) as u32
    }
}

/// Takes one tick of the timer. Every hundredth hands a second on, where anyone
/// waits for it. The result says whether to wake them.
pub fn notify_tick(subtick: &mut u32, stream: &mut Option<SecondStream>) -> (r: bool)
    requires
        *old(subtick) < u32::MAX,
        *old(stream) matches Some(s) ==> s.wf(),
    ensures
        *final(subtick) == subtick_after(*old(subtick)),
        r <==> ends_second(*old(subtick)) && *old(stream) is Some,
        !r ==> *final(stream) == *old(stream),
        r ==> *final(stream) is Some && (*final(stream))->0.wf() && (*final(stream))->0.seconds()
            == if (*old(stream))->0.seconds() < TICK_QUEUE_CAPACITY {
            (*old(stream))->0.seconds() + 1
        } else {
            (*old(stream))->0.seconds()
        },
{
    let n: u32 = *subtick + 1;
    if n < TICKS_PER_SECOND {
        *subtick = n;
        return false;
    }
    *subtick = 0;
    match stream {
        Some(s) => {
            s.second();
            true
        },
        None => false,
    }
}

// ---------- Laws ----------

/// The ticks of the second so far, `n` ticks after the start.
pub open spec fn subtick_at(n: int) -> u32
    decreases n,
{
    if n <= 0 {
        0
    } else {
        subtick_after(subtick_at(n - 1))
    }
}

/// A second ends at every hundredth tick and at no other.
pub proof fn law_every_hundredth(n: int)
    requires
        0 <= n,
    ensures
        subtick_at(n) == n % 100,
        ends_second(subtick_at(n)) <==> (n + 1) % 100 == 0,
    decreases n,
{
    if n > 0 {
        law_every_hundredth(n - 1);
    }
}

} // verus!
