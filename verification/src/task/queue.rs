//! Bounded queues of numbers, first in, first out.
use vstd::prelude::*;

use crossbeam_queue::ArrayQueue;

verus! {

/// `crossbeam_queue::ArrayQueue`: a bounded queue.
#[verifier::external_type_specification]
#[verifier::external_body]
#[verifier::reject_recursive_types(T)]
pub struct ExArrayQueue<T>(ArrayQueue<T>);

/// What waits in a queue, the oldest first.
pub uninterp spec fn waiting(q: ArrayQueue<u64>) -> Seq<u64>;

/// How many items a queue can hold.
pub uninterp spec fn room(q: ArrayQueue<u64>) -> nat;

/// `ArrayQueue::new` makes an empty queue that can hold `capacity` items. It does
/// not take a capacity of zero, nor one whose slots, of sixteen bytes each, are more
/// than can be asked for in one piece; the next power of two of any other fits.
#[verifier::external_body]
pub(crate) fn new_queue(capacity: usize) -> (r: ArrayQueue<u64>)
    requires
        0 < capacity,
        16 * capacity <= isize::MAX,
    ensures
        waiting(r) == Seq::<u64>::empty(),
        room(r) == capacity,
{
    ArrayQueue::new(capacity)
}

/// `ArrayQueue::push` puts an item behind the others, or leaves the queue as it
/// is where it is full. The result says whether there was room.
#[verifier::external_body]
pub(crate) fn queue_push(q: &mut ArrayQueue<u64>, item: u64) -> (r: bool)
    ensures
        r <==> waiting(*old(q)).len() < room(*old(q)),
        room(*final(q)) == room(*old(q)),
        r ==> waiting(*final(q)) == waiting(*old(q)).push(item),
        !r ==> waiting(*final(q)) == waiting(*old(q)),
{
    q.push(item).is_ok()
}

/// `ArrayQueue::pop` takes the oldest item out, if there is one.
#[verifier::external_body]
pub(crate) fn queue_pop(q: &mut ArrayQueue<u64>) -> (r: Option<u64>)
    ensures
        room(*final(q)) == room(*old(q)),
        r is None <==> waiting(*old(q)).len() == 0,
        r matches Some(item) ==> item == waiting(*old(q))[0] && waiting(*final(q)) == waiting(
            *old(q),
        ).drop_first(),
        r is None ==> waiting(*final(q)) == waiting(*old(q)),
{
    q.pop()
}

/// `ArrayQueue::is_empty`: nothing waits.
#[verifier::external_body]
pub(crate) fn queue_is_empty(q: &ArrayQueue<u64>) -> (r: bool)
    ensures
        r <==> waiting(*q).len() == 0,
{
    q.is_empty()
}

/// `ArrayQueue::is_full`: as many items wait as the queue can hold. No more ever
/// do.
#[verifier::external_body]
pub(crate) fn queue_is_full(q: &ArrayQueue<u64>) -> (r: bool)
    ensures
        r <==> waiting(*q).len() >= room(*q),
{
    q.is_full()
}

/// The items as bytes.
pub open spec fn bytes_of(items: Seq<u64>) -> Seq<u8> {
    items.map_values(|n: u64| n as u8)
}

/// Every item is a byte.
pub open spec fn all_bytes(items: Seq<u64>) -> bool {
    forall|i: int| 0 <= i < items.len() ==> #[trigger] items[i] < 256
}

/// What pushing onto a bounded list leaves: the item is dropped where the list is
/// full.
pub open spec fn pushed<T>(list: Seq<T>, capacity: int, item: T) -> Seq<T> {
    if list.len() < capacity {
        list.push(item)
    } else {
        list
    }
}

/// What popping leaves.
pub open spec fn popped<T>(list: Seq<T>) -> Seq<T> {
    if list.len() == 0 {
        list
    } else {
        list.drop_first()
    }
}

/// A bounded queue of bytes.
pub struct ByteQueue {
    queue: ArrayQueue<u64>,
}

impl View for ByteQueue {
    type V = Seq<u8>;

    closed spec fn view(&self) -> Seq<u8> {
        bytes_of(waiting(self.queue))
    }
}

impl ByteQueue {
    /// How many bytes the queue can hold.
    pub closed spec fn capacity(self) -> int {
        room(self.queue) as int
    }

    /// Every item is a byte.
    pub closed spec fn wf(self) -> bool {
        all_bytes(waiting(self.queue))
    }

    /// An empty queue.
    pub fn new(capacity: usize) -> (r: ByteQueue)
        requires
            0 < capacity,
            16 * capacity <= isize::MAX,
        ensures
            r.wf(),
            r@ == Seq::<u8>::empty(),
            r.capacity() == capacity,
    {
        let r = ByteQueue { queue: new_queue(capacity) };
        assert(r@ =~= Seq::<u8>::empty());
        r
    }

    /// Puts a byte behind the others, if there is room.
    pub fn push(&mut self, byte: u8) -> (r: bool)
        requires
            old(self).wf(),
        ensures
            final(self).wf(),
            final(self).capacity() == old(self).capacity(),
            r <==> old(self)@.len() < old(self).capacity(),
            final(self)@ == pushed(old(self)@, old(self).capacity(), byte),
    {
        let done = queue_push(&mut self.queue, byte as u64);
        assert(byte as u64 as u8 == byte);
        assert(self@ =~= pushed(old(self)@, old(self).capacity(), byte));
        done
    }

    /// Takes the oldest byte out, if there is one.
    pub fn pop(&mut self) -> (r: Option<u8>)
        requires
            old(self).wf(),
        ensures
            final(self).wf(),
            final(self).capacity() == old(self).capacity(),
            r == if old(self)@.len() == 0 {
                None
            } else {
                Some(old(self)@[0])
            },
            final(self)@ == popped(old(self)@),
    {
        let first = queue_pop(&mut self.queue);
        assert(self@ =~= popped(old(self)@));
        match first {
            Some(n) => Some(n as u8),
            None => None,
        }
    }
}

// ---------- Laws ----------

/// Everything that was pushed into a queue with room for it.
pub open spec fn push_all<T>(list: Seq<T>, capacity: int, items: Seq<T>) -> Seq<T>
    decreases items.len(),
{
    if items.len() == 0 {
        list
    } else {
        pushed(push_all(list, capacity, items.drop_last()), capacity, items.last())
    }
}

/// The first items that fit are kept in their order, behind those that waited;
/// what comes while the queue is full is dropped.
pub proof fn law_first_in<T>(list: Seq<T>, capacity: int, items: Seq<T>)
    requires
        list.len() <= capacity,
    ensures
        push_all(list, capacity, items) == list + items.take(
            if list.len() + items.len() <= capacity {
                items.len() as int
            } else {
                capacity - list.len()
            },
        ),
    decreases items.len(),
{
    if items.len() == 0 {
        assert(list + items.take(0) =~= list);
    } else {
        let init = items.drop_last();
        law_first_in(list, capacity, init);
        let n = if list.len() + items.len() <= capacity {
            items.len() as int
        } else {
            capacity - list.len()
        };
        assert(push_all(list, capacity, items) =~= list + items.take(n));
    }
}

/// What is popped after some pushes is what waited first: nothing overtakes.
pub proof fn law_first_out<T>(list: Seq<T>, capacity: int, items: Seq<T>, n: int)
    requires
        list.len() + items.len() <= capacity,
        0 <= n < list.len() + items.len(),
    ensures
        pop_many(push_all(list, capacity, items), n)[0] == (list + items)[n],
{
    law_first_in(list, capacity, items);
    assert(items.take(items.len() as int) =~= items);
    lemma_pop_many(list + items, n);
}

/// A queue after `n` pops.
pub open spec fn pop_many<T>(list: Seq<T>, n: int) -> Seq<T>
    decreases n,
{
    if n <= 0 {
        list
    } else {
        popped(pop_many(list, n - 1))
    }
}

proof fn lemma_pop_many<T>(list: Seq<T>, n: int)
    requires
        0 <= n <= list.len(),
    ensures
        pop_many(list, n) == list.skip(n),
    decreases n,
{
    if n > 0 {
        lemma_pop_many(list, n - 1);
        assert(list.skip(n - 1).drop_first() =~= list.skip(n));
    } else {
        assert(list.skip(0) =~= list);
    }
}

} // verus!
