//! The cooperative executor: which task runs next, and what is kept of it while
//! it waits.
//!
//! The tasks that are ready wait in a run queue, by their identities, in the order
//! in which they became ready. A task that is run is taken out together with its
//! waker; if it is not done, both are put back.
use vstd::prelude::*;

use crossbeam_queue::ArrayQueue;
use std::collections::BTreeMap;

use crate::task::queue::{
    new_queue, queue_is_empty, queue_is_full, queue_pop, queue_push, room, waiting,
};
use crate::task::{Task, TaskId};

verus! {

/// How many tasks can be ready at once.
pub const TASK_QUEUE_CAPACITY: usize = 100;

/// The tasks that are ready, by their identities.
pub struct RunQueue {
    queue: ArrayQueue<u64>,
}

impl View for RunQueue {
    type V = Seq<u64>;

    closed spec fn view(&self) -> Seq<u64> {
        waiting(self.queue)
    }
}

impl RunQueue {
    pub closed spec fn wf(self) -> bool {
        room(self.queue) == TASK_QUEUE_CAPACITY
    }

    /// A queue in which no task is ready.
    pub fn new() -> (r: RunQueue)
        ensures
            r.wf(),
            r@ == Seq::<u64>::empty(),
    {
        RunQueue { queue: new_queue(TASK_QUEUE_CAPACITY) }
    }

    /// Makes a task ready.
    pub fn wake_task(&mut self, id: TaskId)
        requires
            old(self).wf(),
            old(self)@.len() < TASK_QUEUE_CAPACITY,
        ensures
            final(self).wf(),
            final(self)@ == old(self)@.push(id.number()),
    {
        let _ = queue_push(&mut self.queue, id.get());
    }

    /// Whether no task is ready.
    pub fn is_empty(&self) -> (r: bool)
        ensures
            r <==> self@.len() == 0,
    {
        queue_is_empty(&self.queue)
    }

    /// Whether there is no room for another task.
    pub fn is_full(&self) -> (r: bool)
        requires
            self.wf(),
        ensures
            r <==> self@.len() >= TASK_QUEUE_CAPACITY,
    {
        queue_is_full(&self.queue)
    }
}

/// A task that is run, and the waker it was run with before, if it was.
pub struct Run<F, W> {
    pub task: Task<F>,
    pub waker: Option<W>,
}

/// The tasks that are not done, and the wakers of those that were run.
pub struct Executor<F, W> {
    tasks: BTreeMap<u64, Task<F>>,
    waker_cache: BTreeMap<u64, W>,
}

/// What an executor is.
pub struct ExecutorModel<F, W> {
    pub tasks: Map<u64, Task<F>>,
    pub wakers: Map<u64, W>,
}

impl<F, W> View for Executor<F, W> {
    type V = ExecutorModel<F, W>;

    closed spec fn view(&self) -> ExecutorModel<F, W> {
        ExecutorModel { tasks: self.tasks@, wakers: self.waker_cache@ }
    }
}

/// Which of the ready tasks is run next: the first that is not done.
pub open spec fn first_live<T>(ready: Seq<u64>, tasks: Map<u64, T>) -> int
    decreases ready.len(),
{
    if ready.len() == 0 || tasks.contains_key(ready[0]) {
        0
    } else {
        1 + first_live(ready.drop_first(), tasks)
    }
}

impl<F, W> ExecutorModel<F, W> {
    /// Each task is kept under its own identity.
    pub open spec fn wf(self) -> bool {
        forall|id: u64| #[trigger]
            self.tasks.contains_key(id) ==> self.tasks[id].id() == id
    }

    /// The executor with the task of that identity taken out.
    pub open spec fn without(self, id: u64) -> ExecutorModel<F, W> {
        ExecutorModel { tasks: self.tasks.remove(id), wakers: self.wakers.remove(id) }
    }

    /// The waker that the task of that identity was run with before, if it was.
    pub open spec fn waker_of(self, id: u64) -> Option<W> {
        if self.wakers.contains_key(id) {
            Some(self.wakers[id])
        } else {
            None
        }
    }

    /// The executor with a task and its waker put in.
    pub open spec fn with(self, task: Task<F>, waker: W) -> ExecutorModel<F, W> {
        ExecutorModel {
            tasks: self.tasks.insert(task.id(), task),
            wakers: self.wakers.insert(task.id(), waker),
        }
    }
}

impl<F, W> Executor<F, W> {
    /// An executor without tasks.
    pub fn new() -> (r: Self)
        ensures
            r@.wf(),
            r@.tasks == Map::<u64, Task<F>>::empty(),
            r@.wakers == Map::<u64, W>::empty(),
    {
        Executor { tasks: BTreeMap::new(), waker_cache: BTreeMap::new() }
    }

    /// Whether there is a task of that identity that is not done.
    pub fn contains(&self, id: TaskId) -> (r: bool)
        ensures
            r <==> self@.tasks.contains_key(id.number()),
    {
        broadcast use vstd::std_specs::btree::group_btree_axioms;
        broadcast use vstd::laws_cmp::group_laws_cmp;

        let key: u64 = id.get();
        self.tasks.contains_key(&key)
    }

    /// Adds a task, which is ready.
    pub fn spawn(&mut self, queue: &mut RunQueue, task: Task<F>)
        requires
            old(self)@.wf(),
            old(queue).wf(),
            !old(self)@.tasks.contains_key(task.id()),
            old(queue)@.len() < TASK_QUEUE_CAPACITY,
        ensures
            final(self)@.wf(),
            final(queue).wf(),
            final(self)@ == (ExecutorModel {
                tasks: old(self)@.tasks.insert(task.id(), task),
                ..old(self)@
            }),
            final(queue)@ == old(queue)@.push(task.id()),
    {
        broadcast use vstd::std_specs::btree::group_btree_axioms;
        broadcast use vstd::laws_cmp::group_laws_cmp;

        let id = task.task_id();
        let _ = self.tasks.insert(id.get(), task);
        queue.wake_task(id);
    }

    /// Takes the next task to run out of the executor: that of the first identity
    /// in the run queue that is not done. The identities before it are dropped.
    pub fn run_next(&mut self, queue: &mut RunQueue) -> (r: Option<Run<F, W>>)
        requires
            old(self)@.wf(),
            old(queue).wf(),
        ensures
            final(self)@.wf(),
            final(queue).wf(),
            ({
                let ready = old(queue)@;
                let k = first_live(ready, old(self)@.tasks);
                if k < ready.len() {
                    let id = ready[k];
                    &&& r matches Some(run) && run.task == old(self)@.tasks[id] && run.waker == old(
                        self,
                    )@.waker_of(id)
                    &&& final(self)@ == old(self)@.without(id)
                    &&& final(queue)@ == ready.skip(k + 1)
                } else {
                    &&& r is None
                    &&& final(self)@ == old(self)@
                    &&& final(queue)@ == Seq::<u64>::empty()
                }
            }),
    {
        broadcast use vstd::std_specs::btree::group_btree_axioms;
        broadcast use vstd::laws_cmp::group_laws_cmp;

        let ghost ready = queue@;
        let ghost tasks = self@.tasks;
        let ghost mut done: int = 0;
        assert(ready.skip(0) =~= ready);
        loop
            invariant
                self@ == old(self)@,
                self@.wf(),
                tasks == self@.tasks,
                queue.wf(),
                0 <= done <= ready.len(),
                queue@ == ready.skip(done),
                first_live(ready, tasks) == done + first_live(ready.skip(done), tasks),
                ready == old(queue)@,
            decreases queue@.len(),
        {
            let id: u64 = match queue_pop(&mut queue.queue) {
                Some(id) => id,
                None => {
                    assert(queue@ =~= Seq::<u64>::empty());
                    return None;
                },
            };
            proof {
                assert(ready.skip(done).drop_first() =~= ready.skip(done + 1));
                assert(ready.skip(done)[0] == ready[done]);
                done = done + 1;
            }
            match self.tasks.remove(&id) {
                Some(task) => {
                    let waker = self.waker_cache.remove(&id);
                    return Some(Run { task, waker });
                },
                None => {
                    assert(self.tasks@ =~= tasks);
                },
            }
        }
    }

    /// Puts a task that is not done back, with the waker it was run with.
    pub fn park(&mut self, task: Task<F>, waker: W)
        requires
            old(self)@.wf(),
        ensures
            final(self)@.wf(),
            final(self)@ == old(self)@.with(task, waker),
    {
        broadcast use vstd::std_specs::btree::group_btree_axioms;
        broadcast use vstd::laws_cmp::group_laws_cmp;

        let id: u64 = task.task_id().get();
        let _ = self.tasks.insert(id, task);
        let _ = self.waker_cache.insert(id, waker);
    }
}

impl<F, W> Default for Executor<F, W> {
    fn default() -> (r: Self)
        ensures
            r@.wf(),
            r@.tasks == Map::<u64, Task<F>>::empty(),
            r@.wakers == Map::<u64, W>::empty(),
    {
        Executor::new()
    }
}

// ---------- Laws ----------

/// Among the ready tasks that are not done, the one that became ready first is
/// run: everything before it in the run queue is done.
pub proof fn law_first_come_first_run<T>(ready: Seq<u64>, tasks: Map<u64, T>)
    ensures
        ({
            let k = first_live(ready, tasks);
            &&& 0 <= k <= ready.len()
            &&& k < ready.len() ==> tasks.contains_key(ready[k])
            &&& forall|i: int| 0 <= i < k ==> !tasks.contains_key(#[trigger] ready[i])
        }),
    decreases ready.len(),
{
    if ready.len() == 0 || tasks.contains_key(ready[0]) {
    } else {
        let rest = ready.drop_first();
        law_first_come_first_run(rest, tasks);
        let k = first_live(rest, tasks);
        assert forall|i: int| 0 <= i < k + 1 implies !tasks.contains_key(#[trigger] ready[i]) by {
            if i > 0 {
                assert(rest[i - 1] == ready[i]);
            }
        }
        if k < rest.len() {
            assert(rest[k] == ready[k + 1]);
        }
    }
}

/// A task that becomes ready is run: one of the tasks up to it in the run queue is
/// run next, and it is the one where all those before it are done.
pub proof fn law_ready_is_run<T>(ready: Seq<u64>, tasks: Map<u64, T>, id: u64)
    requires
        tasks.contains_key(id),
    ensures
        first_live(ready.push(id), tasks) <= ready.len(),
        (forall|i: int| 0 <= i < ready.len() ==> !tasks.contains_key(#[trigger] ready[i]))
            ==> first_live(ready.push(id), tasks) == ready.len(),
{
    let all = ready.push(id);
    law_first_come_first_run(all, tasks);
    let k = first_live(all, tasks);
    assert(all[ready.len() as int] == id);
    if k > ready.len() {
        assert(!tasks.contains_key(all[ready.len() as int]));
    }
    if k < ready.len() {
        assert(all[k] == ready[k]);
    }
}

/// A task that is done is never run again, however often it is woken: once it is
/// taken out and not put back, the run queue skips its identity.
pub proof fn law_done_is_done<F, W>(m: ExecutorModel<F, W>, id: u64, ready: Seq<u64>)
    ensures
        ({
            let k = first_live(ready, m.without(id).tasks);
            k < ready.len() ==> ready[k] != id
        }),
{
    law_first_come_first_run(ready, m.without(id).tasks);
}

/// Taking a task out and putting it back changes nothing but its work and its
/// waker: the other tasks and their wakers stay as they were.
pub proof fn law_parked_is_kept<F, W>(
    m: ExecutorModel<F, W>,
    id: u64,
    task: Task<F>,
    waker: W,
    other: u64,
)
    requires
        m.tasks.contains_key(id),
        task.id() == id,
        other != id,
    ensures
        m.without(id).with(task, waker).tasks.dom() == m.tasks.dom(),
        m.without(id).with(task, waker).waker_of(id) == Some(waker),
        m.tasks.contains_key(other) ==> m.without(id).with(task, waker).tasks[other]
            == m.tasks[other],
        m.without(id).with(task, waker).waker_of(other) == m.waker_of(other),
{
    assert(m.without(id).with(task, waker).tasks.dom() =~= m.tasks.dom());
}

} // verus!
