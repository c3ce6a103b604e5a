use aioc::task::executor::{Executor, RunQueue, TASK_QUEUE_CAPACITY};
use aioc::task::keyboard::{
    add_scancode, keypress_text, Added, DecodedKey, KeyDecoder, ScancodeStream,
};
use aioc::task::mouse::{add_byte, MouseByteStream};
use aioc::task::queue::ByteQueue;
use aioc::task::tick::{notify_tick, SecondStream};
use aioc::task::{Task, TaskId};

// ---------- Tasks ----------

#[test]
fn identities_count_up() {
    let mut next = 0;
    let ids: Vec<u64> = (0..5).map(|n| Task::new(&mut next, n).task_id().get()).collect();
    assert_eq!(ids, vec![0, 1, 2, 3, 4]);
    let mut last = u64::MAX;
    assert_eq!(Task::new(&mut last, ()).task_id().get(), u64::MAX);
    assert_eq!(last, 0);
}

#[test]
fn the_work_of_a_task() {
    let mut next = 7;
    let mut t = Task::new(&mut next, String::from("work"));
    t.future_mut().push('!');
    assert_eq!(t.future_mut(), "work!");
    assert_eq!(t.task_id().get(), 7);
}

struct World {
    next: u64,
    queue: RunQueue,
    executor: Executor<&'static str, u32>,
}

impl World {
    fn new() -> World {
        World { next: 0, queue: RunQueue::new(), executor: Executor::new() }
    }

    fn spawn(&mut self, work: &'static str) -> TaskId {
        let task = Task::new(&mut self.next, work);
        let id = task.task_id();
        assert!(!self.executor.contains(id) && !self.queue.is_full());
        self.executor.spawn(&mut self.queue, task);
        id
    }

    fn run(&mut self) -> Option<(&'static str, Option<u32>, Task<&'static str>)> {
        let mut run = self.executor.run_next(&mut self.queue)?;
        Some((*run.task.future_mut(), run.waker, run.task))
    }
}

#[test]
fn tasks_run_in_the_order_in_which_they_became_ready() {
    let mut w = World::new();
    assert!(w.queue.is_empty());
    w.spawn("shell");
    w.spawn("clock");
    w.spawn("mouse");
    let order: Vec<&str> = std::iter::from_fn(|| w.run().map(|r| r.0)).collect();
    assert_eq!(order, vec!["shell", "clock", "mouse"]);
    assert!(w.queue.is_empty());
}

#[test]
fn a_task_that_waits_keeps_its_waker() {
    let mut w = World::new();
    let id = w.spawn("clock");
    let (_, waker, task) = w.run().unwrap();
    assert_eq!(waker, None);
    assert!(!w.executor.contains(id));
    w.executor.park(task, 42);
    assert!(w.executor.contains(id));
    assert!(w.run().is_none());
    w.queue.wake_task(id);
    let (work, waker, _) = w.run().unwrap();
    assert_eq!((work, waker), ("clock", Some(42)));
}

#[test]
fn a_task_that_is_done_is_never_run_again() {
    let mut w = World::new();
    let done = w.spawn("done");
    let other = w.spawn("other");
    let (work, _, _) = w.run().unwrap();
    assert_eq!(work, "done");
    let (_, _, task) = w.run().unwrap();
    w.executor.park(task, 1);
    w.queue.wake_task(done);
    w.queue.wake_task(done);
    w.queue.wake_task(other);
    assert_eq!(w.run().map(|r| r.0), Some("other"));
    assert!(w.queue.is_empty());
}

#[test]
fn the_run_queue_has_room_for_a_hundred() {
    let mut w = World::new();
    let id = w.spawn("busy");
    for _ in 1..TASK_QUEUE_CAPACITY {
        assert!(!w.queue.is_full());
        w.queue.wake_task(id);
    }
    assert!(w.queue.is_full());
    let executor: Executor<(), ()> = Executor::default();
    assert!(!executor.contains(id));
}

// ---------- Queues ----------

#[test]
fn a_queue_hands_out_what_came_first() {
    let mut q = ByteQueue::new(3);
    assert_eq!(q.pop(), None);
    assert!(q.push(1) && q.push(2) && q.push(255));
    assert!(!q.push(4));
    assert_eq!(q.pop(), Some(1));
    assert!(q.push(5));
    assert_eq!((q.pop(), q.pop(), q.pop(), q.pop()), (Some(2), Some(255), Some(5), None));
}

#[test]
fn a_queue_can_be_large() {
    let mut q = ByteQueue::new(5000);
    for i in 0..5000u32 {
        assert!(q.push(i as u8));
    }
    assert!(!q.push(0));
    assert_eq!((q.pop(), q.pop()), (Some(0), Some(1)));
}

#[test]
fn scancodes_wait_for_their_reader() {
    let mut stream = None;
    assert_eq!(add_scancode(&mut stream, 0x1E), Added::NotReady);
    assert!(stream.is_none());
    stream = Some(ScancodeStream::new());
    for n in 0..100 {
        assert_eq!(add_scancode(&mut stream, n), Added::Queued);
    }
    assert_eq!(add_scancode(&mut stream, 100), Added::Full);
    let s = stream.as_mut().unwrap();
    assert_eq!((s.next(), s.next()), (Some(0), Some(1)));
    assert_eq!(add_scancode(&mut stream, 0x1E), Added::Queued);
    let rest: Vec<u8> = std::iter::from_fn(|| stream.as_mut().unwrap().next()).collect();
    assert_eq!(rest.len(), 99);
    assert_eq!(rest.last(), Some(&0x1E));
    assert_eq!(ScancodeStream::default().next(), None);
}

#[test]
fn bytes_of_the_mouse_wait_for_their_reader() {
    let mut stream = None;
    assert!(!add_byte(&mut stream, 8));
    stream = Some(MouseByteStream::new());
    for n in 0..300u32 {
        assert!(add_byte(&mut stream, n as u8));
    }
    let got: Vec<u8> = std::iter::from_fn(|| stream.as_mut().unwrap().next()).collect();
    assert_eq!(got, (0..=255).collect::<Vec<u8>>());
}

#[test]
fn every_hundredth_tick_ends_a_second() {
    let mut subtick = 0;
    let mut stream = Some(SecondStream::default());
    for n in 1..=1000u32 {
        assert_eq!(notify_tick(&mut subtick, &mut stream), n % 100 == 0);
        assert_eq!(subtick, n % 100);
    }
    let s = stream.as_mut().unwrap();
    let waiting = std::iter::from_fn(|| s.next()).count();
    assert_eq!(waiting, 8);
    let mut none = None;
    subtick = 99;
    assert!(!notify_tick(&mut subtick, &mut none));
    assert_eq!(subtick, 0);
}

// ---------- Keys ----------

fn typed(scancodes: &[u8]) -> Vec<String> {
    let mut decoder = KeyDecoder::new();
    scancodes.iter().filter_map(|&s| decoder.decode(s)).map(|k| keypress_text(&k)).collect()
}

#[test]
fn scancodes_become_keys() {
    assert_eq!(typed(&[0x1E, 0x9E, 0x30, 0xB0]), vec!["a", "b"]);
    assert_eq!(typed(&[0x2A, 0x1E, 0x9E, 0xAA, 0x1E]), vec!["LShift", "A", "a"]);
    assert_eq!(typed(&[0x1C]), vec!["\n"]);
    assert_eq!(typed(&[0xE0, 0x48]), vec!["ArrowUp"]);
}

#[test]
fn control_makes_no_control_characters() {
    assert_eq!(typed(&[0x1D, 0x2E]), vec!["LControl", "c"]);
}

#[test]
fn scancodes_that_mean_nothing() {
    assert_eq!(typed(&[0x9E]), Vec::<String>::new());
    assert_eq!(typed(&[0xFF, 0x1E]).last().map(|s| s.as_str()), Some("a"));
}

#[test]
fn texts_of_keys() {
    assert_eq!(keypress_text(&DecodedKey::Unicode('x')), "x");
    assert_eq!(keypress_text(&DecodedKey::RawKey(String::from("F1"))), "F1");
}
