//! Interrupts: which vector leads to which handler, and what the timer's handler
//! keeps count of.
//!
//! The first thirty-two vectors belong to the exceptions of the processor. The two
//! interrupt controllers, with eight lines each, are mapped behind them.
use vstd::prelude::*;

use crate::net::tick_ms;
use crate::task::tick::{
    ends_second, notify_tick, subtick_after, SecondStream, TICK_QUEUE_CAPACITY,
};

verus! {

pub const PIC_1_OFFSET: u8 = 32;

pub const PIC_2_OFFSET: u8 = 40;

/// The stack that the double-fault handler runs on.
pub const DOUBLE_FAULT_IST_INDEX: u16 = 0;

/// How many milliseconds pass between two ticks of the timer.
pub const TICK_MS: u64 = 10;

/// A hardware interrupt.
#[derive(Debug, Clone, Copy, PartialEq, Eq, Structural)]
pub enum InterruptIndex {
    Timer,
    Keyboard,
    Mouse,
}

impl InterruptIndex {
    /// The line of the interrupt at the controllers: 0 to 7 at the first, 8 to 15
    /// at the second.
    pub open spec fn line(self) -> int {
        match self {
            InterruptIndex::Timer => 0,
            InterruptIndex::Keyboard => 1,
            InterruptIndex::Mouse => 12,
        }
    }

    /// The vector of the interrupt.
    pub open spec fn vector(self) -> int {
        if self.line() < 8 {
            PIC_1_OFFSET + self.line()
        } else {
            PIC_2_OFFSET + (self.line() - 8)
        }
    }

    /// The vector of the interrupt.
    pub fn as_u8(self) -> (r: u8)
        ensures
            r == self.vector(),
    {
        match self {
            InterruptIndex::Timer => PIC_1_OFFSET,
            InterruptIndex::Keyboard => PIC_1_OFFSET + 1,
            InterruptIndex::Mouse => PIC_2_OFFSET + 4,
        }
    }

    /// The vector of the interrupt.
    pub fn as_usize(self) -> (r: usize)
        ensures
            r == self.vector(),
    {
        self.as_u8() as usize
    }
}

/// What handles an interrupt.
#[derive(Debug, Clone, Copy, PartialEq, Eq, Structural)]
pub enum Handler {
    Breakpoint,
    DoubleFault,
    PageFault,
    Hardware(InterruptIndex),
}

impl Handler {
    /// The vector that leads to the handler.
    pub open spec fn vector(self) -> int {
        match self {
            Handler::Breakpoint => 3,
            Handler::DoubleFault => 8,
            Handler::PageFault => 14,
            Handler::Hardware(index) => index.vector(),
        }
    }
}

/// An entry of the interrupt table: its vector, the handler, and the stack of its
/// own that the handler runs on, if it has one.
#[derive(Debug, Clone, Copy, PartialEq, Eq, Structural)]
pub struct Gate {
    pub vector: u8,
    pub handler: Handler,
    pub stack: Option<u16>,
}

/// The entry for a handler. Only a double fault has a stack of its own: the one
/// that was in use may be what is broken.
pub open spec fn gate_of(handler: Handler) -> Gate {
    Gate {
        vector: handler.vector() as u8,
        handler,
        stack: if handler is DoubleFault {
            Some(DOUBLE_FAULT_IST_INDEX)
        } else {
            None
        },
    }
}

/// The interrupt table.
pub open spec fn gates() -> Seq<Gate> {
    seq![
        gate_of(Handler::Breakpoint),
        gate_of(Handler::DoubleFault),
        gate_of(Handler::PageFault),
        gate_of(Handler::Hardware(InterruptIndex::Timer)),
        gate_of(Handler::Hardware(InterruptIndex::Keyboard)),
        gate_of(Handler::Hardware(InterruptIndex::Mouse)),
    ]
}

fn hardware(index: InterruptIndex) -> (r: Gate)
    ensures
        r == gate_of(Handler::Hardware(index)),
{
    Gate { vector: index.as_u8(), handler: Handler::Hardware(index), stack: None }
}

/// The interrupt table, to be loaded.
pub fn init_idt() -> (r: Vec<Gate>)
    ensures
        r@ == gates(),
{
    let mut table: Vec<Gate> = Vec::new();
    table.push(Gate { vector: 3, handler: Handler::Breakpoint, stack: None });
    table.push(
        Gate { vector: 8, handler: Handler::DoubleFault, stack: Some(DOUBLE_FAULT_IST_INDEX) },
    );
    table.push(Gate { vector: 14, handler: Handler::PageFault, stack: None });
    table.push(hardware(InterruptIndex::Timer));
    table.push(hardware(InterruptIndex::Keyboard));
    table.push(hardware(InterruptIndex::Mouse));
    assert(table@ =~= gates());
    table
}

/// What the timer keeps count of: all its ticks, those of the second so far, and
/// the milliseconds of the network's clock.
#[derive(Debug, Clone, Copy, PartialEq, Eq, Structural)]
pub struct Clock {
    pub ticks: u64,
    pub subtick: u32,
    pub now_ms: u64,
}

/// A count of 64 bits that goes on by `more` and wraps around.
pub open spec fn counted(n: u64, more: int) -> u64 {
    if n + more > u64::MAX {
        (n + more - 0x1_0000_0000_0000_0000) as u64
    } else {
        (n + more) as u64
    }
}

impl Clock {
    /// The clock one tick later. The counts of ticks and of milliseconds wrap
    /// around.
    pub open spec fn ticked(self) -> Clock {
        Clock {
            ticks: counted(self.ticks, 1),
            subtick: subtick_after(self.subtick),
            now_ms: counted(self.now_ms, TICK_MS as int),
        }
    }

    /// The clock before the first tick.
    pub fn new() -> (r: Clock)
        ensures
            r == (Clock { ticks: 0, subtick: 0, now_ms: 0 }),
    {
        Clock { ticks: 0, subtick: 0, now_ms: 0 }
    }
}

/// Takes one tick of the timer. The result says whether to wake whoever waits for
/// the next second.
pub fn timer_tick(clock: &mut Clock, stream: &mut Option<SecondStream>) -> (r: bool)
    requires
        old(clock).subtick < u32::MAX,
        *old(stream) matches Some(s) ==> s.wf(),
    ensures
        *final(clock) == old(clock).ticked(),
        r <==> ends_second(old(clock).subtick) && *old(stream) is Some,
        !r ==> *final(stream) == *old(stream),
        r ==> *final(stream) is Some && (*final(stream))->0.wf() && (*final(stream))->0.seconds()
            == if (*old(stream))->0.seconds() < TICK_QUEUE_CAPACITY {
            (*old(stream))->0.seconds() + 1
        } else {
            (*old(stream))->0.seconds()
        },
{
    clock.ticks = clock.ticks.wrapping_add(1);
    let wake = notify_tick(&mut clock.subtick, stream);
    tick_ms(&mut clock.now_ms, TICK_MS);
    wake
}

// ---------- Laws ----------

/// What is left of a count in 64 bits.
#[verifier::opaque]
pub open spec fn wrapped(n: int) -> u64 {
    (n % 0x1_0000_0000_0000_0000) as u64
}

proof fn lemma_counted(n: int, more: int)
    requires
        0 <= more <= u64::MAX,
    ensures
        counted(wrapped(n), more) == wrapped(n + more),
{
    reveal(wrapped);
    let m = 0x1_0000_0000_0000_0000int;
    vstd::arithmetic::div_mod::lemma_add_mod_noop(n, more, m);
    vstd::arithmetic::div_mod::lemma_small_mod(more as nat, m as nat);
}

/// The clock `n` ticks after the start.
pub open spec fn clock_at(n: int) -> Clock
    decreases n,
{
    if n <= 0 {
        Clock { ticks: 0, subtick: 0, now_ms: 0 }
    } else {
        clock_at(n - 1).ticked()
    }
}

/// No tick is lost: after `n` ticks the count is `n`, ten milliseconds have passed
/// for each, and what is left of them after whole seconds is the part of the
/// second.
pub proof fn law_clock_keeps_time(n: int)
    requires
        0 <= n,
    ensures
        clock_at(n).ticks == wrapped(n),
        clock_at(n).now_ms == wrapped(10 * n),
        clock_at(n).subtick == n % 100,
    decreases n,
{
    if n > 0 {
        law_clock_keeps_time(n - 1);
        lemma_counted(n - 1, 1);
        lemma_counted(10 * (n - 1), 10);
        assert(10 * (n - 1) + 10 == 10 * n);
    } else {
        reveal(wrapped);
    }
}

/// No two entries of the table are for the same vector, and no hardware interrupt
/// has a vector of an exception.
pub proof fn law_vectors_apart(i: int, j: int)
    requires
        0 <= i < j < gates().len(),
    ensures
        gates()[i].vector != gates()[j].vector,
        gates()[j].handler is Hardware ==> 32 <= gates()[j].vector < 48,
{
}

/// The lines of the two controllers follow each other behind the exceptions.
pub proof fn law_vector_of_line(index: InterruptIndex)
    ensures
        index.vector() == 32 + index.line(),
        0 <= index.line() < 16,
{
}

} // verus!
