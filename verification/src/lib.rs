//! The logic of AiOC, a small x86_64 kernel with a desktop in text mode.
//!
//! What is here decides and computes: what is on the screen, what the shell
//! answers, what the file system holds, which frames of memory are handed out,
//! what is written to the ports of a device next. It reads no port and owns no
//! global state: whoever drives the machine does what the functions ask for and
//! hands back what was read.
//!
//! - [`text`]: texts, words, lines and numbers
//! - [`vfs`]: the file system in memory
//! - [`vga_buffer`]: the screen of 80 by 25 cells
//! - [`desktop`], [`start_menu`], [`browser`], [`shell`]: what is on the screen
//! - [`sockets`], [`net`]: the network stack and its one request
//! - [`drivers`]: the devices, as machines that ask for port accesses
//! - [`memory`]: the frames of physical memory
//! - [`interrupts`]: the interrupt table and the timer's counts
//! - [`task`]: tasks, the executor, and the queues behind the interrupt handlers
use vstd::prelude::*;

pub mod browser;
pub mod desktop;
pub mod drivers;
pub mod interrupts;
pub mod memory;
pub mod net;
pub mod shell;
pub mod sockets;
pub mod start_menu;
pub mod task;
pub mod text;
pub mod vfs;
pub mod vga_buffer;

verus! {

/// How a run of the tests in the emulator ended.
#[derive(Debug, Clone, Copy, PartialEq, Eq, Structural)]
pub enum QemuExitCode {
    Success,
    Failed,
}

impl QemuExitCode {
    /// What is written to the emulator's exit port.
    pub fn code(self) -> (r: u32)
        ensures
            r == match self {
                QemuExitCode::Success => 0x10u32,
                QemuExitCode::Failed => 0x11u32,
            },
    {
        match self {
            QemuExitCode::Success => 0x10,
            QemuExitCode::Failed => 0x11,
        }
    }
}

/// A test of the kernel.
pub trait Testable {
    /// Runs the test. It comes back only from a test that passes.
    fn run(&self);
}

/// What is said before the tests.
pub open spec fn test_heading(tests: nat) -> Seq<char> {
    "Running "@ + text::decimal(tests) + " tests"@
}

/// What is said before the tests.
pub fn heading(tests: usize) -> (r: String)
    ensures
        r@ == test_heading(tests as nat),
{
    let mut s = "Running ".to_owned();
    text::push_decimal(&mut s, tests as u64);
    s.append(" tests");
    s
}

/// Runs the tests, one after the other, and says that all have passed.
pub fn test_runner<T: Testable + ?Sized>(tests: &[&T]) -> (r: QemuExitCode)
    ensures
        forall|i: int|
            0 <= i < tests@.len() ==> call_ensures(T::run, (#[trigger] tests@[i],), ()),
        r == QemuExitCode::Success,
{
    let mut i: usize = 0;
    while i < tests.len()
        invariant
            i <= tests@.len(),
            forall|j: int|
                0 <= j < i ==> call_ensures(T::run, (#[trigger] tests@[j],), ()),
        decreases tests.len() - i,
    {
        tests[i].run();
        i += 1;
    }
    QemuExitCode::Success
}

/// The number of tests can be read from what is said before them.
pub proof fn law_heading(tests: nat)
    ensures
        test_heading(tests).subrange(8, 8 + text::decimal(tests).len() as int) == text::decimal(
            tests,
        ),
        test_heading(tests).len() == 14 + text::decimal(tests).len(),
{
    reveal_strlit("Running ");
    reveal_strlit(" tests");
    assert(test_heading(tests).subrange(8, 8 + text::decimal(tests).len() as int)
        =~= text::decimal(tests));
}

} // verus!
