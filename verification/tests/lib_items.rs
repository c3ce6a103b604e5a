use std::cell::Cell;

use aioc::{heading, test_runner, QemuExitCode, Testable};

struct Counting<'a> {
    ran: &'a Cell<u32>,
    mark: u32,
}

impl<'a> Testable for Counting<'a> {
    fn run(&self) {
        self.ran.set(self.ran.get() * 10 + self.mark);
    }
}

struct Bell<'a> {
    rang: &'a Cell<bool>,
}

impl<'a> Testable for Bell<'a> {
    fn run(&self) {
        self.rang.set(true);
    }
}

#[test]
fn exit_codes() {
    assert_eq!(QemuExitCode::Success.code(), 0x10);
    assert_eq!(QemuExitCode::Failed.code(), 0x11);
}

#[test]
fn runner_runs_every_test_in_order() {
    let ran = Cell::new(0);
    let tests = [
        &Counting { ran: &ran, mark: 1 },
        &Counting { ran: &ran, mark: 2 },
        &Counting { ran: &ran, mark: 3 },
    ];
    assert_eq!(test_runner(&tests), QemuExitCode::Success);
    assert_eq!(ran.get(), 123);
}

#[test]
fn runner_takes_tests_of_several_types() {
    let (ran, rang) = (Cell::new(0), Cell::new(false));
    let (first, last) = (Counting { ran: &ran, mark: 4 }, Counting { ran: &ran, mark: 5 });
    let bell = Bell { rang: &rang };
    let tests: [&dyn Testable; 3] = [&first, &bell, &last];
    assert_eq!(test_runner(&tests), QemuExitCode::Success);
    assert_eq!((ran.get(), rang.get()), (45, true));
}

#[test]
fn runner_without_tests() {
    let none: [&dyn Testable; 0] = [];
    assert_eq!(test_runner(&none), QemuExitCode::Success);
}

#[test]
fn runner_heading() {
    assert_eq!(heading(0), "Running 0 tests");
    assert_eq!(heading(12), "Running 12 tests");
}
