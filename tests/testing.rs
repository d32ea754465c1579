use std::cell::Cell;

use kernel::testing::{test_panic_handler, test_runner, QemuExitCode, Testable};

struct Counted<'a> {
    runs: &'a Cell<usize>,
}

impl Testable for Counted<'_> {
    fn run(&self) {
        self.runs.set(self.runs.get() + 1);
    }
}

#[test]
fn runner_runs_every_test_and_reports_success() {
    let runs = Cell::new(0);
    let tests = [Counted { runs: &runs }, Counted { runs: &runs }, Counted { runs: &runs }];
    assert_eq!(test_runner(&tests), QemuExitCode::Success);
    assert_eq!(runs.get(), 3);
}

#[test]
fn runner_with_no_tests_reports_success() {
    let tests: [Counted; 0] = [];
    assert_eq!(test_runner(&tests), QemuExitCode::Success);
}

#[test]
fn panic_handler_reports_failure() {
    assert_eq!(test_panic_handler(), QemuExitCode::Failed);
}
