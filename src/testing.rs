//! The decisions of the kernel's test runner.

use vstd::prelude::*;

verus! {

/// Exit codes that the test kernel reports to the emulator.
#[derive(Debug, Clone, Copy, PartialEq, Eq, Structural)]
pub enum QemuExitCode {
    Success,
    Failed,
}

/// A test that the kernel's test runner can run. A test that fails panics.
pub trait Testable {
    fn run(&self);
}

/// Runs every test, in order, and returns the exit code to report: a test that fails
/// panics and never returns here, so the code is success.
pub fn test_runner<T: Testable>(tests: &[T]) -> (r: QemuExitCode)
    ensures
        r == QemuExitCode::Success,
{
    let mut i: usize = 0;
    while i < tests.len()
        invariant
            i <= tests@.len(),
        decreases tests@.len() - i,
    {
        tests[i].run();
        i = i + 1;
    }
    QemuExitCode::Success
}

/// The exit code to report once a test has panicked.
pub fn test_panic_handler() -> (r: QemuExitCode)
    ensures
        r == QemuExitCode::Failed,
{
    QemuExitCode::Failed
}

} // verus!
