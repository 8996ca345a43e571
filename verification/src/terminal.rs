use std::io::Write;

use vstd::prelude::*;

verus! {

#[verifier::external_type_specification]
#[verifier::external_body]
pub struct ExStdout(std::io::Stdout);

#[verifier::external_type_specification]
#[verifier::external_body]
pub struct ExStderr(std::io::Stderr);

/// Relies on `std::io::stdout`: a handle to the process's standard output.
#[verifier::external_body]
fn stdout_handle() -> std::io::Stdout {
    std::io::stdout()
}

/// Relies on `std::io::stderr`: a handle to the process's standard error.
#[verifier::external_body]
fn stderr_handle() -> std::io::Stderr {
    std::io::stderr()
}

/// The terminal as the event loop sees it: its size, and the two output
/// streams. The driver puts the terminal into raw mode and restores it; this
/// type only writes.
pub struct Terminal {
    output: std::io::Stdout,
    error: std::io::Stderr,
    rows: u16,
    cols: u16,
}

impl View for Terminal {
    type V = (int, int);

    closed spec fn view(&self) -> (int, int) {
        (self.rows as int, self.cols as int)
    }
}

impl Terminal {
    /// A terminal of the given size.
    pub fn create(rows: u16, cols: u16) -> (t: Terminal)
        ensures
            t@ == (rows as int, cols as int),
    {
        Terminal { output: stdout_handle(), error: stderr_handle(), rows, cols }
    }

    pub fn rows(&self) -> (r: u16)
        ensures
            r as int == self@.0,
    {
        self.rows
    }

    pub fn cols(&self) -> (r: u16)
        ensures
            r as int == self@.1,
    {
        self.cols
    }

    /// Relies on the `write!` macro over standard output. A failed write ends
    /// the process: the loop cannot make progress without output.
    #[verifier::external_body]
    pub fn output_str(&mut self, s: &str)
        ensures
            final(self)@ == old(self)@,
    {
        write!(self.output, "{}", s).expect("Failed to write output");
    }

    /// Relies on `Stdout::flush`. A failed flush ends the process, as a
    /// failed write does.
    #[verifier::external_body]
    pub fn flush(&mut self)
        ensures
            final(self)@ == old(self)@,
    {
        self.output.flush().expect("Failed to flush output");
    }

    /// Relies on the `write!` macro over standard error, where the selected
    /// line is handed back. A failed write ends the process.
    #[verifier::external_body]
    pub fn insert_input(&mut self, input: &str)
        ensures
            final(self)@ == old(self)@,
    {
        write!(self.error, "{}", input).expect("Failed to write to stderr");
    }
}

} // verus!
