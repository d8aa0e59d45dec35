//! The console front-end's log store: an append-only line buffer that never
//! grows past its bound, dropping the oldest lines first.

use vstd::prelude::*;

verus! {

/// Upper bound on retained log lines.
pub const MAX_LOGS: usize = 10000;

/// The state behind a console screen: its log lines, oldest first, and the
/// operator's pending input line.
pub struct Console {
    pub logs: Vec<String>,
    pub input: String,
}

impl Console {
    /// The buffer never exceeds its bound.
    pub open spec fn wf(self) -> bool {
        self.logs@.len() <= MAX_LOGS
    }

    /// An empty console.
    pub fn new() -> (r: Console)
        ensures
            r.wf(),
            r.logs@.len() == 0,
            r.input@.len() == 0,
    {
        Console { logs: Vec::new(), input: String::new() }
    }

    /// Appends one line; when the buffer is full, the oldest line makes
    /// room, so memory use stays bounded.
    pub fn push_log(&mut self, line: String)
        requires
            old(self).wf(),
        ensures
            final(self).wf(),
            final(self).input == old(self).input,
            old(self).logs@.len() < MAX_LOGS ==> final(self).logs@ == old(self).logs@.push(line),
            old(self).logs@.len() == MAX_LOGS ==> final(self).logs@ == old(self).logs@.skip(
                1,
            ).push(line),
    {
        if self.logs.len() >= MAX_LOGS {
            self.logs.remove(0);
            proof {
                assert(self.logs@ =~= old(self).logs@.skip(1));
            }
        }
        self.logs.push(line);
    }
}

} // verus!
