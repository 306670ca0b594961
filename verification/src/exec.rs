//! What one execution needs; the PTY, streaming and process control live in
//! the I/O shell.

use vstd::prelude::*;

verus! {

/// Everything needed to start one execution. The caller has already
/// resolved the command string and working directory and run the safety
/// check.
pub struct RunRequest {
    pub run_id: String,
    pub name: String,
    pub source: String,
    pub resolved_command: String,
    pub cwd: String,
}

} // verus!
