//! The output configuration, derived once from the command-line flags and
//! passed to whoever needs it.

use vstd::prelude::*;

verus! {

/// What the surrounding program may print and ask.
pub struct Verbosity {
    /// Print the configuration summary.
    pub verbose: bool,
    /// Draw the progress bar.
    pub progress: bool,
    /// Skip the overwrite confirmation.
    pub skip: bool,
    /// Print nothing at all.
    pub silent: bool,
}

impl Verbosity {
    /// Derive the configuration from the flags: streaming to standard output
    /// silences everything, accepting skips confirmations, and the silent
    /// flag implies both.
    pub fn from_flags(accept: bool, stream: bool, silent: bool, verbose: bool, progress: bool) -> (r:
        Verbosity)
        ensures
            stream ==> r == (Verbosity { verbose: false, progress: false, skip: true, silent: true }),
            !stream ==> r == (Verbosity {
                verbose,
                progress,
                skip: accept || silent,
                silent,
            }),
    {
        if stream {
            Verbosity { verbose: false, progress: false, skip: true, silent: true }
        } else {
            Verbosity { verbose, progress, skip: accept || silent, silent }
        }
    }
}

} // verus!
