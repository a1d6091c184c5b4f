//! The command-line surface.
//!
//! These are the commands that the program understands, as plain values. How
//! arguments become one of them is the program's affair; what a command does is
//! decided elsewhere in the library.

use vstd::prelude::*;

verus! {

/// What was asked for on the command line.
#[derive(Debug)]
pub struct Cli {
    /// Overrides the path of the configuration file.
    pub config: Option<String>,
    pub command: Option<Command>,
}

/// Which patch series the review inbox shows.
#[derive(Debug, Clone, Copy, PartialEq, Eq, Structural)]
pub enum ReviewInboxMode {
    /// Patch series without a `Reviewed-by` trailer.
    NeedsReview,
    /// Patch series with at least one `Reviewed-by` trailer.
    Reviewed,
    /// Every patch series.
    All,
}

/// One command.
#[derive(Debug, Clone)]
pub enum Command {
    /// Start the terminal interface.
    Tui,
    /// Synchronise a mailbox.
    Sync {
        mailbox: Option<String>,
        fixture_dir: Option<String>,
        uidvalidity: Option<u64>,
        reconnect_attempts: Option<u8>,
    },
    /// Fetch and store the thread that holds a message.
    FetchThread { mailbox: Option<String>, message_id: String },
    /// List patch series by review status.
    ReviewInbox { mailbox: Option<String>, mode: ReviewInboxMode },
    /// Check a series before it is applied.
    Preflight { mailbox: Option<String>, message_id: String },
    /// Diagnose the environment.
    Doctor,
    /// Install the latest release.
    Update { dry_run: bool },
    /// Print the version.
    Version,
}

} // verus!
