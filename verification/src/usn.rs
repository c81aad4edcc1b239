//! The decisions of the USN journal watch: when the catalog must be rebuilt
//! by a full rescan, and what a blocking journal read reports.
use vstd::prelude::*;

use crate::mft::{le64, read_u64};

verus! {

/// Windows error: the end of the journal was reached.
pub const ERROR_HANDLE_EOF: u32 = 38;

/// Windows error: the journal entry asked for was deleted (the journal
/// wrapped).
pub const ERROR_JOURNAL_ENTRY_DELETED: u32 = 1301;

/// What the watch does after querying the journal.
#[derive(Debug, Clone, Copy, PartialEq, Eq, Structural)]
pub enum WatchDecision {
    /// The journal was replaced: rescan, then start watching anew.
    RescanAndRestart,
    /// The journal wrapped past the position: rescan, then go on from
    /// `resume_from`.
    RescanAndResume { resume_from: i64 },
    /// Read the journal from `from`.
    Read { from: i64 },
}

/// Decides the next step of the watch from the journal watched
/// (`journal_id`, read position `start_usn`) and a fresh query of it.
pub fn watch_decision(
    journal_id: u64,
    start_usn: i64,
    current_id: u64,
    current_next_usn: i64,
    current_first_usn: i64,
) -> (d: WatchDecision)
    ensures
        d == if current_id != journal_id {
            WatchDecision::RescanAndRestart
        } else if current_next_usn < start_usn {
            WatchDecision::RescanAndResume { resume_from: current_first_usn }
        } else {
            WatchDecision::Read { from: start_usn }
        },
{
    if current_id != journal_id {
        WatchDecision::RescanAndRestart
    } else if current_next_usn < start_usn {
        WatchDecision::RescanAndResume { resume_from: current_first_usn }
    } else {
        WatchDecision::Read { from: start_usn }
    }
}

/// What a blocking journal read from `start_usn` reports: the next read
/// position and whether the journal changed, or the Windows error code.
///
/// A failed read at the end of the journal, or past a deleted entry,
/// reports a change at the same position; any other failure is an error.
/// A successful read of fewer than eight bytes reports no change; otherwise
/// the first eight bytes (little-endian) are the next position, and any
/// further bytes are change records.
pub fn usn_read_outcome(
    start_usn: i64,
    succeeded: bool,
    last_error: u32,
    output: &[u8],
    bytes_returned: u32,
) -> (r: Result<(i64, bool), u32>)
    requires
        succeeded && bytes_returned >= 8 ==> output@.len() >= 8,
    ensures
        r == if !succeeded {
            if last_error == ERROR_HANDLE_EOF || last_error == ERROR_JOURNAL_ENTRY_DELETED {
                Ok((start_usn, true))
            } else {
                Err(last_error)
            }
        } else if bytes_returned < 8 {
            Ok((start_usn, false))
        } else {
            Ok((le64(output@, 0) as i64, bytes_returned > 8))
        },
{
    if !succeeded {
        if last_error == ERROR_HANDLE_EOF || last_error == ERROR_JOURNAL_ENTRY_DELETED {
            return Ok((start_usn, true));
        }
        return Err(last_error);
    }
    if bytes_returned < 8 {
        return Ok((start_usn, false));
    }
    let next = read_u64(output, 0) as i64;
    Ok((next, bytes_returned > 8))
}

} // verus!
