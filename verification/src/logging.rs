use vstd::prelude::*;
use crate::paths::{base_name, base_name_of};

verus! {

/// One record of a completed move, as handed to the event log sink:
/// where the file came from, where it went, its bare name, when, and
/// the digest of its content.
#[derive(Clone, Debug)]
pub struct FileEventLog {
    pub source_path: String,
    pub target_path: String,
    pub file_name: String,
    pub timestamp: String,
    pub filehash: String,
}

/// Relies on chrono's `Local::now` and its `format`: the wall-clock
/// time in the machine's zone as `YYYY-MM-DD HH:MM:SS`.  A clock
/// reading depends on the machine and the moment, so nothing is
/// promised of the text.
#[verifier::external_body]
fn local_timestamp() -> String {
    format!("{}", chrono::Local::now().format("%Y-%m-%d %H:%M:%S"))
}

/// Builds the log record of a completed move.
pub fn build_file_event(
    source_path: &String,
    target_path: &String,
    timestamp: String,
    filehash: &String,
) -> (e: FileEventLog)
    ensures
        e.source_path@ == source_path@,
        e.target_path@ == target_path@,
        e.file_name@ == base_name_of(source_path@),
        e.timestamp@ == timestamp@,
        e.filehash@ == filehash@,
{
    let file_name = base_name(source_path);
    FileEventLog {
        source_path: source_path.clone(),
        target_path: target_path.clone(),
        file_name,
        timestamp,
        filehash: filehash.clone(),
    }
}

/// Builds the log record of a move completed now; the timestamp is a
/// clock reading, of which nothing is promised.
pub fn build_file_event_now(source_path: &String, target_path: &String, filehash: &String) -> (e:
    FileEventLog)
    ensures
        e.source_path@ == source_path@,
        e.target_path@ == target_path@,
        e.file_name@ == base_name_of(source_path@),
        e.filehash@ == filehash@,
{
    build_file_event(source_path, target_path, local_timestamp(), filehash)
}

} // verus!
