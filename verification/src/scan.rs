//! A scan for EPUB files that tells a listener of each as it is found.

use vstd::prelude::*;

use crate::normalize::{walked_epubs, WalkedEntry};
use crate::path::{is_epub, names_epub};
use crate::text::{pair, viewed};

verus! {

/// What a listener is told.
#[derive(Debug, Clone, PartialEq, Eq)]
pub enum ScanEvent {
    EpubFound { scan_id: String, path: String },
    ScanError { scan_id: String, message: String },
    ScanFinished { scan_id: String },
}

pub enum ScanEventModel {
    EpubFound { scan_id: Seq<char>, path: Seq<char> },
    ScanError { scan_id: Seq<char>, message: Seq<char> },
    ScanFinished { scan_id: Seq<char> },
}

impl View for ScanEvent {
    type V = ScanEventModel;

    open spec fn view(&self) -> ScanEventModel {
        match self {
            ScanEvent::EpubFound { scan_id, path } => ScanEventModel::EpubFound {
                scan_id: scan_id@,
                path: path@,
            },
            ScanEvent::ScanError { scan_id, message } => ScanEventModel::ScanError {
                scan_id: scan_id@,
                message: message@,
            },
            ScanEvent::ScanFinished { scan_id } => ScanEventModel::ScanFinished {
                scan_id: scan_id@,
            },
        }
    }
}

impl ScanEventModel {
    pub open spec fn name(self) -> Seq<char> {
        match self {
            ScanEventModel::EpubFound { .. } => "epub-found"@,
            ScanEventModel::ScanError { .. } => "scan-error"@,
            ScanEventModel::ScanFinished { .. } => "scan-finished"@,
        }
    }
}

impl ScanEvent {
    /// The name that listeners know the event by.
    pub fn name(&self) -> (name: &'static str)
        ensures
            name@ == self@.name(),
    {
        match self {
            ScanEvent::EpubFound { .. } => "epub-found",
            ScanEvent::ScanError { .. } => "scan-error",
            ScanEvent::ScanFinished { .. } => "scan-finished",
        }
    }

    /// Whether the scan ends because this event did not reach its listener: one
    /// that is not there to be told of files is not waited for.
    pub fn ends_scan(&self, delivered: bool) -> (yes: bool)
        ensures
            yes == (self@ is EpubFound && !delivered),
    {
        match self {
            ScanEvent::EpubFound { .. } => !delivered,
            _ => false,
        }
    }

    /// The event that ends a scan.
    pub fn finished(scan_id: &str) -> (event: ScanEvent)
        ensures
            event@ == (ScanEventModel::ScanFinished { scan_id: scan_id@ }),
    {
        ScanEvent::ScanFinished { scan_id: scan_id.to_owned() }
    }
}

/// What a listener is told of what the walk came upon: each EPUB file, and each
/// failure.
pub open spec fn told_of(scan_id: Seq<char>, walked: Result<WalkedEntry, String>) -> Option<
    ScanEventModel,
> {
    match walked {
        Ok(entry) => if entry.is_file && names_epub(entry.path@) {
            Some(ScanEventModel::EpubFound { scan_id, path: entry.path@ })
        } else {
            None
        },
        Err(message) => Some(ScanEventModel::ScanError { scan_id, message: message@ }),
    }
}

/// A scan needs a directory to start from.
pub fn check_scan_root(path: &str, is_directory: bool) -> (out: Result<(), String>)
    ensures
        out is Ok <==> is_directory,
        out is Err ==> out->Err_0@ == path@ + " is not a directory"@,
{
    if is_directory {
        Ok(())
    } else {
        Err(pair(path, " is not a directory"))
    }
}

/// What a listener is told of something that the walk came upon.
pub fn scan_event(scan_id: &str, walked: Result<WalkedEntry, String>) -> (event: Option<ScanEvent>)
    ensures
        viewed(event) == told_of(scan_id@, walked),
{
    match walked {
        Ok(entry) => {
            if entry.is_file && is_epub(entry.path.as_str()) {
                Some(ScanEvent::EpubFound { scan_id: scan_id.to_owned(), path: entry.path })
            } else {
                None
            }
        },
        Err(message) => Some(ScanEvent::ScanError { scan_id: scan_id.to_owned(), message }),
    }
}

/// The files that a listener is told of in a walk.
pub open spec fn found_paths(scan_id: Seq<char>, walked: Seq<Result<WalkedEntry, String>>) -> Seq<
    Seq<char>,
>
    decreases walked.len(),
{
    if walked.len() == 0 {
        Seq::empty()
    } else {
        let before = found_paths(scan_id, walked.drop_last());
        match told_of(scan_id, walked.last()) {
            Some(ScanEventModel::EpubFound { path, .. }) => before.push(path),
            _ => before,
        }
    }
}

/// A walk without failures tells a listener of the files that a normalize run
/// takes from it.
pub proof fn scans_find_what_runs_take(
    scan_id: Seq<char>,
    walked: Seq<Result<WalkedEntry, String>>,
)
    requires
        walked_epubs(walked) is Ok,
    ensures
        found_paths(scan_id, walked) == walked_epubs(walked)->Ok_0,
    decreases walked.len(),
{
    if walked.len() > 0 {
        scans_find_what_runs_take(scan_id, walked.drop_last());
    }
}

/// A listener is told of each file that is named like an EPUB, by its path, and of
/// each failure, by its message; of folders and other files it is told nothing.
pub proof fn listeners_are_told_of_files_and_failures(
    scan_id: Seq<char>,
    entry: WalkedEntry,
    message: String,
)
    ensures
        told_of(scan_id, Ok(entry)) == if entry.is_file && names_epub(entry.path@) {
            Some(ScanEventModel::EpubFound { scan_id, path: entry.path@ })
        } else {
            None
        },
        told_of(scan_id, Err(message)) == Some(
            ScanEventModel::ScanError { scan_id, message: message@ },
        ),
{
}

/// Listeners know the three events by different names.
pub proof fn events_are_told_apart(scan_id: Seq<char>, text: Seq<char>)
    ensures
        (ScanEventModel::EpubFound { scan_id, path: text }).name() == "epub-found"@,
        (ScanEventModel::ScanError { scan_id, message: text }).name() == "scan-error"@,
        (ScanEventModel::ScanFinished { scan_id }).name() == "scan-finished"@,
{
}

} // verus!
