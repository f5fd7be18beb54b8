//! From the command line's choices and a walk to what is shown.

use crate::order::ranking_of;
use crate::report::{display_results, report_of, Report};
use crate::scan::{
    first_file_without_size, lemma_total_counts_each_file_once, listed_file_bytes, listing,
    scan_directory, total_file_bytes, ScanError, Visit,
};
use vstd::prelude::*;

verus! {

/// Whether files are listed, and whether directories are: both, unless
/// one of the two kinds alone was asked for. Where both were asked for
/// alone, the directories win.
pub open spec fn inclusion_of(dirs_only: bool, files_only: bool) -> (bool, bool) {
    if dirs_only {
        (false, true)
    } else if files_only {
        (true, false)
    } else {
        (true, true)
    }
}

/// What to list, as the pair of `include_files` and `include_directories`.
pub fn inclusion(dirs_only: bool, files_only: bool) -> (flags: (bool, bool))
    ensures
        flags == inclusion_of(dirs_only, files_only),
{
    if dirs_only {
        (false, true)
    } else if files_only {
        (true, false)
    } else {
        (true, true)
    }
}

/// Scans a walk and reports on its `limit` largest entries. The total is
/// that of the listed files alone, so a file counts once even where the
/// directories above it are listed with it.
pub fn analyze(
    visits: &Vec<Visit>,
    include_files: bool,
    include_directories: bool,
    min_size: u64,
    limit: usize,
) -> (result: Result<Report, ScanError>)
    requires
        total_file_bytes(visits.deep_view()) <= u64::MAX,
    ensures
        match result {
            Ok(report) => {
                &&& first_file_without_size(visits.deep_view()) is None
                &&& report@ == report_of(
                    ranking_of(
                        listing(visits.deep_view(), include_files, include_directories, min_size),
                    ),
                    limit as nat,
                )
                &&& report.total == if include_files {
                    listed_file_bytes(visits.deep_view(), min_size)
                } else {
                    0
                }
            },
            Err(ScanError::MetadataReadFailure { path }) => first_file_without_size(
                visits.deep_view(),
            ) == Some(path@),
        },
{
    match scan_directory(visits, include_files, include_directories, min_size) {
        Ok(items) => {
            proof {
                lemma_total_counts_each_file_once(
                    visits.deep_view(),
                    include_files,
                    include_directories,
                    min_size,
                    items.deep_view(),
                );
            }
            Ok(display_results(&items, limit))
        },
        Err(error) => Err(error),
    }
}

} // verus!
