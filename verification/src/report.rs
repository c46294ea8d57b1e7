//! The report of a run: the duplicate groups of the scanned images, together
//! with the directory and the threshold they were found under.

use vstd::prelude::*;
use crate::grouping::{duplicate_groups, find_duplicates};
use crate::models::{groups_of, records_of, DeduplicationReport, ImageInfo};

verus! {

/// Groups `images` under `duplicate_threshold` and reports the groups for
/// `directory`.
pub fn build_report(directory: String, images: Vec<ImageInfo>, duplicate_threshold: u32) -> (r:
    DeduplicationReport)
    ensures
        r.directory@ == directory@,
        r.threshold == duplicate_threshold,
        groups_of(r.duplicates@) == duplicate_groups(records_of(images@), duplicate_threshold),
        forall|g: int| 0 <= g < r.duplicates@.len() ==> (#[trigger] r.duplicates@[g]).items@.len() >= 2,
{
    let duplicates = find_duplicates(images, duplicate_threshold);
    DeduplicationReport::new(directory, duplicates, duplicate_threshold)
}

} // verus!
