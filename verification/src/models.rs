//! The records that flow through a run: scanned images, duplicate groups and
//! the final report.

use vstd::prelude::*;
use crate::fingerprint::Fingerprint;

verus! {

/// What a scanned image is to the specifications: its path and the bits of its
/// fingerprint.
pub struct Record {
    pub path: Seq<char>,
    pub bits: Seq<u8>,
}

/// One scanned image: where it was found and its perceptual fingerprint.
#[derive(Debug, PartialEq, Eq)]
pub struct ImageInfo {
    pub path: String,
    pub hash: Fingerprint,
}

impl View for ImageInfo {
    type V = Record;

    open spec fn view(&self) -> Record {
        Record { path: self.path@, bits: self.hash@ }
    }
}

impl Clone for ImageInfo {
    fn clone(&self) -> (r: ImageInfo)
        ensures
            r@ == self@,
    {
        ImageInfo { path: self.path.clone(), hash: self.hash.clone() }
    }
}

/// The records that a vector of images stands for, in the same order.
pub open spec fn records_of(images: Seq<ImageInfo>) -> Seq<Record> {
    Seq::new(images.len(), |k: int| images[k]@)
}

/// Images that were found to be near-duplicates of the first among them, the
/// anchor.
#[derive(Debug, PartialEq, Eq)]
pub struct DuplicatesGroup {
    pub items: Vec<ImageInfo>,
}

impl View for DuplicatesGroup {
    type V = Seq<Record>;

    open spec fn view(&self) -> Seq<Record> {
        records_of(self.items@)
    }
}

/// The record sequences that a vector of groups stands for, in the same order.
pub open spec fn groups_of(groups: Seq<DuplicatesGroup>) -> Seq<Seq<Record>> {
    Seq::new(groups.len(), |k: int| groups[k]@)
}

/// The outcome of one run over a directory.
#[derive(Debug, PartialEq, Eq)]
pub struct DeduplicationReport {
    pub directory: String,
    pub duplicates: Vec<DuplicatesGroup>,
    pub threshold: u32,
}

impl DeduplicationReport {
    /// A report on `directory` that lists `duplicates`, found under `threshold`.
    pub fn new(directory: String, duplicates: Vec<DuplicatesGroup>, threshold: u32) -> (r:
        DeduplicationReport)
        ensures
            r.directory == directory,
            r.duplicates == duplicates,
            r.threshold == threshold,
    {
        DeduplicationReport { directory, duplicates, threshold }
    }
}

} // verus!
