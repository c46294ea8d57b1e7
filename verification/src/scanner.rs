//! Scanning: from the files of a directory, each given by its path and its
//! bytes, to the fingerprint records of those that are images.

use vstd::prelude::*;
use crate::extractor::{file_fingerprint, fingerprint_file, MAX_HASH_SIZE};
use crate::fingerprint::Fingerprint;
use crate::models::{records_of, ImageInfo, Record};

verus! {

/// A file as it was read: its path and what it holds.
#[derive(Debug, PartialEq, Eq)]
pub struct FileEntry {
    pub path: String,
    pub bytes: Vec<u8>,
}

/// The records of the first `k` of `outcomes`, in order: one for each path
/// whose extraction gave a fingerprint, none for the others.
pub open spec fn kept_below(outcomes: Seq<(String, Option<Fingerprint>)>, k: int) -> Seq<Record>
    decreases k,
{
    if k <= 0 {
        Seq::empty()
    } else {
        match outcomes[k - 1].1 {
            Some(hash) => kept_below(outcomes, k - 1).push(
                Record { path: outcomes[k - 1].0@, bits: hash@ },
            ),
            None => kept_below(outcomes, k - 1),
        }
    }
}

/// The records of all of `outcomes`.
pub open spec fn kept_records(outcomes: Seq<(String, Option<Fingerprint>)>) -> Seq<Record> {
    kept_below(outcomes, outcomes.len() as int)
}

/// The records of the first `k` of `entries`, in order: one for each file that
/// has a fingerprint at the resolution `hash_size`.
pub open spec fn scanned_below(entries: Seq<FileEntry>, hash_size: u32, k: int) -> Seq<Record>
    decreases k,
{
    if k <= 0 {
        Seq::empty()
    } else {
        match file_fingerprint(entries[k - 1].path@, entries[k - 1].bytes@, hash_size) {
            Some(bits) => scanned_below(entries, hash_size, k - 1).push(
                Record { path: entries[k - 1].path@, bits },
            ),
            None => scanned_below(entries, hash_size, k - 1),
        }
    }
}

/// The records of all of `entries`.
pub open spec fn scanned_records(entries: Seq<FileEntry>, hash_size: u32) -> Seq<Record> {
    scanned_below(entries, hash_size, entries.len() as int)
}

/// A scan yields at most one record for each file.
pub proof fn lemma_scanned_len(entries: Seq<FileEntry>, hash_size: u32, k: int)
    requires
        0 <= k,
    ensures
        scanned_below(entries, hash_size, k).len() <= k,
    decreases k,
{
    if k > 0 {
        lemma_scanned_len(entries, hash_size, k - 1);
    }
}

/// Keeps the paths whose extraction succeeded, each with its fingerprint, in
/// the order in which they were given. The others are dropped.
pub fn collect_records(outcomes: &Vec<(String, Option<Fingerprint>)>) -> (images: Vec<ImageInfo>)
    ensures
        records_of(images@) == kept_records(outcomes@),
{
    let mut images: Vec<ImageInfo> = Vec::new();
    let mut k: usize = 0;
    assert(records_of(images@) =~= kept_below(outcomes@, 0));
    while k < outcomes.len()
        invariant
            k <= outcomes@.len(),
            records_of(images@) == kept_below(outcomes@, k as int),
        decreases outcomes@.len() - k,
    {
        let ghost kept = images@;
        match &outcomes[k].1 {
            Some(hash) => {
                images.push(ImageInfo { path: outcomes[k].0.clone(), hash: hash.clone() });
                proof {
                    let last = Record { path: outcomes@[k as int].0@, bits: hash@ };
                    assert(images@.len() == kept.len() + 1);
                    assert(records_of(kept).len() == kept.len());
                    assert forall|m: int| 0 <= m < images@.len() implies records_of(images@)[m]
                        == records_of(kept).push(last)[m] by {
                        if m < kept.len() {
                            assert(images@[m] == kept[m]);
                        }
                    }
                    assert(records_of(images@) =~= records_of(kept).push(last));
                }
            },
            None => {},
        }
        k = k + 1;
    }
    images
}

/// Scans `entries`: extracts the fingerprint of every file that decodes as an
/// image, at a resolution of `hash_size` by `hash_size` bits, and drops the
/// files that do not. The records come in the order of the entries.
pub fn get_image_hashes(entries: &Vec<FileEntry>, hash_size: u32) -> (images: Vec<ImageInfo>)
    requires
        1 <= hash_size <= MAX_HASH_SIZE,
    ensures
        records_of(images@) == scanned_records(entries@, hash_size),
        images@.len() <= entries@.len(),
{
    let mut images: Vec<ImageInfo> = Vec::new();
    let mut k: usize = 0;
    assert(records_of(images@) =~= scanned_below(entries@, hash_size, 0));
    while k < entries.len()
        invariant
            k <= entries@.len(),
            1 <= hash_size <= MAX_HASH_SIZE,
            records_of(images@) == scanned_below(entries@, hash_size, k as int),
        decreases entries@.len() - k,
    {
        let ghost kept = images@;
        let entry = &entries[k];
        match fingerprint_file(entry.path.as_str(), entry.bytes.as_slice(), hash_size) {
            Some(hash) => {
                images.push(ImageInfo { path: entry.path.clone(), hash });
                proof {
                    let last = Record { path: entry.path@, bits: hash@ };
                    assert(images@.len() == kept.len() + 1);
                    assert(records_of(kept).len() == kept.len());
                    assert forall|m: int| 0 <= m < images@.len() implies records_of(images@)[m]
                        == records_of(kept).push(last)[m] by {
                        if m < kept.len() {
                            assert(images@[m] == kept[m]);
                        }
                    }
                    assert(records_of(images@) =~= records_of(kept).push(last));
                }
            },
            None => {},
        }
        k = k + 1;
    }
    proof {
        lemma_scanned_len(entries@, hash_size, entries@.len() as int);
        assert(records_of(images@).len() == images@.len());
    }
    images
}

} // verus!
