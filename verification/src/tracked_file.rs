use vstd::prelude::*;

use crate::content_store::{spec_put, ContentStore};
use crate::digest::{digest_of, hash_bytes};
use crate::pathmap::Dup;
use crate::strutil::str_eq;

verus! {

/// The cheap-to-check fingerprint of a file: its length and timestamps,
/// taken when the file was committed. The digest is the ground truth; the
/// fingerprint only spares rehashing files that have not been touched.
#[derive(PartialEq, Eq, Structural, Clone, Copy, Debug)]
pub struct Metadata {
    pub len: u64,
    pub modify_time: u64,
    pub access_time: u64,
}

impl Metadata {
    pub fn new(len: u64, modify_time: u64, access_time: u64) -> (r: Self)
        ensures
            r == (Metadata { len, modify_time, access_time }),
    {
        Metadata { len, modify_time, access_time }
    }
}

/// A versioned file record inside a commit tree: the digest naming its blob,
/// and the fingerprint taken when it was recorded. Immutable once created;
/// a later commit supersedes it with a new record.
#[derive(Debug)]
pub struct TrackedFile {
    pub blob_id: String,
    pub metadata: Metadata,
}

/// What a tracked file says: which blob holds its content, and under what
/// fingerprint it was recorded.
pub struct TrackedFileView {
    pub blob_id: Seq<char>,
    pub metadata: Metadata,
}

impl View for TrackedFile {
    type V = TrackedFileView;

    open spec fn view(&self) -> TrackedFileView {
        TrackedFileView { blob_id: self.blob_id@, metadata: self.metadata }
    }
}

/// How a file on disk stands to the record a commit holds for it.
#[derive(PartialEq, Eq, Structural, Clone, Copy, Debug)]
pub enum FileStatus {
    Added,
    Modified,
    Unchanged,
}

/// The change classification: a file with no previous record was added; one
/// whose fingerprint matches is unchanged without hashing; otherwise the
/// digest of the bytes decides, so that a touched-but-identical file still
/// counts as unchanged.
pub open spec fn spec_file_status(
    prev: Option<TrackedFileView>,
    metadata: Metadata,
    content: Seq<u8>,
) -> FileStatus {
    match prev {
        None => FileStatus::Added,
        Some(e) => {
            if e.metadata == metadata {
                FileStatus::Unchanged
            } else if e.blob_id == digest_of(content) {
                FileStatus::Unchanged
            } else {
                FileStatus::Modified
            }
        },
    }
}

impl TrackedFile {
    /// Record a file: store its bytes as a blob (idempotently) and keep the
    /// digest with the caller's fingerprint of the file.
    pub fn new(content: &Vec<u8>, metadata: Metadata, store: &mut ContentStore) -> (r: Self)
        requires
            old(store).wf(),
        ensures
            final(store).wf(),
            final(store)@ == spec_put(old(store)@, content@),
            r@.blob_id == digest_of(content@),
            r@.metadata == metadata,
    {
        let blob_id = store.put(content);
        TrackedFile { blob_id, metadata }
    }

    /// Rebuild a record as persisted: the blob digest and the fingerprint.
    pub fn from_parts(blob_id: String, metadata: Metadata) -> (r: Self)
        ensures
            r@.blob_id == blob_id@,
            r@.metadata == metadata,
    {
        TrackedFile { blob_id, metadata }
    }

    pub fn get_blob_id(&self) -> (r: &str)
        ensures
            r@ == self@.blob_id,
    {
        self.blob_id.as_str()
    }

    /// Classify the file on disk, with `metadata` its current fingerprint
    /// and `content` its current bytes, against this record.
    pub fn classify(&self, metadata: Metadata, content: &Vec<u8>) -> (r: FileStatus)
        ensures
            r == spec_file_status(Some(self@), metadata, content@),
    {
        if self.metadata == metadata {
            FileStatus::Unchanged
        } else {
            let d = hash_bytes(content.as_slice());
            if str_eq(d.as_str(), self.blob_id.as_str()) {
                FileStatus::Unchanged
            } else {
                FileStatus::Modified
            }
        }
    }
}

impl Dup for TrackedFile {
    fn dup(&self) -> (r: Self)
        ensures
            r == *self,
    {
        TrackedFile { blob_id: self.blob_id.clone(), metadata: self.metadata }
    }
}

} // verus!
