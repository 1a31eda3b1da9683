//! Decomposes a ZIP archive into recoverable, content-addressable parts
//! (raw entry bytes, recompression metadata, structural headers) and
//! reassembles an output that is byte-for-byte identical to the original.
//!
//! The pipeline works on in-memory byte sequences; reading archives from
//! disk and persisting blobs are left to the surrounding application.
use vstd::prelude::*;

pub mod archive;
pub mod digest;
pub mod dump;
pub mod laws;
pub mod rebuild;
pub mod shared;
pub mod store;

verus! {

/// Failure classes of the pipeline. Every failure is structural
/// (malformed input, missing blob, codec mismatch); none is retried.
#[derive(Clone, Copy, Debug, PartialEq, Eq)]
pub enum Error {
    /// A blob or header range needed by the operation is missing or malformed.
    IoError,
    /// The recompression codec failed to decode or re-encode a byte range.
    PreflateError,
    /// The archive's entry table could not be read.
    ZipError,
}

/// Mathematical view of a [`ReinsertInfo`].
pub ghost struct ReinsertSpec {
    pub offset: int,
    pub data: Seq<char>,
    pub diff: Option<Seq<char>>,
    pub hash: Option<Seq<char>>,
}

/// One reinsertion instruction: where an entry's data begins in the
/// original archive, which blob holds its reinsertable bytes, and the
/// optional codec diff blob and content digest.
#[derive(Debug)]
pub struct ReinsertInfo {
    /// Absolute byte offset in the original archive where the entry's data begins.
    pub offset: u64,
    /// Name of the blob holding the entry's reinsertable bytes.
    pub data: String,
    /// Name of the blob holding the codec diff; present if and only if the
    /// entry was deflate-compressed.
    pub diff: Option<String>,
    /// Digest of the entry's original compressed bytes; present if and only
    /// if content-addressed naming was requested and the entry was
    /// deflate-compressed. Used as the recompression cache key.
    pub hash: Option<String>,
}

impl View for ReinsertInfo {
    type V = ReinsertSpec;

    open spec fn view(&self) -> ReinsertSpec {
        ReinsertSpec {
            offset: self.offset as int,
            data: self.data@,
            diff: match self.diff {
                Option::None => Option::None,
                Option::Some(d) => Option::Some(d@),
            },
            hash: match self.hash {
                Option::None => Option::None,
                Option::Some(h) => Option::Some(h@),
            },
        }
    }
}

/// Mathematical view of a [`RebuildInfo`].
pub ghost struct RebuildSpec {
    pub original_filename: Seq<char>,
    pub headers: Seq<char>,
    pub files: Seq<ReinsertSpec>,
}

/// The manifest linking an original archive to its headers blob and the
/// ordered list of per-entry reinsertion instructions.
#[derive(Debug)]
pub struct RebuildInfo {
    /// Name the rebuilt archive should take by default.
    pub original_filename: String,
    /// Name of the blob holding every byte not belonging to a data entry.
    pub headers: String,
    /// Reinsertion instructions, ordered by ascending offset.
    pub files: Vec<ReinsertInfo>,
}

impl View for RebuildInfo {
    type V = RebuildSpec;

    open spec fn view(&self) -> RebuildSpec {
        RebuildSpec {
            original_filename: self.original_filename@,
            headers: self.headers@,
            files: self.files@.map_values(|r: ReinsertInfo| r@),
        }
    }
}

} // verus!
