//! The container's data model: the fixed 46-byte header and one entry of the
//! entry table.
//!
//! Entry paths are kept as raw bytes, `/`-separated and case-preserving; the
//! table is keyed by their ASCII-lower-cased form.

use crate::codec::spec_lower;
use vstd::prelude::*;

verus! {

/// Size of the fixed container header in bytes.
pub const GRF_HEADER_SIZE: usize = 46;

/// The ASCII signature that opens every container file.
pub const GRF_SIGNATURE: &'static str = "Master of Magic";

/// Mathematical image of a parsed container header.
pub ghost struct GrfHeaderModel {
    pub signature: Seq<char>,
    pub key: Seq<u8>,
    pub file_table_offset: u64,
    pub real_file_count: i32,
    pub version: u32,
}

/// A parsed container header.
///
/// `file_table_offset` is relative to the end of the header; the absolute
/// offset of the entry table is `file_table_offset + 46`. `real_file_count`
/// is the effective entry count `raw_count - seed - 7`.
#[derive(Debug, Clone)]
pub struct GrfHeader {
    pub signature: String,
    pub key: Vec<u8>,
    pub file_table_offset: u64,
    pub real_file_count: i32,
    pub version: u32,
}

impl View for GrfHeader {
    type V = GrfHeaderModel;

    open spec fn view(&self) -> GrfHeaderModel {
        GrfHeaderModel {
            signature: self.signature@,
            key: self.key@,
            file_table_offset: self.file_table_offset,
            real_file_count: self.real_file_count,
            version: self.version,
        }
    }
}

/// Mathematical image of one entry of the entry table.
pub ghost struct GrfEntryModel {
    pub filename: Seq<u8>,
    pub compressed_size: i32,
    pub compressed_size_aligned: i32,
    pub real_size: i32,
    pub flags: u8,
    pub offset: i32,
}

/// One entry of the entry table.
///
/// `filename` is the canonical-cased path; `offset` is the payload offset
/// relative to the end of the header; `compressed_size_aligned` is the length
/// of the on-disk payload.
#[derive(Debug, Clone)]
pub struct GrfEntry {
    pub filename: Vec<u8>,
    pub compressed_size: i32,
    pub compressed_size_aligned: i32,
    pub real_size: i32,
    pub flags: u8,
    pub offset: i32,
}

impl View for GrfEntry {
    type V = GrfEntryModel;

    open spec fn view(&self) -> GrfEntryModel {
        GrfEntryModel {
            filename: self.filename@,
            compressed_size: self.compressed_size,
            compressed_size_aligned: self.compressed_size_aligned,
            real_size: self.real_size,
            flags: self.flags,
            offset: self.offset,
        }
    }
}

/// An entry can be laid out in the table iff its path contains no NUL byte,
/// the table's string terminator.
pub open spec fn entry_wf(e: GrfEntryModel) -> bool {
    !e.filename.contains(0u8)
}

/// The case-insensitive key under which an entry is stored.
pub open spec fn entry_key(e: GrfEntryModel) -> Seq<u8> {
    spec_lower(e.filename)
}

/// Errors of the container layer.
#[derive(Debug, Clone)]
pub enum GrfError {
    /// The container header or entry table is malformed; carries the reason.
    ArchiveCorrupt(String),
    /// A merge could not be written; carries the reason.
    ArchiveWrite(String),
}

} // verus!
