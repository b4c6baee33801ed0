//! Reading a container: parse the fixed header, then locate, decompress and
//! parse the entry table into a case-insensitive map.

use crate::codec::{bytes_eq, read_i32_at, read_u64_at};
use crate::grf::format::{
    lemma_find_nul_unique, parse_entries, spec_read_header, spec_read_table, spec_signature,
    spec_table_slice,
};
use crate::grf::table::{models, spec_build_list, table_map, EntryTable};
use crate::grf::types::{GrfEntry, GrfError, GrfHeader, GRF_SIGNATURE};
use crate::zlib::zlib_decompress;
use vstd::prelude::*;
use vstd::slice::{slice_subrange, slice_to_vec};

verus! {

/// Reads a container image held in memory.
pub struct GrfReader {
    pub data: Vec<u8>,
}

impl GrfReader {
    /// Wraps a container image.
    pub fn new(data: Vec<u8>) -> (r: GrfReader)
        ensures
            r.data@ == data@,
    {
        GrfReader { data }
    }

    /// Parses the 46-byte header.
    ///
    /// Succeeds exactly when the image is long enough, opens with the
    /// signature, and carries an effective entry count in `0 ..= i32::MAX`.
    pub fn read_header(&self) -> (r: Result<GrfHeader, GrfError>)
        ensures
            match r {
                Ok(h) => spec_read_header(self.data@) == Some(h@),
                Err(e) => spec_read_header(self.data@) is None && e is ArchiveCorrupt,
            },
    {
        let n = self.data.len();
        if n < 46 {
            return Err(GrfError::ArchiveCorrupt(String::from_str("short header")));
        }
        let sig: Vec<u8> = vec![77, 97, 115, 116, 101, 114, 32, 111, 102, 32, 77, 97, 103, 105, 99];
        proof {
            assert(sig@ =~= spec_signature());
        }
        let head = slice_subrange(self.data.as_slice(), 0, 15);
        if !bytes_eq(head, sig.as_slice()) {
            return Err(GrfError::ArchiveCorrupt(String::from_str("bad signature")));
        }
        let key = slice_to_vec(slice_subrange(self.data.as_slice(), 15, 29));
        let off = read_u64_at(self.data.as_slice(), 30);
        let seed = read_i32_at(self.data.as_slice(), 38);
        let raw = read_i32_at(self.data.as_slice(), 42);
        let c64: i64 = raw as i64 - seed as i64 - 7;
        if c64 < 0 || c64 > i32::MAX as i64 {
            return Err(GrfError::ArchiveCorrupt(String::from_str("bad count")));
        }
        let h = GrfHeader {
            signature: GRF_SIGNATURE.to_owned(),
            key,
            file_table_offset: off,
            real_file_count: c64 as i32,
            version: 0x200,
        };
        proof {
            let m = spec_read_header(self.data@).unwrap();
            assert(h@.signature =~= m.signature);
            assert(h@.key =~= m.key);
        }
        Ok(h)
    }

    /// Locates, decompresses and parses the entry table under `header`,
    /// building the case-insensitive map; a later duplicate of a key wins.
    ///
    /// Succeeds exactly when the table designated by the header lies within
    /// the image and decompresses as a zlib stream.
    pub fn read_file_table(&self, header: &GrfHeader) -> (r: Result<EntryTable, GrfError>)
        ensures
            match r {
                Ok(t) => {
                    &&& spec_read_table(self.data@, header@) is Some
                    &&& t.wf()
                    &&& models(t.entries@) == spec_build_list(
                        spec_read_table(self.data@, header@).unwrap(),
                    )
                    &&& t@ == table_map(spec_read_table(self.data@, header@).unwrap())
                },
                Err(e) => spec_read_table(self.data@, header@) is None && e is ArchiveCorrupt,
            },
    {
        let data = &self.data;
        let n = data.len();
        if header.file_table_offset > u64::MAX - 54 {
            proof {
                assert(spec_table_slice(self.data@, header@) is None);
            }
            return Err(GrfError::ArchiveCorrupt(String::from_str("short table")));
        }
        let t8: u64 = header.file_table_offset + 54;
        if t8 > n as u64 {
            return Err(GrfError::ArchiveCorrupt(String::from_str("short table")));
        }
        let t: usize = (header.file_table_offset as usize) + 46;
        let cs = read_i32_at(data.as_slice(), t);
        if cs < 0 {
            return Err(GrfError::ArchiveCorrupt(String::from_str("bad table size")));
        }
        let csu: usize = cs as usize;
        if csu > n - (t + 8) {
            return Err(GrfError::ArchiveCorrupt(String::from_str("short table")));
        }
        let comp = slice_subrange(data.as_slice(), t + 8, t + 8 + csu);
        proof {
            assert(comp@ == spec_table_slice(self.data@, header@).unwrap());
        }
        let decompressed = match zlib_decompress(comp) {
            Some(d) => d,
            None => {
                return Err(GrfError::ArchiveCorrupt(String::from_str("table decompress")));
            },
        };
        let count: i32 = if header.real_file_count < 0 {
            0
        } else {
            header.real_file_count
        };
        let ghost parsed = spec_read_table(self.data@, header@).unwrap();
        let list = parse_table_entries(&decompressed, count);
        proof {
            assert(parsed == parse_entries(decompressed@, header@.real_file_count as int));
            if header@.real_file_count < 0 {
                assert(parse_entries(decompressed@, header@.real_file_count as int)
                    == parse_entries(decompressed@, 0));
            }
            crate::grf::format::lemma_parse_entries_wf(decompressed@, count as int);
        }
        let mut table = EntryTable::new();
        let mut i: usize = 0;
        while i < list.len()
            invariant
                i <= list@.len(),
                models(list@) == parsed,
                forall|j: int|
                    0 <= j < parsed.len() ==> crate::grf::types::entry_wf(#[trigger] parsed[j]),
                table.wf(),
                models(table.entries@) == spec_build_list(parsed.take(i as int)),
                table@ == table_map(parsed.take(i as int)),
            decreases list@.len() - i,
        {
            let e = GrfEntry {
                filename: slice_to_vec(list[i].filename.as_slice()),
                compressed_size: list[i].compressed_size,
                compressed_size_aligned: list[i].compressed_size_aligned,
                real_size: list[i].real_size,
                flags: list[i].flags,
                offset: list[i].offset,
            };
            proof {
                assert(e@ == parsed[i as int]);
            }
            table.insert(e);
            proof {
                assert(parsed.take(i + 1 as int).drop_last() =~= parsed.take(i as int));
                assert(parsed.take(i + 1 as int).last() == parsed[i as int]);
            }
            i = i + 1;
        }
        proof {
            assert(parsed.take(parsed.len() as int) =~= parsed);
        }
        Ok(table)
    }
}

/// Parses packed entries from a decompressed table, stopping at `count`
/// entries, at the end of the data, or at a truncated final record.
fn parse_table_entries(data: &Vec<u8>, count: i32) -> (r: Vec<GrfEntry>)
    requires
        count >= 0,
    ensures
        models(r@) == parse_entries(data@, count as int),
{
    let ghost total = parse_entries(data@, count as int);
    let mut out: Vec<GrfEntry> = Vec::new();
    let mut pos: usize = 0;
    proof {
        assert(data@.skip(0) =~= data@);
        assert(models(out@) =~= Seq::<crate::grf::types::GrfEntryModel>::empty());
        assert(models(out@) + parse_entries(data@, count as int) =~= total);
    }
    while out.len() < count as usize && pos < data.len()
        invariant
            count >= 0,
            pos <= data@.len(),
            out@.len() <= count,
            total == parse_entries(data@, count as int),
            models(out@) + parse_entries(data@.skip(pos as int), count - out@.len()) == total,
        decreases data@.len() - pos,
    {
        let ghost rem = data@.skip(pos as int);
        let ghost c = count - out@.len();
        // find the terminating NUL of the path
        let mut np: usize = pos;
        while np < data.len() && data[np] != 0
            invariant
                pos <= np <= data@.len(),
                forall|j: int| pos <= j < np ==> data@[j] != 0,
            decreases data@.len() - np,
        {
            np = np + 1;
        }
        proof {
            assert forall|j: int| 0 <= j < np - pos implies rem[j] != 0 by {
                assert(rem[j] == data@[pos + j]);
            }
            if np < data@.len() {
                assert(rem[np - pos] == data@[np as int]);
            }
            lemma_find_nul_unique(rem, np - pos);
        }
        if data.len() - np < 18 {
            proof {
                assert(parse_entries(rem, c) =~= Seq::<crate::grf::types::GrfEntryModel>::empty());
                assert(models(out@) + parse_entries(rem, c) =~= models(out@));
            }
            return out;
        }
        let filename = slice_to_vec(slice_subrange(data.as_slice(), pos, np));
        let cs = read_i32_at(data.as_slice(), np + 1);
        let csa = read_i32_at(data.as_slice(), np + 5);
        let rs = read_i32_at(data.as_slice(), np + 9);
        let flags = data[np + 13];
        let off = read_i32_at(data.as_slice(), np + 14);
        let e = GrfEntry {
            filename,
            compressed_size: cs,
            compressed_size_aligned: csa,
            real_size: rs,
            flags,
            offset: off,
        };
        let ghost n = np - pos;
        proof {
            assert(data@.subrange(pos as int, np as int) =~= rem.subrange(0, n));
            assert(data@.subrange(np + 1, np + 5) =~= rem.subrange(n + 1, n + 5));
            assert(data@.subrange(np + 5, np + 9) =~= rem.subrange(n + 5, n + 9));
            assert(data@.subrange(np + 9, np + 13) =~= rem.subrange(n + 9, n + 13));
            assert(data@[np + 13] == rem[n + 13]);
            assert(data@.subrange(np + 14, np + 18) =~= rem.subrange(n + 14, n + 18));
            assert(parse_entries(rem, c) == seq![e@] + parse_entries(rem.skip(n + 18), c - 1));
        }
        let ghost pre = models(out@);
        out.push(e);
        pos = np + 18;
        proof {
            assert(data@.skip(pos as int) =~= rem.skip(n + 18));
            assert(models(out@) =~= pre.push(e@));
            assert(pre.push(e@) + parse_entries(rem.skip(n + 18), c - 1) =~= pre + (seq![e@]
                + parse_entries(rem.skip(n + 18), c - 1)));
        }
    }
    proof {
        if out@.len() == count {
            assert(parse_entries(data@.skip(pos as int), 0)
                =~= Seq::<crate::grf::types::GrfEntryModel>::empty());
            assert(models(out@) + Seq::empty() =~= models(out@));
        } else if pos == data@.len() {
            assert(data@.skip(pos as int).len() == 0);
            assert(models(out@) + parse_entries(data@.skip(pos as int), count - out@.len())
                =~= models(out@));
        }
    }
    out
}

} // verus!
