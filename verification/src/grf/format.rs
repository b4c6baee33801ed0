//! The container's byte layout: header fields at fixed offsets, and the
//! packed entry table with its parse and serialization functions.

use crate::codec::{lemma_i32_le_bytes, spec_i32_from_le_bytes, spec_i32_to_le_bytes};
use crate::grf::types::{entry_wf, GrfEntryModel, GrfHeaderModel, GRF_SIGNATURE};
use crate::zlib::zlib_inflate;
use vstd::bytes::*;
use vstd::prelude::*;

verus! {

/// The 15 signature bytes, the ASCII of `"Master of Magic"`.
pub open spec fn spec_signature() -> Seq<u8> {
    seq![
        77u8,
        97u8,
        115u8,
        116u8,
        101u8,
        114u8,
        32u8,
        111u8,
        102u8,
        32u8,
        77u8,
        97u8,
        103u8,
        105u8,
        99u8,
    ]
}

/// Header image of `file`: `None` when `file` is shorter than a header, the
/// signature differs, or the effective count `raw - seed - 7` falls outside
/// `0 ..= i32::MAX`.
pub open spec fn spec_read_header(file: Seq<u8>) -> Option<GrfHeaderModel> {
    if file.len() < 46 {
        None
    } else if file.subrange(0, 15) != spec_signature() {
        None
    } else {
        let off = spec_u64_from_le_bytes(file.subrange(30, 38));
        let seed = spec_i32_from_le_bytes(file.subrange(38, 42));
        let raw = spec_i32_from_le_bytes(file.subrange(42, 46));
        let c = raw as int - seed as int - 7;
        if c < 0 || c > i32::MAX as int {
            None
        } else {
            Some(
                GrfHeaderModel {
                    signature: GRF_SIGNATURE@,
                    key: file.subrange(15, 29),
                    file_table_offset: off,
                    real_file_count: c as i32,
                    version: 0x200,
                },
            )
        }
    }
}

/// The byte image of one table entry: the NUL-terminated path, three sizes,
/// one flags byte, and the payload offset.
pub open spec fn entry_bytes(e: GrfEntryModel) -> Seq<u8> {
    e.filename + seq![0u8] + spec_i32_to_le_bytes(e.compressed_size) + spec_i32_to_le_bytes(
        e.compressed_size_aligned,
    ) + spec_i32_to_le_bytes(e.real_size) + seq![e.flags] + spec_i32_to_le_bytes(e.offset)
}

/// The byte image of a whole table: entries packed back to back.
pub open spec fn table_bytes(es: Seq<GrfEntryModel>) -> Seq<u8>
    decreases es.len(),
{
    if es.len() == 0 {
        Seq::empty()
    } else {
        entry_bytes(es[0]) + table_bytes(es.skip(1))
    }
}

/// Index of the first NUL byte, or `data.len()` when there is none.
pub open spec fn find_nul(data: Seq<u8>) -> int
    decreases data.len(),
{
    if data.len() == 0 {
        0
    } else if data[0] == 0 {
        0
    } else {
        1 + find_nul(data.skip(1))
    }
}

/// Entries parsed from a decompressed table, stopping at `count` entries, at
/// the end of the data, or at a truncated final record.
pub open spec fn parse_entries(data: Seq<u8>, count: int) -> Seq<GrfEntryModel>
    decreases count,
{
    if count <= 0 || data.len() == 0 {
        Seq::empty()
    } else {
        let n = find_nul(data);
        if n + 18 > data.len() {
            Seq::empty()
        } else {
            let e = GrfEntryModel {
                filename: data.subrange(0, n),
                compressed_size: spec_i32_from_le_bytes(data.subrange(n + 1, n + 5)),
                compressed_size_aligned: spec_i32_from_le_bytes(data.subrange(n + 5, n + 9)),
                real_size: spec_i32_from_le_bytes(data.subrange(n + 9, n + 13)),
                flags: data[n + 13],
                offset: spec_i32_from_le_bytes(data.subrange(n + 14, n + 18)),
            };
            seq![e] + parse_entries(data.skip(n + 18), count - 1)
        }
    }
}

/// The compressed table bytes designated by the header: an 8-byte length
/// prelude at the table offset, then that many bytes.
pub open spec fn spec_table_slice(file: Seq<u8>, h: GrfHeaderModel) -> Option<Seq<u8>> {
    let t = h.file_table_offset as int + 46;
    if t + 8 > file.len() {
        None
    } else {
        let cs = spec_i32_from_le_bytes(file.subrange(t, t + 4)) as int;
        if cs < 0 || t + 8 + cs > file.len() {
            None
        } else {
            Some(file.subrange(t + 8, t + 8 + cs))
        }
    }
}

/// Table image of `file` under header `h`: locate, decompress and parse the
/// entry table; `None` when it is out of bounds or not a zlib stream.
pub open spec fn spec_read_table(file: Seq<u8>, h: GrfHeaderModel) -> Option<Seq<GrfEntryModel>> {
    match spec_table_slice(file, h) {
        None => None,
        Some(c) => match zlib_inflate(c) {
            None => None,
            Some(d) => Some(parse_entries(d, h.real_file_count as int)),
        },
    }
}

/// `find_nul` is the position of the first NUL: within bounds, no NUL before
/// it, and a NUL at it unless the data has none.
pub proof fn lemma_find_nul(data: Seq<u8>)
    ensures
        0 <= find_nul(data) <= data.len(),
        forall|i: int| 0 <= i < find_nul(data) ==> data[i] != 0,
        find_nul(data) < data.len() ==> data[find_nul(data)] == 0,
    decreases data.len(),
{
    if data.len() == 0 || data[0] == 0 {
    } else {
        lemma_find_nul(data.skip(1));
        assert forall|i: int| 0 <= i < find_nul(data) implies data[i] != 0 by {
            if i > 0 {
                assert(data.skip(1)[i - 1] != 0);
            }
        }
    }
}

/// Any position with the first-NUL properties is `find_nul`.
pub proof fn lemma_find_nul_unique(data: Seq<u8>, n: int)
    requires
        0 <= n <= data.len(),
        forall|i: int| 0 <= i < n ==> data[i] != 0,
        n < data.len() ==> data[n] == 0,
    ensures
        find_nul(data) == n,
    decreases data.len(),
{
    if data.len() == 0 {
    } else if data[0] == 0 {
        assert(n == 0);
    } else {
        assert(n >= 1);
        assert forall|i: int| 0 <= i < n - 1 implies data.skip(1)[i] != 0 by {
            assert(data[i + 1] != 0);
        }
        lemma_find_nul_unique(data.skip(1), n - 1);
    }
}

/// In `name ++ tail` where `name` has no NUL and `tail` opens with one, the
/// first NUL sits exactly at `name.len()`.
pub proof fn lemma_find_nul_concat(name: Seq<u8>, tail: Seq<u8>)
    requires
        !name.contains(0u8),
        tail.len() > 0,
        tail[0] == 0,
    ensures
        find_nul(name + tail) == name.len(),
{
    let d = name + tail;
    assert forall|i: int| 0 <= i < name.len() implies d[i] != 0 by {
        assert(d[i] == name[i]);
        assert(name[i] != 0) by {
            if name[i] == 0 {
                assert(name.contains(0u8));
            }
        }
    }
    assert(d[name.len() as int] == tail[0]);
    lemma_find_nul_unique(d, name.len() as int);
}

/// Length of one entry's byte image.
pub proof fn lemma_entry_bytes_len(e: GrfEntryModel)
    ensures
        entry_bytes(e).len() == e.filename.len() + 18,
{
    lemma_i32_le_bytes();
}

/// Appending one entry extends the table image at its end.
pub proof fn lemma_table_bytes_push(es: Seq<GrfEntryModel>, e: GrfEntryModel)
    ensures
        table_bytes(es.push(e)) == table_bytes(es) + entry_bytes(e),
    decreases es.len(),
{
    if es.len() == 0 {
        assert(es.push(e)[0] == e);
        assert(es.push(e).skip(1) =~= Seq::<GrfEntryModel>::empty());
        assert(table_bytes(es.push(e)) == entry_bytes(e) + table_bytes(
            Seq::<GrfEntryModel>::empty(),
        ));
        assert(entry_bytes(e) + Seq::<u8>::empty() =~= entry_bytes(e));
        assert(table_bytes(es) + entry_bytes(e) =~= entry_bytes(e));
    } else {
        assert(es.push(e).skip(1) =~= es.skip(1).push(e));
        lemma_table_bytes_push(es.skip(1), e);
        assert(table_bytes(es.push(e)) == entry_bytes(es[0]) + (table_bytes(es.skip(1))
            + entry_bytes(e)));
        assert(entry_bytes(es[0]) + (table_bytes(es.skip(1)) + entry_bytes(e)) =~= (entry_bytes(
            es[0],
        ) + table_bytes(es.skip(1))) + entry_bytes(e));
    }
}

/// Parsing the serialized image of well-formed entries yields them back.
pub proof fn lemma_parse_table_bytes(es: Seq<GrfEntryModel>)
    requires
        forall|i: int| 0 <= i < es.len() ==> entry_wf(#[trigger] es[i]),
    ensures
        parse_entries(table_bytes(es), es.len() as int) == es,
    decreases es.len(),
{
    lemma_i32_le_bytes();
    if es.len() == 0 {
        assert(parse_entries(table_bytes(es), 0) =~= es);
    } else {
        let e0 = es[0];
        let head = entry_bytes(e0);
        let rest = table_bytes(es.skip(1));
        let d = table_bytes(es);
        assert(d == head + rest);
        lemma_entry_bytes_len(e0);
        let m = e0.filename.len() as int;
        let tail = seq![0u8] + spec_i32_to_le_bytes(e0.compressed_size) + spec_i32_to_le_bytes(
            e0.compressed_size_aligned,
        ) + spec_i32_to_le_bytes(e0.real_size) + seq![e0.flags] + spec_i32_to_le_bytes(e0.offset)
            + rest;
        assert(d =~= e0.filename + tail);
        assert(entry_wf(e0));
        lemma_find_nul_concat(e0.filename, tail);
        let n = find_nul(d);
        assert(n == m);
        assert(d.len() == head.len() + rest.len());
        assert(n + 18 <= d.len());
        assert(d.subrange(0, n) =~= e0.filename);
        assert(d.subrange(n + 1, n + 5) =~= spec_i32_to_le_bytes(e0.compressed_size));
        assert(d.subrange(n + 5, n + 9) =~= spec_i32_to_le_bytes(e0.compressed_size_aligned));
        assert(d.subrange(n + 9, n + 13) =~= spec_i32_to_le_bytes(e0.real_size));
        assert(d[n + 13] == e0.flags);
        assert(d.subrange(n + 14, n + 18) =~= spec_i32_to_le_bytes(e0.offset));
        let parsed0 = GrfEntryModel {
            filename: d.subrange(0, n),
            compressed_size: spec_i32_from_le_bytes(d.subrange(n + 1, n + 5)),
            compressed_size_aligned: spec_i32_from_le_bytes(d.subrange(n + 5, n + 9)),
            real_size: spec_i32_from_le_bytes(d.subrange(n + 9, n + 13)),
            flags: d[n + 13],
            offset: spec_i32_from_le_bytes(d.subrange(n + 14, n + 18)),
        };
        assert(parsed0 == e0);
        assert(d.skip(n + 18) =~= rest);
        assert(forall|i: int| 0 <= i < es.skip(1).len() ==> entry_wf(#[trigger] es.skip(1)[i]));
        lemma_parse_table_bytes(es.skip(1));
        assert(parse_entries(d, es.len() as int) == seq![e0] + es.skip(1));
        assert(seq![e0] + es.skip(1) =~= es);
    }
}

/// Every parsed entry has a NUL-free path.
pub proof fn lemma_parse_entries_wf(data: Seq<u8>, count: int)
    ensures
        forall|i: int|
            0 <= i < parse_entries(data, count).len() ==> entry_wf(
                #[trigger] parse_entries(data, count)[i],
            ),
    decreases count,
{
    if count <= 0 || data.len() == 0 {
    } else {
        let n = find_nul(data);
        lemma_find_nul(data);
        if n + 18 > data.len() {
        } else {
            lemma_parse_entries_wf(data.skip(n + 18), count - 1);
            let name = data.subrange(0, n);
            assert(!name.contains(0u8)) by {
                if name.contains(0u8) {
                    let i = choose|i: int| 0 <= i < name.len() && name[i] == 0;
                    assert(data[i] == 0);
                }
            }
            let rest = parse_entries(data.skip(n + 18), count - 1);
            let all = parse_entries(data, count);
            assert forall|i: int| 0 <= i < all.len() implies entry_wf(#[trigger] all[i]) by {
                if i == 0 {
                    assert(all[0].filename == name);
                } else {
                    assert(all[i] == rest[i - 1]);
                }
            }
        }
    }
}

} // verus!
