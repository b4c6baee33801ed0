//! Quick-merge: append new payloads at the end of a container image, rewrite
//! the entry table behind them, and patch the header's table offset and
//! count. The old table bytes are leaked, never reused; after the merge the
//! image parses back to exactly the merged table.

use crate::codec::{
    contains_nul, normalize_path, push_bytes, push_i32_le, push_u64_le, spec_lower, spec_normalize,
};
use crate::grf::format::{
    lemma_parse_table_bytes, parse_entries, spec_read_header, spec_read_table, spec_signature,
    spec_table_slice, table_bytes,
};
use crate::grf::table::{models, spec_list_insert, spec_list_remove, EntryTable};
use crate::grf::types::{entry_wf, GrfEntry, GrfEntryModel, GrfError, GrfHeader, GrfHeaderModel, GRF_SIGNATURE};
use crate::zlib::{zlib_compress, zlib_deflate, zlib_inflate};
use crate::codec::{lemma_i32_le_bytes, spec_i32_from_le_bytes, spec_i32_to_le_bytes};
use vstd::bytes::{lemma_auto_spec_u64_to_from_le_bytes, spec_u64_from_le_bytes, spec_u64_to_le_bytes};
use vstd::prelude::*;
use vstd::slice::slice_subrange;

verus! {

/// Pair views of a payload list.
pub open spec fn file_models(fs: Seq<(Vec<u8>, Vec<u8>)>) -> Seq<(Seq<u8>, Seq<u8>)> {
    fs.map_values(|p: (Vec<u8>, Vec<u8>)| (p.0@, p.1@))
}

/// Views of a deletion list.
pub open spec fn del_models(ds: Seq<Vec<u8>>) -> Seq<Seq<u8>> {
    ds.map_values(|d: Vec<u8>| d@)
}

/// Total length of the first `j` payloads.
pub open spec fn payload_prefix(fs: Seq<(Seq<u8>, Seq<u8>)>, j: int) -> int
    decreases j,
{
    if j <= 0 {
        0
    } else {
        payload_prefix(fs, j - 1) + fs[j - 1].1.len()
    }
}

/// All payloads, one after another.
pub open spec fn payload_blob(fs: Seq<(Seq<u8>, Seq<u8>)>) -> Seq<u8>
    decreases fs.len(),
{
    if fs.len() == 0 {
        Seq::empty()
    } else {
        payload_blob(fs.drop_last()) + fs.last().1
    }
}

/// The table entry recorded for payload `j` appended to an image of length
/// `base`: stored whole (sizes all equal), regular-file flags, payload
/// offset relative to the end of the header.
pub open spec fn appended_entry(base: int, fs: Seq<(Seq<u8>, Seq<u8>)>, j: int) -> GrfEntryModel {
    GrfEntryModel {
        filename: spec_normalize(fs[j].0),
        compressed_size: fs[j].1.len() as i32,
        compressed_size_aligned: fs[j].1.len() as i32,
        real_size: fs[j].1.len() as i32,
        flags: 1u8,
        offset: (base + payload_prefix(fs, j) - 46) as i32,
    }
}

/// The table list after inserting the first `j` appended entries in order.
pub open spec fn insert_entries(
    es: Seq<GrfEntryModel>,
    base: int,
    fs: Seq<(Seq<u8>, Seq<u8>)>,
    j: int,
) -> Seq<GrfEntryModel>
    decreases j,
{
    if j <= 0 {
        es
    } else {
        spec_list_insert(insert_entries(es, base, fs, j - 1), appended_entry(base, fs, j - 1))
    }
}

/// The table list after removing the first `j` deletion keys in order.
pub open spec fn remove_keys(es: Seq<GrfEntryModel>, ds: Seq<Seq<u8>>, j: int) -> Seq<
    GrfEntryModel,
>
    decreases j,
{
    if j <= 0 {
        es
    } else {
        spec_list_remove(remove_keys(es, ds, j - 1), spec_lower(ds[j - 1]))
    }
}

/// The merged table list: all insertions, then all removals.
pub open spec fn merged_list(
    es: Seq<GrfEntryModel>,
    base: int,
    fs: Seq<(Seq<u8>, Seq<u8>)>,
    ds: Seq<Seq<u8>>,
) -> Seq<GrfEntryModel> {
    remove_keys(insert_entries(es, base, fs, fs.len() as int), ds, ds.len() as int)
}

/// The merged image: the header's bytes 30..46 patched to the new table
/// offset, seed 0 and raw count `n + 7`; the rest of the old image kept; the
/// payload blob appended; then the compressed table behind its two length
/// fields.
pub open spec fn spec_merge_bytes(f: Seq<u8>, blob: Seq<u8>, tb: Seq<u8>, n: int) -> Seq<u8> {
    f.subrange(0, 30) + spec_u64_to_le_bytes((f.len() + blob.len() - 46) as u64)
        + spec_i32_to_le_bytes(0) + spec_i32_to_le_bytes((n + 7) as i32) + f.subrange(
        46,
        f.len() as int,
    ) + blob + spec_i32_to_le_bytes(zlib_deflate(tb).len() as i32)
        + spec_i32_to_le_bytes(tb.len() as i32) + zlib_deflate(tb)
}

/// The header the merged image parses to.
pub open spec fn merged_header(h: GrfHeaderModel, base: int, blob_len: int, n: int) -> GrfHeaderModel {
    GrfHeaderModel {
        signature: h.signature,
        key: h.key,
        file_table_offset: (base + blob_len - 46) as u64,
        real_file_count: n as i32,
        version: 0x200,
    }
}

/// When a merge goes through: NUL-free normalized paths, payload offsets
/// within `i32`, and a count and table (plain and compressed) whose lengths
/// fit their `i32` fields.
pub open spec fn merge_fits(
    f: Seq<u8>,
    es: Seq<GrfEntryModel>,
    fs: Seq<(Seq<u8>, Seq<u8>)>,
    ds: Seq<Seq<u8>>,
) -> bool {
    let lst = merged_list(es, f.len() as int, fs, ds);
    let tb = table_bytes(lst);
    &&& forall|j: int| 0 <= j < fs.len() ==> !spec_normalize(#[trigger] fs[j].0).contains(0u8)
    &&& f.len() + payload_blob(fs).len() <= i32::MAX as int
    &&& lst.len() + 7 <= i32::MAX as int
    &&& tb.len() <= i32::MAX as int
    &&& zlib_deflate(tb).len() <= i32::MAX as int
}

/// A sufficient condition for a merge to go through that a caller can
/// establish without speaking of the compressed table: as `merge_fits`, but
/// bounding the plain table's length instead. The compressor's documented
/// expansion bound then keeps the compressed table within its `i32` field.
pub open spec fn merge_fits_plain(
    f: Seq<u8>,
    es: Seq<GrfEntryModel>,
    fs: Seq<(Seq<u8>, Seq<u8>)>,
    ds: Seq<Seq<u8>>,
) -> bool {
    let lst = merged_list(es, f.len() as int, fs, ds);
    &&& forall|j: int| 0 <= j < fs.len() ==> !spec_normalize(#[trigger] fs[j].0).contains(0u8)
    &&& f.len() + payload_blob(fs).len() <= i32::MAX as int
    &&& lst.len() + 7 <= i32::MAX as int
    &&& table_bytes(lst).len() <= 0x3000_0000
}

/// `payload_prefix` ignores entries at or after `j`.
proof fn lemma_prefix_drop_last(fs: Seq<(Seq<u8>, Seq<u8>)>, j: int)
    requires
        0 <= j < fs.len(),
    ensures
        payload_prefix(fs.drop_last(), j) == payload_prefix(fs, j),
    decreases j,
{
    if j > 0 {
        lemma_prefix_drop_last(fs, j - 1);
        assert(fs.drop_last()[j - 1] == fs[j - 1]);
    }
}

/// Prefix lengths are non-negative and non-decreasing.
pub proof fn lemma_prefix_mono(fs: Seq<(Seq<u8>, Seq<u8>)>, j: int)
    requires
        0 <= j <= fs.len(),
    ensures
        0 <= payload_prefix(fs, j),
        forall|i: int| 0 <= i <= j ==> #[trigger] payload_prefix(fs, i) <= payload_prefix(fs, j),
    decreases j,
{
    if j > 0 {
        lemma_prefix_mono(fs, j - 1);
    }
}

/// The blob's length is the total prefix, and payload `j` sits at its
/// prefix offset.
pub proof fn lemma_payload_blob(fs: Seq<(Seq<u8>, Seq<u8>)>)
    ensures
        payload_blob(fs).len() == payload_prefix(fs, fs.len() as int),
        forall|j: int|
            0 <= j < fs.len() ==> payload_blob(fs).subrange(
                #[trigger] payload_prefix(fs, j),
                payload_prefix(fs, j) + fs[j].1.len(),
            ) == fs[j].1,
    decreases fs.len(),
{
    if fs.len() == 0 {
    } else {
        let fsd = fs.drop_last();
        lemma_payload_blob(fsd);
        lemma_prefix_drop_last(fs, fs.len() - 1);
        assert(payload_prefix(fs, fs.len() as int) == payload_prefix(fs, fs.len() - 1)
            + fs[fs.len() - 1].1.len());
        assert forall|j: int|
            0 <= j < fs.len() implies payload_blob(fs).subrange(
            #[trigger] payload_prefix(fs, j),
            payload_prefix(fs, j) + fs[j].1.len(),
        ) == fs[j].1 by {
            lemma_prefix_mono(fs, j);
            if j < fs.len() - 1 {
                lemma_prefix_drop_last(fs, j);
                assert(fsd[j] == fs[j]);
                lemma_prefix_mono(fsd, fsd.len() as int);
                assert(payload_prefix(fsd, j) + fsd[j].1.len() <= payload_prefix(
                    fsd,
                    fsd.len() as int,
                )) by {
                    assert(payload_prefix(fsd, j + 1) == payload_prefix(fsd, j) + fsd[j].1.len());
                }
                assert(payload_blob(fs).subrange(
                    payload_prefix(fs, j),
                    payload_prefix(fs, j) + fs[j].1.len(),
                ) =~= payload_blob(fsd).subrange(
                    payload_prefix(fsd, j),
                    payload_prefix(fsd, j) + fsd[j].1.len(),
                ));
            } else {
                lemma_prefix_drop_last(fs, j);
                assert(payload_blob(fs).subrange(
                    payload_prefix(fs, j),
                    payload_prefix(fs, j) + fs[j].1.len(),
                ) =~= fs[j].1);
            }
        }
    }
}

/// A merged image parses back: the header carries the new table offset and
/// count `n`, and the table decompresses and parses to exactly the merged
/// list; bytes of the old image past the header, and the appended payloads,
/// are untouched.
pub proof fn lemma_merge_reads_back(
    f: Seq<u8>,
    h: GrfHeaderModel,
    lst: Seq<GrfEntryModel>,
    blob: Seq<u8>,
    g: Seq<u8>,
)
    requires
        spec_read_header(f) == Some(h),
        forall|i: int| 0 <= i < lst.len() ==> entry_wf(#[trigger] lst[i]),
        f.len() + blob.len() <= i32::MAX as int,
        lst.len() + 7 <= i32::MAX as int,
        table_bytes(lst).len() <= i32::MAX as int,
        zlib_deflate(table_bytes(lst)).len() <= i32::MAX as int,
        zlib_inflate(zlib_deflate(table_bytes(lst))) == Some(table_bytes(lst)),
        g == spec_merge_bytes(f, blob, table_bytes(lst), lst.len() as int),
    ensures
        spec_read_header(g) == Some(
            merged_header(h, f.len() as int, blob.len() as int, lst.len() as int),
        ),
        spec_read_table(
            g,
            merged_header(h, f.len() as int, blob.len() as int, lst.len() as int),
        ) == Some(lst),
        g.subrange(f.len() as int, f.len() + blob.len() as int) == blob,
        forall|a: int| 46 <= a < f.len() ==> g[a] == f[a],
        g.len() == f.len() + blob.len() + 8 + zlib_deflate(table_bytes(lst)).len(),
{
    lemma_i32_le_bytes();
    lemma_auto_spec_u64_to_from_le_bytes();
    let tb = table_bytes(lst);
    let ct = zlib_deflate(tb);
    let n = lst.len() as int;
    let toff = (f.len() + blob.len() - 46) as u64;
    assert(spec_u64_to_le_bytes(toff).len() == 8);
    assert(spec_i32_to_le_bytes(0).len() == 4);
    assert(spec_i32_to_le_bytes((n + 7) as i32).len() == 4);
    assert(spec_i32_to_le_bytes(ct.len() as i32).len() == 4);
    assert(spec_i32_to_le_bytes(tb.len() as i32).len() == 4);
    assert(f.len() >= 46);
    assert(g.len() == f.len() + blob.len() + 8 + ct.len());
    // the patched header
    assert(g.subrange(0, 15) =~= f.subrange(0, 15));
    assert(g.subrange(15, 29) =~= f.subrange(15, 29));
    assert(g.subrange(0, 15) == spec_signature()) by {
        assert(f.subrange(0, 15) == spec_signature());
    }
    assert(g.subrange(30, 38) =~= spec_u64_to_le_bytes(toff));
    assert(g.subrange(38, 42) =~= spec_i32_to_le_bytes(0));
    assert(g.subrange(42, 46) =~= spec_i32_to_le_bytes((n + 7) as i32));
    assert(spec_u64_from_le_bytes(g.subrange(30, 38)) == toff);
    assert(spec_i32_from_le_bytes(g.subrange(38, 42)) == 0);
    assert(spec_i32_from_le_bytes(g.subrange(42, 46)) == (n + 7) as i32);
    assert((n + 7) as i32 == n + 7);
    let hm = merged_header(h, f.len() as int, blob.len() as int, n);
    assert(spec_read_header(g) == Some(hm)) by {
        let got = spec_read_header(g).unwrap();
        assert(got.key =~= hm.key) by {
            assert(h.key == f.subrange(15, 29));
        }
        assert(got.signature =~= hm.signature) by {
            assert(h.signature == GRF_SIGNATURE@);
        }
    }
    // the relocated table
    let t = toff as int + 46;
    assert(t == f.len() + blob.len());
    assert(g.subrange(t, t + 4) =~= spec_i32_to_le_bytes(ct.len() as i32));
    assert(spec_i32_from_le_bytes(g.subrange(t, t + 4)) == ct.len() as i32);
    assert(ct.len() as i32 == ct.len());
    assert(g.subrange(t + 8, t + 8 + ct.len()) =~= ct);
    assert(spec_table_slice(g, hm) == Some(ct));
    assert(zlib_inflate(ct) == Some(tb));
    lemma_parse_table_bytes(lst);
    assert(hm.real_file_count as int == n);
    assert(spec_read_table(g, hm) == Some(lst));
    // untouched regions
    assert(g.subrange(f.len() as int, f.len() + blob.len() as int) =~= blob);
    assert forall|a: int| 46 <= a < f.len() implies g[a] == f[a] by {
        assert(g.subrange(46, f.len() as int) =~= f.subrange(46, f.len() as int));
        assert(g[a] == g.subrange(46, f.len() as int)[a - 46]);
    }
}

/// Writes merges into a container image.
pub struct GrfWriter;

impl GrfWriter {
    /// A writer.
    pub fn new() -> (r: GrfWriter) {
        GrfWriter
    }

    /// Quick-merge: append each payload of `new_files` at the end of the
    /// image, record it in `table` under its normalized path (a later
    /// occurrence of a key wins), drop the `deletions` keys, then write the
    /// compressed table behind the payloads and patch the header in place.
    ///
    /// Succeeds exactly when every normalized path is NUL-free and the new
    /// offsets, count and table lengths fit their `i32` fields; on failure
    /// the image is untouched. On success the image parses back to the
    /// merged table, with each payload readable at its recorded offset.
    #[verifier::loop_isolation(false)]
    pub fn quick_merge(
        &self,
        container: &mut Vec<u8>,
        header: &GrfHeader,
        table: &mut EntryTable,
        new_files: &Vec<(Vec<u8>, Vec<u8>)>,
        deletions: &Vec<Vec<u8>>,
    ) -> (r: Result<(), GrfError>)
        requires
            spec_read_header(old(container)@) == Some(header@),
            old(table).wf(),
        ensures
            final(table).wf(),
            r is Ok <==> merge_fits(
                old(container)@,
                models(old(table).entries@),
                file_models(new_files@),
                del_models(deletions@),
            ),
            merge_fits_plain(
                old(container)@,
                models(old(table).entries@),
                file_models(new_files@),
                del_models(deletions@),
            ) ==> r is Ok,
            r is Err ==> final(container)@ == old(container)@,
            r is Ok ==> {
                let base = old(container)@.len() as int;
                let fs = file_models(new_files@);
                let ds = del_models(deletions@);
                let lst = models(final(table).entries@);
                let blob = payload_blob(fs);
                &&& lst == merged_list(models(old(table).entries@), base, fs, ds)
                &&& final(container)@ == spec_merge_bytes(
                    old(container)@,
                    blob,
                    table_bytes(lst),
                    lst.len() as int,
                )
                &&& spec_read_header(final(container)@) == Some(
                    merged_header(header@, base, blob.len() as int, lst.len() as int),
                )
                &&& spec_read_table(
                    final(container)@,
                    merged_header(header@, base, blob.len() as int, lst.len() as int),
                ) == Some(lst)
                &&& forall|j: int|
                    0 <= j < fs.len() ==> final(container)@.subrange(
                        base + #[trigger] payload_prefix(fs, j),
                        base + payload_prefix(fs, j) + fs[j].1.len(),
                    ) == fs[j].1
            },
    {
        let ghost f = container@;
        let ghost es0 = models(table.entries@);
        let ghost fs = file_models(new_files@);
        let ghost ds = del_models(deletions@);
        let base = container.len();
        proof {
            lemma_payload_blob(fs);
        }
        if base > (i32::MAX as usize) {
            proof {
                lemma_prefix_mono(fs, fs.len() as int);
                assert(!merge_fits(f, es0, fs, ds));
                assert(!merge_fits_plain(f, es0, fs, ds));
            }
            return Err(GrfError::ArchiveWrite(String::from_str("merged image too large")));
        }
        // validate the paths and the total appended size
        let mut norms: Vec<Vec<u8>> = Vec::new();
        let mut acc: u64 = base as u64;
        let mut j: usize = 0;
        while j < new_files.len()
            invariant
                j <= new_files@.len(),
                fs == file_models(new_files@),
                base == f.len(),
                base <= acc <= i32::MAX,
                acc == base + payload_prefix(fs, j as int),
                norms@.len() == j,
                forall|i: int| 0 <= i < j ==> #[trigger] norms@[i]@ == spec_normalize(fs[i].0),
                forall|i: int| 0 <= i < j ==> !spec_normalize(#[trigger] fs[i].0).contains(0u8),
            decreases new_files@.len() - j,
        {
            let norm = normalize_path(new_files[j].0.as_slice());
            if contains_nul(&norm) {
                proof {
                    assert(fs[j as int].0 == new_files@[j as int].0@);
                    assert(spec_normalize(fs[j as int].0).contains(0u8));
                    assert(!merge_fits(f, es0, fs, ds));
                    assert(!merge_fits_plain(f, es0, fs, ds));
                }
                return Err(GrfError::ArchiveWrite(String::from_str("path holds a NUL byte")));
            }
            let l = new_files[j].1.len();
            if (l as u64) > (i32::MAX as u64) - acc {
                proof {
                    assert(payload_prefix(fs, j + 1 as int) == payload_prefix(fs, j as int)
                        + fs[j as int].1.len());
                    lemma_prefix_mono(fs, fs.len() as int);
                    assert(payload_prefix(fs, j + 1 as int) <= payload_prefix(fs, fs.len() as int));
                    assert(f.len() + payload_blob(fs).len() > i32::MAX as int);
                    assert(!merge_fits(f, es0, fs, ds));
                    assert(!merge_fits_plain(f, es0, fs, ds));
                }
                return Err(GrfError::ArchiveWrite(String::from_str("merged image too large")));
            }
            norms.push(norm);
            acc = acc + (l as u64);
            proof {
                assert(acc == base + payload_prefix(fs, j + 1 as int));
            }
            j = j + 1;
        }
        let ghost blob = payload_blob(fs);
        proof {
            assert(payload_prefix(fs, fs.len() as int) == blob.len());
            assert(f.len() + blob.len() <= i32::MAX as int);
        }
        // record the new entries; offsets relative to the end of the header
        let mut off: u64 = base as u64;
        let mut j2: usize = 0;
        while j2 < new_files.len()
            invariant
                j2 <= new_files@.len(),
                fs == file_models(new_files@),
                base == f.len(),
                f.len() >= 46,
                f.len() + payload_blob(fs).len() <= i32::MAX as int,
                norms@.len() == new_files@.len(),
                forall|i: int| 0 <= i < fs.len() ==> #[trigger] norms@[i]@ == spec_normalize(fs[i].0),
                forall|i: int| 0 <= i < fs.len() ==> !spec_normalize(#[trigger] fs[i].0).contains(0u8),
                off == base + payload_prefix(fs, j2 as int),
                base <= off <= i32::MAX,
                table.wf(),
                models(table.entries@) == insert_entries(es0, base as int, fs, j2 as int),
            decreases new_files@.len() - j2,
        {
            proof {
                lemma_prefix_mono(fs, fs.len() as int);
                assert(payload_prefix(fs, j2 + 1 as int) == payload_prefix(fs, j2 as int)
                    + fs[j2 as int].1.len());
                assert(payload_prefix(fs, j2 + 1 as int) <= payload_prefix(fs, fs.len() as int));
            }
            let l = new_files[j2].1.len();
            let name = slice_to_vec_u8(norms[j2].as_slice());
            let e = GrfEntry {
                filename: name,
                compressed_size: l as i32,
                compressed_size_aligned: l as i32,
                real_size: l as i32,
                flags: 1,
                offset: (off - 46) as i32,
            };
            proof {
                assert(e@ == appended_entry(base as int, fs, j2 as int));
            }
            table.insert(e);
            off = off + (l as u64);
            j2 = j2 + 1;
        }
        // apply the deletions
        let mut j3: usize = 0;
        while j3 < deletions.len()
            invariant
                j3 <= deletions@.len(),
                fs == file_models(new_files@),
                ds == del_models(deletions@),
                base == f.len(),
                f.len() >= 46,
                f.len() + payload_blob(fs).len() <= i32::MAX as int,
                table.wf(),
                models(table.entries@) == remove_keys(
                    insert_entries(es0, base as int, fs, fs.len() as int),
                    ds,
                    j3 as int,
                ),
            decreases deletions@.len() - j3,
        {
            table.remove(&deletions[j3]);
            j3 = j3 + 1;
        }
        let ghost lst = models(table.entries@);
        proof {
            assert(lst == merged_list(es0, base as int, fs, ds));
        }
        // lay the table out and bound its lengths
        if table.len() > ((i32::MAX - 7) as usize) {
            proof {
                assert(!merge_fits_plain(f, es0, fs, ds));
            }
            return Err(GrfError::ArchiveWrite(String::from_str("too many entries")));
        }
        let tb = table.serialize();
        if tb.len() > (i32::MAX as usize) {
            proof {
                assert(!merge_fits_plain(f, es0, fs, ds));
            }
            return Err(GrfError::ArchiveWrite(String::from_str("table too large")));
        }
        let ct = zlib_compress(tb.as_slice());
        if ct.len() > (i32::MAX as usize) {
            proof {
                // within the plain bound the compressor's expansion bound
                // keeps the compressed table inside its field
                assert(tb@.len() > 0x3000_0000) by {
                    assert(ct@.len() <= 2 * tb@.len() + tb@.len() / 32 + 1024);
                }
                assert(!merge_fits_plain(f, es0, fs, ds));
            }
            return Err(GrfError::ArchiveWrite(String::from_str("compressed table too large")));
        }
        proof {
            assert(merge_fits(f, es0, fs, ds));
        }
        // build the merged image
        let n = container.len();
        let toff: u64 = acc - 46;
        let mut out: Vec<u8> = Vec::new();
        push_bytes(&mut out, slice_subrange(container.as_slice(), 0, 30));
        push_u64_le(&mut out, toff);
        push_i32_le(&mut out, 0);
        push_i32_le(&mut out, (table.len() + 7) as i32);
        push_bytes(&mut out, slice_subrange(container.as_slice(), 46, n));
        let ghost pre_payload = out@;
        let mut j4: usize = 0;
        while j4 < new_files.len()
            invariant
                j4 <= new_files@.len(),
                fs == file_models(new_files@),
                out@ == pre_payload + payload_blob(fs.take(j4 as int)),
            decreases new_files@.len() - j4,
        {
            push_bytes(&mut out, new_files[j4].1.as_slice());
            proof {
                assert(fs.take(j4 + 1 as int).drop_last() =~= fs.take(j4 as int));
                assert(fs.take(j4 + 1 as int).last() == fs[j4 as int]);
                assert(pre_payload + payload_blob(fs.take(j4 as int)) + fs[j4 as int].1
                    =~= pre_payload + (payload_blob(fs.take(j4 as int)) + fs[j4 as int].1));
            }
            j4 = j4 + 1;
        }
        proof {
            assert(fs.take(fs.len() as int) =~= fs);
        }
        push_i32_le(&mut out, ct.len() as i32);
        push_i32_le(&mut out, tb.len() as i32);
        push_bytes(&mut out, ct.as_slice());
        proof {
            lemma_i32_le_bytes();
            lemma_auto_spec_u64_to_from_le_bytes();
            assert(out@ =~= spec_merge_bytes(f, blob, table_bytes(lst), lst.len() as int));
        }
        let mut swapped = out;
        core::mem::swap(container, &mut swapped);
        proof {
            lemma_merge_reads_back(f, header@, lst, blob, container@);
            assert forall|j: int| 0 <= j < fs.len() implies container@.subrange(
                f.len() + #[trigger] payload_prefix(fs, j),
                f.len() + payload_prefix(fs, j) + fs[j].1.len(),
            ) == fs[j].1 by {
                lemma_prefix_mono(fs, fs.len() as int);
                lemma_prefix_mono(fs, j);
                assert(payload_prefix(fs, j) + fs[j].1.len() == payload_prefix(fs, j + 1));
                assert(payload_prefix(fs, j + 1) <= payload_prefix(fs, fs.len() as int));
                assert(container@.subrange(f.len() as int, f.len() + blob.len() as int) == blob);
                assert(container@.subrange(
                    f.len() + payload_prefix(fs, j),
                    f.len() + payload_prefix(fs, j) + fs[j].1.len(),
                ) =~= container@.subrange(f.len() as int, f.len() + blob.len() as int).subrange(
                    payload_prefix(fs, j),
                    payload_prefix(fs, j) + fs[j].1.len(),
                ));
            }
        }
        Ok(())
    }
}

impl GrfWriter {
    /// A minimal valid container image: a header with zero entries and an
    /// empty compressed table right behind it.
    ///
    /// Fails only if the compressed empty table cannot fit its length field.
    pub fn create_container(&self) -> (r: Result<Vec<u8>, GrfError>)
        ensures
            match r {
                Ok(v) => {
                    &&& spec_read_header(v@) is Some
                    &&& spec_read_header(v@).unwrap().real_file_count == 0
                    &&& spec_read_table(v@, spec_read_header(v@).unwrap()) == Some(
                        Seq::<GrfEntryModel>::empty(),
                    )
                },
                Err(_) => zlib_deflate(Seq::<u8>::empty()).len() > i32::MAX as int,
            },
    {
        let head: Vec<u8> = vec![
            77, 97, 115, 116, 101, 114, 32, 111, 102, 32, 77, 97, 103, 105, 99, 0, 0, 0, 0, 0, 0,
            0, 0, 0, 0, 0, 0, 0, 0, 0,
        ];
        let tb: Vec<u8> = Vec::new();
        let ct = zlib_compress(tb.as_slice());
        if ct.len() > (i32::MAX as usize) {
            return Err(GrfError::ArchiveWrite(String::from_str("compressed table too large")));
        }
        let mut out: Vec<u8> = Vec::new();
        push_bytes(&mut out, head.as_slice());
        push_u64_le(&mut out, 0);
        push_i32_le(&mut out, 0);
        push_i32_le(&mut out, 7);
        push_i32_le(&mut out, ct.len() as i32);
        push_i32_le(&mut out, 0);
        push_bytes(&mut out, ct.as_slice());
        proof {
            lemma_i32_le_bytes();
            lemma_auto_spec_u64_to_from_le_bytes();
            let g = out@;
            assert(g.len() == 54 + ct@.len());
            assert(g.subrange(0, 15) =~= spec_signature());
            assert(g.subrange(30, 38) =~= spec_u64_to_le_bytes(0));
            assert(g.subrange(38, 42) =~= spec_i32_to_le_bytes(0));
            assert(g.subrange(42, 46) =~= spec_i32_to_le_bytes(7));
            assert(spec_u64_from_le_bytes(g.subrange(30, 38)) == 0);
            assert(spec_i32_from_le_bytes(g.subrange(38, 42)) == 0);
            assert(spec_i32_from_le_bytes(g.subrange(42, 46)) == 7);
            assert(spec_read_header(g) is Some);
            let hm = spec_read_header(g).unwrap();
            assert(hm.real_file_count == 0);
            assert(hm.file_table_offset == 0);
            assert(g.subrange(46, 50) =~= spec_i32_to_le_bytes(ct@.len() as i32));
            assert(spec_i32_from_le_bytes(g.subrange(46, 50)) == ct@.len() as i32);
            assert(ct@.len() as i32 == ct@.len());
            assert(g.subrange(54, 54 + ct@.len() as int) =~= ct@);
            assert(spec_table_slice(g, hm) == Some(ct@));
            assert(zlib_inflate(ct@) == Some(tb@));
            assert(tb@ =~= Seq::<u8>::empty());
            assert(parse_entries(tb@, 0) =~= Seq::<GrfEntryModel>::empty());
        }
        Ok(out)
    }
}

/// Copies a byte slice into a fresh vector.
fn slice_to_vec_u8(s: &[u8]) -> (r: Vec<u8>)
    ensures
        r@ == s@,
{
    vstd::slice::slice_to_vec(s)
}

} // verus!
