//! The library's laws: round trips of the entry table and of a merged
//! container, and idempotence of re-applying a merge. Each law is stated over
//! the spec functions that the reading and writing contracts use.

use crate::codec::spec_lower;
use crate::grf::format::{lemma_parse_table_bytes, parse_entries, table_bytes};
use crate::grf::table::{
    key_index, keys_unique, lemma_key_index, lemma_table_map_contains, lemma_table_map_index,
    lemma_table_map_remove, lemma_table_map_update, spec_list_insert, spec_list_remove, table_map,
};
use crate::grf::types::{entry_key, entry_wf, GrfEntryModel};
use crate::codec::spec_normalize;
use crate::grf::format::lemma_entry_bytes_len;
use crate::grf::writer::{
    appended_entry, insert_entries, lemma_payload_blob, lemma_prefix_mono, merge_fits,
    merged_list, payload_blob, payload_prefix, remove_keys, spec_merge_bytes,
};
use crate::thor::{spec_container_files, spec_deletions, ApplyOpModel, Disposition};
use vstd::bytes::{lemma_auto_spec_u64_to_from_le_bytes, spec_u64_to_le_bytes};
use crate::codec::lemma_i32_le_bytes;
use crate::zlib::{zlib_deflate, zlib_inflate};
use vstd::prelude::*;

verus! {

/// Law (round trip of the table): serializing a table with pairwise distinct
/// keys and NUL-free paths, compressing it, decompressing it and re-parsing
/// with the table's length yields the table back, entry for entry — so also
/// as a map. The premise on `zlib_inflate` is what the compressor's contract
/// guarantees of its own output.
pub proof fn lemma_table_round_trip(es: Seq<GrfEntryModel>)
    requires
        forall|i: int| 0 <= i < es.len() ==> entry_wf(#[trigger] es[i]),
        zlib_inflate(zlib_deflate(table_bytes(es))) == Some(table_bytes(es)),
    ensures
        parse_entries(
            zlib_inflate(zlib_deflate(table_bytes(es))).unwrap(),
            es.len() as int,
        ) == es,
        table_map(
            parse_entries(zlib_inflate(zlib_deflate(table_bytes(es))).unwrap(), es.len() as int),
        ) == table_map(es),
{
    lemma_parse_table_bytes(es);
}

/// Inserting into a list with pairwise distinct keys updates its folded map
/// at the entry's key.
pub proof fn lemma_list_insert_map(es: Seq<GrfEntryModel>, e: GrfEntryModel)
    requires
        keys_unique(es),
    ensures
        keys_unique(spec_list_insert(es, e)),
        table_map(spec_list_insert(es, e)) == table_map(es).insert(entry_key(e), e),
    decreases es.len(),
{
    let k = entry_key(e);
    lemma_key_index(es, k);
    let i = key_index(es, k);
    if i >= 0 {
        lemma_table_map_update(es, i, e);
    } else {
        assert(spec_list_insert(es, e) == es.push(e));
        assert(es.push(e).drop_last() =~= es);
        assert(es.push(e).last() == e);
        assert forall|a: int, b: int| 0 <= a < b < es.push(e).len() implies entry_key(
            #[trigger] es.push(e)[a],
        ) != entry_key(#[trigger] es.push(e)[b]) by {
            if b == es.len() {
                assert(es.push(e)[a] == es[a]);
            }
        }
    }
}

/// Removing a key from a list with pairwise distinct keys removes it from
/// the folded map.
pub proof fn lemma_list_remove_map(es: Seq<GrfEntryModel>, k: Seq<u8>)
    requires
        keys_unique(es),
    ensures
        keys_unique(spec_list_remove(es, k)),
        table_map(spec_list_remove(es, k)) == table_map(es).remove(k),
{
    lemma_key_index(es, k);
    let i = key_index(es, k);
    if i >= 0 {
        lemma_table_map_remove(es, i);
    } else {
        lemma_table_map_contains(es, k);
        assert(!table_map(es).contains_key(k));
        assert(table_map(es).remove(k) =~= table_map(es));
    }
}

/// The key of the entry appended for payload `j`.
pub open spec fn new_key(fs: Seq<(Seq<u8>, Seq<u8>)>, base: int, j: int) -> Seq<u8> {
    entry_key(appended_entry(base, fs, j))
}

/// After the insertion fold, the map holds a key iff the old table held it
/// or some payload carries it; a key no payload carries keeps its old entry.
pub proof fn lemma_insert_entries_map(
    es: Seq<GrfEntryModel>,
    base: int,
    fs: Seq<(Seq<u8>, Seq<u8>)>,
    j: int,
    k: Seq<u8>,
)
    requires
        keys_unique(es),
        0 <= j <= fs.len(),
    ensures
        keys_unique(insert_entries(es, base, fs, j)),
        table_map(insert_entries(es, base, fs, j)).contains_key(k) <==> (table_map(
            es,
        ).contains_key(k) || exists|i: int| 0 <= i < j && new_key(fs, base, i) == k),
        (forall|i: int| 0 <= i < j ==> new_key(fs, base, i) != k) ==> (table_map(
            insert_entries(es, base, fs, j),
        ).contains_key(k) ==> table_map(insert_entries(es, base, fs, j))[k] == table_map(es)[k]),
    decreases j,
{
    if j == 0 {
        lemma_table_map_contains(es, k);
        lemma_table_map_contains(insert_entries(es, base, fs, 0), k);
    } else {
        lemma_insert_entries_map(es, base, fs, j - 1, k);
        let prev = insert_entries(es, base, fs, j - 1);
        let e = appended_entry(base, fs, j - 1);
        lemma_list_insert_map(prev, e);
        assert(insert_entries(es, base, fs, j) == spec_list_insert(prev, e));
        if entry_key(e) == k {
            assert(new_key(fs, base, j - 1) == k);
        } else {
            assert(table_map(insert_entries(es, base, fs, j)).contains_key(k) <==> table_map(
                prev,
            ).contains_key(k));
            assert forall|i: int| 0 <= i < j && new_key(fs, base, i) == k implies 0 <= i < j - 1 by {
                if i == j - 1 {
                    assert(new_key(fs, base, j - 1) == entry_key(e));
                }
            }
        }
    }
}

/// After the removal fold, the map holds a key iff it held it before and no
/// deletion names it; a kept key keeps its entry.
pub proof fn lemma_remove_keys_map(
    es: Seq<GrfEntryModel>,
    ds: Seq<Seq<u8>>,
    j: int,
    k: Seq<u8>,
)
    requires
        keys_unique(es),
        0 <= j <= ds.len(),
    ensures
        keys_unique(remove_keys(es, ds, j)),
        table_map(remove_keys(es, ds, j)).contains_key(k) <==> (table_map(es).contains_key(k)
            && forall|i: int| 0 <= i < j ==> spec_lower(#[trigger] ds[i]) != k),
        table_map(remove_keys(es, ds, j)).contains_key(k) ==> table_map(remove_keys(es, ds, j))[k]
            == table_map(es)[k],
    decreases j,
{
    if j == 0 {
    } else {
        lemma_remove_keys_map(es, ds, j - 1, k);
        let prev = remove_keys(es, ds, j - 1);
        lemma_list_remove_map(prev, spec_lower(ds[j - 1]));
        assert(remove_keys(es, ds, j) == spec_list_remove(prev, spec_lower(ds[j - 1])));
    }
}

/// Law (round trip of a merged container, the map): the merged table holds a
/// key iff the old table held it or a new payload carries it, and no
/// deletion names it; a key untouched by both keeps its old entry. Together
/// with the writer's contract — the merged image parses back to exactly the
/// merged table — this is the container round trip.
pub proof fn lemma_merged_map(
    es: Seq<GrfEntryModel>,
    base: int,
    fs: Seq<(Seq<u8>, Seq<u8>)>,
    ds: Seq<Seq<u8>>,
    k: Seq<u8>,
)
    requires
        keys_unique(es),
    ensures
        keys_unique(merged_list(es, base, fs, ds)),
        table_map(merged_list(es, base, fs, ds)).contains_key(k) <==> ((table_map(
            es,
        ).contains_key(k) || exists|i: int| 0 <= i < fs.len() && new_key(fs, base, i) == k)
            && forall|i: int| 0 <= i < ds.len() ==> spec_lower(#[trigger] ds[i]) != k),
        ((forall|i: int| 0 <= i < fs.len() ==> new_key(fs, base, i) != k) && table_map(
            merged_list(es, base, fs, ds),
        ).contains_key(k)) ==> table_map(merged_list(es, base, fs, ds))[k] == table_map(es)[k],
{
    lemma_insert_entries_map(es, base, fs, fs.len() as int, k);
    lemma_remove_keys_map(insert_entries(es, base, fs, fs.len() as int), ds, ds.len() as int, k);
}


/// The case-insensitive key payload `j` is stored under; it does not depend
/// on where the payload lands.
pub open spec fn payload_key(fs: Seq<(Seq<u8>, Seq<u8>)>, j: int) -> Seq<u8> {
    spec_lower(spec_normalize(fs[j].0))
}

/// The last payload before `j` stored under key `k`, or `-1`.
pub open spec fn last_payload(fs: Seq<(Seq<u8>, Seq<u8>)>, k: Seq<u8>, j: int) -> int
    decreases j,
{
    if j <= 0 {
        -1
    } else if payload_key(fs, j - 1) == k {
        j - 1
    } else {
        last_payload(fs, k, j - 1)
    }
}

/// After the insertion fold, a key some payload carries maps to the entry of
/// the last payload that carries it.
pub proof fn lemma_insert_entries_value(
    es: Seq<GrfEntryModel>,
    base: int,
    fs: Seq<(Seq<u8>, Seq<u8>)>,
    j: int,
    k: Seq<u8>,
)
    requires
        keys_unique(es),
        0 <= j <= fs.len(),
        last_payload(fs, k, j) >= 0,
    ensures
        table_map(insert_entries(es, base, fs, j)).contains_key(k),
        table_map(insert_entries(es, base, fs, j))[k] == appended_entry(
            base,
            fs,
            last_payload(fs, k, j),
        ),
    decreases j,
{
    let prev = insert_entries(es, base, fs, j - 1);
    let e = appended_entry(base, fs, j - 1);
    lemma_insert_entries_map(es, base, fs, j - 1, k);
    lemma_list_insert_map(prev, e);
    if payload_key(fs, j - 1) == k {
        assert(entry_key(e) == k);
    } else {
        assert(entry_key(e) != k);
        lemma_insert_entries_value(es, base, fs, j - 1, k);
    }
}

/// The bytes a merged image holds at a table entry's recorded range.
pub open spec fn content_at(file: Seq<u8>, e: GrfEntryModel) -> Seq<u8> {
    file.subrange(e.offset + 46, e.offset + 46 + e.compressed_size_aligned)
}

/// A merge leaves every byte of the old image past the header in place and
/// appends the payload blob right behind it.
pub proof fn lemma_merge_bytes_preserves(f: Seq<u8>, blob: Seq<u8>, tb: Seq<u8>, n: int)
    requires
        f.len() >= 46,
    ensures
        spec_merge_bytes(f, blob, tb, n).len() == f.len() + blob.len() + 8 + zlib_deflate(
            tb,
        ).len(),
        spec_merge_bytes(f, blob, tb, n).subrange(f.len() as int, f.len() + blob.len() as int)
            == blob,
        forall|a: int| 46 <= a < f.len() ==> #[trigger] spec_merge_bytes(f, blob, tb, n)[a] == f[a],
{
    lemma_i32_le_bytes();
    lemma_auto_spec_u64_to_from_le_bytes();
    let g = spec_merge_bytes(f, blob, tb, n);
    assert(spec_u64_to_le_bytes((f.len() + blob.len() - 46) as u64).len() == 8) by {
        lemma_auto_spec_u64_to_from_le_bytes();
    }
    assert(g.len() == f.len() + blob.len() + 8 + zlib_deflate(tb).len());
    assert(g.subrange(f.len() as int, f.len() + blob.len() as int) =~= blob);
    assert forall|a: int| 46 <= a < f.len() implies #[trigger] g[a] == f[a] by {
        assert(g.subrange(46, f.len() as int) =~= f.subrange(46, f.len() as int));
        assert(g[a] == g.subrange(46, f.len() as int)[a - 46]);
    }
}

/// The image and table of one quick-merge, from the old image and table.
pub open spec fn merge_once(
    f: Seq<u8>,
    l: Seq<GrfEntryModel>,
    fs: Seq<(Seq<u8>, Seq<u8>)>,
    ds: Seq<Seq<u8>>,
) -> (Seq<u8>, Seq<GrfEntryModel>) {
    let l1 = merged_list(l, f.len() as int, fs, ds);
    (spec_merge_bytes(f, payload_blob(fs), table_bytes(l1), l1.len() as int), l1)
}

/// The entry appended for payload `j` records bytes that read back as the
/// payload, wherever the merge placed them.
proof fn lemma_appended_content(
    f: Seq<u8>,
    l: Seq<GrfEntryModel>,
    fs: Seq<(Seq<u8>, Seq<u8>)>,
    ds: Seq<Seq<u8>>,
    j: int,
)
    requires
        f.len() >= 46,
        f.len() + payload_blob(fs).len() <= i32::MAX as int,
        0 <= j < fs.len(),
    ensures
        content_at(merge_once(f, l, fs, ds).0, appended_entry(f.len() as int, fs, j)) == fs[j].1,
{
    let base = f.len() as int;
    let blob = payload_blob(fs);
    let l1 = merged_list(l, base, fs, ds);
    let g = merge_once(f, l, fs, ds).0;
    lemma_payload_blob(fs);
    lemma_prefix_mono(fs, fs.len() as int);
    lemma_prefix_mono(fs, j);
    lemma_merge_bytes_preserves(f, blob, table_bytes(l1), l1.len() as int);
    let e = appended_entry(base, fs, j);
    assert(payload_prefix(fs, j) + fs[j].1.len() == payload_prefix(fs, j + 1));
    assert(payload_prefix(fs, j + 1) <= blob.len());
    assert(e.offset == base + payload_prefix(fs, j) - 46);
    assert(e.compressed_size_aligned == fs[j].1.len());
    assert(content_at(g, e) =~= g.subrange(base, base + blob.len() as int).subrange(
        payload_prefix(fs, j),
        payload_prefix(fs, j) + fs[j].1.len(),
    ));
    assert(g.subrange(base, base + blob.len() as int) == blob);
}

/// Law (idempotence): merging the same payloads and deletions into the
/// once-merged image again yields a table with exactly the same keys, whose
/// entry under every key names the same file and whose recorded bytes are
/// the same — the repetition only moves payloads and leaks the bytes in
/// between.
pub proof fn lemma_merge_idempotent(
    f0: Seq<u8>,
    l0: Seq<GrfEntryModel>,
    fs: Seq<(Seq<u8>, Seq<u8>)>,
    ds: Seq<Seq<u8>>,
    k: Seq<u8>,
)
    requires
        f0.len() >= 46,
        keys_unique(l0),
        forall|i: int|
            0 <= i < l0.len() ==> {
                let e = #[trigger] l0[i];
                0 <= e.offset && 0 <= e.compressed_size_aligned && e.offset + 46
                    + e.compressed_size_aligned <= f0.len()
            },
        merge_fits(f0, l0, fs, ds),
        merge_fits(merge_once(f0, l0, fs, ds).0, merge_once(f0, l0, fs, ds).1, fs, ds),
    ensures
        ({
            let (f1, l1) = merge_once(f0, l0, fs, ds);
            let (f2, l2) = merge_once(f1, l1, fs, ds);
            &&& (table_map(l2).contains_key(k) <==> table_map(l1).contains_key(k))
            &&& (table_map(l2).contains_key(k) ==> table_map(l2)[k].filename == table_map(
                l1,
            )[k].filename && content_at(f2, table_map(l2)[k]) == content_at(f1, table_map(l1)[k]))
        }),
{
    let base0 = f0.len() as int;
    let blob = payload_blob(fs);
    let l1 = merged_list(l0, base0, fs, ds);
    let f1 = merge_once(f0, l0, fs, ds).0;
    let base1 = f1.len() as int;
    let l2 = merged_list(l1, base1, fs, ds);
    let f2 = merge_once(f1, l1, fs, ds).0;
    lemma_payload_blob(fs);
    lemma_prefix_mono(fs, fs.len() as int);
    lemma_merged_map(l0, base0, fs, ds, k);
    lemma_merged_map(l1, base1, fs, ds, k);
    lemma_merge_bytes_preserves(f0, blob, table_bytes(l1), l1.len() as int);
    lemma_merge_bytes_preserves(f1, blob, table_bytes(l2), l2.len() as int);
    assert forall|i: int| 0 <= i < fs.len() implies #[trigger] new_key(fs, base0, i)
        == payload_key(fs, i) by {}
    assert forall|i: int| 0 <= i < fs.len() implies #[trigger] new_key(fs, base1, i)
        == payload_key(fs, i) by {}
    if table_map(l2).contains_key(k) {
        let deleted = exists|i: int| 0 <= i < ds.len() && spec_lower(#[trigger] ds[i]) == k;
        assert(!deleted);
        if exists|i: int| 0 <= i < fs.len() && payload_key(fs, i) == k {
            // the key comes from a payload: both merges record the last
            // payload that carries it
            let w = choose|i: int| 0 <= i < fs.len() && payload_key(fs, i) == k;
            lemma_last_payload_found(fs, k, fs.len() as int, w);
            let j = last_payload(fs, k, fs.len() as int);
            lemma_insert_entries_map(l0, base0, fs, fs.len() as int, k);
            lemma_insert_entries_map(l1, base1, fs, fs.len() as int, k);
            lemma_insert_entries_value(l0, base0, fs, fs.len() as int, k);
            lemma_insert_entries_value(l1, base1, fs, fs.len() as int, k);
            lemma_remove_keys_map(
                insert_entries(l0, base0, fs, fs.len() as int),
                ds,
                ds.len() as int,
                k,
            );
            lemma_remove_keys_map(
                insert_entries(l1, base1, fs, fs.len() as int),
                ds,
                ds.len() as int,
                k,
            );
            assert(table_map(l1)[k] == appended_entry(base0, fs, j));
            assert(table_map(l2)[k] == appended_entry(base1, fs, j));
            lemma_appended_content(f0, l0, fs, ds, j);
            lemma_appended_content(f1, l1, fs, ds, j);
        } else {
            // the key is untouched: the second merge keeps the first's entry,
            // whose recorded range the appended bytes do not move
            assert forall|i: int| 0 <= i < fs.len() implies #[trigger] new_key(fs, base1, i)
                != k by {
                assert(payload_key(fs, i) != k);
            }
            assert forall|i: int| 0 <= i < fs.len() implies #[trigger] new_key(fs, base0, i)
                != k by {
                assert(payload_key(fs, i) != k);
            }
            assert(table_map(l2)[k] == table_map(l1)[k]);
            assert(table_map(l1).contains_key(k));
            let e = table_map(l1)[k];
            assert(table_map(l1)[k] == table_map(l0)[k]);
            lemma_table_map_contains(l0, k);
            let w = choose|i: int| 0 <= i < l0.len() && entry_key(#[trigger] l0[i]) == k;
            lemma_table_map_index(l0, w);
            assert(e == l0[w]);
            assert(content_at(f2, e) =~= content_at(f1, e));
        }
    }
}

/// Law (placement of one payload): after a merge, the key of a payload that
/// no later payload shares and no deletion names maps to exactly the record
/// appended for it — stored whole (all three sizes are the payload's
/// length), regular-file flags — and the merged image holds the payload's
/// bytes at its recorded range.
pub proof fn lemma_upsert_read_back(
    f: Seq<u8>,
    l0: Seq<GrfEntryModel>,
    fs: Seq<(Seq<u8>, Seq<u8>)>,
    ds: Seq<Seq<u8>>,
    j: int,
)
    requires
        f.len() >= 46,
        keys_unique(l0),
        0 <= j < fs.len(),
        forall|i: int| j < i < fs.len() ==> payload_key(fs, i) != payload_key(fs, j),
        forall|i: int| 0 <= i < ds.len() ==> spec_lower(#[trigger] ds[i]) != payload_key(fs, j),
        f.len() + payload_blob(fs).len() <= i32::MAX as int,
    ensures
        ({
            let k = payload_key(fs, j);
            let base = f.len() as int;
            let l1 = merged_list(l0, base, fs, ds);
            let g = merge_once(f, l0, fs, ds).0;
            &&& table_map(l1).contains_key(k)
            &&& table_map(l1)[k] == appended_entry(base, fs, j)
            &&& table_map(l1)[k].real_size == fs[j].1.len()
            &&& table_map(l1)[k].compressed_size_aligned == fs[j].1.len()
            &&& table_map(l1)[k].flags == 1
            &&& content_at(g, table_map(l1)[k]) == fs[j].1
        }),
{
    let k = payload_key(fs, j);
    let base = f.len() as int;
    lemma_last_payload_found(fs, k, fs.len() as int, j);
    let last = last_payload(fs, k, fs.len() as int);
    assert(last == j) by {
        if last != j {
            assert(payload_key(fs, last) == payload_key(fs, j));
        }
    }
    lemma_insert_entries_map(l0, base, fs, fs.len() as int, k);
    lemma_insert_entries_value(l0, base, fs, fs.len() as int, k);
    lemma_remove_keys_map(insert_entries(l0, base, fs, fs.len() as int), ds, ds.len() as int, k);
    lemma_payload_blob(fs);
    lemma_prefix_mono(fs, fs.len() as int);
    lemma_prefix_mono(fs, j);
    assert(payload_prefix(fs, j) + fs[j].1.len() == payload_prefix(fs, j + 1));
    assert(fs[j].1.len() <= payload_blob(fs).len());
    assert(fs[j].1.len() as i32 == fs[j].1.len());
    lemma_appended_content(f, l0, fs, ds, j);
}

/// A key some payload carries has a last carrier.
proof fn lemma_last_payload_found(fs: Seq<(Seq<u8>, Seq<u8>)>, k: Seq<u8>, j: int, w: int)
    requires
        0 <= w < j <= fs.len(),
        payload_key(fs, w) == k,
    ensures
        w <= last_payload(fs, k, j) < j,
        payload_key(fs, last_payload(fs, k, j)) == k,
    decreases j,
{
    if payload_key(fs, j - 1) == k {
    } else {
        lemma_last_payload_found(fs, k, j - 1, w);
    }
}


/// A merge grows the table by at most one entry per payload.
pub proof fn lemma_merged_list_len(
    es: Seq<GrfEntryModel>,
    base: int,
    fs: Seq<(Seq<u8>, Seq<u8>)>,
    ds: Seq<Seq<u8>>,
)
    ensures
        merged_list(es, base, fs, ds).len() <= es.len() + fs.len(),
{
    lemma_insert_entries_len(es, base, fs, fs.len() as int);
    lemma_remove_keys_len(insert_entries(es, base, fs, fs.len() as int), ds, ds.len() as int);
}

/// Each insertion grows the list by at most one entry.
proof fn lemma_insert_entries_len(
    es: Seq<GrfEntryModel>,
    base: int,
    fs: Seq<(Seq<u8>, Seq<u8>)>,
    j: int,
)
    requires
        0 <= j <= fs.len(),
    ensures
        insert_entries(es, base, fs, j).len() <= es.len() + j,
    decreases j,
{
    if j > 0 {
        lemma_insert_entries_len(es, base, fs, j - 1);
        let prev = insert_entries(es, base, fs, j - 1);
        let e = appended_entry(base, fs, j - 1);
        lemma_key_index(prev, entry_key(e));
    }
}

/// Removals never grow the list.
proof fn lemma_remove_keys_len(es: Seq<GrfEntryModel>, ds: Seq<Seq<u8>>, j: int)
    requires
        0 <= j <= ds.len(),
    ensures
        remove_keys(es, ds, j).len() <= es.len(),
    decreases j,
{
    if j > 0 {
        lemma_remove_keys_len(es, ds, j - 1);
        let prev = remove_keys(es, ds, j - 1);
        lemma_key_index(prev, spec_lower(ds[j - 1]));
    }
}

/// The serialized table's length: at most 18 bytes plus the path cap per
/// entry.
pub proof fn lemma_table_bytes_len(es: Seq<GrfEntryModel>, cap: int)
    requires
        forall|i: int| 0 <= i < es.len() ==> (#[trigger] es[i]).filename.len() <= cap,
        cap >= 0,
    ensures
        table_bytes(es).len() <= es.len() * (cap + 18),
    decreases es.len(),
{
    if es.len() == 0 {
    } else {
        assert(forall|i: int|
            0 <= i < es.skip(1).len() ==> (#[trigger] es.skip(1)[i]).filename.len() <= cap);
        lemma_table_bytes_len(es.skip(1), cap);
        lemma_entry_bytes_len(es[0]);
        assert((es.len() - 1) * (cap + 18) + (cap + 18) == es.len() * (cap + 18))
            by (nonlinear_arith);
    }
}

/// Whether an action deletes the case-insensitive key `k`.
pub open spec fn op_deletes(op: ApplyOpModel, k: Seq<u8>) -> bool {
    match op {
        ApplyOpModel::Delete { path } => spec_lower(path) == k,
        ApplyOpModel::Upsert { .. } => false,
    }
}

/// Whether an action places a container entry under the case-insensitive
/// key `k`.
pub open spec fn op_upserts_container(op: ApplyOpModel, k: Seq<u8>) -> bool {
    match op {
        ApplyOpModel::Upsert { path, data, disposition } => disposition
            == Disposition::InsideContainer && spec_lower(spec_normalize(path)) == k,
        ApplyOpModel::Delete { .. } => false,
    }
}

/// The container payloads carry a key iff some action upserts it into the
/// container.
proof fn lemma_container_files_keys(ops: Seq<ApplyOpModel>, k: Seq<u8>)
    ensures
        (exists|i: int| 0 <= i < ops.len() && op_upserts_container(#[trigger] ops[i], k)) <==> (
        exists|j: int|
            0 <= j < spec_container_files(ops).len() && spec_lower(
                spec_normalize(#[trigger] spec_container_files(ops)[j].0),
            ) == k),
    decreases ops.len(),
{
    if ops.len() == 0 {
    } else {
        lemma_container_files_keys(ops.skip(1), k);
        let cf = spec_container_files(ops);
        let rest = spec_container_files(ops.skip(1));
        let head_counts = match ops[0] {
            ApplyOpModel::Upsert { path, data, disposition } => disposition
                == Disposition::InsideContainer,
            ApplyOpModel::Delete { .. } => false,
        };
        if exists|i: int| 0 <= i < ops.len() && op_upserts_container(#[trigger] ops[i], k) {
            let i = choose|i: int| 0 <= i < ops.len() && op_upserts_container(#[trigger] ops[i], k);
            if i == 0 {
                assert(spec_lower(spec_normalize(cf[0].0)) == k);
            } else {
                assert(op_upserts_container(ops.skip(1)[i - 1], k));
                let j = choose|j: int|
                    0 <= j < rest.len() && spec_lower(spec_normalize(#[trigger] rest[j].0)) == k;
                if head_counts {
                    assert(spec_lower(spec_normalize(cf[j + 1].0)) == k);
                } else {
                    assert(spec_lower(spec_normalize(cf[j].0)) == k);
                }
            }
        }
        if exists|j: int|
            0 <= j < cf.len() && spec_lower(spec_normalize(#[trigger] cf[j].0)) == k {
            let j = choose|j: int|
                0 <= j < cf.len() && spec_lower(spec_normalize(#[trigger] cf[j].0)) == k;
            if head_counts && j == 0 {
                assert(op_upserts_container(ops[0], k));
            } else {
                let j2: int = if head_counts {
                    j - 1
                } else {
                    j
                };
                assert(rest[j2] == cf[j]);
                assert(spec_lower(spec_normalize(rest[j2].0)) == k);
                let i = choose|i: int|
                    0 <= i < ops.skip(1).len() && op_upserts_container(
                        #[trigger] ops.skip(1)[i],
                        k,
                    );
                assert(op_upserts_container(ops[i + 1], k));
            }
        }
    }
}

/// The deletion list carries a key iff some action deletes it.
proof fn lemma_deletions_keys(ops: Seq<ApplyOpModel>, k: Seq<u8>)
    ensures
        (exists|i: int| 0 <= i < ops.len() && op_deletes(#[trigger] ops[i], k)) <==> (exists|j: int|
            0 <= j < spec_deletions(ops).len() && spec_lower(
                #[trigger] spec_deletions(ops)[j],
            ) == k),
    decreases ops.len(),
{
    if ops.len() == 0 {
    } else {
        lemma_deletions_keys(ops.skip(1), k);
        let dl = spec_deletions(ops);
        let rest = spec_deletions(ops.skip(1));
        let head_counts = ops[0] is Delete;
        if exists|i: int| 0 <= i < ops.len() && op_deletes(#[trigger] ops[i], k) {
            let i = choose|i: int| 0 <= i < ops.len() && op_deletes(#[trigger] ops[i], k);
            if i == 0 {
                assert(spec_lower(dl[0]) == k);
            } else {
                assert(op_deletes(ops.skip(1)[i - 1], k));
                let j = choose|j: int|
                    0 <= j < rest.len() && spec_lower(#[trigger] rest[j]) == k;
                if head_counts {
                    assert(spec_lower(dl[j + 1]) == k);
                } else {
                    assert(spec_lower(dl[j]) == k);
                }
            }
        }
        if exists|j: int| 0 <= j < dl.len() && spec_lower(#[trigger] dl[j]) == k {
            let j = choose|j: int| 0 <= j < dl.len() && spec_lower(#[trigger] dl[j]) == k;
            if head_counts && j == 0 {
                assert(op_deletes(ops[0], k));
            } else {
                let j2: int = if head_counts {
                    j - 1
                } else {
                    j
                };
                assert(rest[j2] == dl[j]);
                let i = choose|i: int|
                    0 <= i < ops.skip(1).len() && op_deletes(#[trigger] ops.skip(1)[i], k);
                assert(op_deletes(ops[i + 1], k));
            }
        }
    }
}

/// Law (package application): batching a package's actions into one merge —
/// all container upserts, then all deletions, as the engine does — applies
/// them to the table's map. A key some action deletes is absent afterwards;
/// a key some container upsert carries, with no action deleting it, is
/// present.
pub proof fn lemma_package_ops_merge(
    es: Seq<GrfEntryModel>,
    base: int,
    ops: Seq<ApplyOpModel>,
    k: Seq<u8>,
)
    requires
        keys_unique(es),
    ensures
        ({
            let m = table_map(
                merged_list(es, base, spec_container_files(ops), spec_deletions(ops)),
            );
            &&& ((exists|i: int| 0 <= i < ops.len() && op_deletes(#[trigger] ops[i], k))
                ==> !m.contains_key(k))
            &&& (((exists|i: int|
                0 <= i < ops.len() && op_upserts_container(#[trigger] ops[i], k)) && (forall|i: int|
                0 <= i < ops.len() ==> !op_deletes(#[trigger] ops[i], k))) ==> m.contains_key(k))
        }),
{
    let fs = spec_container_files(ops);
    let ds = spec_deletions(ops);
    lemma_merged_map(es, base, fs, ds, k);
    lemma_container_files_keys(ops, k);
    lemma_deletions_keys(ops, k);
    assert forall|j: int| 0 <= j < fs.len() implies #[trigger] new_key(fs, base, j) == spec_lower(
        spec_normalize(fs[j].0),
    ) by {}
    if (exists|i: int| 0 <= i < ops.len() && op_upserts_container(#[trigger] ops[i], k)) && (
    forall|i: int| 0 <= i < ops.len() ==> !op_deletes(#[trigger] ops[i], k)) {
        let j = choose|j: int|
            0 <= j < fs.len() && spec_lower(spec_normalize(#[trigger] fs[j].0)) == k;
        assert(new_key(fs, base, j) == k);
        assert forall|j2: int| 0 <= j2 < ds.len() implies spec_lower(#[trigger] ds[j2]) != k by {
            if spec_lower(ds[j2]) == k {
                assert(exists|i: int| 0 <= i < ops.len() && op_deletes(#[trigger] ops[i], k));
            }
        }
    }
}

} // verus!
