//! The ZIP package format, behind a trusted boundary to the zip crate: the
//! archive is opened over the package bytes, each entry's raw bytes are read
//! out, decoding (stored or deflate) happens in verified code, and the
//! entries are routed by the disposition rule. Directory entries are skipped;
//! ZIP packages carry no delete directive.

use crate::codec::{normalize_path, spec_normalize};
use crate::thor::{
    disposition_for, op_models, ops_routed, spec_disposition, ApplyOp, ApplyOpModel, ThorError,
};
use crate::zlib::{deflate_raw_decompress, deflate_raw_inflate};
use vstd::prelude::*;
use vstd::string::StrSliceExecFns;
use vstd::utf8::encode_utf8;

verus! {

#[verifier::external_type_specification]
#[verifier::external_body]
#[verifier::reject_recursive_types(T)]
pub struct ExCursor<T>(std::io::Cursor<T>);

#[verifier::external_type_specification]
#[verifier::external_body]
#[verifier::reject_recursive_types(R)]
pub struct ExZipArchive<R>(zip::read::ZipArchive<R>);

/// How one archive entry's bytes are encoded: verbatim, raw deflate, or a
/// method this engine does not support.
#[derive(Debug, Clone, Copy, PartialEq, Eq, Structural)]
pub enum ZipMethod {
    Stored,
    Deflated,
    Other,
}

/// What an opened archive holds: for each entry in central-directory order,
/// its name, its encoding, and its raw (still encoded) bytes.
pub uninterp spec fn zip_raw_contents(a: zip::read::ZipArchive<std::io::Cursor<Vec<u8>>>) -> Seq<
    (Seq<char>, ZipMethod, Seq<u8>),
>;

/// The package bytes an archive was opened over.
pub uninterp spec fn zip_source(a: zip::read::ZipArchive<std::io::Cursor<Vec<u8>>>) -> Seq<u8>;

/// What `ZipArchive::new` makes of the package bytes: the entries of its
/// central directory, or `None` when the bytes are not a ZIP archive. A
/// function of the bytes alone.
pub uninterp spec fn zip_parse_raw(data: Seq<u8>) -> Option<Seq<(Seq<char>, ZipMethod, Seq<u8>)>>;

/// Whether every entry's raw bytes can be read out of the package (each
/// local header is intact and in bounds). A function of the bytes alone.
pub uninterp spec fn zip_raw_ok(data: Seq<u8>) -> bool;

/// Relies on zip's `ZipArchive::new` over an in-memory cursor: parsing the
/// central directory is a function of the package bytes alone; an archive it
/// accepts carries those bytes and lists those entries, and a rejection
/// means the bytes are not a ZIP archive.
#[verifier::external_body]
fn zip_open(data: Vec<u8>) -> (r: Result<zip::read::ZipArchive<std::io::Cursor<Vec<u8>>>, String>)
    ensures
        r matches Ok(a) ==> zip_source(a) == data@ && zip_parse_raw(data@) == Some(
            zip_raw_contents(a),
        ),
        r is Err ==> zip_parse_raw(data@) is None,
{
    zip::read::ZipArchive::new(std::io::Cursor::new(data)).map_err(|e| format!("{}", e))
}

/// Relies on zip's `ZipArchive::len`: the number of entries the central
/// directory lists.
#[verifier::external_body]
fn zip_len(a: &zip::read::ZipArchive<std::io::Cursor<Vec<u8>>>) -> (n: usize)
    ensures
        n == zip_raw_contents(*a).len(),
{
    a.len()
}

/// Relies on zip's `ZipArchive::by_index_raw`, `ZipFile::name` and
/// `ZipFile::compression`, and `Read::read_to_end` on the raw entry: yields
/// entry `i`'s name, encoding and raw bytes — a function of the package
/// bytes alone — and leaves the archive unchanged. The raw accessor is used
/// because the decoding one resolves an internal password check with a
/// panic, which a crafted entry (an AES extra field with the encryption
/// flag clear) can reach; the raw path only errors.
#[verifier::external_body]
fn zip_entry_raw(a: &mut zip::read::ZipArchive<std::io::Cursor<Vec<u8>>>, i: usize) -> (r: Result<
    (String, ZipMethod, Vec<u8>),
    String,
>)
    requires
        i < zip_raw_contents(*old(a)).len(),
    ensures
        zip_raw_contents(*final(a)) == zip_raw_contents(*old(a)),
        zip_source(*final(a)) == zip_source(*old(a)),
        zip_raw_ok(zip_source(*old(a))) ==> r is Ok,
        r matches Ok(e) ==> (e.0@, e.1, e.2@) == zip_raw_contents(*old(a))[i as int],
{
    let mut f = a.by_index_raw(i).map_err(|e| format!("{}", e))?;
    let name = f.name().to_string();
    let method = match f.compression() {
        zip::CompressionMethod::Stored => ZipMethod::Stored,
        zip::CompressionMethod::Deflated => ZipMethod::Deflated,
        _ => ZipMethod::Other,
    };
    let mut raw = Vec::new();
    std::io::Read::read_to_end(&mut f, &mut raw).map_err(|e| format!("{}", e))?;
    Ok((name, method, raw))
}

/// One raw entry decoded: stored bytes verbatim, deflated bytes inflated,
/// anything else refused.
pub open spec fn entry_decode(m: ZipMethod, raw: Seq<u8>) -> Option<Seq<u8>> {
    match m {
        ZipMethod::Stored => Some(raw),
        ZipMethod::Deflated => deflate_raw_inflate(raw),
        ZipMethod::Other => None,
    }
}

/// All raw entries decoded to (name, bytes), or `None` when any entry does
/// not decode.
pub open spec fn decode_all(rs: Seq<(Seq<char>, ZipMethod, Seq<u8>)>) -> Option<
    Seq<(Seq<char>, Seq<u8>)>,
>
    decreases rs.len(),
{
    if rs.len() == 0 {
        Some(Seq::empty())
    } else {
        match entry_decode(rs[0].1, rs[0].2) {
            None => None,
            Some(d) => match decode_all(rs.skip(1)) {
                None => None,
                Some(rest) => Some(seq![(rs[0].0, d)] + rest),
            },
        }
    }
}

/// Decodes one raw entry.
fn decode_entry(m: ZipMethod, raw: Vec<u8>) -> (r: Option<Vec<u8>>)
    ensures
        match r {
            Some(v) => entry_decode(m, raw@) == Some(v@),
            None => entry_decode(m, raw@) is None,
        },
{
    match m {
        ZipMethod::Stored => Some(raw),
        ZipMethod::Deflated => deflate_raw_decompress(raw.as_slice()),
        ZipMethod::Other => None,
    }
}

/// The models of a decoded entry list.
pub open spec fn entry_models(s: Seq<(String, Vec<u8>)>) -> Seq<(Seq<char>, Seq<u8>)> {
    s.map_values(|e: (String, Vec<u8>)| (e.0@, e.1@))
}

/// `rest` put behind `a`, unless `rest` is broken.
pub open spec fn opt_prepend_entries(
    a: Seq<(Seq<char>, Seq<u8>)>,
    rest: Option<Seq<(Seq<char>, Seq<u8>)>>,
) -> Option<Seq<(Seq<char>, Seq<u8>)>> {
    match rest {
        None => None,
        Some(x) => Some(a + x),
    }
}

/// Reads and decodes every entry of an opened archive, in order. Succeeds
/// whenever the package's raw entries read out and all of them decode.
#[verifier::loop_isolation(false)]
fn collect_zip_entries(a: &mut zip::read::ZipArchive<std::io::Cursor<Vec<u8>>>) -> (r: Result<
    Vec<(String, Vec<u8>)>,
    String,
>)
    ensures
        r matches Ok(es) ==> decode_all(zip_raw_contents(*old(a))) == Some(entry_models(es@)),
        zip_raw_ok(zip_source(*old(a))) && decode_all(zip_raw_contents(*old(a))) is Some ==> r
            is Ok,
{
    let ghost cs = zip_raw_contents(*a);
    let ghost total = decode_all(cs);
    let n = zip_len(a);
    let mut out: Vec<(String, Vec<u8>)> = Vec::new();
    let mut i: usize = 0;
    proof {
        assert(cs.skip(0) =~= cs);
        assert(opt_prepend_entries(entry_models(out@), decode_all(cs)) == total) by {
            if decode_all(cs) is Some {
                assert(entry_models(out@) + decode_all(cs).unwrap() =~= decode_all(cs).unwrap());
            }
        }
    }
    while i < n
        invariant
            i <= n,
            n == cs.len(),
            cs == zip_raw_contents(*a),
            zip_source(*a) == zip_source(*old(a)),
            opt_prepend_entries(entry_models(out@), decode_all(cs.skip(i as int))) == total,
        decreases n - i,
    {
        let ghost rem = cs.skip(i as int);
        proof {
            assert(rem[0] == cs[i as int]);
            assert(cs.skip(i + 1 as int) =~= rem.skip(1));
        }
        let (name, method, raw) = match zip_entry_raw(a, i) {
            Ok(e) => e,
            Err(e) => {
                return Err(e);
            },
        };
        let data = match decode_entry(method, raw) {
            Some(d) => d,
            None => {
                proof {
                    assert(decode_all(rem) is None);
                    assert(total is None);
                }
                return Err(String::from_str("unsupported or broken entry encoding"));
            },
        };
        let ghost pre = entry_models(out@);
        out.push((name, data));
        proof {
            assert(entry_models(out@) =~= pre.push(entry_models(out@).last()));
            if decode_all(rem.skip(1)) is Some {
                assert(pre.push(entry_models(out@).last()) + decode_all(rem.skip(1)).unwrap()
                    =~= pre + (seq![entry_models(out@).last()] + decode_all(rem.skip(1)).unwrap()));
            }
        }
        i = i + 1;
    }
    proof {
        assert(cs.skip(n as int) =~= Seq::<(Seq<char>, ZipMethod, Seq<u8>)>::empty());
        assert(entry_models(out@) + Seq::<(Seq<char>, Seq<u8>)>::empty() =~= entry_models(out@));
    }
    Ok(out)
}

/// Whether an entry name marks a directory: it ends with a slash of either
/// kind.
pub open spec fn spec_is_dir_name(name: Seq<char>) -> bool {
    name.len() > 0 && (name.last() == '/' || name.last() == '\\')
}

/// Tests an entry name for a trailing slash of either kind.
pub fn is_dir_name(name: &String) -> (r: bool)
    ensures
        r == spec_is_dir_name(name@),
{
    let n = name.as_str().unicode_len();
    if n == 0 {
        return false;
    }
    let c = name.as_str().get_char(n - 1);
    c == '/' || c == '\\'
}

/// The actions of a list of decoded entries: directory entries are skipped;
/// every other entry becomes an upsert of its normalized name's bytes, routed
/// by the disposition rule.
pub open spec fn spec_route(es: Seq<(Seq<char>, Seq<u8>)>, use_grf: bool) -> Seq<ApplyOpModel>
    decreases es.len(),
{
    if es.len() == 0 {
        Seq::empty()
    } else {
        let rest = spec_route(es.skip(1), use_grf);
        if spec_is_dir_name(es[0].0) {
            rest
        } else {
            let norm = spec_normalize(encode_utf8(es[0].0));
            seq![
                ApplyOpModel::Upsert {
                    path: norm,
                    data: es[0].1,
                    disposition: spec_disposition(norm, use_grf),
                },
            ] + rest
        }
    }
}

/// Routes decoded entries into actions by the disposition rule.
#[verifier::loop_isolation(false)]
pub fn route_zip_entries(entries: Vec<(String, Vec<u8>)>, use_grf: bool) -> (r: Vec<ApplyOp>)
    ensures
        op_models(r@) == spec_route(entry_models(entries@), use_grf),
        ops_routed(op_models(r@), use_grf),
{
    let ghost em = entry_models(entries@);
    let ghost total = spec_route(em, use_grf);
    let mut out: Vec<ApplyOp> = Vec::new();
    let mut entries = entries;
    let n = entries.len();
    let mut i: usize = 0;
    proof {
        assert(em.skip(0) =~= em);
        assert(op_models(out@) + spec_route(em, use_grf) =~= spec_route(em, use_grf));
    }
    while i < n
        invariant
            i <= n,
            n == entries@.len(),
            em.len() == n,
            forall|j: int|
                i <= j < n ==> (#[trigger] entries@[j].0@, entries@[j].1@) == (em[j].0, em[j].1),
            op_models(out@) + spec_route(em.skip(i as int), use_grf) == total,
            ops_routed(op_models(out@), use_grf),
        decreases n - i,
    {
        let ghost rem = em.skip(i as int);
        proof {
            assert(rem[0] == em[i as int]);
            assert(em.skip(i + 1 as int) =~= rem.skip(1));
        }
        let (name, data) = take_entry(&mut entries, i);
        proof {
            assert((name@, data@) == em[i as int]);
        }
        if !is_dir_name(&name) {
            let norm = normalize_path(name.as_str().as_bytes());
            let disposition = disposition_for(&norm, use_grf);
            let ghost pre = op_models(out@);
            out.push(ApplyOp::Upsert { path: norm, data, disposition });
            proof {
                crate::thor::lemma_normalize_idempotent(encode_utf8(em[i as int].0));
                assert(op_models(out@) =~= pre.push(op_models(out@).last()));
                assert(pre.push(op_models(out@).last()) + spec_route(rem.skip(1), use_grf) =~= pre
                    + (seq![op_models(out@).last()] + spec_route(rem.skip(1), use_grf)));
                assert forall|j: int| 0 <= j < op_models(out@).len() implies crate::thor::op_routed(
                    #[trigger] op_models(out@)[j],
                    use_grf,
                ) by {
                    if j < pre.len() {
                        assert(op_models(out@)[j] == pre[j]);
                    }
                }
            }
        }
        i = i + 1;
    }
    proof {
        assert(em.skip(n as int) =~= Seq::<(Seq<char>, Seq<u8>)>::empty());
        assert(op_models(out@) + spec_route(em.skip(n as int), use_grf) =~= op_models(out@));
    }
    out
}

/// Moves the entry at `i` out of the list, leaving a placeholder.
fn take_entry(entries: &mut Vec<(String, Vec<u8>)>, i: usize) -> (r: (String, Vec<u8>))
    requires
        i < old(entries)@.len(),
    ensures
        r == old(entries)@[i as int],
        final(entries)@.len() == old(entries)@.len(),
        forall|j: int|
            0 <= j < old(entries)@.len() && j != i ==> final(entries)@[j] == old(entries)@[j],
{
    let mut slot: (String, Vec<u8>) = (String::new(), Vec::new());
    entries.set_and_swap(i, &mut slot);
    slot
}

/// Parses a ZIP package into its actions: the raw entries listed by the
/// central directory, decoded and routed by the disposition rule. Succeeds
/// whenever the bytes are a ZIP archive whose entries read out and decode;
/// what it returns is pinned to what the archive's bytes parse to.
pub fn parse_zip_package(data: Vec<u8>, use_grf: bool) -> (r: Result<Vec<ApplyOp>, ThorError>)
    ensures
        r matches Err(e) ==> e is PackageCorrupt,
        zip_parse_raw(data@) is None ==> r is Err,
        (zip_parse_raw(data@) matches Some(rs) && zip_raw_ok(data@) && decode_all(rs) is Some)
            ==> r is Ok,
        r matches Ok(ops) ==> (zip_parse_raw(data@) matches Some(rs) && decode_all(rs) matches Some(
            ds,
        ) && op_models(ops@) == spec_route(ds, use_grf) && ops_routed(op_models(ops@), use_grf)),
{
    let ghost d = data@;
    let mut archive = match zip_open(data) {
        Ok(a) => a,
        Err(e) => {
            return Err(ThorError::PackageCorrupt(e));
        },
    };
    let ghost cs = zip_raw_contents(archive);
    proof {
        assert(zip_parse_raw(d) == Some(cs));
        assert(zip_source(archive) == d);
    }
    let entries = match collect_zip_entries(&mut archive) {
        Ok(es) => es,
        Err(e) => {
            return Err(ThorError::PackageCorrupt(e));
        },
    };
    Ok(route_zip_entries(entries, use_grf))
}

/// Checks that a package is a non-empty ZIP archive: succeeds exactly when
/// the bytes parse as an archive with at least one entry.
pub fn validate_zip_package(data: Vec<u8>) -> (r: Result<bool, ThorError>)
    ensures
        r matches Ok(b) ==> b,
        r is Ok <==> (zip_parse_raw(data@) matches Some(rs) && rs.len() > 0),
        r matches Err(e) ==> e is PackageCorrupt,
{
    let ghost d = data@;
    let archive = match zip_open(data) {
        Ok(a) => a,
        Err(_) => {
            return Err(ThorError::PackageCorrupt(String::from_str("invalid archive format")));
        },
    };
    if zip_len(&archive) == 0 {
        return Err(ThorError::PackageCorrupt(String::from_str("empty archive")));
    }
    Ok(true)
}

} // verus!
