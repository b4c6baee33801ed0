//! Patch packages: magic-byte sniffing, the legacy tagged format, and the
//! routing of parsed entries to the container or to loose files.
//!
//! A package opens with either the legacy magic `ASSF` or a ZIP local-file
//! header; anything else is an unknown format. A legacy package carries a
//! zlib-compressed entry table; each file entry's payload is zlib preferred,
//! raw fallback.

use crate::codec::{normalize_path, read_u16_at, read_u32_at, spec_normalize};
use crate::grf::format::{spec_read_header, spec_read_table};
use crate::grf::reader::GrfReader;
use crate::grf::table::spec_build_list;
use crate::grf::types::GrfError;
use crate::grf::writer::{
    del_models, file_models, merge_fits, merge_fits_plain, merged_header, merged_list,
    payload_blob, payload_prefix, GrfWriter,
};
use crate::zlib::{zlib_decompress, zlib_inflate};
use vstd::bytes::{spec_u16_from_le_bytes, spec_u32_from_le_bytes};
use vstd::prelude::*;
use vstd::slice::{slice_subrange, slice_to_vec};

verus! {

/// Where a patched entry goes: into the container, or onto the filesystem.
#[derive(Debug, Clone, Copy, PartialEq, Eq, Structural)]
pub enum Disposition {
    InsideContainer,
    OnFilesystem,
}

/// Mathematical image of one patch action.
pub ghost enum ApplyOpModel {
    Upsert { path: Seq<u8>, data: Seq<u8>, disposition: Disposition },
    Delete { path: Seq<u8> },
}

/// One normalized patch action: replace a file whole, or record a deletion.
/// Paths are `/`-separated bytes.
#[derive(Debug, Clone)]
pub enum ApplyOp {
    Upsert { path: Vec<u8>, data: Vec<u8>, disposition: Disposition },
    Delete { path: Vec<u8> },
}

impl View for ApplyOp {
    type V = ApplyOpModel;

    open spec fn view(&self) -> ApplyOpModel {
        match self {
            ApplyOp::Upsert { path, data, disposition } => ApplyOpModel::Upsert {
                path: path@,
                data: data@,
                disposition: *disposition,
            },
            ApplyOp::Delete { path } => ApplyOpModel::Delete { path: path@ },
        }
    }
}

/// The models of an action list.
pub open spec fn op_models(s: Seq<ApplyOp>) -> Seq<ApplyOpModel> {
    s.map_values(|o: ApplyOp| o@)
}

/// Errors of the package layer.
#[derive(Debug, Clone)]
pub enum ThorError {
    /// The package opens with neither the legacy magic nor a ZIP header.
    UnknownPackageFormat,
    /// A legacy package whose mode this engine does not support.
    UnsupportedPackageMode(u16),
    /// A package whose structure is broken; carries the reason.
    PackageCorrupt(String),
}

/// What the first four bytes announce.
#[derive(Debug, Clone, Copy, PartialEq, Eq, Structural)]
pub enum PackageFormat {
    Legacy,
    Zip,
    Unknown,
}

/// The format the magic bytes announce: `ASSF`, a ZIP local-file header, or
/// neither.
pub open spec fn spec_sniff(data: Seq<u8>) -> PackageFormat {
    if data.len() >= 4 && data[0] == 65 && data[1] == 83 && data[2] == 83 && data[3] == 70 {
        PackageFormat::Legacy
    } else if data.len() >= 4 && data[0] == 80 && data[1] == 75 && data[2] == 3 && data[3] == 4 {
        PackageFormat::Zip
    } else {
        PackageFormat::Unknown
    }
}

/// Sniffs the package format from the first four bytes.
pub fn sniff_package_format(data: &Vec<u8>) -> (r: PackageFormat)
    ensures
        r == spec_sniff(data@),
{
    if data.len() >= 4 && data[0] == 65 && data[1] == 83 && data[2] == 83 && data[3] == 70 {
        PackageFormat::Legacy
    } else if data.len() >= 4 && data[0] == 80 && data[1] == 75 && data[2] == 3 && data[3] == 4 {
        PackageFormat::Zip
    } else {
        PackageFormat::Unknown
    }
}

/// Whether a normalized path opens with `data/`.
pub open spec fn is_data_path(p: Seq<u8>) -> bool {
    p.len() >= 5 && p[0] == 100 && p[1] == 97 && p[2] == 116 && p[3] == 97 && p[4] == 47
}

/// The disposition rule: a `data/` entry goes into the container when the
/// install tree has one; everything else, and everything when it has none,
/// goes onto the filesystem.
pub open spec fn spec_disposition(p_norm: Seq<u8>, use_grf: bool) -> Disposition {
    if use_grf && is_data_path(p_norm) {
        Disposition::InsideContainer
    } else {
        Disposition::OnFilesystem
    }
}

/// Applies the disposition rule to a normalized path. Without a container in
/// the install tree every entry is placed on the filesystem.
pub fn disposition_for(path: &Vec<u8>, use_grf: bool) -> (r: Disposition)
    ensures
        r == spec_disposition(path@, use_grf),
        !use_grf ==> r == Disposition::OnFilesystem,
{
    if use_grf && path.len() >= 5 && path[0] == 100 && path[1] == 97 && path[2] == 116 && path[3]
        == 97 && path[4] == 47 {
        Disposition::InsideContainer
    } else {
        Disposition::OnFilesystem
    }
}

/// The legacy header's mode field.
pub open spec fn legacy_mode(s: Seq<u8>) -> u16 {
    spec_u16_from_le_bytes(s.subrange(0x1d, 0x1f))
}

/// The actions of a decompressed legacy entry table, read from `pos` on:
/// `name_len`, name, flags, absolute payload offset, stored and real payload
/// lengths. Flags 1 is a file (zlib preferred, raw fallback), flags 5 a
/// deletion, anything else is ignored; a truncated final record is dropped.
/// `None` when a payload lies outside the package.
pub open spec fn spec_legacy_ops(t: Seq<u8>, pos: int, file: Seq<u8>, use_grf: bool) -> Option<
    Seq<ApplyOpModel>,
>
    decreases t.len() - pos,
{
    if !(0 <= pos && pos < t.len()) {
        Some(Seq::empty())
    } else {
        let nl = t[pos] as int;
        if pos + 1 + nl + 13 > t.len() {
            Some(Seq::empty())
        } else {
            let name = t.subrange(pos + 1, pos + 1 + nl);
            let p = pos + 1 + nl;
            let flags = t[p];
            let off = spec_u32_from_le_bytes(t.subrange(p + 1, p + 5)) as int;
            let csz = spec_u32_from_le_bytes(t.subrange(p + 5, p + 9)) as int;
            let next = p + 13;
            if flags == 1 {
                if off + csz > file.len() {
                    None
                } else {
                    let raw = file.subrange(off, off + csz);
                    let payload = match zlib_inflate(raw) {
                        Some(d) => d,
                        None => raw,
                    };
                    let norm = spec_normalize(name);
                    match spec_legacy_ops(t, next, file, use_grf) {
                        None => None,
                        Some(rest) => Some(
                            seq![
                                ApplyOpModel::Upsert {
                                    path: norm,
                                    data: payload,
                                    disposition: spec_disposition(norm, use_grf),
                                },
                            ] + rest,
                        ),
                    }
                }
            } else if flags == 5 {
                match spec_legacy_ops(t, next, file, use_grf) {
                    None => None,
                    Some(rest) => Some(
                        seq![ApplyOpModel::Delete { path: spec_normalize(name) }] + rest,
                    ),
                }
            } else {
                spec_legacy_ops(t, next, file, use_grf)
            }
        }
    }
}

/// The actions of a whole legacy package: magic, mode `0x30`, the target
/// container name, the table's stored length and absolute offset, then the
/// decompressed table's entries. `None` when any of that is broken.
pub open spec fn spec_legacy_package(s: Seq<u8>, use_grf: bool) -> Option<Seq<ApplyOpModel>> {
    if spec_sniff(s) != PackageFormat::Legacy || s.len() < 35 {
        None
    } else if legacy_mode(s) != 0x30 {
        None
    } else {
        let nl = s[0x1f] as int;
        if 0x20 + nl + 8 > s.len() {
            None
        } else {
            let cl = spec_u32_from_le_bytes(s.subrange(0x20 + nl, 0x20 + nl + 4)) as int;
            let off = spec_u32_from_le_bytes(s.subrange(0x20 + nl + 4, 0x20 + nl + 8)) as int;
            if off + cl > s.len() {
                None
            } else {
                match zlib_inflate(s.subrange(off, off + cl)) {
                    None => None,
                    Some(t) => spec_legacy_ops(t, 0, s, use_grf),
                }
            }
        }
    }
}

/// Every action of a legacy table follows the disposition rule and carries a
/// normalized path.
pub proof fn lemma_legacy_ops_disposition(t: Seq<u8>, pos: int, file: Seq<u8>, use_grf: bool)
    ensures
        spec_legacy_ops(t, pos, file, use_grf) matches Some(ops) ==> ops_routed(ops, use_grf),
    decreases t.len() - pos,
{
    if !(0 <= pos && pos < t.len()) {
    } else {
        let nl = t[pos] as int;
        if pos + 1 + nl + 13 > t.len() {
        } else {
            lemma_legacy_ops_disposition(t, pos + 1 + nl + 13, file, use_grf);
            let name = t.subrange(pos + 1, pos + 1 + nl);
            lemma_normalize_idempotent(name);
            let flags = t[pos + 1 + nl];
            if spec_legacy_ops(t, pos, file, use_grf) is Some && spec_legacy_ops(
                t,
                pos + 1 + nl + 13,
                file,
                use_grf,
            ) is Some {
                let ops = spec_legacy_ops(t, pos, file, use_grf).unwrap();
                let rest = spec_legacy_ops(t, pos + 1 + nl + 13, file, use_grf).unwrap();
                assert forall|i: int| 0 <= i < ops.len() implies op_routed(
                    #[trigger] ops[i],
                    use_grf,
                ) by {
                    if flags == 1 || flags == 5 {
                        assert(ops.len() == rest.len() + 1);
                        if i > 0 {
                            assert(ops[i] == rest[i - 1]);
                        } else {
                            assert(op_routed(ops[0], use_grf));
                        }
                    } else {
                        assert(ops == rest);
                    }
                }
            }
        }
    }
}

/// One action that followed the routing rule: an upsert's disposition is the
/// rule's verdict on its path, and paths carry no backslash.
pub open spec fn op_routed(op: ApplyOpModel, use_grf: bool) -> bool {
    match op {
        ApplyOpModel::Upsert { path, data, disposition } => disposition == spec_disposition(
            path,
            use_grf,
        ) && path == spec_normalize(path),
        ApplyOpModel::Delete { path } => path == spec_normalize(path),
    }
}

/// A whole action list that followed the routing rule.
pub open spec fn ops_routed(ops: Seq<ApplyOpModel>, use_grf: bool) -> bool {
    forall|i: int| 0 <= i < ops.len() ==> op_routed(#[trigger] ops[i], use_grf)
}

/// Normalizing is idempotent.
pub proof fn lemma_normalize_idempotent(p: Seq<u8>)
    ensures
        spec_normalize(spec_normalize(p)) == spec_normalize(p),
{
    assert(spec_normalize(spec_normalize(p)) =~= spec_normalize(p));
}

/// Parses a legacy package into its actions.
///
/// Fails with `UnknownPackageFormat` exactly when the magic is not `ASSF`;
/// with `UnsupportedPackageMode` exactly when the magic holds but the mode is
/// not `0x30`; and with `PackageCorrupt` exactly when the header, the table
/// or a payload lies outside the package or the table is not a zlib stream.
#[verifier::loop_isolation(false)]
pub fn parse_legacy_package(data: &Vec<u8>, use_grf: bool) -> (r: Result<Vec<ApplyOp>, ThorError>)
    ensures
        r matches Err(ThorError::UnknownPackageFormat) <==> spec_sniff(data@)
            != PackageFormat::Legacy,
        r matches Err(ThorError::UnsupportedPackageMode(m)) ==> spec_sniff(data@)
            == PackageFormat::Legacy && data@.len() >= 35 && legacy_mode(data@) == m && m != 0x30,
        spec_sniff(data@) == PackageFormat::Legacy && data@.len() >= 35 && legacy_mode(data@)
            != 0x30 ==> (r matches Err(ThorError::UnsupportedPackageMode(m)) && m == legacy_mode(
            data@,
        )),
        r is Ok <==> spec_legacy_package(data@, use_grf) is Some,
        r matches Ok(ops) ==> (Some(op_models(ops@)) == spec_legacy_package(data@, use_grf)
            && ops_routed(op_models(ops@), use_grf)),
{
    let ghost s = data@;
    let n = data.len();
    if !(n >= 4 && data[0] == 65 && data[1] == 83 && data[2] == 83 && data[3] == 70) {
        return Err(ThorError::UnknownPackageFormat);
    }
    if n < 35 {
        return Err(ThorError::PackageCorrupt(String::from_str("short header")));
    }
    let mode = read_u16_at(data.as_slice(), 0x1d);
    if mode != 0x30 {
        return Err(ThorError::UnsupportedPackageMode(mode));
    }
    let nl = data[0x1f] as usize;
    if nl + 8 > n - 0x20 {
        return Err(ThorError::PackageCorrupt(String::from_str("short header")));
    }
    let cl = read_u32_at(data.as_slice(), 0x20 + nl) as usize;
    let off = read_u32_at(data.as_slice(), 0x20 + nl + 4) as usize;
    if off > n || cl > n - off {
        return Err(ThorError::PackageCorrupt(String::from_str("short table")));
    }
    let table = match zlib_decompress(slice_subrange(data.as_slice(), off, off + cl)) {
        Some(t) => t,
        None => {
            return Err(ThorError::PackageCorrupt(String::from_str("table decompress")));
        },
    };
    let ghost t = table@;
    proof {
        assert(spec_legacy_package(s, use_grf) == spec_legacy_ops(t, 0, s, use_grf));
        lemma_legacy_ops_disposition(t, 0, s, use_grf);
    }
    let mut out: Vec<ApplyOp> = Vec::new();
    let mut pos: usize = 0;
    let tn = table.len();
    proof {
        assert(op_models(out@) =~= Seq::<ApplyOpModel>::empty());
        assert(opt_prepend(op_models(out@), spec_legacy_ops(t, 0, s, use_grf)) == spec_legacy_ops(
            t,
            0,
            s,
            use_grf,
        ));
    }
    while pos < tn
        invariant
            pos <= tn,
            opt_prepend(op_models(out@), spec_legacy_ops(t, pos as int, s, use_grf))
                == spec_legacy_ops(t, 0, s, use_grf),
        decreases tn - pos,
    {
        let nl2 = table[pos] as usize;
        if nl2 + 14 > tn - pos {
            proof {
                assert(spec_legacy_ops(t, pos as int, s, use_grf) == Some(
                    Seq::<ApplyOpModel>::empty(),
                ));
                assert(op_models(out@) + Seq::<ApplyOpModel>::empty() =~= op_models(out@));
            }
            return Ok(out);
        }
        let name = slice_to_vec(slice_subrange(table.as_slice(), pos + 1, pos + 1 + nl2));
        let p = pos + 1 + nl2;
        let flags = table[p];
        let off2 = read_u32_at(table.as_slice(), p + 1) as usize;
        let csz = read_u32_at(table.as_slice(), p + 5) as usize;
        let next = p + 13;
        let ghost pre = op_models(out@);
        if flags == 1 {
            if off2 > n || csz > n - off2 {
                proof {
                    assert(spec_legacy_ops(t, pos as int, s, use_grf) is None);
                }
                return Err(ThorError::PackageCorrupt(String::from_str("short payload")));
            }
            let raw = slice_to_vec(slice_subrange(data.as_slice(), off2, off2 + csz));
            let payload = match zlib_decompress(raw.as_slice()) {
                Some(d) => d,
                None => raw,
            };
            let norm = normalize_path(name.as_slice());
            let disposition = disposition_for(&norm, use_grf);
            let op = ApplyOp::Upsert { path: norm, data: payload, disposition };
            out.push(op);
            proof {
                assert(op_models(out@) =~= pre.push(op_models(out@).last()));
            }
        } else if flags == 5 {
            let norm = normalize_path(name.as_slice());
            out.push(ApplyOp::Delete { path: norm });
            proof {
                assert(op_models(out@) =~= pre.push(op_models(out@).last()));
            }
        }
        proof {
            if spec_legacy_ops(t, next as int, s, use_grf) is Some {
                let rest = spec_legacy_ops(t, next as int, s, use_grf).unwrap();
                if op_models(out@).len() == pre.len() + 1 {
                    assert(pre.push(op_models(out@).last()) + rest =~= pre + (seq![
                        op_models(out@).last(),
                    ] + rest));
                }
            }
        }
        pos = next;
    }
    proof {
        assert(spec_legacy_ops(t, pos as int, s, use_grf) == Some(Seq::<ApplyOpModel>::empty()));
        assert(op_models(out@) + Seq::<ApplyOpModel>::empty() =~= op_models(out@));
    }
    Ok(out)
}

/// `rest` put behind `a`, unless `rest` is broken.
pub open spec fn opt_prepend(a: Seq<ApplyOpModel>, rest: Option<Seq<ApplyOpModel>>) -> Option<
    Seq<ApplyOpModel>,
> {
    match rest {
        None => None,
        Some(x) => Some(a + x),
    }
}


/// The container-destined payloads of an action list, in order.
pub open spec fn spec_container_files(ops: Seq<ApplyOpModel>) -> Seq<(Seq<u8>, Seq<u8>)>
    decreases ops.len(),
{
    if ops.len() == 0 {
        Seq::empty()
    } else {
        let rest = spec_container_files(ops.skip(1));
        match ops[0] {
            ApplyOpModel::Upsert { path, data, disposition } => {
                if disposition == Disposition::InsideContainer {
                    seq![(path, data)] + rest
                } else {
                    rest
                }
            },
            ApplyOpModel::Delete { .. } => rest,
        }
    }
}

/// The filesystem-destined payloads of an action list, in order.
pub open spec fn spec_disk_files(ops: Seq<ApplyOpModel>) -> Seq<(Seq<u8>, Seq<u8>)>
    decreases ops.len(),
{
    if ops.len() == 0 {
        Seq::empty()
    } else {
        let rest = spec_disk_files(ops.skip(1));
        match ops[0] {
            ApplyOpModel::Upsert { path, data, disposition } => {
                if disposition == Disposition::OnFilesystem {
                    seq![(path, data)] + rest
                } else {
                    rest
                }
            },
            ApplyOpModel::Delete { .. } => rest,
        }
    }
}

/// The deletion paths of an action list, in order.
pub open spec fn spec_deletions(ops: Seq<ApplyOpModel>) -> Seq<Seq<u8>>
    decreases ops.len(),
{
    if ops.len() == 0 {
        Seq::empty()
    } else {
        let rest = spec_deletions(ops.skip(1));
        match ops[0] {
            ApplyOpModel::Upsert { .. } => rest,
            ApplyOpModel::Delete { path } => seq![path] + rest,
        }
    }
}

/// Splits actions into container payloads, loose-file payloads and
/// deletions, each in action order.
#[verifier::loop_isolation(false)]
pub fn split_ops(ops: Vec<ApplyOp>) -> (r: (Vec<(Vec<u8>, Vec<u8>)>, Vec<(Vec<u8>, Vec<u8>)>, Vec<
    Vec<u8>,
>))
    ensures
        file_models(r.0@) == spec_container_files(op_models(ops@)),
        file_models(r.1@) == spec_disk_files(op_models(ops@)),
        del_models(r.2@) == spec_deletions(op_models(ops@)),
{
    let ghost om = op_models(ops@);
    let mut grf: Vec<(Vec<u8>, Vec<u8>)> = Vec::new();
    let mut disk: Vec<(Vec<u8>, Vec<u8>)> = Vec::new();
    let mut dels: Vec<Vec<u8>> = Vec::new();
    let mut ops = ops;
    let n = ops.len();
    let mut i: usize = 0;
    proof {
        assert(om.skip(0) =~= om);
        assert(file_models(grf@) + spec_container_files(om.skip(0)) =~= spec_container_files(om));
        assert(file_models(disk@) + spec_disk_files(om.skip(0)) =~= spec_disk_files(om));
        assert(del_models(dels@) + spec_deletions(om.skip(0)) =~= spec_deletions(om));
    }
    while i < n
        invariant
            i <= n,
            n == ops@.len(),
            om.len() == n,
            forall|j: int| i <= j < n ==> op_models(ops@)[j] == om[j],
            file_models(grf@) + spec_container_files(om.skip(i as int)) == spec_container_files(
                om,
            ),
            file_models(disk@) + spec_disk_files(om.skip(i as int)) == spec_disk_files(om),
            del_models(dels@) + spec_deletions(om.skip(i as int)) == spec_deletions(om),
        decreases n - i,
    {
        let ghost rem = om.skip(i as int);
        proof {
            assert(rem[0] == om[i as int]);
            assert(om[i as int] == op_models(ops@)[i as int]);
            assert(om.skip(i + 1 as int) =~= rem.skip(1));
        }
        let ghost g0 = file_models(grf@);
        let ghost d0 = file_models(disk@);
        let ghost x0 = del_models(dels@);
        let op = take_op(&mut ops, i);
        match op {
            ApplyOp::Upsert { path, data, disposition } => {
                match disposition {
                    Disposition::InsideContainer => {
                        grf.push((path, data));
                        proof {
                            assert(file_models(grf@) =~= g0.push(file_models(grf@).last()));
                            assert(g0.push(file_models(grf@).last()) + spec_container_files(
                                rem.skip(1),
                            ) =~= g0 + (seq![file_models(grf@).last()] + spec_container_files(
                                rem.skip(1),
                            )));
                        }
                    },
                    Disposition::OnFilesystem => {
                        disk.push((path, data));
                        proof {
                            assert(file_models(disk@) =~= d0.push(file_models(disk@).last()));
                            assert(d0.push(file_models(disk@).last()) + spec_disk_files(
                                rem.skip(1),
                            ) =~= d0 + (seq![file_models(disk@).last()] + spec_disk_files(
                                rem.skip(1),
                            )));
                        }
                    },
                }
            },
            ApplyOp::Delete { path } => {
                dels.push(path);
                proof {
                    assert(del_models(dels@) =~= x0.push(del_models(dels@).last()));
                    assert(x0.push(del_models(dels@).last()) + spec_deletions(rem.skip(1)) =~= x0
                        + (seq![del_models(dels@).last()] + spec_deletions(rem.skip(1))));
                }
            },
        }
        i = i + 1;
    }
    proof {
        assert(om.skip(n as int) =~= Seq::<ApplyOpModel>::empty());
        assert(file_models(grf@) + spec_container_files(om.skip(n as int)) =~= file_models(grf@));
        assert(file_models(disk@) + spec_disk_files(om.skip(n as int)) =~= file_models(disk@));
        assert(del_models(dels@) + spec_deletions(om.skip(n as int)) =~= del_models(dels@));
    }
    (grf, disk, dels)
}

/// Moves the action at `i` out of the list, leaving a placeholder.
fn take_op(ops: &mut Vec<ApplyOp>, i: usize) -> (r: ApplyOp)
    requires
        i < old(ops)@.len(),
    ensures
        r == old(ops)@[i as int],
        final(ops)@.len() == old(ops)@.len(),
        forall|j: int| 0 <= j < old(ops)@.len() && j != i ==> final(ops)@[j] == old(ops)@[j],
{
    let mut slot = ApplyOp::Delete { path: Vec::new() };
    ops.set_and_swap(i, &mut slot);
    slot
}

/// Merges container-destined payloads and deletions into a container image:
/// parse its header and table, then quick-merge. On success the image parses
/// back to the merged table; on failure it is untouched.
pub fn merge_into_container(
    container: &mut Vec<u8>,
    new_files: &Vec<(Vec<u8>, Vec<u8>)>,
    deletions: &Vec<Vec<u8>>,
) -> (r: Result<(), GrfError>)
    ensures
        r is Err ==> final(container)@ == old(container)@,
        r is Ok <==> ({
            let h = spec_read_header(old(container)@);
            &&& h is Some
            &&& spec_read_table(old(container)@, h.unwrap()) is Some
            &&& merge_fits(
                old(container)@,
                spec_build_list(spec_read_table(old(container)@, h.unwrap()).unwrap()),
                file_models(new_files@),
                del_models(deletions@),
            )
        }),
        ({
            let h = spec_read_header(old(container)@);
            &&& h is Some
            &&& spec_read_table(old(container)@, h.unwrap()) is Some
            &&& merge_fits_plain(
                old(container)@,
                spec_build_list(spec_read_table(old(container)@, h.unwrap()).unwrap()),
                file_models(new_files@),
                del_models(deletions@),
            )
        }) ==> r is Ok,
        r is Ok ==> ({
            let h0 = spec_read_header(old(container)@).unwrap();
            let parsed = spec_read_table(old(container)@, h0).unwrap();
            let base = old(container)@.len() as int;
            let fs = file_models(new_files@);
            let ds = del_models(deletions@);
            let lst = merged_list(spec_build_list(parsed), base, fs, ds);
            let hm = merged_header(h0, base, payload_blob(fs).len() as int, lst.len() as int);
            &&& spec_read_header(final(container)@) == Some(hm)
            &&& spec_read_table(final(container)@, hm) == Some(lst)
            &&& forall|j: int|
                0 <= j < fs.len() ==> final(container)@.subrange(
                    base + #[trigger] payload_prefix(fs, j),
                    base + payload_prefix(fs, j) + fs[j].1.len(),
                ) == fs[j].1
        }),
{
    let reader = GrfReader::new(slice_to_vec(container.as_slice()));
    let header = match reader.read_header() {
        Ok(h) => h,
        Err(e) => {
            return Err(e);
        },
    };
    let mut table = match reader.read_file_table(&header) {
        Ok(t) => t,
        Err(e) => {
            return Err(e);
        },
    };
    let writer = GrfWriter::new();
    writer.quick_merge(container, &header, &mut table, new_files, deletions)
}


/// Parses a patch package, sniffing its format from the first four bytes:
/// the legacy magic dispatches to the legacy parser, a ZIP local-file header
/// to the ZIP parser, and anything else is an unknown format. Every action
/// of a parsed package follows the disposition rule on its normalized path.
pub fn parse_package(data: Vec<u8>, use_grf: bool) -> (r: Result<Vec<ApplyOp>, ThorError>)
    ensures
        r matches Err(ThorError::UnknownPackageFormat) <==> spec_sniff(data@)
            == PackageFormat::Unknown,
        spec_sniff(data@) == PackageFormat::Legacy ==> ({
            &&& r is Ok <==> spec_legacy_package(data@, use_grf) is Some
            &&& (r matches Ok(ops) ==> Some(op_models(ops@)) == spec_legacy_package(
                data@,
                use_grf,
            ))
            &&& (data@.len() >= 35 && legacy_mode(data@) != 0x30 ==> (r matches Err(
                ThorError::UnsupportedPackageMode(m),
            ) && m == legacy_mode(data@)))
        }),
        spec_sniff(data@) == PackageFormat::Zip ==> ({
            &&& (r matches Err(e) ==> e is PackageCorrupt)
            &&& (crate::zip_pkg::zip_parse_raw(data@) is None ==> r is Err)
            &&& ((crate::zip_pkg::zip_parse_raw(data@) matches Some(rs)
                && crate::zip_pkg::zip_raw_ok(data@) && crate::zip_pkg::decode_all(rs) is Some)
                ==> r is Ok)
            &&& (r matches Ok(ops) ==> (crate::zip_pkg::zip_parse_raw(data@) matches Some(rs)
                && crate::zip_pkg::decode_all(rs) matches Some(ds) && op_models(ops@)
                == crate::zip_pkg::spec_route(ds, use_grf)))
        }),
        r matches Ok(ops) ==> ops_routed(op_models(ops@), use_grf),
{
    match sniff_package_format(&data) {
        PackageFormat::Legacy => parse_legacy_package(&data, use_grf),
        PackageFormat::Zip => crate::zip_pkg::parse_zip_package(data, use_grf),
        PackageFormat::Unknown => Err(ThorError::UnknownPackageFormat),
    }
}

} // verus!
