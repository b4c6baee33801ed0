use grf_patcher::thor::{
    parse_legacy_package, parse_package, sniff_package_format, split_ops, ApplyOp, Disposition,
    PackageFormat, ThorError,
};
use grf_patcher::zip_pkg::validate_zip_package;
use std::io::Write;

/// A legacy package: 24-byte magic, mode, target name, then a compressed
/// entry table and the payloads it points at.
fn legacy_package(mode: u16, entries: &[(&[u8], u8, &[u8])]) -> Vec<u8> {
    let target = b"data.grf";
    let mut pkg = Vec::new();
    pkg.extend_from_slice(b"ASSF (C) 2007 Aeomin DEV");  // 0x00..0x18
    pkg.extend_from_slice(&[0u8; 5]);                    // 0x18..0x1D
    pkg.extend_from_slice(&mode.to_le_bytes());          // 0x1D..0x1F
    pkg.push(target.len() as u8);                        // 0x1F
    pkg.extend_from_slice(target);                       // 0x20..
    let lengths_at = pkg.len();
    pkg.extend_from_slice(&[0u8; 8]);                    // table length and offset, patched below

    // payloads, stored zlib-compressed; remember their positions
    let mut placed = Vec::new();
    for (_, flags, payload) in entries {
        if *flags == 1 {
            let mut enc =
                flate2::write::ZlibEncoder::new(Vec::new(), flate2::Compression::default());
            enc.write_all(payload).unwrap();
            let packed = enc.finish().unwrap();
            placed.push((pkg.len() as u32, packed.len() as u32));
            pkg.extend_from_slice(&packed);
        } else {
            placed.push((0, 0));
        }
    }

    let mut table = Vec::new();
    for (i, (name, flags, payload)) in entries.iter().enumerate() {
        table.push(name.len() as u8);
        table.extend_from_slice(name);
        table.push(*flags);
        table.extend_from_slice(&placed[i].0.to_le_bytes());
        table.extend_from_slice(&placed[i].1.to_le_bytes());
        table.extend_from_slice(&(payload.len() as u32).to_le_bytes());
    }
    let mut enc = flate2::write::ZlibEncoder::new(Vec::new(), flate2::Compression::default());
    enc.write_all(&table).unwrap();
    let packed_table = enc.finish().unwrap();

    let table_offset = pkg.len() as u32;
    pkg.extend_from_slice(&packed_table);
    pkg[lengths_at..lengths_at + 4].copy_from_slice(&(packed_table.len() as u32).to_le_bytes());
    pkg[lengths_at + 4..lengths_at + 8].copy_from_slice(&table_offset.to_le_bytes());
    pkg
}

fn zip_package(entries: &[(&str, &[u8])]) -> Vec<u8> {
    let cursor = std::io::Cursor::new(Vec::new());
    let mut w = zip::write::ZipWriter::new(cursor);
    for (name, data) in entries {
        w.start_file(*name, zip::write::FileOptions::default()).unwrap();
        w.write_all(data).unwrap();
    }
    w.finish().unwrap().into_inner()
}

#[test]
fn sniffs_formats() {
    assert_eq!(
        sniff_package_format(&b"ASSFxxxx".to_vec()),
        PackageFormat::Legacy
    );
    assert_eq!(
        sniff_package_format(&zip_package(&[("a", b"x")])),
        PackageFormat::Zip
    );
    assert_eq!(
        sniff_package_format(&b"GIF89a".to_vec()),
        PackageFormat::Unknown
    );
}

#[test]
fn unknown_magic_is_unknown_package_format() {
    let e = parse_package(b"NOPE not a package".to_vec(), true).unwrap_err();
    assert!(matches!(e, ThorError::UnknownPackageFormat));
}

#[test]
fn unsupported_mode_is_reported_with_its_value() {
    let pkg = legacy_package(0x21, &[]);
    let e = parse_package(pkg, true).unwrap_err();
    assert!(matches!(e, ThorError::UnsupportedPackageMode(0x21)));
}

#[test]
fn legacy_upsert_and_delete() {
    let pkg = legacy_package(
        0x30,
        &[
            (b"data\\foo.bmp", 1, b"bitmap bytes"),
            (b"data\\old.bmp", 5, b""),
        ],
    );
    let ops = parse_legacy_package(&pkg, true).unwrap();
    assert_eq!(ops.len(), 2);
    match &ops[0] {
        ApplyOp::Upsert { path, data, disposition } => {
            assert_eq!(path, &b"data/foo.bmp".to_vec());
            assert_eq!(data, &b"bitmap bytes".to_vec());
            assert_eq!(*disposition, Disposition::InsideContainer);
        }
        _ => panic!("expected an upsert"),
    }
    match &ops[1] {
        ApplyOp::Delete { path } => assert_eq!(path, &b"data/old.bmp".to_vec()),
        _ => panic!("expected a delete"),
    }
}

#[test]
fn legacy_stored_payload_raw_fallback() {
    // a payload that is not a zlib stream is taken verbatim
    let mut pkg = legacy_package(0x30, &[]);
    // rebuild with a raw payload spliced in by hand
    let raw = b"raw stored bytes";
    let payload_at = pkg.len() as u32;
    pkg.extend_from_slice(raw);
    let mut table = Vec::new();
    table.push(9u8);
    table.extend_from_slice(b"plain.txt");
    table.push(1u8);
    table.extend_from_slice(&payload_at.to_le_bytes());
    table.extend_from_slice(&(raw.len() as u32).to_le_bytes());
    table.extend_from_slice(&(raw.len() as u32).to_le_bytes());
    let mut enc = flate2::write::ZlibEncoder::new(Vec::new(), flate2::Compression::default());
    enc.write_all(&table).unwrap();
    let packed_table = enc.finish().unwrap();
    let table_offset = pkg.len() as u32;
    pkg.extend_from_slice(&packed_table);
    let name_len = pkg[0x1f] as usize;
    let lengths_at = 0x20 + name_len;
    pkg[lengths_at..lengths_at + 4].copy_from_slice(&(packed_table.len() as u32).to_le_bytes());
    pkg[lengths_at + 4..lengths_at + 8].copy_from_slice(&table_offset.to_le_bytes());

    let ops = parse_legacy_package(&pkg, true).unwrap();
    assert_eq!(ops.len(), 1);
    match &ops[0] {
        ApplyOp::Upsert { path, data, disposition } => {
            assert_eq!(path, &b"plain.txt".to_vec());
            assert_eq!(data, &raw.to_vec());
            assert_eq!(*disposition, Disposition::OnFilesystem);
        }
        _ => panic!("expected an upsert"),
    }
}

#[test]
fn truncated_legacy_table_is_corrupt() {
    let mut pkg = legacy_package(0x30, &[(b"a.txt", 1, b"x")]);
    let n = pkg.len();
    pkg.truncate(n - 3);
    let e = parse_legacy_package(&pkg, true).unwrap_err();
    assert!(matches!(e, ThorError::PackageCorrupt(_)));
}

#[test]
fn zip_entries_become_upserts() {
    let pkg = zip_package(&[("readme.txt", b"hello"), ("data/new.gat", b"ground")]);
    let ops = parse_package(pkg, true).unwrap();
    assert_eq!(ops.len(), 2);
    match &ops[0] {
        ApplyOp::Upsert { path, data, disposition } => {
            assert_eq!(path, &b"readme.txt".to_vec());
            assert_eq!(data, &b"hello".to_vec());
            assert_eq!(*disposition, Disposition::OnFilesystem);
        }
        _ => panic!("expected an upsert"),
    }
    match &ops[1] {
        ApplyOp::Upsert { path, disposition, .. } => {
            assert_eq!(path, &b"data/new.gat".to_vec());
            assert_eq!(*disposition, Disposition::InsideContainer);
        }
        _ => panic!("expected an upsert"),
    }
}

#[test]
fn without_container_everything_goes_to_disk() {
    let pkg = zip_package(&[("data/inside.txt", b"x"), ("top.txt", b"y")]);
    let ops = parse_package(pkg, false).unwrap();
    for op in &ops {
        match op {
            ApplyOp::Upsert { disposition, .. } => {
                assert_eq!(*disposition, Disposition::OnFilesystem)
            }
            _ => panic!("expected an upsert"),
        }
    }
}

#[test]
fn split_routes_by_disposition() {
    let pkg = legacy_package(
        0x30,
        &[
            (b"data/in.txt", 1, b"in"),
            (b"loose/out.txt", 1, b"out"),
            (b"data/gone.txt", 5, b""),
        ],
    );
    let ops = parse_package(pkg, true).unwrap();
    let (grf, disk, dels) = split_ops(ops);
    assert_eq!(grf, vec![(b"data/in.txt".to_vec(), b"in".to_vec())]);
    assert_eq!(disk, vec![(b"loose/out.txt".to_vec(), b"out".to_vec())]);
    assert_eq!(dels, vec![b"data/gone.txt".to_vec()]);
}

#[test]
fn validates_zip_packages() {
    assert!(validate_zip_package(zip_package(&[("a", b"x")])).unwrap());
    assert!(validate_zip_package(b"junk".to_vec()).is_err());
    assert!(validate_zip_package(zip_package(&[])).is_err());
}
