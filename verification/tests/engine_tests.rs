//! Whole-cycle scenarios driven by an in-memory host: the manifest body, the
//! packages and the install tree are all plain values.

use grf_patcher::engine::{status_checking, status_ready, UpdateCycle};
use grf_patcher::grf::reader::GrfReader;
use grf_patcher::grf::types::GRF_HEADER_SIZE;
use grf_patcher::grf::writer::GrfWriter;
use grf_patcher::patch_list::{manifest_from_response, LocalCache};
use grf_patcher::thor::{merge_into_container, parse_package, split_ops};
use std::io::Write;

/// The install tree, in memory: loose files and the optional container image.
struct Tree {
    loose: Vec<(Vec<u8>, Vec<u8>)>,
    container: Option<Vec<u8>>,
}

impl Tree {
    fn loose_file(&self, path: &[u8]) -> Option<&Vec<u8>> {
        self.loose.iter().rev().find(|(p, _)| p == path).map(|(_, d)| d)
    }
}

/// One update cycle against in-memory packages; returns the emitted status
/// labels, the tree and the cache.
fn run_cycle(
    manifest_body: &str,
    mut tree: Tree,
    cache: LocalCache,
    packages: &[(&str, Vec<u8>)],
) -> (Vec<String>, Tree, LocalCache) {
    let mut statuses = Vec::new();
    statuses.push(status_checking().status);
    let manifest = manifest_from_response(200, manifest_body).unwrap();
    let mut cycle = UpdateCycle::begin(manifest, cache);
    while !cycle.is_done() {
        statuses.push(cycle.downloading_status().status);
        let filename = cycle.current().filename.clone();
        let bytes = packages
            .iter()
            .find(|(n, _)| *n == filename)
            .map(|(_, b)| b.clone())
            .expect("the cycle asked for a package the server does not have");
        statuses.push(cycle.patching_status().status);
        let use_grf = tree.container.is_some();
        let ops = parse_package(bytes, use_grf).unwrap();
        let (grf_files, disk_files, deletions) = split_ops(ops);
        for (path, data) in disk_files {
            tree.loose.push((path, data));
        }
        if !grf_files.is_empty() || !deletions.is_empty() {
            if let Some(container) = tree.container.as_mut() {
                merge_into_container(container, &grf_files, &deletions).unwrap();
            }
        }
        cycle.complete_current();
    }
    statuses.push(status_ready().status);
    (statuses, tree, cycle.cache)
}

fn zip_package(entries: &[(&str, &[u8])]) -> Vec<u8> {
    let cursor = std::io::Cursor::new(Vec::new());
    let mut w = zip::write::ZipWriter::new(cursor);
    for (name, data) in entries {
        w.start_file(*name, zip::write::FileOptions::default()).unwrap();
        w.write_all(data).unwrap();
    }
    w.finish().unwrap().into_inner()
}

#[test]
fn empty_manifest_goes_straight_to_ready() {
    let tree = Tree { loose: Vec::new(), container: None };
    let (statuses, tree, cache) = run_cycle("", tree, LocalCache::default(), &[]);
    assert_eq!(statuses, vec!["checking", "ready"]);
    assert!(tree.loose.is_empty());
    assert_eq!(cache.last_patch_id, 0);
    assert!(cache.installed_patches.is_empty());
}

#[test]
fn single_zip_patch_without_container() {
    let tree = Tree { loose: Vec::new(), container: None };
    let p0 = zip_package(&[("readme.txt", b"hello")]);
    let (statuses, tree, cache) =
        run_cycle("0 p0.zip", tree, LocalCache::default(), &[("p0.zip", p0)]);
    assert_eq!(statuses, vec!["checking", "downloading", "patching", "ready"]);
    assert_eq!(tree.loose_file(b"readme.txt").unwrap(), &b"hello".to_vec());
    assert_eq!(cache.installed_patches, vec![0]);
}

#[test]
fn single_zip_patch_with_container() {
    let container = GrfWriter::new().create_container().unwrap();
    let tree = Tree { loose: Vec::new(), container: Some(container) };
    let payload: Vec<u8> = (0..32u8).map(|i| i.wrapping_mul(37).wrapping_add(11)).collect();
    let p0 = zip_package(&[("data/new.gat", &payload)]);
    let (_, tree, cache) = run_cycle("0 p0.zip", tree, LocalCache::default(), &[("p0.zip", p0)]);
    assert_eq!(cache.installed_patches, vec![0]);
    let c = tree.container.unwrap();
    let reader = GrfReader::new(c.clone());
    let header = reader.read_header().unwrap();
    let table = reader.read_file_table(&header).unwrap();
    let e = table.get(&b"data/new.gat".to_vec()).unwrap();
    assert_eq!(e.real_size, 32);
    let start = e.offset as usize + GRF_HEADER_SIZE;
    assert_eq!(&c[start..start + 32], payload.as_slice());
}

#[test]
fn out_of_order_manifest_applies_ascending() {
    let tree = Tree { loose: Vec::new(), container: None };
    let a = zip_package(&[("a.txt", b"a")]);
    let b = zip_package(&[("b.txt", b"b")]);
    let (_, tree, cache) = run_cycle(
        "1 b.zip\n0 a.zip",
        tree,
        LocalCache::default(),
        &[("a.zip", a), ("b.zip", b)],
    );
    // a.zip applied before b.zip
    assert_eq!(tree.loose[0].0, b"a.txt".to_vec());
    assert_eq!(tree.loose[1].0, b"b.txt".to_vec());
    assert_eq!(cache.last_patch_id, 1);
    let mut installed = cache.installed_patches.clone();
    installed.sort();
    assert_eq!(installed, vec![0, 1]);
}

#[test]
fn resume_skips_recorded_patches() {
    let tree = Tree { loose: Vec::new(), container: None };
    let b = zip_package(&[("b.txt", b"b")]);
    let mut cache = LocalCache::default();
    cache.installed_patches.push(0);
    // only b.zip is served: a download of a.zip would panic the host
    let (_, tree, cache) = run_cycle("0 a.zip\n1 b.zip", tree, cache, &[("b.zip", b)]);
    assert_eq!(tree.loose.len(), 1);
    assert_eq!(tree.loose[0].0, b"b.txt".to_vec());
    assert_eq!(cache.last_patch_id, 1);
}

#[test]
fn legacy_patch_updates_the_container() {
    // mode 0x30, one stored file under data/ and one deletion
    let container = {
        let mut c = GrfWriter::new().create_container().unwrap();
        let reader = GrfReader::new(c.clone());
        let header = reader.read_header().unwrap();
        let mut table = reader.read_file_table(&header).unwrap();
        GrfWriter::new()
            .quick_merge(
                &mut c,
                &header,
                &mut table,
                &vec![(b"data/old.bmp".to_vec(), b"stale".to_vec())],
                &vec![],
            )
            .unwrap();
        c
    };
    let tree = Tree { loose: Vec::new(), container: Some(container) };

    let mut pkg = Vec::new();
    pkg.extend_from_slice(b"ASSF (C) 2007 Aeomin DEV");
    pkg.extend_from_slice(&[0u8; 5]);
    pkg.extend_from_slice(&0x30u16.to_le_bytes());
    pkg.push(8u8);
    pkg.extend_from_slice(b"data.grf");
    let lengths_at = pkg.len();
    pkg.extend_from_slice(&[0u8; 8]);
    let payload = b"fresh bitmap";
    let mut enc = flate2::write::ZlibEncoder::new(Vec::new(), flate2::Compression::default());
    enc.write_all(payload).unwrap();
    let packed = enc.finish().unwrap();
    let payload_at = pkg.len() as u32;
    pkg.extend_from_slice(&packed);
    let mut table = Vec::new();
    table.push(12u8);
    table.extend_from_slice(b"data\\foo.bmp");
    table.push(1u8);
    table.extend_from_slice(&payload_at.to_le_bytes());
    table.extend_from_slice(&(packed.len() as u32).to_le_bytes());
    table.extend_from_slice(&(payload.len() as u32).to_le_bytes());
    table.push(12u8);
    table.extend_from_slice(b"data\\old.bmp");
    table.push(5u8);
    table.extend_from_slice(&[0u8; 12]);
    let mut enc = flate2::write::ZlibEncoder::new(Vec::new(), flate2::Compression::default());
    enc.write_all(&table).unwrap();
    let packed_table = enc.finish().unwrap();
    let table_offset = pkg.len() as u32;
    pkg.extend_from_slice(&packed_table);
    pkg[lengths_at..lengths_at + 4].copy_from_slice(&(packed_table.len() as u32).to_le_bytes());
    pkg[lengths_at + 4..lengths_at + 8].copy_from_slice(&table_offset.to_le_bytes());

    let (_, tree, cache) =
        run_cycle("0 p.thor", tree, LocalCache::default(), &[("p.thor", pkg)]);
    assert_eq!(cache.installed_patches, vec![0]);
    let c = tree.container.unwrap();
    let reader = GrfReader::new(c.clone());
    let header = reader.read_header().unwrap();
    let table = reader.read_file_table(&header).unwrap();
    let e = table.get(&b"DATA/FOO.BMP".to_vec()).unwrap();
    assert_eq!(e.filename, b"data/foo.bmp".to_vec());
    let start = e.offset as usize + GRF_HEADER_SIZE;
    assert_eq!(&c[start..start + payload.len()], payload.as_slice());
    assert!(table.get(&b"data/old.bmp".to_vec()).is_none());
}
