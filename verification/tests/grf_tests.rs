use grf_patcher::grf::reader::GrfReader;
use grf_patcher::grf::types::{GrfError, GRF_HEADER_SIZE, GRF_SIGNATURE};
use grf_patcher::grf::writer::GrfWriter;
fn fresh_container() -> Vec<u8> {
    GrfWriter::new().create_container().unwrap()
}

fn merge(
    container: &mut Vec<u8>,
    files: Vec<(Vec<u8>, Vec<u8>)>,
    deletions: Vec<Vec<u8>>,
) {
    let reader = GrfReader::new(container.clone());
    let header = reader.read_header().unwrap();
    let mut table = reader.read_file_table(&header).unwrap();
    GrfWriter::new()
        .quick_merge(container, &header, &mut table, &files, &deletions)
        .unwrap();
}

#[test]
fn corrupt_table_bytes_are_archive_corrupt() {
    let mut c = fresh_container();
    // scramble the compressed table behind its two length fields
    let n = c.len();
    for b in &mut c[GRF_HEADER_SIZE + 8..n] {
        *b ^= 0x5A;
    }
    let reader = GrfReader::new(c);
    let header = reader.read_header().unwrap();
    let e = reader.read_file_table(&header).unwrap_err();
    assert!(matches!(e, GrfError::ArchiveCorrupt(_)));
}

#[test]
fn fresh_container_parses_empty() {
    let c = fresh_container();
    let reader = GrfReader::new(c);
    let header = reader.read_header().unwrap();
    assert_eq!(header.signature, GRF_SIGNATURE);
    assert_eq!(header.real_file_count, 0);
    assert_eq!(header.version, 0x200);
    let table = reader.read_file_table(&header).unwrap();
    assert_eq!(table.len(), 0);
}

#[test]
fn bad_signature_is_archive_corrupt() {
    let mut c = fresh_container();
    c[0] = b'X';
    let e = GrfReader::new(c).read_header().unwrap_err();
    assert!(matches!(e, GrfError::ArchiveCorrupt(_)));
}

#[test]
fn short_image_is_archive_corrupt() {
    let e = GrfReader::new(vec![0u8; 10]).read_header().unwrap_err();
    assert!(matches!(e, GrfError::ArchiveCorrupt(_)));
}

#[test]
fn negative_count_is_archive_corrupt() {
    let mut c = fresh_container();
    // raw count at bytes 42..46; raw - seed - 7 must not be negative
    c[42] = 0;
    c[43] = 0;
    c[44] = 0;
    c[45] = 0;
    let e = GrfReader::new(c).read_header().unwrap_err();
    assert!(matches!(e, GrfError::ArchiveCorrupt(_)));
}

#[test]
fn merge_then_read_back_round_trips() {
    let mut c = fresh_container();
    let payload_a = b"alpha payload".to_vec();
    let payload_b = vec![7u8; 300];
    merge(
        &mut c,
        vec![
            (b"data/A.txt".to_vec(), payload_a.clone()),
            (b"data\\sub\\B.bin".to_vec(), payload_b.clone()),
        ],
        vec![],
    );
    let reader = GrfReader::new(c.clone());
    let header = reader.read_header().unwrap();
    assert_eq!(header.real_file_count, 2);
    let table = reader.read_file_table(&header).unwrap();
    assert_eq!(table.len(), 2);

    // lookup is case-insensitive, storage case-preserving, separators normalized
    let a = table.get(&b"DATA/a.TXT".to_vec()).unwrap();
    assert_eq!(a.filename, b"data/A.txt".to_vec());
    assert_eq!(a.real_size, payload_a.len() as i32);
    assert_eq!(a.flags, 0x01);
    let start = a.offset as usize + GRF_HEADER_SIZE;
    assert_eq!(&c[start..start + payload_a.len()], payload_a.as_slice());

    let b = table.get(&b"data/sub/b.bin".to_vec()).unwrap();
    assert_eq!(b.filename, b"data/sub/B.bin".to_vec());
    let start = b.offset as usize + GRF_HEADER_SIZE;
    assert_eq!(&c[start..start + payload_b.len()], payload_b.as_slice());
}

#[test]
fn duplicate_case_insensitive_name_second_wins() {
    let mut c = fresh_container();
    merge(
        &mut c,
        vec![
            (b"data/Same.txt".to_vec(), b"first".to_vec()),
            (b"data/SAME.TXT".to_vec(), b"second".to_vec()),
        ],
        vec![],
    );
    let reader = GrfReader::new(c.clone());
    let header = reader.read_header().unwrap();
    assert_eq!(header.real_file_count, 1);
    let table = reader.read_file_table(&header).unwrap();
    let e = table.get(&b"data/same.txt".to_vec()).unwrap();
    assert_eq!(e.filename, b"data/SAME.TXT".to_vec());
    let start = e.offset as usize + GRF_HEADER_SIZE;
    assert_eq!(&c[start..start + 6], b"second");
}

#[test]
fn merge_applies_deletions() {
    let mut c = fresh_container();
    merge(
        &mut c,
        vec![
            (b"data/keep.txt".to_vec(), b"keep".to_vec()),
            (b"data/Old.bmp".to_vec(), b"old".to_vec()),
        ],
        vec![],
    );
    merge(&mut c, vec![], vec![b"data/OLD.BMP".to_vec()]);
    let reader = GrfReader::new(c);
    let header = reader.read_header().unwrap();
    let table = reader.read_file_table(&header).unwrap();
    assert_eq!(table.len(), 1);
    assert!(table.get(&b"data/keep.txt".to_vec()).is_some());
    assert!(table.get(&b"data/old.bmp".to_vec()).is_none());
}

#[test]
fn merging_the_same_patch_twice_keeps_the_contents() {
    let mut once = fresh_container();
    let files = vec![
        (b"data/x.dat".to_vec(), b"xxxx".to_vec()),
        (b"data/y.dat".to_vec(), b"yy".to_vec()),
    ];
    let dels = vec![b"data/gone.dat".to_vec()];
    merge(&mut once, files.clone(), dels.clone());
    let mut twice = once.clone();
    merge(&mut twice, files, dels);

    let read = |c: &Vec<u8>| {
        let reader = GrfReader::new(c.clone());
        let header = reader.read_header().unwrap();
        reader.read_file_table(&header).unwrap()
    };
    let t1 = read(&once);
    let t2 = read(&twice);
    assert_eq!(t1.len(), t2.len());
    for e1 in &t1.entries {
        let e2 = t2.get(&e1.filename).unwrap();
        assert_eq!(e1.filename, e2.filename);
        assert_eq!(e1.real_size, e2.real_size);
        let s1 = e1.offset as usize + GRF_HEADER_SIZE;
        let s2 = e2.offset as usize + GRF_HEADER_SIZE;
        let n = e1.compressed_size_aligned as usize;
        assert_eq!(
            &once[s1..s1 + n],
            &twice[s2..s2 + e2.compressed_size_aligned as usize]
        );
    }
}
