use grf_patcher::codec::{ascii_lower, bytes_eq, normalize_path};
use grf_patcher::fmt::{format_bytes, u64_to_dec};

#[test]
fn lower_cases_ascii_only() {
    let s = b"Data/File.GRF\xC4".to_vec();
    assert_eq!(ascii_lower(&s), b"data/file.grf\xC4".to_vec());
}

#[test]
fn normalizes_backslashes() {
    let s = b"data\\texture\\a.bmp".to_vec();
    assert_eq!(normalize_path(&s), b"data/texture/a.bmp".to_vec());
}

#[test]
fn byte_equality() {
    assert!(bytes_eq(b"abc", b"abc"));
    assert!(!bytes_eq(b"abc", b"abd"));
    assert!(!bytes_eq(b"abc", b"ab"));
}

#[test]
fn decimal_rendering() {
    assert_eq!(u64_to_dec(0), "0");
    assert_eq!(u64_to_dec(907), "907");
    assert_eq!(u64_to_dec(1000000), "1000000");
}

#[test]
fn format_bytes_zero() {
    assert_eq!(format_bytes(0), "0 B");
}

#[test]
fn format_bytes_units() {
    assert_eq!(format_bytes(512), "512.00 B");
    assert_eq!(format_bytes(1024), "1.00 KB");
    assert_eq!(format_bytes(1535), "1.50 KB");
    assert_eq!(format_bytes(1536), "1.50 KB");
    assert_eq!(format_bytes(1048576), "1.00 MB");
    assert_eq!(format_bytes(3 * 1073741824), "3.00 GB");
    // everything at or above a gigabyte stays in gigabytes
    assert_eq!(format_bytes(2048 * 1073741824), "2048.00 GB");
    assert_eq!(format_bytes(1u64 << 50), "1048576.00 GB");
}
