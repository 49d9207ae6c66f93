//! Content reads: clamping, whole-file reads, text decoding.

use tarfs::ram_device::RamDevice;
use tarfs::{TarError, TarFS};

fn header(name: &str, size: usize, kind: u8) -> Vec<u8> {
    let mut h = vec![0u8; 512];
    h[..name.len()].copy_from_slice(name.as_bytes());
    let oct = format!("{:011o}", size);
    h[124..135].copy_from_slice(oct.as_bytes());
    h[135] = 0;
    h[156] = kind;
    h[257..262].copy_from_slice(b"ustar");
    h
}

fn archive_with(name: &str, content: &[u8]) -> TarFS<RamDevice> {
    let mut bytes = Vec::new();
    bytes.extend_from_slice(&header(name, content.len(), 48));
    bytes.extend_from_slice(content);
    let pad = (512 - content.len() % 512) % 512;
    bytes.extend_from_slice(&vec![0u8; pad]);
    bytes.extend_from_slice(&vec![0u8; 1024]);
    TarFS::from_device(RamDevice::new(bytes)).unwrap()
}

#[test]
fn find_file_absent_is_not_found() {
    let mut fs = archive_with("hello.txt", b"world");
    match fs.find_file("absent.txt") {
        Err(TarError::NotFound) => {},
        _ => panic!("an absent path must fail with not-found"),
    }
    // Exact matching: no prefix and no slash normalization.
    match fs.find_file("hello") {
        Err(TarError::NotFound) => {},
        _ => panic!("a prefix of a name must not match"),
    }
}

#[test]
fn entire_read_has_exactly_the_entity_size() {
    let mut fs = archive_with("data.bin", &[3u8; 777]);
    let entity = fs.find_file("data.bin").unwrap();
    let content = fs.read_entire_file("data.bin").unwrap();
    assert_eq!(content.len(), entity.size);
    assert_eq!(content.len(), 777);
    assert!(content.iter().all(|&b| b == 3));
}

#[test]
fn reads_are_clamped_at_the_entity_size() {
    let mut fs = archive_with("hello.txt", b"world");
    let entity = fs.find_file("hello.txt").unwrap();

    let mut buf = vec![0u8; 10];
    let n = fs.read_file_by_entity(&entity, 3, &mut buf).unwrap();
    assert_eq!(n, 2);
    assert_eq!(&buf[..2], b"ld");
    assert!(n <= entity.size - 3);

    let mut buf2 = vec![0u8; 10];
    let n2 = fs.read_file_by_entity(&entity, 5, &mut buf2).unwrap();
    assert_eq!(n2, 0);
    let n3 = fs.read_file_by_entity(&entity, 4000, &mut buf2).unwrap();
    assert_eq!(n3, 0);
    assert_eq!(buf2, vec![0u8; 10]);
}

#[test]
fn partial_read_from_an_offset() {
    let mut fs = archive_with("hello.txt", b"world");
    let mut buf = vec![0u8; 3];
    let n = fs.read_file("hello.txt", 1, &mut buf).unwrap();
    assert_eq!(n, 3);
    assert_eq!(&buf[..], b"orl");
}

#[test]
fn read_file_on_absent_path_fails() {
    let mut fs = archive_with("hello.txt", b"world");
    let mut buf = vec![0u8; 4];
    match fs.read_file("nope", 0, &mut buf) {
        Err(TarError::NotFound) => {},
        _ => panic!("an absent path must fail with not-found"),
    }
    assert_eq!(buf, vec![0u8; 4]);
}

#[test]
fn read_to_string_decodes_utf8() {
    let mut fs = archive_with("hello.txt", b"world");
    assert_eq!(fs.read_to_string("hello.txt").unwrap(), "world");
}

#[test]
fn read_to_string_replaces_invalid_sequences() {
    let mut fs = archive_with("bin", &[0xFF, b'a']);
    assert_eq!(fs.read_to_string("bin").unwrap(), "\u{FFFD}a");
}

#[test]
fn truncated_archive_reads_zero_padded() {
    // The record claims 8 bytes but the store ends after 3 content bytes.
    let mut bytes = Vec::new();
    bytes.extend_from_slice(&header("cut.bin", 8, 48));
    bytes.extend_from_slice(b"abc");
    let mut fs = TarFS::from_device(RamDevice::new(bytes)).unwrap();
    let content = fs.read_entire_file("cut.bin").unwrap();
    assert_eq!(content.len(), 8);
    assert_eq!(&content[..3], b"abc");
    assert_eq!(&content[3..], &[0u8; 5]);
}
