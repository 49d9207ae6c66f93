//! End-to-end scenarios: opening archives, listing them, stepping the
//! iterators.

use tarfs::ram_device::RamDevice;
use tarfs::{TarError, TarFS, Type};

fn header(name: &str, size: usize, kind: u8) -> Vec<u8> {
    let mut h = vec![0u8; 512];
    h[..name.len()].copy_from_slice(name.as_bytes());
    let oct = format!("{:011o}", size);
    h[124..135].copy_from_slice(oct.as_bytes());
    h[135] = 0;
    h[156] = kind;
    h[257..262].copy_from_slice(b"ustar");
    h
}

fn add_file(archive: &mut Vec<u8>, name: &str, content: &[u8]) {
    archive.extend_from_slice(&header(name, content.len(), 48));
    archive.extend_from_slice(content);
    let pad = (512 - content.len() % 512) % 512;
    archive.extend_from_slice(&vec![0u8; pad]);
}

fn add_dir(archive: &mut Vec<u8>, name: &str) {
    archive.extend_from_slice(&header(name, 0, 53));
}

fn finish(archive: &mut Vec<u8>) {
    archive.extend_from_slice(&vec![0u8; 1024]);
}

fn open(bytes: Vec<u8>) -> TarFS<RamDevice> {
    TarFS::from_device(RamDevice::new(bytes)).unwrap()
}

#[test]
fn single_file_archive() {
    let mut bytes = Vec::new();
    add_file(&mut bytes, "hello.txt", b"world");
    finish(&mut bytes);
    let mut fs = open(bytes);

    let ents = fs.list().unwrap();
    assert_eq!(ents.len(), 1);
    assert_eq!(ents[0].name, "hello.txt");
    assert_eq!(ents[0].size, 5);
    assert_eq!(ents[0]._type, Type::File);
    assert_eq!(ents[0].position, 0);

    let content = fs.read_entire_file("hello.txt").unwrap();
    assert_eq!(content, b"world");
}

#[test]
fn list_enumerates_every_entry_in_order() {
    let mut bytes = Vec::new();
    add_file(&mut bytes, "a.txt", b"first");
    add_dir(&mut bytes, "d/");
    add_file(&mut bytes, "d/b.txt", b"second entry content");
    finish(&mut bytes);
    let mut fs = open(bytes);

    let ents = fs.list().unwrap();
    assert_eq!(ents.len(), 3);
    assert_eq!(ents[0].name, "a.txt");
    assert_eq!(ents[1].name, "d/");
    assert_eq!(ents[2].name, "d/b.txt");
    assert_eq!(ents[1]._type, Type::Dir);
    // Listing again re-scans and yields the same entries.
    let again = fs.list().unwrap();
    assert_eq!(again.len(), 3);
    assert_eq!(again[2].name, "d/b.txt");
}

#[test]
fn open_rejects_bad_signature() {
    let bytes = vec![7u8; 2048];
    match TarFS::from_device(RamDevice::new(bytes)) {
        Err(TarError::InvalidArchive) => {},
        _ => panic!("an archive without the signature must be rejected"),
    }
}

#[test]
fn open_accepts_then_list_stops_at_terminator() {
    let mut bytes = Vec::new();
    add_file(&mut bytes, "only", b"x");
    // A single zero record is enough: its signature check fails.
    bytes.extend_from_slice(&vec![0u8; 512]);
    let mut fs = open(bytes);
    assert_eq!(fs.list().unwrap().len(), 1);
}

#[test]
fn entry_iter_yields_offsets_and_raw_records() {
    let mut bytes = Vec::new();
    add_file(&mut bytes, "first.bin", &[9u8; 700]);
    add_file(&mut bytes, "second.bin", b"z");
    finish(&mut bytes);
    let mut fs = open(bytes);

    let mut it = fs.get_entries();
    let (off0, raw0) = it.next(&mut fs).unwrap().unwrap();
    assert_eq!(off0, 0);
    assert_eq!(&raw0.signature[..5], b"ustar");
    assert_eq!(raw0._type, 48);
    assert_eq!(&raw0.name[..9], b"first.bin");
    // 512 of header + 700 rounded up to 1024.
    let (off1, _raw1) = it.next(&mut fs).unwrap().unwrap();
    assert_eq!(off1, 1536);
    assert!(it.next(&mut fs).is_none());
    // The cursor stays at the terminator.
    assert!(it.next(&mut fs).is_none());
}

#[test]
fn entity_iter_steps_and_ends() {
    let mut bytes = Vec::new();
    add_file(&mut bytes, "a", b"1");
    add_file(&mut bytes, "b", b"22");
    finish(&mut bytes);
    let mut fs = open(bytes);

    let mut it = tarfs::iter::EntityIter::new(&fs);
    let first = it.next(&mut fs).unwrap().unwrap();
    assert_eq!(first.name, "a");
    assert_eq!(first.size, 1);
    let second = it.next(&mut fs).unwrap().unwrap();
    assert_eq!(second.name, "b");
    assert_eq!(second.size, 2);
    assert_eq!(second.position, 1024);
    assert!(it.next(&mut fs).is_none());
}

#[test]
fn unrecognized_kind_is_an_error() {
    let mut bytes = Vec::new();
    bytes.extend_from_slice(&header("weird", 0, 57));
    finish(&mut bytes);
    let mut fs = open(bytes);
    match fs.list() {
        Err(TarError::UnrecognizedKind) => {},
        _ => panic!("a kind byte outside the known set must stop the listing"),
    }
}

#[test]
fn malformed_size_is_an_error() {
    let mut h = header("bad", 0, 48);
    h[124..136].copy_from_slice(b"000zzz00000\0");
    let mut bytes = h;
    finish(&mut bytes);
    let mut fs = open(bytes);
    match fs.list() {
        Err(TarError::MalformedSize) => {},
        _ => panic!("a size field that is not octal must stop the listing"),
    }
}
