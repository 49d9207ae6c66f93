//! Path resolution: recursive and shallow directory listings.

use tarfs::ram_device::RamDevice;
use tarfs::{TarError, TarFS, Type};

fn header(name: &str, size: usize, kind: u8) -> Vec<u8> {
    let mut h = vec![0u8; 512];
    h[..name.len()].copy_from_slice(name.as_bytes());
    let oct = format!("{:011o}", size);
    h[124..135].copy_from_slice(oct.as_bytes());
    h[135] = 0;
    h[156] = kind;
    h[257..262].copy_from_slice(b"ustar");
    h
}

fn docs_archive() -> TarFS<RamDevice> {
    let mut bytes = Vec::new();
    bytes.extend_from_slice(&header("docs/", 0, 53));
    bytes.extend_from_slice(&header("docs/a.txt", 2, 48));
    bytes.extend_from_slice(b"aa");
    bytes.extend_from_slice(&vec![0u8; 510]);
    bytes.extend_from_slice(&header("docs/sub/b.txt", 1, 48));
    bytes.extend_from_slice(b"b");
    bytes.extend_from_slice(&vec![0u8; 511]);
    bytes.extend_from_slice(&vec![0u8; 1024]);
    TarFS::from_device(RamDevice::new(bytes)).unwrap()
}

#[test]
fn deep_listing_returns_all_descendants() {
    let mut fs = docs_archive();
    let deep = fs.list_by_path("docs").unwrap();
    assert_eq!(deep.len(), 2);
    assert_eq!(deep[0].name, "docs/a.txt");
    assert_eq!(deep[1].name, "docs/sub/b.txt");
}

#[test]
fn shallow_listing_returns_direct_children_only() {
    let mut fs = docs_archive();
    let shallow = fs.list_by_path_shallow("docs").unwrap();
    assert_eq!(shallow.len(), 1);
    assert_eq!(shallow[0].name, "docs/a.txt");
}

#[test]
fn shallow_is_subset_of_deep() {
    let mut fs = docs_archive();
    let deep = fs.list_by_path("docs").unwrap();
    let shallow = fs.list_by_path_shallow("docs").unwrap();
    for e in &shallow {
        assert!(deep.iter().any(|d| d.name == e.name && d.position == e.position));
    }
    // The direct children are exactly the shallow set.
    assert_eq!(shallow.len(), 1);
    assert_eq!(deep.len(), 2);
}

#[test]
fn trailing_slashes_on_the_path_do_not_matter() {
    let mut fs = docs_archive();
    let a = fs.list_by_path("docs").unwrap();
    let b = fs.list_by_path("docs/").unwrap();
    assert_eq!(a.len(), b.len());
    assert_eq!(a[0].name, b[0].name);
}

#[test]
fn listing_an_absent_directory_is_not_found() {
    let mut fs = docs_archive();
    match fs.list_by_path("missing") {
        Err(TarError::NotFound) => {},
        _ => panic!("an absent directory must be reported as not found"),
    }
    match fs.list_by_path_shallow("missing") {
        Err(TarError::NotFound) => {},
        _ => panic!("an absent directory must be reported as not found"),
    }
}

#[test]
fn a_file_does_not_count_as_a_directory() {
    let mut fs = docs_archive();
    match fs.list_by_path("docs/a.txt") {
        Err(TarError::NotFound) => {},
        _ => panic!("a file entry must not resolve as a directory"),
    }
}

#[test]
fn a_name_sharing_the_prefix_is_not_a_descendant() {
    let mut bytes = Vec::new();
    bytes.extend_from_slice(&header("docs", 0, 53));
    bytes.extend_from_slice(&header("docs2/x.txt", 0, 48));
    bytes.extend_from_slice(&header("docs/in.txt", 0, 48));
    bytes.extend_from_slice(&vec![0u8; 1024]);
    let mut fs = TarFS::from_device(RamDevice::new(bytes)).unwrap();
    let deep = fs.list_by_path("docs").unwrap();
    assert_eq!(deep.len(), 1);
    assert_eq!(deep[0].name, "docs/in.txt");
}

#[test]
fn directory_entry_kinds_survive_listing() {
    let mut fs = docs_archive();
    let all = fs.list().unwrap();
    assert_eq!(all.len(), 3);
    assert_eq!(all[0]._type, Type::Dir);
    assert_eq!(all[1]._type, Type::File);
}

#[test]
fn an_empty_directory_lists_nothing() {
    let mut bytes = Vec::new();
    bytes.extend_from_slice(&header("docs/", 0, 53));
    bytes.extend_from_slice(&vec![0u8; 1024]);
    let mut fs = TarFS::from_device(RamDevice::new(bytes)).unwrap();
    assert_eq!(fs.list_by_path("docs").unwrap().len(), 0);
    assert_eq!(fs.list_by_path_shallow("docs").unwrap().len(), 0);
}

#[test]
fn colliding_names_resolve_to_the_first_record() {
    let mut bytes = Vec::new();
    bytes.extend_from_slice(&header("dup.txt", 3, 48));
    bytes.extend_from_slice(b"one");
    bytes.extend_from_slice(&vec![0u8; 509]);
    bytes.extend_from_slice(&header("dup.txt", 3, 48));
    bytes.extend_from_slice(b"two");
    bytes.extend_from_slice(&vec![0u8; 509]);
    bytes.extend_from_slice(&vec![0u8; 1024]);
    let mut fs = TarFS::from_device(RamDevice::new(bytes)).unwrap();
    let e = fs.find_file("dup.txt").unwrap();
    assert_eq!(e.position, 0);
    assert_eq!(fs.read_entire_file("dup.txt").unwrap(), b"one");
}
