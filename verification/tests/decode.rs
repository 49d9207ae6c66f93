//! The record decoder in isolation: octal size fields and kind bytes.

use tarfs::ram_device::RamDevice;
use tarfs::record::parse_octal;
use tarfs::{TarError, TarFS, Type};

#[test]
fn octal_all_zeros_is_zero() {
    assert_eq!(parse_octal(b"0000000\0\0\0\0\0"), Ok(0));
}

#[test]
fn octal_with_leading_zeros() {
    // Octal 1751 is decimal 1001.
    assert_eq!(parse_octal(b"00000001751\0"), Ok(1001));
}

#[test]
fn octal_empty_after_trims_is_zero() {
    assert_eq!(parse_octal(b"\0\0\0\0\0\0\0\0\0\0\0\0"), Ok(0));
    assert_eq!(parse_octal(b"000000000000"), Ok(0));
}

#[test]
fn octal_full_width() {
    assert_eq!(parse_octal(b"777777777777"), Ok(0o777777777777));
}

#[test]
fn octal_rejects_non_digits() {
    assert_eq!(parse_octal(b"000zzz00000\0"), Err(TarError::MalformedSize));
    assert_eq!(parse_octal(b"00000008000\0"), Err(TarError::MalformedSize));
    // A space is not stripped and not a digit.
    assert_eq!(parse_octal(b"0000644    \0"), Err(TarError::MalformedSize));
}

#[test]
fn kind_bytes_map_to_types() {
    assert_eq!(TarFS::<RamDevice>::raw_to_type(48), Some(Type::File));
    assert_eq!(TarFS::<RamDevice>::raw_to_type(49), Some(Type::HardLink));
    assert_eq!(TarFS::<RamDevice>::raw_to_type(50), Some(Type::SymbLink));
    assert_eq!(TarFS::<RamDevice>::raw_to_type(51), Some(Type::ChrDev));
    assert_eq!(TarFS::<RamDevice>::raw_to_type(52), Some(Type::BlkDev));
    assert_eq!(TarFS::<RamDevice>::raw_to_type(53), Some(Type::Dir));
    assert_eq!(TarFS::<RamDevice>::raw_to_type(54), None);
    assert_eq!(TarFS::<RamDevice>::raw_to_type(0), None);
}
