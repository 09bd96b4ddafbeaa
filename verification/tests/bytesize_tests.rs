use pcp::bytesize::{ByteSize, ByteSizeParseError, ByteUnit};

#[test]
fn to_bytes_scales_each_unit() {
    assert_eq!(ByteSize { value: 7, unit: ByteUnit::B }.to_bytes(), 7);
    assert_eq!(ByteSize { value: 7, unit: ByteUnit::KB }.to_bytes(), 7_000);
    assert_eq!(ByteSize { value: 7, unit: ByteUnit::KiB }.to_bytes(), 7_168);
    assert_eq!(ByteSize { value: 7, unit: ByteUnit::MB }.to_bytes(), 7_000_000);
    assert_eq!(ByteSize { value: 7, unit: ByteUnit::MiB }.to_bytes(), 7_340_032);
    assert_eq!(ByteSize { value: 7, unit: ByteUnit::GB }.to_bytes(), 7_000_000_000);
    assert_eq!(ByteSize { value: 7, unit: ByteUnit::GiB }.to_bytes(), 7_516_192_768);
}

#[test]
fn checked_to_bytes_matches_and_saturates() {
    assert_eq!(
        ByteSize { value: 8, unit: ByteUnit::MiB }.checked_to_bytes(),
        Some(8 * 1024 * 1024)
    );
    assert_eq!(
        ByteSize { value: usize::MAX, unit: ByteUnit::KiB }.checked_to_bytes(),
        None
    );
}

#[test]
fn parse_value_and_unit() {
    let bs = ByteSize::parse(b"8MiB").unwrap();
    assert_eq!(bs.value, 8);
    assert_eq!(bs.unit, ByteUnit::MiB);
    assert_eq!(bs.to_bytes(), 8 * 1024 * 1024);

    let bs = ByteSize::parse(b"100kb").unwrap();
    assert_eq!(bs.value, 100);
    assert_eq!(bs.unit, ByteUnit::KB);

    let bs = ByteSize::parse(b"1B").unwrap();
    assert_eq!(bs.value, 1);
    assert_eq!(bs.unit, ByteUnit::B);

    let bs = ByteSize::parse(b"2gib").unwrap();
    assert_eq!(bs.value, 2);
    assert_eq!(bs.unit, ByteUnit::GiB);
}

#[test]
fn parse_rejects_missing_digits() {
    assert_eq!(ByteSize::parse(b"MiB"), Err(ByteSizeParseError::InvalidValue));
    assert_eq!(ByteSize::parse(b""), Err(ByteSizeParseError::InvalidValue));
}

#[test]
fn parse_rejects_unknown_unit() {
    assert_eq!(ByteSize::parse(b"8XB"), Err(ByteSizeParseError::InvalidUnit));
    assert_eq!(ByteSize::parse(b"8"), Err(ByteSizeParseError::InvalidUnit));
    assert_eq!(ByteSize::parse(b"8 MiB"), Err(ByteSizeParseError::InvalidUnit));
}

#[test]
fn parse_rejects_oversized_value() {
    assert_eq!(
        ByteSize::parse(b"99999999999999999999999B"),
        Err(ByteSizeParseError::InvalidValue)
    );
}

#[test]
fn unit_parse_accepts_documented_spellings() {
    assert_eq!(ByteUnit::parse(b"b").unwrap(), ByteUnit::B);
    assert_eq!(ByteUnit::parse(b"kB").unwrap(), ByteUnit::KB);
    assert_eq!(ByteUnit::parse(b"KB").unwrap(), ByteUnit::KB);
    assert_eq!(ByteUnit::parse(b"kib").unwrap(), ByteUnit::KiB);
    assert_eq!(ByteUnit::parse(b"KiB").unwrap(), ByteUnit::KiB);
    assert_eq!(ByteUnit::parse(b"mB").unwrap(), ByteUnit::MB);
    assert_eq!(ByteUnit::parse(b"MiB").unwrap(), ByteUnit::MiB);
    assert_eq!(ByteUnit::parse(b"gb").unwrap(), ByteUnit::GB);
    assert_eq!(ByteUnit::parse(b"GiB").unwrap(), ByteUnit::GiB);
    assert!(ByteUnit::parse(b"KIB").is_err());
    assert!(ByteUnit::parse(b"").is_err());
}
