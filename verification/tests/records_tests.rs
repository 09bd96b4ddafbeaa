use pcp::decimal::{format_u64, parse_u64};
use pcp::records::{
    encode_initial_record, encode_offset, overwrite_start, parse_record, Progress,
    OFFSET_LINE_WIDTH,
};

#[test]
fn decimal_round_trip() {
    for n in [0u64, 1, 9, 10, 99, 12345, u64::MAX] {
        let digits = format_u64(n);
        assert_eq!(parse_u64(&digits), Some(n));
    }
    assert_eq!(format_u64(10485760), b"10485760".to_vec());
}

#[test]
fn decimal_parse_rejects_bad_input() {
    assert_eq!(parse_u64(b""), None);
    assert_eq!(parse_u64(b"12a3"), None);
    assert_eq!(parse_u64(b"-5"), None);
    // one past the largest representable value
    assert_eq!(parse_u64(b"18446744073709551616"), None);
    assert_eq!(parse_u64(b"18446744073709551615"), Some(u64::MAX));
}

#[test]
fn initial_record_layout() {
    let rec = encode_initial_record(10485760);
    // a zero offset blank-filled to the line width, then the total
    assert_eq!(rec[0], b'0');
    assert!(rec[1..OFFSET_LINE_WIDTH].iter().all(|b| *b == b' '));
    assert_eq!(rec[OFFSET_LINE_WIDTH], b'\n');
    assert_eq!(&rec[OFFSET_LINE_WIDTH + 1..], b"10485760");
}

#[test]
fn fresh_record_reads_back_at_zero() {
    let rec = encode_initial_record(4096);
    assert_eq!(parse_record(&rec), Some(Progress { current: 0, total: 4096 }));
}

#[test]
fn overwritten_offset_reads_back_exactly() {
    let mut rec = encode_initial_record(10485760);
    let offset = encode_offset(3145728);
    overwrite_start(&mut rec, &offset);
    assert_eq!(
        parse_record(&rec),
        Some(Progress { current: 3145728, total: 10485760 })
    );
    // overwriting never changes the line's length
    assert_eq!(rec.len(), OFFSET_LINE_WIDTH + 1 + b"10485760".len());
    // a later, longer offset still fits and wins
    let offset = encode_offset(10485760);
    overwrite_start(&mut rec, &offset);
    assert_eq!(
        parse_record(&rec),
        Some(Progress { current: 10485760, total: 10485760 })
    );
}

#[test]
fn record_parse_rejects_garbage() {
    assert_eq!(parse_record(b""), None);
    assert_eq!(parse_record(b"no line break"), None);
    assert_eq!(parse_record(b"12x\n40"), None);
    assert_eq!(parse_record(b"12\n"), None);
    assert_eq!(parse_record(b"\n40"), None);
}
