use redis_rs::rdb::parse_rdb;

fn magic() -> Vec<u8> {
    let mut b = Vec::new();
    b.extend_from_slice(b"REDIS0011");
    b
}

fn str_bytes(s: &str) -> Vec<u8> {
    let mut b = vec![s.len() as u8];
    b.extend_from_slice(s.as_bytes());
    b
}

fn eof() -> Vec<u8> {
    let mut b = vec![0xFF];
    b.extend_from_slice(&[0u8; 8]);
    b
}

#[test]
fn empty_snapshot_loads_nothing() {
    let mut b = magic();
    b.extend(eof());
    let recs = parse_rdb(&b).unwrap();
    assert!(recs.is_empty());
}

#[test]
fn plain_record_loads() {
    let mut b = magic();
    b.push(0xFB);
    b.push(1); // one plain record
    b.push(0); // no expiring records
    b.push(0x00);
    b.extend(str_bytes("key"));
    b.extend(str_bytes("value"));
    b.extend(eof());
    let recs = parse_rdb(&b).unwrap();
    assert_eq!(recs.len(), 1);
    assert_eq!(recs[0].0, "key");
    assert_eq!(recs[0].1, "value");
    assert_eq!(recs[0].2, None);
}

#[test]
fn expiring_record_keeps_its_deadline() {
    let mut b = magic();
    b.push(0xFB);
    b.push(0);
    b.push(1);
    b.push(0xFC);
    b.extend_from_slice(&1_700_000_000_123u64.to_le_bytes());
    b.push(0x00);
    b.extend(str_bytes("k"));
    b.extend(str_bytes("v"));
    b.extend(eof());
    let recs = parse_rdb(&b).unwrap();
    assert_eq!(recs.len(), 1);
    assert_eq!(recs[0].2, Some(1_700_000_000_123u128));
}

#[test]
fn second_deadline_scales_to_milliseconds() {
    let mut b = magic();
    b.push(0xFB);
    b.push(0);
    b.push(1);
    b.push(0xFD);
    b.extend_from_slice(&1_700_000_000u32.to_le_bytes());
    b.push(0x00);
    b.extend(str_bytes("k"));
    b.extend(str_bytes("v"));
    b.extend(eof());
    let recs = parse_rdb(&b).unwrap();
    assert_eq!(recs[0].2, Some(1_700_000_000_000u128));
}

#[test]
fn metadata_and_select_are_skipped() {
    let mut b = magic();
    b.push(0xFA);
    b.extend(str_bytes("redis-ver"));
    b.extend(str_bytes("7.2.0"));
    b.push(0xFE);
    b.push(0); // database index
    b.push(0xFB);
    b.push(1);
    b.push(0);
    b.push(0x00);
    b.extend(str_bytes("a"));
    b.extend(str_bytes("1"));
    b.extend(eof());
    let recs = parse_rdb(&b).unwrap();
    assert_eq!(recs.len(), 1);
    assert_eq!(recs[0].0, "a");
}

#[test]
fn integer_encoded_value_reads_as_decimal_text() {
    let mut b = magic();
    b.push(0xFB);
    b.push(1);
    b.push(0);
    b.push(0x00);
    b.extend(str_bytes("n"));
    b.push(0xC0); // one-byte integer encoding
    b.push(42);
    b.extend(eof());
    let recs = parse_rdb(&b).unwrap();
    assert_eq!(recs[0].1, "42");
}

#[test]
fn fourteen_bit_length_reads() {
    let mut b = magic();
    b.push(0xFB);
    b.push(1);
    b.push(0);
    b.push(0x00);
    b.extend(str_bytes("k"));
    // 14-bit length 300 = 0x012C: first byte 0x41, second 0x2C
    b.push(0x41);
    b.push(0x2C);
    b.extend(std::iter::repeat(b'x').take(300));
    b.extend(eof());
    let recs = parse_rdb(&b).unwrap();
    assert_eq!(recs[0].1.len(), 300);
}

#[test]
fn bad_magic_is_refused() {
    let mut b = Vec::new();
    b.extend_from_slice(b"RUDIS0011");
    b.extend(eof());
    assert!(parse_rdb(&b).is_err());
}

#[test]
fn truncated_snapshot_is_refused() {
    let b = magic();
    assert!(parse_rdb(&b).is_err());
    let mut c = magic();
    c.push(0xFF);
    c.extend_from_slice(&[0u8; 4]); // checksum cut short
    assert!(parse_rdb(&c).is_err());
}

#[test]
fn compressed_strings_are_refused() {
    let mut b = magic();
    b.push(0xFB);
    b.push(1);
    b.push(0);
    b.push(0x00);
    b.extend(str_bytes("k"));
    b.push(0xC3); // compressed encoding, unsupported
    b.extend(eof());
    assert!(parse_rdb(&b).is_err());
}

#[test]
fn unknown_op_is_refused() {
    let mut b = magic();
    b.push(0x99);
    b.extend(eof());
    assert!(parse_rdb(&b).is_err());
}
