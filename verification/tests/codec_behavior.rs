use redis_rs::cmd::Cmd;
use redis_rs::cmd::try_split_offset;
use redis_rs::error::DBError;
use redis_rs::protocol::Protocol;
use redis_rs::protocol::lowercase_ascii;
use redis_rs::protocol::parse_u64;
use redis_rs::protocol::u64_to_string;
use redis_rs::protocol::usize_to_string;

fn bulk(s: &str) -> Protocol {
    Protocol::BulkString(String::from(s))
}

#[test]
fn encode_simple_string() {
    let p = Protocol::SimpleString(String::from("PONG"));
    assert_eq!(p.encode(), "+PONG\r\n");
}

#[test]
fn encode_bulk_string() {
    assert_eq!(bulk("bar").encode(), "$3\r\nbar\r\n");
}

#[test]
fn encode_null() {
    assert_eq!(Protocol::Null.encode(), "$-1\r\n");
}

#[test]
fn encode_array() {
    let p = Protocol::Array(vec![bulk("get"), bulk("foo")]);
    assert_eq!(p.encode(), "*2\r\n$3\r\nget\r\n$3\r\nfoo\r\n");
}

#[test]
fn decode_simple_string() {
    let (p, n) = Protocol::from("+PONG\r\n").unwrap();
    assert_eq!(n, 7);
    assert_eq!(p.encode(), "+PONG\r\n");
}

#[test]
fn round_trip_array() {
    let p = Protocol::Array(vec![bulk("set"), bulk("foo"), bulk("bar")]);
    let wire = p.encode();
    let (q, n) = Protocol::from(wire.as_str()).unwrap();
    assert_eq!(n, wire.len());
    assert_eq!(q.encode(), wire);
}

#[test]
fn round_trip_pipelined() {
    // the consumed count locates the next frame of a pipelined buffer
    let wire = "+a\r\n+b\r\n";
    let (p, n) = Protocol::from(wire).unwrap();
    assert_eq!(p.encode(), "+a\r\n");
    assert_eq!(n, 4);
    let (q, m) = Protocol::from(&wire[n..]).unwrap();
    assert_eq!(q.encode(), "+b\r\n");
    assert_eq!(m, 4);
}

#[test]
fn decode_lowercases_bulk_strings() {
    let (p, _) = Protocol::from("$4\r\nPING\r\n").unwrap();
    assert_eq!(p.decode(), "ping");
}

#[test]
fn decode_flattens_arrays_with_spaces() {
    let p = Protocol::Array(vec![bulk("a"), bulk("b"), bulk("c")]);
    assert_eq!(p.decode(), "a b c");
    assert_eq!(p.to_string(), "a b c");
}

#[test]
fn decode_rejects_length_mismatch() {
    assert!(Protocol::from("$3\r\nabcd\r\n").is_err());
}

#[test]
fn decode_rejects_unterminated() {
    assert!(Protocol::from("+pong").is_err());
    assert!(Protocol::from("").is_err());
    assert!(Protocol::from("?x\r\n").is_err());
}

#[test]
fn decode_rejects_bad_count() {
    assert!(Protocol::from("*x\r\n").is_err());
    assert!(Protocol::from("$-1\r\n").is_err());
}

#[test]
fn parse_usize_rejects_junk() {
    assert!(Protocol::parse_usize("").is_err());
    assert!(Protocol::parse_usize("12a").is_err());
    assert!(Protocol::parse_usize("99999999999999999999999999").is_err());
    assert_eq!(Protocol::parse_usize("42").unwrap(), 42);
}

#[test]
fn parse_u64_and_render() {
    assert_eq!(parse_u64("18446744073709551615").unwrap(), u64::MAX);
    assert!(parse_u64("18446744073709551616").is_err());
    assert_eq!(u64_to_string(0), "0");
    assert_eq!(u64_to_string(90210), "90210");
    assert_eq!(usize_to_string(7), "7");
}

#[test]
fn lowercase_ascii_only() {
    assert_eq!(lowercase_ascii("MiXeD-42"), "mixed-42");
}

#[test]
fn helper_frames() {
    assert_eq!(Protocol::ok().encode(), "+ok\r\n");
    assert_eq!(Protocol::err("oops").encode(), "+oops\r\n");
    assert_eq!(Protocol::none().encode(), "+none\r\n");
    assert_eq!(
        Protocol::write_on_slave_err().encode(),
        "+DISALLOW WRITE ON SLAVE\r\n"
    );
    assert_eq!(
        Protocol::psync_on_slave_err().encode(),
        "+PSYNC ON SLAVE IS NOT ALLOWED\r\n"
    );
    let v = Protocol::form_vec(vec!["PSYNC", "?", "-1"]);
    assert_eq!(v.encode(), "*3\r\n$5\r\nPSYNC\r\n$1\r\n?\r\n$2\r\n-1\r\n");
}

#[test]
fn cmd_parse_is_pure() {
    // parsing the same text twice yields equal commands
    let wire = "*3\r\n$3\r\nSET\r\n$3\r\nfoo\r\n$3\r\nbar\r\n";
    let (c1, p1) = Cmd::from(wire).unwrap();
    let (c2, p2) = Cmd::from(wire).unwrap();
    assert_eq!(format!("{:?}", c1), format!("{:?}", c2));
    assert_eq!(p1.encode(), p2.encode());
}

#[test]
fn cmd_parse_shapes() {
    let (c, _) = Cmd::from("*1\r\n$4\r\nPING\r\n").unwrap();
    assert!(matches!(c, Cmd::Ping));
    let (c, _) = Cmd::from("*2\r\n$4\r\nECHO\r\n$2\r\nhi\r\n").unwrap();
    assert!(matches!(c, Cmd::Echo(s) if s == "hi"));
    let (c, _) = Cmd::from("*2\r\n$4\r\nKEYS\r\n$1\r\n*\r\n").unwrap();
    assert!(matches!(c, Cmd::Keys));
    let (c, _) = Cmd::from("*1\r\n$5\r\nWHAT?\r\n").unwrap();
    assert!(matches!(c, Cmd::Unknow));
    assert!(Cmd::from("*2\r\n$3\r\nSET\r\n$1\r\nk\r\n").is_err());
    assert!(Cmd::from("+PING\r\n").is_err());
}

#[test]
fn cmd_parse_set_with_expiry() {
    let (c, _) = Cmd::from("*5\r\n$3\r\nSET\r\n$1\r\nk\r\n$1\r\nv\r\n$2\r\nPX\r\n$3\r\n100\r\n")
        .unwrap();
    assert!(matches!(c, Cmd::SetPx(k, v, 100) if k == "k" && v == "v"));
    let (c, _) = Cmd::from("*5\r\n$3\r\nSET\r\n$1\r\nk\r\n$1\r\nv\r\n$2\r\nEX\r\n$2\r\n10\r\n")
        .unwrap();
    assert!(matches!(c, Cmd::SetEx(_, _, 10)));
}

#[test]
fn split_offset_requests() {
    assert_eq!(try_split_offset("5-3").unwrap(), (5, 3, false));
    assert_eq!(try_split_offset("5-*").unwrap(), (5, 0, true));
    assert_eq!(try_split_offset("0-*").unwrap(), (0, 1, true));
    assert_eq!(try_split_offset("7").unwrap(), (7, 0, true));
    assert_eq!(try_split_offset("0").unwrap(), (0, 1, true));
    assert!(try_split_offset("x").is_err());
    assert!(try_split_offset("5-x").is_err());
    assert!(try_split_offset("5-").is_err());
}

#[test]
fn split_offset_when_known_good() {
    assert_eq!(redis_rs::cmd::split_offset("12-34"), (12, 34, false));
}

#[test]
fn db_error_message() {
    let e = DBError::msg("boom");
    assert_eq!(e.0, "boom");
}

#[test]
fn empty_snapshot_payload_decodes() {
    let payload = redis_rs::replication::empty_rdb_payload();
    assert_eq!(payload.len(), 88);
    assert_eq!(&payload[0..9], b"REDIS0011");
    // the image itself parses as a snapshot holding no records
    assert!(redis_rs::rdb::parse_rdb(&payload).unwrap().is_empty());
}

#[test]
fn decode_hex_rejects_junk() {
    assert!(redis_rs::replication::decode_hex("0g").is_err());
    assert!(redis_rs::replication::decode_hex("abc").is_err());
    assert_eq!(redis_rs::replication::decode_hex("00ff").unwrap(), vec![0u8, 255u8]);
}

#[test]
fn empty_bulk_string_round_trips() {
    let p = bulk("");
    assert_eq!(p.encode(), "$0\r\n\r\n");
    let (q, n) = Protocol::from("$0\r\n\r\n").unwrap();
    assert_eq!(n, 6);
    assert_eq!(q.encode(), "$0\r\n\r\n");
    assert_eq!(q.decode(), "");
}

#[test]
fn consumed_prefix_reparses_identically() {
    // uppercase payloads are lowercased in the decoded frame, but the
    // consumed prefix still re-parses to that same frame
    let wire = "*2\r\n$4\r\nECHO\r\n$2\r\nHI\r\n+next\r\n";
    let (p, n) = Protocol::from(wire).unwrap();
    let (q, m) = Protocol::from(&wire[..n]).unwrap();
    assert_eq!(n, m);
    assert_eq!(p.encode(), q.encode());
    assert_eq!(p.decode(), "echo hi");
    let (tail, _) = Protocol::from(&wire[n..]).unwrap();
    assert_eq!(tail.encode(), "+next\r\n");
}
