use respkv::command::{Command, CommandParse, parse_px_value, parse_redis_command, to_lower};
use respkv::resp::{ArrayParse, BulkParse, bytes_eq, copy_bytes, encode_bulk, parse_array,
    parse_bulk_string};

#[test]
fn bulk_complete() {
    let buf = b"$5\r\nhello\r\n".to_vec();
    match parse_bulk_string(&buf, 0) {
        BulkParse::Complete { payload, end } => {
            assert_eq!(payload, b"hello".to_vec());
            assert_eq!(end, 11);
        },
        _ => panic!("expected a complete bulk string"),
    }
}

#[test]
fn bulk_empty_payload() {
    let buf = b"$0\r\n\r\n".to_vec();
    match parse_bulk_string(&buf, 0) {
        BulkParse::Complete { payload, end } => {
            assert_eq!(payload, Vec::<u8>::new());
            assert_eq!(end, 6);
        },
        _ => panic!("expected a complete bulk string"),
    }
}

#[test]
fn bulk_incomplete_header() {
    let buf = b"$12".to_vec();
    assert!(matches!(parse_bulk_string(&buf, 0), BulkParse::Incomplete));
}

#[test]
fn bulk_incomplete_payload() {
    let buf = b"$5\r\nhel".to_vec();
    assert!(matches!(parse_bulk_string(&buf, 0), BulkParse::Incomplete));
}

#[test]
fn bulk_wrong_tag() {
    let buf = b"%5\r\nhello\r\n".to_vec();
    assert!(matches!(parse_bulk_string(&buf, 0), BulkParse::Error));
}

#[test]
fn bulk_no_digits() {
    let buf = b"$x\r\n".to_vec();
    assert!(matches!(parse_bulk_string(&buf, 0), BulkParse::Error));
}

#[test]
fn bulk_length_over_cap() {
    let buf = b"$536870913\r\n".to_vec();
    assert!(matches!(parse_bulk_string(&buf, 0), BulkParse::Error));
}

#[test]
fn bulk_missing_trailing_crlf() {
    let buf = b"$3\r\nabcXY".to_vec();
    assert!(matches!(parse_bulk_string(&buf, 0), BulkParse::Error));
}

#[test]
fn bulk_at_offset() {
    let buf = b"XY$2\r\nok\r\n".to_vec();
    match parse_bulk_string(&buf, 2) {
        BulkParse::Complete { payload, end } => {
            assert_eq!(payload, b"ok".to_vec());
            assert_eq!(end, 10);
        },
        _ => panic!("expected a complete bulk string"),
    }
}

#[test]
fn array_two_elements() {
    let buf = b"*2\r\n$4\r\nECHO\r\n$5\r\nhello\r\n".to_vec();
    match parse_array(&buf, 0) {
        ArrayParse::Complete { elems, end } => {
            assert_eq!(elems.len(), 2);
            assert_eq!(elems[0], b"ECHO".to_vec());
            assert_eq!(elems[1], b"hello".to_vec());
            assert_eq!(end, buf.len());
        },
        _ => panic!("expected a complete array"),
    }
}

#[test]
fn array_zero_count_rejected() {
    let buf = b"*0\r\n".to_vec();
    assert!(matches!(parse_array(&buf, 0), ArrayParse::Error));
}

#[test]
fn array_count_over_cap_rejected() {
    let buf = b"*1025\r\n".to_vec();
    assert!(matches!(parse_array(&buf, 0), ArrayParse::Error));
}

#[test]
fn array_incomplete_waits() {
    let buf = b"*2\r\n$4\r\nECHO\r\n$5\r\nhel".to_vec();
    assert!(matches!(parse_array(&buf, 0), ArrayParse::Incomplete));
}

#[test]
fn encode_bulk_hello() {
    assert_eq!(encode_bulk(b"hello"), b"$5\r\nhello\r\n".to_vec());
}

#[test]
fn encode_bulk_empty() {
    assert_eq!(encode_bulk(b""), b"$0\r\n\r\n".to_vec());
}

#[test]
fn encode_bulk_binary() {
    let payload = vec![0u8, 13, 10, 255];
    let mut expected = b"$4\r\n".to_vec();
    expected.extend_from_slice(&payload);
    expected.extend_from_slice(b"\r\n");
    assert_eq!(encode_bulk(&payload), expected);
}

#[test]
fn command_ping() {
    let buf = b"*1\r\n$4\r\nPING\r\n".to_vec();
    match parse_redis_command(&buf) {
        CommandParse::Complete { command, end } => {
            assert!(matches!(command, Command::Ping));
            assert_eq!(end, buf.len());
        },
        _ => panic!("expected a complete command"),
    }
}

#[test]
fn command_case_insensitive() {
    for req in [
        b"*1\r\n$4\r\npInG\r\n".to_vec(),
        b"*1\r\n$4\r\nping\r\n".to_vec(),
        b"*1\r\n$4\r\nPING\r\n".to_vec(),
    ] {
        assert!(matches!(
            parse_redis_command(&req),
            CommandParse::Complete { command: Command::Ping, .. }
        ));
    }
    let set_req = b"*3\r\n$3\r\nSet\r\n$1\r\nk\r\n$1\r\nv\r\n".to_vec();
    assert!(matches!(
        parse_redis_command(&set_req),
        CommandParse::Complete { command: Command::SetKv { .. }, .. }
    ));
    let get_req = b"*2\r\n$3\r\nGET\r\n$1\r\nk\r\n".to_vec();
    assert!(matches!(
        parse_redis_command(&get_req),
        CommandParse::Complete { command: Command::Get { .. }, .. }
    ));
    let echo_req = b"*2\r\n$4\r\necho\r\n$2\r\nhi\r\n".to_vec();
    assert!(matches!(
        parse_redis_command(&echo_req),
        CommandParse::Complete { command: Command::Echo { .. }, .. }
    ));
}

#[test]
fn command_ping_ignores_extra_operands() {
    let buf = b"*2\r\n$4\r\nPING\r\n$5\r\nextra\r\n".to_vec();
    assert!(matches!(
        parse_redis_command(&buf),
        CommandParse::Complete { command: Command::Ping, .. }
    ));
}

#[test]
fn command_unknown_word_rejected() {
    let buf = b"*1\r\n$4\r\nQUIT\r\n".to_vec();
    assert!(matches!(parse_redis_command(&buf), CommandParse::Error));
}

#[test]
fn command_echo_wrong_arity_rejected() {
    let buf = b"*1\r\n$4\r\nECHO\r\n".to_vec();
    assert!(matches!(parse_redis_command(&buf), CommandParse::Error));
}

#[test]
fn command_set_with_px() {
    let buf = b"*5\r\n$3\r\nSET\r\n$1\r\nk\r\n$1\r\nv\r\n$2\r\npx\r\n$3\r\n250\r\n".to_vec();
    match parse_redis_command(&buf) {
        CommandParse::Complete { command: Command::SetKv { key, value, expiry_ms }, .. } => {
            assert_eq!(key, b"k".to_vec());
            assert_eq!(value, b"v".to_vec());
            assert_eq!(expiry_ms, Some(250));
        },
        _ => panic!("expected a SET with PX"),
    }
}

#[test]
fn command_set_four_elements_rejected() {
    let buf = b"*4\r\n$3\r\nSET\r\n$1\r\nk\r\n$1\r\nv\r\n$2\r\nPX\r\n".to_vec();
    assert!(matches!(parse_redis_command(&buf), CommandParse::Error));
}

#[test]
fn command_set_wrong_option_rejected() {
    let buf = b"*5\r\n$3\r\nSET\r\n$1\r\nk\r\n$1\r\nv\r\n$2\r\nEX\r\n$2\r\n10\r\n".to_vec();
    assert!(matches!(parse_redis_command(&buf), CommandParse::Error));
}

#[test]
fn command_set_bad_px_value_rejected() {
    let buf = b"*5\r\n$3\r\nSET\r\n$1\r\nk\r\n$1\r\nv\r\n$2\r\nPX\r\n$3\r\n1x2\r\n".to_vec();
    assert!(matches!(parse_redis_command(&buf), CommandParse::Error));
}

#[test]
fn command_incomplete_waits() {
    let buf = b"*3\r\n$3\r\nSET\r\n$3\r\nfoo".to_vec();
    assert!(matches!(parse_redis_command(&buf), CommandParse::Incomplete));
}

#[test]
fn px_value_parsing() {
    assert_eq!(parse_px_value(b"0"), Some(0));
    assert_eq!(parse_px_value(b"100"), Some(100));
    assert_eq!(parse_px_value(b"007"), Some(7));
    assert_eq!(parse_px_value(b""), None);
    assert_eq!(parse_px_value(b"12a"), None);
    assert_eq!(parse_px_value(b"-5"), None);
    assert_eq!(parse_px_value(b"12345678901234567890"), None);
    assert_eq!(parse_px_value(b"9999999999999999999"), Some(9999999999999999999));
}

#[test]
fn lower_casing() {
    assert_eq!(to_lower(b"PiNg"), b"ping".to_vec());
    assert_eq!(to_lower(b"px"), b"px".to_vec());
    assert_eq!(to_lower(b"A[z]"), b"a[z]".to_vec());
}

#[test]
fn byte_helpers() {
    assert!(bytes_eq(b"abc", b"abc"));
    assert!(!bytes_eq(b"abc", b"abd"));
    assert!(!bytes_eq(b"abc", b"ab"));
    assert_eq!(copy_bytes(b"xyz"), b"xyz".to_vec());
}
