use respkv::command::Command;
use respkv::parser::parse_i64;
use respkv::parser::parse_message;
use respkv::parser::parse_timeout_ms;
use respkv::parser::parse_u64;
use respkv::parser::parse_usize;
use respkv::parser::split_crlf;
use respkv::parser::to_upper;

fn bytes(s: &str) -> Vec<u8> {
    s.as_bytes().to_vec()
}

#[test]
fn split_on_crlf_keeps_trailing_empty_token() {
    let lines = split_crlf(&bytes("*1\r\n$4\r\nPING\r\n"));
    assert_eq!(lines, vec![bytes("*1"), bytes("$4"), bytes("PING"), bytes("")]);
}

#[test]
fn split_without_separator_is_one_token() {
    assert_eq!(split_crlf(&bytes("abc")), vec![bytes("abc")]);
    assert_eq!(split_crlf(&bytes("")), vec![bytes("")]);
    // a lone carriage return is not a separator
    assert_eq!(split_crlf(&bytes("a\rb")), vec![bytes("a\rb")]);
}

#[test]
fn frame_must_be_an_array() {
    assert!(parse_message(&bytes("PING\r\n")).is_none());
    assert!(parse_message(&bytes("$4\r\nPING\r\n")).is_none());
    assert!(parse_message(&bytes("")).is_none());
}

#[test]
fn unknown_commands_parse_to_nothing() {
    assert!(parse_message(&bytes("*1\r\n$4\r\nQUIT\r\n")).is_none());
    assert!(parse_message(&bytes("*2\r\n$3\r\nDEL\r\n$1\r\nk\r\n")).is_none());
}

#[test]
fn command_word_is_case_insensitive() {
    match parse_message(&bytes("*1\r\n$4\r\nping\r\n")) {
        Some(Command::Ping) => {},
        _ => panic!("lower-case ping should parse"),
    }
    match parse_message(&bytes("*2\r\n$4\r\nEcHo\r\n$2\r\nhi\r\n")) {
        Some(Command::Echo(p)) => assert_eq!(p, bytes("hi")),
        _ => panic!("mixed-case echo should parse"),
    }
}

#[test]
fn set_parses_key_value_and_px() {
    match parse_message(&bytes("*3\r\n$3\r\nSET\r\n$3\r\nfoo\r\n$3\r\nbar\r\n")) {
        Some(Command::SetValue { key, value, px }) => {
            assert_eq!(key, bytes("foo"));
            assert_eq!(value, bytes("bar"));
            assert_eq!(px, None);
        },
        _ => panic!("SET should parse"),
    }
    match parse_message(&bytes(
        "*5\r\n$3\r\nSET\r\n$3\r\nfoo\r\n$3\r\nbar\r\n$2\r\nPX\r\n$3\r\n100\r\n",
    )) {
        Some(Command::SetValue { px, .. }) => assert_eq!(px, Some(100)),
        _ => panic!("SET with PX should parse"),
    }
    // an unreadable expiry leaves the entry without one
    match parse_message(&bytes(
        "*5\r\n$3\r\nSET\r\n$3\r\nfoo\r\n$3\r\nbar\r\n$2\r\nPX\r\n$3\r\nabc\r\n",
    )) {
        Some(Command::SetValue { px, .. }) => assert_eq!(px, None),
        _ => panic!("SET with a bad PX still parses"),
    }
}

#[test]
fn set_needs_key_and_value() {
    assert!(parse_message(&bytes("*2\r\n$3\r\nSET\r\n$3\r\nfoo\r\n")).is_none());
    assert!(parse_message(&bytes("*1\r\n$3\r\nSET\r\n")).is_none());
}

#[test]
fn rpush_collects_all_values() {
    match parse_message(&bytes(
        "*5\r\n$5\r\nRPUSH\r\n$6\r\nmylist\r\n$1\r\na\r\n$1\r\nb\r\n$1\r\nc\r\n",
    )) {
        Some(Command::Rpush { key, values }) => {
            assert_eq!(key, bytes("mylist"));
            assert_eq!(values, vec![bytes("a"), bytes("b"), bytes("c")]);
        },
        _ => panic!("RPUSH should parse"),
    }
}

#[test]
fn lrange_needs_two_readable_bounds() {
    match parse_message(&bytes("*4\r\n$6\r\nLRANGE\r\n$1\r\nk\r\n$1\r\n0\r\n$2\r\n-1\r\n")) {
        Some(Command::Lrange { key, start, stop }) => {
            assert_eq!(key, bytes("k"));
            assert_eq!(start, 0);
            assert_eq!(stop, -1);
        },
        _ => panic!("LRANGE should parse"),
    }
    // a numeric parse failure drops the command silently
    assert!(parse_message(&bytes("*4\r\n$6\r\nLRANGE\r\n$1\r\nk\r\n$1\r\nx\r\n$2\r\n-1\r\n"))
        .is_none());
    assert!(parse_message(&bytes("*3\r\n$6\r\nLRANGE\r\n$1\r\nk\r\n$1\r\n0\r\n")).is_none());
}

#[test]
fn lpop_count_is_optional_and_unsigned() {
    match parse_message(&bytes("*2\r\n$4\r\nLPOP\r\n$1\r\nk\r\n")) {
        Some(Command::Lpop { count, .. }) => assert_eq!(count, None),
        _ => panic!("LPOP should parse"),
    }
    match parse_message(&bytes("*3\r\n$4\r\nLPOP\r\n$1\r\nk\r\n$1\r\n2\r\n")) {
        Some(Command::Lpop { count, .. }) => assert_eq!(count, Some(2)),
        _ => panic!("LPOP with count should parse"),
    }
    // a count argument that does not read as unsigned is malformed:
    // the whole frame is dropped
    assert!(parse_message(&bytes("*3\r\n$4\r\nLPOP\r\n$1\r\nk\r\n$2\r\n-1\r\n")).is_none());
    assert!(parse_message(&bytes("*3\r\n$4\r\nLPOP\r\n$5\r\nmykey\r\n$2\r\n-1\r\n")).is_none());
    assert!(parse_message(&bytes("*3\r\n$4\r\nLPOP\r\n$1\r\nk\r\n$3\r\nabc\r\n")).is_none());
}

#[test]
fn blpop_takes_keys_then_timeout() {
    match parse_message(&bytes("*3\r\n$5\r\nBLPOP\r\n$1\r\nq\r\n$1\r\n0\r\n")) {
        Some(Command::Blpop { keys, timeout_ms }) => {
            assert_eq!(keys, vec![bytes("q")]);
            assert_eq!(timeout_ms, 0);
        },
        _ => panic!("BLPOP should parse"),
    }
    match parse_message(&bytes(
        "*4\r\n$5\r\nBLPOP\r\n$1\r\na\r\n$1\r\nb\r\n$3\r\n0.5\r\n",
    )) {
        Some(Command::Blpop { keys, timeout_ms }) => {
            assert_eq!(keys, vec![bytes("a"), bytes("b")]);
            assert_eq!(timeout_ms, 500);
        },
        _ => panic!("BLPOP with two keys should parse"),
    }
    // an unreadable timeout drops the command
    assert!(parse_message(&bytes("*3\r\n$5\r\nBLPOP\r\n$1\r\nq\r\n$2\r\nxx\r\n")).is_none());
}

#[test]
fn timeout_seconds_to_milliseconds() {
    assert_eq!(parse_timeout_ms(&bytes("0")), Some(0));
    assert_eq!(parse_timeout_ms(&bytes("1")), Some(1000));
    assert_eq!(parse_timeout_ms(&bytes("2.5")), Some(2500));
    assert_eq!(parse_timeout_ms(&bytes("0.5")), Some(500));
    assert_eq!(parse_timeout_ms(&bytes(".5")), Some(500));
    assert_eq!(parse_timeout_ms(&bytes("5.")), Some(5000));
    // finer than a millisecond truncates
    assert_eq!(parse_timeout_ms(&bytes("0.0015")), Some(1));
    assert_eq!(parse_timeout_ms(&bytes("0.12345")), Some(123));
    // but a positive timeout never becomes the wait-forever zero
    assert_eq!(parse_timeout_ms(&bytes("0.0005")), Some(1));
    assert_eq!(parse_timeout_ms(&bytes("0.0000001")), Some(1));
    assert_eq!(parse_timeout_ms(&bytes("0.000")), Some(0));
    assert_eq!(parse_timeout_ms(&bytes("+1.5")), Some(1500));
    assert_eq!(parse_timeout_ms(&bytes("")), None);
    assert_eq!(parse_timeout_ms(&bytes(".")), None);
    assert_eq!(parse_timeout_ms(&bytes("-1")), None);
    assert_eq!(parse_timeout_ms(&bytes("1.2.3")), None);
    assert_eq!(parse_timeout_ms(&bytes("abc")), None);
}

#[test]
fn unsigned_and_signed_number_parsing() {
    assert_eq!(parse_u64(&bytes("0")), Some(0));
    assert_eq!(parse_u64(&bytes("007")), Some(7));
    assert_eq!(parse_u64(&bytes("+42")), Some(42));
    assert_eq!(parse_u64(&bytes("18446744073709551615")), Some(u64::MAX));
    assert_eq!(parse_u64(&bytes("18446744073709551616")), None);
    assert_eq!(parse_u64(&bytes("")), None);
    assert_eq!(parse_u64(&bytes("-1")), None);
    assert_eq!(parse_u64(&bytes("1x")), None);

    assert_eq!(parse_i64(&bytes("-1")), Some(-1));
    assert_eq!(parse_i64(&bytes("+8")), Some(8));
    assert_eq!(parse_i64(&bytes("9223372036854775807")), Some(i64::MAX));
    assert_eq!(parse_i64(&bytes("9223372036854775808")), None);
    assert_eq!(parse_i64(&bytes("-9223372036854775808")), Some(i64::MIN));
    assert_eq!(parse_i64(&bytes("-9223372036854775809")), None);
    assert_eq!(parse_i64(&bytes("-")), None);

    assert_eq!(parse_usize(&bytes("3")), Some(3));
    assert_eq!(parse_usize(&bytes("x")), None);
}

#[test]
fn upper_casing_is_ascii_only() {
    assert_eq!(to_upper(&bytes("lrange")), bytes("LRANGE"));
    assert_eq!(to_upper(&bytes("PiNg9_")), bytes("PING9_"));
    assert_eq!(to_upper(&vec![200u8, 97u8]), vec![200u8, 65u8]);
}
