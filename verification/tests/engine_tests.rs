use respkv::command::Command;
use respkv::exec::execute;
use respkv::parser::parse_message;
use respkv::resp::encode_reply;
use respkv::resp::Reply;
use respkv::resp::blpop_success_reply;
use respkv::store::blpop_timed_out;
use respkv::store::Store;

fn bytes(s: &str) -> Vec<u8> {
    s.as_bytes().to_vec()
}

/// Parse one frame, execute it at the given clock reading, and return the
/// encoded reply.
fn run(store: &mut Store, now_ms: u64, frame: &str) -> Vec<u8> {
    let cmd = parse_message(&bytes(frame)).expect("frame should parse");
    let (reply, _notify) = execute(store, now_ms, &cmd);
    encode_reply(&reply)
}

const WRONGTYPE: &str = "-WRONGTYPE Operation against a key holding the wrong kind of value\r\n";

#[test]
fn ping_pongs() {
    let mut store = Store::new();
    let out = run(&mut store, 0, "*1\r\n$4\r\nPING\r\n");
    assert_eq!(out, bytes("+PONG\r\n"));
}

#[test]
fn echo_returns_payload() {
    let mut store = Store::new();
    let out = run(&mut store, 0, "*2\r\n$4\r\nECHO\r\n$3\r\nhey\r\n");
    assert_eq!(out, bytes("$3\r\nhey\r\n"));
}

#[test]
fn set_then_get() {
    let mut store = Store::new();
    let out = run(&mut store, 0, "*3\r\n$3\r\nSET\r\n$3\r\nfoo\r\n$3\r\nbar\r\n");
    assert_eq!(out, bytes("+OK\r\n"));
    let out = run(&mut store, 5, "*2\r\n$3\r\nGET\r\n$3\r\nfoo\r\n");
    assert_eq!(out, bytes("$3\r\nbar\r\n"));
}

#[test]
fn get_is_stable_without_set() {
    // a value read once keeps reading the same until its horizon passes
    let mut store = Store::new();
    run(
        &mut store,
        0,
        "*5\r\n$3\r\nSET\r\n$1\r\nk\r\n$1\r\nv\r\n$2\r\nPX\r\n$3\r\n100\r\n",
    );
    let first = run(&mut store, 10, "*2\r\n$3\r\nGET\r\n$1\r\nk\r\n");
    assert_eq!(first, bytes("$1\r\nv\r\n"));
    let second = run(&mut store, 90, "*2\r\n$3\r\nGET\r\n$1\r\nk\r\n");
    assert_eq!(second, first);
    // past the horizon the other arm of the law applies
    let third = run(&mut store, 150, "*2\r\n$3\r\nGET\r\n$1\r\nk\r\n");
    assert_eq!(third, bytes("$-1\r\n"));
}

#[test]
fn get_absent_is_null_bulk() {
    let mut store = Store::new();
    let out = run(&mut store, 0, "*2\r\n$3\r\nGET\r\n$7\r\nmissing\r\n");
    assert_eq!(out, bytes("$-1\r\n"));
}

#[test]
fn set_with_px_expires_lazily() {
    let mut store = Store::new();
    let out = run(
        &mut store,
        0,
        "*5\r\n$3\r\nSET\r\n$3\r\nfoo\r\n$3\r\nbar\r\n$2\r\nPX\r\n$3\r\n100\r\n",
    );
    assert_eq!(out, bytes("+OK\r\n"));
    // within the horizon the value is still there
    let out = run(&mut store, 100, "*2\r\n$3\r\nGET\r\n$3\r\nfoo\r\n");
    assert_eq!(out, bytes("$3\r\nbar\r\n"));
    // 200 ms after creation the entry is past its 100 ms expiry
    let out = run(&mut store, 200, "*2\r\n$3\r\nGET\r\n$3\r\nfoo\r\n");
    assert_eq!(out, bytes("$-1\r\n"));
    // and it stays gone
    let out = run(&mut store, 201, "*2\r\n$3\r\nGET\r\n$3\r\nfoo\r\n");
    assert_eq!(out, bytes("$-1\r\n"));
}

#[test]
fn px_lower_case_is_recognized() {
    let mut store = Store::new();
    run(
        &mut store,
        0,
        "*5\r\n$3\r\nSET\r\n$1\r\nk\r\n$1\r\nv\r\n$2\r\npx\r\n$2\r\n50\r\n",
    );
    let out = run(&mut store, 51, "*2\r\n$3\r\nGET\r\n$1\r\nk\r\n");
    assert_eq!(out, bytes("$-1\r\n"));
}

#[test]
fn px_zero_expires_on_any_later_read() {
    let mut store = Store::new();
    run(
        &mut store,
        5,
        "*5\r\n$3\r\nSET\r\n$1\r\nk\r\n$1\r\nv\r\n$2\r\nPX\r\n$1\r\n0\r\n",
    );
    // at the creation instant the horizon has not strictly passed
    let out = run(&mut store, 5, "*2\r\n$3\r\nGET\r\n$1\r\nk\r\n");
    assert_eq!(out, bytes("$1\r\nv\r\n"));
    let out = run(&mut store, 6, "*2\r\n$3\r\nGET\r\n$1\r\nk\r\n");
    assert_eq!(out, bytes("$-1\r\n"));
}

#[test]
fn set_overwrites_unconditionally() {
    let mut store = Store::new();
    run(&mut store, 0, "*3\r\n$3\r\nSET\r\n$1\r\nk\r\n$1\r\na\r\n");
    run(&mut store, 1, "*3\r\n$3\r\nSET\r\n$1\r\nk\r\n$1\r\nb\r\n");
    let out = run(&mut store, 2, "*2\r\n$3\r\nGET\r\n$1\r\nk\r\n");
    assert_eq!(out, bytes("$1\r\nb\r\n"));
}

#[test]
fn rpush_then_lrange_round_trip() {
    let mut store = Store::new();
    let out = run(
        &mut store,
        0,
        "*5\r\n$5\r\nRPUSH\r\n$6\r\nmylist\r\n$1\r\na\r\n$1\r\nb\r\n$1\r\nc\r\n",
    );
    assert_eq!(out, bytes(":3\r\n"));
    let out = run(
        &mut store,
        1,
        "*4\r\n$6\r\nLRANGE\r\n$6\r\nmylist\r\n$1\r\n0\r\n$2\r\n-1\r\n",
    );
    assert_eq!(out, bytes("*3\r\n$1\r\na\r\n$1\r\nb\r\n$1\r\nc\r\n"));
}

#[test]
fn lpush_prepends_in_argument_order() {
    let mut store = Store::new();
    let out = run(
        &mut store,
        0,
        "*4\r\n$5\r\nLPUSH\r\n$6\r\nmylist\r\n$1\r\nx\r\n$1\r\ny\r\n",
    );
    assert_eq!(out, bytes(":2\r\n"));
    let out = run(
        &mut store,
        1,
        "*4\r\n$6\r\nLRANGE\r\n$6\r\nmylist\r\n$1\r\n0\r\n$2\r\n-1\r\n",
    );
    assert_eq!(out, bytes("*2\r\n$1\r\ny\r\n$1\r\nx\r\n"));
}

#[test]
fn llen_counts_pushes() {
    let mut store = Store::new();
    run(&mut store, 0, "*4\r\n$5\r\nRPUSH\r\n$1\r\nk\r\n$1\r\na\r\n$1\r\nb\r\n");
    run(&mut store, 1, "*3\r\n$5\r\nRPUSH\r\n$1\r\nk\r\n$1\r\nc\r\n");
    let out = run(&mut store, 2, "*2\r\n$4\r\nLLEN\r\n$1\r\nk\r\n");
    assert_eq!(out, bytes(":3\r\n"));
}

#[test]
fn serialized_single_pushes_add_up() {
    // one value per push, as concurrent clients serialized by the lock would
    let mut store = Store::new();
    let n = 25;
    for _ in 0..n {
        run(&mut store, 0, "*3\r\n$5\r\nRPUSH\r\n$1\r\nk\r\n$1\r\nv\r\n");
    }
    let out = run(&mut store, 1, "*2\r\n$4\r\nLLEN\r\n$1\r\nk\r\n");
    assert_eq!(out, bytes(format!(":{}\r\n", n).as_str()));
}

#[test]
fn lrange_clamps_and_negative_indices() {
    let mut store = Store::new();
    run(
        &mut store,
        0,
        "*5\r\n$5\r\nRPUSH\r\n$1\r\nk\r\n$1\r\na\r\n$1\r\nb\r\n$1\r\nc\r\n",
    );
    let out = run(&mut store, 1, "*4\r\n$6\r\nLRANGE\r\n$1\r\nk\r\n$1\r\n1\r\n$1\r\n1\r\n");
    assert_eq!(out, bytes("*1\r\n$1\r\nb\r\n"));
    let out = run(&mut store, 1, "*4\r\n$6\r\nLRANGE\r\n$1\r\nk\r\n$2\r\n-2\r\n$2\r\n-1\r\n");
    assert_eq!(out, bytes("*2\r\n$1\r\nb\r\n$1\r\nc\r\n"));
    let out = run(&mut store, 1, "*4\r\n$6\r\nLRANGE\r\n$1\r\nk\r\n$1\r\n0\r\n$3\r\n100\r\n");
    assert_eq!(out, bytes("*3\r\n$1\r\na\r\n$1\r\nb\r\n$1\r\nc\r\n"));
    let out = run(&mut store, 1, "*4\r\n$6\r\nLRANGE\r\n$1\r\nk\r\n$1\r\n5\r\n$2\r\n10\r\n");
    assert_eq!(out, bytes("*0\r\n"));
    let out = run(&mut store, 1, "*4\r\n$6\r\nLRANGE\r\n$1\r\nk\r\n$1\r\n2\r\n$1\r\n1\r\n");
    assert_eq!(out, bytes("*0\r\n"));
}

#[test]
fn lrange_on_empty_list_key() {
    let mut store = Store::new();
    // a push of no values creates an empty list, which stays in the keyspace
    let out = run(&mut store, 0, "*2\r\n$5\r\nRPUSH\r\n$1\r\nk\r\n");
    assert_eq!(out, bytes(":0\r\n"));
    let out = run(&mut store, 1, "*4\r\n$6\r\nLRANGE\r\n$1\r\nk\r\n$1\r\n0\r\n$2\r\n-1\r\n");
    assert_eq!(out, bytes("*0\r\n"));
    let out = run(&mut store, 1, "*2\r\n$4\r\nLLEN\r\n$1\r\nk\r\n");
    assert_eq!(out, bytes(":0\r\n"));
}

#[test]
fn absent_key_list_reads() {
    let mut store = Store::new();
    let out = run(
        &mut store,
        0,
        "*4\r\n$6\r\nLRANGE\r\n$6\r\nabsent\r\n$1\r\n0\r\n$2\r\n10\r\n",
    );
    assert_eq!(out, bytes("*0\r\n"));
    let out = run(&mut store, 0, "*2\r\n$4\r\nLLEN\r\n$6\r\nabsent\r\n");
    assert_eq!(out, bytes(":0\r\n"));
    let out = run(&mut store, 0, "*2\r\n$4\r\nLPOP\r\n$6\r\nabsent\r\n");
    assert_eq!(out, bytes("$-1\r\n"));
}

#[test]
fn lpop_single_and_with_count() {
    let mut store = Store::new();
    run(
        &mut store,
        0,
        "*5\r\n$5\r\nRPUSH\r\n$1\r\nk\r\n$1\r\na\r\n$1\r\nb\r\n$1\r\nc\r\n",
    );
    let out = run(&mut store, 1, "*2\r\n$4\r\nLPOP\r\n$1\r\nk\r\n");
    assert_eq!(out, bytes("$1\r\na\r\n"));
    let out = run(&mut store, 2, "*3\r\n$4\r\nLPOP\r\n$1\r\nk\r\n$1\r\n2\r\n");
    assert_eq!(out, bytes("*2\r\n$1\r\nb\r\n$1\r\nc\r\n"));
    // the list is now empty: a plain pop gives the null bulk
    let out = run(&mut store, 3, "*2\r\n$4\r\nLPOP\r\n$1\r\nk\r\n");
    assert_eq!(out, bytes("$-1\r\n"));
    // and a counted pop on the empty list gives the null array
    let out = run(&mut store, 4, "*3\r\n$4\r\nLPOP\r\n$1\r\nk\r\n$1\r\n5\r\n");
    assert_eq!(out, bytes("*-1\r\n"));
}

#[test]
fn lpop_with_unreadable_count_has_no_effect() {
    // the frame is malformed, so nothing is popped and nothing is replied
    let mut store = Store::new();
    run(
        &mut store,
        0,
        "*4\r\n$5\r\nRPUSH\r\n$1\r\nk\r\n$1\r\na\r\n$1\r\nb\r\n",
    );
    let frame = bytes("*3\r\n$4\r\nLPOP\r\n$1\r\nk\r\n$2\r\n-1\r\n");
    assert!(parse_message(&frame).is_none());
    let out = run(&mut store, 1, "*2\r\n$4\r\nLLEN\r\n$1\r\nk\r\n");
    assert_eq!(out, bytes(":2\r\n"));
}

#[test]
fn lpop_count_of_at_least_length_empties_the_list() {
    let mut store = Store::new();
    run(&mut store, 0, "*4\r\n$5\r\nRPUSH\r\n$1\r\nk\r\n$1\r\na\r\n$1\r\nb\r\n");
    let out = run(&mut store, 1, "*3\r\n$4\r\nLPOP\r\n$1\r\nk\r\n$1\r\n9\r\n");
    assert_eq!(out, bytes("*2\r\n$1\r\na\r\n$1\r\nb\r\n"));
    let out = run(&mut store, 2, "*2\r\n$4\r\nLLEN\r\n$1\r\nk\r\n");
    assert_eq!(out, bytes(":0\r\n"));
}

#[test]
fn wrongtype_on_list_ops_against_scalar() {
    let mut store = Store::new();
    run(&mut store, 0, "*3\r\n$3\r\nSET\r\n$1\r\nk\r\n$1\r\nv\r\n");
    let out = run(&mut store, 1, "*3\r\n$5\r\nLPUSH\r\n$1\r\nk\r\n$1\r\nx\r\n");
    assert_eq!(out, bytes(WRONGTYPE));
    let out = run(&mut store, 1, "*3\r\n$5\r\nRPUSH\r\n$1\r\nk\r\n$1\r\nx\r\n");
    assert_eq!(out, bytes(WRONGTYPE));
    let out = run(&mut store, 1, "*2\r\n$4\r\nLLEN\r\n$1\r\nk\r\n");
    assert_eq!(out, bytes(WRONGTYPE));
    let out = run(&mut store, 1, "*2\r\n$4\r\nLPOP\r\n$1\r\nk\r\n");
    assert_eq!(out, bytes(WRONGTYPE));
    let out = run(&mut store, 1, "*4\r\n$6\r\nLRANGE\r\n$1\r\nk\r\n$1\r\n0\r\n$2\r\n-1\r\n");
    assert_eq!(out, bytes(WRONGTYPE));
    // the failed operations mutated nothing
    let out = run(&mut store, 2, "*2\r\n$3\r\nGET\r\n$1\r\nk\r\n");
    assert_eq!(out, bytes("$1\r\nv\r\n"));
}

#[test]
fn wrongtype_on_get_against_list() {
    let mut store = Store::new();
    run(&mut store, 0, "*3\r\n$5\r\nRPUSH\r\n$1\r\nk\r\n$1\r\na\r\n");
    let out = run(&mut store, 1, "*2\r\n$3\r\nGET\r\n$1\r\nk\r\n");
    assert_eq!(out, bytes(WRONGTYPE));
}

#[test]
fn blpop_scan_pops_the_head_of_the_first_ready_key() {
    let mut store = Store::new();
    run(&mut store, 0, "*3\r\n$5\r\nRPUSH\r\n$1\r\nq\r\n$5\r\nhello\r\n");
    let keys = vec![bytes("p"), bytes("q")];
    let (idx, value) = store.blpop_scan(&keys).expect("q holds an element");
    assert_eq!(idx, 1);
    assert_eq!(value, bytes("hello"));
    let reply = blpop_success_reply(&keys[idx], value);
    let out = encode_reply(&reply);
    assert_eq!(out, bytes("*2\r\n$1\r\nq\r\n$5\r\nhello\r\n"));
    // the element is consumed
    assert!(store.blpop_scan(&keys).is_none());
}

#[test]
fn blpop_scan_earlier_key_wins_ties() {
    let mut store = Store::new();
    run(&mut store, 0, "*3\r\n$5\r\nRPUSH\r\n$1\r\na\r\n$1\r\n1\r\n");
    run(&mut store, 0, "*3\r\n$5\r\nRPUSH\r\n$1\r\nb\r\n$1\r\n2\r\n");
    let keys = vec![bytes("a"), bytes("b")];
    let (idx, value) = store.blpop_scan(&keys).expect("both ready");
    assert_eq!(idx, 0);
    assert_eq!(value, bytes("1"));
}

#[test]
fn blpop_scan_skips_scalars_and_empty_lists() {
    let mut store = Store::new();
    run(&mut store, 0, "*3\r\n$3\r\nSET\r\n$1\r\ns\r\n$1\r\nv\r\n");
    run(&mut store, 0, "*2\r\n$5\r\nRPUSH\r\n$1\r\ne\r\n");
    let keys = vec![bytes("s"), bytes("e"), bytes("x")];
    assert!(store.blpop_scan(&keys).is_none());
}

#[test]
fn blpop_unblocks_after_push() {
    // client A blocks on q with timeout 0; client B pushes; A's next scan wins
    let mut store = Store::new();
    let keys = vec![bytes("q")];
    assert!(store.blpop_scan(&keys).is_none());
    assert!(!blpop_timed_out(0, 1_000_000));
    let cmd = parse_message(&bytes("*3\r\n$5\r\nRPUSH\r\n$1\r\nq\r\n$5\r\nhello\r\n")).unwrap();
    let (_, notify) = execute(&mut store, 0, &cmd);
    assert!(notify, "a committed push wakes the waiters");
    let (idx, value) = store.blpop_scan(&keys).expect("woken scan finds the element");
    let out = encode_reply(&blpop_success_reply(&keys[idx], value));
    assert_eq!(out, bytes("*2\r\n$1\r\nq\r\n$5\r\nhello\r\n"));
}

#[test]
fn blpop_timeout_decision() {
    assert!(!blpop_timed_out(0, 0));
    assert!(!blpop_timed_out(0, u64::MAX));
    assert!(!blpop_timed_out(500, 499));
    assert!(blpop_timed_out(500, 500));
    assert!(blpop_timed_out(500, 501));
}

#[test]
fn pushes_notify_reads_do_not() {
    let mut store = Store::new();
    let cmd = parse_message(&bytes("*3\r\n$5\r\nRPUSH\r\n$1\r\nk\r\n$1\r\na\r\n")).unwrap();
    assert!(execute(&mut store, 0, &cmd).1);
    let cmd = parse_message(&bytes("*3\r\n$5\r\nLPUSH\r\n$1\r\nk\r\n$1\r\nb\r\n")).unwrap();
    assert!(execute(&mut store, 0, &cmd).1);
    let cmd = parse_message(&bytes("*2\r\n$4\r\nLLEN\r\n$1\r\nk\r\n")).unwrap();
    assert!(!execute(&mut store, 0, &cmd).1);
    // a push rejected with WRONGTYPE does not notify
    let cmd = parse_message(&bytes("*3\r\n$3\r\nSET\r\n$1\r\ns\r\n$1\r\nv\r\n")).unwrap();
    execute(&mut store, 0, &cmd);
    let cmd = parse_message(&bytes("*3\r\n$5\r\nRPUSH\r\n$1\r\ns\r\n$1\r\nx\r\n")).unwrap();
    assert!(!execute(&mut store, 0, &cmd).1);
}

#[test]
fn reply_shapes_encode_exactly() {
    assert_eq!(encode_reply(&Reply::Integer(0)), bytes(":0\r\n"));
    assert_eq!(encode_reply(&Reply::Integer(1234567890)), bytes(":1234567890\r\n"));
    assert_eq!(encode_reply(&Reply::Integer(u64::MAX)), bytes(":18446744073709551615\r\n"));
    assert_eq!(encode_reply(&Reply::Simple("PONG".as_bytes().to_vec())), bytes("+PONG\r\n"));
    assert_eq!(encode_reply(&Reply::Bulk(Vec::new())), bytes("$0\r\n\r\n"));
    assert_eq!(encode_reply(&Reply::NullBulk), bytes("$-1\r\n"));
    assert_eq!(encode_reply(&Reply::NullArray), bytes("*-1\r\n"));
    assert_eq!(encode_reply(&Reply::Array(Vec::new())), bytes("*0\r\n"));
    let arr = Reply::Array(vec![bytes("ab"), Vec::new(), bytes("c")]);
    assert_eq!(encode_reply(&arr), bytes("*3\r\n$2\r\nab\r\n$0\r\n\r\n$1\r\nc\r\n"));
}

#[test]
fn payloads_are_byte_transparent() {
    let mut store = Store::new();
    // a value holding a 0xFF byte and an embedded zero
    let mut frame = bytes("*3\r\n$3\r\nSET\r\n$1\r\nk\r\n$2\r\n");
    frame.push(0xFF);
    frame.push(0x00);
    frame.extend_from_slice(b"\r\n");
    let cmd = parse_message(&frame).expect("frame should parse");
    match &cmd {
        Command::SetValue { value, .. } => assert_eq!(value, &vec![0xFF, 0x00]),
        _ => panic!("unexpected command"),
    }
    let (reply, _) = execute(&mut store, 0, &cmd);
    assert_eq!(encode_reply(&reply), bytes("+OK\r\n"));
    let out = run(&mut store, 1, "*2\r\n$3\r\nGET\r\n$1\r\nk\r\n");
    assert_eq!(out, vec![b'$', b'2', b'\r', b'\n', 0xFF, 0x00, b'\r', b'\n']);
}
