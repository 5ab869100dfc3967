use redis_lite::resp::{decode, encode, RedisType};
use redis_lite::server::{handle_command, parse_arguments, Action, Server, Session};

fn args(parts: &[&str]) -> Vec<Vec<u8>> {
    parts.iter().map(|p| p.as_bytes().to_vec()).collect()
}

fn run(session: &mut Session, server: &mut Server, parts: &[&str], now: u64) -> Vec<u8> {
    match session.step(server, args(parts), now) {
        Action::Reply(v) => encode(&v),
        _ => panic!("expected a reply"),
    }
}

fn master() -> Server {
    Server::new(false, None, None, None, None)
}

#[test]
fn set_then_get_and_type() {
    let mut server = master();
    let mut s = Session::new();
    assert_eq!(run(&mut s, &mut server, &["SET", "foo", "bar"], 0), b"+OK\r\n");
    assert_eq!(run(&mut s, &mut server, &["GET", "foo"], 0), b"$3\r\nbar\r\n");
    assert_eq!(run(&mut s, &mut server, &["TYPE", "foo"], 0), b"+string\r\n");
    assert_eq!(run(&mut s, &mut server, &["type", "nothing"], 0), b"+none\r\n");
}

#[test]
fn px_expiry_makes_get_null() {
    let mut server = master();
    let mut s = Session::new();
    assert_eq!(run(&mut s, &mut server, &["SET", "n", "10", "PX", "100"], 1000), b"+OK\r\n");
    assert_eq!(run(&mut s, &mut server, &["GET", "n"], 1050), b"$2\r\n10\r\n");
    assert_eq!(run(&mut s, &mut server, &["GET", "n"], 1200), b"$-1\r\n");
    assert_eq!(run(&mut s, &mut server, &["TYPE", "n"], 1200), b"+none\r\n");
}

#[test]
fn incr_counts_and_rejects_text() {
    let mut server = master();
    let mut s = Session::new();
    assert_eq!(run(&mut s, &mut server, &["INCR", "c"], 0), b":1\r\n");
    assert_eq!(run(&mut s, &mut server, &["INCR", "c"], 0), b":2\r\n");
    assert_eq!(run(&mut s, &mut server, &["INCR", "c"], 0), b":3\r\n");
    assert_eq!(run(&mut s, &mut server, &["SET", "c", "hi"], 0), b"+OK\r\n");
    assert_eq!(
        run(&mut s, &mut server, &["INCR", "c"], 0),
        b"-ERR value is not an integer or out of range\r\n"
    );
}

#[test]
fn incr_overflow_is_an_error() {
    let mut server = master();
    let mut s = Session::new();
    run(&mut s, &mut server, &["SET", "big", "9223372036854775807"], 0);
    assert_eq!(
        run(&mut s, &mut server, &["INCR", "big"], 0),
        b"-ERR value is not an integer or out of range\r\n"
    );
    run(&mut s, &mut server, &["SET", "neg", "-5"], 0);
    assert_eq!(run(&mut s, &mut server, &["INCR", "neg"], 0), b":-4\r\n");
}

#[test]
fn xadd_ids_and_xrange() {
    let mut server = master();
    let mut s = Session::new();
    assert_eq!(run(&mut s, &mut server, &["XADD", "s", "1-1", "a", "1"], 0), b"$3\r\n1-1\r\n");
    let second = run(&mut s, &mut server, &["XADD", "s", "1-1", "a", "2"], 0);
    assert!(second.starts_with(b"-ERR"));
    assert_eq!(run(&mut s, &mut server, &["XADD", "s", "1-2", "a", "2"], 0), b"$3\r\n1-2\r\n");
    let all = run(&mut s, &mut server, &["XRANGE", "s", "-", "+"], 0);
    let expected: &[u8] = b"*2\r\n*2\r\n$3\r\n1-1\r\n*2\r\n$1\r\na\r\n$1\r\n1\r\n*2\r\n$3\r\n1-2\r\n*2\r\n$1\r\na\r\n$1\r\n2\r\n";
    assert_eq!(all, expected);
    assert_eq!(run(&mut s, &mut server, &["TYPE", "s"], 0), b"+stream\r\n");
}

#[test]
fn xadd_error_messages() {
    let mut server = master();
    let mut s = Session::new();
    assert_eq!(
        run(&mut s, &mut server, &["XADD", "s", "0-0", "a", "1"], 0),
        b"-ERR The ID specified in XADD must be greater than 0-0\r\n"
    );
    assert_eq!(
        run(&mut s, &mut server, &["XADD", "s", "x-1", "a", "1"], 0),
        b"-ERR The ID specified in XADD is not a valid stream ID\r\n"
    );
    run(&mut s, &mut server, &["XADD", "s", "5-5", "a", "1"], 0);
    assert_eq!(
        run(&mut s, &mut server, &["XADD", "s", "4-*", "a", "1"], 0),
        b"-ERR The ID specified in XADD is equal or smaller than the target stream top item\r\n"
    );
    run(&mut s, &mut server, &["SET", "str", "v"], 0);
    assert_eq!(
        run(&mut s, &mut server, &["XADD", "str", "1-1", "a", "1"], 0),
        b"-Error, wrongtype operation\r\n"
    );
    assert_eq!(run(&mut s, &mut server, &["GET", "s"], 0), b"-Error, wrongtype operation\r\n");
}

#[test]
fn xadd_generated_ids() {
    let mut server = master();
    let mut s = Session::new();
    assert_eq!(run(&mut s, &mut server, &["XADD", "s", "0-*", "a", "1"], 0), b"$3\r\n0-1\r\n");
    assert_eq!(run(&mut s, &mut server, &["XADD", "s", "5-*", "a", "1"], 0), b"$3\r\n5-0\r\n");
    assert_eq!(run(&mut s, &mut server, &["XADD", "s", "5-*", "a", "1"], 0), b"$3\r\n5-1\r\n");
    assert_eq!(run(&mut s, &mut server, &["XADD", "s", "*", "a", "1"], 7), b"$3\r\n7-0\r\n");
    assert_eq!(run(&mut s, &mut server, &["XADD", "s", "*", "a", "1"], 7), b"$3\r\n7-1\r\n");
    assert_eq!(
        run(&mut s, &mut server, &["XADD", "s", "*", "a", "1"], 3),
        b"-ERR The ID specified in XADD is equal or smaller than the target stream top item\r\n"
    );
    assert_eq!(run(&mut s, &mut server, &["XADD", "s", "*", "a", "1"], 7), b"$3\r\n7-2\r\n");
}

#[test]
fn xrange_bounds_without_sequence() {
    let mut server = master();
    let mut s = Session::new();
    run(&mut s, &mut server, &["XADD", "s", "1-1", "a", "1"], 0);
    run(&mut s, &mut server, &["XADD", "s", "2-1", "b", "2"], 0);
    run(&mut s, &mut server, &["XADD", "s", "3-1", "c", "3"], 0);
    let mid = run(&mut s, &mut server, &["XRANGE", "s", "2", "2"], 0);
    assert_eq!(mid, b"*1\r\n*2\r\n$3\r\n2-1\r\n*2\r\n$1\r\nb\r\n$1\r\n2\r\n".to_vec());
    let bad = run(&mut s, &mut server, &["XRANGE", "s", "x", "+"], 0);
    assert!(bad.starts_with(b"-ERR"));
}

#[test]
fn xread_after_id_and_dollar() {
    let mut server = master();
    let mut s = Session::new();
    run(&mut s, &mut server, &["XADD", "s", "1-1", "a", "1"], 0);
    run(&mut s, &mut server, &["XADD", "s", "1-2", "a", "2"], 0);
    let r = run(&mut s, &mut server, &["XREAD", "STREAMS", "s", "1-1"], 0);
    assert_eq!(r, b"*1\r\n*2\r\n$1\r\ns\r\n*1\r\n*2\r\n$3\r\n1-2\r\n*2\r\n$1\r\na\r\n$1\r\n2\r\n".to_vec());
    assert_eq!(run(&mut s, &mut server, &["XREAD", "STREAMS", "s", "$"], 0), b"$-1\r\n");
    assert_eq!(run(&mut s, &mut server, &["XREAD", "streams", "none", "0-0"], 0), b"$-1\r\n");
}

#[test]
fn xread_block_hands_over_the_wait() {
    let mut server = master();
    let mut s = Session::new();
    run(&mut s, &mut server, &["XADD", "s", "1-1", "a", "1"], 0);
    match s.step(&mut server, args(&["XREAD", "BLOCK", "0", "STREAMS", "s", "$"]), 0) {
        Action::Block(keys, starts, ms) => {
            assert_eq!(ms, 0);
            server.subscribe(9, keys.clone());
            let mut other = Session::new();
            run(&mut other, &mut server, &["XADD", "s", "1-5", "b", "2"], 0);
            assert_eq!(server.take_woken(), vec![9]);
            let r = encode(&server.xread_reply(&keys, &starts, 0));
            assert_eq!(r, b"*1\r\n*2\r\n$1\r\ns\r\n*1\r\n*2\r\n$3\r\n1-5\r\n*2\r\n$1\r\nb\r\n$1\r\n2\r\n".to_vec());
        }
        _ => panic!("expected a blocking read"),
    }
}

#[test]
fn multi_exec_batch() {
    let mut server = master();
    let mut s = Session::new();
    assert_eq!(run(&mut s, &mut server, &["MULTI"], 0), b"+OK\r\n");
    assert_eq!(run(&mut s, &mut server, &["SET", "x", "1"], 0), b"+QUEUED\r\n");
    assert_eq!(run(&mut s, &mut server, &["INCR", "x"], 0), b"+QUEUED\r\n");
    assert_eq!(run(&mut s, &mut server, &["GET", "x"], 0), b"+QUEUED\r\n");
    assert_eq!(run(&mut s, &mut server, &["EXEC"], 0), b"*3\r\n+OK\r\n:2\r\n$1\r\n2\r\n");
    assert_eq!(run(&mut s, &mut server, &["EXEC"], 0), b"-ERR EXEC without MULTI\r\n");
}

#[test]
fn ping_echo_unknown_and_arity() {
    let mut server = master();
    let mut s = Session::new();
    assert_eq!(run(&mut s, &mut server, &["PiNg"], 0), b"+PONG\r\n");
    assert_eq!(run(&mut s, &mut server, &["ECHO", "hey"], 0), b"$3\r\nhey\r\n");
    assert_eq!(run(&mut s, &mut server, &["FLY"], 0), b"-Error, unsupported command\r\n");
    assert_eq!(run(&mut s, &mut server, &["GET"], 0), b"-ERR wrong number of arguments\r\n");
}

#[test]
fn config_info_keys() {
    let mut server = Server::new(false, None, None, Some(b"/tmp".to_vec()), None);
    let mut s = Session::new();
    assert_eq!(
        run(&mut s, &mut server, &["CONFIG", "GET", "dir"], 0),
        b"*2\r\n$3\r\ndir\r\n$4\r\n/tmp\r\n"
    );
    assert_eq!(
        run(&mut s, &mut server, &["CONFIG", "GET", "dbfilename"], 0),
        b"*2\r\n$10\r\ndbfilename\r\n$9\r\nempty.rdb\r\n"
    );
    assert_eq!(
        run(&mut s, &mut server, &["CONFIG", "GET", "port"], 0),
        b"-Error, unknown config field\r\n"
    );
    let info = run(&mut s, &mut server, &["INFO"], 0);
    let text = String::from_utf8(info).unwrap();
    assert!(text.contains("role:master\n"));
    assert!(text.contains("master_replid:8371b4fb1155b71f4a04d3e1bc3e18c4a990aeeb\n"));
    assert!(text.contains("master_repl_offset:0\n"));
    run(&mut s, &mut server, &["SET", "a", "1"], 0);
    run(&mut s, &mut server, &["SET", "b", "2", "px", "5"], 0);
    let keys = run(&mut s, &mut server, &["KEYS", "*"], 100);
    assert_eq!(keys, b"*1\r\n$1\r\na\r\n".to_vec());
}

#[test]
fn write_advances_master_offset_by_encoded_length() {
    let mut server = master();
    let mut s = Session::new();
    let cmd = args(&["SET", "k", "v"]);
    let encoded = encode(&redis_lite::resp::convert_to_redis_bulk_string_array(&cmd));
    run(&mut s, &mut server, &["SET", "k", "v"], 0);
    assert_eq!(server.master_repl_offset(), encoded.len() as u64);
    run(&mut s, &mut server, &["GET", "k"], 0);
    assert_eq!(server.master_repl_offset(), encoded.len() as u64);
    run(&mut s, &mut server, &["INCR", "n"], 0);
    let incr = encode(&redis_lite::resp::convert_to_redis_bulk_string_array(&args(&["INCR", "n"])));
    assert_eq!(incr.len(), 21);
    assert_eq!(server.master_repl_offset(), (encoded.len() + incr.len()) as u64);
}

#[test]
fn handle_command_matches_session_reply() {
    let mut server = master();
    let r = handle_command(&args(&["ECHO", "x"]), &mut server, 0);
    assert_eq!(encode(&r), b"$1\r\nx\r\n");
}

#[test]
fn command_frames_become_arguments() {
    let (v, n) = decode(b"*2\r\n$4\r\nECHO\r\n$2\r\nhi\r\n").ok().unwrap();
    assert_eq!(n, 22);
    assert_eq!(parse_arguments(&v), Some(args(&["ECHO", "hi"])));
    let (v, _) = decode(b"*1\r\n:5\r\n").ok().unwrap();
    assert_eq!(parse_arguments(&v), None);
    assert!(parse_arguments(&RedisType::Null).is_none());
}

#[test]
fn rejected_xadd_still_creates_the_stream() {
    let mut server = master();
    let mut s = Session::new();
    assert!(run(&mut s, &mut server, &["XADD", "fresh", "0-0", "a", "1"], 0).starts_with(b"-ERR"));
    assert_eq!(run(&mut s, &mut server, &["TYPE", "fresh"], 0), b"+stream\r\n");
    assert_eq!(run(&mut s, &mut server, &["XRANGE", "fresh", "-", "+"], 0), b"*0\r\n");
}
