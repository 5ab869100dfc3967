use redis_lite::arg_parse::{get_n_strings, get_string, get_u64};
use redis_lite::handshake::{
    expect_response, handshake_command, handshake_failure, handshake_next, parse_fullresync, HandshakeStep,
};
use redis_lite::rdb::load_rdb;
use redis_lite::resp::{encode, RedisType};
use redis_lite::server::Server;
use redis_lite::store::{DataStore, DataType, IncrError};
use redis_lite::stream::{compare_ids, parse_bound, Bound, RedisStream, StreamId, XaddError};
use redis_lite::subscription::{Subscriptions, XreadSubscription};

fn b(s: &str) -> Vec<u8> {
    s.as_bytes().to_vec()
}

#[test]
fn stream_ids_strictly_increase() {
    let mut s = RedisStream::new();
    assert_eq!(s.insert(b"1-1", 0, vec![]), Ok(StreamId { ms: 1, seq: 1 }));
    assert_eq!(s.insert(b"1-*", 0, vec![]), Ok(StreamId { ms: 1, seq: 2 }));
    assert_eq!(s.insert(b"1-2", 0, vec![]), Err(XaddError::NotGreater));
    assert_eq!(s.insert(b"0-0", 0, vec![]), Err(XaddError::ZeroId));
    assert_eq!(s.insert(b"1-2-3", 0, vec![]), Err(XaddError::Malformed));
    assert_eq!(s.insert(b"*", 9, vec![(b("f"), b("v"))]), Ok(StreamId { ms: 9, seq: 0 }));
    let all = s.query(Bound::Min, Bound::Max);
    let ids: Vec<StreamId> = all.iter().map(|e| e.id).collect();
    assert_eq!(ids, vec![StreamId { ms: 1, seq: 1 }, StreamId { ms: 1, seq: 2 }, StreamId { ms: 9, seq: 0 }]);
    for w in ids.windows(2) {
        assert!((w[0].ms, w[0].seq) < (w[1].ms, w[1].seq));
    }
    assert_eq!(all[2].fields, vec![(b("f"), b("v"))]);
    let after = s.query_after(Bound::Ms(1));
    assert_eq!(after.len(), 1);
    assert_eq!(s.last_id_exec(), StreamId { ms: 9, seq: 0 });
}

#[test]
fn id_comparison_and_bounds() {
    let id = StreamId { ms: 5, seq: 3 };
    assert_eq!(compare_ids(&id, &Bound::Ms(5)), std::cmp::Ordering::Equal);
    assert_eq!(compare_ids(&id, &Bound::Id(StreamId { ms: 5, seq: 4 })), std::cmp::Ordering::Less);
    assert_eq!(compare_ids(&id, &Bound::Min), std::cmp::Ordering::Greater);
    assert_eq!(parse_bound(b"-"), Some(Bound::Min));
    assert_eq!(parse_bound(b"+"), Some(Bound::Max));
    assert_eq!(parse_bound(b"12"), Some(Bound::Ms(12)));
    assert_eq!(parse_bound(b"12-4"), Some(Bound::Id(StreamId { ms: 12, seq: 4 })));
    assert_eq!(parse_bound(b"a-4"), None);
}

#[test]
fn store_expiry_and_increment() {
    let mut st = DataStore::new();
    st.insert(b"k", DataType::String(b("v")), Some(100));
    assert!(st.get(b"k", 100).is_some());
    assert!(st.get(b"k", 101).is_none());
    assert!(st.keys(0).is_empty());
    assert_eq!(st.increment(b"n", 0), Ok(1));
    assert_eq!(st.increment(b"n", 0), Ok(2));
    st.insert(b"t", DataType::String(b("x1")), None);
    assert_eq!(st.increment(b"t", 0), Err(IncrError::NotAnInteger));
    st.reserve(10);
    let mut keys = st.keys(0);
    keys.sort();
    assert_eq!(keys, vec![b("n"), b("t")]);
}

#[test]
fn store_stream_reads() {
    let mut st = DataStore::new();
    assert_eq!(st.xadd(b"s", b"1-1", &[b("a"), b("1")], 0), Ok(StreamId { ms: 1, seq: 1 }));
    assert_eq!(st.xadd(b"s", b"2-1", &[b("a"), b("2"), b("odd")], 0), Ok(StreamId { ms: 2, seq: 1 }));
    let r = st.xrange(b"s", Bound::Min, Bound::Max, 0);
    assert_eq!(r.len(), 2);
    assert_eq!(r[1].fields, vec![(b("a"), b("2"))]);
    let mut ids = vec![b("$"), b("0-0")];
    st.xreadids(&vec![b("s"), b("none")], &mut ids, 0);
    assert_eq!(ids, vec![b("2-1"), b("0-0")]);
    let groups = st.xread(&vec![b("s")], &vec![Bound::Id(StreamId { ms: 1, seq: 1 })], 0);
    assert_eq!(groups.len(), 1);
    assert_eq!(groups[0].0, b("s"));
    assert_eq!(groups[0].1.len(), 1);
    assert!(st.xrange(b"missing", Bound::Min, Bound::Max, 0).is_empty());
}

#[test]
fn subscriptions_wake_the_oldest_match_once() {
    let mut subs = Subscriptions::new();
    subs.subscribe(XreadSubscription::new(1, vec![b("a")]));
    subs.subscribe(XreadSubscription::new(2, vec![b("a"), b("b")]));
    let s = XreadSubscription::new(3, vec![b("z")]);
    assert!(s.attempt_wakeup(b"z"));
    assert!(!s.attempt_wakeup(b"a"));
    assert_eq!(subs.wakeup_subscribers(b"b"), Some(2));
    assert_eq!(subs.wakeup_subscribers(b"a"), Some(1));
    assert_eq!(subs.wakeup_subscribers(b"a"), None);
}

#[test]
fn flag_lookup() {
    let args = vec![b("prog"), b("--PORT"), b("7000"), b("--replicaof"), b("localhost 6379")];
    assert_eq!(get_u64(b"--port", &args), Some(7000));
    assert_eq!(get_string(b"--replicaof", &args), Some(b("localhost 6379")));
    assert_eq!(get_n_strings(b"--port", &args, 2), Some(vec![b("7000"), b("--replicaof")]));
    assert_eq!(get_n_strings(b"--replicaof", &args, 2), None);
    assert_eq!(get_string(b"--dir", &args), None);
}

#[test]
fn snapshot_records() {
    let mut file = b"REDIS0011".to_vec();
    file.extend_from_slice(&[0xfa, 3]);
    file.extend_from_slice(b"ver");
    file.extend_from_slice(&[5]);
    file.extend_from_slice(b"7.2.0");
    file.extend_from_slice(&[0xfa, 4]);
    file.extend_from_slice(b"bits");
    file.extend_from_slice(&[0xc0, 64]);
    file.extend_from_slice(&[0xfe, 0, 0xfb, 2, 1]);
    file.extend_from_slice(&[0x00, 3]);
    file.extend_from_slice(b"foo");
    file.extend_from_slice(&[3]);
    file.extend_from_slice(b"bar");
    file.extend_from_slice(&[0xfc]);
    file.extend_from_slice(&1_700_000_000_000u64.to_le_bytes());
    file.extend_from_slice(&[0x00, 1]);
    file.extend_from_slice(b"k");
    file.extend_from_slice(&[0xc1, 0x2c, 0xfe]);
    file.extend_from_slice(&[0xfd]);
    file.extend_from_slice(&10u32.to_le_bytes());
    file.extend_from_slice(&[0x00, 1]);
    file.extend_from_slice(b"s");
    file.extend_from_slice(&[0xc2, 0xff, 0xff, 0xff, 0xff]);
    file.push(0xff);
    let recs = load_rdb(&file).unwrap();
    assert_eq!(recs.len(), 3);
    assert_eq!((recs[0].key.clone(), recs[0].value.clone(), recs[0].expire_at), (b("foo"), b("bar"), None));
    assert_eq!((recs[1].key.clone(), recs[1].value.clone(), recs[1].expire_at), (b("k"), b("-468"), Some(1_700_000_000_000)));
    assert_eq!((recs[2].key.clone(), recs[2].value.clone(), recs[2].expire_at), (b("s"), b("-1"), Some(10_000)));
    let mut server = Server::new(false, None, None, None, None);
    server.load_records(&recs);
    let mut s = redis_lite::server::Session::new();
    match s.step(&mut server, vec![b("GET"), b("foo")], 0) {
        redis_lite::server::Action::Reply(v) => assert_eq!(encode(&v), b"$3\r\nbar\r\n"),
        _ => panic!("expected a reply"),
    }
    assert!(load_rdb(&file[..file.len() - 1]).is_none());
    assert!(load_rdb(b"REDIS").is_none());
}

#[test]
fn handshake_helpers() {
    assert_eq!(handshake_command(0, 0), b"*1\r\n$4\r\nPING\r\n");
    assert_eq!(
        handshake_command(1, 6380),
        b"*3\r\n$8\r\nREPLCONF\r\n$14\r\nlistening-port\r\n$4\r\n6380\r\n"
    );
    assert_eq!(handshake_command(3, 0), b"*3\r\n$5\r\nPSYNC\r\n$1\r\n?\r\n$2\r\n-1\r\n");
    assert!(expect_response(&RedisType::SimpleString(b("PONG")), b"pong"));
    assert!(!expect_response(&RedisType::SimpleError(b("pong")), b"pong"));
    let full = RedisType::SimpleString(b("FULLRESYNC abc 42"));
    assert_eq!(parse_fullresync(&full), Some((b("abc"), 42)));
    assert_eq!(parse_fullresync(&RedisType::SimpleString(b("FULLRESYNC abc"))), None);
}

#[test]
fn handshake_steps() {
    let pong = RedisType::SimpleString(b("PONG"));
    let ok = RedisType::SimpleString(b("OK"));
    assert!(matches!(handshake_next(0, &pong), HandshakeStep::Send(1)));
    assert!(matches!(handshake_next(0, &ok), HandshakeStep::Failed(0)));
    assert!(matches!(handshake_next(1, &ok), HandshakeStep::Send(2)));
    assert!(matches!(handshake_next(2, &ok), HandshakeStep::Send(3)));
    assert!(matches!(handshake_next(2, &RedisType::SimpleError(b("ok"))), HandshakeStep::Failed(2)));
    match handshake_next(3, &RedisType::SimpleString(b("FULLRESYNC abc 7"))) {
        HandshakeStep::Synced(id, offset) => {
            assert_eq!(id, b("abc"));
            assert_eq!(offset, 7);
        }
        _ => panic!("expected the master id"),
    }
    assert!(matches!(handshake_next(3, &ok), HandshakeStep::Failed(3)));
    assert_eq!(handshake_failure(0), b("master did not respond to ping"));
}

#[test]
fn stream_star_id_with_clock_behind_is_rejected() {
    let mut s = RedisStream::new();
    assert_eq!(s.insert(b"10-0", 0, vec![]), Ok(StreamId { ms: 10, seq: 0 }));
    assert_eq!(s.insert(b"*", 5, vec![]), Err(XaddError::NotGreater));
    assert_eq!(s.insert(b"*", 10, vec![]), Ok(StreamId { ms: 10, seq: 1 }));
}

#[test]
fn fullresync_reply_must_name_itself() {
    assert_eq!(parse_fullresync(&RedisType::SimpleString(b("X a 1"))), None);
    assert_eq!(parse_fullresync(&RedisType::SimpleString(b("FULLRESYNC a 1 2"))), None);
    assert_eq!(parse_fullresync(&RedisType::SimpleString(b("FULLRESYNC a x"))), None);
    assert!(matches!(
        handshake_next(3, &RedisType::SimpleString(b("X a 1"))),
        HandshakeStep::Failed(3)
    ));
}
