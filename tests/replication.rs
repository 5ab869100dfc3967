use redis_lite::replication::WaitStep;
use redis_lite::resp::{decode, encode, RedisType};
use redis_lite::server::{parse_ack, parse_arguments, Action, Server, Session};

fn args(parts: &[&str]) -> Vec<Vec<u8>> {
    parts.iter().map(|p| p.as_bytes().to_vec()).collect()
}

fn apply_on_replica(replica: &mut Server, bytes: &[u8], now: u64) -> Vec<Vec<u8>> {
    let mut pos = 0;
    let mut answers = Vec::new();
    while pos < bytes.len() {
        let (frame, n) = decode(&bytes[pos..]).ok().unwrap();
        let a = parse_arguments(&frame).unwrap();
        if let Some(reply) = replica.replica_step(&a, n, now) {
            answers.push(encode(&reply));
        }
        pos += n as usize;
    }
    answers
}

#[test]
fn master_with_one_replica() {
    let mut master = Server::new(false, None, None, None, None);
    let mut replica = Server::new(true, Some(b"abc".to_vec()), Some(0), None, None);
    let idx = master.add_replica();
    assert_eq!(idx, 0);
    let mut client = Session::new();
    match client.step(&mut master, args(&["SET", "k", "v"]), 0) {
        Action::Reply(v) => assert_eq!(encode(&v), b"+OK\r\n"),
        _ => panic!("expected a reply"),
    }
    let sent = master.take_next(0).unwrap();
    assert!(apply_on_replica(&mut replica, &sent, 0).is_empty());
    let mut rs = Session::new();
    match rs.step(&mut replica, args(&["GET", "k"]), 0) {
        Action::Reply(v) => assert_eq!(encode(&v), b"$1\r\nv\r\n"),
        _ => panic!("expected a reply"),
    }
    let state = match client.step(&mut master, args(&["WAIT", "1", "1000"]), 0) {
        Action::Wait(st, timeout) => {
            assert_eq!(timeout, 1000);
            st
        }
        _ => panic!("expected a wait"),
    };
    assert_eq!(master.wait_poll(state, false), WaitStep::Poll(state));
    let getack = master.take_next(0).unwrap();
    let answers = apply_on_replica(&mut replica, &getack, 0);
    assert_eq!(answers.len(), 1);
    let (ack, _) = decode(&answers[0]).ok().unwrap();
    let offset = parse_ack(&ack).unwrap();
    assert!(offset <= master.master_repl_offset());
    master.record_ack(0, offset);
    assert_eq!(master.wait_poll(state, false), WaitStep::Reply(1));
    assert_eq!(offset, state.expected);
    assert_eq!(replica.master_repl_offset(), master.master_repl_offset());
}

#[test]
fn wait_with_nothing_propagated_counts_replicas() {
    let mut master = Server::new(false, None, None, None, None);
    master.add_replica();
    master.add_replica();
    let mut client = Session::new();
    match client.step(&mut master, args(&["WAIT", "5", "100"]), 0) {
        Action::Reply(v) => assert_eq!(encode(&v), b":2\r\n"),
        _ => panic!("expected a reply"),
    }
}

#[test]
fn wait_times_out_with_best_count() {
    let mut master = Server::new(false, None, None, None, None);
    master.add_replica();
    let mut client = Session::new();
    client.step(&mut master, args(&["SET", "a", "b"]), 0);
    let st = match client.step(&mut master, args(&["WAIT", "1", "10"]), 0) {
        Action::Wait(st, _) => st,
        _ => panic!("expected a wait"),
    };
    assert_eq!(master.wait_poll(st, true), WaitStep::Reply(0));
}

#[test]
fn doomed_replicas_are_swept() {
    let mut master = Server::new(false, None, None, None, None);
    master.add_replica();
    master.add_replica();
    master.mark_doomed(0);
    master.sweep();
    assert_eq!(master.replica_count(), 1);
}

#[test]
fn replica_ignores_other_commands_and_counts_bytes() {
    let mut replica = Server::new(true, None, Some(10), None, None);
    let r = replica.replica_step(&args(&["PING"]), 14, 0);
    assert!(r.is_none());
    assert_eq!(replica.master_repl_offset(), 24);
    let r = replica.replica_step(&args(&["REPLCONF", "GETACK", "*"]), 37, 0).unwrap();
    assert_eq!(encode(&r), b"*3\r\n$8\r\nREPLCONF\r\n$3\r\nACK\r\n$2\r\n24\r\n");
    assert_eq!(replica.master_repl_offset(), 61);
}

#[test]
fn psync_reply_and_ack_parsing() {
    let master = Server::new(false, None, None, None, None);
    assert_eq!(
        encode(&master.psync_reply()),
        b"+FULLRESYNC 8371b4fb1155b71f4a04d3e1bc3e18c4a990aeeb 0\r\n"
    );
    assert!(parse_ack(&RedisType::Integer(3)).is_none());
}

#[test]
fn wait_inside_a_batch_queues_getack_and_answers_at_once() {
    let mut master = Server::new(false, None, None, None, None);
    master.add_replica();
    let mut client = Session::new();
    client.step(&mut master, args(&["SET", "a", "b"]), 0);
    let before = master.master_repl_offset();
    client.step(&mut master, args(&["MULTI"]), 0);
    client.step(&mut master, args(&["WAIT", "1", "10"]), 0);
    match client.step(&mut master, args(&["EXEC"]), 0) {
        Action::Reply(v) => assert_eq!(encode(&v), b"*1\r\n:0\r\n"),
        _ => panic!("expected a reply"),
    }
    assert_eq!(master.master_repl_offset(), before + 37);
    master.take_next(0).unwrap();
    let getack = master.take_next(0).unwrap();
    assert_eq!(getack, b"*3\r\n$8\r\nREPLCONF\r\n$6\r\nGETACK\r\n$1\r\n*\r\n".to_vec());
}
