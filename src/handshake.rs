//! The replica's side of the handshake with its master.

use vstd::prelude::*;
use vstd::string::StringSliceAdditionalSpecFns;
use crate::resp::{RedisType, RespValue, bulk_array, bytes_views, convert_to_redis_bulk_string_array, encode, encode_spec};
use crate::arg_parse::{lower_seq, matches_lower};
use crate::decimal::{decimal_of, parse_u64_spec, parse_u64, push_decimal};
use crate::server::text;

verus! {

/// Whether the master's reply is the simple string `expected`, in any case.
pub fn expect_response(response: &RedisType, expected: &[u8]) -> (r: bool)
    ensures
        r == (match response@ {
            RespValue::SimpleString(t) => lower_seq(t) == expected@,
            _ => false,
        }),
{
    match response {
        RedisType::SimpleString(t) => matches_lower(t.as_slice(), expected),
        _ => false,
    }
}

/// The request of each handshake step: `PING`, `REPLCONF listening-port <port>`,
/// `REPLCONF capa psync2`, then `PSYNC ? -1`.
pub open spec fn handshake_request(step: u8, port: u64) -> Seq<u8> {
    encode_spec(
        bulk_array(
            if step == 0 {
                seq!["PING".spec_bytes()]
            } else if step == 1 {
                seq!["REPLCONF".spec_bytes(), "listening-port".spec_bytes(), decimal_of(port as nat)]
            } else if step == 2 {
                seq!["REPLCONF".spec_bytes(), "capa".spec_bytes(), "psync2".spec_bytes()]
            } else {
                seq!["PSYNC".spec_bytes(), "?".spec_bytes(), "-1".spec_bytes()]
            },
        ),
    )
}

/// The encoded request of handshake step `step` (0 to 3).
pub fn handshake_command(step: u8, port: u64) -> (r: Vec<u8>)
    ensures
        r@ == handshake_request(step, port),
{
    let parts: Vec<Vec<u8>> = if step == 0 {
        vec![text("PING")]
    } else if step == 1 {
        let mut p: Vec<u8> = Vec::new();
        push_decimal(&mut p, port);
        assert(p@ =~= decimal_of(port as nat));
        vec![text("REPLCONF"), text("listening-port"), p]
    } else if step == 2 {
        vec![text("REPLCONF"), text("capa"), text("psync2")]
    } else {
        vec![text("PSYNC"), text("?"), text("-1")]
    };
    let v = convert_to_redis_bulk_string_array(&parts);
    proof {
        if step == 0 {
            assert(bytes_views(parts@) =~= seq!["PING".spec_bytes()]);
        } else if step == 1 {
            assert(bytes_views(parts@) =~= seq!["REPLCONF".spec_bytes(), "listening-port".spec_bytes(), decimal_of(port as nat)]);
        } else if step == 2 {
            assert(bytes_views(parts@) =~= seq!["REPLCONF".spec_bytes(), "capa".spec_bytes(), "psync2".spec_bytes()]);
        } else {
            assert(bytes_views(parts@) =~= seq!["PSYNC".spec_bytes(), "?".spec_bytes(), "-1".spec_bytes()]);
        }
    }
    encode(&v)
}

/// The space-separated words of `t`.
pub open spec fn words(t: Seq<u8>) -> Seq<Seq<u8>>
    decreases t.len(),
{
    if t.len() == 0 {
        seq![Seq::empty()]
    } else {
        let w = words(t.drop_last());
        if t.last() == 32 {
            w.push(Seq::empty())
        } else {
            w.update(w.len() - 1, w.last().push(t.last()))
        }
    }
}

proof fn lemma_words_nonempty(t: Seq<u8>)
    ensures
        words(t).len() >= 1,
    decreases t.len(),
{
    if t.len() > 0 {
        lemma_words_nonempty(t.drop_last());
    }
}

/// The master's id and offset from `FULLRESYNC <replid> <offset>`: a simple string
/// of exactly three space-separated words, the first of them `FULLRESYNC`.
pub open spec fn fullresync_spec(v: RespValue) -> Option<(Seq<u8>, u64)> {
    match v {
        RespValue::SimpleString(t) => if words(t).len() == 3 && words(t)[0] == "FULLRESYNC".spec_bytes() {
            match parse_u64_spec(words(t)[2]) {
                Some(o) => Some((words(t)[1], o)),
                None => None,
            }
        } else {
            None
        },
        _ => None,
    }
}

fn split_words(t: &[u8]) -> (r: Vec<Vec<u8>>)
    ensures
        bytes_views(r@) == words(t@),
{
    let mut out: Vec<Vec<u8>> = Vec::new();
    out.push(Vec::new());
    let mut i: usize = 0;
    proof {
        assert(t@.subrange(0, 0) =~= Seq::<u8>::empty());
        assert(bytes_views(out@) =~= words(t@.subrange(0, 0)));
    }
    while i < t.len()
        invariant
            i <= t@.len(),
            out@.len() >= 1,
            bytes_views(out@) == words(t@.subrange(0, i as int)),
        decreases t@.len() - i,
    {
        let ghost before = out@;
        let b = t[i];
        assert(t@.subrange(0, i + 1).drop_last() =~= t@.subrange(0, i as int));
        if b == 32 {
            out.push(Vec::new());
            assert(bytes_views(out@) =~= bytes_views(before).push(Seq::empty()));
        } else {
            let last = out.len() - 1;
            let mut w = out.remove(last);
            w.push(b);
            out.push(w);
            assert(bytes_views(out@) =~= bytes_views(before).update(
                before.len() - 1,
                bytes_views(before).last().push(b),
            ));
        }
        i = i + 1;
    }
    assert(t@.subrange(0, i as int) =~= t@);
    out
}

/// Reads the master's id and offset from its reply to PSYNC.
pub fn parse_fullresync(v: &RedisType) -> (r: Option<(Vec<u8>, u64)>)
    ensures
        match fullresync_spec(v@) {
            Some((id, o)) => r matches Some((id2, o2)) && id2@ == id && o2 == o,
            None => r is None,
        },
{
    match v {
        RedisType::SimpleString(t) => {
            let ws = split_words(t.as_slice());
            if ws.len() != 3 {
                return None;
            }
            assert(bytes_views(ws@)[0] == ws@[0]@);
            if !crate::store::bytes_eq(ws[0].as_slice(), "FULLRESYNC".as_bytes()) {
                return None;
            }
            assert(bytes_views(ws@)[2] == ws@[2]@);
            assert(bytes_views(ws@)[1] == ws@[1]@);
            match parse_u64(ws[2].as_slice()) {
                Some(o) => Some((crate::stream::clone_bytes(&ws[1]), o)),
                None => None,
            }
        },
        _ => None,
    }
}

/// Where the handshake goes after a reply from the master.
pub enum HandshakeStep {
    /// Send the request of this step next.
    Send(u8),
    /// The master's replication id and offset: the snapshot frame comes next.
    Synced(Vec<u8>, u64),
    /// The master's reply to this step was not the one expected.
    Failed(u8),
}

/// The simple string the master answers steps 0 to 2 with, in any case.
pub open spec fn expected_reply(step: u8) -> Seq<u8> {
    if step == 0 {
        "pong".spec_bytes()
    } else {
        "ok".spec_bytes()
    }
}

pub open spec fn is_simple(v: RespValue, text: Seq<u8>) -> bool {
    match v {
        RespValue::SimpleString(t) => lower_seq(t) == text,
        _ => false,
    }
}

/// Takes the master's reply to the request of `step`: steps 0 to 2 go on to the
/// next step when the reply is the expected simple string, step 3 ends with the
/// id and offset of `FULLRESYNC`; any other reply stops the handshake.
pub fn handshake_next(step: u8, reply: &RedisType) -> (r: HandshakeStep)
    ensures
        step < 3 ==> if is_simple(reply@, expected_reply(step)) {
            r == HandshakeStep::Send((step + 1) as u8)
        } else {
            r == HandshakeStep::Failed(step)
        },
        step == 3 ==> match fullresync_spec(reply@) {
            Some((id, o)) => (r matches HandshakeStep::Synced(id2, o2) && id2@ == id && o2 == o),
            None => r == HandshakeStep::Failed(3),
        },
        step > 3 ==> r == HandshakeStep::Failed(step),
{
    if step < 3 {
        let ok = if step == 0 {
            expect_response(reply, "pong".as_bytes())
        } else {
            expect_response(reply, "ok".as_bytes())
        };
        if ok {
            HandshakeStep::Send(step + 1)
        } else {
            HandshakeStep::Failed(step)
        }
    } else if step == 3 {
        match parse_fullresync(reply) {
            Some((id, o)) => HandshakeStep::Synced(id, o),
            None => HandshakeStep::Failed(3),
        }
    } else {
        HandshakeStep::Failed(step)
    }
}

/// Why the handshake stopped at `step`.
pub open spec fn handshake_failure_text(step: u8) -> Seq<u8> {
    if step == 0 {
        "master did not respond to ping".spec_bytes()
    } else if step == 1 {
        "master didn't respond ok to first REPLCONF".spec_bytes()
    } else if step == 2 {
        "master didn't respond ok to second REPLCONF".spec_bytes()
    } else {
        "master did not answer PSYNC with FULLRESYNC".spec_bytes()
    }
}

pub fn handshake_failure(step: u8) -> (r: Vec<u8>)
    ensures
        r@ == handshake_failure_text(step),
{
    if step == 0 {
        text("master did not respond to ping")
    } else if step == 1 {
        text("master didn't respond ok to first REPLCONF")
    } else if step == 2 {
        text("master didn't respond ok to second REPLCONF")
    } else {
        text("master did not answer PSYNC with FULLRESYNC")
    }
}

} // verus!
