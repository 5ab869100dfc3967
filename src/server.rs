//! The command executor: the server's state and what each command does to it.

use vstd::prelude::*;
use vstd::slice::slice_to_vec;
use vstd::string::StringSliceAdditionalSpecFns;
use crate::decimal::{decimal_of, parse_u64_spec, parse_u64, push_decimal, signed_decimal_of};
use crate::resp::{
    RedisType, RespValue, bulk_array, bytes_views, convert_to_redis_bulk_string_array, encode,
    encode_spec, values_of, lemma_values_of, lemma_values_of_push,
};
use crate::store::{
    DataStore, DataType, DataView, KeyspaceView, live_value, without_expired, incremented,
    xadd_effect, last_id_of, read_groups, group_view,
};
use crate::replication::{
    Replication, ReplicationView, propagated, WaitState, WaitStep, count_acked_spec, acks_within,
    lemma_propagation_keeps_acks_within,
};
use crate::subscription::{Subscriptions, XreadSubscription, first_waiting};
use crate::stream::{
    StreamId, StreamEntry, Bound, XaddError, id_text, xadd_error_text, xadd_error_message,
    format_id, fields_view, view_entries, in_range, bound_spec, parse_bound,
};
use crate::arg_parse::{lower_seq, matches_lower, n_strings_spec, args_view, get_u64, token_from, find_token};
use crate::stream::clone_bytes;
use crate::rdb::{RdbRecord, RecordView, records_view};

verus! {

/// The id this server reports as its own replication id.
pub const DEFAULT_REPLID: &'static str = "8371b4fb1155b71f4a04d3e1bc3e18c4a990aeeb";

/// The server's state, as the commands see it.
pub struct ServerView {
    pub role: Seq<u8>,
    pub replid: Seq<u8>,
    pub master_replid: Seq<u8>,
    pub dir: Seq<u8>,
    pub dbfilename: Seq<u8>,
    pub store: KeyspaceView,
    pub rep: ReplicationView,
    pub subs: Seq<(u64, Seq<Seq<u8>>)>,
    pub woken: Seq<u64>,
}

/// The shared state of one server process.
pub struct Server {
    role: Vec<u8>,
    replid: Vec<u8>,
    master_replid: Vec<u8>,
    dir: Vec<u8>,
    dbfilename: Vec<u8>,
    data_store: DataStore,
    replication: Replication,
    xread_subscriptions: Subscriptions,
    woken: Vec<u64>,
}

impl View for Server {
    type V = ServerView;

    closed spec fn view(&self) -> ServerView {
        ServerView {
            role: self.role@,
            replid: self.replid@,
            master_replid: self.master_replid@,
            dir: self.dir@,
            dbfilename: self.dbfilename@,
            store: self.data_store@,
            rep: self.replication@,
            subs: self.xread_subscriptions@,
            woken: self.woken@,
        }
    }
}

/// The bytes of a text literal.
pub fn text(s: &str) -> (r: Vec<u8>)
    ensures
        r@ == s.spec_bytes(),
{
    slice_to_vec(s.as_bytes())
}

pub open spec fn ok_reply() -> RespValue {
    RespValue::SimpleString("OK".spec_bytes())
}

pub open spec fn arity_error() -> RespValue {
    RespValue::SimpleError("ERR wrong number of arguments".spec_bytes())
}

pub open spec fn offset_error() -> RespValue {
    RespValue::SimpleError("ERR replication offset overflow".spec_bytes())
}

/// What `GET` replies for the value found.
pub open spec fn get_reply(v: Option<DataView>) -> RespValue {
    match v {
        None => RespValue::BulkString(None),
        Some(DataView::Str(s)) => RespValue::BulkString(Some(s)),
        Some(DataView::Stream(_, _)) => RespValue::SimpleError(
            "Error, wrongtype operation".spec_bytes(),
        ),
    }
}

/// What `TYPE` replies for the value found.
pub open spec fn type_reply(v: Option<DataView>) -> RespValue {
    RespValue::SimpleString(
        match v {
            None => "none".spec_bytes(),
            Some(DataView::Str(_)) => "string".spec_bytes(),
            Some(DataView::Stream(_, _)) => "stream".spec_bytes(),
        },
    )
}

/// The expiry time that `SET`'s options ask for: `PX ms` after the key and value,
/// counted from `now`.
pub open spec fn px_expiry(args: Seq<Seq<u8>>, now: u64) -> Option<u64> {
    match n_strings_spec(args.skip(3), "px".spec_bytes(), 1) {
        Some(s) => match parse_u64_spec(s[0]) {
            Some(ms) => if now + ms <= u64::MAX {
                Some((now + ms) as u64)
            } else {
                None
            },
            None => None,
        },
        None => None,
    }
}

/// The propagated form of a command: the array of its arguments, encoded.
pub open spec fn command_bytes(args: Seq<Seq<u8>>) -> Seq<u8> {
    encode_spec(bulk_array(args))
}

/// A write applied locally and, when `propagate` holds, sent on to the replicas.
/// When the offset cannot grow by the command's length nothing changes and the
/// reply is an error.
pub open spec fn write_effect(
    old: ServerView,
    args: Seq<Seq<u8>>,
    propagate: bool,
    store: KeyspaceView,
    reply: RespValue,
    new: ServerView,
    r: RespValue,
) -> bool {
    if propagate && old.rep.offset + command_bytes(args).len() > u64::MAX {
        new == old && r == offset_error()
    } else {
        new == (ServerView {
            store,
            rep: if propagate {
                propagated(old.rep, command_bytes(args))
            } else {
                old.rep
            },
            ..old
        }) && r == reply
    }
}

/// `INFO`'s text.
pub open spec fn info_text(v: ServerView) -> Seq<u8> {
    "role:".spec_bytes() + v.role + "\nmaster_replid:".spec_bytes() + v.replid
        + "\nmaster_repl_offset:".spec_bytes() + decimal_of(v.rep.offset as nat) + "\n".spec_bytes()
}

/// `REPLCONF`'s reply: the offset for `GETACK`, else `OK`.
pub open spec fn replconf_reply(v: ServerView, args: Seq<Seq<u8>>) -> RespValue {
    if args.len() > 1 && lower_seq(args[1]) == "getack".spec_bytes() {
        bulk_array(seq!["REPLCONF".spec_bytes(), "ACK".spec_bytes(), decimal_of(v.rep.offset as nat)])
    } else {
        ok_reply()
    }
}

/// `CONFIG GET`'s reply for the field named third.
pub open spec fn config_reply(v: ServerView, field: Seq<u8>) -> RespValue {
    if lower_seq(field) == "dir".spec_bytes() {
        bulk_array(seq!["dir".spec_bytes(), v.dir])
    } else if lower_seq(field) == "dbfilename".spec_bytes() {
        bulk_array(seq!["dbfilename".spec_bytes(), v.dbfilename])
    } else {
        RespValue::SimpleError("Error, unknown config field".spec_bytes())
    }
}

impl Server {
    pub closed spec fn wf(&self) -> bool {
        self.data_store.wf()
    }

    /// A server with an empty store. A replica records the master's replication id
    /// and offset; a master starts at offset 0. `dir` and `dbfilename` default to
    /// `.` and `empty.rdb`.
    pub fn new(
        replica: bool,
        master_replid: Option<Vec<u8>>,
        master_repl_offset: Option<u64>,
        dir: Option<Vec<u8>>,
        dbfilename: Option<Vec<u8>>,
    ) -> (r: Server)
        ensures
            r.wf(),
            r@.role == (if replica {
                "slave".spec_bytes()
            } else {
                "master".spec_bytes()
            }),
            r@.replid == DEFAULT_REPLID.spec_bytes(),
            r@.master_replid == (match master_replid {
                Some(m) => m@,
                None => DEFAULT_REPLID.spec_bytes(),
            }),
            r@.rep.offset == (match master_repl_offset {
                Some(o) => o,
                None => 0,
            }),
            r@.rep.replicas.len() == 0,
            r@.dir == (match dir {
                Some(d) => d@,
                None => ".".spec_bytes(),
            }),
            r@.dbfilename == (match dbfilename {
                Some(d) => d@,
                None => "empty.rdb".spec_bytes(),
            }),
            r@.store == Map::<Seq<u8>, (DataView, Option<u64>)>::empty(),
            r@.subs.len() == 0,
            r@.woken.len() == 0,
    {
        let role = if replica {
            text("slave")
        } else {
            text("master")
        };
        let master_replid = match master_replid {
            Some(m) => m,
            None => text(DEFAULT_REPLID),
        };
        let offset = match master_repl_offset {
            Some(o) => o,
            None => 0,
        };
        let dir = match dir {
            Some(d) => d,
            None => text("."),
        };
        let dbfilename = match dbfilename {
            Some(d) => d,
            None => text("empty.rdb"),
        };
        Server {
            role,
            replid: text(DEFAULT_REPLID),
            master_replid,
            dir,
            dbfilename,
            data_store: DataStore::new(),
            replication: Replication::new(offset),
            xread_subscriptions: Subscriptions::new(),
            woken: Vec::new(),
        }
    }

    /// Sends `command` on to every replica and advances the offset by its length;
    /// false, with nothing changed, when the offset would overflow.
    pub fn queue_send_to_replications(&mut self, command: &Vec<u8>) -> (r: bool)
        ensures
            r == (old(self)@.rep.offset + command@.len() <= u64::MAX),
            r ==> final(self)@ == (ServerView { rep: propagated(old(self)@.rep, command@), ..old(self)@ }),
            !r ==> final(self)@ == old(self)@,
            final(self).wf() == old(self).wf(),
    {
        self.replication.queue_send_to_replications(command)
    }
}

/// `GET k`.
pub fn get(arguments: &Vec<Vec<u8>>, server: &mut Server, now: u64) -> (r: RedisType)
    requires
        old(server).wf(),
        arguments@.len() >= 2,
    ensures
        final(server).wf(),
        r@ == get_reply(live_value(old(server)@.store, arguments@[1]@, now)),
        final(server)@ == (ServerView {
            store: without_expired(old(server)@.store, arguments@[1]@, now),
            ..old(server)@
        }),
{
    match server.data_store.get(arguments[1].as_slice(), now) {
        None => RedisType::BulkString(None),
        Some(DataType::String(s)) => RedisType::BulkString(Some(s)),
        Some(DataType::Stream(_)) => RedisType::SimpleError(text("Error, wrongtype operation")),
    }
}

/// `TYPE k`.
pub fn value_type(arguments: &Vec<Vec<u8>>, server: &mut Server, now: u64) -> (r: RedisType)
    requires
        old(server).wf(),
        arguments@.len() >= 2,
    ensures
        final(server).wf(),
        r@ == type_reply(live_value(old(server)@.store, arguments@[1]@, now)),
        final(server)@ == (ServerView {
            store: without_expired(old(server)@.store, arguments@[1]@, now),
            ..old(server)@
        }),
{
    let name = match server.data_store.get(arguments[1].as_slice(), now) {
        None => text("none"),
        Some(DataType::String(_)) => text("string"),
        Some(DataType::Stream(_)) => text("stream"),
    };
    RedisType::SimpleString(name)
}

/// Sends the encoded command on when `propagate` holds; false when the offset
/// cannot take it.
fn propagate_command(arguments: &Vec<Vec<u8>>, server: &mut Server, propagate: bool) -> (r: bool)
    ensures
        r == !(propagate && old(server)@.rep.offset + command_bytes(args_view(arguments@)).len()
            > u64::MAX),
        final(server)@ == if propagate && r {
            ServerView {
                rep: propagated(old(server)@.rep, command_bytes(args_view(arguments@))),
                ..old(server)@
            }
        } else {
            old(server)@
        },
        final(server).wf() == old(server).wf(),
{
    if !propagate {
        return true;
    }
    let command = encode(&convert_to_redis_bulk_string_array(arguments));
    assert(bytes_views(arguments@) =~= args_view(arguments@));
    server.queue_send_to_replications(&command)
}

/// Whether the propagated form of the command fits in the offset.
fn fits_offset(arguments: &Vec<Vec<u8>>, server: &Server, propagate: bool) -> (r: bool)
    ensures
        r == !(propagate && server@.rep.offset + command_bytes(args_view(arguments@)).len()
            > u64::MAX),
{
    if !propagate {
        return true;
    }
    let command = encode(&convert_to_redis_bulk_string_array(arguments));
    assert(bytes_views(arguments@) =~= args_view(arguments@));
    server.replication.master_repl_offset() <= u64::MAX - command.len() as u64
}

/// The arguments from position `from` on.
fn tail(arguments: &Vec<Vec<u8>>, from: usize) -> (r: Vec<Vec<u8>>)
    requires
        from <= arguments@.len(),
    ensures
        args_view(r@) == args_view(arguments@).skip(from as int),
{
    let mut out: Vec<Vec<u8>> = Vec::new();
    let mut i: usize = from;
    while i < arguments.len()
        invariant
            from <= i <= arguments@.len(),
            args_view(out@) == args_view(arguments@).subrange(from as int, i as int),
        decreases arguments@.len() - i,
    {
        let ghost before = out@;
        out.push(clone_bytes(&arguments[i]));
        assert(args_view(out@) =~= args_view(before).push(arguments@[i as int]@));
        assert(args_view(arguments@).subrange(from as int, i + 1) =~= args_view(arguments@).subrange(
            from as int,
            i as int,
        ).push(arguments@[i as int]@));
        i = i + 1;
    }
    assert(args_view(arguments@).subrange(from as int, i as int) =~= args_view(arguments@).skip(
        from as int,
    ));
    out
}

/// `SET k v [PX ms]`: stores the string with the expiry that `PX` asks for (none
/// without it), and on a client connection sends the command on to the replicas.
pub fn set(arguments: &Vec<Vec<u8>>, server: &mut Server, now: u64, propagate: bool) -> (r: RedisType)
    requires
        old(server).wf(),
        arguments@.len() >= 3,
    ensures
        final(server).wf(),
        write_effect(
            old(server)@,
            args_view(arguments@),
            propagate,
            old(server)@.store.insert(
                arguments@[1]@,
                (DataView::Str(arguments@[2]@), px_expiry(args_view(arguments@), now)),
            ),
            ok_reply(),
            final(server)@,
            r@,
        ),
{
    if !fits_offset(arguments, server, propagate) {
        return RedisType::SimpleError(text("ERR replication offset overflow"));
    }
    let options = tail(arguments, 3);
    assert(args_view(arguments@).skip(3) == args_view(options@));
    let expire_at = match get_u64("px".as_bytes(), &options) {
        Some(ms) => {
            if now <= u64::MAX - ms {
                Some(now + ms)
            } else {
                None
            }
        },
        None => None,
    };
    server.data_store.insert(
        arguments[1].as_slice(),
        DataType::String(clone_bytes(&arguments[2])),
        expire_at,
    );
    propagate_command(arguments, server, propagate);
    RedisType::SimpleString(text("OK"))
}

/// `INCR k`: adds one to the integer under the key (a missing key counts as 0),
/// and on a client connection sends the command on to the replicas.
pub fn incr(arguments: &Vec<Vec<u8>>, server: &mut Server, now: u64, propagate: bool) -> (r: RedisType)
    requires
        old(server).wf(),
        arguments@.len() >= 2,
    ensures
        final(server).wf(),
        ({
            let m = without_expired(old(server)@.store, arguments@[1]@, now);
            let k = arguments@[1]@;
            match incremented(live_value(old(server)@.store, k, now)) {
                Some(n) => write_effect(
                    old(server)@,
                    args_view(arguments@),
                    propagate,
                    m.insert(
                        k,
                        (
                            DataView::Str(signed_decimal_of(n as int)),
                            if m.contains_key(k) {
                                m[k].1
                            } else {
                                None
                            },
                        ),
                    ),
                    RespValue::Integer(n),
                    final(server)@,
                    r@,
                ),
                None => write_effect(
                    old(server)@,
                    args_view(arguments@),
                    propagate,
                    m,
                    RespValue::SimpleError(
                        "ERR value is not an integer or out of range".spec_bytes(),
                    ),
                    final(server)@,
                    r@,
                ),
            }
        }),
{
    if !fits_offset(arguments, server, propagate) {
        return RedisType::SimpleError(text("ERR replication offset overflow"));
    }
    let result = server.data_store.increment(arguments[1].as_slice(), now);
    propagate_command(arguments, server, propagate);
    match result {
        Ok(n) => RedisType::Integer(n),
        Err(_) => RedisType::SimpleError(text("ERR value is not an integer or out of range")),
    }
}

/// `INFO`.
pub fn info(server: &Server) -> (r: RedisType)
    ensures
        r@ == RespValue::BulkString(Some(info_text(server@))),
{
    let mut out = text("role:");
    crate::resp::push_bytes(&mut out, server.role.as_slice());
    crate::resp::push_bytes(&mut out, "\nmaster_replid:".as_bytes());
    crate::resp::push_bytes(&mut out, server.replid.as_slice());
    crate::resp::push_bytes(&mut out, "\nmaster_repl_offset:".as_bytes());
    push_decimal(&mut out, server.replication.master_repl_offset());
    crate::resp::push_bytes(&mut out, "\n".as_bytes());
    assert(out@ =~= info_text(server@));
    RedisType::BulkString(Some(out))
}

/// `REPLCONF ...`: `GETACK` asks for the offset; anything else is acknowledged.
pub fn replconf(arguments: &Vec<Vec<u8>>, server: &Server) -> (r: RedisType)
    ensures
        r@ == replconf_reply(server@, args_view(arguments@)),
{
    if arguments.len() > 1 && matches_lower(arguments[1].as_slice(), "getack".as_bytes()) {
        let mut offset: Vec<u8> = Vec::new();
        push_decimal(&mut offset, server.replication.master_repl_offset());
        let parts = vec![text("REPLCONF"), text("ACK"), offset];
        let r = convert_to_redis_bulk_string_array(&parts);
        assert(bytes_views(parts@) =~= seq![
            "REPLCONF".spec_bytes(),
            "ACK".spec_bytes(),
            decimal_of(server@.rep.offset as nat),
        ]);
        r
    } else {
        RedisType::SimpleString(text("OK"))
    }
}

/// `CONFIG GET field`.
pub fn config(arguments: &Vec<Vec<u8>>, server: &Server) -> (r: RedisType)
    requires
        arguments@.len() >= 3,
    ensures
        r@ == config_reply(server@, arguments@[2]@),
{
    if matches_lower(arguments[2].as_slice(), "dir".as_bytes()) {
        let parts = vec![text("dir"), clone_bytes(&server.dir)];
        let r = convert_to_redis_bulk_string_array(&parts);
        assert(bytes_views(parts@) =~= seq!["dir".spec_bytes(), server@.dir]);
        r
    } else if matches_lower(arguments[2].as_slice(), "dbfilename".as_bytes()) {
        let parts = vec![text("dbfilename"), clone_bytes(&server.dbfilename)];
        let r = convert_to_redis_bulk_string_array(&parts);
        assert(bytes_views(parts@) =~= seq!["dbfilename".spec_bytes(), server@.dbfilename]);
        r
    } else {
        RedisType::SimpleError(text("Error, unknown config field"))
    }
}

/// `KEYS`: every key whose time has not passed, each once.
pub fn keys(server: &Server, now: u64) -> (r: RedisType)
    requires
        server.wf(),
    ensures
        exists|ks: Seq<Seq<u8>>|
            r@ == bulk_array(ks) && (forall|i: int|
                0 <= i < ks.len() ==> live_value(server@.store, #[trigger] ks[i], now) is Some) && (
            forall|k: Seq<u8>| #[trigger]
                live_value(server@.store, k, now) is Some ==> ks.contains(k)) && (forall|i: int, j: int|
                0 <= i < j < ks.len() ==> #[trigger] ks[i] != #[trigger] ks[j]),
{
    let ks = server.data_store.keys(now);
    let r = convert_to_redis_bulk_string_array(&ks);
    let ghost kv = bytes_views(ks@);
    assert forall|k: Seq<u8>| #[trigger] live_value(server@.store, k, now) is Some implies kv.contains(k) by {
        let i = choose|i: int| 0 <= i < ks@.len() && (#[trigger] ks@[i])@ == k;
        assert(kv[i] == k);
    }
    assert forall|i: int, j: int| 0 <= i < j < kv.len() implies #[trigger] kv[i] != #[trigger] kv[j] by {
        assert(kv[i] == ks@[i]@);
        assert(kv[j] == ks@[j]@);
    }
    assert forall|i: int| 0 <= i < kv.len() implies live_value(server@.store, #[trigger] kv[i], now) is Some by {
        assert(kv[i] == ks@[i]@);
    }
    r
}

/// The field/value pairs of an entry, one after another.
pub open spec fn flat_fields(f: Seq<(Seq<u8>, Seq<u8>)>) -> Seq<Seq<u8>>
    decreases f.len(),
{
    if f.len() == 0 {
        Seq::empty()
    } else {
        flat_fields(f.drop_last()) + seq![f.last().0, f.last().1]
    }
}

/// An entry as replied: its id, then the array of its fields and values.
pub open spec fn entry_reply(e: (StreamId, Seq<(Seq<u8>, Seq<u8>)>)) -> RespValue {
    RespValue::Array(seq![RespValue::BulkString(Some(id_text(e.0))), bulk_array(flat_fields(e.1))])
}

pub open spec fn entries_reply(es: Seq<(StreamId, Seq<(Seq<u8>, Seq<u8>)>)>) -> Seq<RespValue> {
    es.map_values(|e: (StreamId, Seq<(Seq<u8>, Seq<u8>)>)| entry_reply(e))
}

/// A stream's group in an XREAD reply: the key, then its entries.
pub open spec fn group_reply(g: (Seq<u8>, Seq<(StreamId, Seq<(Seq<u8>, Seq<u8>)>)>)) -> RespValue {
    RespValue::Array(seq![RespValue::BulkString(Some(g.0)), RespValue::Array(entries_reply(g.1))])
}

/// XREAD's reply: null when no stream has new entries.
pub open spec fn xread_reply_spec(groups: Seq<(Seq<u8>, Seq<(StreamId, Seq<(Seq<u8>, Seq<u8>)>)>)>) -> RespValue {
    if groups.len() == 0 {
        RespValue::BulkString(None)
    } else {
        RespValue::Array(groups.map_values(|g: (Seq<u8>, Seq<(StreamId, Seq<(Seq<u8>, Seq<u8>)>)>)| group_reply(g)))
    }
}

pub open spec fn invalid_id_error() -> RespValue {
    RespValue::SimpleError("ERR Invalid stream ID specified as stream command argument".spec_bytes())
}

/// Where a read of the stream holding `v` starts for the id text `id`: `$` is the
/// stream's last id.
pub open spec fn start_spec(v: Option<DataView>, id: Seq<u8>) -> Option<Bound> {
    if id == seq![36u8] {
        Some(Bound::Id(last_id_of(v)))
    } else {
        bound_spec(id)
    }
}

/// Where the reads of `keys` start for `ids`; none when an id is malformed.
pub open spec fn starts_spec(m: KeyspaceView, keys: Seq<Seq<u8>>, ids: Seq<Seq<u8>>, now: u64) -> Option<Seq<Bound>> {
    if forall|i: int| 0 <= i < keys.len() ==> #[trigger] start_spec(live_value(m, keys[i], now), ids[i]) is Some {
        Some(Seq::new(keys.len(), |i: int| start_spec(live_value(m, keys[i], now), ids[i])->Some_0))
    } else {
        None
    }
}

/// A blocking or plain stream read: the wait asked for, the keys and their ids.
pub struct XreadRequest {
    pub block: Option<u64>,
    pub keys: Vec<Vec<u8>>,
    pub ids: Vec<Vec<u8>>,
}

/// The parts of `XREAD [BLOCK ms] STREAMS k... id...`: the keys are the first half
/// of what follows `STREAMS`, the ids the second; `BLOCK` is looked for before it.
pub open spec fn xread_request_spec(args: Seq<Seq<u8>>) -> Option<(Option<u64>, Seq<Seq<u8>>, Seq<Seq<u8>>)> {
    match token_from(args, "streams".spec_bytes(), 0) {
        None => None,
        Some(p) => {
            let rest = args.skip(p + 1);
            let half = rest.len() / 2;
            let block = match n_strings_spec(args.subrange(0, p), "block".spec_bytes(), 1) {
                Some(s) => parse_u64_spec(s[0]),
                None => None,
            };
            Some((block, rest.subrange(0, half as int), rest.subrange(half as int, 2 * half as int)))
        },
    }
}

fn flatten_fields(f: &Vec<(Vec<u8>, Vec<u8>)>) -> (r: Vec<Vec<u8>>)
    ensures
        bytes_views(r@) == flat_fields(fields_view(f@)),
{
    let mut out: Vec<Vec<u8>> = Vec::new();
    let mut i: usize = 0;
    while i < f.len()
        invariant
            i <= f@.len(),
            bytes_views(out@) == flat_fields(fields_view(f@.subrange(0, i as int))),
        decreases f@.len() - i,
    {
        let ghost before = out@;
        out.push(clone_bytes(&f[i].0));
        out.push(clone_bytes(&f[i].1));
        assert(fields_view(f@.subrange(0, i + 1)).drop_last() =~= fields_view(f@.subrange(0, i as int)));
        assert(bytes_views(out@) =~= bytes_views(before) + seq![f@[i as int].0@, f@[i as int].1@]);
        i = i + 1;
    }
    assert(f@.subrange(0, i as int) =~= f@);
    out
}

fn entry_to_redis(e: &StreamEntry) -> (r: RedisType)
    ensures
        r@ == entry_reply(e@),
{
    let id = RedisType::BulkString(Some(format_id(e.id)));
    let fields = convert_to_redis_bulk_string_array(&flatten_fields(&e.fields));
    let mut items: Vec<RedisType> = Vec::new();
    proof {
        lemma_values_of_push(items@, id);
    }
    items.push(id);
    proof {
        lemma_values_of_push(items@, fields);
    }
    items.push(fields);
    assert(values_of(items@, items@.len() as int) =~= entry_reply(e@)->Array_0);
    RedisType::Array(items)
}

/// The replies of the entries, in order.
pub fn convert_entries_to_vec(entries: &Vec<StreamEntry>) -> (r: Vec<RedisType>)
    ensures
        values_of(r@, r@.len() as int) == entries_reply(view_entries(entries@)),
{
    let mut out: Vec<RedisType> = Vec::new();
    let mut i: usize = 0;
    while i < entries.len()
        invariant
            i <= entries@.len(),
            values_of(out@, out@.len() as int) == entries_reply(view_entries(entries@.subrange(0, i as int))),
        decreases entries@.len() - i,
    {
        let item = entry_to_redis(&entries[i]);
        proof {
            lemma_values_of_push(out@, item);
        }
        out.push(item);
        assert(entries_reply(view_entries(entries@.subrange(0, i + 1))) =~= entries_reply(
            view_entries(entries@.subrange(0, i as int)),
        ).push(entry_reply(entries@[i as int]@)));
        i = i + 1;
    }
    assert(entries@.subrange(0, i as int) =~= entries@);
    out
}

/// `XADD k id f v ...`: appends an entry and replies with its id; on success the
/// oldest subscription waiting on the key is woken.
pub fn xadd(arguments: &Vec<Vec<u8>>, server: &mut Server, now: u64) -> (r: RedisType)
    requires
        old(server).wf(),
        arguments@.len() >= 3,
    ensures
        final(server).wf(),
        exists|res: Result<StreamId, XaddError>, st: KeyspaceView|
            xadd_effect(
                old(server)@.store,
                arguments@[1]@,
                arguments@[2]@,
                args_view(arguments@).skip(3),
                now,
                res,
                st,
            ) && match res {
                Ok(id) => r@ == RespValue::BulkString(Some(id_text(id))) && match first_waiting(
                    old(server)@.subs,
                    arguments@[1]@,
                    0,
                ) {
                    Some(i) => final(server)@ == (ServerView {
                        store: st,
                        subs: old(server)@.subs.remove(i),
                        woken: old(server)@.woken.push(old(server)@.subs[i].0),
                        ..old(server)@
                    }),
                    None => final(server)@ == (ServerView { store: st, ..old(server)@ }),
                },
                Err(e) => r@ == RespValue::SimpleError(xadd_error_text(e)) && final(server)@ == (
                ServerView { store: st, ..old(server)@ }),
            },
{
    let fields = &arguments.as_slice()[3..arguments.len()];
    assert(fields@.map_values(|b: Vec<u8>| b@) =~= args_view(arguments@).skip(3));
    let result = server.data_store.xadd(arguments[1].as_slice(), arguments[2].as_slice(), fields, now);
    let ghost st = server.data_store@;
    let r = match result {
        Ok(id) => {
            match server.xread_subscriptions.wakeup_subscribers(arguments[1].as_slice()) {
                Some(w) => server.woken.push(w),
                None => {},
            }
            RedisType::BulkString(Some(format_id(id)))
        },
        Err(e) => RedisType::SimpleError(xadd_error_message(e)),
    };
    assert(xadd_effect(
        old(server)@.store,
        arguments@[1]@,
        arguments@[2]@,
        args_view(arguments@).skip(3),
        now,
        result,
        st,
    ));
    r
}

/// `XRANGE k start end`.
pub fn xrange(arguments: &Vec<Vec<u8>>, server: &Server, now: u64) -> (r: RedisType)
    requires
        server.wf(),
        arguments@.len() >= 4,
    ensures
        match (bound_spec(arguments@[2]@), bound_spec(arguments@[3]@)) {
            (Some(lo), Some(hi)) => r@ == RespValue::Array(
                entries_reply(
                    match live_value(server@.store, arguments@[1]@, now) {
                        Some(DataView::Stream(es, _)) => es.filter(
                            |e: (StreamId, Seq<(Seq<u8>, Seq<u8>)>)| in_range(e.0, lo, hi),
                        ),
                        _ => Seq::empty(),
                    },
                ),
            ),
            _ => r@ == invalid_id_error(),
        },
{
    let lo = match parse_bound(arguments[2].as_slice()) {
        Some(b) => b,
        None => {
            return RedisType::SimpleError(
                text("ERR Invalid stream ID specified as stream command argument"),
            );
        },
    };
    let hi = match parse_bound(arguments[3].as_slice()) {
        Some(b) => b,
        None => {
            return RedisType::SimpleError(
                text("ERR Invalid stream ID specified as stream command argument"),
            );
        },
    };
    let entries = server.data_store.xrange(arguments[1].as_slice(), lo, hi, now);
    let items = convert_entries_to_vec(&entries);
    proof {
        lemma_values_of(items@, items@.len() as int);
        if !(live_value(server@.store, arguments@[1]@, now) matches Some(DataView::Stream(_, _))) {
            assert(view_entries(entries@) =~= Seq::<(StreamId, Seq<(Seq<u8>, Seq<u8>)>)>::empty());
        }
    }
    RedisType::Array(items)
}

/// Splits an XREAD's arguments into the wait asked for, the keys and the ids.
pub fn parse_xread(arguments: &Vec<Vec<u8>>) -> (r: Option<XreadRequest>)
    ensures
        match xread_request_spec(args_view(arguments@)) {
            Some((block, ks, ids)) => r matches Some(q) && q.block == block && args_view(q.keys@)
                == ks && args_view(q.ids@) == ids,
            None => r is None,
        },
        r matches Some(q) ==> q.keys@.len() == q.ids@.len(),
{
    let p = match find_token("streams".as_bytes(), arguments) {
        None => {
            return None;
        },
        Some(p) => p,
    };
    let head = tail_range(arguments, 0, p);
    let block = get_u64("block".as_bytes(), &head);
    let n = arguments.len() - (p + 1);
    let half = n / 2;
    let keys = tail_range(arguments, p + 1, p + 1 + half);
    let ids = tail_range(arguments, p + 1 + half, p + 1 + 2 * half);
    proof {
        let a = args_view(arguments@);
        assert(a.subrange(0, p as int) == args_view(head@));
        assert(a.skip(p + 1).subrange(0, half as int) =~= a.subrange(p + 1, p + 1 + half));
        assert(a.skip(p + 1).subrange(half as int, 2 * half) =~= a.subrange(p + 1 + half, p + 1 + 2 * half));
    }
    Some(XreadRequest { block, keys, ids })
}

/// The arguments in `[from, to)`.
fn tail_range(arguments: &Vec<Vec<u8>>, from: usize, to: usize) -> (r: Vec<Vec<u8>>)
    requires
        from <= to <= arguments@.len(),
    ensures
        args_view(r@) == args_view(arguments@).subrange(from as int, to as int),
{
    let mut out: Vec<Vec<u8>> = Vec::new();
    let mut i: usize = from;
    while i < to
        invariant
            from <= i <= to,
            to <= arguments@.len(),
            args_view(out@) == args_view(arguments@).subrange(from as int, i as int),
        decreases to - i,
    {
        let ghost before = out@;
        out.push(clone_bytes(&arguments[i]));
        assert(args_view(out@) =~= args_view(before).push(arguments@[i as int]@));
        assert(args_view(arguments@).subrange(from as int, i + 1) =~= args_view(arguments@).subrange(
            from as int,
            i as int,
        ).push(arguments@[i as int]@));
        i = i + 1;
    }
    out
}

impl Server {
    /// Where each read starts: `$` is the last id of the stream under the key at
    /// the same position, anything else is read as an id. None when an id is
    /// malformed.
    pub fn xread_starts(&self, keys: &Vec<Vec<u8>>, ids: &Vec<Vec<u8>>, now: u64) -> (r: Option<Vec<Bound>>)
        requires
            self.wf(),
            keys@.len() == ids@.len(),
        ensures
            match starts_spec(self@.store, args_view(keys@), args_view(ids@), now) {
                Some(bs) => r matches Some(v) && v@ == bs,
                None => r is None,
            },
    {
        let mut out: Vec<Bound> = Vec::new();
        let mut i: usize = 0;
        while i < keys.len()
            invariant
                i <= keys@.len(),
                keys@.len() == ids@.len(),
                self.wf(),
                out@.len() == i,
                forall|j: int|
                    0 <= j < i ==> start_spec(live_value(self@.store, keys@[j]@, now), ids@[j]@) == Some(
                        #[trigger] out@[j],
                    ),
            decreases keys@.len() - i,
        {
            let id = ids[i].as_slice();
            if id.len() == 1 && id[0] == 36 {
                assert(ids@[i as int]@ =~= seq![36u8]);
                let b = self.last_id_for(keys[i].as_slice(), now);
                out.push(Bound::Id(b));
            } else {
                assert(ids@[i as int]@ != seq![36u8]);
                match parse_bound(id) {
                    Some(b) => out.push(b),
                    None => {
                        assert(start_spec(live_value(self@.store, keys@[i as int]@, now), ids@[i as int]@)
                            is None);
                        assert(!(start_spec(live_value(self@.store, args_view(keys@)[i as int], now), args_view(ids@)[i as int]) is Some));
                        return None;
                    },
                }
            }
            i = i + 1;
        }
        assert forall|j: int| 0 <= j < keys@.len() implies #[trigger] start_spec(live_value(self@.store, args_view(keys@)[j], now), args_view(ids@)[j]) is Some by {
            assert(start_spec(live_value(self@.store, keys@[j]@, now), ids@[j]@) == Some(out@[j]));
        }
        assert(out@ =~= starts_spec(self@.store, args_view(keys@), args_view(ids@), now)->Some_0);
        Some(out)
    }

    fn last_id_for(&self, key: &[u8], now: u64) -> (r: StreamId)
        requires
            self.wf(),
        ensures
            r == last_id_of(live_value(self@.store, key@, now)),
    {
        let mut dollar: Vec<u8> = Vec::new();
        dollar.push(36);
        let mut ids: Vec<Vec<u8>> = Vec::new();
        ids.push(dollar);
        let mut keys: Vec<Vec<u8>> = Vec::new();
        keys.push(slice_to_vec(key));
        assert(ids@[0]@ =~= seq![36u8]);
        self.data_store.xreadids(&keys, &mut ids, now);
        let t = clone_bytes(&ids[0]);
        proof {
            crate::stream::lemma_id_text_bound(last_id_of(live_value(self@.store, key@, now)));
        }
        match parse_bound(t.as_slice()) {
            Some(Bound::Id(id)) => id,
            _ => StreamId { ms: 0, seq: 0 },
        }
    }

    /// XREAD's reply for the given starts, without waiting.
    pub fn xread_reply(&self, keys: &Vec<Vec<u8>>, starts: &Vec<Bound>, now: u64) -> (r: RedisType)
        requires
            self.wf(),
            keys@.len() == starts@.len(),
        ensures
            r@ == xread_reply_spec(read_groups(self@.store, args_view(keys@), starts@, now, keys@.len() as int)),
    {
        let groups = self.data_store.xread(keys, starts, now);
        let ghost gs = read_groups(self@.store, args_view(keys@), starts@, now, keys@.len() as int);
        if groups.len() == 0 {
            return RedisType::BulkString(None);
        }
        let mut items: Vec<RedisType> = Vec::new();
        let mut i: usize = 0;
        while i < groups.len()
            invariant
                i <= groups@.len(),
                groups@.map_values(|g: (Vec<u8>, Vec<StreamEntry>)| group_view(g)) == gs,
                values_of(items@, items@.len() as int) == gs.subrange(0, i as int).map_values(
                    |g: (Seq<u8>, Seq<(StreamId, Seq<(Seq<u8>, Seq<u8>)>)>)| group_reply(g),
                ),
            decreases groups@.len() - i,
        {
            let key = RedisType::BulkString(Some(clone_bytes(&groups[i].0)));
            let entries = RedisType::Array(convert_entries_to_vec(&groups[i].1));
            let mut pair: Vec<RedisType> = Vec::new();
            proof {
                lemma_values_of_push(pair@, key);
            }
            pair.push(key);
            proof {
                lemma_values_of_push(pair@, entries);
            }
            pair.push(entries);
            let g = RedisType::Array(pair);
            assert(gs[i as int] == group_view(groups@[i as int]));
            assert(values_of(pair@, pair@.len() as int) =~= group_reply(gs[i as int])->Array_0);
            proof {
                lemma_values_of_push(items@, g);
            }
            items.push(g);
            assert(gs.subrange(0, i + 1).map_values(
                |g: (Seq<u8>, Seq<(StreamId, Seq<(Seq<u8>, Seq<u8>)>)>)| group_reply(g),
            ) =~= gs.subrange(0, i as int).map_values(
                |g: (Seq<u8>, Seq<(StreamId, Seq<(Seq<u8>, Seq<u8>)>)>)| group_reply(g),
            ).push(group_reply(gs[i as int])));
            i = i + 1;
        }
        assert(gs.subrange(0, i as int) =~= gs);
        RedisType::Array(items)
    }
}

pub open spec fn unsupported() -> RespValue {
    RespValue::SimpleError("Error, unsupported command".spec_bytes())
}

pub open spec fn syntax_error() -> RespValue {
    RespValue::SimpleError("ERR syntax error".spec_bytes())
}

pub open spec fn not_integer() -> RespValue {
    RespValue::SimpleError("ERR value is not an integer or out of range".spec_bytes())
}

/// The command's name, in lower case, is `name`.
pub open spec fn name_is(a: Seq<Seq<u8>>, name: Seq<u8>) -> bool {
    a.len() > 0 && lower_seq(a[0]) == name
}

/// XREAD's reply without waiting.
pub open spec fn xread_now_reply(v: ServerView, a: Seq<Seq<u8>>, now: u64) -> RespValue {
    match xread_request_spec(a) {
        None => syntax_error(),
        Some((_, ks, ids)) => match starts_spec(v.store, ks, ids, now) {
            None => invalid_id_error(),
            Some(bs) => xread_reply_spec(read_groups(v.store, ks, bs, now, ks.len() as int)),
        },
    }
}

/// WAIT's reply without waiting: the replicas at the current offset (all of them
/// while nothing was propagated).
pub open spec fn wait_now_reply(v: ServerView, a: Seq<Seq<u8>>) -> RespValue {
    if parse_u64_spec(a[1]) is None || parse_u64_spec(a[2]) is None {
        not_integer()
    } else if v.rep.offset == 0 {
        RespValue::Integer(v.rep.replicas.len() as i64)
    } else {
        RespValue::Integer(count_acked_spec(v.rep.replicas, v.rep.offset) as i64)
    }
}

/// The state WAIT leaves when answered at once: with something propagated and both
/// arguments numbers, `REPLCONF GETACK *` is queued to every replica (unless the
/// offset cannot take it).
pub open spec fn wait_now_state(v: ServerView, a: Seq<Seq<u8>>) -> ServerView {
    if a.len() >= 3 && parse_u64_spec(a[1]) is Some && parse_u64_spec(a[2]) is Some && v.rep.offset
        != 0 && v.rep.offset + getack_bytes().len() <= u64::MAX {
        ServerView { rep: propagated(v.rep, getack_bytes()), ..v }
    } else {
        v
    }
}

/// What one command does to the server (`old` to `new`) and replies (`r`), on a
/// client connection. KEYS may list the keys in any order. This is how commands run
/// inside EXEC too, where nothing waits: WAIT queues its GETACK and replies with the
/// count at once, and XREAD with BLOCK replies with what is there.
#[verifier::opaque]
pub open spec fn command_effect(old: ServerView, a: Seq<Seq<u8>>, now: u64, new: ServerView, r: RespValue) -> bool {
    if a.len() == 0 {
        new == old && r == unsupported()
    } else if name_is(a, "ping".spec_bytes()) {
        new == old && r == RespValue::SimpleString("PONG".spec_bytes())
    } else if name_is(a, "echo".spec_bytes()) {
        new == old && r == if a.len() < 2 {
            arity_error()
        } else {
            RespValue::BulkString(Some(a[1]))
        }
    } else if name_is(a, "get".spec_bytes()) || name_is(a, "type".spec_bytes()) {
        if a.len() < 2 {
            new == old && r == arity_error()
        } else {
            new == (ServerView { store: without_expired(old.store, a[1], now), ..old }) && r == if name_is(
                a,
                "get".spec_bytes(),
            ) {
                get_reply(live_value(old.store, a[1], now))
            } else {
                type_reply(live_value(old.store, a[1], now))
            }
        }
    } else if name_is(a, "set".spec_bytes()) {
        if a.len() < 3 {
            new == old && r == arity_error()
        } else {
            write_effect(
                old,
                a,
                true,
                old.store.insert(a[1], (DataView::Str(a[2]), px_expiry(a, now))),
                ok_reply(),
                new,
                r,
            )
        }
    } else if name_is(a, "incr".spec_bytes()) {
        if a.len() < 2 {
            new == old && r == arity_error()
        } else {
            let m = without_expired(old.store, a[1], now);
            match incremented(live_value(old.store, a[1], now)) {
                Some(n) => write_effect(
                    old,
                    a,
                    true,
                    m.insert(
                        a[1],
                        (
                            DataView::Str(signed_decimal_of(n as int)),
                            if m.contains_key(a[1]) {
                                m[a[1]].1
                            } else {
                                None
                            },
                        ),
                    ),
                    RespValue::Integer(n),
                    new,
                    r,
                ),
                None => write_effect(old, a, true, m, not_integer(), new, r),
            }
        }
    } else if name_is(a, "keys".spec_bytes()) {
        new == old && exists|ks: Seq<Seq<u8>>|
            r == bulk_array(ks) && (forall|i: int|
                0 <= i < ks.len() ==> live_value(old.store, #[trigger] ks[i], now) is Some) && (
            forall|k: Seq<u8>| #[trigger]
                live_value(old.store, k, now) is Some ==> ks.contains(k)) && (forall|i: int, j: int|
                0 <= i < j < ks.len() ==> #[trigger] ks[i] != #[trigger] ks[j])
    } else if name_is(a, "xadd".spec_bytes()) {
        if a.len() < 3 {
            new == old && r == arity_error()
        } else {
            exists|res: Result<StreamId, XaddError>, st: KeyspaceView|
                xadd_effect(old.store, a[1], a[2], a.skip(3), now, res, st) && match res {
                    Ok(id) => r == RespValue::BulkString(Some(id_text(id))) && match first_waiting(
                        old.subs,
                        a[1],
                        0,
                    ) {
                        Some(i) => new == (ServerView {
                            store: st,
                            subs: old.subs.remove(i),
                            woken: old.woken.push(old.subs[i].0),
                            ..old
                        }),
                        None => new == (ServerView { store: st, ..old }),
                    },
                    Err(e) => r == RespValue::SimpleError(xadd_error_text(e)) && new == (
                    ServerView { store: st, ..old }),
                }
        }
    } else if name_is(a, "xrange".spec_bytes()) {
        new == old && if a.len() < 4 {
            r == arity_error()
        } else {
            match (bound_spec(a[2]), bound_spec(a[3])) {
                (Some(lo), Some(hi)) => r == RespValue::Array(
                    entries_reply(
                        match live_value(old.store, a[1], now) {
                            Some(DataView::Stream(es, _)) => es.filter(
                                |e: (StreamId, Seq<(Seq<u8>, Seq<u8>)>)| in_range(e.0, lo, hi),
                            ),
                            _ => Seq::empty(),
                        },
                    ),
                ),
                _ => r == invalid_id_error(),
            }
        }
    } else if name_is(a, "xread".spec_bytes()) {
        new == old && r == xread_now_reply(old, a, now)
    } else if name_is(a, "config".spec_bytes()) {
        new == old && r == if a.len() < 3 {
            arity_error()
        } else {
            config_reply(old, a[2])
        }
    } else if name_is(a, "info".spec_bytes()) {
        new == old && r == RespValue::BulkString(Some(info_text(old)))
    } else if name_is(a, "replconf".spec_bytes()) {
        new == old && r == replconf_reply(old, a)
    } else if name_is(a, "wait".spec_bytes()) {
        if a.len() < 3 {
            new == old && r == arity_error()
        } else {
            new == wait_now_state(old, a) && r == wait_now_reply(old, a)
        }
    } else {
        new == old && r == unsupported()
    }
}

fn is_name(arguments: &Vec<Vec<u8>>, name: &str) -> (r: bool)
    ensures
        r == name_is(args_view(arguments@), name.spec_bytes()),
{
    arguments.len() > 0 && matches_lower(arguments[0].as_slice(), name.as_bytes())
}

/// `XREAD [BLOCK ms] STREAMS k... id...`, answered at once.
pub fn xread(arguments: &Vec<Vec<u8>>, server: &Server, now: u64) -> (r: RedisType)
    requires
        server.wf(),
    ensures
        r@ == xread_now_reply(server@, args_view(arguments@), now),
{
    let req = match parse_xread(arguments) {
        None => {
            return RedisType::SimpleError(text("ERR syntax error"));
        },
        Some(q) => q,
    };
    match server.xread_starts(&req.keys, &req.ids, now) {
        None => RedisType::SimpleError(
            text("ERR Invalid stream ID specified as stream command argument"),
        ),
        Some(starts) => server.xread_reply(&req.keys, &starts, now),
    }
}

/// `WAIT n timeout`, answered at once: it queues `REPLCONF GETACK *` to every
/// replica and replies with the replicas already at the current offset (all of them
/// while nothing was propagated).
pub fn wait(arguments: &Vec<Vec<u8>>, server: &mut Server) -> (r: RedisType)
    requires
        arguments@.len() >= 3,
    ensures
        r@ == wait_now_reply(old(server)@, args_view(arguments@)),
        final(server)@ == wait_now_state(old(server)@, args_view(arguments@)),
        final(server).wf() == old(server).wf(),
{
    if parse_u64(arguments[1].as_slice()).is_none() || parse_u64(arguments[2].as_slice()).is_none() {
        return RedisType::SimpleError(text("ERR value is not an integer or out of range"));
    }
    let offset = server.replication.master_repl_offset();
    if offset == 0 {
        RedisType::Integer(server.replication.replica_count() as i64)
    } else {
        let n = server.replication.count_acked(offset);
        let getack_parts = vec![text("REPLCONF"), text("GETACK"), text("*")];
        let getack = encode(&convert_to_redis_bulk_string_array(&getack_parts));
        assert(bytes_views(getack_parts@) =~= seq![
            "REPLCONF".spec_bytes(),
            "GETACK".spec_bytes(),
            "*".spec_bytes(),
        ]);
        server.queue_send_to_replications(&getack);
        RedisType::Integer(n as i64)
    }
}

/// Runs one command of a client connection and returns its reply.
pub fn handle_command(arguments: &Vec<Vec<u8>>, server: &mut Server, now: u64) -> (r: RedisType)
    requires
        old(server).wf(),
    ensures
        final(server).wf(),
        command_effect(old(server)@, args_view(arguments@), now, final(server)@, r@),
{
    reveal(command_effect);
    let ghost a = args_view(arguments@);
    if arguments.len() == 0 {
        return RedisType::SimpleError(text("Error, unsupported command"));
    }
    if is_name(arguments, "ping") {
        RedisType::SimpleString(text("PONG"))
    } else if is_name(arguments, "echo") {
        if arguments.len() < 2 {
            RedisType::SimpleError(text("ERR wrong number of arguments"))
        } else {
            RedisType::BulkString(Some(clone_bytes(&arguments[1])))
        }
    } else if is_name(arguments, "get") {
        if arguments.len() < 2 {
            RedisType::SimpleError(text("ERR wrong number of arguments"))
        } else {
            get(arguments, server, now)
        }
    } else if is_name(arguments, "type") {
        if arguments.len() < 2 {
            RedisType::SimpleError(text("ERR wrong number of arguments"))
        } else {
            value_type(arguments, server, now)
        }
    } else if is_name(arguments, "set") {
        if arguments.len() < 3 {
            RedisType::SimpleError(text("ERR wrong number of arguments"))
        } else {
            set(arguments, server, now, true)
        }
    } else if is_name(arguments, "incr") {
        if arguments.len() < 2 {
            RedisType::SimpleError(text("ERR wrong number of arguments"))
        } else {
            incr(arguments, server, now, true)
        }
    } else if is_name(arguments, "keys") {
        keys(server, now)
    } else if is_name(arguments, "xadd") {
        if arguments.len() < 3 {
            RedisType::SimpleError(text("ERR wrong number of arguments"))
        } else {
            xadd(arguments, server, now)
        }
    } else if is_name(arguments, "xrange") {
        if arguments.len() < 4 {
            RedisType::SimpleError(text("ERR wrong number of arguments"))
        } else {
            xrange(arguments, server, now)
        }
    } else if is_name(arguments, "xread") {
        xread(arguments, server, now)
    } else if is_name(arguments, "config") {
        if arguments.len() < 3 {
            RedisType::SimpleError(text("ERR wrong number of arguments"))
        } else {
            config(arguments, server)
        }
    } else if is_name(arguments, "info") {
        info(server)
    } else if is_name(arguments, "replconf") {
        replconf(arguments, server)
    } else if is_name(arguments, "wait") {
        if arguments.len() < 3 {
            RedisType::SimpleError(text("ERR wrong number of arguments"))
        } else {
            wait(arguments, server)
        }
    } else {
        RedisType::SimpleError(text("Error, unsupported command"))
    }
}

pub open spec fn queue_views(q: Seq<Vec<Vec<u8>>>) -> Seq<Seq<Seq<u8>>> {
    q.map_values(|a: Vec<Vec<u8>>| args_view(a@))
}

/// Running the commands `qs` one after another, from `s0`, ends in `s1` with the
/// replies `rs`.
pub open spec fn batch_effect(s0: ServerView, qs: Seq<Seq<Seq<u8>>>, now: u64, s1: ServerView, rs: Seq<RespValue>) -> bool
    decreases qs.len(),
{
    if qs.len() == 0 {
        s1 == s0 && rs.len() == 0
    } else {
        rs.len() == qs.len() && exists|mid: ServerView|
            batch_effect(s0, qs.drop_last(), now, mid, rs.drop_last()) && command_effect(
                mid,
                qs.last(),
                now,
                s1,
                rs.last(),
            )
    }
}

/// What a connection does next.
pub enum Action {
    /// Send this reply.
    Reply(RedisType),
    /// Poll a WAIT each propagation tick until it replies or `timeout_ms` passes.
    Wait(WaitState, u64),
    /// Wait as XREAD BLOCK asks (`0`: until woken), then reply with the entries
    /// after these starts.
    Block(Vec<Vec<u8>>, Vec<Bound>, u64),
    /// The connection becomes a replication link.
    Promote,
}

/// `REPLCONF GETACK *`, encoded.
pub open spec fn getack_bytes() -> Seq<u8> {
    command_bytes(seq!["REPLCONF".spec_bytes(), "GETACK".spec_bytes(), "*".spec_bytes()])
}

/// A WAIT whose count and timeout are both numbers.
pub open spec fn is_wait_request(a: Seq<Seq<u8>>) -> bool {
    name_is(a, "wait".spec_bytes()) && a.len() >= 3 && parse_u64_spec(a[1]) is Some
        && parse_u64_spec(a[2]) is Some
}

/// An XREAD with BLOCK whose ids are all well formed.
pub open spec fn is_blocking_read(v: ServerView, a: Seq<Seq<u8>>, now: u64) -> bool {
    name_is(a, "xread".spec_bytes()) && match xread_request_spec(a) {
        Some((block, keys, ids)) => block is Some && starts_spec(v.store, keys, ids, now) is Some,
        None => false,
    }
}

/// One client connection's transaction state.
pub struct Session {
    multi: bool,
    queue: Vec<Vec<Vec<u8>>>,
}

impl Session {
    pub closed spec fn multi(&self) -> bool {
        self.multi
    }

    pub closed spec fn queued(&self) -> Seq<Seq<Seq<u8>>> {
        queue_views(self.queue@)
    }

    pub fn new() -> (r: Session)
        ensures
            !r.multi(),
            r.queued().len() == 0,
    {
        Session { multi: false, queue: Vec::new() }
    }

    fn run_batch(&mut self, server: &mut Server, now: u64) -> (r: Vec<RedisType>)
        requires
            old(server).wf(),
        ensures
            final(server).wf(),
            batch_effect(old(server)@, old(self).queued(), now, final(server)@, values_of(r@, r@.len() as int)),
            *final(self) == *old(self),
    {
        let ghost s0 = server@;
        let ghost qs = self.queued();
        let mut replies: Vec<RedisType> = Vec::new();
        let mut i: usize = 0;
        while i < self.queue.len()
            invariant
                i <= self.queue@.len(),
                server.wf(),
                qs == queue_views(self.queue@),
                replies@.len() == i,
                batch_effect(s0, qs.subrange(0, i as int), now, server@, values_of(replies@, replies@.len() as int)),
            decreases self.queue@.len() - i,
        {
            let ghost mid = server@;
            let ghost rs = values_of(replies@, replies@.len() as int);
            let r = handle_command(&self.queue[i], server, now);
            proof {
                lemma_values_of_push(replies@, r);
                lemma_values_of(replies@, replies@.len() as int);
            }
            replies.push(r);
            proof {
                let rs2 = values_of(replies@, replies@.len() as int);
                lemma_values_of(replies@, replies@.len() as int);
                assert(qs.subrange(0, i + 1).drop_last() =~= qs.subrange(0, i as int));
                assert(rs2.drop_last() =~= rs);
                assert(qs.subrange(0, i + 1).last() == args_view(self.queue@[i as int]@));
                assert(rs2.last() == r@);
                assert(command_effect(mid, qs.subrange(0, i + 1).last(), now, server@, rs2.last()));
                assert(batch_effect(s0, qs.subrange(0, i + 1).drop_last(), now, mid, rs2.drop_last()));
                assert(batch_effect(s0, qs.subrange(0, i + 1), now, server@, rs2));
            }
            i = i + 1;
        }
        assert(qs.subrange(0, i as int) =~= qs);
        replies
    }

    /// Handles one command of a client connection: MULTI starts queuing, EXEC runs
    /// the queue in order and replies with all the replies, PSYNC promotes the
    /// connection, WAIT and XREAD BLOCK hand their waiting to the caller.
    pub fn step(&mut self, server: &mut Server, arguments: Vec<Vec<u8>>, now: u64) -> (r: Action)
        requires
            old(server).wf(),
        ensures
            final(server).wf(),
            ({
                let a = args_view(arguments@);
                if name_is(a, "exec".spec_bytes()) {
                    if old(self).multi() {
                        !final(self).multi() && final(self).queued().len() == 0 && (r matches Action::Reply(
                            v,
                        ) && v@ is Array && batch_effect(
                            old(server)@,
                            old(self).queued(),
                            now,
                            final(server)@,
                            v@->Array_0,
                        ))
                    } else {
                        *final(self) == *old(self) && final(server)@ == old(server)@ && (r matches Action::Reply(v)
                            && v@ == RespValue::SimpleError("ERR EXEC without MULTI".spec_bytes()))
                    }
                } else if name_is(a, "multi".spec_bytes()) {
                    final(self).multi() && final(self).queued() == old(self).queued() && final(server)@
                        == old(server)@ && (r matches Action::Reply(v) && v@ == ok_reply())
                } else if name_is(a, "psync".spec_bytes()) {
                    *final(self) == *old(self) && final(server)@ == old(server)@ && r is Promote
                } else if old(self).multi() {
                    final(self).multi() && final(self).queued() == old(self).queued().push(a)
                        && final(server)@ == old(server)@ && (r matches Action::Reply(v) && v@ == RespValue::SimpleString(
                        "QUEUED".spec_bytes(),
                    ))
                } else {
                    *final(self) == *old(self) && if is_wait_request(a) {
                        if old(server)@.rep.offset == 0 {
                            final(server)@ == old(server)@ && (r matches Action::Reply(v) && v@
                                == RespValue::Integer((old(server)@.rep.replicas.len() as u64) as i64))
                        } else {
                            r == Action::Wait(
                                WaitState {
                                    expected: old(server)@.rep.offset,
                                    needed: parse_u64_spec(a[1])->Some_0,
                                    best: 0,
                                },
                                parse_u64_spec(a[2])->Some_0,
                            ) && final(server)@ == (ServerView {
                                rep: if old(server)@.rep.offset + getack_bytes().len() <= u64::MAX {
                                    propagated(old(server)@.rep, getack_bytes())
                                } else {
                                    old(server)@.rep
                                },
                                ..old(server)@
                            })
                        }
                    } else if is_blocking_read(old(server)@, a, now) {
                        final(server)@ == old(server)@ && match xread_request_spec(a) {
                            Some((block, keys, ids)) => (r matches Action::Block(ks, bs, ms) && block
                                == Some(ms) && args_view(ks@) == keys && starts_spec(
                                old(server)@.store,
                                keys,
                                ids,
                                now,
                            ) == Some(bs@)),
                            None => false,
                        }
                    } else {
                        r matches Action::Reply(v) && command_effect(old(server)@, a, now, final(server)@, v@)
                    }
                }
            }),
    {
        if is_name(&arguments, "exec") {
            if self.multi {
                let replies = self.run_batch(server, now);
                self.multi = false;
                self.queue = Vec::new();
                proof {
                    lemma_values_of(replies@, replies@.len() as int);
                }
                assert(self.queued() =~= Seq::<Seq<Seq<u8>>>::empty());
                return Action::Reply(RedisType::Array(replies));
            } else {
                return Action::Reply(RedisType::SimpleError(text("ERR EXEC without MULTI")));
            }
        }
        if is_name(&arguments, "multi") {
            self.multi = true;
            return Action::Reply(RedisType::SimpleString(text("OK")));
        }
        if is_name(&arguments, "psync") {
            return Action::Promote;
        }
        if self.multi {
            let ghost a = args_view(arguments@);
            self.queue.push(arguments);
            assert(self.queued() =~= old(self).queued().push(a));
            return Action::Reply(RedisType::SimpleString(text("QUEUED")));
        }
        if is_name(&arguments, "wait") && arguments.len() >= 3 {
            match (parse_u64(arguments[1].as_slice()), parse_u64(arguments[2].as_slice())) {
                (Some(needed), Some(timeout)) => {
                    let getack_parts = vec![text("REPLCONF"), text("GETACK"), text("*")];
                    let getack = encode(&convert_to_redis_bulk_string_array(&getack_parts));
                    assert(bytes_views(getack_parts@) =~= seq![
                        "REPLCONF".spec_bytes(),
                        "GETACK".spec_bytes(),
                        "*".spec_bytes(),
                    ]);
                    match server.replication.wait_begin(needed, &getack) {
                        WaitStep::Reply(n) => {
                            return Action::Reply(RedisType::Integer(n as i64));
                        },
                        WaitStep::Poll(st) => {
                            return Action::Wait(st, timeout);
                        },
                    }
                },
                _ => {},
            }
        }
        if is_name(&arguments, "xread") {
            match parse_xread(&arguments) {
                Some(req) => {
                    match req.block {
                        Some(ms) => {
                            match server.xread_starts(&req.keys, &req.ids, now) {
                                Some(starts) => {
                                    return Action::Block(req.keys, starts, ms);
                                },
                                None => {},
                            }
                        },
                        None => {},
                    }
                },
                None => {},
            }
        }
        Action::Reply(handle_command(&arguments, server, now))
    }
}

/// The command as an array of bulk strings, when the value is one; any other
/// value is not a command.
pub open spec fn arguments_spec(v: RespValue) -> Option<Seq<Seq<u8>>> {
    match v {
        RespValue::Array(items) => if forall|i: int|
            0 <= i < items.len() ==> (#[trigger] items[i]) matches RespValue::BulkString(Some(_)) {
            Some(Seq::new(items.len(), |i: int| items[i]->BulkString_0->Some_0))
        } else {
            None
        },
        _ => None,
    }
}

/// The arguments of a command frame: an array whose items are all bulk strings.
pub fn parse_arguments(v: &RedisType) -> (r: Option<Vec<Vec<u8>>>)
    ensures
        match arguments_spec(v@) {
            Some(a) => r matches Some(args) && args_view(args@) == a,
            None => r is None,
        },
{
    match v {
        RedisType::Array(items) => {
            proof {
                lemma_values_of(items@, items@.len() as int);
            }
            let ghost vs = values_of(items@, items@.len() as int);
            assert(crate::resp::value_of(*v) == RespValue::Array(vs));
            let mut out: Vec<Vec<u8>> = Vec::new();
            let mut i: usize = 0;
            while i < items.len()
                invariant
                    i <= items@.len(),
                    vs == values_of(items@, items@.len() as int),
                    crate::resp::value_of(*v) == RespValue::Array(vs),
                    vs.len() == items@.len(),
                    forall|j: int| 0 <= j < items@.len() ==> #[trigger] vs[j] == crate::resp::value_of(items@[j]),
                    out@.len() == i,
                    forall|j: int| 0 <= j < i ==> (#[trigger] vs[j]) matches RespValue::BulkString(Some(_)),
                    forall|j: int| 0 <= j < i ==> (#[trigger] out@[j])@ == vs[j]->BulkString_0->Some_0,
                decreases items@.len() - i,
            {
                match &items[i] {
                    RedisType::BulkString(Some(b)) => {
                        out.push(clone_bytes(b));
                    },
                    _ => {
                        assert(!(vs[i as int] matches RespValue::BulkString(Some(_))));
                        assert(arguments_spec(v@) is None);
                        return None;
                    },
                }
                i = i + 1;
            }
            assert(args_view(out@) =~= arguments_spec(v@)->Some_0);
            Some(out)
        },
        _ => None,
    }
}

/// The offset that a `REPLCONF ACK <offset>` reply carries: the third item of an
/// array, a bulk string of decimal digits.
pub open spec fn ack_spec(v: RespValue) -> Option<u64> {
    match v {
        RespValue::Array(items) => if items.len() >= 3 {
            match items[2] {
                RespValue::BulkString(Some(t)) => parse_u64_spec(t),
                _ => None,
            }
        } else {
            None
        },
        _ => None,
    }
}

/// Reads the offset out of a replica's acknowledgement.
pub fn parse_ack(v: &RedisType) -> (r: Option<u64>)
    ensures
        r == ack_spec(v@),
{
    match v {
        RedisType::Array(items) => {
            proof {
                lemma_values_of(items@, items@.len() as int);
            }
            if items.len() < 3 {
                return None;
            }
            match &items[2] {
                RedisType::BulkString(Some(t)) => parse_u64(t.as_slice()),
                _ => None,
            }
        },
        _ => None,
    }
}

/// The reply to PSYNC: `FULLRESYNC <master replid> <offset>`.
pub open spec fn psync_text(v: ServerView) -> Seq<u8> {
    "FULLRESYNC ".spec_bytes() + v.master_replid + " ".spec_bytes() + decimal_of(v.rep.offset as nat)
}

/// What the replica-inbound executor does with one command: only SET, INCR and
/// REPLCONF are honoured, only REPLCONF replies, and nothing is sent on.
pub open spec fn replica_effect(old: ServerView, a: Seq<Seq<u8>>, now: u64, new: ServerView, r: Option<RespValue>) -> bool {
    if name_is(a, "replconf".spec_bytes()) {
        new == old && r == Some(replconf_reply(old, a))
    } else if name_is(a, "set".spec_bytes()) && a.len() >= 3 {
        r is None && new == (ServerView {
            store: old.store.insert(a[1], (DataView::Str(a[2]), px_expiry(a, now))),
            ..old
        })
    } else if name_is(a, "incr".spec_bytes()) && a.len() >= 2 {
        let m = without_expired(old.store, a[1], now);
        r is None && new == (ServerView {
            store: match incremented(live_value(old.store, a[1], now)) {
                Some(n) => m.insert(
                    a[1],
                    (
                        DataView::Str(signed_decimal_of(n as int)),
                        if m.contains_key(a[1]) {
                            m[a[1]].1
                        } else {
                            None
                        },
                    ),
                ),
                None => m,
            },
            ..old
        })
    } else {
        new == old && r is None
    }
}

impl Server {
    /// The replica side: applies one command taken from the master's stream and
    /// then advances the offset by the frame's byte count (unchanged if that would
    /// overflow). Returns what to send back to the master, if anything.
    pub fn replica_step(&mut self, arguments: &Vec<Vec<u8>>, frame_len: u64, now: u64) -> (r: Option<RedisType>)
        requires
            old(self).wf(),
        ensures
            final(self).wf(),
            exists|mid: ServerView|
                replica_effect(old(self)@, args_view(arguments@), now, mid, match r {
                    Some(v) => Some(v@),
                    None => None,
                }) && final(self)@ == (ServerView {
                    rep: if mid.rep.offset + frame_len <= u64::MAX {
                        ReplicationView { offset: (mid.rep.offset + frame_len) as u64, ..mid.rep }
                    } else {
                        mid.rep
                    },
                    ..mid
                }),
    {
        let r = if is_name(arguments, "replconf") {
            Some(replconf(arguments, self))
        } else if is_name(arguments, "set") && arguments.len() >= 3 {
            set(arguments, self, now, false);
            None
        } else if is_name(arguments, "incr") && arguments.len() >= 2 {
            incr(arguments, self, now, false);
            None
        } else {
            None
        };
        let ghost mid = self@;
        assert(replica_effect(old(self)@, args_view(arguments@), now, mid, match r {
            Some(v) => Some(v@),
            None => None,
        }));
        self.replication.advance_offset(frame_len);
        assert(self@ == (ServerView {
            rep: if mid.rep.offset + frame_len <= u64::MAX {
                ReplicationView { offset: (mid.rep.offset + frame_len) as u64, ..mid.rep }
            } else {
                mid.rep
            },
            ..mid
        }));
        r
    }

    /// The reply to PSYNC.
    pub fn psync_reply(&self) -> (r: RedisType)
        ensures
            r@ == RespValue::SimpleString(psync_text(self@)),
    {
        let mut out = text("FULLRESYNC ");
        crate::resp::push_bytes(&mut out, self.master_replid.as_slice());
        crate::resp::push_bytes(&mut out, " ".as_bytes());
        push_decimal(&mut out, self.replication.master_repl_offset());
        assert(out@ =~= psync_text(self@));
        RedisType::SimpleString(out)
    }

    /// Registers the replica of a promoted connection; returns its index.
    pub fn add_replica(&mut self) -> (r: usize)
        ensures
            final(self).wf() == old(self).wf(),
            r == old(self)@.rep.replicas.len(),
            final(self)@ == (ServerView {
                rep: ReplicationView {
                    replicas: old(self)@.rep.replicas.push(
                        crate::replication::ReplicaView { queue: Seq::empty(), acked: 0, doomed: false },
                    ),
                    ..old(self)@.rep
                },
                ..old(self)@
            }),
    {
        self.replication.add_replica()
    }

    pub fn replica_count(&self) -> (r: usize)
        ensures
            r == self@.rep.replicas.len(),
    {
        self.replication.replica_count()
    }

    pub fn master_repl_offset(&self) -> (r: u64)
        ensures
            r == self@.rep.offset,
    {
        self.replication.master_repl_offset()
    }

    /// Stores the offset that replica `i` acknowledged.
    pub fn record_ack(&mut self, i: usize, offset: u64)
        requires
            i < old(self)@.rep.replicas.len(),
        ensures
            final(self).wf() == old(self).wf(),
            final(self)@ == (ServerView {
                rep: ReplicationView {
                    replicas: old(self)@.rep.replicas.update(
                        i as int,
                        crate::replication::ReplicaView { acked: offset, ..old(self)@.rep.replicas[i as int] },
                    ),
                    ..old(self)@.rep
                },
                ..old(self)@
            }),
    {
        self.replication.record_ack(i, offset)
    }

    /// Takes the oldest command queued for replica `i`.
    pub fn take_next(&mut self, i: usize) -> (r: Option<Vec<u8>>)
        requires
            i < old(self)@.rep.replicas.len(),
        ensures
            final(self).wf() == old(self).wf(),
            ({
                let q = old(self)@.rep.replicas[i as int].queue;
                if q.len() == 0 {
                    r is None && final(self)@ == old(self)@
                } else {
                    r matches Some(c) && c@ == q[0] && final(self)@ == (ServerView {
                        rep: ReplicationView {
                            replicas: old(self)@.rep.replicas.update(
                                i as int,
                                crate::replication::ReplicaView { queue: q.skip(1), ..old(self)@.rep.replicas[i as int] },
                            ),
                            ..old(self)@.rep
                        },
                        ..old(self)@
                    })
                }
            }),
    {
        self.replication.take_next(i)
    }

    /// Marks replica `i` for removal at the end of the tick.
    pub fn mark_doomed(&mut self, i: usize)
        requires
            i < old(self)@.rep.replicas.len(),
        ensures
            final(self).wf() == old(self).wf(),
            final(self)@ == (ServerView {
                rep: ReplicationView {
                    replicas: old(self)@.rep.replicas.update(
                        i as int,
                        crate::replication::ReplicaView { doomed: true, ..old(self)@.rep.replicas[i as int] },
                    ),
                    ..old(self)@.rep
                },
                ..old(self)@
            }),
    {
        self.replication.mark_doomed(i)
    }

    /// Drops the replicas marked for removal.
    pub fn sweep(&mut self)
        ensures
            final(self).wf() == old(self).wf(),
            final(self)@ == (ServerView {
                rep: ReplicationView {
                    replicas: old(self)@.rep.replicas.filter(
                        |r: crate::replication::ReplicaView| !r.doomed,
                    ),
                    ..old(self)@.rep
                },
                ..old(self)@
            }),
    {
        self.replication.sweep()
    }

    /// One poll of a WAIT.
    pub fn wait_poll(&self, st: WaitState, timed_out: bool) -> (r: WaitStep)
        ensures
            ({
                let c = count_acked_spec(self@.rep.replicas, st.expected);
                let best = if c > st.best {
                    c as u64
                } else {
                    st.best
                };
                if timed_out {
                    r == WaitStep::Reply(st.best)
                } else if best >= st.needed {
                    r == WaitStep::Reply(best)
                } else {
                    r == WaitStep::Poll(WaitState { best, ..st })
                }
            }),
    {
        self.replication.wait_poll(st, timed_out)
    }

    /// Registers a blocking read under the caller's id.
    pub fn subscribe(&mut self, id: u64, keys: Vec<Vec<u8>>)
        ensures
            final(self).wf() == old(self).wf(),
            final(self)@ == (ServerView {
                subs: old(self)@.subs.push((id, crate::subscription::keys_view(keys@))),
                ..old(self)@
            }),
    {
        self.xread_subscriptions.subscribe(XreadSubscription::new(id, keys))
    }

    /// The ids of the subscriptions woken since the last call, oldest first.
    pub fn take_woken(&mut self) -> (r: Vec<u64>)
        ensures
            final(self).wf() == old(self).wf(),
            r@ == old(self)@.woken,
            final(self)@ == (ServerView { woken: Seq::empty(), ..old(self)@ }),
    {
        let mut r: Vec<u64> = Vec::new();
        let mut i: usize = 0;
        while i < self.woken.len()
            invariant
                i <= self.woken@.len(),
                self@ == old(self)@,
                r@ == self.woken@.subrange(0, i as int),
            decreases self.woken@.len() - i,
        {
            r.push(self.woken[i]);
            i = i + 1;
            assert(r@ =~= self.woken@.subrange(0, i as int));
        }
        assert(r@ =~= self.woken@);
        self.woken = Vec::new();
        assert(self@ =~= (ServerView { woken: Seq::empty(), ..old(self)@ }));
        r
    }
}

/// The store after the first `n` snapshot records are stored in order, each as a
/// string with its expiry time.
pub open spec fn loaded(m: KeyspaceView, recs: Seq<RecordView>, n: int) -> KeyspaceView
    decreases n,
{
    if n <= 0 || n > recs.len() {
        m
    } else {
        loaded(m, recs, n - 1).insert(recs[n - 1].0, (DataView::Str(recs[n - 1].1), recs[n - 1].2))
    }
}

impl Server {
    /// Stores the records of a snapshot, in order; a later record of a key wins.
    pub fn load_records(&mut self, records: &Vec<RdbRecord>)
        requires
            old(self).wf(),
        ensures
            final(self).wf(),
            final(self)@ == (ServerView {
                store: loaded(old(self)@.store, records_view(records@), records@.len() as int),
                ..old(self)@
            }),
    {
        let ghost recs = records_view(records@);
        let mut i: usize = 0;
        while i < records.len()
            invariant
                i <= records@.len(),
                self.wf(),
                recs == records_view(records@),
                self@ == (ServerView { store: loaded(old(self)@.store, recs, i as int), ..old(self)@ }),
            decreases records@.len() - i,
        {
            let r = &records[i];
            self.data_store.insert(r.key.as_slice(), DataType::String(clone_bytes(&r.value)), r.expire_at);
            i = i + 1;
            assert(self@ =~= (ServerView { store: loaded(old(self)@.store, recs, i as int), ..old(self)@ }));
        }
    }
}

/// A key set with an expiry time reads as missing at any later time: GET then
/// replies with a null bulk string.
pub proof fn lemma_expired_key_reads_null(v: ServerView, a: Seq<Seq<u8>>, now: u64, later: u64)
    requires
        a.len() >= 3,
        px_expiry(a, now) is Some,
        later > px_expiry(a, now)->Some_0,
    ensures
        get_reply(
            live_value(
                v.store.insert(a[1], (DataView::Str(a[2]), px_expiry(a, now))),
                a[1],
                later,
            ),
        ) == RespValue::BulkString(None),
{
}

/// A write sent on to the replicas advances the master offset by exactly the
/// length of its encoding.
pub proof fn lemma_write_advances_offset(
    old: ServerView,
    a: Seq<Seq<u8>>,
    store: KeyspaceView,
    reply: RespValue,
    new: ServerView,
    r: RespValue,
)
    requires
        write_effect(old, a, true, store, reply, new, r),
        old.rep.offset + command_bytes(a).len() <= u64::MAX,
    ensures
        new.rep.offset == old.rep.offset + command_bytes(a).len(),
        new.store == store,
        r == reply,
{
}

/// No client command lets a replica's acknowledged offset pass the master's: a
/// command leaves the replicas' offsets as they were and the master offset equal
/// or larger.
pub proof fn lemma_command_keeps_acks_within(old: ServerView, a: Seq<Seq<u8>>, now: u64, new: ServerView, r: RespValue)
    requires
        command_effect(old, a, now, new, r),
        acks_within(old.rep),
    ensures
        acks_within(new.rep),
{
    reveal(command_effect);
    if old.rep.offset + command_bytes(a).len() <= u64::MAX {
        lemma_propagation_keeps_acks_within(old.rep, command_bytes(a));
    }
    if old.rep.offset + getack_bytes().len() <= u64::MAX {
        lemma_propagation_keeps_acks_within(old.rep, getack_bytes());
    }
}

/// On a replica, a SET taken from the master's stream is stored, nothing is sent
/// back, and the offset grows by exactly the frame's length.
pub proof fn lemma_replica_applies_set(
    old: ServerView,
    a: Seq<Seq<u8>>,
    now: u64,
    frame_len: u64,
    mid: ServerView,
    r: Option<RespValue>,
    new: ServerView,
)
    requires
        name_is(a, "set".spec_bytes()),
        a.len() >= 3,
        old.rep.offset + frame_len <= u64::MAX,
        replica_effect(old, a, now, mid, r),
        new == (ServerView {
            rep: if mid.rep.offset + frame_len <= u64::MAX {
                ReplicationView { offset: (mid.rep.offset + frame_len) as u64, ..mid.rep }
            } else {
                mid.rep
            },
            ..mid
        }),
    ensures
        r is None,
        new.store == old.store.insert(a[1], (DataView::Str(a[2]), px_expiry(a, now))),
        new.rep.offset == old.rep.offset + frame_len,
{
    reveal_strlit("set");
    reveal_strlit("replconf");
    vstd::utf8::is_ascii_chars_encode_utf8("set"@);
    vstd::utf8::is_ascii_chars_encode_utf8("replconf"@);
    assert("set".spec_bytes().len() != "replconf".spec_bytes().len());
}

} // verus!
