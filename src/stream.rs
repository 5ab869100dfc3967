//! The stream value: an append-only sequence of entries under strictly increasing ids.

use vstd::prelude::*;
use vstd::slice::slice_to_vec;
use vstd::string::StringSliceAdditionalSpecFns;
use crate::decimal::{parse_u64_spec, parse_u64, decimal_of, push_decimal};

verus! {

/// A stream entry id: milliseconds, then a sequence number.
#[derive(PartialEq, Eq, Structural, Clone, Copy, Debug)]
pub struct StreamId {
    pub ms: u64,
    pub seq: u64,
}

/// Lexicographic order by component.
pub open spec fn id_lt(a: StreamId, b: StreamId) -> bool {
    a.ms < b.ms || (a.ms == b.ms && a.seq < b.seq)
}

pub open spec fn zero_id() -> StreamId {
    StreamId { ms: 0, seq: 0 }
}

/// The text `ms-seq` of an id.
pub open spec fn id_text(id: StreamId) -> Seq<u8> {
    decimal_of(id.ms as nat) + seq![45u8] + decimal_of(id.seq as nat)
}

/// One entry: its id and its field/value pairs, in the order given.
pub struct StreamEntry {
    pub id: StreamId,
    pub fields: Vec<(Vec<u8>, Vec<u8>)>,
}

impl View for StreamEntry {
    type V = (StreamId, Seq<(Seq<u8>, Seq<u8>)>);

    open spec fn view(&self) -> Self::V {
        (self.id, fields_view(self.fields@))
    }
}

pub open spec fn fields_view(f: Seq<(Vec<u8>, Vec<u8>)>) -> Seq<(Seq<u8>, Seq<u8>)> {
    f.map_values(|p: (Vec<u8>, Vec<u8>)| (p.0@, p.1@))
}

pub open spec fn view_entries(s: Seq<StreamEntry>) -> Seq<(StreamId, Seq<(Seq<u8>, Seq<u8>)>)> {
    s.map_values(|e: StreamEntry| e@)
}

/// What the caller asked for as the id of a new entry.
#[derive(PartialEq, Eq, Structural, Clone, Copy, Debug)]
pub enum IdRequest {
    /// `*`: both parts generated.
    Auto,
    /// `ms-*`: the sequence number generated.
    AutoSeq(u64),
    /// `ms-seq`.
    Explicit(StreamId),
}

/// Why an entry was not added.
#[derive(PartialEq, Eq, Structural, Clone, Copy, Debug)]
pub enum XaddError {
    /// The id was `0-0`.
    ZeroId,
    /// The id is not greater than the stream's last id.
    NotGreater,
    /// The id is not `*`, `ms-*` or `ms-seq`.
    Malformed,
    /// The key holds a string.
    WrongType,
}

/// The message sent to the client for each error.
pub open spec fn xadd_error_text(e: XaddError) -> Seq<u8> {
    match e {
        XaddError::ZeroId => "ERR The ID specified in XADD must be greater than 0-0".spec_bytes(),
        XaddError::NotGreater =>
            "ERR The ID specified in XADD is equal or smaller than the target stream top item".spec_bytes(),
        XaddError::Malformed => "ERR The ID specified in XADD is not a valid stream ID".spec_bytes(),
        XaddError::WrongType => "Error, wrongtype operation".spec_bytes(),
    }
}

pub fn xadd_error_message(e: XaddError) -> (r: Vec<u8>)
    ensures
        r@ == xadd_error_text(e),
{
    match e {
        XaddError::ZeroId => slice_to_vec(
            "ERR The ID specified in XADD must be greater than 0-0".as_bytes(),
        ),
        XaddError::NotGreater => slice_to_vec(
            "ERR The ID specified in XADD is equal or smaller than the target stream top item".as_bytes(),
        ),
        XaddError::Malformed => slice_to_vec(
            "ERR The ID specified in XADD is not a valid stream ID".as_bytes(),
        ),
        XaddError::WrongType => slice_to_vec("Error, wrongtype operation".as_bytes()),
    }
}

/// One bound of a range query.
#[derive(PartialEq, Eq, Structural, Clone, Copy, Debug)]
pub enum Bound {
    /// `-`: below every id.
    Min,
    /// `+`: above every id.
    Max,
    /// `ms`: every sequence number of that millisecond compares equal.
    Ms(u64),
    /// `ms-seq`.
    Id(StreamId),
}

/// The first index at or after `i` where `t` holds `b`.
pub open spec fn byte_from(t: Seq<u8>, b: u8, i: int) -> Option<int>
    decreases t.len() - i,
{
    if i < 0 || i >= t.len() {
        None
    } else if t[i] == b {
        Some(i)
    } else {
        byte_from(t, b, i + 1)
    }
}

/// `t` split at its only `-`.
pub open spec fn split_dash(t: Seq<u8>) -> Option<(Seq<u8>, Seq<u8>)> {
    match byte_from(t, 45, 0) {
        None => None,
        Some(p) => if byte_from(t, 45, p + 1) is Some {
            None
        } else {
            Some((t.subrange(0, p), t.skip(p + 1)))
        },
    }
}

pub open spec fn id_request_spec(t: Seq<u8>) -> Option<IdRequest> {
    if t == seq![42u8] {
        Some(IdRequest::Auto)
    } else {
        match split_dash(t) {
            None => None,
            Some((a, b)) => match parse_u64_spec(a) {
                None => None,
                Some(ms) => if b == seq![42u8] {
                    Some(IdRequest::AutoSeq(ms))
                } else {
                    match parse_u64_spec(b) {
                        None => None,
                        Some(seq) => Some(IdRequest::Explicit(StreamId { ms, seq })),
                    }
                },
            },
        }
    }
}

/// The id a request gets on a stream whose last id is `last`, at `now` ms.
pub open spec fn next_id_spec(last: StreamId, req: IdRequest, now: u64) -> Result<
    StreamId,
    XaddError,
> {
    match req {
        IdRequest::Explicit(id) => if id == zero_id() {
            Err(XaddError::ZeroId)
        } else if id_lt(last, id) {
            Ok(id)
        } else {
            Err(XaddError::NotGreater)
        },
        IdRequest::AutoSeq(ms) => if ms < last.ms {
            Err(XaddError::NotGreater)
        } else if ms > last.ms {
            Ok(StreamId { ms, seq: 0 })
        } else if last.seq == u64::MAX {
            Err(XaddError::NotGreater)
        } else {
            Ok(StreamId { ms, seq: (last.seq + 1) as u64 })
        },
        IdRequest::Auto => if now > last.ms {
            Ok(StreamId { ms: now, seq: 0 })
        } else if now < last.ms || last.seq == u64::MAX {
            Err(XaddError::NotGreater)
        } else {
            Ok(StreamId { ms: now, seq: (last.seq + 1) as u64 })
        },
    }
}

/// The outcome of adding an entry under the id text `t`.
pub open spec fn insert_spec(last: StreamId, t: Seq<u8>, now: u64) -> Result<StreamId, XaddError> {
    match id_request_spec(t) {
        None => Err(XaddError::Malformed),
        Some(req) => next_id_spec(last, req, now),
    }
}

/// How an id compares with a bound: negative, zero or positive.
pub open spec fn cmp_bound(id: StreamId, b: Bound) -> int {
    match b {
        Bound::Min => 1,
        Bound::Max => -1,
        Bound::Ms(m) => if id.ms < m {
            -1
        } else if id.ms > m {
            1
        } else {
            0
        },
        Bound::Id(x) => if id_lt(id, x) {
            -1
        } else if id == x {
            0
        } else {
            1
        },
    }
}

pub open spec fn in_range(id: StreamId, lo: Bound, hi: Bound) -> bool {
    cmp_bound(id, lo) >= 0 && cmp_bound(id, hi) <= 0
}

pub open spec fn bound_spec(t: Seq<u8>) -> Option<Bound> {
    if t == seq![45u8] {
        Some(Bound::Min)
    } else if t == seq![43u8] {
        Some(Bound::Max)
    } else {
        match split_dash(t) {
            None => match parse_u64_spec(t) {
                Some(ms) => if byte_from(t, 45, 0) is None {
                    Some(Bound::Ms(ms))
                } else {
                    None
                },
                None => None,
            },
            Some((a, b)) => match (parse_u64_spec(a), parse_u64_spec(b)) {
                (Some(ms), Some(seq)) => Some(Bound::Id(StreamId { ms, seq })),
                _ => None,
            },
        }
    }
}

fn find_byte(t: &[u8], b: u8, from: usize) -> (r: Option<usize>)
    ensures
        match r {
            Some(p) => byte_from(t@, b, from as int) == Some(p as int) && p < t@.len(),
            None => byte_from(t@, b, from as int) is None,
        },
{
    let mut i: usize = from;
    while i < t.len()
        invariant
            from <= i,
            byte_from(t@, b, from as int) == byte_from(t@, b, i as int),
        decreases t@.len() - i,
    {
        if t[i] == b {
            return Some(i);
        }
        i = i + 1;
    }
    None
}

fn split_dash_exec(t: &[u8]) -> (r: Option<(&[u8], &[u8])>)
    ensures
        match r {
            Some((a, b)) => split_dash(t@) == Some((a@, b@)),
            None => split_dash(t@) is None,
        },
{
    match find_byte(t, 45, 0) {
        None => None,
        Some(p) => {
            let n = t.len();
            assert(p < n);
            if find_byte(t, 45, p + 1).is_some() {
                None
            } else {
                let a = &t[0..p];
                let b = &t[p + 1..t.len()];
                assert(b@ =~= t@.skip(p + 1));
                Some((a, b))
            }
        },
    }
}

/// Reads the id text of a new entry.
pub fn parse_id_request(t: &[u8]) -> (r: Option<IdRequest>)
    ensures
        r == id_request_spec(t@),
{
    if t.len() == 1 && t[0] == 42 {
        assert(t@ =~= seq![42u8]);
        return Some(IdRequest::Auto);
    }
    match split_dash_exec(t) {
        None => None,
        Some((a, b)) => match parse_u64(a) {
            None => None,
            Some(ms) => {
                if b.len() == 1 && b[0] == 42 {
                    assert(b@ =~= seq![42u8]);
                    Some(IdRequest::AutoSeq(ms))
                } else {
                    match parse_u64(b) {
                        None => None,
                        Some(seq) => Some(IdRequest::Explicit(StreamId { ms, seq })),
                    }
                }
            },
        },
    }
}

/// Reads a range bound: `-`, `+`, `ms` or `ms-seq`.
pub fn parse_bound(t: &[u8]) -> (r: Option<Bound>)
    ensures
        r == bound_spec(t@),
{
    if t.len() == 1 && t[0] == 45 {
        assert(t@ =~= seq![45u8]);
        return Some(Bound::Min);
    }
    if t.len() == 1 && t[0] == 43 {
        assert(t@ =~= seq![43u8]);
        return Some(Bound::Max);
    }
    match split_dash_exec(t) {
        None => match parse_u64(t) {
            Some(ms) => {
                if find_byte(t, 45, 0).is_none() {
                    Some(Bound::Ms(ms))
                } else {
                    None
                }
            },
            None => None,
        },
        Some((a, b)) => match (parse_u64(a), parse_u64(b)) {
            (Some(ms), Some(seq)) => Some(Bound::Id(StreamId { ms, seq })),
            _ => None,
        },
    }
}

/// The id a request gets on a stream whose last id is `last`, at `now` ms.
pub fn next_id(last: StreamId, req: IdRequest, now: u64) -> (r: Result<StreamId, XaddError>)
    ensures
        r == next_id_spec(last, req, now),
        r matches Ok(id) ==> id_lt(last, id),
{
    match req {
        IdRequest::Explicit(id) => {
            if id.ms == 0 && id.seq == 0 {
                Err(XaddError::ZeroId)
            } else if last.ms < id.ms || (last.ms == id.ms && last.seq < id.seq) {
                Ok(id)
            } else {
                Err(XaddError::NotGreater)
            }
        },
        IdRequest::AutoSeq(ms) => {
            if ms < last.ms {
                Err(XaddError::NotGreater)
            } else if ms > last.ms {
                Ok(StreamId { ms, seq: 0 })
            } else if last.seq == u64::MAX {
                Err(XaddError::NotGreater)
            } else {
                Ok(StreamId { ms, seq: last.seq + 1 })
            }
        },
        IdRequest::Auto => {
            if now > last.ms {
                Ok(StreamId { ms: now, seq: 0 })
            } else if now < last.ms || last.seq == u64::MAX {
                Err(XaddError::NotGreater)
            } else {
                Ok(StreamId { ms: now, seq: last.seq + 1 })
            }
        },
    }
}

/// How an id compares with a range bound.
pub fn compare_ids(id: &StreamId, b: &Bound) -> (r: core::cmp::Ordering)
    ensures
        (r == core::cmp::Ordering::Less) == (cmp_bound(*id, *b) < 0),
        (r == core::cmp::Ordering::Equal) == (cmp_bound(*id, *b) == 0),
        (r == core::cmp::Ordering::Greater) == (cmp_bound(*id, *b) > 0),
{
    match b {
        Bound::Min => core::cmp::Ordering::Greater,
        Bound::Max => core::cmp::Ordering::Less,
        Bound::Ms(m) => {
            if id.ms < *m {
                core::cmp::Ordering::Less
            } else if id.ms > *m {
                core::cmp::Ordering::Greater
            } else {
                core::cmp::Ordering::Equal
            }
        },
        Bound::Id(x) => {
            if id.ms < x.ms || (id.ms == x.ms && id.seq < x.seq) {
                core::cmp::Ordering::Less
            } else if id.ms == x.ms && id.seq == x.seq {
                core::cmp::Ordering::Equal
            } else {
                core::cmp::Ordering::Greater
            }
        },
    }
}

/// The text of an id reads back as that id.
pub proof fn lemma_id_text_bound(id: StreamId)
    ensures
        bound_spec(id_text(id)) == Some(Bound::Id(id)),
{
    let a = decimal_of(id.ms as nat);
    let b = decimal_of(id.seq as nat);
    let t = id_text(id);
    crate::decimal::lemma_decimal_round_trip(id.ms as nat);
    crate::decimal::lemma_decimal_round_trip(id.seq as nat);
    crate::decimal::lemma_parse_u64_of_decimal(id.ms);
    crate::decimal::lemma_parse_u64_of_decimal(id.seq);
    assert forall|j: int| 0 <= j < a.len() implies t[j] != 45 by {
        assert(t[j] == a[j]);
        assert(crate::decimal::is_digit(a[j]));
    }
    lemma_byte_from_skip(t, 45, 0, a.len() as int);
    assert forall|j: int| a.len() + 1 <= j < t.len() implies t[j] != 45 by {
        assert(t[j] == b[j - a.len() - 1]);
        assert(crate::decimal::is_digit(b[j - a.len() - 1]));
    }
    lemma_byte_from_none(t, 45, a.len() + 1int);
    assert(t.subrange(0, a.len() as int) =~= a);
    assert(t.skip(a.len() + 1int) =~= b);
    assert(t != seq![45u8]);
    assert(t != seq![43u8]);
}

proof fn lemma_byte_from_skip(t: Seq<u8>, b: u8, i: int, p: int)
    requires
        0 <= i <= p < t.len(),
        t[p] == b,
        forall|j: int| i <= j < p ==> t[j] != b,
    ensures
        byte_from(t, b, i) == Some(p),
    decreases p - i,
{
    if i < p {
        lemma_byte_from_skip(t, b, i + 1, p);
    }
}

proof fn lemma_byte_from_none(t: Seq<u8>, b: u8, i: int)
    requires
        0 <= i,
        forall|j: int| i <= j < t.len() ==> t[j] != b,
    ensures
        byte_from(t, b, i) is None,
    decreases t.len() - i,
{
    if i < t.len() {
        lemma_byte_from_none(t, b, i + 1);
    }
}

/// The text `ms-seq` of an id.
pub fn format_id(id: StreamId) -> (r: Vec<u8>)
    ensures
        r@ == id_text(id),
{
    let mut out: Vec<u8> = Vec::new();
    push_decimal(&mut out, id.ms);
    out.push(45);
    push_decimal(&mut out, id.seq);
    assert(out@ =~= id_text(id));
    out
}

pub fn clone_bytes(b: &Vec<u8>) -> (r: Vec<u8>)
    ensures
        r@ == b@,
{
    slice_to_vec(b.as_slice())
}

fn clone_fields(f: &Vec<(Vec<u8>, Vec<u8>)>) -> (r: Vec<(Vec<u8>, Vec<u8>)>)
    ensures
        fields_view(r@) == fields_view(f@),
{
    let mut out: Vec<(Vec<u8>, Vec<u8>)> = Vec::new();
    let mut i: usize = 0;
    while i < f.len()
        invariant
            i <= f@.len(),
            fields_view(out@) == fields_view(f@.subrange(0, i as int)),
        decreases f@.len() - i,
    {
        let pair = (clone_bytes(&f[i].0), clone_bytes(&f[i].1));
        let ghost before = out@;
        out.push(pair);
        assert(fields_view(out@) =~= fields_view(before).push((f@[i as int].0@, f@[i as int].1@)));
        assert(fields_view(f@.subrange(0, i + 1)) =~= fields_view(f@.subrange(0, i as int)).push(
            (f@[i as int].0@, f@[i as int].1@),
        ));
        i = i + 1;
    }
    assert(f@.subrange(0, f@.len() as int) =~= f@);
    out
}

fn clone_entry(e: &StreamEntry) -> (r: StreamEntry)
    ensures
        r@ == e@,
{
    StreamEntry { id: e.id, fields: clone_fields(&e.fields) }
}

/// Whether an id lies after `lo` (strictly when `strict`) and at or before `hi`.
pub open spec fn selected(id: StreamId, lo: Bound, hi: Bound, strict: bool) -> bool {
    (if strict {
        cmp_bound(id, lo) > 0
    } else {
        cmp_bound(id, lo) >= 0
    }) && cmp_bound(id, hi) <= 0
}

pub struct RedisStream {
    last_milliseconds_time: u64,
    last_sequence_number: u64,
    entries: Vec<StreamEntry>,
}

impl View for RedisStream {
    type V = Seq<(StreamId, Seq<(Seq<u8>, Seq<u8>)>)>;

    closed spec fn view(&self) -> Self::V {
        view_entries(self.entries@)
    }
}

impl RedisStream {
    /// The id of the last entry added, `0-0` while there is none.
    pub closed spec fn last_id(&self) -> StreamId {
        StreamId { ms: self.last_milliseconds_time, seq: self.last_sequence_number }
    }

    /// Ids strictly increase, none is `0-0`, and the last one is remembered.
    pub closed spec fn wf(&self) -> bool {
        let s = self.entries@;
        &&& forall|i: int, j: int|
            0 <= i < j < s.len() ==> id_lt(#[trigger] s[i].id, #[trigger] s[j].id)
        &&& forall|i: int| 0 <= i < s.len() ==> id_lt(zero_id(), #[trigger] s[i].id)
        &&& s.len() == 0 ==> self.last_id() == zero_id()
        &&& s.len() > 0 ==> self.last_id() == s.last().id
    }

    /// In a well-formed stream the ids strictly increase in the order the entries
    /// were added, none is `0-0`, and the last one is the stream's last id. Every
    /// stream starts well formed and `insert` keeps it so.
    pub proof fn lemma_ids_increase(&self)
        requires
            self.wf(),
        ensures
            forall|i: int, j: int|
                0 <= i < j < self@.len() ==> id_lt(#[trigger] self@[i].0, #[trigger] self@[j].0),
            forall|i: int| 0 <= i < self@.len() ==> id_lt(zero_id(), #[trigger] self@[i].0),
            self@.len() == 0 ==> self.last_id() == zero_id(),
            self@.len() > 0 ==> self.last_id() == self@.last().0,
    {
    }

    pub fn new() -> (r: RedisStream)
        ensures
            r.wf(),
            r@ == Seq::<(StreamId, Seq<(Seq<u8>, Seq<u8>)>)>::empty(),
            r.last_id() == zero_id(),
    {
        let r = RedisStream {
            last_milliseconds_time: 0,
            last_sequence_number: 0,
            entries: Vec::new(),
        };
        assert(r@ =~= Seq::<(StreamId, Seq<(Seq<u8>, Seq<u8>)>)>::empty());
        r
    }

    /// A copy with the same entries and the same last id.
    pub fn duplicate(&self) -> (r: RedisStream)
        requires
            self.wf(),
        ensures
            r.wf(),
            r@ == self@,
            r.last_id() == self.last_id(),
    {
        let mut entries: Vec<StreamEntry> = Vec::new();
        let mut i: usize = 0;
        while i < self.entries.len()
            invariant
                i <= self.entries@.len(),
                entries@.len() == i,
                forall|j: int| 0 <= j < i ==> (#[trigger] entries@[j])@ == self.entries@[j]@,
            decreases self.entries@.len() - i,
        {
            entries.push(clone_entry(&self.entries[i]));
            i = i + 1;
        }
        let r = RedisStream {
            last_milliseconds_time: self.last_milliseconds_time,
            last_sequence_number: self.last_sequence_number,
            entries,
        };
        assert(r@ =~= self@);
        assert(forall|j: int| 0 <= j < r.entries@.len() ==> #[trigger] r.entries@[j].id == (#[trigger] r.entries@[j])@.0);
        assert(forall|j: int| 0 <= j < self.entries@.len() ==> (#[trigger] self.entries@[j])@.0 == self.entries@[j].id);
        r
    }

    /// The id of the last entry added (`0-0` while there is none).
    pub fn last_id_exec(&self) -> (r: StreamId)
        ensures
            r == self.last_id(),
    {
        StreamId { ms: self.last_milliseconds_time, seq: self.last_sequence_number }
    }

    /// Adds an entry with the given fields under the id that `id` asks for; `now_ms`
    /// is the wall clock, read only for `*`.
    pub fn insert(&mut self, id: &[u8], now_ms: u64, fields: Vec<(Vec<u8>, Vec<u8>)>) -> (r: Result<
        StreamId,
        XaddError,
    >)
        requires
            old(self).wf(),
        ensures
            final(self).wf(),
            r == insert_spec(old(self).last_id(), id@, now_ms),
            match r {
                Ok(nid) => final(self)@ == old(self)@.push((nid, fields_view(fields@)))
                    && final(self).last_id() == nid,
                Err(_) => final(self)@ == old(self)@ && final(self).last_id() == old(self).last_id(),
            },
    {
        let req = match parse_id_request(id) {
            None => {
                return Err(XaddError::Malformed);
            },
            Some(req) => req,
        };
        let last = StreamId { ms: self.last_milliseconds_time, seq: self.last_sequence_number };
        let nid = match next_id(last, req, now_ms) {
            Err(e) => {
                return Err(e);
            },
            Ok(nid) => nid,
        };
        let ghost before = self.entries@;
        let entry = StreamEntry { id: nid, fields };
        self.entries.push(entry);
        self.last_milliseconds_time = nid.ms;
        self.last_sequence_number = nid.seq;
        assert(view_entries(self.entries@) =~= view_entries(before).push(entry@));
        assert forall|i: int, j: int|
            0 <= i < j < self.entries@.len() implies id_lt(
            #[trigger] self.entries@[i].id,
            #[trigger] self.entries@[j].id,
        ) by {
            if j == before.len() && i < before.len() - 1 {
                assert(id_lt(before[i].id, before[before.len() - 1].id));
            }
        }
        assert forall|i: int| 0 <= i < self.entries@.len() implies id_lt(
            zero_id(),
            #[trigger] self.entries@[i].id,
        ) by {
            if i == before.len() && before.len() > 0 {
                assert(id_lt(zero_id(), before[0].id));
                if before.len() > 1 {
                    assert(id_lt(before[0].id, before[before.len() - 1].id));
                }
            }
        }
        Ok(nid)
    }

    fn select(&self, lo: Bound, hi: Bound, strict: bool) -> (r: Vec<StreamEntry>)
        ensures
            view_entries(r@) == self@.filter(
                |e: (StreamId, Seq<(Seq<u8>, Seq<u8>)>)| selected(e.0, lo, hi, strict),
            ),
    {
        let ghost pred = |e: (StreamId, Seq<(Seq<u8>, Seq<u8>)>)| selected(e.0, lo, hi, strict);
        let ghost all = view_entries(self.entries@);
        let mut out: Vec<StreamEntry> = Vec::new();
        let mut i: usize = 0;
        while i < self.entries.len()
            invariant
                i <= self.entries@.len(),
                all == view_entries(self.entries@),
                pred == (|e: (StreamId, Seq<(Seq<u8>, Seq<u8>)>)| selected(e.0, lo, hi, strict)),
                view_entries(out@) == all.subrange(0, i as int).filter(pred),
            decreases self.entries@.len() - i,
        {
            let e = &self.entries[i];
            let c = compare_ids(&e.id, &lo);
            let keep_lo = if strict {
                matches!(c, core::cmp::Ordering::Greater)
            } else {
                !matches!(c, core::cmp::Ordering::Less)
            };
            assert(keep_lo == (if strict {
                cmp_bound(e.id, lo) > 0
            } else {
                cmp_bound(e.id, lo) >= 0
            }));
            let c2 = compare_ids(&e.id, &hi);
            let keep = keep_lo && !matches!(c2, core::cmp::Ordering::Greater);
            assert(keep == selected(e.id, lo, hi, strict));
            let ghost before = out@;
            assert(all[i as int] == e@);
            assert(keep == pred(all[i as int]));
            if keep {
                out.push(clone_entry(e));
                assert(view_entries(out@) =~= view_entries(before).push(e@));
            }
            proof {
                reveal(Seq::filter);
                assert(all.subrange(0, i + 1).drop_last() =~= all.subrange(0, i as int));
                assert(all.subrange(0, i + 1).last() == all[i as int]);
            }
            i = i + 1;
        }
        assert(all.subrange(0, i as int) =~= all);
        out
    }

    /// The entries whose ids lie between `start` and `end`, both included, in id order.
    pub fn query(&self, start: Bound, end: Bound) -> (r: Vec<StreamEntry>)
        ensures
            view_entries(r@) == self@.filter(
                |e: (StreamId, Seq<(Seq<u8>, Seq<u8>)>)| in_range(e.0, start, end),
            ),
    {
        let r = self.select(start, end, false);
        assert((|e: (StreamId, Seq<(Seq<u8>, Seq<u8>)>)| selected(e.0, start, end, false))
            =~= (|e: (StreamId, Seq<(Seq<u8>, Seq<u8>)>)| in_range(e.0, start, end)));
        assert(self@.filter(|e: (StreamId, Seq<(Seq<u8>, Seq<u8>)>)| selected(e.0, start, end, false))
            =~= self@.filter(|e: (StreamId, Seq<(Seq<u8>, Seq<u8>)>)| in_range(e.0, start, end)));
        r
    }

    /// The entries whose ids lie strictly after `start`, in id order.
    pub fn query_after(&self, start: Bound) -> (r: Vec<StreamEntry>)
        ensures
            view_entries(r@) == self@.filter(
                |e: (StreamId, Seq<(Seq<u8>, Seq<u8>)>)| cmp_bound(e.0, start) > 0,
            ),
    {
        let r = self.select(start, Bound::Max, true);
        assert((|e: (StreamId, Seq<(Seq<u8>, Seq<u8>)>)| selected(e.0, start, Bound::Max, true))
            =~= (|e: (StreamId, Seq<(Seq<u8>, Seq<u8>)>)| cmp_bound(e.0, start) > 0));
        assert(self@.filter(|e: (StreamId, Seq<(Seq<u8>, Seq<u8>)>)| selected(e.0, start, Bound::Max, true))
            =~= self@.filter(|e: (StreamId, Seq<(Seq<u8>, Seq<u8>)>)| cmp_bound(e.0, start) > 0));
        r
    }
}

} // verus!
