//! The tagged wire codec: values, their encoding, and a decoder over byte buffers.

use vstd::prelude::*;
use vstd::slice::slice_to_vec;
use vstd::utf8::valid_utf8;
use crate::decimal::{
    decimal_of, signed_decimal_of, parse_i64_spec, parse_i64, push_decimal,
    push_signed_decimal, lemma_parse_i64_of_decimal, lemma_decimal_round_trip, all_digits,
    is_digit, digits_value,
};

verus! {

broadcast use vstd::std_specs::vec::group_vec_axioms, vstd::seq::group_seq_axioms;

/// The mathematical model of a wire value.
pub enum RespValue {
    SimpleString(Seq<u8>),
    SimpleError(Seq<u8>),
    Integer(i64),
    BulkString(Option<Seq<u8>>),
    Array(Seq<RespValue>),
    Null,
    Boolean(bool),
    Double(Seq<u8>),
    BigNumber(Seq<u8>),
    BulkError(Seq<u8>),
    VerbatimString(Seq<u8>),
    Push(Seq<RespValue>),
}

/// A wire value. Text is held as its bytes; a double and a big number are held as
/// their decimal text.
pub enum RedisType {
    SimpleString(Vec<u8>),
    SimpleError(Vec<u8>),
    Integer(i64),
    BulkString(Option<Vec<u8>>),
    Array(Vec<RedisType>),
    Null,
    Boolean(bool),
    Double(Vec<u8>),
    BigNumber(Vec<u8>),
    BulkError(Vec<u8>),
    VerbatimString(Vec<u8>),
    Push(Vec<RedisType>),
}

/// Why a buffer does not hold a frame.
#[derive(PartialEq, Eq, Structural, Clone, Copy, Debug)]
pub enum DecodeError {
    /// The buffer ends before the frame does.
    Incomplete,
    /// The bytes are not a frame.
    Invalid,
}

pub open spec fn value_of(t: RedisType) -> RespValue
    decreases t, 0int,
{
    match t {
        RedisType::SimpleString(s) => RespValue::SimpleString(s@),
        RedisType::SimpleError(s) => RespValue::SimpleError(s@),
        RedisType::Integer(i) => RespValue::Integer(i),
        RedisType::BulkString(o) => RespValue::BulkString(
            match o {
                Some(s) => Some(s@),
                None => None,
            },
        ),
        RedisType::Array(a) => RespValue::Array(values_of(a@, a@.len() as int)),
        RedisType::Null => RespValue::Null,
        RedisType::Boolean(b) => RespValue::Boolean(b),
        RedisType::Double(s) => RespValue::Double(s@),
        RedisType::BigNumber(s) => RespValue::BigNumber(s@),
        RedisType::BulkError(s) => RespValue::BulkError(s@),
        RedisType::VerbatimString(s) => RespValue::VerbatimString(s@),
        RedisType::Push(a) => RespValue::Push(values_of(a@, a@.len() as int)),
    }
}

/// The models of the first `n` values of `s`.
pub open spec fn values_of(s: Seq<RedisType>, n: int) -> Seq<RespValue>
    decreases s, n,
{
    if n <= 0 || n > s.len() {
        Seq::empty()
    } else {
        values_of(s, n - 1).push(value_of(s[n - 1]))
    }
}

impl View for RedisType {
    type V = RespValue;

    open spec fn view(&self) -> RespValue {
        value_of(*self)
    }
}

pub proof fn lemma_values_of(s: Seq<RedisType>, n: int)
    requires
        0 <= n <= s.len(),
    ensures
        values_of(s, n).len() == n,
        forall|i: int| 0 <= i < n ==> #[trigger] values_of(s, n)[i] == value_of(s[i]),
    decreases n,
{
    if n > 0 {
        lemma_values_of(s, n - 1);
    }
}

pub proof fn lemma_values_of_push(s: Seq<RedisType>, x: RedisType)
    ensures
        values_of(s.push(x), s.len() + 1 as int) == values_of(s, s.len() as int).push(value_of(x)),
{
    lemma_values_of(s, s.len() as int);
    lemma_values_of(s.push(x), s.len() + 1 as int);
    assert(values_of(s.push(x), s.len() + 1 as int) =~= values_of(s, s.len() as int).push(value_of(x)));
}

pub open spec fn crlf() -> Seq<u8> {
    seq![13u8, 10u8]
}

/// A tag byte, then `body`, then CRLF.
pub open spec fn line(tag: u8, body: Seq<u8>) -> Seq<u8> {
    seq![tag] + body + crlf()
}

/// A tag byte, the payload's length, CRLF, the payload, CRLF.
pub open spec fn counted(tag: u8, payload: Seq<u8>) -> Seq<u8> {
    line(tag, decimal_of(payload.len())) + payload + crlf()
}

pub open spec fn encode_spec(v: RespValue) -> Seq<u8>
    decreases v, 0int,
{
    match v {
        RespValue::SimpleString(s) => line(43, s),
        RespValue::SimpleError(s) => line(45, s),
        RespValue::Integer(i) => line(58, signed_decimal_of(i as int)),
        RespValue::BulkString(None) => line(36, seq![45u8, 49u8]),
        RespValue::BulkString(Some(s)) => counted(36, s),
        RespValue::Array(items) => line(42, decimal_of(items.len())) + encode_items(items, 0),
        RespValue::Null => line(95, Seq::empty()),
        RespValue::Boolean(b) => line(
            35,
            if b {
                seq![116u8]
            } else {
                seq![102u8]
            },
        ),
        RespValue::Double(s) => line(44, s),
        RespValue::BigNumber(s) => line(40, s),
        RespValue::BulkError(s) => counted(33, s),
        RespValue::VerbatimString(s) => counted(61, s),
        RespValue::Push(items) => line(62, decimal_of(items.len())) + encode_items(items, 0),
    }
}

/// The encodings of `items[i..]`, one after another.
pub open spec fn encode_items(items: Seq<RespValue>, i: int) -> Seq<u8>
    decreases items, items.len() - i,
{
    if i < 0 || i >= items.len() {
        Seq::empty()
    } else {
        encode_spec(items[i]) + encode_items(items, i + 1)
    }
}

/// No CR immediately followed by LF.
pub open spec fn no_crlf(s: Seq<u8>) -> bool {
    forall|i: int| 0 <= i < s.len() - 1 ==> !((#[trigger] s[i]) == 13 && s[i + 1] == 10)
}

/// What `num_bigint::BigInt::from_str` accepts: an optional `-`, an optional `+`
/// (neither followed by a second `+`), then a digit, then digits and underscores.
pub open spec fn big_integer_syntax(b: Seq<u8>) -> bool {
    let t = if b.len() > 0 && b[0] == 45 && !(b.len() > 1 && b[1] == 43) {
        b.skip(1)
    } else {
        b
    };
    let u = if t.len() > 0 && t[0] == 43 && !(t.len() > 1 && t[1] == 43) {
        t.skip(1)
    } else {
        t
    };
    &&& u.len() > 0
    &&& is_digit(u[0])
    &&& forall|i: int| 0 <= i < u.len() ==> is_digit(#[trigger] u[i]) || u[i] == 95
}

pub open spec fn line_text_ok(s: Seq<u8>) -> bool {
    valid_utf8(s) && no_crlf(s)
}

/// A value that the decoder reads back from its encoding.
pub open spec fn wf_value(v: RespValue) -> bool
    decreases v, 0int,
{
    match v {
        RespValue::SimpleString(s) => line_text_ok(s),
        RespValue::SimpleError(s) => line_text_ok(s),
        RespValue::Integer(_) => true,
        RespValue::BulkString(None) => true,
        RespValue::BulkString(Some(s)) => valid_utf8(s) && s.len() <= i64::MAX,
        RespValue::Array(items) => items.len() <= i64::MAX && wf_items(items, 0),
        RespValue::Null => true,
        RespValue::Boolean(_) => true,
        RespValue::Double(s) => line_text_ok(s),
        RespValue::BigNumber(s) => no_crlf(s) && big_integer_syntax(s),
        RespValue::BulkError(s) => valid_utf8(s) && s.len() <= i64::MAX,
        RespValue::VerbatimString(s) => valid_utf8(s) && s.len() <= i64::MAX,
        RespValue::Push(items) => items.len() <= i64::MAX && wf_items(items, 0),
    }
}

pub open spec fn wf_items(items: Seq<RespValue>, i: int) -> bool
    decreases items, items.len() - i,
{
    if i < 0 || i >= items.len() {
        true
    } else {
        wf_value(items[i]) && wf_items(items, i + 1)
    }
}

/// The outcome of reading one frame from the start of a buffer.
pub enum Parsed {
    Done(RespValue, nat),
    Incomplete,
    Invalid,
}

/// The outcome of reading a run of frames.
pub enum ParsedItems {
    Done(Seq<RespValue>, nat),
    Incomplete,
    Invalid,
}

/// The index of the first CRLF at or after `i`.
pub open spec fn crlf_from(s: Seq<u8>, i: int) -> Option<int>
    decreases s.len() - i,
{
    if i < 0 || i + 1 >= s.len() {
        None
    } else if s[i] == 13 && s[i + 1] == 10 {
        Some(i)
    } else {
        crlf_from(s, i + 1)
    }
}

pub proof fn lemma_crlf_from(s: Seq<u8>, i: int)
    ensures
        match crlf_from(s, i) {
            Some(e) => 0 <= i <= e && e + 1 < s.len() && s[e] == 13 && s[e + 1] == 10 && forall|
                j: int,
            | i <= j < e ==> !((#[trigger] s[j]) == 13 && s[j + 1] == 10),
            None => forall|j: int| 0 <= i <= j < s.len() - 1 ==> !((#[trigger] s[j]) == 13 && s[j + 1] == 10),
        },
    decreases s.len() - i,
{
    if !(i < 0 || i + 1 >= s.len()) && !(s[i] == 13 && s[i + 1] == 10) {
        lemma_crlf_from(s, i + 1);
    }
}

#[via_fn]
proof fn parse_spec_decreases(s: Seq<u8>) {
    lemma_crlf_from(s, 1);
}

pub open spec fn is_tag(b: u8) -> bool {
    b == 43 || b == 45 || b == 58 || b == 36 || b == 42 || b == 95 || b == 35 || b == 44 || b
        == 40 || b == 33 || b == 61 || b == 62
}

/// A frame of a length-prefixed payload (`$`, `!`, `=`) whose header line is
/// `body` and ends at `h`.
pub open spec fn parse_counted(s: Seq<u8>, tag: u8, body: Seq<u8>, h: int) -> Parsed {
    match parse_i64_spec(body) {
        None => Parsed::Invalid,
        Some(n) => if n < 0 {
            if tag == 36 {
                Parsed::Done(RespValue::BulkString(None), h as nat)
            } else {
                Parsed::Invalid
            }
        } else if s.len() < h + n + 2 {
            Parsed::Incomplete
        } else if s[h + n] != 13 || s[h + n + 1] != 10 {
            Parsed::Invalid
        } else {
            let p = s.subrange(h, h + n);
            if !valid_utf8(p) {
                Parsed::Invalid
            } else if tag == 36 {
                Parsed::Done(RespValue::BulkString(Some(p)), (h + n + 2) as nat)
            } else if tag == 33 {
                Parsed::Done(RespValue::BulkError(p), (h + n + 2) as nat)
            } else {
                Parsed::Done(RespValue::VerbatimString(p), (h + n + 2) as nat)
            }
        },
    }
}

/// Reads one frame from the start of `s`.
pub open spec fn parse_spec(s: Seq<u8>) -> Parsed
    decreases s.len(), 0int,
    via parse_spec_decreases
{
    if s.len() == 0 {
        Parsed::Incomplete
    } else if !is_tag(s[0]) {
        Parsed::Invalid
    } else {
        match crlf_from(s, 1) {
            None => Parsed::Incomplete,
            Some(e) => {
                let tag = s[0];
                let body = s.subrange(1, e);
                let h = e + 2;
                if tag == 43 || tag == 45 || tag == 44 {
                    if !valid_utf8(body) {
                        Parsed::Invalid
                    } else if tag == 43 {
                        Parsed::Done(RespValue::SimpleString(body), h as nat)
                    } else if tag == 45 {
                        Parsed::Done(RespValue::SimpleError(body), h as nat)
                    } else {
                        Parsed::Done(RespValue::Double(body), h as nat)
                    }
                } else if tag == 40 {
                    if big_integer_syntax(body) {
                        Parsed::Done(RespValue::BigNumber(body), h as nat)
                    } else {
                        Parsed::Invalid
                    }
                } else if tag == 58 {
                    match parse_i64_spec(body) {
                        Some(n) => Parsed::Done(RespValue::Integer(n), h as nat),
                        None => Parsed::Invalid,
                    }
                } else if tag == 95 {
                    if body.len() == 0 {
                        Parsed::Done(RespValue::Null, h as nat)
                    } else {
                        Parsed::Invalid
                    }
                } else if tag == 35 {
                    if body == seq![116u8] {
                        Parsed::Done(RespValue::Boolean(true), h as nat)
                    } else if body == seq![102u8] {
                        Parsed::Done(RespValue::Boolean(false), h as nat)
                    } else {
                        Parsed::Invalid
                    }
                } else if tag == 42 || tag == 62 {
                    match parse_i64_spec(body) {
                        None => Parsed::Invalid,
                        Some(n) => {
                            let count: nat = if n < 0 {
                                0
                            } else {
                                n as nat
                            };
                            match parse_items(s.skip(h), count) {
                                ParsedItems::Done(items, k) => if tag == 42 {
                                    Parsed::Done(RespValue::Array(items), (h + k) as nat)
                                } else {
                                    Parsed::Done(RespValue::Push(items), (h + k) as nat)
                                },
                                ParsedItems::Incomplete => Parsed::Incomplete,
                                ParsedItems::Invalid => Parsed::Invalid,
                            }
                        },
                    }
                } else {
                    parse_counted(s, tag, body, h)
                }
            },
        }
    }
}

/// Reads `n` frames one after another from the start of `s`.
pub open spec fn parse_items(s: Seq<u8>, n: nat) -> ParsedItems
    decreases s.len(), n + 1,
{
    if n == 0 {
        ParsedItems::Done(Seq::empty(), 0)
    } else {
        match parse_spec(s) {
            Parsed::Done(v, m) => if m == 0 || m > s.len() {
                ParsedItems::Invalid
            } else {
                match parse_items(s.skip(m as int), (n - 1) as nat) {
                    ParsedItems::Done(vs, k) => ParsedItems::Done(seq![v] + vs, m + k),
                    other => other,
                }
            },
            Parsed::Incomplete => ParsedItems::Incomplete,
            Parsed::Invalid => ParsedItems::Invalid,
        }
    }
}

/// Relies on `std::str::from_utf8`: it succeeds exactly on well-formed UTF-8.
#[verifier::external_body]
pub(crate) fn is_utf8(b: &[u8]) -> (r: bool)
    ensures
        r == valid_utf8(b@),
{
    std::str::from_utf8(b).is_ok()
}

/// Relies on `<num_bigint::BigInt as FromStr>::from_str` (base 10): it accepts
/// exactly the text that `big_integer_syntax` describes.
#[verifier::external_body]
fn is_big_integer(b: &[u8]) -> (r: bool)
    ensures
        r == big_integer_syntax(b@),
{
    match std::str::from_utf8(b) {
        Ok(text) => text.parse::<num_bigint::BigInt>().is_ok(),
        Err(_) => false,
    }
}

/// Appends `b`.
pub fn push_bytes(out: &mut Vec<u8>, b: &[u8])
    ensures
        final(out)@ == old(out)@ + b@,
{
    let mut i: usize = 0;
    while i < b.len()
        invariant
            i <= b@.len(),
            out@ == old(out)@ + b@.subrange(0, i as int),
        decreases b@.len() - i,
    {
        out.push(b[i]);
        i = i + 1;
        assert(out@ =~= old(out)@ + b@.subrange(0, i as int));
    }
    assert(b@.subrange(0, b@.len() as int) =~= b@);
}

fn push_line(out: &mut Vec<u8>, tag: u8, body: &[u8])
    ensures
        final(out)@ == old(out)@ + line(tag, body@),
{
    out.push(tag);
    push_bytes(out, body);
    out.push(13);
    out.push(10);
    assert(final(out)@ =~= old(out)@ + line(tag, body@));
}

fn push_header(out: &mut Vec<u8>, tag: u8, n: usize)
    ensures
        final(out)@ == old(out)@ + line(tag, decimal_of(n as nat)),
{
    out.push(tag);
    push_decimal(out, n as u64);
    out.push(13);
    out.push(10);
    assert(final(out)@ =~= old(out)@ + line(tag, decimal_of(n as nat)));
}

fn push_counted(out: &mut Vec<u8>, tag: u8, payload: &[u8])
    ensures
        final(out)@ == old(out)@ + counted(tag, payload@),
{
    push_header(out, tag, payload.len());
    push_bytes(out, payload);
    out.push(13);
    out.push(10);
    assert(final(out)@ =~= old(out)@ + counted(tag, payload@));
}

fn encode_items_into(out: &mut Vec<u8>, items: &Vec<RedisType>)
    ensures
        final(out)@ == old(out)@ + encode_items(values_of(items@, items@.len() as int), 0),
    decreases items, 0int,
{
    let ghost vs = values_of(items@, items@.len() as int);
    proof {
        lemma_values_of(items@, items@.len() as int);
    }
    let mut i: usize = 0;
    while i < items.len()
        invariant
            i <= items@.len(),
            vs == values_of(items@, items@.len() as int),
            vs.len() == items@.len(),
            forall|j: int| 0 <= j < items@.len() ==> #[trigger] vs[j] == value_of(items@[j]),
            out@ + encode_items(vs, i as int) == old(out)@ + encode_items(vs, 0),
        decreases items@.len() - i,
    {
        let ghost before = out@;
        encode_into(out, &items[i]);
        assert(encode_items(vs, i as int) == encode_spec(vs[i as int]) + encode_items(vs, i + 1));
        assert(out@ + encode_items(vs, i + 1) =~= before + encode_items(vs, i as int));
        i = i + 1;
    }
    assert(encode_items(vs, i as int) =~= Seq::<u8>::empty());
    assert(out@ =~= out@ + encode_items(vs, i as int));
}

fn encode_into(out: &mut Vec<u8>, data: &RedisType)
    ensures
        final(out)@ == old(out)@ + encode_spec(data@),
    decreases data, 1int,
{
    match data {
        RedisType::SimpleString(s) => push_line(out, 43, s.as_slice()),
        RedisType::SimpleError(s) => push_line(out, 45, s.as_slice()),
        RedisType::Integer(i) => {
            out.push(58);
            push_signed_decimal(out, *i);
            out.push(13);
            out.push(10);
            assert(final(out)@ =~= old(out)@ + encode_spec(data@));
        },
        RedisType::BulkString(None) => {
            push_line(out, 36, &[45u8, 49u8]);
            assert(final(out)@ =~= old(out)@ + encode_spec(data@));
        },
        RedisType::BulkString(Some(s)) => push_counted(out, 36, s.as_slice()),
        RedisType::Array(items) => {
            proof {
                lemma_values_of(items@, items@.len() as int);
            }
            push_header(out, 42, items.len());
            encode_items_into(out, items);
            assert(final(out)@ =~= old(out)@ + encode_spec(data@));
        },
        RedisType::Null => {
            push_line(out, 95, &[]);
            assert(final(out)@ =~= old(out)@ + encode_spec(data@));
        },
        RedisType::Boolean(b) => {
            if *b {
                push_line(out, 35, &[116u8]);
            } else {
                push_line(out, 35, &[102u8]);
            }
            assert(final(out)@ =~= old(out)@ + encode_spec(data@));
        },
        RedisType::Double(s) => push_line(out, 44, s.as_slice()),
        RedisType::BigNumber(s) => push_line(out, 40, s.as_slice()),
        RedisType::BulkError(s) => push_counted(out, 33, s.as_slice()),
        RedisType::VerbatimString(s) => push_counted(out, 61, s.as_slice()),
        RedisType::Push(items) => {
            proof {
                lemma_values_of(items@, items@.len() as int);
            }
            push_header(out, 62, items.len());
            encode_items_into(out, items);
            assert(final(out)@ =~= old(out)@ + encode_spec(data@));
        },
    }
}

/// The wire encoding of a value.
pub fn encode(data: &RedisType) -> (r: Vec<u8>)
    ensures
        r@ == encode_spec(data@),
{
    let mut out: Vec<u8> = Vec::new();
    encode_into(&mut out, data);
    assert(out@ =~= encode_spec(data@));
    out
}

/// `r` is what `p` describes, in exec values.
pub open spec fn decoded_as(r: Result<(RedisType, usize), DecodeError>, p: Parsed) -> bool {
    match p {
        Parsed::Done(v, m) => match r {
            Ok((t, n)) => t@ == v && n == m,
            Err(_) => false,
        },
        Parsed::Incomplete => r == Err::<(RedisType, usize), DecodeError>(DecodeError::Incomplete),
        Parsed::Invalid => r == Err::<(RedisType, usize), DecodeError>(DecodeError::Invalid),
    }
}

pub open spec fn consumed_in(r: Result<(RedisType, usize), DecodeError>, len: int) -> bool {
    match r {
        Ok((_, n)) => 1 <= n <= len,
        Err(_) => true,
    }
}

/// Frames already read, in front of the outcome of reading the rest.
pub open spec fn prepend(vs: Seq<RespValue>, c: nat, p: ParsedItems) -> ParsedItems {
    match p {
        ParsedItems::Done(ws, k) => ParsedItems::Done(vs + ws, c + k),
        other => other,
    }
}

proof fn lemma_prepend_step(a: Seq<RespValue>, c: nat, v: RespValue, m: nat, p: ParsedItems)
    ensures
        prepend(a, c, prepend(seq![v], m, p)) == prepend(a.push(v), c + m, p),
{
    match p {
        ParsedItems::Done(ws, k) => {
            assert(a + (seq![v] + ws) =~= a.push(v) + ws);
        },
        _ => {},
    }
}

fn find_crlf(s: &[u8], from: usize) -> (r: Option<usize>)
    ensures
        match r {
            Some(e) => crlf_from(s@, from as int) == Some(e as int),
            None => crlf_from(s@, from as int) is None,
        },
{
    let mut i: usize = from;
    while i < s.len() && s.len() - i > 1
        invariant
            from <= i,
            crlf_from(s@, from as int) == crlf_from(s@, i as int),
        decreases s@.len() - i,
    {
        if s[i] == 13 && s[i + 1] == 10 {
            return Some(i);
        }
        i = i + 1;
    }
    None
}

fn decode_counted(s: &[u8], tag: u8, body: &[u8], h: usize) -> (r: Result<
    (RedisType, usize),
    DecodeError,
>)
    requires
        3 <= h <= s@.len(),
        tag == 36 || tag == 33 || tag == 61,
    ensures
        decoded_as(r, parse_counted(s@, tag, body@, h as int)),
        consumed_in(r, s@.len() as int),
{
    match parse_i64(body) {
        None => Err(DecodeError::Invalid),
        Some(n) => {
            if n < 0 {
                if tag == 36 {
                    Ok((RedisType::BulkString(None), h))
                } else {
                    Err(DecodeError::Invalid)
                }
            } else {
                let avail = s.len() - h;
                if avail < 2 || n as u64 > (avail - 2) as u64 {
                    return Err(DecodeError::Incomplete);
                }
                let end = h + n as usize;
                if s[end] != 13 || s[end + 1] != 10 {
                    return Err(DecodeError::Invalid);
                }
                let p = &s[h..end];
                if !is_utf8(p) {
                    return Err(DecodeError::Invalid);
                }
                let v = slice_to_vec(p);
                if tag == 36 {
                    Ok((RedisType::BulkString(Some(v)), end + 2))
                } else if tag == 33 {
                    Ok((RedisType::BulkError(v), end + 2))
                } else {
                    Ok((RedisType::VerbatimString(v), end + 2))
                }
            }
        },
    }
}

/// An array or push frame whose header line is `body` and ends at `h`.
pub open spec fn parse_sequence(s: Seq<u8>, tag: u8, body: Seq<u8>, h: int) -> Parsed {
    match parse_i64_spec(body) {
        None => Parsed::Invalid,
        Some(n) => match parse_items(
            s.skip(h),
            if n < 0 {
                0
            } else {
                n as nat
            },
        ) {
            ParsedItems::Done(items, k) => if tag == 42 {
                Parsed::Done(RespValue::Array(items), (h + k) as nat)
            } else {
                Parsed::Done(RespValue::Push(items), (h + k) as nat)
            },
            ParsedItems::Incomplete => Parsed::Incomplete,
            ParsedItems::Invalid => Parsed::Invalid,
        },
    }
}

fn decode_items(s: &[u8], tag: u8, body: &[u8], h: usize) -> (r: Result<
    (RedisType, usize),
    DecodeError,
>)
    requires
        3 <= h <= s@.len(),
        tag == 42 || tag == 62,
    ensures
        decoded_as(r, parse_sequence(s@, tag, body@, h as int)),
        consumed_in(r, s@.len() as int),
    decreases s@.len(), 0int,
{
    let n = match parse_i64(body) {
        None => {
            return Err(DecodeError::Invalid);
        },
        Some(n) => n,
    };
    let count: u64 = if n < 0 {
        0
    } else {
        n as u64
    };
    let mut items: Vec<RedisType> = Vec::new();
    let mut off: usize = h;
    let mut k: u64 = 0;
    while k < count
        invariant
            3 <= h <= off <= s@.len(),
            k <= count,
            tag == 42 || tag == 62,
            parse_i64_spec(body@) == Some(n),
            count == (if n < 0 {
                0
            } else {
                n as nat
            }),
            parse_items(s@.skip(h as int), count as nat) == prepend(
                values_of(items@, items@.len() as int),
                (off - h) as nat,
                parse_items(s@.skip(off as int), (count - k) as nat),
            ),
        decreases count - k,
    {
        let rest = &s[off..s.len()];
        assert(rest@ =~= s@.skip(off as int));
        match decode_at(rest) {
            Ok((v, m)) => {
                let ghost a = values_of(items@, items@.len() as int);
                let ghost tail = parse_items(rest@.skip(m as int), (count - k - 1) as nat);
                assert(parse_items(rest@, (count - k) as nat) == prepend(seq![v@], m as nat, tail));
                proof {
                    lemma_values_of_push(items@, v);
                    lemma_prepend_step(a, (off - h) as nat, v@, m as nat, tail);
                }
                assert(rest@.skip(m as int) =~= s@.skip(off + m));
                items.push(v);
                off = off + m;
                k = k + 1;
            },
            Err(e) => {
                assert(e == DecodeError::Incomplete ==> parse_items(rest@, (count - k) as nat)
                    == ParsedItems::Incomplete);
                assert(e == DecodeError::Invalid ==> parse_items(rest@, (count - k) as nat)
                    == ParsedItems::Invalid);
                assert(e == DecodeError::Incomplete ==> parse_sequence(s@, tag, body@, h as int)
                    == Parsed::Incomplete);
                assert(e == DecodeError::Invalid ==> parse_sequence(s@, tag, body@, h as int)
                    == Parsed::Invalid);
                return Err(e);
            },
        }
    }
    assert(values_of(items@, items@.len() as int) + Seq::<RespValue>::empty() =~= values_of(
        items@,
        items@.len() as int,
    ));
    if tag == 42 {
        Ok((RedisType::Array(items), off))
    } else {
        Ok((RedisType::Push(items), off))
    }
}

fn decode_at(s: &[u8]) -> (r: Result<(RedisType, usize), DecodeError>)
    ensures
        decoded_as(r, parse_spec(s@)),
        consumed_in(r, s@.len() as int),
    decreases s@.len(), 1int,
{
    if s.len() == 0 {
        return Err(DecodeError::Incomplete);
    }
    let tag = s[0];
    if !(tag == 43 || tag == 45 || tag == 58 || tag == 36 || tag == 42 || tag == 95 || tag == 35
        || tag == 44 || tag == 40 || tag == 33 || tag == 61 || tag == 62) {
        return Err(DecodeError::Invalid);
    }
    let e = match find_crlf(s, 1) {
        Some(e) => e,
        None => {
            return Err(DecodeError::Incomplete);
        },
    };
    proof {
        lemma_crlf_from(s@, 1);
    }
    let body = &s[1..e];
    let h = e + 2;
    if tag == 43 || tag == 45 || tag == 44 {
        if !is_utf8(body) {
            return Err(DecodeError::Invalid);
        }
        let text = slice_to_vec(body);
        if tag == 43 {
            Ok((RedisType::SimpleString(text), h))
        } else if tag == 45 {
            Ok((RedisType::SimpleError(text), h))
        } else {
            Ok((RedisType::Double(text), h))
        }
    } else if tag == 40 {
        if is_big_integer(body) {
            Ok((RedisType::BigNumber(slice_to_vec(body)), h))
        } else {
            Err(DecodeError::Invalid)
        }
    } else if tag == 58 {
        match parse_i64(body) {
            Some(n) => Ok((RedisType::Integer(n), h)),
            None => Err(DecodeError::Invalid),
        }
    } else if tag == 95 {
        if e == 1 {
            Ok((RedisType::Null, h))
        } else {
            Err(DecodeError::Invalid)
        }
    } else if tag == 35 {
        if e == 2 && s[1] == 116 {
            assert(body@ =~= seq![116u8]);
            Ok((RedisType::Boolean(true), h))
        } else if e == 2 && s[1] == 102 {
            assert(body@ =~= seq![102u8]);
            Ok((RedisType::Boolean(false), h))
        } else {
            assert(body@.len() != 1 || body@[0] != 116);
            assert(body@.len() != 1 || body@[0] != 102);
            Err(DecodeError::Invalid)
        }
    } else if tag == 42 || tag == 62 {
        assert(parse_spec(s@) == parse_sequence(s@, tag, body@, h as int));
        decode_items(s, tag, body, h)
    } else {
        decode_counted(s, tag, body, h)
    }
}

/// Reads one frame from the start of `buf`: the value and the number of bytes it
/// took, tag, terminators and nested frames included.
pub fn decode(buf: &[u8]) -> (r: Result<(RedisType, u64), DecodeError>)
    ensures
        match parse_spec(buf@) {
            Parsed::Done(v, m) => match r {
                Ok((t, n)) => t@ == v && n == m,
                Err(_) => false,
            },
            Parsed::Incomplete => r == Err::<(RedisType, u64), DecodeError>(
                DecodeError::Incomplete,
            ),
            Parsed::Invalid => r == Err::<(RedisType, u64), DecodeError>(DecodeError::Invalid),
        },
{
    match decode_at(buf) {
        Ok((t, n)) => Ok((t, n as u64)),
        Err(e) => Err(e),
    }
}

proof fn lemma_crlf_at(x: Seq<u8>, i: int, e: int)
    requires
        0 <= i <= e,
        e + 1 < x.len(),
        x[e] == 13,
        x[e + 1] == 10,
        forall|j: int| i <= j < e ==> !((#[trigger] x[j]) == 13 && x[j + 1] == 10),
    ensures
        crlf_from(x, i) == Some(e),
    decreases e - i,
{
    if i < e {
        lemma_crlf_at(x, i + 1, e);
    }
}

proof fn lemma_line(tag: u8, body: Seq<u8>, rest: Seq<u8>)
    requires
        no_crlf(body),
    ensures
        ({
            let x = line(tag, body) + rest;
            &&& x.len() == body.len() + 3int + rest.len()
            &&& x[0] == tag
            &&& crlf_from(x, 1) == Some(body.len() + 1int)
            &&& x.subrange(1, body.len() + 1int) == body
            &&& x.skip(body.len() + 3int) == rest
        }),
{
    let x = line(tag, body) + rest;
    assert forall|j: int| 1 <= j < body.len() + 1int implies !((#[trigger] x[j]) == 13 && x[j + 1]
        == 10) by {
        assert(x[j] == body[j - 1]);
        if j < body.len() {
            assert(x[j + 1] == body[j]);
        } else {
            assert(x[j + 1] == 13);
        }
    }
    lemma_crlf_at(x, 1, body.len() + 1int);
    assert(x.subrange(1, body.len() + 1int) =~= body);
    assert(x.skip(body.len() + 3int) =~= rest);
}

proof fn lemma_digits_no_crlf(d: Seq<u8>)
    requires
        all_digits(d),
    ensures
        no_crlf(d),
{
    assert forall|i: int| 0 <= i < d.len() - 1 implies !((#[trigger] d[i]) == 13 && d[i + 1]
        == 10) by {
        assert(is_digit(d[i]));
    }
}

/// The header line of a count `n`: it has no CRLF and reads back as `n`.
proof fn lemma_count_header(n: nat)
    requires
        n <= i64::MAX,
    ensures
        no_crlf(decimal_of(n)),
        parse_i64_spec(decimal_of(n)) == Some(n as i64),
{
    lemma_decimal_round_trip(n);
    lemma_digits_no_crlf(decimal_of(n));
    lemma_parse_i64_of_decimal(n as i64);
}

proof fn lemma_counted_round_trip(tag: u8, t: Seq<u8>, rest: Seq<u8>)
    requires
        tag == 36 || tag == 33 || tag == 61,
        valid_utf8(t),
        t.len() <= i64::MAX,
    ensures
        ({
            let x = counted(tag, t) + rest;
            let h = decimal_of(t.len()).len() + 3int;
            &&& x.len() > 0 && x[0] == tag
            &&& crlf_from(x, 1) == Some(h - 2)
            &&& x.subrange(1, h - 2) == decimal_of(t.len())
            &&& parse_spec(x) == if tag == 36 {
                Parsed::Done(RespValue::BulkString(Some(t)), counted(tag, t).len())
            } else if tag == 33 {
                Parsed::Done(RespValue::BulkError(t), counted(tag, t).len())
            } else {
                Parsed::Done(RespValue::VerbatimString(t), counted(tag, t).len())
            }
        }),
{
    let d = decimal_of(t.len());
    lemma_count_header(t.len());
    let tail = t + crlf() + rest;
    lemma_line(tag, d, tail);
    let x = counted(tag, t) + rest;
    assert(x =~= line(tag, d) + tail);
    let h = d.len() + 3int;
    let n = t.len() as int;
    assert(x[h + n] == 13);
    assert(x[h + n + 1] == 10);
    assert(x.subrange(h, h + n) =~= t);
    assert(parse_spec(x) == parse_counted(x, tag, d, h));
}

/// The value a text line of `tag` stands for.
pub open spec fn text_value(tag: u8, t: Seq<u8>) -> RespValue {
    if tag == 43 {
        RespValue::SimpleString(t)
    } else if tag == 45 {
        RespValue::SimpleError(t)
    } else if tag == 44 {
        RespValue::Double(t)
    } else {
        RespValue::BigNumber(t)
    }
}

proof fn lemma_text_round_trip(tag: u8, t: Seq<u8>, rest: Seq<u8>)
    requires
        (tag == 43 || tag == 45 || tag == 44) && line_text_ok(t) || tag == 40 && no_crlf(t)
            && big_integer_syntax(t),
    ensures
        parse_spec(line(tag, t) + rest) == Parsed::Done(text_value(tag, t), (t.len() + 3) as nat),
{
    lemma_line(tag, t, rest);
}

proof fn lemma_integer_round_trip(i: i64, rest: Seq<u8>)
    ensures
        parse_spec(line(58, signed_decimal_of(i as int)) + rest) == Parsed::Done(
            RespValue::Integer(i),
            (signed_decimal_of(i as int).len() + 3) as nat,
        ),
{
    let d = signed_decimal_of(i as int);
    lemma_parse_i64_of_decimal(i);
    if i < 0 {
        let m = (-(i as int)) as nat;
        lemma_decimal_round_trip(m);
        assert forall|j: int| 0 <= j < d.len() - 1 implies !((#[trigger] d[j]) == 13 && d[j + 1]
            == 10) by {
            if j > 0 {
                assert(d[j] == decimal_of(m)[j - 1]);
                assert(is_digit(decimal_of(m)[j - 1]));
            }
        }
    } else {
        lemma_decimal_round_trip(i as nat);
        lemma_digits_no_crlf(d);
    }
    lemma_line(58, d, rest);
}

proof fn lemma_short_round_trip(v: RespValue, rest: Seq<u8>)
    requires
        v is Null || v is Boolean || v == RespValue::BulkString(None),
    ensures
        parse_spec(encode_spec(v) + rest) == Parsed::Done(v, encode_spec(v).len()),
{
    match v {
        RespValue::Null => {
            lemma_line(95, Seq::empty(), rest);
        },
        RespValue::Boolean(b) => {
            let d = if b {
                seq![116u8]
            } else {
                seq![102u8]
            };
            lemma_line(35, d, rest);
        },
        _ => {
            let d = seq![45u8, 49u8];
            assert(d.skip(1) =~= seq![49u8]);
            assert(seq![49u8].drop_last() =~= Seq::<u8>::empty());
            reveal_with_fuel(digits_value, 2);
            assert(digits_value(seq![49u8]) == 1);
            lemma_line(36, d, rest);
        },
    }
}

/// Reading back what `encode_spec` wrote gives the value and the exact length,
/// whatever follows in the buffer.
pub proof fn lemma_round_trip(v: RespValue, rest: Seq<u8>)
    requires
        wf_value(v),
    ensures
        parse_spec(encode_spec(v) + rest) == Parsed::Done(v, encode_spec(v).len()),
    decreases v, 0int,
{
    match v {
        RespValue::SimpleString(t) => lemma_text_round_trip(43, t, rest),
        RespValue::SimpleError(t) => lemma_text_round_trip(45, t, rest),
        RespValue::Double(t) => lemma_text_round_trip(44, t, rest),
        RespValue::BigNumber(t) => lemma_text_round_trip(40, t, rest),
        RespValue::Integer(i) => lemma_integer_round_trip(i, rest),
        RespValue::BulkString(Some(t)) => lemma_counted_round_trip(36, t, rest),
        RespValue::BulkError(t) => lemma_counted_round_trip(33, t, rest),
        RespValue::VerbatimString(t) => lemma_counted_round_trip(61, t, rest),
        RespValue::Array(items) => lemma_sequence_round_trip(42, items, rest),
        RespValue::Push(items) => lemma_sequence_round_trip(62, items, rest),
        _ => lemma_short_round_trip(v, rest),
    }
}

proof fn lemma_sequence_round_trip(tag: u8, items: Seq<RespValue>, rest: Seq<u8>)
    requires
        tag == 42 || tag == 62,
        items.len() <= i64::MAX,
        wf_items(items, 0),
    ensures
        ({
            let e = line(tag, decimal_of(items.len())) + encode_items(items, 0);
            let x = e + rest;
            let h = decimal_of(items.len()).len() + 3int;
            &&& x.len() > 0 && x[0] == tag
            &&& crlf_from(x, 1) == Some(h - 2)
            &&& parse_spec(x) == if tag == 42 {
                Parsed::Done(RespValue::Array(items), e.len())
            } else {
                Parsed::Done(RespValue::Push(items), e.len())
            }
        }),
    decreases items, items.len() + 1,
{
    let d = decimal_of(items.len());
    lemma_count_header(items.len());
    let body = encode_items(items, 0);
    let tail = body + rest;
    lemma_line(tag, d, tail);
    let x = line(tag, d) + body + rest;
    assert(x =~= line(tag, d) + tail);
    lemma_items_round_trip(items, 0, rest);
    assert(items.skip(0) =~= items);
    let h = d.len() + 3int;
    assert(x.skip(h) =~= tail);
    assert(parse_spec(x) == parse_sequence(x, tag, d, h));
}

proof fn lemma_items_round_trip(items: Seq<RespValue>, i: int, rest: Seq<u8>)
    requires
        0 <= i <= items.len(),
        wf_items(items, i),
    ensures
        parse_items(encode_items(items, i) + rest, (items.len() - i) as nat) == ParsedItems::Done(
            items.skip(i),
            encode_items(items, i).len(),
        ),
    decreases items, items.len() - i,
{
    if i == items.len() {
        assert(items.skip(i) =~= Seq::<RespValue>::empty());
    } else {
        let v = items[i];
        let later = encode_items(items, i + 1);
        let x = encode_items(items, i) + rest;
        lemma_round_trip(v, later + rest);
        assert(x =~= encode_spec(v) + (later + rest));
        lemma_items_round_trip(items, i + 1, rest);
        let m = encode_spec(v).len();
        assert(m > 0) by {
            reveal_with_fuel(encode_spec, 1);
        }
        assert(x.skip(m as int) =~= later + rest);
        assert(seq![v] + items.skip(i + 1) =~= items.skip(i));
    }
}

/// Decoding the encoding of a well-formed value gives that value back, and the
/// byte count is the encoding's length.
pub proof fn lemma_decode_encode(v: RespValue)
    requires
        wf_value(v),
    ensures
        parse_spec(encode_spec(v)) == Parsed::Done(v, encode_spec(v).len()),
{
    lemma_round_trip(v, Seq::empty());
    assert(encode_spec(v) + Seq::<u8>::empty() =~= encode_spec(v));
}

/// An array of bulk strings.
pub open spec fn bulk_array(ss: Seq<Seq<u8>>) -> RespValue {
    RespValue::Array(ss.map_values(|s: Seq<u8>| RespValue::BulkString(Some(s))))
}

pub open spec fn bytes_views(v: Seq<Vec<u8>>) -> Seq<Seq<u8>> {
    v.map_values(|b: Vec<u8>| b@)
}

/// Builds an array of bulk strings from the given byte strings.
pub fn convert_to_redis_bulk_string_array(strings: &Vec<Vec<u8>>) -> (r: RedisType)
    ensures
        r@ == bulk_array(bytes_views(strings@)),
{
    let mut items: Vec<RedisType> = Vec::new();
    let mut i: usize = 0;
    while i < strings.len()
        invariant
            i <= strings@.len(),
            values_of(items@, items@.len() as int) == bulk_array(
                bytes_views(strings@.subrange(0, i as int)),
            )->Array_0,
        decreases strings@.len() - i,
    {
        let item = RedisType::BulkString(Some(slice_to_vec(strings[i].as_slice())));
        proof {
            lemma_values_of_push(items@, item);
        }
        items.push(item);
        assert(bytes_views(strings@.subrange(0, i + 1)) =~= bytes_views(strings@.subrange(0, i as int)).push(strings@[i as int]@));
        assert(values_of(items@, items@.len() as int) =~= bulk_array(
            bytes_views(strings@.subrange(0, i + 1)),
        )->Array_0);
        i = i + 1;
    }
    assert(strings@.subrange(0, i as int) =~= strings@);
    RedisType::Array(items)
}

/// The frame of a binary snapshot: `$`, the length, CRLF, then the raw bytes with
/// no CRLF after them.
pub open spec fn snapshot_frame(p: Seq<u8>) -> Seq<u8> {
    line(36, decimal_of(p.len())) + p
}

/// Reads a snapshot frame from the start of `s`: its payload and its length.
pub open spec fn parse_snapshot(s: Seq<u8>) -> Result<(Seq<u8>, nat), DecodeError> {
    if s.len() == 0 {
        Err(DecodeError::Incomplete)
    } else if s[0] != 36 {
        Err(DecodeError::Invalid)
    } else {
        match crlf_from(s, 1) {
            None => Err(DecodeError::Incomplete),
            Some(e) => match parse_i64_spec(s.subrange(1, e)) {
                None => Err(DecodeError::Invalid),
                Some(n) => if n < 0 {
                    Err(DecodeError::Invalid)
                } else if s.len() < e + 2 + n {
                    Err(DecodeError::Incomplete)
                } else {
                    Ok((s.subrange(e + 2, e + 2 + n), (e + 2 + n) as nat))
                },
            },
        }
    }
}

/// The snapshot frame of `contents`.
pub fn encode_rdb(contents: &[u8]) -> (r: Vec<u8>)
    ensures
        r@ == snapshot_frame(contents@),
{
    let mut out: Vec<u8> = Vec::new();
    push_header(&mut out, 36, contents.len());
    push_bytes(&mut out, contents);
    assert(out@ =~= snapshot_frame(contents@));
    out
}

/// Reads a snapshot frame: the payload and the number of bytes the frame took.
pub fn decode_rdb(buf: &[u8]) -> (r: Result<(Vec<u8>, u64), DecodeError>)
    ensures
        match parse_snapshot(buf@) {
            Ok((p, n)) => r matches Ok((q, m)) && q@ == p && m == n,
            Err(e) => r == Err::<(Vec<u8>, u64), DecodeError>(e),
        },
{
    if buf.len() == 0 {
        return Err(DecodeError::Incomplete);
    }
    if buf[0] != 36 {
        return Err(DecodeError::Invalid);
    }
    let e = match find_crlf(buf, 1) {
        Some(e) => e,
        None => {
            return Err(DecodeError::Incomplete);
        },
    };
    proof {
        lemma_crlf_from(buf@, 1);
    }
    let n = match parse_i64(&buf[1..e]) {
        Some(n) => n,
        None => {
            return Err(DecodeError::Invalid);
        },
    };
    if n < 0 {
        return Err(DecodeError::Invalid);
    }
    let h = e + 2;
    if (n as u64) > (buf.len() - h) as u64 {
        return Err(DecodeError::Incomplete);
    }
    let end = h + n as usize;
    Ok((slice_to_vec(&buf[h..end]), end as u64))
}

/// `+text\r\n`.
pub fn encode_simple_string(text: &[u8]) -> (r: Vec<u8>)
    ensures
        r@ == encode_spec(RespValue::SimpleString(text@)),
{
    let mut out: Vec<u8> = Vec::new();
    push_line(&mut out, 43, text);
    assert(out@ =~= encode_spec(RespValue::SimpleString(text@)));
    out
}

/// `-text\r\n`.
pub fn encode_simple_error(text: &[u8]) -> (r: Vec<u8>)
    ensures
        r@ == encode_spec(RespValue::SimpleError(text@)),
{
    let mut out: Vec<u8> = Vec::new();
    push_line(&mut out, 45, text);
    assert(out@ =~= encode_spec(RespValue::SimpleError(text@)));
    out
}

/// `:n\r\n`.
pub fn encode_integer(n: i64) -> (r: Vec<u8>)
    ensures
        r@ == encode_spec(RespValue::Integer(n)),
{
    encode(&RedisType::Integer(n))
}

/// `$len\r\ntext\r\n`, or `$-1\r\n` for none.
pub fn encode_bulk_string(text: Option<&[u8]>) -> (r: Vec<u8>)
    ensures
        r@ == encode_spec(
            RespValue::BulkString(
                match text {
                    Some(t) => Some(t@),
                    None => None,
                },
            ),
        ),
{
    match text {
        Some(t) => encode(&RedisType::BulkString(Some(slice_to_vec(t)))),
        None => encode(&RedisType::BulkString(None)),
    }
}

/// `*n\r\n` and the items' encodings.
pub fn encode_array(items: &Vec<RedisType>) -> (r: Vec<u8>)
    ensures
        r@ == encode_spec(RespValue::Array(values_of(items@, items@.len() as int))),
{
    let mut out: Vec<u8> = Vec::new();
    proof {
        lemma_values_of(items@, items@.len() as int);
    }
    push_header(&mut out, 42, items.len());
    encode_items_into(&mut out, items);
    assert(out@ =~= encode_spec(RespValue::Array(values_of(items@, items@.len() as int))));
    out
}

/// `>n\r\n` and the items' encodings.
pub fn encode_push(items: &Vec<RedisType>) -> (r: Vec<u8>)
    ensures
        r@ == encode_spec(RespValue::Push(values_of(items@, items@.len() as int))),
{
    let mut out: Vec<u8> = Vec::new();
    proof {
        lemma_values_of(items@, items@.len() as int);
    }
    push_header(&mut out, 62, items.len());
    encode_items_into(&mut out, items);
    assert(out@ =~= encode_spec(RespValue::Push(values_of(items@, items@.len() as int))));
    out
}

/// `_\r\n`.
pub fn encode_null() -> (r: Vec<u8>)
    ensures
        r@ == encode_spec(RespValue::Null),
{
    encode(&RedisType::Null)
}

/// `#t\r\n` or `#f\r\n`.
pub fn encode_boolean(b: bool) -> (r: Vec<u8>)
    ensures
        r@ == encode_spec(RespValue::Boolean(b)),
{
    encode(&RedisType::Boolean(b))
}

/// `,text\r\n` for the decimal text of a double.
pub fn encode_double(text: &[u8]) -> (r: Vec<u8>)
    ensures
        r@ == encode_spec(RespValue::Double(text@)),
{
    let mut out: Vec<u8> = Vec::new();
    push_line(&mut out, 44, text);
    assert(out@ =~= encode_spec(RespValue::Double(text@)));
    out
}

/// `(text\r\n` for the decimal text of a big integer.
pub fn encode_big_number(text: &[u8]) -> (r: Vec<u8>)
    ensures
        r@ == encode_spec(RespValue::BigNumber(text@)),
{
    let mut out: Vec<u8> = Vec::new();
    push_line(&mut out, 40, text);
    assert(out@ =~= encode_spec(RespValue::BigNumber(text@)));
    out
}

/// `!len\r\ntext\r\n`.
pub fn encode_bulk_error(text: &[u8]) -> (r: Vec<u8>)
    ensures
        r@ == encode_spec(RespValue::BulkError(text@)),
{
    let mut out: Vec<u8> = Vec::new();
    push_counted(&mut out, 33, text);
    out
}

/// `=len\r\ntext\r\n`.
pub fn encode_verbatim_string(text: &[u8]) -> (r: Vec<u8>)
    ensures
        r@ == encode_spec(RespValue::VerbatimString(text@)),
{
    let mut out: Vec<u8> = Vec::new();
    push_counted(&mut out, 61, text);
    out
}

} // verus!
