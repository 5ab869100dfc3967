//! The snapshot loader: the records of a snapshot file's bytes.

use vstd::prelude::*;
use vstd::slice::slice_to_vec;
use vstd::utf8::valid_utf8;
use crate::decimal::{signed_decimal_of, push_signed_decimal};
use crate::resp::is_utf8;

verus! {

/// One key of a snapshot: its string value and, if any, its expiry time in ms.
pub struct RdbRecord {
    pub key: Vec<u8>,
    pub value: Vec<u8>,
    pub expire_at: Option<u64>,
}

pub type RecordView = (Seq<u8>, Seq<u8>, Option<u64>);

impl View for RdbRecord {
    type V = RecordView;

    open spec fn view(&self) -> RecordView {
        (self.key@, self.value@, self.expire_at)
    }
}

/// A length at `p`: the value, whether it is the special integer encoding, and
/// where the next item starts. The first byte's top two bits select the form.
pub open spec fn length_spec(s: Seq<u8>, p: int) -> Option<(u32, bool, int)> {
    if p < 0 || p >= s.len() {
        None
    } else {
        let b = s[p];
        if b < 64 {
            Some((b as u32, false, p + 1))
        } else if b < 128 {
            if p + 1 < s.len() {
                Some((((b - 64) * 256 + s[p + 1]) as u32, false, p + 2))
            } else {
                None
            }
        } else if b < 192 {
            if p + 4 < s.len() {
                Some(
                    (
                        (s[p + 1] * 0x100_0000 + s[p + 2] * 0x1_0000 + s[p + 3] * 0x100 + s[p
                            + 4]) as u32,
                        false,
                        p + 5,
                    ),
                )
            } else {
                None
            }
        } else {
            Some(((b - 192) as u32, true, p + 1))
        }
    }
}

/// The signed value of `n` little-endian bytes at `p`.
pub open spec fn le_signed(s: Seq<u8>, p: int, n: int) -> int {
    if n == 1 {
        if s[p] < 128 {
            s[p] as int
        } else {
            s[p] - 256
        }
    } else if n == 2 {
        let v = s[p] + s[p + 1] * 0x100;
        if v < 0x8000 {
            v
        } else {
            v - 0x1_0000
        }
    } else {
        let v = s[p] + s[p + 1] * 0x100 + s[p + 2] * 0x1_0000 + s[p + 3] * 0x100_0000;
        if v < 0x8000_0000 {
            v
        } else {
            v - 0x1_0000_0000
        }
    }
}

/// The unsigned value of `n` little-endian bytes at `p`.
pub open spec fn le_unsigned(s: Seq<u8>, p: int, n: nat) -> nat
    decreases n,
{
    if n == 0 {
        0
    } else {
        s[p + n - 1] as nat * pow256((n - 1) as nat) + le_unsigned(s, p, (n - 1) as nat)
    }
}

pub open spec fn pow256(n: nat) -> nat
    decreases n,
{
    if n == 0 {
        1
    } else {
        256 * pow256((n - 1) as nat)
    }
}

/// A string at `p` and where the next item starts. An integer-encoded string is the
/// decimal text of the integer; other special encodings read as empty.
pub open spec fn string_spec(s: Seq<u8>, p: int) -> Option<(Seq<u8>, int)> {
    match length_spec(s, p) {
        None => None,
        Some((n, special, q)) => if special {
            let w: int = if n == 0 {
                1
            } else if n == 1 {
                2
            } else if n == 2 {
                4
            } else {
                0
            };
            if w == 0 {
                Some((Seq::empty(), q))
            } else if q + w <= s.len() {
                Some((signed_decimal_of(le_signed(s, q, w)), q + w))
            } else {
                None
            }
        } else if q + n <= s.len() && valid_utf8(s.subrange(q, q + n)) {
            Some((s.subrange(q, q + n), q + n))
        } else {
            None
        },
    }
}

/// A key and its value at `p`, for the value type `t`; only type 0 (a string)
/// is known.
pub open spec fn pair_spec(s: Seq<u8>, p: int, t: u8) -> Option<(Seq<u8>, Seq<u8>, int)> {
    if t != 0 {
        None
    } else {
        match string_spec(s, p) {
            None => None,
            Some((k, q)) => match string_spec(s, q) {
                None => None,
                Some((v, r)) => Some((k, v, r)),
            },
        }
    }
}

/// What one opcode at `p` yields: a record or none, and where the next opcode
/// starts; `None` at the end marker or on malformed input.
#[verifier::opaque]
pub open spec fn item_spec(s: Seq<u8>, p: int) -> Option<(Option<RecordView>, int)> {
    if p < 0 || p >= s.len() {
        None
    } else {
        let op = s[p];
        if op == 0xff {
            None
        } else if op == 0xfe {
            match length_spec(s, p + 1) {
                Some((_, _, q)) => Some((None, q)),
                None => None,
            }
        } else if op == 0xfd || op == 0xfc {
            let w: nat = if op == 0xfd {
                4
            } else {
                8
            };
            if p + 1 + w >= s.len() {
                None
            } else {
                let t = le_unsigned(s, p + 1, w);
                let exp = if op == 0xfd {
                    t * 1000
                } else {
                    t
                };
                match pair_spec(s, p + 2 + w, s[p + 1 + w]) {
                    Some((k, v, q)) => Some((Some((k, v, Some(exp as u64))), q)),
                    None => None,
                }
            }
        } else if op == 0xfb {
            match length_spec(s, p + 1) {
                Some((_, _, q)) => match length_spec(s, q) {
                    Some((_, _, r)) => Some((None, r)),
                    None => None,
                },
                None => None,
            }
        } else if op == 0xfa {
            match string_spec(s, p + 1) {
                Some((_, q)) => match string_spec(s, q) {
                    Some((_, r)) => Some((None, r)),
                    None => None,
                },
                None => None,
            }
        } else {
            match pair_spec(s, p + 1, op) {
                Some((k, v, q)) => Some((Some((k, v, None)), q)),
                None => None,
            }
        }
    }
}

/// The records from the opcode at `p` to the end marker; none when the bytes end
/// first or hold what the loader does not know.
pub open spec fn records_from(s: Seq<u8>, p: int) -> Option<Seq<RecordView>>
    decreases s.len() - p,
{
    if p < 0 || p >= s.len() {
        None
    } else if s[p] == 0xff {
        Some(Seq::empty())
    } else {
        match item_spec(s, p) {
            None => None,
            Some((rec, q)) => if q <= p || q > s.len() {
                None
            } else {
                match records_from(s, q) {
                    None => None,
                    Some(rest) => Some(
                        match rec {
                            Some(x) => seq![x] + rest,
                            None => rest,
                        },
                    ),
                }
            },
        }
    }
}

/// The records of a snapshot: nine bytes of magic and version, then opcodes.
pub open spec fn rdb_spec(s: Seq<u8>) -> Option<Seq<RecordView>> {
    if s.len() < 9 {
        None
    } else {
        records_from(s, 9)
    }
}

/// Reads a length at `p`.
pub fn read_length(s: &[u8], p: usize) -> (r: Option<(u32, bool, usize)>)
    ensures
        match length_spec(s@, p as int) {
            Some((n, special, q)) => (r matches Some((n2, sp2, q2)) && n2 == n && sp2 == special && q2
                == q && p < q <= s@.len()),
            None => r is None,
        },
{
    if p >= s.len() {
        return None;
    }
    let b = s[p];
    if b < 64 {
        Some((b as u32, false, p + 1))
    } else if b < 128 {
        if p + 1 < s.len() {
            let v: u32 = (b as u32 - 64) * 256 + s[p + 1] as u32;
            Some((v, false, p + 2))
        } else {
            None
        }
    } else if b < 192 {
        if s.len() - p > 4 {
            let v: u64 = s[p + 1] as u64 * 0x100_0000 + s[p + 2] as u64 * 0x1_0000 + s[p + 3] as u64
                * 0x100 + s[p + 4] as u64;
            Some((v as u32, false, p + 5))
        } else {
            None
        }
    } else {
        Some(((b - 192) as u32, true, p + 1))
    }
}

fn read_le(s: &[u8], p: usize, n: usize) -> (r: u64)
    requires
        n <= 8,
        p + n <= s@.len(),
    ensures
        r == le_unsigned(s@, p as int, n as nat),
        r < pow256(n as nat),
{
    let len = s.len();
    let mut v: u64 = 0;
    let mut scale: u64 = 1;
    let mut i: usize = 0;
    while i < n
        invariant
            i <= n <= 8,
            p + n <= s@.len(),
            len == s@.len(),
            v == le_unsigned(s@, p as int, i as nat),
            i < 8 ==> scale == pow256(i as nat),
            v < pow256(i as nat),
        decreases n - i,
    {
        proof {
            lemma_pow256_bound(i as nat);
        }
        let byte = s[p + i] as u64;
        assert(byte * pow256(i as nat) <= 255 * pow256(i as nat)) by (nonlinear_arith)
            requires
                byte <= 255,
        ;
        v = v + byte * scale;
        if i + 1 < 8 {
            scale = scale * 256;
        }
        i = i + 1;
        assert(v < pow256(i as nat));
        if i < 8 {
            assert(scale == pow256(i as nat));
        } else {
            assert(i == n);
        }
    }
    v
}

proof fn lemma_pow256_bound(i: nat)
    requires
        i < 8,
    ensures
        pow256(i) <= 0x100_0000_0000_0000,
        i < 7 ==> pow256(i + 1) <= 0x100_0000_0000_0000,
        pow256(i + 1) <= 0x1_0000_0000_0000_0000,
        pow256(i + 1) == 256 * pow256(i),
{
    reveal_with_fuel(pow256, 9);
}

/// Reads a string at `p`.
pub fn read_string(s: &[u8], p: usize) -> (r: Option<(Vec<u8>, usize)>)
    ensures
        match string_spec(s@, p as int) {
            Some((t, q)) => r matches Some((v, q2)) && v@ == t && q2 == q && p < q <= s@.len(),
            None => r is None,
        },
{
    let (n, special, q) = match read_length(s, p) {
        None => {
            return None;
        },
        Some(x) => x,
    };
    if special {
        let w: usize = if n == 0 {
            1
        } else if n == 1 {
            2
        } else if n == 2 {
            4
        } else {
            0
        };
        if w == 0 {
            let empty: Vec<u8> = Vec::new();
            assert(string_spec(s@, p as int) == Some((Seq::<u8>::empty(), q as int)));
            return Some((empty, q));
        }
        if s.len() - q < w {
            return None;
        }
        let u = read_le(s, q, w);
        proof {
            reveal_with_fuel(pow256, 5);
        }
        let value: i64 = if w == 1 {
            if u < 128 {
                u as i64
            } else {
                u as i64 - 256
            }
        } else if w == 2 {
            if u < 0x8000 {
                u as i64
            } else {
                u as i64 - 0x1_0000
            }
        } else {
            if u < 0x8000_0000 {
                u as i64
            } else {
                u as i64 - 0x1_0000_0000
            }
        };
        proof {
            reveal_with_fuel(le_unsigned, 5);
            reveal_with_fuel(pow256, 5);
            let a = s@;
            let qi = q as int;
            assert(pow256(1) == 0x100);
            assert(pow256(2) == 0x1_0000);
            assert(pow256(3) == 0x100_0000);
            assert(pow256(0) == 1);
            assert(le_unsigned(a, qi, 0) == 0);
            assert(le_unsigned(a, qi, 1) == a[qi] as nat * pow256(0) + le_unsigned(a, qi, 0));
            assert(le_unsigned(a, qi, 1) == a[qi]);
            assert(le_unsigned(a, qi, 2) == a[qi] + a[qi + 1] * 0x100);
            assert(le_unsigned(a, qi, 3) == a[qi] + a[qi + 1] * 0x100 + a[qi + 2] * 0x1_0000);
            assert(le_unsigned(a, qi, 4) == a[qi] + a[qi + 1] * 0x100 + a[qi + 2] * 0x1_0000 + a[qi + 3] * 0x100_0000);
            if w == 1 {
                assert(u == a[qi]);
            } else if w == 2 {
                assert(u == a[qi] + a[qi + 1] * 0x100);
            } else {
                assert(u == a[qi] + a[qi + 1] * 0x100 + a[qi + 2] * 0x1_0000 + a[qi + 3] * 0x100_0000);
            }
        }
        assert(value == le_signed(s@, q as int, w as int));
        assert(q < q + w);
        let mut out: Vec<u8> = Vec::new();
        push_signed_decimal(&mut out, value);
        assert(out@ =~= signed_decimal_of(le_signed(s@, q as int, w as int)));
        Some((out, q + w))
    } else {
        if (s.len() - q) < n as usize {
            return None;
        }
        let end = q + n as usize;
        let bytes = &s[q..end];
        if !is_utf8(bytes) {
            return None;
        }
        Some((slice_to_vec(bytes), end))
    }
}

/// Reads a key and its value at `p`; the value type is `value_type` when the
/// caller already read it, else the byte at `p`.
pub fn read_key_value_pair(s: &[u8], p: usize, value_type: Option<u8>) -> (r: Option<(Vec<u8>, Vec<u8>, usize)>)
    ensures
        ({
            let (t, start) = match value_type {
                Some(t) => (t, p as int),
                None => (s@[p as int], p + 1),
            };
            if value_type is None && p >= s@.len() {
                r is None
            } else {
                match pair_spec(s@, start, t) {
                    Some((k, v, q)) => r matches Some((k2, v2, q2)) && k2@ == k && v2@ == v && q2 == q
                        && start < q <= s@.len(),
                    None => r is None,
                }
            }
        }),
{
    let (t, start) = match value_type {
        Some(t) => (t, p),
        None => {
            if p >= s.len() {
                return None;
            }
            (s[p], p + 1)
        },
    };
    if t != 0 {
        return None;
    }
    let (k, q) = match read_string(s, start) {
        None => {
            return None;
        },
        Some(x) => x,
    };
    let (v, r) = match read_string(s, q) {
        None => {
            return None;
        },
        Some(x) => x,
    };
    Some((k, v, r))
}

fn read_item(s: &[u8], p: usize) -> (r: Option<(Option<RdbRecord>, usize)>)
    requires
        p < s@.len(),
        s@[p as int] != 0xff,
    ensures
        match item_spec(s@, p as int) {
            Some((rec, q)) => r matches Some((rec2, q2)) && q2 == q && p < q <= s@.len() && match rec {
                Some(x) => rec2 matches Some(y) && y@ == x,
                None => rec2 is None,
            },
            None => r is None,
        },
{
    reveal(item_spec);
    let op = s[p];
    if op == 0xfe {
        match read_length(s, p + 1) {
            Some((_, _, q)) => Some((None, q)),
            None => None,
        }
    } else if op == 0xfd || op == 0xfc {
        let w: usize = if op == 0xfd {
            4
        } else {
            8
        };
        if s.len() - p - 1 <= w {
            return None;
        }
        let t = read_le(s, p + 1, w);
        let exp: u64 = if op == 0xfd {
            proof {
                reveal_with_fuel(le_unsigned, 5);
                reveal_with_fuel(pow256, 5);
            }
            assert(t < 0x1_0000_0000);
            t * 1000
        } else {
            t
        };
        match read_key_value_pair(s, p + 2 + w, Some(s[p + 1 + w])) {
            Some((k, v, q)) => Some((Some(RdbRecord { key: k, value: v, expire_at: Some(exp) }), q)),
            None => None,
        }
    } else if op == 0xfb {
        match read_length(s, p + 1) {
            Some((_, _, q)) => match read_length(s, q) {
                Some((_, _, r)) => Some((None, r)),
                None => None,
            },
            None => None,
        }
    } else if op == 0xfa {
        match read_string(s, p + 1) {
            Some((_, q)) => match read_string(s, q) {
                Some((_, r)) => Some((None, r)),
                None => None,
            },
            None => None,
        }
    } else {
        match read_key_value_pair(s, p + 1, Some(op)) {
            Some((k, v, q)) => Some((Some(RdbRecord { key: k, value: v, expire_at: None }), q)),
            None => None,
        }
    }
}

pub open spec fn records_view(r: Seq<RdbRecord>) -> Seq<RecordView> {
    r.map_values(|x: RdbRecord| x@)
}

/// Records already read, in front of the outcome of reading the rest.
pub open spec fn prepend_records(acc: Seq<RecordView>, rest: Option<Seq<RecordView>>) -> Option<Seq<RecordView>> {
    match rest {
        Some(r) => Some(acc + r),
        None => None,
    }
}

/// The records of a snapshot file's bytes, in file order; none when the bytes are
/// truncated or hold an encoding the loader does not know.
pub fn load_rdb(s: &[u8]) -> (r: Option<Vec<RdbRecord>>)
    ensures
        match rdb_spec(s@) {
            Some(recs) => r matches Some(v) && records_view(v@) == recs,
            None => r is None,
        },
{
    if s.len() < 9 {
        return None;
    }
    let mut out: Vec<RdbRecord> = Vec::new();
    let mut p: usize = 9;
    while p < s.len() && s[p] != 0xff
        invariant
            9 <= p <= s@.len(),
            rdb_spec(s@) == prepend_records(records_view(out@), records_from(s@, p as int)),
        decreases s@.len() - p,
    {
        let ghost before = out@;
        match read_item(s, p) {
            None => {
                return None;
            },
            Some((rec, q)) => {
                match rec {
                    Some(x) => {
                        let ghost xv = x@;
                        out.push(x);
                        assert(records_view(out@) =~= records_view(before).push(xv));
                        assert(records_view(before) + (seq![xv] + records_from(s@, q as int)->Some_0)
                            =~= records_view(out@) + records_from(s@, q as int)->Some_0);
                    },
                    None => {},
                }
                p = q;
            },
        }
    }
    if p >= s.len() {
        return None;
    }
    assert(records_view(out@) + Seq::<RecordView>::empty() =~= records_view(out@));
    Some(out)
}

} // verus!
