//! Decimal text of integers: the digits the wire format and the stream ids use.

use vstd::prelude::*;

verus! {

pub open spec fn is_digit(b: u8) -> bool {
    48 <= b <= 57
}

pub open spec fn all_digits(s: Seq<u8>) -> bool {
    forall|i: int| 0 <= i < s.len() ==> is_digit(#[trigger] s[i])
}

/// The value of a string of decimal digits, most significant digit first.
pub open spec fn digits_value(s: Seq<u8>) -> nat
    decreases s.len(),
{
    if s.len() == 0 {
        0
    } else {
        digits_value(s.drop_last()) * 10 + (s.last() - 48) as nat
    }
}

/// The shortest decimal text of `n`.
pub open spec fn decimal_of(n: nat) -> Seq<u8>
    decreases n,
{
    if n < 10 {
        seq![(n + 48) as u8]
    } else {
        decimal_of(n / 10).push((n % 10 + 48) as u8)
    }
}

/// Decimal text of a signed integer: a `-` before the digits when negative.
pub open spec fn signed_decimal_of(n: int) -> Seq<u8> {
    if n < 0 {
        seq![45u8] + decimal_of((-n) as nat)
    } else {
        decimal_of(n as nat)
    }
}

/// The digits after an optional leading `+`.
pub open spec fn unsigned_digits(s: Seq<u8>) -> Seq<u8> {
    if s.len() > 0 && s[0] == 43 {
        s.skip(1)
    } else {
        s
    }
}

/// Text accepted as an unsigned 64-bit integer: an optional `+`, then one or more
/// digits whose value fits.
pub open spec fn parse_u64_spec(s: Seq<u8>) -> Option<u64> {
    let d = unsigned_digits(s);
    if d.len() > 0 && all_digits(d) && digits_value(d) <= u64::MAX {
        Some(digits_value(d) as u64)
    } else {
        None
    }
}

/// Text accepted as a signed 64-bit integer: an optional `+` or `-`, then one or
/// more digits whose signed value fits.
pub open spec fn parse_i64_spec(s: Seq<u8>) -> Option<i64> {
    if s.len() > 0 && s[0] == 45 {
        let d = s.skip(1);
        if d.len() > 0 && all_digits(d) && digits_value(d) <= 0x8000_0000_0000_0000 {
            Some((-(digits_value(d) as int)) as i64)
        } else {
            None
        }
    } else {
        let d = unsigned_digits(s);
        if d.len() > 0 && all_digits(d) && digits_value(d) <= i64::MAX {
            Some(digits_value(d) as i64)
        } else {
            None
        }
    }
}

pub proof fn lemma_digits_value_monotone(s: Seq<u8>, j: int, k: int)
    requires
        0 <= j <= k <= s.len(),
        all_digits(s),
    ensures
        digits_value(s.subrange(0, j)) <= digits_value(s.subrange(0, k)),
    decreases k - j,
{
    if j < k {
        lemma_digits_value_monotone(s, j, k - 1);
        assert(s.subrange(0, k).drop_last() =~= s.subrange(0, k - 1));
        assert(is_digit(s[k - 1]));
    }
}

/// Decimal text is all digits, starts with a digit, and reads back as the number.
pub proof fn lemma_decimal_round_trip(n: nat)
    ensures
        decimal_of(n).len() > 0,
        all_digits(decimal_of(n)),
        digits_value(decimal_of(n)) == n,
    decreases n,
{
    if n < 10 {
        let s = decimal_of(n);
        assert(s.drop_last() =~= Seq::<u8>::empty());
        assert(digits_value(s.drop_last()) == 0);
        assert(s.last() == (n + 48) as u8);
    } else {
        lemma_decimal_round_trip(n / 10);
        let s = decimal_of(n);
        assert(s.drop_last() =~= decimal_of(n / 10));
        assert(s.last() == (n % 10 + 48) as u8);
        assert(n == (n / 10) * 10 + n % 10);
        assert forall|i: int| 0 <= i < s.len() implies is_digit(#[trigger] s[i]) by {
            if i < s.len() - 1 {
                assert(s[i] == decimal_of(n / 10)[i]);
            }
        }
    }
}

pub proof fn lemma_parse_u64_of_decimal(n: u64)
    ensures
        parse_u64_spec(decimal_of(n as nat)) == Some(n),
{
    lemma_decimal_round_trip(n as nat);
}

pub proof fn lemma_parse_i64_of_decimal(n: i64)
    ensures
        parse_i64_spec(signed_decimal_of(n as int)) == Some(n),
{
    if n < 0 {
        let m = (-(n as int)) as nat;
        lemma_decimal_round_trip(m);
        assert((seq![45u8] + decimal_of(m)).skip(1) =~= decimal_of(m));
    } else {
        lemma_decimal_round_trip(n as nat);
    }
}

/// Reads `s[start..]` as decimal digits whose value is at most `bound`.
pub fn digits_to_u64(s: &[u8], start: usize, bound: u64) -> (r: Option<u64>)
    requires
        start <= s@.len(),
    ensures
        r == (if start < s@.len() && all_digits(s@.skip(start as int)) && digits_value(
            s@.skip(start as int),
        ) <= bound {
            Some(digits_value(s@.skip(start as int)) as u64)
        } else {
            None::<u64>
        }),
{
    let ghost d = s@.skip(start as int);
    if start == s.len() {
        return None;
    }
    let mut acc: u64 = 0;
    let mut i: usize = start;
    while i < s.len()
        invariant
            start <= i <= s@.len(),
            d == s@.skip(start as int),
            forall|j: int| start <= j < i ==> is_digit(#[trigger] s@[j]),
            acc == digits_value(d.subrange(0, i - start)),
            acc <= bound,
        decreases s@.len() - i,
    {
        let b = s[i];
        if b < 48 || b > 57 {
            assert(!is_digit(d[i - start]));
            return None;
        }
        let next: u128 = acc as u128 * 10 + (b - 48) as u128;
        assert(d.subrange(0, i + 1 - start).drop_last() =~= d.subrange(0, i - start));
        if next > bound as u128 {
            proof {
                if all_digits(d) {
                    lemma_digits_value_monotone(d, i + 1 - start, d.len() as int);
                    assert(d.subrange(0, d.len() as int) =~= d);
                }
            }
            return None;
        }
        acc = next as u64;
        i = i + 1;
    }
    assert(d.subrange(0, d.len() as int) =~= d);
    Some(acc)
}

/// Reads text as an unsigned 64-bit integer, as `u64::from_str` does.
pub fn parse_u64(s: &[u8]) -> (r: Option<u64>)
    ensures
        r == parse_u64_spec(s@),
{
    if s.len() > 0 && s[0] == 43 {
        digits_to_u64(s, 1, u64::MAX)
    } else {
        assert(s@.skip(0) =~= s@);
        digits_to_u64(s, 0, u64::MAX)
    }
}

/// Reads text as a signed 64-bit integer, as `i64::from_str` does.
pub fn parse_i64(s: &[u8]) -> (r: Option<i64>)
    ensures
        r == parse_i64_spec(s@),
{
    if s.len() > 0 && s[0] == 45 {
        match digits_to_u64(s, 1, 0x8000_0000_0000_0000) {
            Some(v) => {
                if v == 0x8000_0000_0000_0000 {
                    Some(i64::MIN)
                } else {
                    Some(-(v as i64))
                }
            },
            None => None,
        }
    } else {
        let start: usize = if s.len() > 0 && s[0] == 43 {
            1
        } else {
            0
        };
        assert(s@.skip(0) =~= s@);
        match digits_to_u64(s, start, i64::MAX as u64) {
            Some(v) => Some(v as i64),
            None => None,
        }
    }
}

/// Appends the decimal text of `n`.
pub fn push_decimal(out: &mut Vec<u8>, n: u64)
    ensures
        final(out)@ == old(out)@ + decimal_of(n as nat),
    decreases n,
{
    if n >= 10 {
        push_decimal(out, n / 10);
    }
    out.push((n % 10) as u8 + 48);
    if n < 10 {
        assert(decimal_of(n as nat) =~= seq![(n + 48) as u8]);
    }
    assert(final(out)@ =~= old(out)@ + decimal_of(n as nat));
}

/// Appends the decimal text of a signed integer.
pub fn push_signed_decimal(out: &mut Vec<u8>, n: i64)
    ensures
        final(out)@ == old(out)@ + signed_decimal_of(n as int),
{
    if n < 0 {
        out.push(45);
        let m: u64 = if n == i64::MIN {
            0x8000_0000_0000_0000
        } else {
            (-n) as u64
        };
        push_decimal(out, m);
        assert(final(out)@ =~= old(out)@ + signed_decimal_of(n as int));
    } else {
        push_decimal(out, n as u64);
    }
}

} // verus!
