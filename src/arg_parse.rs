//! Looking up a flag and the arguments that follow it.

use vstd::prelude::*;
use crate::decimal::{parse_u64_spec, parse_u64};
use crate::stream::clone_bytes;

verus! {

pub open spec fn lower(b: u8) -> u8 {
    if 65 <= b <= 90 {
        (b + 32) as u8
    } else {
        b
    }
}

/// ASCII lower case, other bytes unchanged.
pub open spec fn lower_seq(s: Seq<u8>) -> Seq<u8> {
    s.map_values(|b: u8| lower(b))
}

/// The first index at or after `i` of an argument equal to `token` once in lower case.
pub open spec fn token_from(args: Seq<Seq<u8>>, token: Seq<u8>, i: int) -> Option<int>
    decreases args.len() - i,
{
    if i < 0 || i >= args.len() {
        None
    } else if lower_seq(args[i]) == token {
        Some(i)
    } else {
        token_from(args, token, i + 1)
    }
}

pub open spec fn args_view(args: Seq<Vec<u8>>) -> Seq<Seq<u8>> {
    args.map_values(|a: Vec<u8>| a@)
}

/// The `n` arguments after the first one that matches `token`.
pub open spec fn n_strings_spec(args: Seq<Seq<u8>>, token: Seq<u8>, n: nat) -> Option<Seq<Seq<u8>>> {
    match token_from(args, token, 0) {
        None => None,
        Some(p) => if p + 1 + n <= args.len() {
            Some(args.subrange(p + 1, p + 1 + n))
        } else {
            None
        },
    }
}

/// Whether `a` in ASCII lower case equals `token`.
pub fn matches_lower(a: &[u8], token: &[u8]) -> (r: bool)
    ensures
        r == (lower_seq(a@) == token@),
{
    if a.len() != token.len() {
        assert(lower_seq(a@).len() == a@.len());
        return false;
    }
    let mut i: usize = 0;
    while i < a.len()
        invariant
            i <= a@.len(),
            a@.len() == token@.len(),
            forall|j: int| 0 <= j < i ==> lower(a@[j]) == token@[j],
        decreases a@.len() - i,
    {
        let b = a[i];
        let l = if 65 <= b && b <= 90 {
            b + 32
        } else {
            b
        };
        if l != token[i] {
            assert(lower_seq(a@)[i as int] != token@[i as int]);
            return false;
        }
        i = i + 1;
    }
    assert(lower_seq(a@) =~= token@);
    true
}

/// The position of the first argument that matches `token` in lower case.
pub fn find_token(token: &[u8], arguments: &Vec<Vec<u8>>) -> (r: Option<usize>)
    ensures
        match r {
            Some(p) => token_from(args_view(arguments@), token@, 0) == Some(p as int) && p
                < arguments@.len(),
            None => token_from(args_view(arguments@), token@, 0) is None,
        },
{
    let ghost args = args_view(arguments@);
    let mut i: usize = 0;
    while i < arguments.len()
        invariant
            i <= arguments@.len(),
            args == args_view(arguments@),
            token_from(args, token@, 0) == token_from(args, token@, i as int),
        decreases arguments@.len() - i,
    {
        if matches_lower(arguments[i].as_slice(), token) {
            return Some(i);
        }
        i = i + 1;
    }
    None
}

/// The `n` arguments that follow the first one matching `token`.
pub fn get_n_strings(token: &[u8], arguments: &Vec<Vec<u8>>, n: u64) -> (r: Option<Vec<Vec<u8>>>)
    ensures
        match n_strings_spec(args_view(arguments@), token@, n as nat) {
            Some(s) => r matches Some(v) && args_view(v@) == s,
            None => r is None,
        },
        r matches Some(v) ==> v@.len() == n,
{
    let p = match find_token(token, arguments) {
        None => {
            return None;
        },
        Some(p) => p,
    };
    let len = arguments.len();
    if n as u128 > (len - p - 1) as u128 {
        return None;
    }
    let mut out: Vec<Vec<u8>> = Vec::new();
    let mut i: usize = 0;
    let count = n as usize;
    while i < count
        invariant
            i <= count,
            count == n,
            p + 1 + count <= arguments@.len(),
            len == arguments@.len(),
            args_view(out@) == args_view(arguments@).subrange(p + 1, p + 1 + i),
        decreases count - i,
    {
        let ghost before = out@;
        out.push(clone_bytes(&arguments[p + 1 + i]));
        assert(args_view(out@) =~= args_view(before).push(arguments@[p + 1 + i]@));
        assert(args_view(out@) =~= args_view(arguments@).subrange(p + 1, p + 1 + i + 1));
        i = i + 1;
    }
    Some(out)
}

/// The argument after the first one matching `token`.
pub fn get_string(token: &[u8], arguments: &Vec<Vec<u8>>) -> (r: Option<Vec<u8>>)
    ensures
        match n_strings_spec(args_view(arguments@), token@, 1) {
            Some(s) => r matches Some(v) && v@ == s[0],
            None => r is None,
        },
{
    match get_n_strings(token, arguments, 1) {
        None => None,
        Some(v) => {
            assert(args_view(v@)[0] == v@[0]@);
            Some(clone_bytes(&v[0]))
        },
    }
}

/// The argument after the first one matching `token`, read as an unsigned integer.
pub fn get_u64(token: &[u8], arguments: &Vec<Vec<u8>>) -> (r: Option<u64>)
    ensures
        r == match n_strings_spec(args_view(arguments@), token@, 1) {
            Some(s) => parse_u64_spec(s[0]),
            None => None,
        },
{
    match get_string(token, arguments) {
        None => None,
        Some(s) => parse_u64(s.as_slice()),
    }
}

} // verus!
