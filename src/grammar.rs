use vstd::prelude::*;

use crate::value::{bytes_lt, is_digit, DecodeError, Term};

verus! {

/// The first index at or after `from` that holds `c`, or `b.len()` where none does.
pub open spec fn find_byte(b: Seq<u8>, from: int, c: u8) -> int
    decreases b.len() - from,
{
    if from < 0 || from >= b.len() {
        b.len() as int
    } else if b[from] == c {
        from
    } else {
        find_byte(b, from + 1, c)
    }
}

pub open spec fn all_digits(s: Seq<u8>) -> bool {
    forall|i: int| 0 <= i < s.len() ==> is_digit(#[trigger] s[i])
}

/// Decimal digits, at least one, with no redundant leading zero.
pub open spec fn canonical_digits(s: Seq<u8>) -> bool {
    s.len() > 0 && all_digits(s) && (s[0] == 48 ==> s.len() == 1)
}

/// The number that a run of decimal digits denotes.
pub open spec fn digits_value(s: Seq<u8>) -> nat
    decreases s.len(),
{
    if s.len() == 0 {
        0
    } else {
        digits_value(s.drop_last()) * 10 + (s.last() - 48) as nat
    }
}

/// Canonical digits, or a minus sign before canonical digits other than zero.
pub open spec fn canonical_int(s: Seq<u8>) -> bool {
    canonical_digits(s) || (s.len() >= 2 && s[0] == 45 && s[1] != 48 && canonical_digits(
        s.drop_first(),
    ))
}

/// The number that integer text denotes.
pub open spec fn int_value(s: Seq<u8>) -> int {
    if s.len() > 0 && s[0] == 45 {
        -digits_value(s.drop_first())
    } else {
        digits_value(s) as int
    }
}

/// `i<text>e`, the `i` standing at `pos`.
pub open spec fn parse_integer(b: Seq<u8>, pos: int) -> Result<(Term, int), DecodeError> {
    let e = find_byte(b, pos + 1, 101);
    if e >= b.len() {
        Err(DecodeError::UnexpectedEof)
    } else {
        let s = b.subrange(pos + 1, e);
        if canonical_int(s) && i64::MIN <= int_value(s) <= i64::MAX {
            Ok((Term::Integer(int_value(s)), e + 1))
        } else {
            Err(DecodeError::InvalidInteger)
        }
    }
}

/// `<length>:<bytes>`, the length starting at `pos`.
pub open spec fn parse_bytes(b: Seq<u8>, pos: int) -> Result<(Term, int), DecodeError> {
    let c = find_byte(b, pos, 58);
    if c >= b.len() {
        Err(DecodeError::UnexpectedEof)
    } else {
        let s = b.subrange(pos, c);
        let end = c + 1 + digits_value(s);
        if !canonical_digits(s) {
            Err(DecodeError::InvalidLength)
        } else if end > b.len() {
            Err(DecodeError::Truncated)
        } else {
            Ok((Term::Bytes(b.subrange(c + 1, end)), end))
        }
    }
}

/// The term that starts at `pos`, with lists and dictionaries nested at most
/// `depth` deep, and the position just past it.
pub open spec fn parse(b: Seq<u8>, pos: int, depth: nat) -> Result<(Term, int), DecodeError>
    decreases b.len() - pos, 0int,
{
    if pos < 0 || pos >= b.len() {
        Err(DecodeError::UnexpectedEof)
    } else if b[pos] == 105 {
        parse_integer(b, pos)
    } else if is_digit(b[pos]) {
        parse_bytes(b, pos)
    } else if b[pos] == 108 {
        if depth == 0 {
            Err(DecodeError::DepthExceeded)
        } else {
            parse_list(b, pos + 1, (depth - 1) as nat, Seq::empty())
        }
    } else if b[pos] == 100 {
        if depth == 0 {
            Err(DecodeError::DepthExceeded)
        } else {
            parse_dict(b, pos + 1, (depth - 1) as nat, Seq::empty())
        }
    } else {
        Err(DecodeError::UnexpectedToken)
    }
}

/// The rest of a list from `p` on, `items` being those already read.
pub open spec fn parse_list(b: Seq<u8>, p: int, depth: nat, items: Seq<Term>) -> Result<
    (Term, int),
    DecodeError,
>
    decreases b.len() - p, 1int,
{
    if p < 0 || p >= b.len() {
        Err(DecodeError::UnexpectedEof)
    } else if b[p] == 101 {
        Ok((Term::List(items), p + 1))
    } else {
        match parse(b, p, depth) {
            Err(k) => Err(k),
            Ok((t, q)) => if p < q <= b.len() {
                parse_list(b, q, depth, items.push(t))
            } else {
                Err(DecodeError::UnexpectedEof)
            },
        }
    }
}

/// The rest of a dictionary from `p` on, `entries` being those already read.
pub open spec fn parse_dict(
    b: Seq<u8>,
    p: int,
    depth: nat,
    entries: Seq<(Seq<u8>, Term)>,
) -> Result<(Term, int), DecodeError>
    decreases b.len() - p, 1int,
{
    if p < 0 || p >= b.len() {
        Err(DecodeError::UnexpectedEof)
    } else if b[p] == 101 {
        Ok((Term::Dict(entries), p + 1))
    } else {
        match parse(b, p, depth) {
            Err(k) => Err(k),
            Ok((Term::Bytes(key), q)) => if entries.len() > 0 && !bytes_lt(
                entries.last().0,
                key,
            ) {
                Err(DecodeError::UnorderedKey)
            } else if !(p < q <= b.len()) {
                Err(DecodeError::UnexpectedEof)
            } else {
                match parse(b, q, depth) {
                    Err(k) => Err(k),
                    Ok((t, r)) => if q < r <= b.len() {
                        parse_dict(b, r, depth, entries.push((key, t)))
                    } else {
                        Err(DecodeError::UnexpectedEof)
                    },
                }
            },
            Ok(_) => Err(DecodeError::InvalidKey),
        }
    }
}

pub proof fn lemma_digits_value_prefix(s: Seq<u8>, k: int)
    requires
        0 <= k <= s.len(),
    ensures
        digits_value(s.take(k)) <= digits_value(s),
    decreases s.len(),
{
    if k == s.len() {
        assert(s.take(k) =~= s);
    } else {
        lemma_digits_value_prefix(s.drop_last(), k);
        assert(s.drop_last().take(k) =~= s.take(k));
    }
}

} // verus!
