use vstd::prelude::*;

use crate::grammar::{
    all_digits, canonical_digits, canonical_int, digits_value, find_byte, int_value,
    lemma_digits_value_prefix, parse,
    parse_bytes, parse_dict, parse_integer, parse_list,
};
use crate::laws::lemma_parse_sound;
use crate::value::{bytes_lt, is_digit, lemma_dict_view, lemma_list_view, DecodeError, Term, Value};

verus! {

/// How deep lists and dictionaries may nest in decoded input.
pub const MAX_DEPTH: usize = 512;

/// `r` is what the grammar gives: the same term and end position, or the same error.
pub open spec fn agrees(r: Result<(Value, usize), DecodeError>, p: Result<(Term, int), DecodeError>) -> bool {
    match p {
        Ok((t, e)) => r is Ok && r->Ok_0.0@ == t && r->Ok_0.1 == e,
        Err(k) => r is Err && r->Err_0 == k,
    }
}

fn find_byte_exec(b: &[u8], from: usize, c: u8) -> (r: usize)
    requires
        from <= b.len(),
    ensures
        r as int == find_byte(b@, from as int, c),
        from <= r <= b.len(),
        r < b.len() ==> b@[r as int] == c,
{
    let mut i: usize = from;
    while i < b.len() && b[i] != c
        invariant
            from <= i <= b.len(),
            find_byte(b@, from as int, c) == find_byte(b@, i as int, c),
        decreases b.len() - i,
    {
        i = i + 1;
    }
    i
}

proof fn lemma_digits_value_step(b: Seq<u8>, start: int, i: int)
    requires
        0 <= start <= i < b.len(),
    ensures
        digits_value(b.subrange(start, i + 1)) == digits_value(b.subrange(start, i)) * 10 + (
        b[i] - 48) as nat,
{
    assert(b.subrange(start, i + 1).drop_last() =~= b.subrange(start, i));
}

/// Is `a` below `b` in byte-wise lexicographic order?
pub fn bytes_less(a: &[u8], b: &[u8]) -> (r: bool)
    ensures
        r == bytes_lt(a@, b@),
{
    let mut i: usize = 0;
    assert(a@.subrange(0, a@.len() as int) =~= a@);
    assert(b@.subrange(0, b@.len() as int) =~= b@);
    while i < a.len() && i < b.len() && a[i] == b[i]
        invariant
            i <= a.len(),
            i <= b.len(),
            bytes_lt(a@, b@) == bytes_lt(
                a@.subrange(i as int, a@.len() as int),
                b@.subrange(i as int, b@.len() as int),
            ),
        decreases a.len() - i,
    {
        assert(a@.subrange(i as int, a@.len() as int).drop_first() =~= a@.subrange(
            i + 1,
            a@.len() as int,
        ));
        assert(b@.subrange(i as int, b@.len() as int).drop_first() =~= b@.subrange(
            i + 1,
            b@.len() as int,
        ));
        i = i + 1;
    }
    if i == a.len() {
        i < b.len()
    } else if i == b.len() {
        false
    } else {
        a[i] < b[i]
    }
}

/// Reads `i<text>e` at `pos`.
fn decode_integer(b: &[u8], pos: usize) -> (r: Result<(Value, usize), DecodeError>)
    requires
        pos < b.len(),
        b@[pos as int] == 105,
    ensures
        agrees(r, parse_integer(b@, pos as int)),
        r is Ok ==> pos < r->Ok_0.1 <= b.len(),
{
    let e = find_byte_exec(b, pos + 1, 101);
    if e >= b.len() {
        return Err(DecodeError::UnexpectedEof);
    }
    let ghost s = b@.subrange(pos + 1, e as int);
    let neg = pos + 1 < e && b[pos + 1] == 45;
    let start: usize = if neg {
        pos + 2
    } else {
        pos + 1
    };
    let ghost digits = b@.subrange(start as int, e as int);
    assert(pos + 1 < e ==> s[0] == b@[pos + 1]);
    assert(neg ==> s.drop_first() =~= digits);
    assert(!neg ==> s =~= digits);
    if start >= e {
        return Err(DecodeError::InvalidInteger);
    }
    if b[start] == 48 && (neg || e - start > 1) {
        return Err(DecodeError::InvalidInteger);
    }
    // The magnitude of `i64::MIN` is one more than `i64::MAX`.
    let limit: u128 = if neg {
        i64::MAX as u128 + 1
    } else {
        i64::MAX as u128
    };
    let mut acc: u128 = 0;
    let mut i: usize = start;
    while i < e
        invariant
            start <= i <= e,
            e < b.len(),
            e as int == find_byte(b@, pos + 1, 101),
            digits == b@.subrange(start as int, e as int),
            pos < b.len(),
            start == if neg { pos + 2 } else { pos + 1 },
            s == b@.subrange(pos + 1, e as int),
            neg == (pos + 1 < e && b@[pos + 1] == 45),
            neg ==> s.len() >= 2 && s[0] == 45 && s.drop_first() == digits,
            !neg ==> s == digits,
            limit == if neg { i64::MAX + 1 } else { i64::MAX as int },
            acc <= limit,
            acc == digits_value(b@.subrange(start as int, i as int)),
            all_digits(b@.subrange(start as int, i as int)),
        decreases e - i,
    {
        let c = b[i];
        if c < 48 || c > 57 {
            assert(digits[i - start] == c);
            assert(!is_digit(digits[i - start]));
            assert(!all_digits(digits));
            assert(!canonical_digits(digits));
            assert(neg ==> !is_digit(s[0]));
            assert(!canonical_int(s));
            return Err(DecodeError::InvalidInteger);
        }
        proof {
            lemma_digits_value_step(b@, start as int, i as int);
        }
        assert(acc * 10 <= 92233720368547758080) by (nonlinear_arith)
            requires
                acc <= 9223372036854775808u128,
        ;
        let next: u128 = acc * 10 + (c - 48) as u128;
        if next > limit {
            proof {
                assert(digits.take(i + 1 - start) =~= b@.subrange(start as int, i + 1));
                lemma_digits_value_prefix(digits, i + 1 - start);
            }
            return Err(DecodeError::InvalidInteger);
        }
        acc = next;
        assert(b@.subrange(start as int, i + 1) =~= b@.subrange(start as int, i as int).push(c));
        i = i + 1;
    }
    let n: i64 = if neg {
        if acc == i64::MAX as u128 + 1 {
            i64::MIN
        } else {
            -(acc as i64)
        }
    } else {
        acc as i64
    };
    assert(canonical_int(s));
    assert(int_value(s) == n);
    Ok((Value::Integer(n), e + 1))
}

/// Reads `<length>:<bytes>` at `pos`.
fn decode_bytes(b: &[u8], pos: usize) -> (r: Result<(Value, usize), DecodeError>)
    requires
        pos < b.len(),
        is_digit(b@[pos as int]),
    ensures
        agrees(r, parse_bytes(b@, pos as int)),
        r is Ok ==> pos < r->Ok_0.1 <= b.len(),
{
    let c = find_byte_exec(b, pos, 58);
    if c >= b.len() {
        return Err(DecodeError::UnexpectedEof);
    }
    let ghost s = b@.subrange(pos as int, c as int);
    assert(s[0] == b@[pos as int]);
    if b[pos] == 48 && c - pos > 1 {
        assert(s.len() > 1 && s[0] == 48);
        assert(!canonical_digits(s));
        return Err(DecodeError::InvalidLength);
    }
    let mut i: usize = pos;
    while i < c
        invariant
            pos <= i <= c,
            c < b.len(),
            c as int == find_byte(b@, pos as int, 58),
            s == b@.subrange(pos as int, c as int),
            forall|j: int| pos <= j < i ==> is_digit(#[trigger] b@[j]),
        decreases c - i,
    {
        if b[i] < 48 || b[i] > 57 {
            assert(!is_digit(s[i - pos]));
            return Err(DecodeError::InvalidLength);
        }
        i = i + 1;
    }
    assert forall|k: int| 0 <= k < s.len() implies is_digit(#[trigger] s[k]) by {
        assert(s[k] == b@[pos + k]);
    }
    assert(canonical_digits(s));
    let room: usize = b.len() - (c + 1);
    let mut acc: u128 = 0;
    let mut i: usize = pos;
    while i < c
        invariant
            pos <= i <= c,
            c < b.len(),
            c as int == find_byte(b@, pos as int, 58),
            room == b.len() - (c + 1),
            s == b@.subrange(pos as int, c as int),
            canonical_digits(s),
            acc <= room,
            acc == digits_value(b@.subrange(pos as int, i as int)),
        decreases c - i,
    {
        proof {
            lemma_digits_value_step(b@, pos as int, i as int);
        }
        assert(is_digit(s[i - pos]));
        let next: u128 = acc * 10 + (b[i] - 48) as u128;
        if next > room as u128 {
            proof {
                assert(digits_value(b@.subrange(pos as int, i + 1)) == next);
                assert(s.take(i + 1 - pos) =~= b@.subrange(pos as int, i + 1));
                lemma_digits_value_prefix(s, i + 1 - pos);
                assert(digits_value(s) > room);
                assert(c + 1 + digits_value(s) > b.len());
            }
            return Err(DecodeError::Truncated);
        }
        acc = next;
        i = i + 1;
    }
    assert(b@.subrange(pos as int, c as int) == s);
    let len: usize = acc as usize;
    let mut out: Vec<u8> = Vec::new();
    let mut j: usize = 0;
    while j < len
        invariant
            j <= len,
            c + 1 + len <= b.len(),
            out@ == b@.subrange(c + 1, c + 1 + j),
        decreases len - j,
    {
        out.push(b[c + 1 + j]);
        assert(b@.subrange(c + 1, c + 1 + j + 1) =~= b@.subrange(c + 1, c + 1 + j).push(
            b@[c + 1 + j],
        ));
        j = j + 1;
    }
    Ok((Value::Bytes(out), c + 1 + len))
}

/// Reads the term at `pos`, with lists and dictionaries nested at most `depth` deep.
pub fn decode_value(b: &[u8], pos: usize, depth: usize) -> (r: Result<(Value, usize), DecodeError>)
    requires
        pos <= b.len(),
    ensures
        agrees(r, parse(b@, pos as int, depth as nat)),
        r is Ok ==> pos < r->Ok_0.1 <= b.len(),
    decreases b.len() - pos, 1nat,
{
    if pos >= b.len() {
        return Err(DecodeError::UnexpectedEof);
    }
    let c = b[pos];
    if c == 105 {
        decode_integer(b, pos)
    } else if 48 <= c && c <= 57 {
        decode_bytes(b, pos)
    } else if c == 108 {
        decode_list(b, pos, depth)
    } else if c == 100 {
        decode_dict(b, pos, depth)
    } else {
        Err(DecodeError::UnexpectedToken)
    }
}

/// Reads `l<items>e` at `pos`.
fn decode_list(b: &[u8], pos: usize, depth: usize) -> (r: Result<(Value, usize), DecodeError>)
    requires
        pos < b.len(),
        b@[pos as int] == 108,
    ensures
        agrees(r, parse(b@, pos as int, depth as nat)),
        r is Ok ==> pos < r->Ok_0.1 <= b.len(),
    decreases b.len() - pos, 0nat,
{
    if depth == 0 {
        return Err(DecodeError::DepthExceeded);
    }
    let mut items: Vec<Value> = Vec::new();
    let ghost mut acc: Seq<Term> = Seq::empty();
    let mut p: usize = pos + 1;
    loop
        invariant
            pos < p <= b.len(),
            depth > 0,
            acc.len() == items.len(),
            forall|j: int| 0 <= j < items.len() ==> acc[j] == (#[trigger] items@[j])@,
            parse(b@, pos as int, depth as nat) == parse_list(b@, p as int, (depth - 1) as nat, acc),
        decreases b.len() - p,
    {
        if p >= b.len() {
            return Err(DecodeError::UnexpectedEof);
        }
        if b[p] == 101 {
            proof {
                lemma_list_view(items);
                assert(Value::List(items)@->List_0 =~= acc);
            }
            return Ok((Value::List(items), p + 1));
        }
        let (v, q) = match decode_value(b, p, depth - 1) {
            Ok(x) => x,
            Err(k) => {
                return Err(k);
            },
        };
        proof {
            acc = acc.push(v@);
        }
        items.push(v);
        p = q;
    }
}

/// Reads `d<key><value>...e` at `pos`; the keys must come in strictly ascending order.
fn decode_dict(b: &[u8], pos: usize, depth: usize) -> (r: Result<(Value, usize), DecodeError>)
    requires
        pos < b.len(),
        b@[pos as int] == 100,
    ensures
        agrees(r, parse(b@, pos as int, depth as nat)),
        r is Ok ==> pos < r->Ok_0.1 <= b.len(),
    decreases b.len() - pos, 0nat,
{
    if depth == 0 {
        return Err(DecodeError::DepthExceeded);
    }
    let mut entries: Vec<(Vec<u8>, Value)> = Vec::new();
    let ghost mut acc: Seq<(Seq<u8>, Term)> = Seq::empty();
    let mut p: usize = pos + 1;
    loop
        invariant
            pos < p <= b.len(),
            depth > 0,
            acc.len() == entries.len(),
            forall|j: int|
                0 <= j < entries.len() ==> acc[j] == ((#[trigger] entries@[j]).0@, entries@[j].1@),
            parse(b@, pos as int, depth as nat) == parse_dict(b@, p as int, (depth - 1) as nat, acc),
        decreases b.len() - p,
    {
        if p >= b.len() {
            return Err(DecodeError::UnexpectedEof);
        }
        if b[p] == 101 {
            proof {
                lemma_dict_view(entries);
                assert(Value::Dict(entries)@->Dict_0 =~= acc);
            }
            return Ok((Value::Dict(entries), p + 1));
        }
        let (k, q) = match decode_value(b, p, depth - 1) {
            Ok(x) => x,
            Err(e) => {
                return Err(e);
            },
        };
        let key = match k {
            Value::Bytes(key) => key,
            _ => {
                return Err(DecodeError::InvalidKey);
            },
        };
        let n = entries.len();
        if n > 0 && !bytes_less(entries[n - 1].0.as_slice(), key.as_slice()) {
            return Err(DecodeError::UnorderedKey);
        }
        let (v, r) = match decode_value(b, q, depth - 1) {
            Ok(x) => x,
            Err(e) => {
                return Err(e);
            },
        };
        proof {
            acc = acc.push((key@, v@));
        }
        entries.push((key, v));
        p = r;
    }
}

/// What a read at `pos` gives when the lookahead byte `fits` what it expects:
/// the grammar's term and the position past it, or the grammar's error with
/// nothing consumed.
pub open spec fn read_outcome(
    b: Seq<u8>,
    pos: int,
    fits: bool,
    r: Result<Value, DecodeError>,
    end: int,
) -> bool {
    let p = if pos >= b.len() {
        Err(DecodeError::UnexpectedEof)
    } else if !fits {
        Err(DecodeError::UnexpectedToken)
    } else {
        parse(b, pos, MAX_DEPTH as nat)
    };
    match p {
        Ok((t, e)) => r is Ok && r->Ok_0@ == t && end == e,
        Err(k) => r is Err && r->Err_0 == k && end == pos,
    }
}

/// Reads terms one after another from a byte buffer.
pub struct Decoder<'a> {
    input: &'a [u8],
    pos: usize,
}

impl<'a> Decoder<'a> {
    /// The whole input.
    pub closed spec fn bytes(&self) -> Seq<u8> {
        self.input@
    }

    /// How many bytes have been consumed.
    pub closed spec fn offset(&self) -> int {
        self.pos as int
    }

    pub open spec fn wf(&self) -> bool {
        0 <= self.offset() <= self.bytes().len()
    }

    pub fn new(input: &'a [u8]) -> (r: Decoder<'a>)
        ensures
            r.wf(),
            r.bytes() == input@,
            r.offset() == 0,
    {
        Decoder { input, pos: 0 }
    }

    /// How many bytes have been consumed.
    pub fn position(&self) -> (r: usize)
        ensures
            r == self.offset(),
    {
        self.pos
    }

    fn finish(&mut self, r: Result<(Value, usize), DecodeError>) -> (out: Result<Value, DecodeError>)
        requires
            old(self).wf(),
            r is Ok ==> old(self).offset() < r->Ok_0.1 <= old(self).bytes().len(),
        ensures
            final(self).wf(),
            final(self).bytes() == old(self).bytes(),
            r is Ok ==> out is Ok && out->Ok_0 == r->Ok_0.0 && final(self).offset() == r->Ok_0.1,
            r is Err ==> out is Err && out->Err_0 == r->Err_0 && final(self).offset() == old(self).offset(),
    {
        match r {
            Ok((v, end)) => {
                self.pos = end;
                Ok(v)
            },
            Err(e) => Err(e),
        }
    }

    /// Reads the next term, whatever its kind.
    pub fn read_anything(&mut self) -> (r: Result<Value, DecodeError>)
        requires
            old(self).wf(),
        ensures
            final(self).wf(),
            final(self).bytes() == old(self).bytes(),
            read_outcome(old(self).bytes(), old(self).offset(), true, r, final(self).offset()),
    {
        let r = decode_value(self.input, self.pos, MAX_DEPTH);
        self.finish(r)
    }

    /// Reads the next term, which must be an integer.
    pub fn read_integer(&mut self) -> (r: Result<Value, DecodeError>)
        requires
            old(self).wf(),
        ensures
            final(self).wf(),
            final(self).bytes() == old(self).bytes(),
            read_outcome(
                old(self).bytes(),
                old(self).offset(),
                old(self).bytes()[old(self).offset()] == 105,
                r,
                final(self).offset(),
            ),
    {
        if self.pos >= self.input.len() {
            return Err(DecodeError::UnexpectedEof);
        }
        if self.input[self.pos] != 105 {
            return Err(DecodeError::UnexpectedToken);
        }
        let r = decode_value(self.input, self.pos, MAX_DEPTH);
        self.finish(r)
    }

    /// Reads the next term, which must be a byte string.
    pub fn read_bytes(&mut self) -> (r: Result<Value, DecodeError>)
        requires
            old(self).wf(),
        ensures
            final(self).wf(),
            final(self).bytes() == old(self).bytes(),
            read_outcome(
                old(self).bytes(),
                old(self).offset(),
                is_digit(old(self).bytes()[old(self).offset()]),
                r,
                final(self).offset(),
            ),
    {
        if self.pos >= self.input.len() {
            return Err(DecodeError::UnexpectedEof);
        }
        let c = self.input[self.pos];
        if c < 48 || c > 57 {
            return Err(DecodeError::UnexpectedToken);
        }
        let r = decode_value(self.input, self.pos, MAX_DEPTH);
        self.finish(r)
    }

    /// Reads the next term, which must be a list.
    pub fn read_list(&mut self) -> (r: Result<Value, DecodeError>)
        requires
            old(self).wf(),
        ensures
            final(self).wf(),
            final(self).bytes() == old(self).bytes(),
            read_outcome(
                old(self).bytes(),
                old(self).offset(),
                old(self).bytes()[old(self).offset()] == 108,
                r,
                final(self).offset(),
            ),
    {
        if self.pos >= self.input.len() {
            return Err(DecodeError::UnexpectedEof);
        }
        if self.input[self.pos] != 108 {
            return Err(DecodeError::UnexpectedToken);
        }
        let r = decode_value(self.input, self.pos, MAX_DEPTH);
        self.finish(r)
    }

    /// Reads the next term, which must be a dictionary.
    pub fn read_dict(&mut self) -> (r: Result<Value, DecodeError>)
        requires
            old(self).wf(),
        ensures
            final(self).wf(),
            final(self).bytes() == old(self).bytes(),
            read_outcome(
                old(self).bytes(),
                old(self).offset(),
                old(self).bytes()[old(self).offset()] == 100,
                r,
                final(self).offset(),
            ),
    {
        if self.pos >= self.input.len() {
            return Err(DecodeError::UnexpectedEof);
        }
        if self.input[self.pos] != 100 {
            return Err(DecodeError::UnexpectedToken);
        }
        let r = decode_value(self.input, self.pos, MAX_DEPTH);
        self.finish(r)
    }
}

impl Value {
    /// Decodes the term at the start of `input`; bytes after it are not read.
    pub fn decode(input: &[u8]) -> (r: Result<Value, DecodeError>)
        ensures
            match parse(input@, 0, MAX_DEPTH as nat) {
                Ok((t, _)) => r is Ok && r->Ok_0@ == t,
                Err(k) => r is Err && r->Err_0 == k,
            },
            r is Ok ==> r->Ok_0@.wf(),
    {
        proof {
            lemma_parse_sound(input@, 0, MAX_DEPTH as nat);
        }
        match decode_value(input, 0, MAX_DEPTH) {
            Ok((v, _)) => Ok(v),
            Err(e) => Err(e),
        }
    }
}

} // verus!
