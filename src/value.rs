use vstd::prelude::*;

verus! {

/// Mathematical model of a bencoded term.
pub enum Term {
    Bytes(Seq<u8>),
    Integer(int),
    List(Seq<Term>),
    Dict(Seq<(Seq<u8>, Term)>),
}

/// An in-memory bencoded value.
///
/// A dictionary is held as its entries in key order. A well-formed value
/// (`wf`) has the keys of each dictionary strictly ascending, byte-wise.
#[derive(Debug, PartialEq, Eq)]
pub enum Value {
    Bytes(Vec<u8>),
    Integer(i64),
    List(Vec<Value>),
    Dict(Vec<(Vec<u8>, Value)>),
}

/// Format errors of a decode call.
#[derive(Clone, Copy, Debug, PartialEq, Eq, Structural)]
pub enum DecodeError {
    /// The input ended while a term was incomplete.
    UnexpectedEof,
    /// The lookahead byte starts no term.
    UnexpectedToken,
    /// A byte string's length prefix is not a canonical decimal number.
    InvalidLength,
    /// An integer's text is not a canonical decimal in the range of `i64`.
    InvalidInteger,
    /// A byte string declares more bytes than the input holds.
    Truncated,
    /// A dictionary key is not a byte string.
    InvalidKey,
    /// A dictionary key is not strictly greater than the key before it.
    UnorderedKey,
    /// Lists and dictionaries are nested deeper than the decoder allows.
    DepthExceeded,
}

impl View for Value {
    type V = Term;

    open spec fn view(&self) -> Term
        decreases self,
    {
        match self {
            Value::Bytes(b) => Term::Bytes(b@),
            Value::Integer(n) => Term::Integer(*n as int),
            Value::List(l) => Term::List(
                Seq::new(
                    l@.len(),
                    |i: int|
                        if 0 <= i < l@.len() {
                            l@[i].view()
                        } else {
                            Term::Integer(0)
                        },
                ),
            ),
            Value::Dict(d) => Term::Dict(
                Seq::new(
                    d@.len(),
                    |i: int|
                        (
                            d@[i].0@,
                            if 0 <= i < d@.len() {
                                d@[i].1.view()
                            } else {
                                Term::Integer(0)
                            },
                        ),
                ),
            ),
        }
    }
}

pub open spec fn is_digit(c: u8) -> bool {
    48 <= c <= 57
}

/// The decimal digits of `n`, most significant first, without leading zeros.
pub open spec fn nat_text(n: nat) -> Seq<u8>
    decreases n,
{
    if n < 10 {
        seq![(n + 48) as u8]
    } else {
        nat_text(n / 10).push((n % 10 + 48) as u8)
    }
}

/// The canonical decimal text of `n`: a minus sign before negative numbers.
pub open spec fn int_text(n: int) -> Seq<u8> {
    if n < 0 {
        seq![45u8] + nat_text((-n) as nat)
    } else {
        nat_text(n as nat)
    }
}

/// Byte-wise lexicographic order, a proper prefix being smaller.
pub open spec fn bytes_lt(a: Seq<u8>, b: Seq<u8>) -> bool
    decreases a.len(),
{
    if a.len() == 0 {
        b.len() > 0
    } else if b.len() == 0 {
        false
    } else if a[0] != b[0] {
        a[0] < b[0]
    } else {
        bytes_lt(a.drop_first(), b.drop_first())
    }
}

/// Each key is strictly below the next one.
pub open spec fn keys_ascending(d: Seq<(Seq<u8>, Term)>) -> bool {
    forall|i: int| 0 <= i && i + 1 < d.len() ==> bytes_lt(#[trigger] d[i].0, d[i + 1].0)
}

/// `<length>:<bytes>`
pub open spec fn bytes_text(b: Seq<u8>) -> Seq<u8> {
    nat_text(b.len()) + seq![58u8] + b
}

impl Term {
    /// Integers fit in `i64`, and every dictionary has its keys strictly ascending.
    pub open spec fn wf(self) -> bool
        decreases self,
    {
        match self {
            Term::Bytes(_) => true,
            Term::Integer(n) => i64::MIN <= n <= i64::MAX,
            Term::List(s) => forall|i: int| 0 <= i < s.len() ==> (#[trigger] s[i]).wf(),
            Term::Dict(d) => keys_ascending(d) && forall|i: int|
                0 <= i < d.len() ==> (#[trigger] d[i]).1.wf(),
        }
    }

    /// Lists and dictionaries are nested at most `depth` deep.
    pub open spec fn within_depth(self, depth: nat) -> bool
        decreases self,
    {
        match self {
            Term::Bytes(_) => true,
            Term::Integer(_) => true,
            Term::List(s) => depth > 0 && forall|i: int|
                0 <= i < s.len() ==> (#[trigger] s[i]).within_depth((depth - 1) as nat),
            Term::Dict(d) => depth > 0 && forall|i: int|
                0 <= i < d.len() ==> (#[trigger] d[i]).1.within_depth((depth - 1) as nat),
        }
    }

    /// The canonical encoding of the term.
    pub open spec fn enc(self) -> Seq<u8>
        decreases self,
    {
        match self {
            Term::Bytes(b) => bytes_text(b),
            Term::Integer(n) => seq![105u8] + int_text(n) + seq![101u8],
            Term::List(s) => seq![108u8] + list_text(s, s.len() as int) + seq![101u8],
            Term::Dict(d) => seq![100u8] + dict_text(d, d.len() as int) + seq![101u8],
        }
    }
}

/// The encodings of the first `n` items, one after another.
pub open spec fn list_text(s: Seq<Term>, n: int) -> Seq<u8>
    decreases s, n,
{
    if n <= 0 || n > s.len() {
        Seq::empty()
    } else {
        list_text(s, n - 1) + s[n - 1].enc()
    }
}

/// The encodings of the first `n` entries, each key followed by its value.
pub open spec fn dict_text(d: Seq<(Seq<u8>, Term)>, n: int) -> Seq<u8>
    decreases d, n,
{
    if n <= 0 || n > d.len() {
        Seq::empty()
    } else {
        dict_text(d, n - 1) + (bytes_text(d[n - 1].0) + d[n - 1].1.enc())
    }
}

pub proof fn lemma_dict_view(d: Vec<(Vec<u8>, Value)>)
    ensures
        Value::Dict(d)@ is Dict,
        Value::Dict(d)@->Dict_0.len() == d@.len(),
        forall|j: int|
            0 <= j < d@.len() ==> Value::Dict(d)@->Dict_0[j] == ((#[trigger] d@[j]).0@, d@[j].1@),
{
}

pub proof fn lemma_list_view(l: Vec<Value>)
    ensures
        Value::List(l)@ is List,
        Value::List(l)@->List_0.len() == l@.len(),
        forall|j: int| 0 <= j < l@.len() ==> Value::List(l)@->List_0[j] == (#[trigger] l@[j])@,
{
}

} // verus!
