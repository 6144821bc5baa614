use vstd::prelude::*;

use crate::value::{
    bytes_text, dict_text, int_text, list_text, lemma_dict_view, nat_text, Term, Value,
};

verus! {

/// Writes values in their canonical encoding to a growing byte buffer.
pub struct Encoder {
    out: Vec<u8>,
}

impl View for Encoder {
    type V = Seq<u8>;

    /// The bytes written so far.
    closed spec fn view(&self) -> Seq<u8> {
        self.out@
    }
}

/// Appends the decimal digits of `n`.
fn push_decimal(out: &mut Vec<u8>, n: u64)
    ensures
        final(out)@ == old(out)@ + nat_text(n as nat),
    decreases n,
{
    if n >= 10 {
        push_decimal(out, n / 10);
    }
    out.push((n % 10 + 48) as u8);
    assert(out@ =~= old(out)@ + nat_text(n as nat));
}

impl Encoder {
    pub fn new() -> (r: Encoder)
        ensures
            r@ == Seq::<u8>::empty(),
    {
        Encoder { out: Vec::new() }
    }

    /// Hands out the bytes written.
    pub fn into_bytes(self) -> (r: Vec<u8>)
        ensures
            r@ == self@,
    {
        self.out
    }

    pub fn write_anything(&mut self, value: &Value)
        ensures
            final(self)@ == old(self)@ + value@.enc(),
        decreases value,
    {
        match value {
            Value::Bytes(b) => self.write_bytes(b),
            Value::Integer(i) => self.write_integer(i),
            Value::List(l) => self.write_list(l),
            Value::Dict(d) => self.write_dict(d),
        }
    }

    pub fn write_bytes(&mut self, value: &Vec<u8>)
        ensures
            final(self)@ == old(self)@ + bytes_text(value@),
    {
        push_decimal(&mut self.out, value.len() as u64);
        self.out.push(58u8);
        let mut i: usize = 0;
        while i < value.len()
            invariant
                i <= value.len(),
                self@ == old(self)@ + nat_text(value@.len()) + seq![58u8] + value@.take(i as int),
            decreases value.len() - i,
        {
            self.out.push(value[i]);
            assert(value@.take(i + 1) =~= value@.take(i as int).push(value@[i as int]));
            i = i + 1;
        }
        assert(value@.take(i as int) =~= value@);
        assert(self@ =~= old(self)@ + bytes_text(value@));
    }

    pub fn write_integer(&mut self, value: &i64)
        ensures
            final(self)@ == old(self)@ + (seq![105u8] + int_text(*value as int) + seq![101u8]),
    {
        let n: i64 = *value;
        self.out.push(105u8);
        if n < 0 {
            self.out.push(45u8);
            let m: u64 = (-(n + 1)) as u64 + 1;
            push_decimal(&mut self.out, m);
        } else {
            push_decimal(&mut self.out, n as u64);
        }
        self.out.push(101u8);
        assert(self@ =~= old(self)@ + (seq![105u8] + int_text(n as int) + seq![101u8]));
    }

    pub fn write_list(&mut self, value: &Vec<Value>)
        ensures
            final(self)@ == old(self)@ + Value::List(*value)@.enc(),
        decreases value, 1nat,
    {
        let ghost items: Seq<Term> = match Value::List(*value)@ {
            Term::List(s) => s,
            _ => Seq::empty(),
        };
        self.out.push(108u8);
        let mut i: usize = 0;
        while i < value.len()
            invariant
                i <= value.len(),
                items.len() == value.len(),
                forall|j: int| 0 <= j < value.len() ==> items[j] == (#[trigger] value@[j])@,
                self@ == old(self)@ + seq![108u8] + list_text(items, i as int),
            decreases value.len() - i,
        {
            self.write_anything(&value[i]);
            i = i + 1;
        }
        self.out.push(101u8);
        assert(self@ =~= old(self)@ + Value::List(*value)@.enc());
    }

    pub fn write_dict(&mut self, value: &Vec<(Vec<u8>, Value)>)
        ensures
            final(self)@ == old(self)@ + Value::Dict(*value)@.enc(),
        decreases value, 1nat,
    {
        let ghost entries: Seq<(Seq<u8>, Term)> = match Value::Dict(*value)@ {
            Term::Dict(d) => d,
            _ => Seq::empty(),
        };
        proof {
            lemma_dict_view(*value);
        }
        self.out.push(100u8);
        let mut i: usize = 0;
        while i < value.len()
            invariant
                i <= value.len(),
                entries.len() == value.len(),
                forall|j: int|
                    0 <= j < value.len() ==> entries[j] == ((#[trigger] value@[j]).0@, value@[j].1@),
                self@ == old(self)@ + seq![100u8] + dict_text(entries, i as int),
            decreases value.len() - i,
        {
            self.write_bytes(&value[i].0);
            self.write_anything(&value[i].1);
            i = i + 1;
        }
        self.out.push(101u8);
        assert(self@ =~= old(self)@ + Value::Dict(*value)@.enc());
    }
}

impl Value {
    /// The canonical encoding of the value.
    pub fn encode(&self) -> (r: Vec<u8>)
        ensures
            r@ == self@.enc(),
    {
        let mut e = Encoder::new();
        e.write_anything(self);
        e.into_bytes()
    }
}

} // verus!
