use vstd::prelude::*;

use crate::decode::MAX_DEPTH;
use crate::grammar::{
    canonical_digits, canonical_int, digits_value, find_byte, int_value, parse, parse_bytes,
    parse_dict, parse_integer, parse_list,
};
use crate::text::{
    lemma_canonical_digits, lemma_canonical_int, lemma_find_byte, lemma_int_text, lemma_nat_text,
};
use crate::value::{
    bytes_lt, bytes_text, dict_text, int_text, is_digit, keys_ascending, list_text, nat_text, Term,
};

verus! {

/// The encodings of the items from `i` on, one after another.
pub open spec fn list_rest(s: Seq<Term>, i: int) -> Seq<u8>
    decreases s.len() - i,
{
    if i < 0 || i >= s.len() {
        Seq::empty()
    } else {
        s[i].enc() + list_rest(s, i + 1)
    }
}

/// The encodings of the entries from `i` on, one after another.
pub open spec fn dict_rest(d: Seq<(Seq<u8>, Term)>, i: int) -> Seq<u8>
    decreases d.len() - i,
{
    if i < 0 || i >= d.len() {
        Seq::empty()
    } else {
        (bytes_text(d[i].0) + d[i].1.enc()) + dict_rest(d, i + 1)
    }
}

proof fn lemma_list_rest(s: Seq<Term>, i: int)
    requires
        0 <= i <= s.len(),
    ensures
        list_text(s, i) + list_rest(s, i) == list_text(s, s.len() as int),
    decreases s.len() - i,
{
    if i < s.len() {
        lemma_list_rest(s, i + 1);
        assert((list_text(s, i) + s[i].enc()) + list_rest(s, i + 1) =~= list_text(s, i) + (
        s[i].enc() + list_rest(s, i + 1)));
    } else {
        assert(list_text(s, i) + list_rest(s, i) =~= list_text(s, i));
    }
}

proof fn lemma_dict_rest(d: Seq<(Seq<u8>, Term)>, i: int)
    requires
        0 <= i <= d.len(),
    ensures
        dict_text(d, i) + dict_rest(d, i) == dict_text(d, d.len() as int),
    decreases d.len() - i,
{
    if i < d.len() {
        lemma_dict_rest(d, i + 1);
        let x = bytes_text(d[i].0) + d[i].1.enc();
        assert((dict_text(d, i) + x) + dict_rest(d, i + 1) =~= dict_text(d, i) + (x + dict_rest(
            d,
            i + 1,
        )));
    } else {
        assert(dict_text(d, i) + dict_rest(d, i) =~= dict_text(d, i));
    }
}

/// `b` holds `x` from `pos` on.
pub open spec fn holds_at(b: Seq<u8>, pos: int, x: Seq<u8>) -> bool {
    0 <= pos && pos + x.len() <= b.len() && b.subrange(pos, pos + x.len()) == x
}

proof fn lemma_holds_split(b: Seq<u8>, pos: int, x: Seq<u8>, y: Seq<u8>)
    requires
        holds_at(b, pos, x + y),
    ensures
        holds_at(b, pos, x),
        holds_at(b, pos + x.len(), y),
{
    let w = b.subrange(pos, pos + x.len() + y.len());
    assert(w == x + y);
    assert(b.subrange(pos, pos + x.len()) =~= w.subrange(0, x.len() as int));
    assert(w.subrange(0, x.len() as int) =~= x);
    assert(b.subrange(pos + x.len(), pos + x.len() + y.len()) =~= w.subrange(
        x.len() as int,
        (x.len() + y.len()) as int,
    ));
    assert(w.subrange(x.len() as int, (x.len() + y.len()) as int) =~= y);
}

proof fn lemma_holds_at(b: Seq<u8>, pos: int, x: Seq<u8>, j: int)
    requires
        holds_at(b, pos, x),
        0 <= j < x.len(),
    ensures
        b[pos + j] == x[j],
{
    assert(b.subrange(pos, pos + x.len())[j] == b[pos + j]);
}

/// The first byte of an encoding tells its kind, and is never the end marker.
proof fn lemma_enc_head(t: Term)
    ensures
        t.enc().len() > 0,
        t.enc()[0] != 101,
        t is Bytes ==> is_digit(t.enc()[0]),
        t is Integer ==> t.enc()[0] == 105,
        t is List ==> t.enc()[0] == 108,
        t is Dict ==> t.enc()[0] == 100,
{
    match t {
        Term::Bytes(k) => {
            lemma_nat_text(k.len());
            assert(t.enc()[0] == nat_text(k.len())[0]);
        },
        _ => {},
    }
}

proof fn lemma_parse_bytes_enc(b: Seq<u8>, pos: int, k: Seq<u8>)
    requires
        holds_at(b, pos, bytes_text(k)),
    ensures
        forall|d: nat|
            #[trigger] parse(b, pos, d) == Ok::<(Term, int), DecodeError>(
                (Term::Bytes(k), pos + bytes_text(k).len()),
            ),
{
    let n = nat_text(k.len());
    lemma_nat_text(k.len());
    lemma_holds_split(b, pos, n + seq![58u8], k);
    lemma_holds_split(b, pos, n, seq![58u8]);
    lemma_holds_at(b, pos, n, 0);
    lemma_holds_at(b, pos + n.len(), seq![58u8], 0);
    assert forall|i: int| pos <= i < pos + n.len() implies b[i] != 58 by {
        lemma_holds_at(b, pos, n, i - pos);
        assert(is_digit(n[i - pos]));
    }
    lemma_find_byte(b, pos, n.len() as int, 58);
    let c = pos + n.len();
    assert(b.subrange(pos, c) == n);
    assert(b.subrange(c + 1, c + 1 + k.len()) == k);
}

use crate::value::DecodeError;

proof fn lemma_parse_integer_enc(b: Seq<u8>, pos: int, n: int)
    requires
        i64::MIN <= n <= i64::MAX,
        holds_at(b, pos, seq![105u8] + int_text(n) + seq![101u8]),
    ensures
        forall|d: nat|
            #[trigger] parse(b, pos, d) == Ok::<(Term, int), DecodeError>(
                (Term::Integer(n), pos + int_text(n).len() + 2),
            ),
{
    let s = int_text(n);
    lemma_int_text(n);
    lemma_holds_split(b, pos, seq![105u8] + s, seq![101u8]);
    lemma_holds_split(b, pos, seq![105u8], s);
    lemma_holds_at(b, pos, seq![105u8], 0);
    lemma_holds_at(b, pos + 1 + s.len(), seq![101u8], 0);
    assert forall|i: int| pos + 1 <= i < pos + 1 + s.len() implies b[i] != 101 by {
        lemma_holds_at(b, pos + 1, s, i - pos - 1);
        if canonical_digits(s) {
            assert(is_digit(s[i - pos - 1]));
        } else if i - pos - 1 > 0 {
            assert(s.drop_first()[i - pos - 2] == s[i - pos - 1]);
            assert(is_digit(s.drop_first()[i - pos - 2]));
        }
    }
    lemma_find_byte(b, pos + 1, s.len() as int, 101);
    assert(b.subrange(pos + 1, pos + 1 + s.len()) == s);
}

/// A well-formed term, nested at most `d` deep, parses back from its encoding.
proof fn lemma_parse_enc(b: Seq<u8>, pos: int, d: nat, t: Term)
    requires
        t.wf(),
        t.within_depth(d),
        holds_at(b, pos, t.enc()),
    ensures
        parse(b, pos, d) == Ok::<(Term, int), DecodeError>((t, pos + t.enc().len())),
    decreases t,
{
    match t {
        Term::Bytes(k) => {
            lemma_parse_bytes_enc(b, pos, k);
            assert(parse(b, pos, d) == Ok::<(Term, int), DecodeError>((t, pos + t.enc().len())));
        },
        Term::Integer(n) => {
            lemma_parse_integer_enc(b, pos, n);
            assert(parse(b, pos, d) == Ok::<(Term, int), DecodeError>((t, pos + t.enc().len())));
        },
        Term::List(s) => {
            let inner = list_text(s, s.len() as int);
            lemma_list_rest(s, 0);
            assert(list_text(s, 0) + list_rest(s, 0) =~= list_rest(s, 0));
            assert(t.enc() =~= seq![108u8] + (inner + seq![101u8]));
            lemma_holds_split(b, pos, seq![108u8], inner + seq![101u8]);
            lemma_holds_at(b, pos, seq![108u8], 0);
            lemma_parse_list_enc(b, pos + 1, (d - 1) as nat, s, 0);
            assert(s.take(0) =~= Seq::<Term>::empty());
        },
        Term::Dict(m) => {
            let inner = dict_text(m, m.len() as int);
            lemma_dict_rest(m, 0);
            assert(dict_text(m, 0) + dict_rest(m, 0) =~= dict_rest(m, 0));
            assert(t.enc() =~= seq![100u8] + (inner + seq![101u8]));
            lemma_holds_split(b, pos, seq![100u8], inner + seq![101u8]);
            lemma_holds_at(b, pos, seq![100u8], 0);
            lemma_parse_dict_enc(b, pos + 1, (d - 1) as nat, m, 0);
            assert(m.take(0) =~= Seq::<(Seq<u8>, Term)>::empty());
        },
    }
}

proof fn lemma_parse_list_enc(b: Seq<u8>, p: int, d: nat, s: Seq<Term>, i: int)
    requires
        0 <= i <= s.len(),
        forall|j: int| 0 <= j < s.len() ==> (#[trigger] s[j]).wf() && s[j].within_depth(d),
        holds_at(b, p, list_rest(s, i) + seq![101u8]),
    ensures
        parse_list(b, p, d, s.take(i)) == Ok::<(Term, int), DecodeError>(
            (Term::List(s), p + list_rest(s, i).len() + 1),
        ),
    decreases s, s.len() - i,
{
    if i == s.len() {
        assert(list_rest(s, i) =~= Seq::<u8>::empty());
        lemma_holds_at(b, p, list_rest(s, i) + seq![101u8], 0);
        assert(s.take(i) =~= s);
    } else {
        let e = s[i].enc();
        assert(list_rest(s, i) + seq![101u8] =~= e + (list_rest(s, i + 1) + seq![101u8]));
        lemma_holds_split(b, p, e, list_rest(s, i + 1) + seq![101u8]);
        lemma_enc_head(s[i]);
        lemma_holds_at(b, p, e, 0);
        lemma_parse_enc(b, p, d, s[i]);
        lemma_parse_list_enc(b, p + e.len(), d, s, i + 1);
        assert(s.take(i).push(s[i]) =~= s.take(i + 1));
    }
}

proof fn lemma_parse_dict_enc(b: Seq<u8>, p: int, d: nat, m: Seq<(Seq<u8>, Term)>, i: int)
    requires
        0 <= i <= m.len(),
        keys_ascending(m),
        forall|j: int| 0 <= j < m.len() ==> (#[trigger] m[j]).1.wf() && m[j].1.within_depth(d),
        holds_at(b, p, dict_rest(m, i) + seq![101u8]),
    ensures
        parse_dict(b, p, d, m.take(i)) == Ok::<(Term, int), DecodeError>(
            (Term::Dict(m), p + dict_rest(m, i).len() + 1),
        ),
    decreases m, m.len() - i,
{
    if i == m.len() {
        assert(dict_rest(m, i) =~= Seq::<u8>::empty());
        lemma_holds_at(b, p, dict_rest(m, i) + seq![101u8], 0);
        assert(m.take(i) =~= m);
    } else {
        let k = bytes_text(m[i].0);
        let e = m[i].1.enc();
        assert(dict_rest(m, i) + seq![101u8] =~= k + (e + (dict_rest(m, i + 1) + seq![101u8])));
        lemma_holds_split(b, p, k, e + (dict_rest(m, i + 1) + seq![101u8]));
        lemma_holds_split(b, p + k.len(), e, dict_rest(m, i + 1) + seq![101u8]);
        lemma_enc_head(Term::Bytes(m[i].0));
        lemma_holds_at(b, p, k, 0);
        lemma_parse_bytes_enc(b, p, m[i].0);
        assert(parse(b, p, d) == Ok::<(Term, int), DecodeError>(
            (Term::Bytes(m[i].0), p + k.len()),
        ));
        if i > 0 {
            assert(m.take(i).last() == m[i - 1]);
            assert(bytes_lt(m[i - 1].0, m[i].0));
        }
        lemma_parse_enc(b, p + k.len(), d, m[i].1);
        lemma_enc_head(m[i].1);
        lemma_parse_dict_enc(b, p + k.len() + e.len(), d, m, i + 1);
        assert(m.take(i).push((m[i].0, m[i].1)) =~= m.take(i + 1));
    }
}

proof fn lemma_find_byte_found(b: Seq<u8>, from: int, c: u8)
    requires
        0 <= from,
    ensures
        from <= find_byte(b, from, c) || from > b.len(),
        find_byte(b, from, c) <= b.len(),
        find_byte(b, from, c) < b.len() ==> b[find_byte(b, from, c)] == c,
    decreases b.len() - from,
{
    if from < b.len() && b[from] != c {
        lemma_find_byte_found(b, from + 1, c);
    }
}

/// What parses is well-formed, nested at most `d` deep, and is exactly the
/// canonical encoding of the term it gives.
pub proof fn lemma_parse_sound(b: Seq<u8>, pos: int, d: nat)
    requires
        0 <= pos,
    ensures
        parse(b, pos, d) is Ok ==> ({
            let (t, e) = parse(b, pos, d)->Ok_0;
            t.wf() && t.within_depth(d) && e == pos + t.enc().len() && holds_at(b, pos, t.enc())
        }),
    decreases b.len() - pos, 0int,
{
    if pos >= b.len() {
    } else if b[pos] == 105 {
        lemma_find_byte_found(b, pos + 1, 101);
        let e = find_byte(b, pos + 1, 101);
        if e < b.len() {
            let s = b.subrange(pos + 1, e);
            if canonical_int(s) && i64::MIN <= int_value(s) <= i64::MAX {
                lemma_canonical_int(s);
                let t = Term::Integer(int_value(s));
                assert(b.subrange(pos, pos + t.enc().len()) =~= t.enc());
            }
        }
    } else if is_digit(b[pos]) {
        lemma_find_byte_found(b, pos, 58);
        let c = find_byte(b, pos, 58);
        if c < b.len() {
            let s = b.subrange(pos, c);
            let end = c + 1 + digits_value(s);
            if canonical_digits(s) && end <= b.len() {
                lemma_canonical_digits(s);
                let t = Term::Bytes(b.subrange(c + 1, end));
                assert(b.subrange(pos, pos + t.enc().len()) =~= t.enc());
            }
        }
    } else if b[pos] == 108 {
        if d > 0 {
            lemma_parse_list_sound(b, pos + 1, (d - 1) as nat, Seq::empty());
            if parse(b, pos, d) is Ok {
                let (t, e) = parse(b, pos, d)->Ok_0;
                let s = t->List_0;
                lemma_list_rest(s, 0);
                assert(s.take(0) =~= Seq::<Term>::empty());
                assert(list_text(s, 0) + list_rest(s, 0) =~= list_rest(s, 0));
                assert(t.enc() =~= seq![108u8] + (list_rest(s, 0) + seq![101u8]));
                assert(b.subrange(pos, pos + t.enc().len()) =~= seq![108u8] + b.subrange(pos + 1, e));
            }
        }
    } else if b[pos] == 100 {
        if d > 0 {
            lemma_parse_dict_sound(b, pos + 1, (d - 1) as nat, Seq::empty());
            if parse(b, pos, d) is Ok {
                let (t, e) = parse(b, pos, d)->Ok_0;
                let m = t->Dict_0;
                lemma_dict_rest(m, 0);
                assert(m.take(0) =~= Seq::<(Seq<u8>, Term)>::empty());
                assert(dict_text(m, 0) + dict_rest(m, 0) =~= dict_rest(m, 0));
                assert(t.enc() =~= seq![100u8] + (dict_rest(m, 0) + seq![101u8]));
                assert(b.subrange(pos, pos + t.enc().len()) =~= seq![100u8] + b.subrange(pos + 1, e));
            }
        }
    }
}

proof fn lemma_parse_list_sound(b: Seq<u8>, p: int, d: nat, acc: Seq<Term>)
    requires
        0 <= p,
    ensures
        parse_list(b, p, d, acc) is Ok ==> ({
            let (t, e) = parse_list(b, p, d, acc)->Ok_0;
            &&& t is List
            &&& acc.len() <= t->List_0.len()
            &&& t->List_0.take(acc.len() as int) == acc
            &&& forall|j: int|
                acc.len() <= j < t->List_0.len() ==> (#[trigger] t->List_0[j]).wf()
                    && t->List_0[j].within_depth(d)
            &&& e == p + list_rest(t->List_0, acc.len() as int).len() + 1
            &&& holds_at(b, p, list_rest(t->List_0, acc.len() as int) + seq![101u8])
        }),
    decreases b.len() - p, 1int,
{
    if p >= b.len() {
    } else if b[p] == 101 {
        assert(acc.take(acc.len() as int) =~= acc);
        assert(list_rest(acc, acc.len() as int) =~= Seq::<u8>::empty());
        assert(b.subrange(p, p + 1) =~= seq![101u8]);
        assert(Seq::<u8>::empty() + seq![101u8] =~= seq![101u8]);
    } else {
        lemma_parse_sound(b, p, d);
        if parse(b, p, d) is Ok {
            let (t1, q) = parse(b, p, d)->Ok_0;
            if p < q <= b.len() {
                lemma_parse_list_sound(b, q, d, acc.push(t1));
                if parse_list(b, p, d, acc) is Ok {
                    let (t, e) = parse_list(b, p, d, acc)->Ok_0;
                    let s = t->List_0;
                    let n = acc.len() as int;
                    assert(s.take(n + 1)[n] == t1);
                    assert(s.take(n) =~= s.take(n + 1).drop_last());
                    assert(acc.push(t1).drop_last() =~= acc);
                    assert(list_rest(s, n) + seq![101u8] =~= t1.enc() + (list_rest(s, n + 1) + seq![101u8]));
                    assert(b.subrange(p, e) =~= b.subrange(p, q) + b.subrange(q, e));
                }
            }
        }
    }
}

proof fn lemma_parse_dict_sound(b: Seq<u8>, p: int, d: nat, acc: Seq<(Seq<u8>, Term)>)
    requires
        0 <= p,
    ensures
        parse_dict(b, p, d, acc) is Ok ==> ({
            let (t, e) = parse_dict(b, p, d, acc)->Ok_0;
            &&& t is Dict
            &&& acc.len() <= t->Dict_0.len()
            &&& t->Dict_0.take(acc.len() as int) == acc
            &&& (keys_ascending(acc) ==> keys_ascending(t->Dict_0))
            &&& forall|j: int|
                acc.len() <= j < t->Dict_0.len() ==> (#[trigger] t->Dict_0[j]).1.wf()
                    && t->Dict_0[j].1.within_depth(d)
            &&& e == p + dict_rest(t->Dict_0, acc.len() as int).len() + 1
            &&& holds_at(b, p, dict_rest(t->Dict_0, acc.len() as int) + seq![101u8])
        }),
    decreases b.len() - p, 1int,
{
    if p >= b.len() {
    } else if b[p] == 101 {
        assert(acc.take(acc.len() as int) =~= acc);
        assert(dict_rest(acc, acc.len() as int) =~= Seq::<u8>::empty());
        assert(b.subrange(p, p + 1) =~= seq![101u8]);
        assert(Seq::<u8>::empty() + seq![101u8] =~= seq![101u8]);
    } else {
        lemma_parse_sound(b, p, d);
        if parse(b, p, d) is Ok {
            let (k, q) = parse(b, p, d)->Ok_0;
            if k is Bytes && p < q <= b.len() && !(acc.len() > 0 && !bytes_lt(acc.last().0, k->Bytes_0)) {
                let key = k->Bytes_0;
                lemma_parse_sound(b, q, d);
                if parse(b, q, d) is Ok {
                    let (t1, r) = parse(b, q, d)->Ok_0;
                    if q < r <= b.len() {
                        let acc2 = acc.push((key, t1));
                        lemma_parse_dict_sound(b, r, d, acc2);
                        if parse_dict(b, p, d, acc) is Ok {
                            let (t, e) = parse_dict(b, p, d, acc)->Ok_0;
                            let m = t->Dict_0;
                            let n = acc.len() as int;
                            assert(m.take(n + 1)[n] == (key, t1));
                            assert(m.take(n) =~= m.take(n + 1).drop_last());
                            assert(acc2.drop_last() =~= acc);
                            assert(k.enc() == bytes_text(key));
                            assert(dict_rest(m, n) + seq![101u8] =~= bytes_text(key) + (t1.enc() + (
                            dict_rest(m, n + 1) + seq![101u8])));
                            assert(b.subrange(p, e) =~= b.subrange(p, q) + (b.subrange(q, r)
                                + b.subrange(r, e)));
                            if keys_ascending(acc) {
                                assert forall|j: int| 0 <= j && j + 1 < acc2.len() implies bytes_lt(
                                    #[trigger] acc2[j].0,
                                    acc2[j + 1].0,
                                ) by {
                                    if j + 1 < acc.len() {
                                        assert(acc2[j] == acc[j] && acc2[j + 1] == acc[j + 1]);
                                    } else {
                                        assert(acc2[j] == acc.last());
                                    }
                                }
                            }
                        }
                    }
                }
            }
        }
    }
}

/// Round trip: a well-formed term, nested no deeper than the decoder allows,
/// decodes back from its canonical encoding whatever bytes follow it, and the
/// decoder stops right after the encoding.
pub proof fn law_round_trip(t: Term, rest: Seq<u8>)
    requires
        t.wf(),
        t.within_depth(MAX_DEPTH as nat),
    ensures
        parse(t.enc() + rest, 0, MAX_DEPTH as nat) == Ok::<(Term, int), DecodeError>(
            (t, t.enc().len() as int),
        ),
{
    let b = t.enc() + rest;
    assert(b.subrange(0, t.enc().len() as int) =~= t.enc());
    lemma_parse_enc(b, 0, MAX_DEPTH as nat, t);
}

/// Decoding accepts canonical input only: the bytes that a decode consumes are
/// exactly the canonical encoding of the term it gives, so encoding that term
/// gives those bytes back.
pub proof fn law_canonical(b: Seq<u8>)
    ensures
        parse(b, 0, MAX_DEPTH as nat) is Ok ==> ({
            let (t, e) = parse(b, 0, MAX_DEPTH as nat)->Ok_0;
            t.enc() == b.subrange(0, e)
        }),
{
    lemma_parse_sound(b, 0, MAX_DEPTH as nat);
}

/// Every decoded term is well-formed: the keys of each dictionary in it,
/// however deep, are strictly ascending.
pub proof fn law_decoded_keys_ascending(b: Seq<u8>)
    ensures
        parse(b, 0, MAX_DEPTH as nat) is Ok ==> parse(b, 0, MAX_DEPTH as nat)->Ok_0.0.wf(),
{
    lemma_parse_sound(b, 0, MAX_DEPTH as nat);
}

} // verus!
