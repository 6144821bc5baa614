use vstd::prelude::*;

use crate::grammar::{
    all_digits, canonical_digits, canonical_int, digits_value, find_byte, int_value,
    lemma_digits_value_prefix,
};
use crate::value::{int_text, is_digit, nat_text};

verus! {

proof fn lemma_div_mod_ten(n: nat)
    ensures
        n == (n / 10) * 10 + n % 10,
        n % 10 < 10,
        n >= 10 ==> n / 10 >= 1,
        n >= 10 ==> n / 10 < n,
{
}

proof fn lemma_ten_times(a: nat, r: nat)
    requires
        r < 10,
    ensures
        (a * 10 + r) / 10 == a,
        (a * 10 + r) % 10 == r,
{
    assert((a * 10 + r) / 10 == a && (a * 10 + r) % 10 == r) by (nonlinear_arith)
        requires
            r < 10,
    ;
}

/// The decimal text of a number is canonical and denotes that number.
pub proof fn lemma_nat_text(n: nat)
    ensures
        canonical_digits(nat_text(n)),
        digits_value(nat_text(n)) == n,
        n > 0 ==> nat_text(n)[0] != 48,
    decreases n,
{
    lemma_div_mod_ten(n);
    if n >= 10 {
        lemma_nat_text(n / 10);
        let s = nat_text(n);
        assert(s.drop_last() =~= nat_text(n / 10));
        assert(s.last() == (n % 10 + 48) as u8);
        assert((s.last() - 48) as nat == n % 10);
        assert(digits_value(s) == digits_value(nat_text(n / 10)) * 10 + n % 10);
        assert(digits_value(s) == (n / 10) * 10 + n % 10);
        assert forall|i: int| 0 <= i < s.len() implies is_digit(#[trigger] s[i]) by {
            if i < s.len() - 1 {
                assert(s[i] == nat_text(n / 10)[i]);
            }
        }
    } else {
        let s = nat_text(n);
        assert(s.drop_last() =~= Seq::<u8>::empty());
        assert(digits_value(s.drop_last()) == 0);
        assert(s.last() == (n + 48) as u8);
        assert(digits_value(s) == n);
    }
}

/// The text of an integer is canonical and denotes that integer.
pub proof fn lemma_int_text(n: int)
    ensures
        canonical_int(int_text(n)),
        int_value(int_text(n)) == n,
{
    if n < 0 {
        lemma_nat_text((-n) as nat);
        let s = int_text(n);
        assert(s.drop_first() =~= nat_text((-n) as nat));
    } else {
        lemma_nat_text(n as nat);
    }
}

/// Canonical digits are the decimal text of the number they denote.
pub proof fn lemma_canonical_digits(s: Seq<u8>)
    requires
        canonical_digits(s),
    ensures
        nat_text(digits_value(s)) == s,
    decreases s.len(),
{
    let v = digits_value(s);
    if s.len() == 1 {
        assert(s.drop_last() =~= Seq::<u8>::empty());
        assert(nat_text(v) =~= s);
    } else {
        let p = s.drop_last();
        assert(p[0] == s[0]);
        assert(canonical_digits(p));
        lemma_canonical_digits(p);
        assert(p.take(1) =~= seq![p[0]]);
        assert(p.take(1).drop_last() =~= Seq::<u8>::empty());
        lemma_digits_value_prefix(p, 1);
        assert(digits_value(p) >= 1);
        assert(is_digit(s.last()));
        lemma_ten_times(digits_value(p), (s.last() - 48) as nat);
        assert(nat_text(v) =~= s);
    }
}

/// Canonical integer text is the text of the integer it denotes.
pub proof fn lemma_canonical_int(s: Seq<u8>)
    requires
        canonical_int(s),
    ensures
        int_text(int_value(s)) == s,
{
    if canonical_digits(s) {
        lemma_canonical_digits(s);
        assert(s[0] != 45);
    } else {
        let t = s.drop_first();
        lemma_canonical_digits(t);
        assert(t.take(1) =~= seq![t[0]]);
        assert(t.take(1).drop_last() =~= Seq::<u8>::empty());
        lemma_digits_value_prefix(t, 1);
        assert(digits_value(t) >= 1);
        assert(int_text(int_value(s)) =~= s);
    }
}

/// Where `c` first occurs `k` bytes after `from`, that is what `find_byte` finds.
pub proof fn lemma_find_byte(b: Seq<u8>, from: int, k: int, c: u8)
    requires
        0 <= from,
        0 <= k,
        from + k < b.len(),
        b[from + k] == c,
        forall|i: int| from <= i < from + k ==> b[i] != c,
    ensures
        find_byte(b, from, c) == from + k,
    decreases k,
{
    if k > 0 {
        lemma_find_byte(b, from + 1, k - 1, c);
    }
}

} // verus!
