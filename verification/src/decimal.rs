//! Decimal text of integers, as Rust's `to_string` writes it.
use vstd::prelude::*;

verus! {

/// The character of a decimal digit.
pub open spec fn digit_char(d: nat) -> char {
    if d == 0 {
        '0'
    } else if d == 1 {
        '1'
    } else if d == 2 {
        '2'
    } else if d == 3 {
        '3'
    } else if d == 4 {
        '4'
    } else if d == 5 {
        '5'
    } else if d == 6 {
        '6'
    } else if d == 7 {
        '7'
    } else if d == 8 {
        '8'
    } else {
        '9'
    }
}

/// The decimal digits of `n`, most significant first, without leading zeros.
pub open spec fn nat_text(n: nat) -> Seq<char>
    decreases n,
{
    if n < 10 {
        seq![digit_char(n)]
    } else {
        nat_text(n / 10).push(digit_char(n % 10))
    }
}

/// The decimal text of `i`: a `-` before the digits of a negative number.
pub open spec fn int_text(i: int) -> Seq<char> {
    if i < 0 {
        seq!['-'] + nat_text((-i) as nat)
    } else {
        nat_text(i as nat)
    }
}

proof fn lemma_nat_text_shape(n: nat)
    ensures
        nat_text(n).len() >= 1,
        n >= 10 ==> nat_text(n).len() >= 2,
        nat_text(n)[0] != '-',
    decreases n,
{
    if n >= 10 {
        lemma_nat_text_shape(n / 10);
        assert(nat_text(n)[0] == nat_text(n / 10)[0]);
    }
}

proof fn lemma_nat_text_injective(a: nat, b: nat)
    requires
        nat_text(a) == nat_text(b),
    ensures
        a == b,
    decreases a,
{
    lemma_nat_text_shape(a);
    lemma_nat_text_shape(b);
    if a < 10 && b < 10 {
    } else if a < 10 || b < 10 {
    } else {
        let ta = nat_text(a);
        let tb = nat_text(b);
        assert(ta.last() == digit_char(a % 10));
        assert(tb.last() == digit_char(b % 10));
        assert(ta.drop_last() == nat_text(a / 10));
        assert(tb.drop_last() == nat_text(b / 10));
        lemma_nat_text_injective(a / 10, b / 10);
        assert(a % 10 == b % 10);
    }
}

/// Different integers have different decimal texts.
pub proof fn lemma_int_text_injective(a: int, b: int)
    requires
        int_text(a) == int_text(b),
    ensures
        a == b,
{
    if a < 0 && b < 0 {
        let ta = seq!['-'] + nat_text((-a) as nat);
        let tb = seq!['-'] + nat_text((-b) as nat);
        assert(ta.drop_first() == nat_text((-a) as nat));
        assert(tb.drop_first() == nat_text((-b) as nat));
        lemma_nat_text_injective((-a) as nat, (-b) as nat);
    } else if a < 0 {
        lemma_nat_text_shape(b as nat);
        assert(int_text(a)[0] == '-');
    } else if b < 0 {
        lemma_nat_text_shape(a as nat);
        assert(int_text(b)[0] == '-');
    } else {
        lemma_nat_text_injective(a as nat, b as nat);
    }
}

/// `i.to_string()`: the decimal text that `i64`'s `Display` writes, a minus
/// sign before the digits of a negative number and no leading zero.
#[verifier::external_body]
pub(crate) fn decimal_text(i: i64) -> (r: String)
    ensures
        r@ == int_text(i as int),
{
    i.to_string()
}

} // verus!
