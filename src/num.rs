use vstd::prelude::*;

verus! {

pub open spec fn is_digit(c: char) -> bool {
    '0' <= c && c <= '9'
}

pub open spec fn digit_char(d: nat) -> char {
    ((d + 48) as u32) as char
}

/// A non-empty run of decimal digits.
pub open spec fn all_digits(s: Seq<char>) -> bool {
    s.len() > 0 && forall|i: int| 0 <= i < s.len() ==> is_digit(#[trigger] s[i])
}

pub open spec fn digits_value(s: Seq<char>) -> int
    decreases s.len(),
{
    if s.len() == 0 {
        0
    } else {
        digits_value(s.drop_last()) * 10 + ((s.last() as int) - 48)
    }
}

/// The integer a decimal numeral writes: an optional `+` or `-`, then at
/// least one digit.
pub open spec fn numeral_value(s: Seq<char>) -> Option<int> {
    if s.len() > 0 && s[0] == '-' && all_digits(s.drop_first()) {
        Some(-digits_value(s.drop_first()))
    } else if s.len() > 0 && s[0] == '+' && all_digits(s.drop_first()) {
        Some(digits_value(s.drop_first()))
    } else if all_digits(s) {
        Some(digits_value(s))
    } else {
        None
    }
}

pub open spec fn in_i64(n: int) -> bool {
    i64::MIN <= n <= i64::MAX
}

/// The shortest decimal numeral of a natural number.
pub open spec fn nat_decimal(n: nat) -> Seq<char>
    decreases n,
{
    if n < 10 {
        seq![digit_char(n)]
    } else {
        nat_decimal(n / 10).push(digit_char(n % 10))
    }
}

/// The decimal numeral of an integer, with `-` before a negative one.
pub open spec fn decimal(n: int) -> Seq<char> {
    if n < 0 {
        seq!['-'] + nat_decimal((-n) as nat)
    } else {
        nat_decimal(n as nat)
    }
}

/// Relies on `i64::from_str`: an optional sign and at least one decimal
/// digit, whose value fits in an `i64`; anything else is an error.
#[verifier::external_body]
fn parse_i64_str(s: &str) -> (r: Option<i64>)
    ensures
        match r {
            Some(v) => numeral_value(s@) == Some(v as int),
            None => numeral_value(s@) is None || !in_i64(numeral_value(s@)->0),
        },
{
    s.parse::<i64>().ok()
}

/// Relies on `i64`'s `to_string`: the decimal numeral of the value.
#[verifier::external_body]
fn i64_text(n: i64) -> (r: String)
    ensures
        r@ == decimal(n as int),
{
    n.to_string()
}

/// Relies on `usize`'s `to_string`: the decimal numeral of the value.
#[verifier::external_body]
fn usize_text(n: usize) -> (r: String)
    ensures
        r@ == decimal(n as int),
{
    n.to_string()
}

/// The number a stored value counts as: its numeral's value, or zero where
/// it is no numeral of an `i64`.
pub open spec fn counter_value(s: Option<Seq<char>>) -> int {
    match s {
        Some(t) => match numeral_value(t) {
            Some(v) => if in_i64(v) { v } else { 0 },
            None => 0,
        },
        None => 0,
    }
}

pub fn parse_counter(s: &str) -> (r: i64)
    ensures
        r as int == counter_value(Some(s@)),
{
    match parse_i64_str(s) {
        Some(v) => v,
        None => 0,
    }
}

pub fn format_i64(n: i64) -> (r: String)
    ensures
        r@ == decimal(n as int),
{
    i64_text(n)
}

pub fn format_usize(n: usize) -> (r: String)
    ensures
        r@ == decimal(n as int),
{
    usize_text(n)
}

proof fn lemma_nat_decimal(n: nat)
    ensures
        all_digits(nat_decimal(n)),
        digits_value(nat_decimal(n)) == n,
    decreases n,
{
    if n >= 10 {
        lemma_nat_decimal(n / 10);
        let s = nat_decimal(n);
        assert(s.drop_last() =~= nat_decimal(n / 10));
        assert((digit_char(n % 10) as int) - 48 == n % 10);
        assert(n == (n / 10) * 10 + n % 10) by (nonlinear_arith);
        assert(s.last() == digit_char(n % 10));
        assert(digits_value(s) == digits_value(s.drop_last()) * 10 + ((s.last() as int) - 48));
    } else {
        assert((digit_char(n) as int) - 48 == n);
        let s = nat_decimal(n);
        assert(s.drop_last() =~= Seq::<char>::empty());
        assert(s.last() == digit_char(n));
        assert(digits_value(s) == digits_value(s.drop_last()) * 10 + ((s.last() as int) - 48));
    }
}

/// Reading back the numeral of an integer gives the integer.
pub proof fn lemma_decimal_round_trip(n: int)
    ensures
        numeral_value(decimal(n)) == Some(n),
{
    if n < 0 {
        lemma_nat_decimal((-n) as nat);
        assert(decimal(n).drop_first() =~= nat_decimal((-n) as nat));
    } else {
        lemma_nat_decimal(n as nat);
        assert(is_digit(decimal(n)[0]));
    }
}

} // verus!
