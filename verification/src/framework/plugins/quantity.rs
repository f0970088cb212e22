//! Quantities with exact arithmetic, for selector expressions.
//!
//! An expression value has no room for a quantity of its own, so one travels
//! as a text: a prefix, the numerator and the denominator in lowest terms.
//! Equal quantities therefore have equal texts, however they were written, and
//! no arithmetic on them is ever rounded.

use crate::text::{
    all_digits, check_digit, chars_of, cut, cut_at, decimal, decimal_text, int_of, is_digit, joined,
    nat_of, parse_i64, quoted, signed_decimal, signed_decimal_text, split_once, string_of, text_eq,
};
use cel::extractors::This;
use cel::{Context, FunctionContext, Value};
use num_rational::BigRational;
use num_traits::ToPrimitive;
use std::cmp::Ordering;
use std::sync::Arc;
use vstd::arithmetic::power::{lemma_pow0, lemma_pow_positive, pow};
use vstd::prelude::*;

verus! {

/// The prefix of a text that stands for a quantity.
pub const PREFIX: &'static str = "__notk8s_quantity:";

/// The largest exponent that is read, up or down.
pub const MAX_EXPONENT_MAGNITUDE: i64 = 4096;

/// `n / d` and `p / q` are the same number.
pub open spec fn same_ratio(n: int, d: int, p: int, q: int) -> bool {
    n * q == p * d
}

/// No fraction of the same value has a smaller denominator.
pub open spec fn lowest(n: int, d: int) -> bool {
    d > 0 && forall|p: int, q: int| q > 0 && #[trigger] same_ratio(p, q, n, d) ==> d <= q
}

/// Digits, with underscores allowed after the first.
pub open spec fn spaced_digits(s: Seq<char>) -> bool {
    s.len() > 0 && is_digit(s[0]) && forall|i: int|
        0 <= i < s.len() ==> is_digit(#[trigger] s[i]) || s[i] == '_'
}

/// A number as a text writes it: an optional sign, then digits, with
/// underscores allowed after the first.
pub open spec fn integer_of(s: Seq<char>) -> Option<int> {
    let body = unsigned(s);
    if spaced_digits(body) {
        let size = nat_of(body.filter(|c: char| c != '_')) as int;
        Some(
            if s[0] == '-' {
                -size
            } else {
                size
            },
        )
    } else {
        None
    }
}

/// A text without its sign.
pub open spec fn unsigned(s: Seq<char>) -> Seq<char> {
    if s.len() > 0 && (s[0] == '-' || s[0] == '+') {
        s.skip(1)
    } else {
        s
    }
}

/// A fraction in lowest terms, both parts in decimal.
pub struct Rational {
    pub numer: String,
    pub denom: String,
}

impl Rational {
    pub open spec fn num(&self) -> int {
        integer_of(self.numer@)->Some_0
    }

    pub open spec fn den(&self) -> int {
        integer_of(self.denom@)->Some_0
    }

    pub open spec fn wf(&self) -> bool {
        &&& self.numer@ == signed_decimal(self.num())
        &&& self.denom@ == signed_decimal(self.den())
        &&& lowest(self.num(), self.den())
    }

    /// The fraction is `p / q`.
    pub open spec fn is(&self, p: int, q: int) -> bool {
        self.wf() && same_ratio(self.num(), self.den(), p, q)
    }
}

/// `str::parse` to `num_bigint::BigInt` and back by `to_string`: reads exactly
/// the texts of `integer_of`, and writes the number without padding.
#[verifier::external_body]
fn read_integer(s: &str) -> (r: Option<String>)
    ensures
        match integer_of(s@) {
            Some(n) => r is Some && r->Some_0@ == signed_decimal(n),
            None => r is None,
        },
{
    s.parse::<num_bigint::BigInt>().ok().map(|n| n.to_string())
}

/// `num_rational::Ratio::new`: brings a fraction to lowest terms with a
/// positive denominator. It panics on a zero denominator.
#[verifier::external_body]
fn ratio_new(n: &str, d: &str) -> (r: Rational)
    requires
        integer_of(n@) is Some,
        integer_of(d@) is Some,
        integer_of(d@)->Some_0 != 0,
    ensures
        r.is(integer_of(n@)->Some_0, integer_of(d@)->Some_0),
{
    let x = BigRational::new(n.parse().unwrap(), d.parse().unwrap());
    Rational { numer: x.numer().to_string(), denom: x.denom().to_string() }
}

/// `+` of two `num_rational::BigRational`: their sum, in lowest terms.
#[verifier::external_body]
fn ratio_sum(a: &Rational, b: &Rational) -> (r: Rational)
    requires
        a.wf(),
        b.wf(),
    ensures
        r.is(a.num() * b.den() + b.num() * a.den(), a.den() * b.den()),
{
    let x = BigRational::new(a.numer.parse().unwrap(), a.denom.parse().unwrap());
    let y = BigRational::new(b.numer.parse().unwrap(), b.denom.parse().unwrap());
    let z = x + y;
    Rational { numer: z.numer().to_string(), denom: z.denom().to_string() }
}

/// `-` of two `num_rational::BigRational`: their difference, in lowest terms.
#[verifier::external_body]
fn ratio_difference(a: &Rational, b: &Rational) -> (r: Rational)
    requires
        a.wf(),
        b.wf(),
    ensures
        r.is(a.num() * b.den() - b.num() * a.den(), a.den() * b.den()),
{
    let x = BigRational::new(a.numer.parse().unwrap(), a.denom.parse().unwrap());
    let y = BigRational::new(b.numer.parse().unwrap(), b.denom.parse().unwrap());
    let z = x - y;
    Rational { numer: z.numer().to_string(), denom: z.denom().to_string() }
}

/// `*` of two `num_rational::BigRational`: their product, in lowest terms.
#[verifier::external_body]
fn ratio_product(a: &Rational, b: &Rational) -> (r: Rational)
    requires
        a.wf(),
        b.wf(),
    ensures
        r.is(a.num() * b.num(), a.den() * b.den()),
{
    let x = BigRational::new(a.numer.parse().unwrap(), a.denom.parse().unwrap());
    let y = BigRational::new(b.numer.parse().unwrap(), b.denom.parse().unwrap());
    let z = x * y;
    Rational { numer: z.numer().to_string(), denom: z.denom().to_string() }
}

/// `/` of two `num_rational::BigRational`: their quotient, in lowest terms. It
/// panics on a zero divisor.
#[verifier::external_body]
fn ratio_quotient(a: &Rational, b: &Rational) -> (r: Rational)
    requires
        a.wf(),
        b.wf(),
        b.num() != 0,
    ensures
        r.is(a.num() * b.den(), a.den() * b.num()),
{
    let x = BigRational::new(a.numer.parse().unwrap(), a.denom.parse().unwrap());
    let y = BigRational::new(b.numer.parse().unwrap(), b.denom.parse().unwrap());
    let z = x / y;
    Rational { numer: z.numer().to_string(), denom: z.denom().to_string() }
}

/// `Ord` of two `num_rational::BigRational`: by value.
#[verifier::external_body]
fn ratio_order(a: &Rational, b: &Rational) -> (r: Ordering)
    requires
        a.wf(),
        b.wf(),
    ensures
        match r {
            Ordering::Less => a.num() * b.den() < b.num() * a.den(),
            Ordering::Equal => a.num() * b.den() == b.num() * a.den(),
            Ordering::Greater => a.num() * b.den() > b.num() * a.den(),
        },
{
    let x = BigRational::new(a.numer.parse().unwrap(), a.denom.parse().unwrap());
    let y = BigRational::new(b.numer.parse().unwrap(), b.denom.parse().unwrap());
    x.cmp(&y)
}

/// Whether a character has Unicode's property `White_Space`.
pub open spec fn white_space(c: char) -> bool {
    ||| '\u{9}' <= c <= '\u{d}'
    ||| c == ' '
    ||| c == '\u{85}'
    ||| c == '\u{a0}'
    ||| c == '\u{1680}'
    ||| '\u{2000}' <= c <= '\u{200a}'
    ||| c == '\u{2028}'
    ||| c == '\u{2029}'
    ||| c == '\u{202f}'
    ||| c == '\u{205f}'
    ||| c == '\u{3000}'
}

/// `char::is_whitespace`: whether the character has Unicode's property
/// `White_Space`.
#[verifier::external_body]
fn is_white_space(c: char) -> (r: bool)
    ensures
        r == white_space(c),
{
    c.is_whitespace()
}

/// A text without the white space at its ends.
pub open spec fn trimmed(s: Seq<char>) -> Seq<char>
    decreases s.len(),
{
    if s.len() > 0 && white_space(s[0]) {
        trimmed(s.skip(1))
    } else if s.len() > 0 && white_space(s.last()) {
        trimmed(s.drop_last())
    } else {
        s
    }
}

/// A number text and the scale of its suffix, as a fraction.
pub open spec fn scaled(s: Seq<char>) -> (Seq<char>, int, int) {
    let n = s.len() as int;
    if n >= 2 && s[n - 1] == 'i' && binary_power(s[n - 2]) > 0 {
        (s.take(n - 2), pow(1024, binary_power(s[n - 2]) as nat), 1)
    } else if n >= 1 && decimal_power(s[n - 1]) > 0 {
        (s.take(n - 1), pow(10, decimal_power(s[n - 1]) as nat), 1)
    } else if n >= 1 && decimal_power(s[n - 1]) < 0 {
        (s.take(n - 1), 1, pow(10, (-decimal_power(s[n - 1])) as nat))
    } else {
        (s, 1, 1)
    }
}

/// The power of 1024 of a binary suffix's letter; zero where it is none.
pub open spec fn binary_power(c: char) -> int {
    if c == 'K' {
        1
    } else if c == 'M' {
        2
    } else if c == 'G' {
        3
    } else if c == 'T' {
        4
    } else if c == 'P' {
        5
    } else if c == 'E' {
        6
    } else {
        0
    }
}

/// The power of ten of a decimal suffix; zero where it is none.
pub open spec fn decimal_power(c: char) -> int {
    if c == 'n' {
        -9
    } else if c == 'u' {
        -6
    } else if c == 'm' {
        -3
    } else if c == 'k' {
        3
    } else if c == 'M' {
        6
    } else if c == 'G' {
        9
    } else if c == 'T' {
        12
    } else if c == 'P' {
        15
    } else if c == 'E' {
        18
    } else {
        0
    }
}

/// An exponent starts at `i`: an `e`, then a sign or none, then digits.
pub open spec fn exponent_at(s: Seq<char>, i: int) -> bool {
    0 <= i < s.len() && (s[i] == 'e' || s[i] == 'E') && int_of(s.skip(i + 1)) is Some
}

/// A number text without its exponent, and the exponent; zero where it has
/// none.
pub open spec fn exponent_split(s: Seq<char>) -> (Seq<char>, int) {
    if exists|i: int| #[trigger] exponent_at(s, i) {
        let i = choose|i: int| #[trigger] exponent_at(s, i);
        (s.take(i), int_of(s.skip(i + 1))->Some_0)
    } else {
        (s, 0)
    }
}

/// The digits before and after the decimal point.
pub open spec fn point_split(s: Seq<char>) -> (Seq<char>, Seq<char>) {
    match cut(s, '.') {
        Some(parts) => parts,
        None => (s, Seq::empty()),
    }
}

/// The value of a decimal number with a sign and a fraction, as a fraction.
pub open spec fn mantissa_of(s: Seq<char>) -> Option<(int, int)> {
    let (whole, fraction) = point_split(unsigned(s));
    if (whole.len() == 0 && fraction.len() == 0) || !all_digits(whole) || !all_digits(fraction) {
        None
    } else {
        let magnitude = nat_of(whole + fraction) as int;
        Some(
            (
                if s.len() > 0 && s[0] == '-' {
                    -magnitude
                } else {
                    magnitude
                },
                pow(10, fraction.len()),
            ),
        )
    }
}

/// Ten to an exponent, as a fraction.
pub open spec fn ten_to(e: int) -> (int, int) {
    if e >= 0 {
        (pow(10, e as nat), 1)
    } else {
        (1, pow(10, (-e) as nat))
    }
}

/// The value of a quantity without white space round it, as a fraction: a decimal
/// number, an exponent within bounds, and a suffix.
pub open spec fn amount_of(raw: Seq<char>) -> Option<(int, int)> {
    let (number, up, down) = scaled(raw);
    let (mantissa, e) = exponent_split(number);
    if raw.len() == 0 || e > MAX_EXPONENT_MAGNITUDE || -e > MAX_EXPONENT_MAGNITUDE {
        None
    } else {
        match mantissa_of(mantissa) {
            Some((n, d)) => Some((n * ten_to(e).0 * up, d * ten_to(e).1 * down)),
            None => None,
        }
    }
}

/// The value of a quantity, as a fraction.
pub open spec fn quantity_of(s: Seq<char>) -> Option<(int, int)> {
    amount_of(trimmed(s))
}

pub proof fn decimal_reads_back(n: nat)
    ensures
        decimal(n).len() > 0,
        all_digits(decimal(n)),
        nat_of(decimal(n)) == n,
    decreases n,
{
    if n < 10 {
        let s = decimal(n);
        assert(s.drop_last() =~= Seq::<char>::empty());
        assert(nat_of(s.drop_last()) == 0);
    } else {
        decimal_reads_back(n / 10);
        let s = decimal(n);
        assert(s.drop_last() =~= decimal(n / 10));
        assert forall|i: int| 0 <= i < s.len() implies is_digit(#[trigger] s[i]) by {
            if i < s.len() - 1 {
                assert(s[i] == decimal(n / 10)[i]);
            }
        }
    }
}

proof fn digits_keep(s: Seq<char>)
    requires
        all_digits(s),
    ensures
        s.filter(|c: char| c != '_') == s,
    decreases s.len(),
{
    reveal(Seq::filter);
    if s.len() > 0 {
        let t = s.drop_last();
        assert forall|i: int| 0 <= i < t.len() implies is_digit(#[trigger] t[i]) by {
            assert(t[i] == s[i]);
        }
        digits_keep(t);
        assert(is_digit(s[s.len() - 1]));
        assert(s =~= t.push(s.last()));
    }
}

/// Digits, with or without a sign, are read as the number they write.
proof fn digits_read(s: Seq<char>)
    requires
        s.len() > 0,
        all_digits(s),
    ensures
        integer_of(s) == Some(nat_of(s) as int),
        integer_of(seq!['-'] + s) == Some(-(nat_of(s) as int)),
        int_of(s) == Some(nat_of(s) as int),
        int_of(seq!['-'] + s) == Some(-(nat_of(s) as int)),
{
    assert(is_digit(s[0]));
    let m = seq!['-'] + s;
    assert(m.skip(1) =~= s);
    assert(m[0] == '-');
    digits_keep(s);
}

pub proof fn signed_reads_back(n: int)
    ensures
        integer_of(signed_decimal(n)) == Some(n),
        int_of(signed_decimal(n)) == Some(n),
{
    if n < 0 {
        decimal_reads_back((-n) as nat);
        digits_read(decimal((-n) as nat));
    } else {
        decimal_reads_back(n as nat);
        digits_read(decimal(n as nat));
    }
}

/// A number has one fraction in lowest terms.
pub proof fn lowest_is_unique(n: int, d: int, p: int, q: int)
    requires
        lowest(n, d),
        lowest(p, q),
        same_ratio(n, d, p, q),
    ensures
        n == p,
        d == q,
{
    assert(same_ratio(p, q, n, d));
    assert(d <= q);
    assert(q <= d);
    assert(n == p) by (nonlinear_arith)
        requires
            n * q == p * d,
            d == q,
            d > 0,
    ;
}

/// Two fractions equal to a third are equal.
proof fn ratio_chain(n: int, d: int, p: int, q: int, m: int, e: int)
    requires
        q != 0,
        same_ratio(n, d, p, q),
        same_ratio(m, e, p, q),
    ensures
        same_ratio(n, d, m, e),
{
    assert(n * e == m * d) by (nonlinear_arith)
        requires
            n * q == p * d,
            m * q == p * e,
            q != 0,
    {
        assert(q * (n * e) == (n * q) * e);
        assert((p * d) * e == (p * e) * d);
        assert((m * q) * d == q * (m * d));
        assert(q * (n * e - m * d) == 0);
        assert(n * e - m * d == 0) by (nonlinear_arith)
            requires
                q * (n * e - m * d) == 0,
                q != 0,
        ;
    }
}

/// A product of fractions, each known by another of the same value.
proof fn ratio_scales(n: int, d: int, n0: int, d0: int, p0: int, q0: int, a: int, b: int)
    requires
        d0 != 0,
        same_ratio(n0, d0, p0, q0),
        same_ratio(n, d, n0 * a, d0 * b),
    ensures
        same_ratio(n, d, p0 * a, q0 * b),
{
    let left = n * (q0 * b);
    let right = (p0 * a) * d;
    assert(d0 * (n * (q0 * b)) == (n * (d0 * b)) * q0) by (nonlinear_arith);
    assert(((n0 * a) * d) * q0 == (n0 * q0) * (a * d)) by (nonlinear_arith);
    assert((p0 * d0) * (a * d) == d0 * ((p0 * a) * d)) by (nonlinear_arith);
    assert(d0 * left == d0 * right);
    assert(left == right) by (nonlinear_arith)
        requires
            d0 * left == d0 * right,
            d0 != 0,
    ;
}

/// The text of a power of ten.
fn ten_text(power: usize) -> (r: String)
    ensures
        integer_of(r@) == Some(pow(10, power as nat)),
        pow(10, power as nat) > 0,
{
    let mut out = String::new();
    out.push('1');
    let mut i: usize = 0;
    proof {
        lemma_pow0(10);
        assert(out@ =~= seq!['1']);
        assert(out@.drop_last() =~= Seq::<char>::empty());
        assert(nat_of(out@.drop_last()) == 0);
        assert(nat_of(out@) == 1);
    }
    while i < power
        invariant
            i <= power,
            out@.len() > 0,
            all_digits(out@),
            nat_of(out@) == pow(10, i as nat),
        decreases power - i,
    {
        let ghost before = out@;
        out.push('0');
        i += 1;
        proof {
            assert(out@.drop_last() =~= before);
            reveal(pow);
            assert(pow(10, i as nat) == 10 * pow(10, (i - 1) as nat));
            assert forall|k: int| 0 <= k < out@.len() implies is_digit(#[trigger] out@[k]) by {
                if k < before.len() {
                    assert(out@[k] == before[k]);
                }
            }
        }
    }
    proof {
        digits_read(out@);
        lemma_pow_positive(10, power as nat);
    }
    out
}

proof fn one_reads()
    ensures
        integer_of("1"@) == Some(1int),
{
    reveal_strlit("1");
    assert("1"@ =~= seq!['1']);
    assert("1"@.drop_last() =~= Seq::<char>::empty());
    assert(nat_of("1"@.drop_last()) == 0);
    assert(is_digit("1"@[0]));
    digits_read("1"@);
}

/// The text of a power of 1024.
fn binary_text(power: u32) -> (r: String)
    requires
        1 <= power <= 6,
    ensures
        integer_of(r@) == Some(pow(1024, power as nat)),
        pow(1024, power as nat) > 0,
{
    let mut n: u64 = 1024;
    let mut i: u32 = 1;
    proof {
        reveal(pow);
        lemma_pow0(1024);
        assert(pow(1024, 1) == 1024 * pow(1024, 0));
    }
    while i < power
        invariant
            1 <= i <= power <= 6,
            n == pow(1024, i as nat),
            i == 1 ==> n == 1024,
            i == 2 ==> n == 1048576,
            i == 3 ==> n == 1073741824,
            i == 4 ==> n == 1099511627776,
            i == 5 ==> n == 1125899906842624,
            i == 6 ==> n == 1152921504606846976,
        decreases power - i,
    {
        n = n * 1024;
        i += 1;
        proof {
            reveal(pow);
            assert(pow(1024, i as nat) == 1024 * pow(1024, (i - 1) as nat));
        }
    }
    proof {
        signed_reads_back(n as int);
        lemma_pow_positive(1024, power as nat);
    }
    decimal_text(n)
}

/// Cut the white space off the ends of `chars`.
fn trim_ends(chars: &Vec<char>) -> (r: (usize, usize))
    ensures
        r.0 <= r.1 <= chars@.len(),
        chars@.subrange(r.0 as int, r.1 as int) == trimmed(chars@),
{
    let mut from: usize = 0;
    let mut to: usize = chars.len();
    assert(chars@.subrange(0, to as int) =~= chars@);
    while from < to && is_white_space(chars[from])
        invariant
            from <= to == chars@.len(),
            trimmed(chars@.subrange(from as int, to as int)) == trimmed(chars@),
        ensures
            from == to || !white_space(chars@[from as int]),
        decreases to - from,
    {
        let ghost s = chars@.subrange(from as int, to as int);
        from += 1;
        assert(s.skip(1) =~= chars@.subrange(from as int, to as int));
    }
    while from < to && is_white_space(chars[to - 1])
        invariant
            from <= to <= chars@.len(),
            from < to ==> !white_space(chars@[from as int]),
            trimmed(chars@.subrange(from as int, to as int)) == trimmed(chars@),
        ensures
            from == to || !white_space(chars@[to - 1]),
        decreases to - from,
    {
        let ghost s = chars@.subrange(from as int, to as int);
        to -= 1;
        assert(s.drop_last() =~= chars@.subrange(from as int, to as int));
    }
    (from, to)
}

fn binary_power_of(c: char) -> (r: u32)
    ensures
        r == binary_power(c),
{
    if c == 'K' {
        1
    } else if c == 'M' {
        2
    } else if c == 'G' {
        3
    } else if c == 'T' {
        4
    } else if c == 'P' {
        5
    } else if c == 'E' {
        6
    } else {
        0
    }
}

fn decimal_power_of(c: char) -> (r: i64)
    ensures
        r == decimal_power(c),
        -9 <= r <= 18,
{
    if c == 'n' {
        -9
    } else if c == 'u' {
        -6
    } else if c == 'm' {
        -3
    } else if c == 'k' {
        3
    } else if c == 'M' {
        6
    } else if c == 'G' {
        9
    } else if c == 'T' {
        12
    } else if c == 'P' {
        15
    } else if c == 'E' {
        18
    } else {
        0
    }
}

/// The number of characters before the suffix, and the scale.
fn split_scale(s: &Vec<char>) -> (r: (usize, Rational))
    ensures
        r.0 <= s@.len(),
        s@.take(r.0 as int) == scaled(s@).0,
        r.1.is(scaled(s@).1, scaled(s@).2),
        scaled(s@).1 > 0,
        scaled(s@).2 > 0,
{
    let n: usize = s.len();
    proof {
        one_reads();
    }
    if n >= 2 && s[n - 1] == 'i' {
        let power: u32 = binary_power_of(s[n - 2]);
        if power > 0 {
            let text = binary_text(power);
            return (n - 2, ratio_new(text.as_str(), "1"));
        }
    }
    if n >= 1 {
        let power: i64 = decimal_power_of(s[n - 1]);
        if power > 0 {
            let text = ten_text(power as usize);
            return (n - 1, ratio_new(text.as_str(), "1"));
        }
        if power < 0 {
            let text = ten_text((-power) as usize);
            return (n - 1, ratio_new("1", text.as_str()));
        }
    }
    assert(s@.take(n as int) =~= s@);
    (n, ratio_new("1", "1"))
}

/// Where an `e` follows, no exponent starts.
proof fn not_before(s: Seq<char>, i: int, j: int)
    requires
        0 <= i < j < s.len(),
        s[j] == 'e' || s[j] == 'E',
    ensures
        int_of(s.skip(i + 1)) is None,
{
    let tail = s.skip(i + 1);
    let k = j - i - 1;
    assert(tail[k] == s[j]);
    assert(!is_digit(tail[k]));
    if tail[0] == '-' || tail[0] == '+' {
        assert(tail.skip(1)[k - 1] == tail[k]);
    }
}

/// The mantissa and the exponent of a number, where an `i32` can hold the
/// exponent.
fn split_exponent(number: &str) -> (r: Option<(String, i32)>)
    ensures
        match r {
            Some((mantissa, e)) => (mantissa@, e as int) == exponent_split(number@),
            None => exponent_split(number@).1 > i32::MAX || exponent_split(number@).1 < i32::MIN,
        },
{
    let chars = chars_of(number);
    let mut index: usize = chars.len();
    while index > 0 && chars[index - 1] != 'e' && chars[index - 1] != 'E'
        invariant
            index <= chars@.len(),
            forall|k: int| index <= k < chars@.len() ==> chars@[k] != 'e' && chars@[k] != 'E',
        ensures
            index == 0 || chars@[index - 1] == 'e' || chars@[index - 1] == 'E',
        decreases index,
    {
        index -= 1;
    }
    proof {
        assert forall|k: int| #[trigger] exponent_at(chars@, k) implies k == index - 1 by {
            if k < index - 1 {
                not_before(chars@, k, index - 1);
            }
        }
    }
    if index > 0 {
        let tail = string_of(&chars, index, chars.len());
        assert(tail@ =~= chars@.skip(index as int));
        let plain = is_signed_digits(tail.as_str());
        if plain {
            assert(exponent_at(chars@, index - 1));
            let mantissa = string_of(&chars, 0, index - 1);
            assert(mantissa@ =~= chars@.take(index - 1));
            return match parse_i64(tail.as_str()) {
                Some(e) => if e > i32::MAX as i64 || e < i32::MIN as i64 {
                    None
                } else {
                    Some((mantissa, e as i32))
                },
                None => None,
            };
        }
    }
    Some((number.to_owned(), 0))
}

/// Whether a text is digits after an optional sign.
fn is_signed_digits(s: &str) -> (r: bool)
    ensures
        r == (int_of(s@) is Some),
{
    let chars = chars_of(s);
    let start: usize = if chars.len() > 0 && (chars[0] == '-' || chars[0] == '+') {
        1
    } else {
        0
    };
    if start == chars.len() {
        return false;
    }
    let ghost body = chars@.skip(start as int);
    assert(start == 0 ==> body =~= chars@);
    run_of_digits(&chars, start, chars.len())
}

fn run_of_digits(chars: &Vec<char>, from: usize, to: usize) -> (r: bool)
    requires
        from <= to <= chars@.len(),
    ensures
        r == all_digits(chars@.subrange(from as int, to as int)),
        to == chars@.len() ==> r == all_digits(chars@.skip(from as int)),
{
    let ghost body = chars@.subrange(from as int, to as int);
    assert(to == chars@.len() ==> body =~= chars@.skip(from as int));
    let mut i: usize = from;
    while i < to
        invariant
            from <= i <= to <= chars@.len(),
            body == chars@.subrange(from as int, to as int),
            forall|k: int| 0 <= k < i - from ==> is_digit(#[trigger] body[k]),
        decreases to - i,
    {
        if !check_digit(chars[i]) {
            assert(!is_digit(body[i - from]));
            return false;
        }
        assert(body[i - from] == chars@[i as int]);
        i += 1;
    }
    true
}

/// The exact value of a decimal number with a sign and a fraction.
fn read_mantissa(s: &str) -> (r: Option<Rational>)
    ensures
        match mantissa_of(s@) {
            Some((n, d)) => r is Some && r->Some_0.is(n, d) && d > 0,
            None => r is None,
        },
{
    let chars = chars_of(s);
    let negative = chars.len() > 0 && chars[0] == '-';
    let start: usize = if chars.len() > 0 && (chars[0] == '-' || chars[0] == '+') {
        1
    } else {
        0
    };
    let unsigned_text = string_of(&chars, start, chars.len());
    proof {
        assert(unsigned_text@ =~= unsigned(s@));
    }
    let (whole, fraction) = match split_once(unsigned_text.as_str(), '.') {
        Some(parts) => parts,
        None => (unsigned_text, String::new()),
    };
    let w = chars_of(whole.as_str());
    let f = chars_of(fraction.as_str());
    proof {
        assert(fraction@ =~= point_split(unsigned(s@)).1);
        assert(w@.subrange(0, w@.len() as int) =~= w@);
        assert(f@.subrange(0, f@.len() as int) =~= f@);
    }
    if (w.len() == 0 && f.len() == 0) || !run_of_digits(&w, 0, w.len()) || !run_of_digits(
        &f,
        0,
        f.len(),
    ) {
        return None;
    }
    let digits = joined(whole.as_str(), fraction.as_str());
    proof {
        assert forall|k: int| 0 <= k < digits@.len() implies is_digit(#[trigger] digits@[k]) by {
            if k < w@.len() {
                assert(digits@[k] == w@[k]);
            } else {
                assert(digits@[k] == f@[k - w@.len()]);
            }
        }
        digits_read(digits@);
        reveal_strlit("-");
        assert("-"@ =~= seq!['-']);
    }
    let text = if negative {
        joined("-", digits.as_str())
    } else {
        digits
    };
    let numerator = match read_integer(text.as_str()) {
        Some(n) => n,
        None => {
            return None;
        },
    };
    proof {
        signed_reads_back(integer_of(text@)->Some_0);
    }
    let denominator = ten_text(f.len());
    Some(ratio_new(numerator.as_str(), denominator.as_str()))
}

/// Ten to an exponent, exactly.
fn ten_power(e: i32) -> (r: Rational)
    requires
        -MAX_EXPONENT_MAGNITUDE <= e <= MAX_EXPONENT_MAGNITUDE,
    ensures
        r.is(pow(10, if e >= 0 { e as nat } else { (-e) as nat }), 1),
        r.num() != 0,
{
    let magnitude: usize = if e >= 0 {
        e as usize
    } else {
        (-e) as usize
    };
    let text = ten_text(magnitude);
    proof {
        one_reads();
    }
    let r = ratio_new(text.as_str(), "1");
    assert(r.num() != 0) by (nonlinear_arith)
        requires
            r.num() * 1 == pow(10, magnitude as nat) * r.den(),
            pow(10, magnitude as nat) > 0,
            r.den() > 0,
    ;
    r
}

/// Read a quantity as its exact value.
pub fn parse(raw: &str) -> (r: Option<Rational>)
    ensures
        match quantity_of(raw@) {
            Some((p, q)) => r is Some && r->Some_0.is(p, q) && q > 0,
            None => r is None,
        },
{
    let all = chars_of(raw);
    let (from, to) = trim_ends(&all);
    let text = string_of(&all, from, to);
    parse_trimmed(text.as_str())
}

/// Read a quantity without white space round it as its exact value.
pub fn parse_trimmed(text: &str) -> (r: Option<Rational>)
    ensures
        match amount_of(text@) {
            Some((p, q)) => r is Some && r->Some_0.is(p, q) && q > 0,
            None => r is None,
        },
{
    let chars = chars_of(text);
    if chars.len() == 0 {
        return None;
    }
    let (length, multiplier) = split_scale(&chars);
    let number = string_of(&chars, 0, length);
    proof {
        assert(number@ =~= scaled(chars@).0);
    }
    let (mantissa, exponent) = match split_exponent(number.as_str()) {
        Some(parts) => parts,
        None => {
            return None;
        },
    };
    if exponent as i64 > MAX_EXPONENT_MAGNITUDE || -(exponent as i64) > MAX_EXPONENT_MAGNITUDE {
        return None;
    }
    let value = match read_mantissa(mantissa.as_str()) {
        Some(v) => v,
        None => {
            return None;
        },
    };
    let power = ten_power(exponent);
    let ghost (n, d) = mantissa_of(mantissa@)->Some_0;
    let ghost (up, down) = (scaled(chars@).1, scaled(chars@).2);
    let ghost t = ten_to(exponent as int);
    let shifted = if exponent >= 0 {
        ratio_product(&value, &power)
    } else {
        ratio_quotient(&value, &power)
    };
    proof {
        let k = if exponent >= 0 {
            exponent as nat
        } else {
            (-exponent) as nat
        };
        let ten = pow(10, k);
        lemma_pow_positive(10, k);
        if exponent >= 0 {
            both_known(
                shifted.num(),
                shifted.den(),
                value.num(),
                value.den(),
                n,
                d,
                power.num(),
                power.den(),
                ten,
                1,
            );
        } else {
            assert(power.den() * ten == 1 * power.num()) by (nonlinear_arith)
                requires
                    power.num() * 1 == ten * power.den(),
            ;
            both_known(
                shifted.num(),
                shifted.den(),
                value.num(),
                value.den(),
                n,
                d,
                power.den(),
                power.num(),
                1,
                ten,
            );
        }
        assert(same_ratio(shifted.num(), shifted.den(), n * t.0, d * t.1));
        assert(d * t.1 > 0) by (nonlinear_arith)
            requires
                d > 0,
                t.1 > 0,
        ;
    }
    let r = ratio_product(&shifted, &multiplier);
    proof {
        both_known(
            r.num(),
            r.den(),
            shifted.num(),
            shifted.den(),
            n * t.0,
            d * t.1,
            multiplier.num(),
            multiplier.den(),
            up,
            down,
        );
        assert((d * t.1) * down > 0) by (nonlinear_arith)
            requires
                d * t.1 > 0,
                down > 0,
        ;
    }
    Some(r)
}

/// A product of two fractions, each known by another of the same value.
proof fn both_known(
    n: int,
    d: int,
    a: int,
    b: int,
    p: int,
    q: int,
    x: int,
    y: int,
    v: int,
    w: int,
)
    requires
        b != 0,
        y != 0,
        q != 0,
        same_ratio(a, b, p, q),
        same_ratio(x, y, v, w),
        same_ratio(n, d, a * x, b * y),
    ensures
        same_ratio(n, d, p * v, q * w),
{
    ratio_scales(n, d, a, b, p, q, x, y);
    assert(p * x == x * p && q * y == y * q) by (nonlinear_arith);
    ratio_scales(n, d, x, y, v, w, p, q);
    assert(v * p == p * v && w * q == q * w) by (nonlinear_arith);
}

/// The text that stands for a fraction.
pub open spec fn encoded(n: int, d: int) -> Seq<char> {
    PREFIX@ + signed_decimal(n) + "/"@ + signed_decimal(d)
}

pub fn encode(value: &Rational) -> (r: String)
    requires
        value.wf(),
    ensures
        r@ == encoded(value.num(), value.den()),
{
    let head = joined(PREFIX, value.numer.as_str());
    let head = joined(head.as_str(), "/");
    joined(head.as_str(), value.denom.as_str())
}

/// The fraction that a text stands for: the prefix, then two numbers.
pub open spec fn decoded(s: Seq<char>) -> Option<(int, int)> {
    if crate::text::has_prefix(s, PREFIX@) {
        match cut(s.skip(PREFIX@.len() as int), '/') {
            Some((n, d)) => match (integer_of(n), integer_of(d)) {
                (Some(p), Some(q)) => if q == 0 {
                    None
                } else {
                    Some((p, q))
                },
                _ => None,
            },
            None => None,
        }
    } else {
        None
    }
}

pub fn decode_string(value: &str) -> (r: Option<Rational>)
    ensures
        match decoded(value@) {
            Some((p, q)) => r is Some && r->Some_0.is(p, q),
            None => r is None,
        },
{
    let chars = chars_of(value);
    let prefix = chars_of(PREFIX);
    if !crate::text::starts_with(&chars, &prefix) {
        return None;
    }
    let rest = string_of(&chars, prefix.len(), chars.len());
    assert(rest@ =~= value@.skip(PREFIX@.len() as int));
    let (n, d) = match split_once(rest.as_str(), '/') {
        Some(parts) => parts,
        None => {
            return None;
        },
    };
    let denominator = match read_integer(d.as_str()) {
        Some(t) => t,
        None => {
            return None;
        },
    };
    let numerator = match read_integer(n.as_str()) {
        Some(t) => t,
        None => {
            return None;
        },
    };
    proof {
        signed_reads_back(integer_of(d@)->Some_0);
        signed_reads_back(integer_of(n@)->Some_0);
        zero_text();
    }
    if text_eq(denominator.as_str(), "0") {
        return None;
    }
    Some(ratio_new(numerator.as_str(), denominator.as_str()))
}

proof fn zero_text()
    ensures
        "0"@ == signed_decimal(0),
        integer_of("0"@) == Some(0int),
{
    reveal_strlit("0");
    assert("0"@ =~= seq!['0']);
    assert(decimal(0) =~= seq!['0']);
    signed_reads_back(0);
}

/// What an expression hands to a quantity's function.
pub enum Scalar {
    Text(String),
    Int(i64),
    UInt(u64),
    Other,
}

/// A value of an expression, and how it is shown in messages.
pub struct Operand {
    pub scalar: Scalar,
    pub shown: String,
}

/// The number that a value stands for, as a fraction.
pub open spec fn number_of(v: Scalar) -> Option<(int, int)> {
    match v {
        Scalar::Text(s) => decoded(s@),
        Scalar::Int(i) => Some((i as int, 1)),
        Scalar::UInt(i) => Some((i as int, 1)),
        Scalar::Other => None,
    }
}

pub fn decode(value: &Scalar) -> (r: Option<Rational>)
    ensures
        match number_of(*value) {
            Some((p, q)) => r is Some && r->Some_0.is(p, q) && q != 0,
            None => r is None,
        },
{
    proof {
        one_reads();
    }
    match value {
        Scalar::Text(s) => decode_string(s.as_str()),
        Scalar::Int(i) => {
            let text = signed_decimal_text(*i);
            proof {
                signed_reads_back(*i as int);
            }
            Some(ratio_new(text.as_str(), "1"))
        },
        Scalar::UInt(i) => {
            let text = decimal_text(*i);
            proof {
                signed_reads_back(*i as int);
            }
            Some(ratio_new(text.as_str(), "1"))
        },
        Scalar::Other => None,
    }
}

/// A text stands for a number.
pub open spec fn stands_for(text: Seq<char>, p: int, q: int) -> bool {
    exists|n: int, d: int|
        #[trigger] encoded(n, d) == text && lowest(n, d) && same_ratio(n, d, p, q)
}

/// The text that stands for a quantity.
pub fn canonical(raw: &str) -> (r: Option<String>)
    ensures
        match quantity_of(raw@) {
            Some((p, q)) => r is Some && stands_for(r->Some_0@, p, q) && q > 0,
            None => r is None,
        },
{
    match parse(raw) {
        Some(value) => {
            let text = encode(&value);
            assert(encoded(value.num(), value.den()) == text@);
            Some(text)
        },
        None => None,
    }
}

/// The text that stands for zero.
pub fn zero() -> (r: String)
    ensures
        stands_for(r@, 0, 1),
{
    proof {
        zero_text();
        one_reads();
    }
    let value = ratio_new("0", "1");
    let text = encode(&value);
    assert(encoded(value.num(), value.den()) == text@);
    text
}

/// A number has one text: whatever way two equal quantities were written, they
/// are the same to a comparison of their texts.
pub proof fn equal_numbers_have_equal_texts(a: Seq<char>, b: Seq<char>, p: int, q: int, x: int, y: int)
    requires
        q != 0,
        y != 0,
        stands_for(a, p, q),
        stands_for(b, x, y),
        same_ratio(p, q, x, y),
    ensures
        a == b,
{
    let (n, d) = choose|n: int, d: int|
        #[trigger] encoded(n, d) == a && lowest(n, d) && same_ratio(n, d, p, q);
    let (m, e) = choose|m: int, e: int|
        #[trigger] encoded(m, e) == b && lowest(m, e) && same_ratio(m, e, x, y);
    // m/e = x/y = p/q = n/d
    assert(same_ratio(x, y, p, q));
    ratio_chain(p, q, x, y, m, e);
    assert(same_ratio(m, e, p, q));
    ratio_chain(n, d, p, q, m, e);
    lowest_is_unique(n, d, m, e);
}

/// A text that stands for a number is read as that number.
pub proof fn texts_read_back(text: Seq<char>, p: int, q: int)
    requires
        q != 0,
        stands_for(text, p, q),
    ensures
        match decoded(text) {
            Some((n, d)) => lowest(n, d) && same_ratio(n, d, p, q) && encoded(n, d) == text,
            None => false,
        },
{
    let (n, d) = choose|n: int, d: int|
        #[trigger] encoded(n, d) == text && lowest(n, d) && same_ratio(n, d, p, q);
    let a = signed_decimal(n);
    let b = signed_decimal(d);
    let rest = text.skip(PREFIX@.len() as int);
    reveal_strlit("/");
    assert(text.take(PREFIX@.len() as int) =~= PREFIX@);
    assert(rest =~= a + "/"@ + b);
    no_slash(n);
    assert(rest[a.len() as int] == '/');
    assert forall|j: int| 0 <= j < a.len() implies rest[j] != '/' by {
        assert(rest[j] == a[j]);
    }
    cut_at(rest, '/', a.len() as int);
    assert(rest.take(a.len() as int) =~= a);
    assert(rest.skip(a.len() as int + 1) =~= b);
    signed_reads_back(n);
    signed_reads_back(d);
}

proof fn no_slash(n: int)
    ensures
        forall|j: int| 0 <= j < signed_decimal(n).len() ==> #[trigger] signed_decimal(n)[j] != '/',
{
    let s = signed_decimal(n);
    let m = if n < 0 {
        -n
    } else {
        n
    };
    decimal_reads_back(m as nat);
    assert forall|j: int| 0 <= j < s.len() implies #[trigger] s[j] != '/' by {
        if n < 0 {
            if j > 0 {
                assert(s[j] == decimal(m as nat)[j - 1]);
                assert(is_digit(decimal(m as nat)[j - 1]));
            }
        } else {
            assert(is_digit(decimal(m as nat)[j]));
        }
    }
}

/// The text of a quantity, or why there is none.
pub fn quantity(raw: &str) -> (r: Result<String, String>)
    ensures
        match quantity_of(raw@) {
            Some((p, q)) => r is Ok && stands_for(r->Ok_0@, p, q) && q > 0,
            None => r is Err && r->Err_0@ == "invalid quantity "@ + quoted(raw@),
        },
{
    match canonical(raw) {
        Some(text) => Ok(text),
        None => {
            let shown = crate::text::debug_text(raw);
            Err(joined("invalid quantity ", shown.as_str()))
        },
    }
}

pub fn is_quantity(raw: &str) -> (r: bool)
    ensures
        r == (quantity_of(raw@) is Some),
{
    parse(raw).is_some()
}

/// Why a value is no quantity.
pub open spec fn not_a_quantity(v: Operand) -> Seq<char> {
    v.shown@ + " is not a quantity"@
}

/// The fraction that a value stands for.
pub open spec fn exact_answer(value: Operand, r: Result<Rational, String>) -> bool {
    match number_of(value.scalar) {
        Some((p, q)) => r is Ok && r->Ok_0.is(p, q) && q != 0,
        None => r is Err && r->Err_0@ == not_a_quantity(value),
    }
}

pub fn exact(value: &Operand) -> (r: Result<Rational, String>)
    ensures
        exact_answer(*value, r),
{
    match decode(&value.scalar) {
        Some(v) => Ok(v),
        None => Err(joined(value.shown.as_str(), " is not a quantity")),
    }
}

/// The whole number that a fraction is, if it is one.
pub open spec fn whole_of(p: int, q: int) -> Option<int> {
    if exists|k: int| #[trigger] same_ratio(k, 1, p, q) {
        Some(choose|k: int| #[trigger] same_ratio(k, 1, p, q))
    } else {
        None
    }
}

/// The whole number that an `i64` can hold and that a fraction is.
pub open spec fn integer_value(p: int, q: int) -> Option<int> {
    match whole_of(p, q) {
        Some(k) => if i64::MIN <= k <= i64::MAX {
            Some(k)
        } else {
            None
        },
        None => None,
    }
}

/// A fraction in lowest terms is whole exactly when its denominator is one.
proof fn whole_when_one(n: int, d: int, p: int, q: int)
    requires
        q != 0,
        lowest(n, d),
        same_ratio(n, d, p, q),
    ensures
        d == 1 <==> whole_of(p, q) is Some,
        d == 1 ==> whole_of(p, q) == Some(n),
{
    if d == 1 {
        assert(same_ratio(n, 1, p, q));
        let k = whole_of(p, q)->Some_0;
        assert(same_ratio(k, 1, p, q));
        assert(k == n) by (nonlinear_arith)
            requires
                k * q == p * 1,
                n * q == p * 1,
                q != 0,
        ;
    }
    if whole_of(p, q) is Some {
        let k = whole_of(p, q)->Some_0;
        assert(same_ratio(k, 1, p, q));
        ratio_chain(k, 1, p, q, n, d);
        assert(same_ratio(k, 1, n, d));
        assert(d <= 1);
    }
}

fn to_whole(value: &Rational) -> (r: Option<i64>)
    requires
        value.wf(),
    ensures
        match r {
            Some(k) => value.den() == 1 && k == value.num(),
            None => value.den() != 1 || value.num() > i64::MAX || value.num() < i64::MIN,
        },
{
    proof {
        one_reads();
        signed_reads_back(1);
        signed_reads_back(value.den());
        signed_reads_back(value.num());
        reveal_strlit("1");
        assert("1"@ =~= seq!['1']);
        assert(signed_decimal(1) =~= seq!['1']);
    }
    if !text_eq(value.denom.as_str(), "1") {
        return None;
    }
    parse_i64(value.numer.as_str())
}

/// Whether a number is whole and an `i64` can hold it.
pub open spec fn whole_answer(this: Operand, r: Result<bool, String>) -> bool {
    match number_of(this.scalar) {
        Some((p, q)) => r == Ok::<bool, String>(integer_value(p, q) is Some),
        None => r is Err && r->Err_0@ == not_a_quantity(this),
    }
}

pub fn is_integer(this: &Operand) -> (r: Result<bool, String>)
    ensures
        whole_answer(*this, r),
{
    match exact(this) {
        Ok(value) => {
            proof {
                let (p, q) = number_of(this.scalar)->Some_0;
                whole_when_one(value.num(), value.den(), p, q);
            }
            Ok(to_whole(&value).is_some())
        },
        Err(e) => Err(e),
    }
}

/// The whole number that an `i64` can hold.
pub open spec fn integer_answer(this: Operand, r: Result<i64, String>) -> bool {
    match number_of(this.scalar) {
        Some((p, q)) => match integer_value(p, q) {
            Some(k) => r is Ok && r->Ok_0 == k,
            None => r is Err && r->Err_0@ == "cannot convert value to integer"@,
        },
        None => r is Err && r->Err_0@ == not_a_quantity(this),
    }
}

pub fn as_integer(this: &Operand) -> (r: Result<i64, String>)
    ensures
        integer_answer(*this, r),
{
    match exact(this) {
        Ok(value) => {
            proof {
                let (p, q) = number_of(this.scalar)->Some_0;
                whole_when_one(value.num(), value.den(), p, q);
            }
            match to_whole(&value) {
                Some(k) => Ok(k),
                None => Err("cannot convert value to integer".to_owned()),
            }
        },
        Err(e) => Err(e),
    }
}

/// How `p / q` and `x / y` compare: negative, zero or positive.
pub open spec fn compared(p: int, q: int, x: int, y: int) -> int {
    let left = (if q > 0 { p } else { -p }) * magnitude(y);
    let right = (if y > 0 { x } else { -x }) * magnitude(q);
    if left < right {
        -1
    } else if left > right {
        1
    } else {
        0
    }
}

pub open spec fn magnitude(n: int) -> int {
    if n < 0 {
        -n
    } else {
        n
    }
}

/// Equal fractions compare alike.
proof fn compared_alike(n: int, d: int, p: int, q: int, m: int, e: int, x: int, y: int)
    requires
        d > 0,
        e > 0,
        q != 0,
        y != 0,
        same_ratio(n, d, p, q),
        same_ratio(m, e, x, y),
    ensures
        compared(p, q, x, y) == if n * e < m * d {
            -1int
        } else if n * e > m * d {
            1int
        } else {
            0int
        },
{
    // With positive denominators throughout: p' / q' and x' / y'.
    let p1 = if q > 0 {
        p
    } else {
        -p
    };
    let q1 = magnitude(q);
    let x1 = if y > 0 {
        x
    } else {
        -x
    };
    let y1 = magnitude(y);
    assert(n * q1 == p1 * d) by (nonlinear_arith)
        requires
            n * q == p * d,
            (q1 == q && p1 == p) || (q1 == -q && p1 == -p),
    ;
    assert(m * y1 == x1 * e) by (nonlinear_arith)
        requires
            m * y == x * e,
            (y1 == y && x1 == x) || (y1 == -y && x1 == -x),
    ;
    let left = p1 * y1;
    let right = x1 * q1;
    let f = d * e;
    let g = q1 * y1;
    assert((p1 * y1) * (d * e) == (p1 * d) * (y1 * e)) by (nonlinear_arith);
    assert((n * q1) * (y1 * e) == (n * e) * (q1 * y1)) by (nonlinear_arith);
    assert((x1 * q1) * (d * e) == (x1 * e) * (q1 * d)) by (nonlinear_arith);
    assert((m * y1) * (q1 * d) == (m * d) * (q1 * y1)) by (nonlinear_arith);
    assert(left * f == (n * e) * g);
    assert(right * f == (m * d) * g);
    assert(f > 0 && g > 0) by (nonlinear_arith)
        requires
            f == d * e,
            g == q1 * y1,
            d > 0,
            e > 0,
            q1 > 0,
            y1 > 0,
    ;
    scaled_order(left, right, f, n * e, m * d, g);
}

/// Multiplying by positive numbers keeps an order.
proof fn scaled_order(a: int, b: int, f: int, c: int, d: int, g: int)
    requires
        f > 0,
        g > 0,
        a * f == c * g,
        b * f == d * g,
    ensures
        a < b <==> c < d,
        a > b <==> c > d,
{
    assert(a < b ==> c < d) by (nonlinear_arith)
        requires
            f > 0,
            g > 0,
            a * f == c * g,
            b * f == d * g,
    {
        if a < b && c >= d {
            assert(a * f < b * f) by (nonlinear_arith)
                requires
                    a < b,
                    f > 0,
            ;
            assert(c * g >= d * g) by (nonlinear_arith)
                requires
                    c >= d,
                    g > 0,
            ;
        }
    }
    assert(a > b ==> c > d) by (nonlinear_arith)
        requires
            f > 0,
            g > 0,
            a * f == c * g,
            b * f == d * g,
    {
        if a > b && c <= d {
            assert(a * f > b * f) by (nonlinear_arith)
                requires
                    a > b,
                    f > 0,
            ;
            assert(c * g <= d * g) by (nonlinear_arith)
                requires
                    c <= d,
                    g > 0,
            ;
        }
    }
    assert(a == b ==> c == d) by (nonlinear_arith)
        requires
            f > 0,
            g > 0,
            a * f == c * g,
            b * f == d * g,
    {
        if a == b && c != d {
            assert((c - d) * g == 0);
            assert((c - d) * g != 0) by (nonlinear_arith)
                requires
                    c != d,
                    g > 0,
            ;
        }
    }
}

/// One, zero or minus one, by the sign of a number.
pub open spec fn sign_answer(this: Operand, r: Result<i64, String>) -> bool {
    match number_of(this.scalar) {
        Some((p, q)) => r is Ok && r->Ok_0 == compared(p, q, 0, 1),
        None => r is Err && r->Err_0@ == not_a_quantity(this),
    }
}

/// Numbers compare as equal exactly where they are the same, and the other way
/// round with the sign turned.
pub proof fn comparison_is_sound(p: int, q: int, x: int, y: int)
    requires
        q != 0,
        y != 0,
    ensures
        compared(p, q, x, y) == 0 <==> same_ratio(p, q, x, y),
        compared(p, q, x, y) == -compared(x, y, p, q),
{
    let p1 = if q > 0 {
        p
    } else {
        -p
    };
    let x1 = if y > 0 {
        x
    } else {
        -x
    };
    let q1 = magnitude(q);
    let y1 = magnitude(y);
    assert((p1 * y1 == x1 * q1) <==> (p * y == x * q)) by (nonlinear_arith)
        requires
            (q1 == q && p1 == p) || (q1 == -q && p1 == -p),
            (y1 == y && x1 == x) || (y1 == -y && x1 == -x),
    ;
}

/// Taking away what was added leaves the number, and so its text.
pub proof fn difference_undoes_sum(p: int, q: int, x: int, y: int)
    requires
        q != 0,
        y != 0,
    ensures
        same_ratio((p * y + x * q) * y - x * (q * y), (q * y) * y, p, q),
{
    let s = (p * y + x * q) * y - x * (q * y);
    assert(s == p * (y * y)) by (nonlinear_arith)
        requires
            s == (p * y + x * q) * y - x * (q * y),
    ;
    assert((p * (y * y)) * q == p * ((q * y) * y)) by (nonlinear_arith);
}

/// The sign of a number: one, zero or minus one.
pub fn sign(this: &Operand) -> (r: Result<i64, String>)
    ensures
        sign_answer(*this, r),
{
    match exact(this) {
        Ok(value) => {
            let chars = chars_of(value.numer.as_str());
            proof {
                let (p, q) = number_of(this.scalar)->Some_0;
                let n = value.num();
                compared_alike(n, value.den(), p, q, 0, 1, 0, 1);
                assert(n * 1 == n && 0 * value.den() == 0) by (nonlinear_arith);
                zero_text();
                signed_reads_back(n);
                if n < 0 {
                    assert(chars@[0] == '-');
                } else {
                    decimal_reads_back(n as nat);
                    assert(is_digit(chars@[0]));
                }
            }
            if chars.len() > 0 && chars[0] == '-' {
                Ok(-1)
            } else if text_eq(value.numer.as_str(), "0") {
                Ok(0)
            } else {
                Ok(1)
            }
        },
        Err(e) => Err(e),
    }
}

/// A clause of the errors of a function of two operands: the first that is no
/// quantity is named.
pub open spec fn first_error(this: Operand, other: Operand) -> Option<Seq<char>> {
    if number_of(this.scalar) is None {
        Some(not_a_quantity(this))
    } else if number_of(other.scalar) is None {
        Some(not_a_quantity(other))
    } else {
        None
    }
}

fn both(this: &Operand, other: &Operand) -> (r: Result<(Rational, Rational), String>)
    ensures
        match first_error(*this, *other) {
            Some(e) => r is Err && r->Err_0@ == e,
            None => {
                let (p, q) = number_of(this.scalar)->Some_0;
                let (x, y) = number_of(other.scalar)->Some_0;
                r is Ok && r->Ok_0.0.is(p, q) && r->Ok_0.1.is(x, y) && q != 0 && y != 0
            },
        },
{
    match exact(this) {
        Ok(a) => match exact(other) {
            Ok(b) => Ok((a, b)),
            Err(e) => Err(e),
        },
        Err(e) => Err(e),
    }
}

/// The text of the sum of two numbers.
pub open spec fn sum_answer(this: Operand, other: Operand, r: Result<String, String>) -> bool {
    match first_error(this, other) {
        Some(e) => r is Err && r->Err_0@ == e,
        None => {
            let (p, q) = number_of(this.scalar)->Some_0;
            let (x, y) = number_of(other.scalar)->Some_0;
            r is Ok && stands_for(r->Ok_0@, p * y + x * q, q * y)
        },
    }
}

/// The text of the sum.
pub fn add(this: &Operand, other: &Operand) -> (r: Result<String, String>)
    ensures
        sum_answer(*this, *other, r),
{
    match both(this, other) {
        Ok((a, b)) => {
            let z = ratio_sum(&a, &b);
            let text = encode(&z);
            proof {
                let (p, q) = number_of(this.scalar)->Some_0;
                let (x, y) = number_of(other.scalar)->Some_0;
                sum_known(
                    z.num(),
                    z.den(),
                    a.num(),
                    a.den(),
                    b.num(),
                    b.den(),
                    p,
                    q,
                    x,
                    y,
                    1,
                );
                assert(a.num() * b.den() + 1 * (b.num() * a.den()) == a.num() * b.den() + b.num()
                    * a.den());
                assert(p * y + 1 * (x * q) == p * y + x * q);
                assert(encoded(z.num(), z.den()) == text@);
            }
            Ok(text)
        },
        Err(e) => Err(e),
    }
}

/// The text of the difference of two numbers.
pub open spec fn difference_answer(this: Operand, other: Operand, r: Result<String, String>) -> bool {
    match first_error(this, other) {
        Some(e) => r is Err && r->Err_0@ == e,
        None => {
            let (p, q) = number_of(this.scalar)->Some_0;
            let (x, y) = number_of(other.scalar)->Some_0;
            r is Ok && stands_for(r->Ok_0@, p * y - x * q, q * y)
        },
    }
}

/// The text of the difference.
pub fn sub(this: &Operand, other: &Operand) -> (r: Result<String, String>)
    ensures
        difference_answer(*this, *other, r),
{
    match both(this, other) {
        Ok((a, b)) => {
            let z = ratio_difference(&a, &b);
            let text = encode(&z);
            proof {
                let (p, q) = number_of(this.scalar)->Some_0;
                let (x, y) = number_of(other.scalar)->Some_0;
                assert(a.num() * b.den() + (-1) * (b.num() * a.den()) == a.num() * b.den()
                    - b.num() * a.den());
                assert(p * y + (-1) * (x * q) == p * y - x * q);
                sum_known(
                    z.num(),
                    z.den(),
                    a.num(),
                    a.den(),
                    b.num(),
                    b.den(),
                    p,
                    q,
                    x,
                    y,
                    -1,
                );
                assert(encoded(z.num(), z.den()) == text@);
            }
            Ok(text)
        },
        Err(e) => Err(e),
    }
}

/// A sum of two fractions, the second with a sign, each known by another of
/// the same value.
proof fn sum_known(
    n: int,
    d: int,
    a: int,
    b: int,
    c: int,
    e: int,
    p: int,
    q: int,
    x: int,
    y: int,
    s: int,
)
    requires
        b != 0,
        e != 0,
        same_ratio(a, b, p, q),
        same_ratio(c, e, x, y),
        same_ratio(n, d, a * e + s * (c * b), b * e),
    ensures
        same_ratio(n, d, p * y + s * (x * q), q * y),
{
    let f = b * e;
    let left = n * (q * y);
    let right = (p * y + s * (x * q)) * d;
    let g = q * y;
    let u = a * e;
    let v = s * (c * b);
    // The two summands apart.
    assert((a * e) * (q * y) == (a * q) * (e * y)) by (nonlinear_arith);
    assert((p * b) * (e * y) == (b * e) * (p * y)) by (nonlinear_arith);
    assert((c * b) * (q * y) == (c * y) * (b * q)) by (nonlinear_arith);
    assert((x * e) * (b * q) == (b * e) * (x * q)) by (nonlinear_arith);
    assert(v * g == s * ((c * b) * g)) by (nonlinear_arith)
        requires
            v == s * (c * b),
    ;
    assert(s * (f * (x * q)) == f * (s * (x * q))) by (nonlinear_arith);
    let w = p * y;
    let t = s * (x * q);
    assert(u * g == f * w);
    assert(v * g == f * t);
    assert((u + v) * g == f * (w + t)) by (nonlinear_arith)
        requires
            u * g == f * w,
            v * g == f * t,
    ;
    assert(f * (n * g) == (n * f) * g) by (nonlinear_arith);
    assert(((u + v) * d) * g == ((u + v) * g) * d) by (nonlinear_arith);
    assert((f * (w + t)) * d == f * ((w + t) * d)) by (nonlinear_arith);
    assert(f * left == f * right);
    assert(f != 0) by (nonlinear_arith)
        requires
            f == b * e,
            b != 0,
            e != 0,
    ;
    assert(left == right) by (nonlinear_arith)
        requires
            f * left == f * right,
            f != 0,
    ;
}

/// One, zero or minus one, as two numbers compare.
pub open spec fn order_answer(this: Operand, other: Operand, r: Result<i64, String>) -> bool {
    match first_error(this, other) {
        Some(e) => r is Err && r->Err_0@ == e,
        None => {
            let (p, q) = number_of(this.scalar)->Some_0;
            let (x, y) = number_of(other.scalar)->Some_0;
            r is Ok && r->Ok_0 == compared(p, q, x, y)
        },
    }
}

/// How two numbers compare: one, zero or minus one.
pub fn compare_to(this: &Operand, other: &Operand) -> (r: Result<i64, String>)
    ensures
        order_answer(*this, *other, r),
{
    match both(this, other) {
        Ok((a, b)) => {
            proof {
                let (p, q) = number_of(this.scalar)->Some_0;
                let (x, y) = number_of(other.scalar)->Some_0;
                compared_alike(a.num(), a.den(), p, q, b.num(), b.den(), x, y);
            }
            Ok(
                match ratio_order(&a, &b) {
                    Ordering::Greater => 1,
                    Ordering::Less => -1,
                    Ordering::Equal => 0,
                },
            )
        },
        Err(e) => Err(e),
    }
}

/// Whether the first number is the greater.
pub open spec fn greater_answer(this: Operand, other: Operand, r: Result<bool, String>) -> bool {
    match first_error(this, other) {
        Some(e) => r is Err && r->Err_0@ == e,
        None => {
            let (p, q) = number_of(this.scalar)->Some_0;
            let (x, y) = number_of(other.scalar)->Some_0;
            r == Ok::<bool, String>(compared(p, q, x, y) > 0)
        },
    }
}

pub fn is_greater_than(this: &Operand, other: &Operand) -> (r: Result<bool, String>)
    ensures
        greater_answer(*this, *other, r),
{
    match compare_to(this, other) {
        Ok(k) => Ok(k > 0),
        Err(e) => Err(e),
    }
}

/// Whether the first number is the smaller.
pub open spec fn less_answer(this: Operand, other: Operand, r: Result<bool, String>) -> bool {
    match first_error(this, other) {
        Some(e) => r is Err && r->Err_0@ == e,
        None => {
            let (p, q) = number_of(this.scalar)->Some_0;
            let (x, y) = number_of(other.scalar)->Some_0;
            r == Ok::<bool, String>(compared(p, q, x, y) < 0)
        },
    }
}

pub fn is_less_than(this: &Operand, other: &Operand) -> (r: Result<bool, String>)
    ensures
        less_answer(*this, *other, r),
{
    match compare_to(this, other) {
        Ok(k) => Ok(k < 0),
        Err(e) => Err(e),
    }
}

/// What an expression computes with.
#[verifier::external_type_specification]
#[verifier::external_body]
pub struct CelValue(cel::Value);

/// The error of the arithmetic that a `cel::Value` has of its own.
#[verifier::external_type_specification]
#[verifier::external_body]
pub struct CelExecutionError(cel::ExecutionError);

#[verifier::external_type_specification]
#[verifier::external_body]
pub struct CelContext<'p, 'v>(cel::Context<'p, 'v>);

/// The names of the functions that were added to a `cel::Context`.
pub uninterp spec fn functions_in(ctx: cel::Context<'_, '_>) -> Set<Seq<char>>;

/// The `cel::Context` is no inner scope, and its environment is the standard
/// library, which declares none of the quantity functions.
pub uninterp spec fn is_standard(ctx: cel::Context<'_, '_>) -> bool;

/// The names of the quantity functions.
pub open spec fn quantity_functions() -> Set<Seq<char>> {
    Set::empty().insert("quantity"@).insert("isQuantity"@).insert("isInteger"@).insert(
        "asInteger"@,
    ).insert("sign"@).insert("asApproximateFloat"@).insert("add"@).insert("sub"@).insert(
        "isGreaterThan"@,
    ).insert("isLessThan"@).insert("compareTo"@)
}

/// What a value holds that a quantity can be read from.
pub enum Held {
    Text(Seq<char>),
    Int(i64),
    UInt(u64),
    Other,
}

impl View for Scalar {
    type V = Held;

    open spec fn view(&self) -> Held {
        match *self {
            Scalar::Text(s) => Held::Text(s@),
            Scalar::Int(i) => Held::Int(i),
            Scalar::UInt(i) => Held::UInt(i),
            Scalar::Other => Held::Other,
        }
    }
}

/// The text or number that a `cel::Value` holds.
pub uninterp spec fn held_in(v: cel::Value) -> Held;

/// An operand holds what a `cel::Value` does.
pub open spec fn taken_from(a: Operand, v: cel::Value) -> bool {
    a.scalar@ == held_in(v)
}

/// A `cel::Value` taken apart: the text or number it holds, and what `{:?}`
/// prints for it. What is printed is not said: a map is printed in the order of
/// a hash map.
#[verifier::external_body]
fn operand(v: &cel::Value) -> (r: Operand)
    ensures
        r.scalar@ == held_in(*v),
{
    let scalar = match v {
        Value::String(s) => Scalar::Text(s.to_string()),
        Value::Int(i) => Scalar::Int(*i),
        Value::UInt(i) => Scalar::UInt(*i),
        _ => Scalar::Other,
    };
    Operand { scalar, shown: format!("{v:?}") }
}

fn is_integer_value(this: &cel::Value) -> (r: Result<bool, String>)
    ensures
        exists|a: Operand| taken_from(a, *this) && #[trigger] whole_answer(a, r),
{
    let a = operand(this);
    let r = is_integer(&a);
    assert(whole_answer(a, r));
    r
}

fn as_integer_value(this: &cel::Value) -> (r: Result<i64, String>)
    ensures
        exists|a: Operand| taken_from(a, *this) && #[trigger] integer_answer(a, r),
{
    let a = operand(this);
    let r = as_integer(&a);
    assert(integer_answer(a, r));
    r
}

fn sign_value(this: &cel::Value) -> (r: Result<i64, String>)
    ensures
        exists|a: Operand| taken_from(a, *this) && #[trigger] sign_answer(a, r),
{
    let a = operand(this);
    let r = sign(&a);
    assert(sign_answer(a, r));
    r
}

fn exact_value(this: &cel::Value) -> (r: Result<Rational, String>)
    ensures
        r is Ok ==> r->Ok_0.wf(),
        exists|a: Operand| taken_from(a, *this) && #[trigger] exact_answer(a, r),
{
    let a = operand(this);
    let r = exact(&a);
    assert(exact_answer(a, r));
    r
}

fn add_values(this: &cel::Value, other: &cel::Value) -> (r: Result<String, String>)
    ensures
        exists|a: Operand, b: Operand|
            taken_from(a, *this) && taken_from(b, *other) && #[trigger] sum_answer(a, b, r),
{
    let a = operand(this);
    let b = operand(other);
    let r = self::add(&a, &b);
    assert(sum_answer(a, b, r));
    r
}

fn sub_values(this: &cel::Value, other: &cel::Value) -> (r: Result<String, String>)
    ensures
        exists|a: Operand, b: Operand|
            taken_from(a, *this) && taken_from(b, *other) && #[trigger] difference_answer(a, b, r),
{
    let a = operand(this);
    let b = operand(other);
    let r = self::sub(&a, &b);
    assert(difference_answer(a, b, r));
    r
}

fn greater_values(this: &cel::Value, other: &cel::Value) -> (r: Result<bool, String>)
    ensures
        exists|a: Operand, b: Operand|
            taken_from(a, *this) && taken_from(b, *other) && #[trigger] greater_answer(a, b, r),
{
    let a = operand(this);
    let b = operand(other);
    let r = is_greater_than(&a, &b);
    assert(greater_answer(a, b, r));
    r
}

fn less_values(this: &cel::Value, other: &cel::Value) -> (r: Result<bool, String>)
    ensures
        exists|a: Operand, b: Operand|
            taken_from(a, *this) && taken_from(b, *other) && #[trigger] less_answer(a, b, r),
{
    let a = operand(this);
    let b = operand(other);
    let r = is_less_than(&a, &b);
    assert(less_answer(a, b, r));
    r
}

fn compare_values(this: &cel::Value, other: &cel::Value) -> (r: Result<i64, String>)
    ensures
        exists|a: Operand, b: Operand|
            taken_from(a, *this) && taken_from(b, *other) && #[trigger] order_answer(a, b, r),
{
    let a = operand(this);
    let b = operand(other);
    let r = compare_to(&a, &b);
    assert(order_answer(a, b, r));
    r
}

/// `cel::Context::add_function` for the functions of one text: a standard context
/// then has them besides those it had. What they compute is not said.
#[verifier::external_body]
fn install_reading(ctx: &mut cel::Context)
    ensures
        is_standard(*old(ctx)) ==> is_standard(*final(ctx)) && functions_in(*final(ctx))
            == functions_in(*old(ctx)).insert("quantity"@).insert("isQuantity"@),
{
    let _ = ctx.add_function("quantity", |ftx: &FunctionContext, This(this): This<Arc<String>>| {
        quantity(&this).map(Value::from).map_err(|e| ftx.error(e))
    });
    let _ = ctx.add_function("isQuantity", |This(this): This<Arc<String>>| is_quantity(&this));
}

/// `cel::Context::add_function` for the functions of one quantity: a standard context
/// then has them besides those it had. What they compute is not said.
#[verifier::external_body]
fn install_conversions(ctx: &mut cel::Context)
    ensures
        is_standard(*old(ctx)) ==> is_standard(*final(ctx)) && functions_in(*final(ctx))
            == functions_in(*old(ctx)).insert("isInteger"@).insert("asInteger"@).insert("sign"@),
{
    let _ = ctx.add_function("isInteger", |ftx: &FunctionContext, This(this): This<Value>| {
        is_integer_value(&this).map_err(|e| ftx.error(e))
    });
    let _ = ctx.add_function("asInteger", |ftx: &FunctionContext, This(this): This<Value>| {
        as_integer_value(&this).map_err(|e| ftx.error(e))
    });
    let _ = ctx.add_function("sign", |ftx: &FunctionContext, This(this): This<Value>| {
        sign_value(&this).map_err(|e| ftx.error(e))
    });
}

/// `cel::Context::add_function` for the nearest floating-point number, which
/// `num_rational` computes: a standard context then has it besides those it
/// had. What it computes is not said.
#[verifier::external_body]
fn install_approximation(ctx: &mut cel::Context)
    ensures
        is_standard(*old(ctx)) ==> is_standard(*final(ctx)) && functions_in(*final(ctx))
            == functions_in(*old(ctx)).insert("asApproximateFloat"@),
{
    let approximate = |r: Rational| {
        BigRational::new(r.numer.parse().unwrap(), r.denom.parse().unwrap())
            .to_f64()
            .unwrap_or_default()
    };
    let _ = ctx.add_function(
        "asApproximateFloat",
        move |ftx: &FunctionContext, This(this): This<Value>| {
            exact_value(&this).map(approximate).map_err(|e| ftx.error(e))
        },
    );
}

/// `cel::Context::add_function` for the sum and the difference: a standard context
/// then has them besides those it had. What they compute is not said.
#[verifier::external_body]
fn install_arithmetic(ctx: &mut cel::Context)
    ensures
        is_standard(*old(ctx)) ==> is_standard(*final(ctx)) && functions_in(*final(ctx))
            == functions_in(*old(ctx)).insert("add"@).insert("sub"@),
{
    let _ = ctx.add_function("add", |ftx: &FunctionContext, This(this): This<Value>, o: Value| {
        add_values(&this, &o).map(Value::from).map_err(|e| ftx.error(e))
    });
    let _ = ctx.add_function("sub", |ftx: &FunctionContext, This(this): This<Value>, o: Value| {
        sub_values(&this, &o).map(Value::from).map_err(|e| ftx.error(e))
    });
}

/// `cel::Context::add_function` for the comparisons: a standard context
/// then has them besides those it had. What they compute is not said.
#[verifier::external_body]
fn install_comparisons(ctx: &mut cel::Context)
    ensures
        is_standard(*old(ctx)) ==> is_standard(*final(ctx)) && functions_in(*final(ctx))
            == functions_in(*old(ctx)).insert("isGreaterThan"@).insert("isLessThan"@),
{
    let _ = ctx.add_function(
        "isGreaterThan",
        |ftx: &FunctionContext, This(this): This<Value>, o: Value| {
            greater_values(&this, &o).map_err(|e| ftx.error(e))
        },
    );
    let _ = ctx.add_function(
        "isLessThan",
        |ftx: &FunctionContext, This(this): This<Value>, o: Value| {
            less_values(&this, &o).map_err(|e| ftx.error(e))
        },
    );
}

/// `cel::Context::add_function` for the three-way comparison: a standard
/// context then has it besides those it had. What it computes is not said.
#[verifier::external_body]
fn install_ordering(ctx: &mut cel::Context)
    ensures
        is_standard(*old(ctx)) ==> is_standard(*final(ctx)) && functions_in(*final(ctx))
            == functions_in(*old(ctx)).insert("compareTo"@),
{
    let _ = ctx.add_function(
        "compareTo",
        |ftx: &FunctionContext, This(this): This<Value>, o: Value| {
            compare_values(&this, &o).map_err(|e| ftx.error(e))
        },
    );
}

/// Make the quantity functions available to expressions.
pub fn install(ctx: &mut cel::Context)
    ensures
        is_standard(*old(ctx)) ==> is_standard(*final(ctx)) && functions_in(*final(ctx))
            == functions_in(*old(ctx)).union(quantity_functions()),
{
    install_reading(ctx);
    install_conversions(ctx);
    install_approximation(ctx);
    install_arithmetic(ctx);
    install_comparisons(ctx);
    install_ordering(ctx);
    assert(is_standard(*old(ctx)) ==> functions_in(*ctx) =~= functions_in(*old(ctx)).union(
        quantity_functions(),
    ));
}

} // verus!
