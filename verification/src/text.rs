//! Strings as sequences of characters: comparison, ordering, splitting,
//! decimal rendering, and sorted lists without repetition.

use vstd::prelude::*;
use vstd::string::*;

verus! {

/// `str == str`: two strings are equal exactly when they hold the same
/// characters.
#[verifier::external_body]
pub(crate) fn text_eq(a: &str, b: &str) -> (r: bool)
    ensures
        r == (a@ == b@),
{
    a == b
}

/// `String::push` appends one character.
pub assume_specification[ String::push ](s: &mut String, c: char)
    ensures
        final(s)@ == old(s)@.push(c),
;

/// What `{:?}` prints for a string: the text in double quotes, with the
/// characters that the standard library escapes written as escapes.
pub uninterp spec fn quoted(s: Seq<char>) -> Seq<char>;

/// `format!("{:?}", s)` for a string.
#[verifier::external_body]
pub(crate) fn debug_text(s: &str) -> (r: String)
    ensures
        r@ == quoted(s@),
{
    format!("{:?}", s)
}

/// The characters of a string, as a vector.
pub fn chars_of(s: &str) -> (r: Vec<char>)
    ensures
        r@ == s@,
{
    let mut out: Vec<char> = Vec::new();
    for c in it: s.chars()
        invariant
            it.seq() == s@,
            out@ == it.seq().take(it.index() as int),
    {
        out.push(c);
    }
    proof {
        assert(s@.take(s@.len() as int) =~= s@);
    }
    out
}

/// The string made of `chars[from..to]`.
pub fn string_of(chars: &Vec<char>, from: usize, to: usize) -> (r: String)
    requires
        from <= to <= chars@.len(),
    ensures
        r@ == chars@.subrange(from as int, to as int),
{
    let mut out = String::new();
    let mut i: usize = from;
    while i < to
        invariant
            from <= i <= to <= chars@.len(),
            out@ == chars@.subrange(from as int, i as int),
        decreases to - i,
    {
        out.push(chars[i]);
        i += 1;
        proof {
            assert(chars@.subrange(from as int, i as int) =~= chars@.subrange(
                from as int,
                i - 1,
            ).push(chars@[i - 1]));
        }
    }
    out
}

/// `a` followed by `b`.
pub fn joined(a: &str, b: &str) -> (r: String)
    ensures
        r@ == a@ + b@,
{
    let mut out = a.to_owned();
    out.append(b);
    out
}

/// The views of a list of strings.
pub open spec fn views(v: Seq<String>) -> Seq<Seq<char>> {
    v.map_values(|s: String| s@)
}

/// Whether the list holds a string with the characters of `s`.
pub open spec fn has_text(v: Seq<String>, s: Seq<char>) -> bool {
    exists|i: int| 0 <= i < v.len() && (#[trigger] v[i])@ == s
}

pub fn contains_text(v: &Vec<String>, s: &str) -> (r: bool)
    ensures
        r == has_text(v@, s@),
{
    let mut i: usize = 0;
    while i < v.len()
        invariant
            i <= v@.len(),
            forall|k: int| 0 <= k < i ==> (#[trigger] v@[k])@ != s@,
        decreases v@.len() - i,
    {
        if text_eq(v[i].as_str(), s) {
            return true;
        }
        i += 1;
    }
    false
}

/// `s` cut at its first `c`, which belongs to neither part.
pub open spec fn cut(s: Seq<char>, c: char) -> Option<(Seq<char>, Seq<char>)>
    decreases s.len(),
{
    if s.len() == 0 {
        None
    } else if s[0] == c {
        Some((Seq::empty(), s.skip(1)))
    } else {
        match cut(s.skip(1), c) {
            Some((head, tail)) => Some((seq![s[0]] + head, tail)),
            None => None,
        }
    }
}

pub proof fn cut_at(s: Seq<char>, c: char, k: int)
    requires
        0 <= k < s.len(),
        s[k] == c,
        forall|j: int| 0 <= j < k ==> s[j] != c,
    ensures
        cut(s, c) == Some((s.take(k), s.skip(k + 1))),
    decreases k,
{
    if k == 0 {
        assert(s.take(0) =~= Seq::empty());
    } else {
        cut_at(s.skip(1), c, k - 1);
        assert(seq![s[0]] + s.skip(1).take(k - 1) =~= s.take(k));
        assert(s.skip(1).skip(k) =~= s.skip(k + 1));
    }
}

pub proof fn cut_none(s: Seq<char>, c: char)
    requires
        !s.contains(c),
    ensures
        cut(s, c) is None,
    decreases s.len(),
{
    if s.len() > 0 {
        assert(s.contains(s[0]));
        assert forall|x: char| s.skip(1).contains(x) implies s.contains(x) by {
            let i = choose|i: int| 0 <= i < s.skip(1).len() && s.skip(1)[i] == x;
            assert(s[i + 1] == x);
        }
        cut_none(s.skip(1), c);
    }
}

/// Whether a text begins with another.
pub open spec fn has_prefix(s: Seq<char>, p: Seq<char>) -> bool {
    p.len() <= s.len() && s.take(p.len() as int) == p
}

/// Whether a text ends with another.
pub open spec fn has_suffix(s: Seq<char>, p: Seq<char>) -> bool {
    p.len() <= s.len() && s.skip(s.len() - p.len()) == p
}

pub fn starts_with(s: &Vec<char>, p: &Vec<char>) -> (r: bool)
    ensures
        r == has_prefix(s@, p@),
{
    if p.len() > s.len() {
        return false;
    }
    let mut i: usize = 0;
    while i < p.len()
        invariant
            i <= p@.len() <= s@.len(),
            forall|k: int| 0 <= k < i ==> s@[k] == p@[k],
        decreases p@.len() - i,
    {
        if s[i] != p[i] {
            assert(s@.take(p@.len() as int)[i as int] != p@[i as int]);
            return false;
        }
        i += 1;
    }
    assert(s@.take(p@.len() as int) =~= p@);
    true
}

pub fn ends_with(s: &Vec<char>, p: &Vec<char>) -> (r: bool)
    ensures
        r == has_suffix(s@, p@),
{
    if p.len() > s.len() {
        return false;
    }
    let size: usize = s.len();
    let start: usize = size - p.len();
    let mut i: usize = 0;
    while i < p.len()
        invariant
            i <= p@.len() <= s@.len(),
            size == s@.len(),
            start == size - p@.len(),
            forall|k: int| 0 <= k < i ==> s@[start + k] == p@[k],
        decreases p@.len() - i,
    {
        if s[start + i] != p[i] {
            assert(s@.skip(start as int)[i as int] != p@[i as int]);
            return false;
        }
        i += 1;
    }
    assert(s@.skip(start as int) =~= p@);
    true
}

/// Cut a text at the first occurrence of a character.
pub fn split_once(s: &str, c: char) -> (r: Option<(String, String)>)
    ensures
        match cut(s@, c) {
            Some((head, tail)) => r is Some && r->Some_0.0@ == head && r->Some_0.1@ == tail,
            None => r is None,
        },
{
    let chars = chars_of(s);
    let mut i: usize = 0;
    while i < chars.len()
        invariant
            i <= chars@.len(),
            chars@ == s@,
            forall|k: int| 0 <= k < i ==> chars@[k] != c,
        decreases chars@.len() - i,
    {
        if chars[i] == c {
            let head = string_of(&chars, 0, i);
            let tail = string_of(&chars, i + 1, chars.len());
            proof {
                cut_at(s@, c, i as int);
                assert(s@.take(i as int) =~= s@.subrange(0, i as int));
                assert(s@.skip(i + 1) =~= s@.subrange(i + 1, s@.len() as int));
            }
            return Some((head, tail));
        }
        i += 1;
    }
    proof {
        cut_none(s@, c);
    }
    None
}

/// Lexicographic order of texts by their code points, which is also the order
/// of their UTF-8 bytes.
pub open spec fn text_less(a: Seq<char>, b: Seq<char>) -> bool
    decreases a.len(),
{
    &&& b.len() > 0
    &&& (a.len() == 0 || a[0] < b[0] || (a[0] == b[0] && text_less(
        a.skip(1),
        b.skip(1),
    )))
}

pub proof fn text_less_irreflexive(a: Seq<char>)
    ensures
        !text_less(a, a),
    decreases a.len(),
{
    if a.len() > 0 {
        text_less_irreflexive(a.skip(1));
    }
}

pub proof fn text_less_transitive(a: Seq<char>, b: Seq<char>, c: Seq<char>)
    requires
        text_less(a, b),
        text_less(b, c),
    ensures
        text_less(a, c),
    decreases a.len(),
{
    if a.len() > 0 && a[0] == b[0] && b[0] == c[0] {
        text_less_transitive(a.skip(1), b.skip(1), c.skip(1));
    }
}

pub proof fn text_less_total(a: Seq<char>, b: Seq<char>)
    ensures
        text_less(a, b) || text_less(b, a) || a == b,
    decreases a.len(),
{
    if a.len() > 0 && b.len() > 0 {
        if a[0] == b[0] {
            text_less_total(a.skip(1), b.skip(1));
            if a.skip(1) == b.skip(1) {
                assert(a =~= seq![a[0]] + a.skip(1));
                assert(b =~= seq![b[0]] + b.skip(1));
            }
        }
    } else if a.len() == 0 && b.len() == 0 {
        assert(a =~= b);
    }
}

/// Whether one text comes before another.
pub fn precedes(a: &str, b: &str) -> (r: bool)
    ensures
        r == text_less(a@, b@),
{
    let x = chars_of(a);
    let y = chars_of(b);
    let mut i: usize = 0;
    proof {
        assert(a@.skip(0) =~= a@);
        assert(b@.skip(0) =~= b@);
    }
    while i < x.len() && i < y.len()
        invariant
            x@ == a@,
            y@ == b@,
            i <= x@.len(),
            i <= y@.len(),
            text_less(a@, b@) == text_less(a@.skip(i as int), b@.skip(i as int)),
        decreases x@.len() - i,
    {
        if x[i] < y[i] {
            return true;
        }
        if x[i] != y[i] {
            return false;
        }
        proof {
            assert(a@.skip(i as int).skip(1) =~= a@.skip(i + 1));
            assert(b@.skip(i as int).skip(1) =~= b@.skip(i + 1));
        }
        i += 1;
    }
    i < y.len()
}

/// A strictly increasing list of texts.
pub open spec fn ascending(v: Seq<String>) -> bool {
    forall|i: int, j: int| 0 <= i < j < v.len() ==> text_less(#[trigger] v[i]@, #[trigger] v[j]@)
}

/// Put a text in its place in an ascending list, unless it is there already.
pub fn insert_sorted(v: &mut Vec<String>, s: String)
    requires
        ascending(old(v)@),
    ensures
        ascending(final(v)@),
        forall|t: Seq<char>| has_text(final(v)@, t) <==> has_text(old(v)@, t) || t == s@,
{
    let mut i: usize = 0;
    let ghost before = v@;
    while i < v.len() && precedes(v[i].as_str(), s.as_str())
        invariant
            i <= v@.len(),
            v@ == before,
            ascending(before),
            forall|k: int| 0 <= k < i ==> text_less((#[trigger] before[k])@, s@),
        decreases v@.len() - i,
    {
        i += 1;
    }
    if i < v.len() && text_eq(v[i].as_str(), s.as_str()) {
        assert(before[i as int]@ == s@);
        return ;
    }
    proof {
        if i < before.len() {
            text_less_total(before[i as int]@, s@);
            assert forall|k: int| i <= k < before.len() implies text_less(
                s@,
                (#[trigger] before[k])@,
            ) by {
                if k > i {
                    text_less_transitive(s@, before[i as int]@, before[k]@);
                }
            }
        }
    }
    v.insert(i, s);
    proof {
        let after = v@;
        assert(after == before.insert(i as int, s));
        assert(after[i as int] == s);
        assert forall|t: Seq<char>| has_text(after, t) <==> has_text(before, t) || t == s@ by {
            if has_text(before, t) {
                let k = choose|k: int| 0 <= k < before.len() && (#[trigger] before[k])@ == t;
                if k < i {
                    assert(after[k]@ == t);
                } else {
                    assert(after[k + 1]@ == t);
                }
            }
            if has_text(after, t) {
                let k = choose|k: int| 0 <= k < after.len() && (#[trigger] after[k])@ == t;
                if k < i {
                    assert(before[k]@ == t);
                } else if k > i {
                    assert(before[k - 1]@ == t);
                }
            }
        }
        assert forall|a: int, b: int| 0 <= a < b < after.len() implies text_less(
            (#[trigger] after[a])@,
            (#[trigger] after[b])@,
        ) by {
            let a0 = if a < i { a } else { a - 1 };
            let b0 = if b < i { b } else { b - 1 };
            if a != i && b != i {
                assert(after[a] == before[a0]);
                assert(after[b] == before[b0]);
            } else if a == i {
                assert(after[b] == before[b - 1]);
            } else {
                assert(after[a] == before[a]);
            }
        }
    }
}

/// The decimal digits of a number, most significant first.
pub open spec fn decimal(n: nat) -> Seq<char>
    decreases n,
{
    if n < 10 {
        seq![digit(n)]
    } else {
        decimal(n / 10).push(digit(n % 10))
    }
}

/// The character of a digit.
pub open spec fn digit(d: nat) -> char {
    if d == 0 {
        '0'
    } else if d == 1 {
        '1'
    } else if d == 2 {
        '2'
    } else if d == 3 {
        '3'
    } else if d == 4 {
        '4'
    } else if d == 5 {
        '5'
    } else if d == 6 {
        '6'
    } else if d == 7 {
        '7'
    } else if d == 8 {
        '8'
    } else {
        '9'
    }
}

/// A signed number in decimal.
pub open spec fn signed_decimal(n: int) -> Seq<char> {
    if n < 0 {
        seq!['-'] + decimal((-n) as nat)
    } else {
        decimal(n as nat)
    }
}

pub fn digit_char(d: u64) -> (r: char)
    requires
        d < 10,
    ensures
        r == digit(d as nat),
{
    if d == 0 {
        '0'
    } else if d == 1 {
        '1'
    } else if d == 2 {
        '2'
    } else if d == 3 {
        '3'
    } else if d == 4 {
        '4'
    } else if d == 5 {
        '5'
    } else if d == 6 {
        '6'
    } else if d == 7 {
        '7'
    } else if d == 8 {
        '8'
    } else {
        '9'
    }
}

pub fn decimal_text(n: u64) -> (r: String)
    ensures
        r@ == decimal(n as nat),
    decreases n,
{
    if n < 10 {
        let mut out = String::new();
        out.push(digit_char(n));
        assert(out@ =~= decimal(n as nat));
        out
    } else {
        let mut out = decimal_text(n / 10);
        out.push(digit_char(n % 10));
        out
    }
}

pub fn signed_decimal_text(n: i64) -> (r: String)
    ensures
        r@ == signed_decimal(n as int),
{
    if n >= 0 {
        decimal_text(n as u64)
    } else {
        let magnitude: u64 = (-(n as i128)) as u64;
        let mut out = String::new();
        out.push('-');
        let digits = decimal_text(magnitude);
        out.append(digits.as_str());
        assert(out@ =~= seq!['-'] + decimal(magnitude as nat));
        out
    }
}

/// The value of a decimal digit.
pub open spec fn digit_value(c: char) -> nat {
    (c as nat - '0' as nat) as nat
}

pub open spec fn is_digit(c: char) -> bool {
    '0' <= c && c <= '9'
}

/// Every character is a decimal digit.
pub open spec fn all_digits(s: Seq<char>) -> bool {
    forall|i: int| 0 <= i < s.len() ==> is_digit(#[trigger] s[i])
}

/// The number a run of decimal digits writes, most significant first.
pub open spec fn nat_of(s: Seq<char>) -> nat
    decreases s.len(),
{
    if s.len() == 0 {
        0
    } else {
        nat_of(s.drop_last()) * 10 + digit_value(s.last())
    }
}

/// A number written in decimal, with an optional sign.
pub open spec fn int_of(s: Seq<char>) -> Option<int> {
    if s.len() > 0 && (s[0] == '-' || s[0] == '+') {
        if s.len() > 1 && all_digits(s.skip(1)) {
            Some(
                if s[0] == '-' {
                    -(nat_of(s.skip(1)) as int)
                } else {
                    nat_of(s.skip(1)) as int
                },
            )
        } else {
            None
        }
    } else if s.len() > 0 && all_digits(s) {
        Some(nat_of(s) as int)
    } else {
        None
    }
}

/// A number written in decimal that an `i64` can hold.
pub open spec fn i64_of(s: Seq<char>) -> Option<int> {
    match int_of(s) {
        Some(n) => if i64::MIN <= n <= i64::MAX {
            Some(n)
        } else {
            None
        },
        None => None,
    }
}

pub fn digit_number(c: char) -> (r: u64)
    requires
        is_digit(c),
    ensures
        r == digit_value(c),
        r < 10,
{
    (c as u64) - ('0' as u64)
}

pub fn check_digit(c: char) -> (r: bool)
    ensures
        r == is_digit(c),
{
    '0' <= c && c <= '9'
}

proof fn nat_of_grows(s: Seq<char>, n: int)
    requires
        0 <= n <= s.len(),
    ensures
        nat_of(s.take(n)) <= nat_of(s),
    decreases s.len() - n,
{
    if n == s.len() {
        assert(s.take(n) =~= s);
    } else {
        nat_of_grows(s, n + 1);
        assert(s.take(n + 1).drop_last() =~= s.take(n));
    }
}

/// Read `chars[from..]` as decimal digits. `None` where there is none or one
/// of them is no digit; a number too large for the type reads as its maximum.
fn digits_at(chars: &Vec<char>, from: usize) -> (r: Option<u64>)
    requires
        from <= chars@.len(),
    ensures
        match r {
            Some(n) => from < chars@.len() && all_digits(chars@.skip(from as int)) && n == if nat_of(
                chars@.skip(from as int),
            ) > u64::MAX {
                u64::MAX as nat
            } else {
                nat_of(chars@.skip(from as int))
            },
            None => from == chars@.len() || !all_digits(chars@.skip(from as int)),
        },
{
    let ghost tail = chars@.skip(from as int);
    if from == chars.len() {
        return None;
    }
    let mut value: u128 = 0;
    let mut i: usize = from;
    while i < chars.len()
        invariant
            from <= i <= chars@.len(),
            tail == chars@.skip(from as int),
            all_digits(tail.take(i - from)),
            value <= u64::MAX,
            value == if nat_of(tail.take(i - from)) > u64::MAX {
                u64::MAX as nat
            } else {
                nat_of(tail.take(i - from))
            },
        decreases chars@.len() - i,
    {
        assert(tail[i - from] == chars@[i as int]);
        if !check_digit(chars[i]) {
            return None;
        }
        let wide: u128 = value * 10 + digit_number(chars[i]) as u128;
        value = if wide > u64::MAX as u128 {
            u64::MAX as u128
        } else {
            wide
        };
        i += 1;
        proof {
            let longer = tail.take(i - from);
            assert(longer.drop_last() =~= tail.take(i - from - 1));
            assert(longer.last() == chars@[i - 1]);
            assert forall|k: int| 0 <= k < longer.len() implies is_digit(#[trigger] longer[k]) by {
                if k < i - from - 1 {
                    assert(longer[k] == tail.take(i - from - 1)[k]);
                }
            }
        }
    }
    assert(tail.take(chars@.len() - from) =~= tail);
    Some(value as u64)
}

/// Read a decimal number with an optional sign.
pub fn parse_i64(s: &str) -> (r: Option<i64>)
    ensures
        match i64_of(s@) {
            Some(n) => r is Some && r->Some_0 == n,
            None => r is None,
        },
{
    let chars = chars_of(s);
    if chars.len() == 0 {
        return None;
    }
    let negative = chars[0] == '-';
    if negative || chars[0] == '+' {
        match digits_at(&chars, 1) {
            None => None,
            Some(n) => if negative {
                if n <= 9223372036854775808u64 {
                    Some((-(n as i128)) as i64)
                } else {
                    None
                }
            } else if n <= i64::MAX as u64 {
                Some(n as i64)
            } else {
                None
            },
        }
    } else {
        assert(chars@.skip(0) =~= chars@);
        match digits_at(&chars, 0) {
            None => None,
            Some(n) => if n <= i64::MAX as u64 {
                Some(n as i64)
            } else {
                None
            },
        }
    }
}

/// Texts joined with a separator between neighbours.
pub open spec fn join_views(parts: Seq<Seq<char>>, sep: Seq<char>) -> Seq<char>
    decreases parts.len(),
{
    if parts.len() == 0 {
        Seq::empty()
    } else if parts.len() == 1 {
        parts[0]
    } else {
        join_views(parts.drop_last(), sep) + sep + parts.last()
    }
}

pub fn join(parts: &Vec<String>, sep: &str) -> (r: String)
    ensures
        r@ == join_views(views(parts@), sep@),
{
    let mut out = String::new();
    let mut i: usize = 0;
    while i < parts.len()
        invariant
            i <= parts@.len(),
            out@ == join_views(views(parts@).take(i as int), sep@),
        decreases parts@.len() - i,
    {
        if i > 0 {
            out.append(sep);
        }
        out.append(parts[i].as_str());
        i += 1;
        proof {
            let whole = views(parts@).take(i as int);
            assert(whole.drop_last() =~= views(parts@).take(i - 1));
            assert(whole.last() == parts@[i - 1]@);
            if i == 1 {
                assert(out@ =~= whole[0]);
            }
        }
    }
    assert(views(parts@).take(parts@.len() as int) =~= views(parts@));
    out
}

} // verus!
