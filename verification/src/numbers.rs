//! Integer arithmetic that rounds and saturates as placement needs it.

use crate::cache::clamp64;
use vstd::prelude::*;

verus! {

/// Division by a positive number, rounding towards zero.
pub open spec fn trunc_div(a: int, b: int) -> int {
    if a >= 0 {
        a / b
    } else {
        -((-a) / b)
    }
}

pub fn divide(a: i128, b: i128) -> (r: i128)
    requires
        b > 0,
        a > i128::MIN,
    ensures
        r == trunc_div(a as int, b as int),
{
    if a >= 0 {
        let q: u128 = (a as u128) / (b as u128);
        proof {
            quotient_bound(a as int, b as int);
        }
        q as i128
    } else {
        let p: i128 = -a;
        let q: u128 = (p as u128) / (b as u128);
        proof {
            quotient_bound(p as int, b as int);
        }
        -(q as i128)
    }
}

pub proof fn quotient_bound(a: int, b: int)
    requires
        a >= 0,
        b > 0,
    ensures
        0 <= a / b <= a,
{
    assert(0 <= a / b <= a) by (nonlinear_arith)
        requires
            a >= 0,
            b > 0,
    ;
}

/// The nearest `i64`.
pub fn narrow(n: i128) -> (r: i64)
    ensures
        r == clamp64(n as int),
{
    if n > i64::MAX as i128 {
        i64::MAX
    } else if n < i64::MIN as i128 {
        i64::MIN
    } else {
        n as i64
    }
}

/// The largest of a list, zero where it is empty.
pub open spec fn largest(s: Seq<i64>) -> int
    decreases s.len(),
{
    if s.len() == 0 {
        0
    } else if s.len() == 1 {
        s[0] as int
    } else if s.last() > largest(s.drop_last()) {
        s.last() as int
    } else {
        largest(s.drop_last())
    }
}

/// The smallest of a list, zero where it is empty.
pub open spec fn smallest(s: Seq<i64>) -> int
    decreases s.len(),
{
    if s.len() == 0 {
        0
    } else if s.len() == 1 {
        s[0] as int
    } else if s.last() < smallest(s.drop_last()) {
        s.last() as int
    } else {
        smallest(s.drop_last())
    }
}

pub proof fn largest_bounds(s: Seq<i64>)
    ensures
        forall|i: int| 0 <= i < s.len() ==> #[trigger] s[i] <= largest(s),
        s.len() > 0 ==> exists|i: int| 0 <= i < s.len() && #[trigger] s[i] == largest(s),
    decreases s.len(),
{
    if s.len() == 1 {
        assert(s[0] == largest(s));
    }
    if s.len() > 1 {
        let t = s.drop_last();
        largest_bounds(t);
        assert forall|i: int| 0 <= i < s.len() implies #[trigger] s[i] <= largest(s) by {
            if i < t.len() {
                assert(t[i] == s[i]);
            }
        }
        if s.last() > largest(t) {
            assert(s[s.len() - 1] == largest(s));
        } else {
            let k = choose|k: int| 0 <= k < t.len() && #[trigger] t[k] == largest(t);
            assert(s[k] == largest(s));
        }
    }
}

pub proof fn smallest_bounds(s: Seq<i64>)
    ensures
        forall|i: int| 0 <= i < s.len() ==> smallest(s) <= #[trigger] s[i],
        s.len() > 0 ==> exists|i: int| 0 <= i < s.len() && #[trigger] s[i] == smallest(s),
    decreases s.len(),
{
    if s.len() == 1 {
        assert(s[0] == smallest(s));
    }
    if s.len() > 1 {
        let t = s.drop_last();
        smallest_bounds(t);
        assert forall|i: int| 0 <= i < s.len() implies smallest(s) <= #[trigger] s[i] by {
            if i < t.len() {
                assert(t[i] == s[i]);
            }
        }
        if s.last() < smallest(t) {
            assert(s[s.len() - 1] == smallest(s));
        } else {
            let k = choose|k: int| 0 <= k < t.len() && #[trigger] t[k] == smallest(t);
            assert(s[k] == smallest(s));
        }
    }
}

pub fn largest_of(s: &Vec<i64>) -> (r: i64)
    ensures
        r == largest(s@),
{
    if s.len() == 0 {
        return 0;
    }
    let mut best: i64 = s[0];
    let mut i: usize = 1;
    assert(s@.take(1)[0] == s@[0]);
    while i < s.len()
        invariant
            1 <= i <= s@.len(),
            best == largest(s@.take(i as int)),
        decreases s@.len() - i,
    {
        if s[i] > best {
            best = s[i];
        }
        i += 1;
        assert(s@.take(i as int).drop_last() =~= s@.take(i - 1));
    }
    assert(s@.take(i as int) =~= s@);
    best
}

pub fn smallest_of(s: &Vec<i64>) -> (r: i64)
    ensures
        r == smallest(s@),
{
    if s.len() == 0 {
        return 0;
    }
    let mut best: i64 = s[0];
    let mut i: usize = 1;
    assert(s@.take(1)[0] == s@[0]);
    while i < s.len()
        invariant
            1 <= i <= s@.len(),
            best == smallest(s@.take(i as int)),
        decreases s@.len() - i,
    {
        if s[i] < best {
            best = s[i];
        }
        i += 1;
        assert(s@.take(i as int).drop_last() =~= s@.take(i - 1));
    }
    assert(s@.take(i as int) =~= s@);
    best
}

} // verus!
