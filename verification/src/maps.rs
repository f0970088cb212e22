//! Maps keyed by text, and equality of values by what they hold.

use crate::text::{precedes, text_eq, text_less, text_less_total, text_less_transitive};
use std::sync::Arc;
use vstd::prelude::*;

verus! {

/// The value behind a shared pointer.
pub open spec fn shared<T>(a: Arc<T>) -> T {
    *a
}

/// A map from text to values, held as a list of pairs. Where a key occurs
/// twice, the first pair counts.
#[derive(Clone, Debug, PartialEq)]
pub struct StrMap<V> {
    pub entries: Vec<(String, V)>,
}

/// The value of the first pair with the key `k`.
pub open spec fn find_key<V>(e: Seq<(String, V)>, k: Seq<char>) -> Option<V>
    decreases e.len(),
{
    if e.len() == 0 {
        None
    } else if e[0].0@ == k {
        Some(e[0].1)
    } else {
        find_key(e.skip(1), k)
    }
}

pub proof fn find_key_at<V>(e: Seq<(String, V)>, k: Seq<char>, i: int)
    requires
        0 <= i < e.len(),
        e[i].0@ == k,
        forall|j: int| 0 <= j < i ==> (#[trigger] e[j]).0@ != k,
    ensures
        find_key(e, k) == Some(e[i].1),
    decreases i,
{
    if i > 0 {
        assert(e[0].0@ != k);
        assert forall|j: int| 0 <= j < i - 1 implies (#[trigger] e.skip(1)[j]).0@ != k by {
            assert(e[j + 1].0@ != k);
        }
        find_key_at(e.skip(1), k, i - 1);
    }
}

pub proof fn find_key_none<V>(e: Seq<(String, V)>, k: Seq<char>)
    requires
        forall|j: int| 0 <= j < e.len() ==> (#[trigger] e[j]).0@ != k,
    ensures
        find_key(e, k) is None,
    decreases e.len(),
{
    if e.len() > 0 {
        assert(e[0].0@ != k);
        assert forall|j: int| 0 <= j < e.skip(1).len() implies (#[trigger] e.skip(1)[j]).0@
            != k by {
            assert(e[j + 1].0@ != k);
        }
        find_key_none(e.skip(1), k);
    }
}

pub proof fn find_key_index<V>(e: Seq<(String, V)>, k: Seq<char>) -> (i: int)
    requires
        find_key(e, k) is Some,
    ensures
        0 <= i < e.len(),
        e[i].0@ == k,
        find_key(e, k) == Some(e[i].1),
        forall|j: int| 0 <= j < i ==> (#[trigger] e[j]).0@ != k,
    decreases e.len(),
{
    if e[0].0@ == k {
        0
    } else {
        let j = find_key_index(e.skip(1), k);
        assert forall|m: int| 0 <= m < j + 1 implies (#[trigger] e[m]).0@ != k by {
            if m > 0 {
                assert(e.skip(1)[m - 1].0@ != k);
            }
        }
        j + 1
    }
}

/// The keys of a list of pairs are in strictly ascending order.
pub open spec fn keys_ascending<V>(e: Seq<(String, V)>) -> bool {
    forall|i: int, j: int|
        0 <= i < j < e.len() ==> text_less((#[trigger] e[i]).0@, (#[trigger] e[j]).0@)
}

impl<V> StrMap<V> {
    /// The value under a key.
    pub open spec fn at(&self, k: Seq<char>) -> Option<V> {
        find_key(self.entries@, k)
    }

    /// The pairs are ordered by key and no key occurs twice. Every map made by
    /// [`StrMap::new`] and [`StrMap::insert`] is.
    pub open spec fn ordered(&self) -> bool {
        keys_ascending(self.entries@)
    }

    pub fn new() -> (r: Self)
        ensures
            r.entries@ == Seq::<(String, V)>::empty(),
            r.ordered(),
            forall|k: Seq<char>| (#[trigger] r.at(k)) is None,
    {
        StrMap { entries: Vec::new() }
    }

    pub fn get(&self, k: &str) -> (r: Option<&V>)
        ensures
            match self.at(k@) {
                Some(v) => r == Some(&v),
                None => r is None,
            },
    {
        let mut i: usize = 0;
        while i < self.entries.len()
            invariant
                i <= self.entries@.len(),
                forall|j: int| 0 <= j < i ==> (#[trigger] self.entries@[j]).0@ != k@,
            decreases self.entries@.len() - i,
        {
            if text_eq(self.entries[i].0.as_str(), k) {
                proof {
                    find_key_at(self.entries@, k@, i as int);
                }
                return Some(&self.entries[i].1);
            }
            i += 1;
        }
        proof {
            find_key_none(self.entries@, k@);
        }
        None
    }

    pub fn contains_key(&self, k: &str) -> (r: bool)
        ensures
            r == (self.at(k@) is Some),
    {
        self.get(k).is_some()
    }

    /// Whether the key of pair `i` occurs in no earlier pair.
    pub fn is_first(&self, i: usize) -> (r: bool)
        requires
            i < self.entries@.len(),
        ensures
            r == forall|j: int|
                0 <= j < i ==> (#[trigger] self.entries@[j]).0@ != self.entries@[i as int].0@,
    {
        let mut j: usize = 0;
        while j < i
            invariant
                j <= i < self.entries@.len(),
                forall|k: int|
                    0 <= k < j ==> (#[trigger] self.entries@[k]).0@ != self.entries@[i as int].0@,
            decreases i - j,
        {
            if text_eq(self.entries[j].0.as_str(), self.entries[i].0.as_str()) {
                assert(self.entries@[j as int].0@ == self.entries@[i as int].0@);
                return false;
            }
            j += 1;
        }
        true
    }

    /// Set the value under a key.
    pub fn insert(&mut self, k: String, v: V)
        ensures
            forall|x: Seq<char>| #[trigger] final(self).at(x) == if x == k@ {
                Some(v)
            } else {
                old(self).at(x)
            },
            old(self).ordered() ==> final(self).ordered(),
            final(self).entries@.len() == if old(self).at(k@) is Some {
                old(self).entries@.len()
            } else {
                old(self).entries@.len() + 1
            },
    {
        let ghost before = self.entries@;
        let mut i: usize = 0;
        let n: usize = self.entries.len();
        while i < n && !text_eq(self.entries[i].0.as_str(), k.as_str())
            invariant
                i <= n == self.entries@.len(),
                self.entries@ == before,
                forall|j: int| 0 <= j < i ==> (#[trigger] before[j]).0@ != k@,
            decreases n - i,
        {
            i += 1;
        }
        if i < n {
            let ghost key = k@;
            self.entries.set(i, (k, v));
            proof {
                let after = self.entries@;
                replaced(before, after, key, v, i as int);
                first_of(before, key, i as int);
            }
            return ;
        }
        let mut p: usize = 0;
        while p < n && precedes(self.entries[p].0.as_str(), k.as_str())
            invariant
                p <= n == self.entries@.len(),
                self.entries@ == before,
                forall|j: int| 0 <= j < p ==> text_less((#[trigger] before[j]).0@, k@),
            decreases n - p,
        {
            p += 1;
        }
        let ghost pair = (k, v);
        self.entries.insert(p, (k, v));
        proof {
            inserted(before, self.entries@, pair, p as int);
            find_key_none(before, pair.0@);
        }
    }

    /// Take a key out and hand back its value.
    pub fn take(&mut self, k: &str) -> (r: Option<V>)
        ensures
            r == old(self).at(k@),
            forall|x: Seq<char>| #[trigger] final(self).at(x) == if x == k@ {
                None::<V>
            } else {
                old(self).at(x)
            },
            old(self).ordered() ==> final(self).ordered(),
    {
        let ghost whole = self.entries@;
        let mut i: usize = 0;
        while i < self.entries.len() && !text_eq(self.entries[i].0.as_str(), k)
            invariant
                i <= self.entries@.len(),
                self.entries@ == whole,
                forall|j: int| 0 <= j < i ==> (#[trigger] whole[j]).0@ != k@,
            decreases self.entries@.len() - i,
        {
            i += 1;
        }
        if i == self.entries.len() {
            proof {
                find_key_none(whole, k@);
            }
            return None;
        }
        proof {
            find_key_at(whole, k@, i as int);
        }
        let pair = self.entries.remove(i);
        proof {
            dropped_pair(whole, self.entries@, i as int);
        }
        let ghost once = *self;
        self.remove(k);
        proof {
            assert forall|x: Seq<char>| #[trigger] self.at(x) == if x == k@ {
                None::<V>
            } else {
                find_key(whole, x)
            } by {
                let was = once.at(x);
            }
        }
        Some(pair.1)
    }

    /// Take a key out.
    pub fn remove(&mut self, k: &str)
        ensures
            forall|x: Seq<char>| #[trigger] final(self).at(x) == if x == k@ {
                None::<V>
            } else {
                old(self).at(x)
            },
            old(self).ordered() ==> final(self).ordered(),
    {
        let ghost whole = self.entries@;
        let mut i: usize = 0;
        proof {
            assert(keys_ascending(whole) ==> keys_ascending(self.entries@));
        }
        while i < self.entries.len()
            invariant
                i <= self.entries@.len(),
                forall|j: int| 0 <= j < i ==> (#[trigger] self.entries@[j]).0@ != k@,
                forall|x: Seq<char>|
                    x != k@ ==> #[trigger] find_key(self.entries@, x) == find_key(whole, x),
                keys_ascending(whole) ==> keys_ascending(self.entries@),
            decreases self.entries@.len() - i,
        {
            if text_eq(self.entries[i].0.as_str(), k) {
                let ghost before = self.entries@;
                let _ = self.entries.remove(i);
                proof {
                    dropped_pair(before, self.entries@, i as int);
                }
            } else {
                i += 1;
            }
        }
        proof {
            find_key_none(self.entries@, k@);
        }
    }
}

proof fn dropped_pair<V>(before: Seq<(String, V)>, after: Seq<(String, V)>, i: int)
    requires
        0 <= i < before.len(),
        after == before.remove(i),
    ensures
        forall|x: Seq<char>|
            x != before[i].0@ ==> #[trigger] find_key(after, x) == find_key(before, x),
        keys_ascending(before) ==> keys_ascending(after),
{
    assert forall|j: int| 0 <= j < after.len() implies #[trigger] after[j] == if j < i {
        before[j]
    } else {
        before[j + 1]
    } by {}
    assert forall|x: Seq<char>| x != before[i].0@ implies #[trigger] find_key(after, x) == find_key(
        before,
        x,
    ) by {
        if find_key(before, x) is Some {
            let m = find_key_index(before, x);
            let m2 = if m < i { m } else { m - 1 };
            assert forall|j: int| 0 <= j < m2 implies (#[trigger] after[j]).0@ != x by {
                if j < i {
                    assert(after[j] == before[j]);
                } else {
                    assert(after[j] == before[j + 1]);
                }
            }
            assert(after[m2] == before[m]);
            find_key_at(after, x, m2);
        } else {
            assert forall|j: int| 0 <= j < after.len() implies (#[trigger] after[j]).0@ != x by {
                let j0 = if j < i { j } else { j + 1 };
                assert(after[j] == before[j0]);
                if before[j0].0@ == x {
                    first_of(before, x, j0);
                }
            }
            find_key_none(after, x);
        }
    }
    if keys_ascending(before) {
        assert forall|a: int, b: int| 0 <= a < b < after.len() implies text_less(
            (#[trigger] after[a]).0@,
            (#[trigger] after[b]).0@,
        ) by {
            let a0 = if a < i { a } else { a + 1 };
            let b0 = if b < i { b } else { b + 1 };
            assert(after[a] == before[a0] && after[b] == before[b0]);
        }
    }
}

proof fn replaced<V>(
    before: Seq<(String, V)>,
    after: Seq<(String, V)>,
    key: Seq<char>,
    v: V,
    i: int,
)
    requires
        0 <= i < before.len(),
        before[i].0@ == key,
        forall|j: int| 0 <= j < i ==> (#[trigger] before[j]).0@ != key,
        after.len() == before.len(),
        after[i].0@ == key,
        after[i].1 == v,
        forall|j: int| 0 <= j < before.len() && j != i ==> #[trigger] after[j] == before[j],
    ensures
        forall|x: Seq<char>| #[trigger] find_key(after, x) == if x == key {
            Some(v)
        } else {
            find_key(before, x)
        },
        keys_ascending(before) ==> keys_ascending(after),
{
    assert forall|x: Seq<char>| #[trigger] find_key(after, x) == if x == key {
        Some(v)
    } else {
        find_key(before, x)
    } by {
        if x == key {
            assert forall|j: int| 0 <= j < i implies (#[trigger] after[j]).0@ != key by {
                assert(before[j].0@ != key);
            }
            find_key_at(after, x, i);
        } else if find_key(before, x) is Some {
            let m = find_key_index(before, x);
            assert forall|j: int| 0 <= j < m implies (#[trigger] after[j]).0@ != x by {
                assert(before[j].0@ != x);
            }
            assert(after[m] == before[m]);
            find_key_at(after, x, m);
        } else {
            assert forall|j: int| 0 <= j < after.len() implies (#[trigger] after[j]).0@ != x by {
                if before[j].0@ == x {
                    first_of(before, x, j);
                }
            }
            find_key_none(after, x);
        }
    }
    if keys_ascending(before) {
        assert forall|a: int, b: int| 0 <= a < b < after.len() implies text_less(
            (#[trigger] after[a]).0@,
            (#[trigger] after[b]).0@,
        ) by {
            assert(after[a].0@ == before[a].0@);
            assert(after[b].0@ == before[b].0@);
        }
    }
}

/// A key that occurs is found.
pub proof fn first_of<V>(e: Seq<(String, V)>, k: Seq<char>, j: int)
    requires
        0 <= j < e.len(),
        e[j].0@ == k,
    ensures
        find_key(e, k) is Some,
    decreases e.len(),
{
    if e[0].0@ != k {
        assert(e.skip(1)[j - 1].0@ == k);
        first_of(e.skip(1), k, j - 1);
    }
}

proof fn inserted<V>(
    before: Seq<(String, V)>,
    after: Seq<(String, V)>,
    pair: (String, V),
    p: int,
)
    requires
        0 <= p <= before.len(),
        after == before.insert(p, pair),
        forall|j: int| 0 <= j < before.len() ==> (#[trigger] before[j]).0@ != pair.0@,
        forall|j: int| 0 <= j < p ==> text_less((#[trigger] before[j]).0@, pair.0@),
        p < before.len() ==> !text_less(before[p].0@, pair.0@),
    ensures
        forall|x: Seq<char>| #[trigger] find_key(after, x) == if x == pair.0@ {
            Some(pair.1)
        } else {
            find_key(before, x)
        },
        keys_ascending(before) ==> keys_ascending(after),
{
    assert(after[p] == pair);
    assert forall|j: int| 0 <= j < after.len() implies #[trigger] after[j] == if j < p {
        before[j]
    } else if j == p {
        pair
    } else {
        before[j - 1]
    } by {}
    assert forall|x: Seq<char>| #[trigger] find_key(after, x) == if x == pair.0@ {
        Some(pair.1)
    } else {
        find_key(before, x)
    } by {
        if x == pair.0@ {
            assert forall|j: int| 0 <= j < p implies (#[trigger] after[j]).0@ != x by {
                assert(after[j] == before[j]);
            }
            find_key_at(after, x, p);
        } else if find_key(before, x) is Some {
            let m = find_key_index(before, x);
            let m2 = if m < p { m } else { m + 1 };
            assert forall|j: int| 0 <= j < m2 implies (#[trigger] after[j]).0@ != x by {
                if j < p {
                    assert(after[j] == before[j]);
                } else if j > p {
                    assert(after[j] == before[j - 1]);
                }
            }
            assert(after[m2] == before[m]);
            find_key_at(after, x, m2);
        } else {
            assert forall|j: int| 0 <= j < after.len() implies (#[trigger] after[j]).0@ != x by {
                if j < p && before[j].0@ == x {
                    first_of(before, x, j);
                }
                if j > p && before[j - 1].0@ == x {
                    first_of(before, x, j - 1);
                }
            }
            find_key_none(after, x);
        }
    }
    if keys_ascending(before) {
        assert forall|j: int| p <= j < before.len() implies text_less(
            pair.0@,
            (#[trigger] before[j]).0@,
        ) by {
            text_less_total(before[p].0@, pair.0@);
            if j > p {
                text_less_transitive(pair.0@, before[p].0@, before[j].0@);
            }
        }
        assert forall|a: int, b: int| 0 <= a < b < after.len() implies text_less(
            (#[trigger] after[a]).0@,
            (#[trigger] after[b]).0@,
        ) by {
            if b < p {
                assert(after[a] == before[a] && after[b] == before[b]);
            } else if a < p && b > p {
                assert(after[a] == before[a] && after[b] == before[b - 1]);
            } else if a > p {
                assert(after[a] == before[a - 1] && after[b] == before[b - 1]);
            } else if a == p {
                assert(after[b] == before[b - 1]);
            } else {
                assert(after[a] == before[a]);
            }
        }
    }
}

impl<V> Default for StrMap<V> {
    fn default() -> (r: Self)
        ensures
            r.entries@ == Seq::<(String, V)>::empty(),
    {
        StrMap { entries: Vec::new() }
    }
}

/// Labels, annotations, node selectors: text to text.
pub type Labels = StrMap<String>;

impl StrMap<String> {
    /// The text under a key.
    pub open spec fn text(&self, k: Seq<char>) -> Option<Seq<char>> {
        match self.at(k) {
            Some(v) => Some(v@),
            None => None,
        }
    }

    /// Whether `k` carries exactly the value `v`.
    pub open spec fn carries(&self, k: Seq<char>, v: Seq<char>) -> bool {
        self.text(k) == Some(v)
    }

    pub fn carries_pair(&self, k: &str, v: &str) -> (r: bool)
        ensures
            r == self.carries(k@, v@),
    {
        match self.get(k) {
            Some(x) => text_eq(x.as_str(), v),
            None => false,
        }
    }
}

/// Equality by what values hold: texts by their characters, lists element by
/// element, maps key by key.
pub trait Same: Sized {
    spec fn same(&self, other: &Self) -> bool;

    fn is_same(&self, other: &Self) -> (r: bool)
        ensures
            r == self.same(other),
    ;

    /// A second value that holds the same.
    fn duplicate(&self) -> (r: Self)
        ensures
            self.same(&r),
    ;
}

impl Same for String {
    open spec fn same(&self, other: &Self) -> bool {
        self@ == other@
    }

    fn is_same(&self, other: &Self) -> (r: bool) {
        text_eq(self.as_str(), other.as_str())
    }

    fn duplicate(&self) -> (r: Self) {
        self.clone()
    }
}

impl Same for bool {
    open spec fn same(&self, other: &Self) -> bool {
        *self == *other
    }

    fn is_same(&self, other: &Self) -> (r: bool) {
        *self == *other
    }

    fn duplicate(&self) -> (r: Self) {
        *self
    }
}

impl Same for i64 {
    open spec fn same(&self, other: &Self) -> bool {
        *self == *other
    }

    fn is_same(&self, other: &Self) -> (r: bool) {
        *self == *other
    }

    fn duplicate(&self) -> (r: Self) {
        *self
    }
}

impl Same for i32 {
    open spec fn same(&self, other: &Self) -> bool {
        *self == *other
    }

    fn is_same(&self, other: &Self) -> (r: bool) {
        *self == *other
    }

    fn duplicate(&self) -> (r: Self) {
        *self
    }
}

impl Same for u32 {
    open spec fn same(&self, other: &Self) -> bool {
        *self == *other
    }

    fn is_same(&self, other: &Self) -> (r: bool) {
        *self == *other
    }

    fn duplicate(&self) -> (r: Self) {
        *self
    }
}

impl Same for u64 {
    open spec fn same(&self, other: &Self) -> bool {
        *self == *other
    }

    fn is_same(&self, other: &Self) -> (r: bool) {
        *self == *other
    }

    fn duplicate(&self) -> (r: Self) {
        *self
    }
}

impl Same for usize {
    open spec fn same(&self, other: &Self) -> bool {
        *self == *other
    }

    fn is_same(&self, other: &Self) -> (r: bool) {
        *self == *other
    }

    fn duplicate(&self) -> (r: Self) {
        *self
    }
}

impl<T: Same> Same for Arc<T> {
    open spec fn same(&self, other: &Self) -> bool {
        (**self).same(&**other)
    }

    fn is_same(&self, other: &Self) -> (r: bool) {
        (**self).is_same(&**other)
    }

    fn duplicate(&self) -> (r: Self) {
        Arc::new((**self).duplicate())
    }
}

impl<A: Same, B: Same> Same for (A, B) {
    open spec fn same(&self, other: &Self) -> bool {
        self.0.same(&other.0) && self.1.same(&other.1)
    }

    fn is_same(&self, other: &Self) -> (r: bool) {
        self.0.is_same(&other.0) && self.1.is_same(&other.1)
    }

    fn duplicate(&self) -> (r: Self) {
        (self.0.duplicate(), self.1.duplicate())
    }
}

impl<T: Same> Same for Option<T> {
    open spec fn same(&self, other: &Self) -> bool {
        match (self, other) {
            (Some(a), Some(b)) => a.same(b),
            (None, None) => true,
            _ => false,
        }
    }

    fn is_same(&self, other: &Self) -> (r: bool) {
        match (self, other) {
            (Some(a), Some(b)) => a.is_same(b),
            (None, None) => true,
            _ => false,
        }
    }

    fn duplicate(&self) -> (r: Self) {
        match self {
            Some(a) => Some(a.duplicate()),
            None => None,
        }
    }
}

impl<T: Same> Same for Vec<T> {
    open spec fn same(&self, other: &Self) -> bool {
        self@.len() == other@.len() && forall|i: int|
            0 <= i < self@.len() ==> (#[trigger] self@[i]).same(&other@[i])
    }

    fn is_same(&self, other: &Self) -> (r: bool) {
        if self.len() != other.len() {
            return false;
        }
        let mut i: usize = 0;
        while i < self.len()
            invariant
                i <= self@.len() == other@.len(),
                forall|k: int| 0 <= k < i ==> (#[trigger] self@[k]).same(&other@[k]),
            decreases self@.len() - i,
        {
            if !self[i].is_same(&other[i]) {
                return false;
            }
            i += 1;
        }
        true
    }

    fn duplicate(&self) -> (r: Self) {
        let mut out: Vec<T> = Vec::new();
        let mut i: usize = 0;
        while i < self.len()
            invariant
                i <= self@.len(),
                out@.len() == i,
                forall|k: int| 0 <= k < i ==> (#[trigger] self@[k]).same(&out@[k]),
            decreases self@.len() - i,
        {
            out.push(self[i].duplicate());
            i += 1;
        }
        out
    }
}

impl<T: Same> Same for StrMap<T> {
    open spec fn same(&self, other: &Self) -> bool {
        forall|k: Seq<char>| (#[trigger] self.at(k)).same(&other.at(k))
    }

    fn is_same(&self, other: &Self) -> (r: bool) {
        let mut i: usize = 0;
        while i < self.entries.len()
            invariant
                i <= self.entries@.len(),
                forall|m: int|
                    0 <= m < i ==> self.at((#[trigger] self.entries@[m]).0@).same(
                        &other.at(self.entries@[m].0@),
                    ),
            decreases self.entries@.len() - i,
        {
            let key = self.entries[i].0.as_str();
            proof {
                first_of(self.entries@, key@, i as int);
            }
            match (self.get(key), other.get(key)) {
                (Some(a), Some(b)) => {
                    if !a.is_same(b) {
                        assert(!self.at(key@).same(&other.at(key@)));
                        return false;
                    }
                },
                _ => {
                    assert(!self.at(key@).same(&other.at(key@)));
                    return false;
                },
            }
            i += 1;
        }
        let mut j: usize = 0;
        while j < other.entries.len()
            invariant
                j <= other.entries@.len(),
                forall|m: int|
                    0 <= m < j ==> self.at((#[trigger] other.entries@[m]).0@) is Some,
            decreases other.entries@.len() - j,
        {
            let key = other.entries[j].0.as_str();
            if !self.contains_key(key) {
                proof {
                    first_of(other.entries@, key@, j as int);
                    assert(!self.at(key@).same(&other.at(key@)));
                }
                return false;
            }
            j += 1;
        }
        assert forall|k: Seq<char>| (#[trigger] self.at(k)).same(&other.at(k)) by {
            if self.at(k) is Some {
                let m = find_key_index(self.entries@, k);
                assert(self.entries@[m].0@ == k);
            } else if other.at(k) is Some {
                let m = find_key_index(other.entries@, k);
                assert(other.entries@[m].0@ == k);
            }
        }
        true
    }

    fn duplicate(&self) -> (r: Self) {
        let mut out: Vec<(String, T)> = Vec::new();
        let mut i: usize = 0;
        while i < self.entries.len()
            invariant
                i <= self.entries@.len(),
                out@.len() == i,
                forall|k: int|
                    0 <= k < i ==> (#[trigger] self.entries@[k]).0 == out@[k].0
                        && self.entries@[k].1.same(&out@[k].1),
            decreases self.entries@.len() - i,
        {
            out.push((self.entries[i].0.clone(), self.entries[i].1.duplicate()));
            i += 1;
        }
        let r = StrMap { entries: out };
        assert forall|k: Seq<char>| (#[trigger] self.at(k)).same(&r.at(k)) by {
            if self.at(k) is Some {
                let m = find_key_index(self.entries@, k);
                assert forall|j: int| 0 <= j < m implies (#[trigger] r.entries@[j]).0@ != k by {
                    assert(self.entries@[j].0@ != k);
                }
                assert(self.entries@[m].0 == r.entries@[m].0);
                find_key_at(r.entries@, k, m);
            } else {
                assert forall|j: int| 0 <= j < r.entries@.len() implies (
                #[trigger] r.entries@[j]).0@ != k by {
                    assert(self.entries@[j].0 == r.entries@[j].0);
                    if self.entries@[j].0@ == k {
                        first_of(self.entries@, k, j);
                    }
                }
                find_key_none(r.entries@, k);
            }
        }
        r
    }
}

/// The keys of an ordered map are as many as its pairs.
pub proof fn keys_are_counted<V>(m: StrMap<V>)
    requires
        m.ordered(),
    ensures
        Set::new(|k: Seq<char>| m.at(k) is Some).finite(),
        Set::new(|k: Seq<char>| m.at(k) is Some).len() == m.entries@.len(),
{
    keys_counted(m.entries@);
    assert(Set::new(|k: Seq<char>| m.at(k) is Some) =~= key_set(m.entries@));
}

spec fn key_set<V>(e: Seq<(String, V)>) -> Set<Seq<char>> {
    Set::new(|k: Seq<char>| find_key(e, k) is Some)
}

proof fn keys_counted<V>(e: Seq<(String, V)>)
    requires
        keys_ascending(e),
    ensures
        key_set(e).finite(),
        key_set(e).len() == e.len(),
    decreases e.len(),
{
    if e.len() == 0 {
        assert(key_set(e) =~= Set::empty());
    } else {
        let t = e.drop_last();
        let last = e.len() - 1;
        assert forall|i: int, j: int| 0 <= i < j < t.len() implies text_less(
            (#[trigger] t[i]).0@,
            (#[trigger] t[j]).0@,
        ) by {
            assert(text_less(e[i].0@, e[j].0@));
        }
        keys_counted(t);
        let key = e[last].0@;
        if find_key(t, key) is Some {
            let i = find_key_index(t, key);
            assert(text_less(e[i].0@, e[last].0@));
            crate::text::text_less_irreflexive(key);
        }
        assert forall|k: Seq<char>| key_set(e).contains(k) <==> key_set(t).insert(key).contains(
            k,
        ) by {
            if find_key(e, k) is Some {
                let i = find_key_index(e, k);
                if i < last {
                    assert(t[i].0@ == k);
                    first_of(t, k, i);
                }
            }
            if find_key(t, k) is Some {
                let i = find_key_index(t, k);
                assert(e[i].0@ == k);
                first_of(e, k, i);
            }
            if k == key {
                first_of(e, k, last);
            }
        }
        assert(key_set(e) =~= key_set(t).insert(key));
    }
}

} // verus!
