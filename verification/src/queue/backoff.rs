//! Backoff: how long a pod waits after a wasted cycle, and where it waits.
//!
//! The queue holds no timer. It answers when its earliest entry comes due, and
//! every method takes the time it reasons about, in nanoseconds.

use crate::cache::PodInfo;
use crate::maps::Same;
use crate::text::text_eq;
use std::sync::Arc;
use vstd::prelude::*;

verus! {

/// The wait after the first wasted cycle: one second.
pub const DEFAULT_POD_INITIAL_BACKOFF: u64 = 1_000_000_000;

/// The longest wait: ten seconds.
pub const DEFAULT_POD_MAX_BACKOFF: u64 = 10_000_000_000;

/// Two to the power of `n`.
pub open spec fn two_to(n: nat) -> nat
    decreases n,
{
    if n == 0 {
        1
    } else {
        2 * two_to((n - 1) as nat)
    }
}

/// The doublings of an attempt: none for the first, and none for zero.
pub open spec fn doublings(attempts: u32) -> nat {
    if attempts == 0 {
        0
    } else {
        (attempts - 1) as nat
    }
}

/// The attempts from which on a pod waits the ceiling, however short its first
/// wait was.
pub const HOPELESS_ATTEMPTS: u32 = 40;

/// `initial * 2^(attempts-1)`, at most `max`; `max` from the fortieth attempt on.
pub open spec fn backoff_of(attempts: u32, initial: u64, max: u64) -> int {
    let doubled = initial * two_to(doublings(attempts));
    if doubled >= max || attempts >= HOPELESS_ATTEMPTS {
        max as int
    } else {
        doubled
    }
}

/// The wait after an attempt. Zero attempts count as one; a pod that failed
/// ever so often waits the ceiling and never less.
pub fn backoff_duration(attempts: u32, initial: u64, max: u64) -> (r: u64)
    ensures
        r == backoff_of(attempts, initial, max),
{
    if attempts >= HOPELESS_ATTEMPTS {
        return max;
    }
    let shift: u32 = if attempts == 0 {
        0
    } else {
        attempts - 1
    };
    let mut delay: u128 = initial as u128;
    let mut i: u32 = 0;
    assert(initial * two_to(0) == initial) by (nonlinear_arith)
        requires
            two_to(0) == 1,
    ;
    while i < shift && delay < max as u128
        invariant
            i <= shift,
            delay == initial * two_to(i as nat),
            delay <= 2 * u64::MAX,
        decreases shift - i,
    {
        proof {
            let t = two_to(i as nat);
            assert(initial * (2 * t) == 2 * (initial * t)) by (nonlinear_arith);
        }
        delay = delay * 2;
        i += 1;
    }
    proof {
        two_to_grows(i as nat, shift as nat);
        let s = two_to(i as nat);
        let t = two_to(shift as nat);
        assert(initial * s <= initial * t) by (nonlinear_arith)
            requires
                s <= t,
                initial >= 0,
        ;
    }
    if delay < max as u128 {
        delay as u64
    } else {
        max
    }
}

proof fn two_to_positive(n: nat)
    ensures
        two_to(n) >= 1,
    decreases n,
{
    if n > 0 {
        two_to_positive((n - 1) as nat);
    }
}

proof fn two_to_grows(m: nat, n: nat)
    requires
        m <= n,
    ensures
        two_to(m) <= two_to(n),
    decreases n,
{
    if m < n {
        two_to_positive((n - 1) as nat);
        two_to_grows(m, (n - 1) as nat);
    }
}

/// The wait never shrinks as attempts go on, and never passes the ceiling;
/// where the initial wait is within it, no wait is shorter than that.
pub proof fn backoff_grows(attempts: u32, initial: u64, max: u64)
    requires
        attempts < u32::MAX,
    ensures
        backoff_of(attempts, initial, max) <= backoff_of((attempts + 1) as u32, initial, max),
        backoff_of(attempts, initial, max) <= max,
        initial <= max ==> backoff_of(attempts, initial, max) >= initial,
{
    let d = doublings(attempts);
    two_to_positive(d);
    let t = two_to(d);
    assert(initial * t >= initial) by (nonlinear_arith)
        requires
            t >= 1,
            initial >= 0,
    ;
    if attempts > 0 {
        assert(two_to(d + 1) == 2 * t);
        assert(initial * (2 * t) >= initial * t) by (nonlinear_arith)
            requires
                t >= 1,
                initial >= 0,
        ;
    }
}

/// A pod waiting out its penalty, and when it comes due.
pub struct Entry {
    pub expiry: u64,
    pub pod: Arc<PodInfo>,
}

/// The pods serving backoff, ordered by when they come due; of equals, the
/// earlier arrival first.
pub struct BackoffQueue {
    pub entries: Vec<Entry>,
    pub initial: u64,
    pub max: u64,
}

/// A list of entries ordered by when they come due.
pub open spec fn by_expiry(e: Seq<Entry>) -> bool {
    forall|i: int, j: int|
        0 <= i < j < e.len() ==> (#[trigger] e[i]).expiry <= (#[trigger] e[j]).expiry
}

/// How many entries at the front are due.
pub open spec fn due(e: Seq<Entry>, now: u64) -> nat
    decreases e.len(),
{
    if e.len() == 0 || e[0].expiry > now {
        0
    } else {
        1 + due(e.skip(1), now)
    }
}

proof fn due_is(e: Seq<Entry>, now: u64, n: int)
    requires
        0 <= n <= e.len(),
        forall|k: int| 0 <= k < n ==> (#[trigger] e[k]).expiry <= now,
        n < e.len() ==> e[n].expiry > now,
    ensures
        due(e, now) == n,
    decreases e.len(),
{
    if e.len() > 0 && n > 0 {
        assert(e[0].expiry <= now);
        assert forall|k: int| 0 <= k < n - 1 implies (#[trigger] e.skip(1)[k]).expiry <= now by {
            assert(e[k + 1].expiry <= now);
        }
        due_is(e.skip(1), now, n - 1);
    }
}

pub proof fn due_bounds(e: Seq<Entry>, now: u64)
    ensures
        due(e, now) <= e.len(),
        forall|k: int| 0 <= k < due(e, now) ==> (#[trigger] e[k]).expiry <= now,
        due(e, now) < e.len() ==> e[due(e, now) as int].expiry > now,
    decreases e.len(),
{
    if e.len() > 0 && e[0].expiry <= now {
        due_bounds(e.skip(1), now);
        let n = due(e.skip(1), now);
        assert forall|k: int| 0 <= k < n + 1 implies (#[trigger] e[k]).expiry <= now by {
            if k > 0 {
                assert(e.skip(1)[k - 1] == e[k]);
            }
        }
    }
}

/// The pods of a list of entries.
pub open spec fn pods_of(e: Seq<Entry>) -> Seq<Arc<PodInfo>> {
    e.map_values(|x: Entry| x.pod)
}

/// A list with an entry put where it comes due, behind those due no later.
pub open spec fn scheduled(e: Seq<Entry>, entry: Entry) -> Seq<Entry> {
    e.insert(due(e, entry.expiry) as int, entry)
}

/// The entries of every pod but one.
pub open spec fn others(e: Seq<Entry>, uid: Seq<char>) -> Seq<Entry>
    decreases e.len(),
{
    if e.len() == 0 {
        Seq::empty()
    } else if e.last().pod.uid@ != uid {
        others(e.drop_last(), uid).push(e.last())
    } else {
        others(e.drop_last(), uid)
    }
}

/// Some entry is of the pod.
pub open spec fn waits(e: Seq<Entry>, uid: Seq<char>) -> bool {
    exists|i: int| 0 <= i < e.len() && (#[trigger] e[i]).pod.uid@ == uid
}

/// `now` plus a wait, within the type.
pub open spec fn later(now: u64, wait: int) -> int {
    if now + wait > u64::MAX {
        u64::MAX as int
    } else {
        now + wait
    }
}

pub fn later_by(now: u64, wait: u64) -> (r: u64)
    ensures
        r == later(now, wait as int),
{
    if now > u64::MAX - wait {
        u64::MAX
    } else {
        now + wait
    }
}

/// A pod's new projection with the queue's own fields of the old one.
pub open spec fn merged(result: PodInfo, updated: PodInfo, old: PodInfo) -> bool {
    &&& result.queued_at == old.queued_at
    &&& result.attempts == old.attempts
    &&& updated.same(
        &PodInfo { queued_at: updated.queued_at, attempts: updated.attempts, ..result },
    )
}

impl BackoffQueue {
    pub open spec fn wf(&self) -> bool {
        by_expiry(self.entries@)
    }

    pub fn new(initial: u64, max: u64) -> (r: Self)
        ensures
            r.wf(),
            r.entries@.len() == 0,
            r.initial == initial,
            r.max == max,
    {
        BackoffQueue { entries: Vec::new(), initial, max }
    }

    /// The delay this queue charges a pod on its `attempts`-th failure.
    pub fn delay_for(&self, attempts: u32) -> (r: u64)
        ensures
            r == backoff_of(attempts, self.initial, self.max),
    {
        backoff_duration(attempts, self.initial, self.max)
    }

    /// Charge a pod for a failed attempt, relative to `now`.
    pub fn push(&mut self, pod: Arc<PodInfo>, attempts: u32, now: u64)
        requires
            old(self).wf(),
        ensures
            final(self).wf(),
            final(self).initial == old(self).initial,
            final(self).max == old(self).max,
            final(self).entries@ == scheduled(
                old(self).entries@,
                Entry {
                    expiry: later(now, backoff_of(attempts, old(self).initial, old(self).max)) as u64,
                    pod,
                },
            ),
    {
        let expiry: u64 = later_by(now, self.delay_for(attempts));
        self.push_at(pod, expiry);
    }

    /// Enqueue with an expiry chosen by the caller.
    pub fn push_at(&mut self, pod: Arc<PodInfo>, expiry: u64)
        requires
            old(self).wf(),
        ensures
            final(self).wf(),
            final(self).initial == old(self).initial,
            final(self).max == old(self).max,
            final(self).entries@ == scheduled(old(self).entries@, Entry { expiry, pod }),
    {
        let mut at: usize = 0;
        while at < self.entries.len() && self.entries[at].expiry <= expiry
            invariant
                at <= self.entries@.len(),
                *self == *old(self),
                forall|k: int| 0 <= k < at ==> (#[trigger] self.entries@[k]).expiry <= expiry,
            decreases self.entries@.len() - at,
        {
            at += 1;
        }
        let ghost before = self.entries@;
        proof {
            due_is(before, expiry, at as int);
        }
        self.entries.insert(at, Entry { expiry, pod });
        proof {
            let after = self.entries@;
            assert forall|i: int, j: int| 0 <= i < j < after.len() implies (
            #[trigger] after[i]).expiry <= (#[trigger] after[j]).expiry by {
                let i0 = if i < at { i } else { i - 1 };
                let j0 = if j < at { j } else { j - 1 };
                if i != at && j != at {
                    assert(after[i] == before[i0] && after[j] == before[j0]);
                } else if j == at {
                    assert(after[i] == before[i]);
                } else {
                    assert(after[j] == before[j - 1]);
                    if j - 1 > at {
                        assert(before[at as int].expiry <= before[j - 1].expiry);
                    }
                }
            }
        }
    }

    /// When the first pod comes due.
    pub fn next_expiry(&self) -> (r: Option<u64>)
        requires
            self.wf(),
        ensures
            match r {
                Some(t) => self.entries@.len() > 0 && t == self.entries@[0].expiry && forall|i: int|
                    0 <= i < self.entries@.len() ==> t <= (#[trigger] self.entries@[i]).expiry,
                None => self.entries@.len() == 0,
            },
    {
        if self.entries.len() == 0 {
            return None;
        }
        Some(self.entries[0].expiry)
    }

    /// Every pod due at or before `now`, in order.
    pub fn pop_expired(&mut self, now: u64) -> (r: Vec<Arc<PodInfo>>)
        requires
            old(self).wf(),
        ensures
            final(self).wf(),
            final(self).initial == old(self).initial,
            final(self).max == old(self).max,
            r@ == pods_of(old(self).entries@.take(due(old(self).entries@, now) as int)),
            final(self).entries@ == old(self).entries@.skip(due(old(self).entries@, now) as int),
            forall|i: int| 0 <= i < final(self).entries@.len() ==> (#[trigger] final(self).entries@[i]).expiry > now,
    {
        let ghost before = self.entries@;
        let mut out: Vec<Arc<PodInfo>> = Vec::new();
        while self.entries.len() > 0 && self.entries[0].expiry <= now
            invariant
                out@.len() + self.entries@.len() == before.len(),
                self.entries@ == before.skip(out@.len() as int),
                self.initial == old(self).initial,
                self.max == old(self).max,
                by_expiry(before),
                forall|k: int|
                    0 <= k < out@.len() ==> #[trigger] out@[k] == before[k].pod && before[k].expiry
                        <= now,
            decreases self.entries@.len(),
        {
            let ghost n = out@.len() as int;
            assert(self.entries@[0] == before[n]);
            let e = self.entries.remove(0);
            out.push(e.pod);
            assert(self.entries@ =~= before.skip(n + 1));
        }
        proof {
            let n = out@.len() as int;
            assert forall|k: int| 0 <= k < n implies (#[trigger] before[k]).expiry <= now by {
                assert(out@[k] == before[k].pod);
            }
            if n < before.len() {
                assert(self.entries@[0] == before[n]);
            }
            due_is(before, now, n);
            assert(out@ =~= pods_of(before.take(n)));
            assert forall|i: int| 0 <= i < self.entries@.len() implies (
            #[trigger] self.entries@[i]).expiry > now by {
                assert(self.entries@[i] == before[n + i]);
                assert(self.entries@[0] == before[n]);
            }
            assert(by_expiry(self.entries@)) by {
                assert forall|i: int, j: int| 0 <= i < j < self.entries@.len() implies (
                #[trigger] self.entries@[i]).expiry <= (#[trigger] self.entries@[j]).expiry by {
                    assert(self.entries@[i] == before[n + i]);
                    assert(self.entries@[j] == before[n + j]);
                }
            }
        }
        out
    }

    /// Pull one pod out.
    pub fn remove(&mut self, uid: &str) -> (r: Option<Arc<PodInfo>>)
        requires
            old(self).wf(),
        ensures
            final(self).wf(),
            final(self).initial == old(self).initial,
            final(self).max == old(self).max,
            final(self).entries@ == others(old(self).entries@, uid@),
            r is Some <==> waits(old(self).entries@, uid@),
            r is Some ==> r->Some_0.uid@ == uid@ && pods_of(old(self).entries@).contains(
                r->Some_0,
            ),
    {
        let ghost before = self.entries@;
        let mut found: Option<Arc<PodInfo>> = None;
        let mut rest: Vec<Entry> = Vec::new();
        let mut i: usize = 0;
        while i < self.entries.len()
            invariant
                i <= self.entries@.len(),
                self.entries@ == before,
                self.initial == old(self).initial,
                self.max == old(self).max,
                rest@ == others(before.take(i as int), uid@),
                found is Some ==> exists|k: int|
                    0 <= k < i && #[trigger] before[k].pod == found->Some_0 && before[k].pod.uid@
                        == uid@,
                found is None ==> forall|k: int|
                    0 <= k < i ==> (#[trigger] before[k]).pod.uid@ != uid@,
            decreases self.entries@.len() - i,
        {
            let e = &self.entries[i];
            if text_eq(e.pod.uid.as_str(), uid) {
                found = Some(e.pod.clone());
                assert(before[i as int].pod == found->Some_0);
            } else {
                rest.push(Entry { expiry: e.expiry, pod: e.pod.clone() });
            }
            i += 1;
            assert(before.take(i as int).drop_last() =~= before.take(i - 1));
        }
        proof {
            assert(before.take(i as int) =~= before);
            others_ordered(before, uid@);
            if found is Some {
                let k = choose|k: int|
                    0 <= k < before.len() && #[trigger] before[k].pod == found->Some_0
                        && before[k].pod.uid@ == uid@;
                assert(pods_of(before)[k] == found->Some_0);
                assert(before[k].pod.uid@ == uid@);
            }
        }
        self.entries = rest;
        found
    }

    pub fn contains(&self, uid: &str) -> (r: bool)
        ensures
            r == waits(self.entries@, uid@),
    {
        let mut i: usize = 0;
        while i < self.entries.len()
            invariant
                i <= self.entries@.len(),
                forall|k: int| 0 <= k < i ==> (#[trigger] self.entries@[k]).pod.uid@ != uid@,
            decreases self.entries@.len() - i,
        {
            if text_eq(self.entries[i].pod.uid.as_str(), uid) {
                assert(self.entries@[i as int].pod.uid@ == uid@);
                return true;
            }
            i += 1;
        }
        false
    }

    /// Replace a pod's projection. Its deadline, its time of entry and its
    /// attempts stay.
    pub fn update(&mut self, updated: &Arc<PodInfo>) -> (r: bool)
        requires
            old(self).wf(),
        ensures
            final(self).wf(),
            final(self).initial == old(self).initial,
            final(self).max == old(self).max,
            r == waits(old(self).entries@, updated.uid@),
            final(self).entries@.len() == old(self).entries@.len(),
            forall|i: int|
                0 <= i < old(self).entries@.len() ==> {
                    &&& (#[trigger] final(self).entries@[i]).expiry == old(self).entries@[i].expiry
                    &&& if old(self).entries@[i].pod.uid@ == updated.uid@ {
                        merged(
                            *final(self).entries@[i].pod,
                            **updated,
                            *old(self).entries@[i].pod,
                        )
                    } else {
                        final(self).entries@[i].pod == old(self).entries@[i].pod
                    }
                },
    {
        let ghost before = self.entries@;
        let mut found = false;
        let mut next: Vec<Entry> = Vec::new();
        let mut i: usize = 0;
        while i < self.entries.len()
            invariant
                i <= self.entries@.len(),
                self.entries@ == before,
                self.initial == old(self).initial,
                self.max == old(self).max,
                next@.len() == i,
                found == waits(before.take(i as int), updated.uid@),
                forall|k: int|
                    0 <= k < i ==> {
                        &&& (#[trigger] next@[k]).expiry == before[k].expiry
                        &&& if before[k].pod.uid@ == updated.uid@ {
                            merged(*next@[k].pod, **updated, *before[k].pod)
                        } else {
                            next@[k].pod == before[k].pod
                        }
                    },
            decreases self.entries@.len() - i,
        {
            let e = &self.entries[i];
            if text_eq(e.pod.uid.as_str(), updated.uid.as_str()) {
                let mut fresh = (**updated).duplicate();
                fresh.queued_at = e.pod.queued_at;
                fresh.attempts = e.pod.attempts;
                next.push(Entry { expiry: e.expiry, pod: Arc::new(fresh) });
                found = true;
            } else {
                next.push(Entry { expiry: e.expiry, pod: e.pod.clone() });
            }
            i += 1;
            proof {
                waits_step(before, i - 1, updated.uid@);
            }
        }
        proof {
            assert(before.take(i as int) =~= before);
            assert forall|a: int, b: int| 0 <= a < b < next@.len() implies (
            #[trigger] next@[a]).expiry <= (#[trigger] next@[b]).expiry by {
                assert(next@[a].expiry == before[a].expiry);
                assert(next@[b].expiry == before[b].expiry);
            }
        }
        self.entries = next;
        found
    }

    pub fn len(&self) -> (r: usize)
        ensures
            r == self.entries@.len(),
    {
        self.entries.len()
    }

    pub fn is_empty(&self) -> (r: bool)
        ensures
            r == (self.entries@.len() == 0),
    {
        self.entries.len() == 0
    }
}

proof fn waits_step(e: Seq<Entry>, n: int, uid: Seq<char>)
    requires
        0 <= n < e.len(),
    ensures
        waits(e.take(n + 1), uid) == (waits(e.take(n), uid) || e[n].pod.uid@ == uid),
{
    let a = e.take(n + 1);
    let b = e.take(n);
    if waits(a, uid) {
        let k = choose|k: int| 0 <= k < a.len() && (#[trigger] a[k]).pod.uid@ == uid;
        if k < n {
            assert(b[k] == a[k]);
        }
    }
    if waits(b, uid) {
        let k = choose|k: int| 0 <= k < b.len() && (#[trigger] b[k]).pod.uid@ == uid;
        assert(a[k] == b[k]);
    }
    assert(a[n] == e[n]);
}

/// Leaving a pod out keeps the order, and leaves none of it.
pub proof fn others_ordered(e: Seq<Entry>, uid: Seq<char>)
    ensures
        by_expiry(e) ==> by_expiry(others(e, uid)),
        !waits(others(e, uid), uid),
        forall|i: int| 0 <= i < others(e, uid).len() ==> e.contains(#[trigger] others(e, uid)[i]),
    decreases e.len(),
{
    if e.len() > 0 {
        let t = e.drop_last();
        others_ordered(t, uid);
        let o = others(e, uid);
        let ot = others(t, uid);
        assert forall|i: int| 0 <= i < o.len() implies e.contains(#[trigger] o[i]) by {
            if i < ot.len() {
                assert(o[i] == ot[i]);
                assert(t.contains(ot[i]));
                let k = choose|k: int| 0 <= k < t.len() && t[k] == ot[i];
                assert(e[k] == o[i]);
            } else {
                assert(e[e.len() - 1] == o[i]);
            }
        }
        assert(!waits(o, uid)) by {
            if waits(o, uid) {
                let k = choose|k: int| 0 <= k < o.len() && (#[trigger] o[k]).pod.uid@ == uid;
                if k < ot.len() {
                    assert(ot[k] == o[k]);
                }
            }
        }
        if by_expiry(e) {
            assert(by_expiry(t)) by {
                assert forall|i: int, j: int| 0 <= i < j < t.len() implies (
                #[trigger] t[i]).expiry <= (#[trigger] t[j]).expiry by {
                    assert(t[i] == e[i] && t[j] == e[j]);
                }
            }
            assert forall|i: int, j: int| 0 <= i < j < o.len() implies (#[trigger] o[i]).expiry
                <= (#[trigger] o[j]).expiry by {
                assert(o[i] == ot[i]);
                if j < ot.len() {
                    assert(o[j] == ot[j]);
                } else {
                    assert(t.contains(ot[i]));
                    let k = choose|k: int| 0 <= k < t.len() && t[k] == ot[i];
                    assert(e[k] == ot[i] && e[e.len() - 1] == o[j]);
                }
            }
        }
    }
}

/// The first wait is the initial one, and each further failure doubles the wait,
/// up to the ceiling.
pub proof fn waits_double(attempts: u32, initial: u64, max: u64)
    requires
        1 <= attempts < HOPELESS_ATTEMPTS - 1,
    ensures
        backoff_of(0, initial, max) == backoff_of(1, initial, max),
        backoff_of(1, initial, max) == if initial < max {
            initial
        } else {
            max
        },
        backoff_of((attempts + 1) as u32, initial, max) == if 2 * backoff_of(
            attempts,
            initial,
            max,
        ) < max {
            2 * backoff_of(attempts, initial, max)
        } else {
            max as int
        },
{
    assert(two_to(0) == 1);
    assert(initial * 1 == initial);
    let d = doublings(attempts);
    let t = two_to(d);
    assert(two_to(d + 1) == 2 * t);
    assert(initial * (2 * t) == 2 * (initial * t)) by (nonlinear_arith);
    two_to_positive(d);
    assert(initial * t >= 0) by (nonlinear_arith)
        requires
            t >= 1,
            initial >= 0,
    ;
}

} // verus!
