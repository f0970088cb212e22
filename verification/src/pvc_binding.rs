//! Which claims somebody waits for, and what was last seen of them.
//!
//! A waiter subscribes before it reads the claim, so that what is seen between
//! the two is kept for it. Claims that nobody waits for take no room.

use crate::maps::StrMap;
use vstd::prelude::*;

verus! {

/// A claim that somebody waits for.
#[derive(Clone, Copy)]
pub struct Entry {
    pub bound: bool,
    pub waiters: usize,
}

pub struct PvcBindingTracker {
    pub entries: StrMap<Entry>,
}

impl PvcBindingTracker {
    pub open spec fn wf(&self) -> bool {
        &&& self.entries.ordered()
        &&& forall|k: Seq<char>|
            (#[trigger] self.entries.at(k)) is Some ==> self.entries.at(k)->Some_0.waiters > 0
    }

    /// How many wait for a claim.
    pub open spec fn waiting(&self, k: Seq<char>) -> nat {
        match self.entries.at(k) {
            Some(e) => e.waiters as nat,
            None => 0,
        }
    }

    pub fn new() -> (r: Self)
        ensures
            r.wf(),
            r.entries.entries@.len() == 0,
            forall|k: Seq<char>| (#[trigger] r.entries.at(k)) is None,
    {
        PvcBindingTracker { entries: StrMap::new() }
    }

    /// Begin to wait for a claim.
    pub fn subscribe(&mut self, key: &str)
        requires
            old(self).wf(),
            old(self).waiting(key@) < usize::MAX,
        ensures
            final(self).wf(),
            forall|k: Seq<char>| #[trigger]
                final(self).entries.at(k) == if k == key@ {
                    Some(
                        match old(self).entries.at(k) {
                            Some(e) => Entry { bound: e.bound, waiters: (e.waiters + 1) as usize },
                            None => Entry { bound: false, waiters: 1 },
                        },
                    )
                } else {
                    old(self).entries.at(k)
                },
    {
        let entry = match self.entries.get(key) {
            Some(e) => Entry { bound: e.bound, waiters: e.waiters + 1 },
            None => Entry { bound: false, waiters: 1 },
        };
        self.entries.insert(key.to_owned(), entry);
    }

    /// Record what was seen of a claim, where somebody waits for it.
    pub fn observe(&mut self, key: &str, fully_bound: bool)
        requires
            old(self).wf(),
        ensures
            final(self).wf(),
            forall|k: Seq<char>| #[trigger]
                final(self).entries.at(k) == match old(self).entries.at(k) {
                    Some(e) => if k == key@ {
                        Some(Entry { bound: fully_bound, waiters: e.waiters })
                    } else {
                        Some(e)
                    },
                    None => None,
                },
    {
        let entry = match self.entries.get(key) {
            Some(e) => Entry { bound: fully_bound, waiters: e.waiters },
            None => {
                return ;
            },
        };
        self.entries.insert(key.to_owned(), entry);
    }

    /// Whether the claim was last seen bound.
    pub fn seen_bound(&self, key: &str) -> (r: bool)
        ensures
            r == (self.entries.at(key@) is Some && self.entries.at(key@)->Some_0.bound),
    {
        match self.entries.get(key) {
            Some(e) => e.bound,
            None => false,
        }
    }

    /// Stop waiting for a claim; the last to do so takes it off the list.
    pub fn release(&mut self, key: &str)
        requires
            old(self).wf(),
        ensures
            final(self).wf(),
            forall|k: Seq<char>| #[trigger]
                final(self).entries.at(k) == if k == key@ {
                    match old(self).entries.at(k) {
                        Some(e) => if e.waiters > 1 {
                            Some(Entry { bound: e.bound, waiters: (e.waiters - 1) as usize })
                        } else {
                            None
                        },
                        None => None,
                    }
                } else {
                    old(self).entries.at(k)
                },
    {
        let entry = match self.entries.get(key) {
            Some(e) => *e,
            None => {
                return ;
            },
        };
        if entry.waiters > 1 {
            self.entries.insert(
                key.to_owned(),
                Entry { bound: entry.bound, waiters: entry.waiters - 1 },
            );
        } else {
            self.entries.remove(key);
        }
    }

    /// How many claims are waited for.
    pub fn tracked_len(&self) -> (r: usize)
        ensures
            r == self.entries.entries@.len(),
    {
        self.entries.entries.len()
    }
}

/// What is seen between subscribing and looking is not lost: a claim seen bound
/// after somebody subscribed is found bound, whoever else comes and goes.
pub proof fn sightings_are_kept(
    subscribed: PvcBindingTracker,
    seen: PvcBindingTracker,
    key: Seq<char>,
)
    requires
        subscribed.wf(),
        subscribed.waiting(key) > 0,
        forall|k: Seq<char>| #[trigger]
            seen.entries.at(k) == match subscribed.entries.at(k) {
                Some(e) => if k == key {
                    Some(Entry { bound: true, waiters: e.waiters })
                } else {
                    Some(e)
                },
                None => None,
            },
    ensures
        seen.entries.at(key) is Some,
        seen.entries.at(key)->Some_0.bound,
        seen.waiting(key) == subscribed.waiting(key),
{
    let s = subscribed.entries.at(key);
}

/// Subscribing and releasing leaves as many waiters as before, and a claim that
/// nobody waited for is not kept.
pub proof fn release_undoes_subscribe(
    before: PvcBindingTracker,
    subscribed: PvcBindingTracker,
    after: PvcBindingTracker,
    key: Seq<char>,
)
    requires
        before.wf(),
        before.waiting(key) < usize::MAX,
        forall|k: Seq<char>| #[trigger]
            subscribed.entries.at(k) == if k == key {
                Some(
                    match before.entries.at(k) {
                        Some(e) => Entry { bound: e.bound, waiters: (e.waiters + 1) as usize },
                        None => Entry { bound: false, waiters: 1 },
                    },
                )
            } else {
                before.entries.at(k)
            },
        forall|k: Seq<char>| #[trigger]
            after.entries.at(k) == if k == key {
                match subscribed.entries.at(k) {
                    Some(e) => if e.waiters > 1 {
                        Some(Entry { bound: e.bound, waiters: (e.waiters - 1) as usize })
                    } else {
                        None
                    },
                    None => None,
                }
            } else {
                subscribed.entries.at(k)
            },
    ensures
        forall|k: Seq<char>| #[trigger] after.entries.at(k) == before.entries.at(k),
{
    assert forall|k: Seq<char>| #[trigger] after.entries.at(k) == before.entries.at(k) by {
        let s = subscribed.entries.at(k);
        let b = before.entries.at(k);
    }
}

} // verus!
