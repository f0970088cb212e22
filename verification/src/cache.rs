//! Projections of pods, nodes and storage objects: what placement reads of
//! them, held as plain values.

use crate::api::{
    Affinity, LabelSelector, Node, NodeSelector, NodeSelectorTerm, Pod, PodSchedulingGate, Taint,
    Toleration, TopologySelectorTerm, TopologySpreadConstraint,
};
use crate::dra::{DeviceClass, PodClaimRef, ResourceClaim, ResourceSlice};
use crate::maps::{Labels, Same, StrMap};
use crate::text::{chars_of, has_prefix, joined, starts_with, text_eq};
use std::sync::Arc;
use vstd::prelude::*;

verus! {

/// A point in time: whole seconds since the epoch and the nanoseconds beyond
/// them, which carry the sign of the seconds.
#[derive(Clone, Copy, Debug, PartialEq, Eq, Structural, Default)]
pub struct Timestamp {
    pub second: i64,
    pub nanosecond: i32,
}

impl Timestamp {
    pub open spec fn before(self, other: Timestamp) -> bool {
        self.second < other.second || (self.second == other.second && self.nanosecond
            < other.nanosecond)
    }

    pub fn is_before(&self, other: &Timestamp) -> (r: bool)
        ensures
            r == self.before(*other),
    {
        self.second < other.second || (self.second == other.second && self.nanosecond
            < other.nanosecond)
    }
}

/// Amounts of resources by name: CPU in millicores, the rest in base units.
#[derive(Clone, Debug, Default)]
pub struct Resources {
    pub milli_cpu: i64,
    pub memory: i64,
    pub ephemeral_storage: i64,
    pub hugepages: StrMap<i64>,
    pub extended: StrMap<i64>,
}

/// The amount under a key, zero where there is none.
pub open spec fn amount_at(m: StrMap<i64>, k: Seq<char>) -> int {
    match m.at(k) {
        Some(v) => v as int,
        None => 0,
    }
}

/// The keys of the non-zero amounts, in the order of the map.
pub open spec fn nonzero_keys(e: Seq<(String, i64)>) -> Seq<Seq<char>>
    decreases e.len(),
{
    if e.len() == 0 {
        Seq::empty()
    } else if e.last().1 != 0 {
        nonzero_keys(e.drop_last()).push(e.last().0@)
    } else {
        nonzero_keys(e.drop_last())
    }
}

/// A name, if the amount under it is not zero.
pub open spec fn named(name: Seq<char>, amount: i64) -> Seq<Seq<char>> {
    if amount != 0 {
        seq![name]
    } else {
        Seq::empty()
    }
}

/// The larger of two bounds meets the smaller: a sum kept within `i64`.
pub open spec fn clamp64(n: int) -> int {
    if n > i64::MAX {
        i64::MAX as int
    } else if n < i64::MIN {
        i64::MIN as int
    } else {
        n
    }
}

pub fn sum64(a: i64, b: i64) -> (r: i64)
    ensures
        r == clamp64(a + b),
{
    let wide: i128 = (a as i128) + (b as i128);
    if wide > i64::MAX as i128 {
        i64::MAX
    } else if wide < i64::MIN as i128 {
        i64::MIN
    } else {
        wide as i64
    }
}

/// What is left of `n` after `m` is taken, and never less than nothing.
pub open spec fn reduced(n: int, m: int) -> int {
    if clamp64(n - m) < 0 {
        0
    } else {
        clamp64(n - m)
    }
}

pub fn difference64(a: i64, b: i64) -> (r: i64)
    ensures
        r == reduced(a as int, b as int),
{
    let wide: i128 = (a as i128) - (b as i128);
    if wide < 0 {
        0
    } else if wide > i64::MAX as i128 {
        i64::MAX
    } else {
        wide as i64
    }
}

impl Resources {
    /// How much of a resource there is.
    pub open spec fn amount(&self, name: Seq<char>) -> int {
        if name == "cpu"@ {
            self.milli_cpu as int
        } else if name == "memory"@ {
            self.memory as int
        } else if name == "ephemeral-storage"@ {
            self.ephemeral_storage as int
        } else if has_prefix(name, "hugepages-"@) {
            amount_at(self.hugepages, name)
        } else {
            amount_at(self.extended, name)
        }
    }

    /// The names of the resources there is some of, CPU first.
    pub open spec fn name_views(&self) -> Seq<Seq<char>> {
        named("cpu"@, self.milli_cpu) + named("memory"@, self.memory) + named(
            "ephemeral-storage"@,
            self.ephemeral_storage,
        ) + nonzero_keys(self.hugepages.entries@) + nonzero_keys(self.extended.entries@)
    }

    pub fn get(&self, name: &str) -> (r: i64)
        ensures
            r == self.amount(name@),
    {
        if text_eq(name, "cpu") {
            self.milli_cpu
        } else if text_eq(name, "memory") {
            self.memory
        } else if text_eq(name, "ephemeral-storage") {
            self.ephemeral_storage
        } else if starts_with(&chars_of(name), &chars_of("hugepages-")) {
            match self.hugepages.get(name) {
                Some(v) => *v,
                None => 0,
            }
        } else {
            match self.extended.get(name) {
                Some(v) => *v,
                None => 0,
            }
        }
    }

    pub fn set(&mut self, name: &str, value: i64)
        ensures
            forall|n: Seq<char>| #[trigger] final(self).amount(n) == if n == name@ {
                value as int
            } else {
                old(self).amount(n)
            },
    {
        if text_eq(name, "cpu") {
            self.milli_cpu = value;
        } else if text_eq(name, "memory") {
            self.memory = value;
        } else if text_eq(name, "ephemeral-storage") {
            self.ephemeral_storage = value;
        } else if starts_with(&chars_of(name), &chars_of("hugepages-")) {
            self.hugepages.insert(name.to_owned(), value);
        } else {
            self.extended.insert(name.to_owned(), value);
        }
    }

    pub fn names(&self) -> (r: Vec<String>)
        ensures
            crate::text::views(r@) == self.name_views(),
    {
        let mut out: Vec<String> = Vec::new();
        assert(crate::text::views(out@) =~= Seq::<Seq<char>>::empty());
        push_named(&mut out, "cpu", self.milli_cpu);
        push_named(&mut out, "memory", self.memory);
        push_named(&mut out, "ephemeral-storage", self.ephemeral_storage);
        push_nonzero(&mut out, &self.hugepages);
        push_nonzero(&mut out, &self.extended);
        proof {
            assert(crate::text::views(out@) =~= self.name_views());
        }
        out
    }

    /// Nothing of anything.
    pub fn none() -> (r: Self)
        ensures
            forall|n: Seq<char>| #[trigger] r.amount(n) == 0,
            r.name_views().len() == 0,
    {
        let r = Resources {
            milli_cpu: 0,
            memory: 0,
            ephemeral_storage: 0,
            hugepages: StrMap::new(),
            extended: StrMap::new(),
        };
        assert(r.name_views() =~= Seq::<Seq<char>>::empty());
        r
    }

    /// Equal amounts under the same names, in the same order.
    pub fn copy(&self) -> (r: Self)
        ensures
            r.same_amounts(self),
    {
        Resources {
            milli_cpu: self.milli_cpu,
            memory: self.memory,
            ephemeral_storage: self.ephemeral_storage,
            hugepages: copy_amounts(&self.hugepages),
            extended: copy_amounts(&self.extended),
        }
    }

    pub open spec fn same_amounts(&self, other: &Resources) -> bool {
        &&& self.milli_cpu == other.milli_cpu
        &&& self.memory == other.memory
        &&& self.ephemeral_storage == other.ephemeral_storage
        &&& self.hugepages.entries@ == other.hugepages.entries@
        &&& self.extended.entries@ == other.extended.entries@
    }

    /// Add another set of amounts to this one.
    pub fn add(&mut self, other: &Resources)
        ensures
            forall|n: Seq<char>| #[trigger] final(self).amount(n) == clamp64(
                old(self).amount(n) + other.amount(n),
            ),
    {
        self.milli_cpu = sum64(self.milli_cpu, other.milli_cpu);
        self.memory = sum64(self.memory, other.memory);
        self.ephemeral_storage = sum64(self.ephemeral_storage, other.ephemeral_storage);
        add_amounts(&mut self.hugepages, &other.hugepages);
        add_amounts(&mut self.extended, &other.extended);
    }

    /// Take another set of amounts from this one, stopping at zero.
    pub fn sub(&mut self, other: &Resources)
        ensures
            forall|n: Seq<char>| #[trigger] final(self).amount(n) == taken(
                old(self).amount(n),
                other.amount(n),
            ),
    {
        self.milli_cpu = less64(self.milli_cpu, other.milli_cpu);
        self.memory = less64(self.memory, other.memory);
        self.ephemeral_storage = less64(self.ephemeral_storage, other.ephemeral_storage);
        sub_amounts(&mut self.hugepages, &other.hugepages);
        sub_amounts(&mut self.extended, &other.extended);
    }
}

/// `n` when nothing is taken, else what is left and never less than nothing.
pub open spec fn taken(n: int, m: int) -> int {
    if m == 0 {
        n
    } else {
        reduced(n, m)
    }
}

pub fn less64(a: i64, b: i64) -> (r: i64)
    ensures
        r == taken(a as int, b as int),
{
    if b == 0 {
        a
    } else {
        difference64(a, b)
    }
}

fn push_named(out: &mut Vec<String>, name: &str, amount: i64)
    ensures
        crate::text::views(final(out)@) == crate::text::views(old(out)@) + named(name@, amount),
{
    let ghost before = out@;
    if amount != 0 {
        out.push(name.to_owned());
        assert(crate::text::views(out@) =~= crate::text::views(before).push(name@));
    }
    assert(crate::text::views(out@) =~= crate::text::views(before) + named(name@, amount));
}

fn push_nonzero(out: &mut Vec<String>, m: &StrMap<i64>)
    ensures
        crate::text::views(final(out)@) == crate::text::views(old(out)@) + nonzero_keys(
            m.entries@,
        ),
{
    let ghost before = out@;
    let mut i: usize = 0;
    assert(m.entries@.take(0) =~= Seq::empty());
    assert(crate::text::views(before) =~= crate::text::views(before) + Seq::<Seq<char>>::empty());
    while i < m.entries.len()
        invariant
            i <= m.entries@.len(),
            crate::text::views(out@) == crate::text::views(before) + nonzero_keys(
                m.entries@.take(i as int),
            ),
        decreases m.entries@.len() - i,
    {
        let ghost prior = out@;
        if m.entries[i].1 != 0 {
            out.push(m.entries[i].0.clone());
            assert(crate::text::views(out@) =~= crate::text::views(prior).push(
                m.entries@[i as int].0@,
            ));
        }
        i += 1;
        proof {
            assert(m.entries@.take(i as int).drop_last() =~= m.entries@.take(i - 1));
            assert(crate::text::views(out@) =~= crate::text::views(before) + nonzero_keys(
                m.entries@.take(i as int),
            ));
        }
    }
    assert(m.entries@.take(m.entries@.len() as int) =~= m.entries@);
}

pub fn copy_amounts(m: &StrMap<i64>) -> (r: StrMap<i64>)
    ensures
        r.entries@ == m.entries@,
{
    let mut out: Vec<(String, i64)> = Vec::new();
    let mut i: usize = 0;
    while i < m.entries.len()
        invariant
            i <= m.entries@.len(),
            out@ == m.entries@.take(i as int),
        decreases m.entries@.len() - i,
    {
        out.push((m.entries[i].0.clone(), m.entries[i].1));
        i += 1;
        proof {
            assert(m.entries@.take(i as int) =~= m.entries@.take(i - 1).push(m.entries@[i - 1]));
        }
    }
    assert(m.entries@.take(m.entries@.len() as int) =~= m.entries@);
    StrMap { entries: out }
}

/// Whether a key stands among the first `n` pairs.
pub open spec fn seen(e: Seq<(String, i64)>, n: int, k: Seq<char>) -> bool {
    exists|j: int| 0 <= j < n && (#[trigger] e[j]).0@ == k
}

fn add_amounts(m: &mut StrMap<i64>, other: &StrMap<i64>)
    ensures
        forall|k: Seq<char>| #[trigger] amount_at(*final(m), k) == clamp64(
            amount_at(*old(m), k) + amount_at(*other, k),
        ),
{
    let ghost before = *m;
    let mut i: usize = 0;
    while i < other.entries.len()
        invariant
            i <= other.entries@.len(),
            forall|k: Seq<char>| #[trigger] amount_at(*m, k) == if seen(
                other.entries@,
                i as int,
                k,
            ) {
                clamp64(amount_at(before, k) + amount_at(*other, k))
            } else {
                amount_at(before, k)
            },
        decreases other.entries@.len() - i,
    {
        let key = other.entries[i].0.as_str();
        let ghost prior = *m;
        let earlier = occurs_before(other, i);
        if !earlier {
            let current: i64 = match m.get(key) {
                Some(v) => *v,
                None => 0,
            };
            let extra: i64 = match other.get(key) {
                Some(v) => *v,
                None => 0,
            };
            m.insert(key.to_owned(), sum64(current, extra));
        }
        i += 1;
        proof {
            assert forall|k: Seq<char>| #[trigger] amount_at(*m, k) == if seen(
                other.entries@,
                i as int,
                k,
            ) {
                clamp64(amount_at(before, k) + amount_at(*other, k))
            } else {
                amount_at(before, k)
            } by {
                seen_step(other.entries@, i - 1, k);
                let was = amount_at(prior, k);
                assert(was == if seen(other.entries@, i - 1, k) {
                    amount_at(*m, k)
                } else {
                    amount_at(before, k)
                });
            }
        }
    }
    proof {
        assert forall|k: Seq<char>| #[trigger] amount_at(*m, k) == clamp64(
            amount_at(before, k) + amount_at(*other, k),
        ) by {
            if other.at(k) is Some {
                let j = crate::maps::find_key_index(other.entries@, k);
                assert(other.entries@[j].0@ == k);
                assert(seen(other.entries@, i as int, k));
            }
        }
    }
}

proof fn seen_step(e: Seq<(String, i64)>, n: int, k: Seq<char>)
    requires
        0 <= n < e.len(),
    ensures
        seen(e, n + 1, k) == (seen(e, n, k) || e[n].0@ == k),
{
    if seen(e, n + 1, k) {
        let j = choose|j: int| 0 <= j < n + 1 && (#[trigger] e[j]).0@ == k;
        if j < n {
            assert(seen(e, n, k));
        }
    }
    if seen(e, n, k) {
        let j = choose|j: int| 0 <= j < n && (#[trigger] e[j]).0@ == k;
        assert(0 <= j < n + 1 && e[j].0@ == k);
    }
    if e[n].0@ == k {
        assert(0 <= n < n + 1 && e[n].0@ == k);
    }
}

/// Whether the key of pair `i` occurs in an earlier pair.
fn occurs_before(m: &StrMap<i64>, i: usize) -> (r: bool)
    requires
        i < m.entries@.len(),
    ensures
        r == seen(m.entries@, i as int, m.entries@[i as int].0@),
{
    let mut j: usize = 0;
    while j < i
        invariant
            j <= i < m.entries@.len(),
            !seen(m.entries@, j as int, m.entries@[i as int].0@),
        decreases i - j,
    {
        if text_eq(m.entries[j].0.as_str(), m.entries[i].0.as_str()) {
            assert(m.entries@[j as int].0@ == m.entries@[i as int].0@);
            return true;
        }
        proof {
            seen_step(m.entries@, j as int, m.entries@[i as int].0@);
        }
        j += 1;
    }
    false
}

fn sub_amounts(m: &mut StrMap<i64>, other: &StrMap<i64>)
    ensures
        forall|k: Seq<char>| #[trigger] amount_at(*final(m), k) == taken(
            amount_at(*old(m), k),
            amount_at(*other, k),
        ),
{
    let ghost before = *m;
    let mut i: usize = 0;
    while i < other.entries.len()
        invariant
            i <= other.entries@.len(),
            forall|k: Seq<char>| #[trigger] amount_at(*m, k) == if seen(
                other.entries@,
                i as int,
                k,
            ) {
                taken(amount_at(before, k), amount_at(*other, k))
            } else {
                amount_at(before, k)
            },
        decreases other.entries@.len() - i,
    {
        let key = other.entries[i].0.as_str();
        let ghost prior = *m;
        let earlier = occurs_before(other, i);
        if !earlier {
            let current: i64 = match m.get(key) {
                Some(v) => *v,
                None => 0,
            };
            let extra: i64 = match other.get(key) {
                Some(v) => *v,
                None => 0,
            };
            m.insert(key.to_owned(), less64(current, extra));
        }
        i += 1;
        proof {
            assert forall|k: Seq<char>| #[trigger] amount_at(*m, k) == if seen(
                other.entries@,
                i as int,
                k,
            ) {
                taken(amount_at(before, k), amount_at(*other, k))
            } else {
                amount_at(before, k)
            } by {
                seen_step(other.entries@, i - 1, k);
                let was = amount_at(prior, k);
                assert(was == if seen(other.entries@, i - 1, k) {
                    amount_at(*m, k)
                } else {
                    amount_at(before, k)
                });
            }
        }
    }
    proof {
        assert forall|k: Seq<char>| #[trigger] amount_at(*m, k) == taken(
            amount_at(before, k),
            amount_at(*other, k),
        ) by {
            if other.at(k) is Some {
                let j = crate::maps::find_key_index(other.entries@, k);
                assert(other.entries@[j].0@ == k);
                assert(seen(other.entries@, i as int, k));
            }
        }
    }
}

/// A port a pod claims on its node's own address.
#[derive(Clone, Debug, Default)]
pub struct HostPort {
    pub protocol: String,
    pub ip: String,
    pub port: i32,
}

/// An address that stands for every address.
pub open spec fn wildcard(ip: Seq<char>) -> bool {
    ip == ""@ || ip == "0.0.0.0"@
}

impl HostPort {
    /// Two claims collide: same protocol and port, and either address is a
    /// wildcard or they are equal.
    pub open spec fn collides(&self, other: &HostPort) -> bool {
        &&& self.protocol@ == other.protocol@
        &&& self.port == other.port
        &&& (wildcard(self.ip@) || wildcard(other.ip@) || self.ip@ == other.ip@)
    }

    pub fn conflicts_with(&self, other: &HostPort) -> (r: bool)
        ensures
            r == self.collides(other),
    {
        self.port == other.port && text_eq(self.protocol.as_str(), other.protocol.as_str()) && (
        is_wildcard(self.ip.as_str()) || is_wildcard(other.ip.as_str()) || text_eq(
            self.ip.as_str(),
            other.ip.as_str(),
        ))
    }

    pub fn copy(&self) -> (r: Self)
        ensures
            r == *self,
    {
        HostPort { protocol: self.protocol.clone(), ip: self.ip.clone(), port: self.port }
    }
}

fn is_wildcard(ip: &str) -> (r: bool)
    ensures
        r == wildcard(ip@),
{
    text_eq(ip, "") || text_eq(ip, "0.0.0.0")
}

/// An image a node holds.
#[derive(Clone, Copy, Debug, Default)]
pub struct ImageState {
    pub size_bytes: i64,
    pub num_nodes: i64,
}

/// A node preference and what satisfying it is worth.
#[derive(Clone, Debug, Default)]
pub struct PreferredTerm {
    pub weight: i32,
    pub selector: NodeSelectorTerm,
}

/// A volume of a kind that predates claims, identified by what it mounts.
#[derive(Clone, Debug)]
pub enum LegacyVolumeId {
    GcePersistentDisk { pd_name: String, read_only: bool },
    AwsElasticBlockStore { volume_id: String },
    Iscsi { portal: String, iqn: String, lun: i32, read_only: bool },
    Rbd { monitors: Vec<String>, pool: String, image: String, read_only: bool },
    Cinder { volume_id: String },
}

impl LegacyVolumeId {
    /// Two volumes that cannot be mounted on one node together: the same
    /// backing store, unless its kind allows several readers and both only
    /// read.
    pub open spec fn clashes(&self, other: &LegacyVolumeId) -> bool {
        match (*self, *other) {
            (
                LegacyVolumeId::GcePersistentDisk { pd_name: a, read_only: ro_a },
                LegacyVolumeId::GcePersistentDisk { pd_name: b, read_only: ro_b },
            ) => a@ == b@ && !(ro_a && ro_b),
            (
                LegacyVolumeId::AwsElasticBlockStore { volume_id: a },
                LegacyVolumeId::AwsElasticBlockStore { volume_id: b },
            ) => a@ == b@,
            (
                LegacyVolumeId::Iscsi { iqn: a, read_only: ro_a, .. },
                LegacyVolumeId::Iscsi { iqn: b, read_only: ro_b, .. },
            ) => a@ == b@ && !(ro_a && ro_b),
            (
                LegacyVolumeId::Rbd { monitors: m_a, pool: p_a, image: i_a, read_only: ro_a },
                LegacyVolumeId::Rbd { monitors: m_b, pool: p_b, image: i_b, read_only: ro_b },
            ) => p_a@ == p_b@ && i_a@ == i_b@ && shares(m_a@, m_b@) && !(ro_a && ro_b),
            (
                LegacyVolumeId::Cinder { volume_id: a },
                LegacyVolumeId::Cinder { volume_id: b },
            ) => a@ == b@,
            _ => false,
        }
    }

    pub fn conflicts_with(&self, other: &LegacyVolumeId) -> (r: bool)
        ensures
            r == self.clashes(other),
    {
        match (self, other) {
            (
                LegacyVolumeId::GcePersistentDisk { pd_name: a, read_only: ro_a },
                LegacyVolumeId::GcePersistentDisk { pd_name: b, read_only: ro_b },
            ) => text_eq(a.as_str(), b.as_str()) && !(*ro_a && *ro_b),
            (
                LegacyVolumeId::AwsElasticBlockStore { volume_id: a },
                LegacyVolumeId::AwsElasticBlockStore { volume_id: b },
            ) => text_eq(a.as_str(), b.as_str()),
            (
                LegacyVolumeId::Iscsi { iqn: a, read_only: ro_a, .. },
                LegacyVolumeId::Iscsi { iqn: b, read_only: ro_b, .. },
            ) => text_eq(a.as_str(), b.as_str()) && !(*ro_a && *ro_b),
            (
                LegacyVolumeId::Rbd { monitors: m_a, pool: p_a, image: i_a, read_only: ro_a },
                LegacyVolumeId::Rbd { monitors: m_b, pool: p_b, image: i_b, read_only: ro_b },
            ) => text_eq(p_a.as_str(), p_b.as_str()) && text_eq(i_a.as_str(), i_b.as_str())
                && share_text(m_a, m_b) && !(*ro_a && *ro_b),
            (
                LegacyVolumeId::Cinder { volume_id: a },
                LegacyVolumeId::Cinder { volume_id: b },
            ) => text_eq(a.as_str(), b.as_str()),
            _ => false,
        }
    }
}

/// Two lists have a text in common.
pub open spec fn shares(a: Seq<String>, b: Seq<String>) -> bool {
    exists|i: int| 0 <= i < a.len() && crate::text::has_text(b, (#[trigger] a[i])@)
}

fn share_text(a: &Vec<String>, b: &Vec<String>) -> (r: bool)
    ensures
        r == shares(a@, b@),
{
    let mut i: usize = 0;
    while i < a.len()
        invariant
            i <= a@.len(),
            forall|k: int| 0 <= k < i ==> !crate::text::has_text(b@, (#[trigger] a@[k])@),
        decreases a@.len() - i,
    {
        if crate::text::contains_text(b, a[i].as_str()) {
            assert(crate::text::has_text(b@, a@[i as int]@));
            return true;
        }
        i += 1;
    }
    false
}

/// A pod, projected to what placement reads.
#[derive(Clone, Debug, Default)]
pub struct PodInfo {
    pub namespace: String,
    pub name: String,
    pub uid: String,
    pub priority: i32,
    /// When the pod first entered the queue; a failed attempt keeps it.
    pub queued_at: Timestamp,
    pub attempts: u32,
    pub labels: Labels,
    pub node_selector: Labels,
    pub node_affinity: Option<NodeSelector>,
    pub preferred_node_affinity: Vec<PreferredTerm>,
    pub tolerations: Vec<Toleration>,
    pub scheduling_gates: Vec<PodSchedulingGate>,
    pub host_ports: Vec<HostPort>,
    pub images: Vec<String>,
    pub container_count: usize,
    pub requests: Resources,
    pub node_name: Option<String>,
    pub affinity: Option<Affinity>,
    pub topology_spread_constraints: Vec<TopologySpreadConstraint>,
    pub pvc_names: Vec<String>,
    pub legacy_volumes: Arc<Vec<LegacyVolumeId>>,
    /// Drivers of inline CSI volumes, which are not attached and not counted.
    pub csi_ephemeral_drivers: Vec<String>,
    pub resource_claims: Vec<PodClaimRef>,
    /// Pod-local claim name to the claim generated for it, if any yet.
    pub resource_claim_statuses: StrMap<Option<String>>,
    pub scheduler_name: String,
    /// The whole object, kept where an extender may ask for it.
    pub api_object: Option<Arc<Pod>>,
}

/// Milli-CPU that scoring assumes of a pod that asks for none.
pub const DEFAULT_MILLI_CPU_REQUEST: i64 = 100;

/// Memory in bytes that scoring assumes of a pod that asks for none (200Mi).
pub const DEFAULT_MEMORY_REQUEST: i64 = 209715200;

/// The amount scoring counts: the request, or the default where there is none.
pub open spec fn scoring_amount(name: Seq<char>, amount: int) -> int {
    if name == "cpu"@ && amount == 0 {
        DEFAULT_MILLI_CPU_REQUEST as int
    } else if name == "memory"@ && amount == 0 {
        DEFAULT_MEMORY_REQUEST as int
    } else {
        amount
    }
}

/// `namespace/name`.
pub open spec fn object_key(namespace: Seq<char>, name: Seq<char>) -> Seq<char> {
    namespace + "/"@ + name
}

pub fn object_key_text(namespace: &str, name: &str) -> (r: String)
    ensures
        r@ == object_key(namespace@, name@),
{
    let head = joined(namespace, "/");
    joined(head.as_str(), name)
}

impl PodInfo {
    pub open spec fn key_view(&self) -> Seq<char> {
        object_key(self.namespace@, self.name@)
    }

    pub fn key(&self) -> (r: String)
        ensures
            r@ == self.key_view(),
    {
        object_key_text(self.namespace.as_str(), self.name.as_str())
    }

    /// The requests scoring counts, with a default for CPU and memory where
    /// the pod asks for none.
    pub fn non_zero_requests(&self) -> (r: Resources)
        ensures
            forall|n: Seq<char>| #[trigger] r.amount(n) == scoring_amount(
                n,
                self.requests.amount(n),
            ),
    {
        let mut out = self.requests.copy();
        proof {
            reveal_strlit("cpu");
            reveal_strlit("memory");
            assert("cpu"@.len() == 3 && "memory"@.len() == 6);
        }
        if out.milli_cpu == 0 {
            out.milli_cpu = DEFAULT_MILLI_CPU_REQUEST;
        }
        if out.memory == 0 {
            out.memory = DEFAULT_MEMORY_REQUEST;
        }
        out
    }
}

/// A node, projected to what placement reads.
#[derive(Clone, Debug, Default)]
pub struct NodeInfo {
    pub name: String,
    pub labels: Labels,
    pub taints: Vec<Taint>,
    pub allocatable: Resources,
    /// What the pods on the node asked for.
    pub requested: Resources,
    /// The same, with scoring's defaults.
    pub non_zero_requested: Resources,
    pub allocatable_pods: i64,
    pub used_ports: Vec<HostPort>,
    pub images: StrMap<ImageState>,
    pub unschedulable: bool,
    pub pods: Vec<Arc<PodInfo>>,
    pub pods_with_required_anti_affinity: Vec<Arc<PodInfo>>,
    pub generation: u64,
    pub api_object: Option<Arc<Node>>,
}

/// Whether a pod declares required anti-affinity.
pub open spec fn declares_anti_affinity(pod: PodInfo) -> bool {
    match pod.affinity {
        Some(a) => match a.pod_anti_affinity {
            Some(aa) => match aa.required_during_scheduling_ignored_during_execution {
                Some(terms) => terms@.len() > 0,
                None => false,
            },
            None => false,
        },
        None => false,
    }
}

fn has_anti_affinity(pod: &PodInfo) -> (r: bool)
    ensures
        r == declares_anti_affinity(*pod),
{
    match &pod.affinity {
        Some(a) => match &a.pod_anti_affinity {
            Some(aa) => match &aa.required_during_scheduling_ignored_during_execution {
                Some(terms) => terms.len() > 0,
                None => false,
            },
            None => false,
        },
        None => false,
    }
}

impl NodeInfo {
    /// Whether a claim collides with a port in use on the node.
    pub open spec fn port_taken(&self, want: HostPort) -> bool {
        exists|i: int|
            0 <= i < self.used_ports@.len() && want.collides(&#[trigger] self.used_ports@[i])
    }

    pub fn port_conflicts(&self, want: &HostPort) -> (r: bool)
        ensures
            r == self.port_taken(*want),
    {
        let mut i: usize = 0;
        while i < self.used_ports.len()
            invariant
                i <= self.used_ports@.len(),
                forall|k: int| 0 <= k < i ==> !want.collides(&#[trigger] self.used_ports@[k]),
            decreases self.used_ports@.len() - i,
        {
            if want.conflicts_with(&self.used_ports[i]) {
                assert(want.collides(&self.used_ports@[i as int]));
                return true;
            }
            i += 1;
        }
        false
    }

    pub fn pod_count(&self) -> (r: usize)
        ensures
            r == self.pods@.len(),
    {
        self.pods.len()
    }

    /// Commit a pod to this node.
    pub fn add_pod(&mut self, pod: Arc<PodInfo>, generation: u64)
        ensures
            final(self).name == old(self).name,
            final(self).labels == old(self).labels,
            final(self).taints == old(self).taints,
            final(self).allocatable == old(self).allocatable,
            final(self).allocatable_pods == old(self).allocatable_pods,
            final(self).images == old(self).images,
            final(self).unschedulable == old(self).unschedulable,
            final(self).api_object == old(self).api_object,
            final(self).generation == generation,
            final(self).pods@ == old(self).pods@.push(pod),
            final(self).pods_with_required_anti_affinity@ == if declares_anti_affinity(*pod) {
                old(self).pods_with_required_anti_affinity@.push(pod)
            } else {
                old(self).pods_with_required_anti_affinity@
            },
            final(self).used_ports@ == old(self).used_ports@ + pod.host_ports@,
            forall|n: Seq<char>| #[trigger] final(self).requested.amount(n) == clamp64(
                old(self).requested.amount(n) + pod.requests.amount(n),
            ),
            forall|n: Seq<char>| #[trigger] final(self).non_zero_requested.amount(n) == clamp64(
                old(self).non_zero_requested.amount(n) + scoring_amount(n, pod.requests.amount(n)),
            ),
    {
        let non_zero = pod.non_zero_requests();
        self.requested.add(&pod.requests);
        self.non_zero_requested.add(&non_zero);
        let ghost ports = self.used_ports@;
        let mut i: usize = 0;
        assert(ports + pod.host_ports@.take(0) =~= ports);
        while i < pod.host_ports.len()
            invariant
                i <= pod.host_ports@.len(),
                self.used_ports@ == ports + pod.host_ports@.take(i as int),
                *self == (NodeInfo { used_ports: self.used_ports, ..*self }),
                self.name == old(self).name,
                self.labels == old(self).labels,
                self.taints == old(self).taints,
                self.allocatable == old(self).allocatable,
                self.allocatable_pods == old(self).allocatable_pods,
                self.images == old(self).images,
                self.unschedulable == old(self).unschedulable,
                self.api_object == old(self).api_object,
                self.pods == old(self).pods,
                self.pods_with_required_anti_affinity
                    == old(self).pods_with_required_anti_affinity,
                forall|n: Seq<char>| #[trigger] self.requested.amount(n) == clamp64(
                    old(self).requested.amount(n) + pod.requests.amount(n),
                ),
                forall|n: Seq<char>| #[trigger] self.non_zero_requested.amount(n) == clamp64(
                    old(self).non_zero_requested.amount(n) + scoring_amount(
                        n,
                        pod.requests.amount(n),
                    ),
                ),
            decreases pod.host_ports@.len() - i,
        {
            self.used_ports.push(pod.host_ports[i].copy());
            i += 1;
            proof {
                assert(ports + pod.host_ports@.take(i as int) =~= (ports + pod.host_ports@.take(
                    i - 1,
                )).push(pod.host_ports@[i - 1]));
            }
        }
        assert(pod.host_ports@.take(pod.host_ports@.len() as int) =~= pod.host_ports@);
        if has_anti_affinity(&pod) {
            self.pods_with_required_anti_affinity.push(pod.clone());
        }
        self.pods.push(pod);
        self.generation = generation;
    }
}

/// A claim for storage.
#[derive(Clone, Debug, Default)]
pub struct PvcInfo {
    pub namespace: String,
    pub name: String,
    pub uid: String,
    pub volume_name: Option<String>,
    pub bound: bool,
    pub storage_class_name: Option<String>,
    pub requested_access_modes: Vec<String>,
    pub requested_bytes: i64,
    pub selector: Option<LabelSelector>,
    pub volume_mode: String,
}

impl PvcInfo {
    pub open spec fn key_view(&self) -> Seq<char> {
        object_key(self.namespace@, self.name@)
    }

    pub fn key(&self) -> (r: String)
        ensures
            r@ == self.key_view(),
    {
        object_key_text(self.namespace.as_str(), self.name.as_str())
    }

    /// Whether the claim may be used by one pod only, on whatever node.
    pub open spec fn exclusive(&self) -> bool {
        crate::text::has_text(self.requested_access_modes@, "ReadWriteOncePod"@)
    }

    pub fn wants_read_write_once_pod(&self) -> (r: bool)
        ensures
            r == self.exclusive(),
    {
        crate::text::contains_text(&self.requested_access_modes, "ReadWriteOncePod")
    }
}

/// A volume.
#[derive(Clone, Debug, Default)]
pub struct PvInfo {
    pub name: String,
    pub labels: Labels,
    pub node_affinity: Option<Arc<NodeSelector>>,
    pub csi_driver: Option<String>,
    pub csi_volume_handle: Option<String>,
    pub storage_class_name: Option<String>,
    pub access_modes: Vec<String>,
    pub capacity_bytes: i64,
    pub phase: String,
    pub volume_mode: String,
    /// Namespace and name of the claim the volume is set aside for.
    pub claim_ref: Option<(String, String)>,
    pub claim_ref_uid: Option<String>,
    pub deleting: bool,
    pub volume_attributes_class_name: Option<String>,
}

#[derive(Clone, Debug, Default)]
pub struct StorageClassInfo {
    pub name: String,
    pub provisioner: String,
    pub wait_for_first_consumer: bool,
    pub allowed_topologies: Arc<Vec<TopologySelectorTerm>>,
}

#[derive(Clone, Debug, Default)]
pub struct CsiDriverInfo {
    pub storage_capacity: bool,
}

#[derive(Clone, Debug, Default)]
pub struct CsiNodeInfo {
    /// Driver to its attach limit on the node; `None` is no limit.
    pub drivers: StrMap<Option<i32>>,
}

#[derive(Clone, Debug, Default)]
pub struct StorageCapacityInfo {
    pub storage_class_name: String,
    pub node_topology: Option<LabelSelector>,
    pub capacity_bytes: Option<i64>,
}

#[derive(Clone, Debug, Default)]
pub struct VolumeAttachmentInfo {
    pub pv_name: Option<String>,
    pub attacher: String,
    pub node_name: String,
}

/// A workload's selector over the pods of its namespace.
#[derive(Clone, Debug, Default)]
pub struct WorkloadSelector {
    pub namespace: String,
    pub selector: LabelSelector,
}

/// The cluster as one scheduling cycle sees it.
#[derive(Clone, Debug, Default)]
pub struct Snapshot {
    pub nodes: Vec<Arc<NodeInfo>>,
    pub nodes_with_pods_with_required_anti_affinity: Vec<Arc<NodeInfo>>,
    /// Namespace name to its labels.
    pub namespaces: Arc<StrMap<Labels>>,
    /// Claims by `namespace/name`.
    pub pvcs: StrMap<PvcInfo>,
    pub pvs: StrMap<PvInfo>,
    pub storage_classes: StrMap<StorageClassInfo>,
    pub csi_drivers: StrMap<CsiDriverInfo>,
    pub csi_nodes: StrMap<CsiNodeInfo>,
    pub storage_capacities: Vec<Arc<StorageCapacityInfo>>,
    pub volume_attachments: StrMap<VolumeAttachmentInfo>,
    /// Selectors of the services and controllers that may own pods.
    pub workloads: StrMap<WorkloadSelector>,
    /// Resource claims by `namespace/name`.
    pub resource_claims: StrMap<ResourceClaim>,
    pub device_classes: StrMap<DeviceClass>,
    pub resource_slices: StrMap<ResourceSlice>,
}

impl Same for Timestamp {
    open spec fn same(&self, other: &Self) -> bool {
        &&& self.second.same(&other.second)
        &&& self.nanosecond.same(&other.nanosecond)
    }

    fn is_same(&self, other: &Self) -> (r: bool) {
        self.second.is_same(&other.second) && self.nanosecond.is_same(&other.nanosecond)
    }

    fn duplicate(&self) -> (r: Self) {
        Timestamp {
            second: self.second.duplicate(),
            nanosecond: self.nanosecond.duplicate(),
        }
    }
}

impl Same for Resources {
    open spec fn same(&self, other: &Self) -> bool {
        &&& self.milli_cpu.same(&other.milli_cpu)
        &&& self.memory.same(&other.memory)
        &&& self.ephemeral_storage.same(&other.ephemeral_storage)
        &&& self.hugepages.same(&other.hugepages)
        &&& self.extended.same(&other.extended)
    }

    fn is_same(&self, other: &Self) -> (r: bool) {
        self.milli_cpu.is_same(&other.milli_cpu) && self.memory.is_same(&other.memory) && self.ephemeral_storage.is_same(&other.ephemeral_storage) && self.hugepages.is_same(&other.hugepages) && self.extended.is_same(&other.extended)
    }

    fn duplicate(&self) -> (r: Self) {
        Resources {
            milli_cpu: self.milli_cpu.duplicate(),
            memory: self.memory.duplicate(),
            ephemeral_storage: self.ephemeral_storage.duplicate(),
            hugepages: self.hugepages.duplicate(),
            extended: self.extended.duplicate(),
        }
    }
}

impl Same for HostPort {
    open spec fn same(&self, other: &Self) -> bool {
        &&& self.protocol.same(&other.protocol)
        &&& self.ip.same(&other.ip)
        &&& self.port.same(&other.port)
    }

    fn is_same(&self, other: &Self) -> (r: bool) {
        self.protocol.is_same(&other.protocol) && self.ip.is_same(&other.ip) && self.port.is_same(&other.port)
    }

    fn duplicate(&self) -> (r: Self) {
        HostPort {
            protocol: self.protocol.duplicate(),
            ip: self.ip.duplicate(),
            port: self.port.duplicate(),
        }
    }
}

impl Same for PreferredTerm {
    open spec fn same(&self, other: &Self) -> bool {
        &&& self.weight.same(&other.weight)
        &&& self.selector.same(&other.selector)
    }

    fn is_same(&self, other: &Self) -> (r: bool) {
        self.weight.is_same(&other.weight) && self.selector.is_same(&other.selector)
    }

    fn duplicate(&self) -> (r: Self) {
        PreferredTerm {
            weight: self.weight.duplicate(),
            selector: self.selector.duplicate(),
        }
    }
}

impl Same for PodInfo {
    open spec fn same(&self, other: &Self) -> bool {
        &&& self.namespace.same(&other.namespace)
        &&& self.name.same(&other.name)
        &&& self.uid.same(&other.uid)
        &&& self.priority.same(&other.priority)
        &&& self.queued_at.same(&other.queued_at)
        &&& self.attempts.same(&other.attempts)
        &&& self.labels.same(&other.labels)
        &&& self.node_selector.same(&other.node_selector)
        &&& self.node_affinity.same(&other.node_affinity)
        &&& self.preferred_node_affinity.same(&other.preferred_node_affinity)
        &&& self.tolerations.same(&other.tolerations)
        &&& self.scheduling_gates.same(&other.scheduling_gates)
        &&& self.host_ports.same(&other.host_ports)
        &&& self.images.same(&other.images)
        &&& self.container_count.same(&other.container_count)
        &&& self.requests.same(&other.requests)
        &&& self.node_name.same(&other.node_name)
        &&& self.affinity.same(&other.affinity)
        &&& self.topology_spread_constraints.same(&other.topology_spread_constraints)
        &&& self.pvc_names.same(&other.pvc_names)
        &&& self.legacy_volumes.same(&other.legacy_volumes)
        &&& self.csi_ephemeral_drivers.same(&other.csi_ephemeral_drivers)
        &&& self.resource_claims.same(&other.resource_claims)
        &&& self.resource_claim_statuses.same(&other.resource_claim_statuses)
        &&& self.scheduler_name.same(&other.scheduler_name)
        &&& self.api_object.same(&other.api_object)
    }

    fn is_same(&self, other: &Self) -> (r: bool) {
        self.namespace.is_same(&other.namespace) && self.name.is_same(&other.name) && self.uid.is_same(&other.uid) && self.priority.is_same(&other.priority) && self.queued_at.is_same(&other.queued_at) && self.attempts.is_same(&other.attempts) && self.labels.is_same(&other.labels) && self.node_selector.is_same(&other.node_selector) && self.node_affinity.is_same(&other.node_affinity) && self.preferred_node_affinity.is_same(&other.preferred_node_affinity) && self.tolerations.is_same(&other.tolerations) && self.scheduling_gates.is_same(&other.scheduling_gates) && self.host_ports.is_same(&other.host_ports) && self.images.is_same(&other.images) && self.container_count.is_same(&other.container_count) && self.requests.is_same(&other.requests) && self.node_name.is_same(&other.node_name) && self.affinity.is_same(&other.affinity) && self.topology_spread_constraints.is_same(&other.topology_spread_constraints) && self.pvc_names.is_same(&other.pvc_names) && self.legacy_volumes.is_same(&other.legacy_volumes) && self.csi_ephemeral_drivers.is_same(&other.csi_ephemeral_drivers) && self.resource_claims.is_same(&other.resource_claims) && self.resource_claim_statuses.is_same(&other.resource_claim_statuses) && self.scheduler_name.is_same(&other.scheduler_name) && self.api_object.is_same(&other.api_object)
    }

    fn duplicate(&self) -> (r: Self) {
        PodInfo {
            namespace: self.namespace.duplicate(),
            name: self.name.duplicate(),
            uid: self.uid.duplicate(),
            priority: self.priority.duplicate(),
            queued_at: self.queued_at.duplicate(),
            attempts: self.attempts.duplicate(),
            labels: self.labels.duplicate(),
            node_selector: self.node_selector.duplicate(),
            node_affinity: self.node_affinity.duplicate(),
            preferred_node_affinity: self.preferred_node_affinity.duplicate(),
            tolerations: self.tolerations.duplicate(),
            scheduling_gates: self.scheduling_gates.duplicate(),
            host_ports: self.host_ports.duplicate(),
            images: self.images.duplicate(),
            container_count: self.container_count.duplicate(),
            requests: self.requests.duplicate(),
            node_name: self.node_name.duplicate(),
            affinity: self.affinity.duplicate(),
            topology_spread_constraints: self.topology_spread_constraints.duplicate(),
            pvc_names: self.pvc_names.duplicate(),
            legacy_volumes: self.legacy_volumes.duplicate(),
            csi_ephemeral_drivers: self.csi_ephemeral_drivers.duplicate(),
            resource_claims: self.resource_claims.duplicate(),
            resource_claim_statuses: self.resource_claim_statuses.duplicate(),
            scheduler_name: self.scheduler_name.duplicate(),
            api_object: self.api_object.duplicate(),
        }
    }
}

impl Same for LegacyVolumeId {
    open spec fn same(&self, other: &Self) -> bool {
        match (*self, *other) {
            (
                LegacyVolumeId::GcePersistentDisk { pd_name: a, read_only: b },
                LegacyVolumeId::GcePersistentDisk { pd_name: c, read_only: d },
            ) => a.same(&c) && b == d,
            (
                LegacyVolumeId::AwsElasticBlockStore { volume_id: a },
                LegacyVolumeId::AwsElasticBlockStore { volume_id: b },
            ) => a.same(&b),
            (
                LegacyVolumeId::Iscsi { portal: a, iqn: b, lun: c, read_only: d },
                LegacyVolumeId::Iscsi { portal: e, iqn: f, lun: g, read_only: h },
            ) => a.same(&e) && b.same(&f) && c == g && d == h,
            (
                LegacyVolumeId::Rbd { monitors: a, pool: b, image: c, read_only: d },
                LegacyVolumeId::Rbd { monitors: e, pool: f, image: g, read_only: h },
            ) => a.same(&e) && b.same(&f) && c.same(&g) && d == h,
            (
                LegacyVolumeId::Cinder { volume_id: a },
                LegacyVolumeId::Cinder { volume_id: b },
            ) => a.same(&b),
            _ => false,
        }
    }

    fn is_same(&self, other: &Self) -> (r: bool) {
        match (self, other) {
            (
                LegacyVolumeId::GcePersistentDisk { pd_name: a, read_only: b },
                LegacyVolumeId::GcePersistentDisk { pd_name: c, read_only: d },
            ) => a.is_same(c) && *b == *d,
            (
                LegacyVolumeId::AwsElasticBlockStore { volume_id: a },
                LegacyVolumeId::AwsElasticBlockStore { volume_id: b },
            ) => a.is_same(b),
            (
                LegacyVolumeId::Iscsi { portal: a, iqn: b, lun: c, read_only: d },
                LegacyVolumeId::Iscsi { portal: e, iqn: f, lun: g, read_only: h },
            ) => a.is_same(e) && b.is_same(f) && *c == *g && *d == *h,
            (
                LegacyVolumeId::Rbd { monitors: a, pool: b, image: c, read_only: d },
                LegacyVolumeId::Rbd { monitors: e, pool: f, image: g, read_only: h },
            ) => a.is_same(e) && b.is_same(f) && c.is_same(g) && *d == *h,
            (
                LegacyVolumeId::Cinder { volume_id: a },
                LegacyVolumeId::Cinder { volume_id: b },
            ) => a.is_same(b),
            _ => false,
        }
    }

    fn duplicate(&self) -> (r: Self) {
        match self {
            LegacyVolumeId::GcePersistentDisk { pd_name, read_only } =>
                LegacyVolumeId::GcePersistentDisk {
                pd_name: pd_name.clone(),
                read_only: *read_only,
            },
            LegacyVolumeId::AwsElasticBlockStore { volume_id } =>
                LegacyVolumeId::AwsElasticBlockStore { volume_id: volume_id.clone() },
            LegacyVolumeId::Iscsi { portal, iqn, lun, read_only } => LegacyVolumeId::Iscsi {
                portal: portal.clone(),
                iqn: iqn.clone(),
                lun: *lun,
                read_only: *read_only,
            },
            LegacyVolumeId::Rbd { monitors, pool, image, read_only } => LegacyVolumeId::Rbd {
                monitors: monitors.duplicate(),
                pool: pool.clone(),
                image: image.clone(),
                read_only: *read_only,
            },
            LegacyVolumeId::Cinder { volume_id } => LegacyVolumeId::Cinder {
                volume_id: volume_id.clone(),
            },
        }
    }
}

/// The index of the first node with a name.
pub open spec fn node_index(nodes: Seq<Arc<NodeInfo>>, name: Seq<char>) -> Option<int>
    decreases nodes.len(),
{
    if nodes.len() == 0 {
        None
    } else if nodes[0].name@ == name {
        Some(0)
    } else {
        match node_index(nodes.skip(1), name) {
            Some(i) => Some(i + 1),
            None => None,
        }
    }
}

pub proof fn node_index_at(nodes: Seq<Arc<NodeInfo>>, name: Seq<char>, i: int)
    requires
        0 <= i < nodes.len(),
        nodes[i].name@ == name,
        forall|j: int| 0 <= j < i ==> (#[trigger] nodes[j]).name@ != name,
    ensures
        node_index(nodes, name) == Some(i),
    decreases i,
{
    if i > 0 {
        assert(nodes[0].name@ != name);
        assert forall|j: int| 0 <= j < i - 1 implies (#[trigger] nodes.skip(1)[j]).name@
            != name by {
            assert(nodes[j + 1].name@ != name);
        }
        node_index_at(nodes.skip(1), name, i - 1);
    }
}

pub proof fn node_index_none(nodes: Seq<Arc<NodeInfo>>, name: Seq<char>)
    requires
        forall|j: int| 0 <= j < nodes.len() ==> (#[trigger] nodes[j]).name@ != name,
    ensures
        node_index(nodes, name) is None,
    decreases nodes.len(),
{
    if nodes.len() > 0 {
        assert(nodes[0].name@ != name);
        assert forall|j: int| 0 <= j < nodes.skip(1).len() implies (#[trigger] nodes.skip(
            1,
        )[j]).name@ != name by {
            assert(nodes[j + 1].name@ != name);
        }
        node_index_none(nodes.skip(1), name);
    }
}

impl Snapshot {
    pub fn nodes(&self) -> (r: &Vec<Arc<NodeInfo>>)
        ensures
            r@ == self.nodes@,
    {
        &self.nodes
    }

    /// The first node with a name.
    pub open spec fn node_named(&self, name: Seq<char>) -> Option<Arc<NodeInfo>> {
        match node_index(self.nodes@, name) {
            Some(i) => Some(self.nodes@[i]),
            None => None,
        }
    }

    pub fn node(&self, name: &str) -> (r: Option<&Arc<NodeInfo>>)
        ensures
            match self.node_named(name@) {
                Some(n) => r == Some(&n),
                None => r is None,
            },
    {
        let mut i: usize = 0;
        while i < self.nodes.len()
            invariant
                i <= self.nodes@.len(),
                forall|j: int| 0 <= j < i ==> (#[trigger] self.nodes@[j]).name@ != name@,
            decreases self.nodes@.len() - i,
        {
            if text_eq(self.nodes[i].name.as_str(), name) {
                proof {
                    node_index_at(self.nodes@, name@, i as int);
                }
                return Some(&self.nodes[i]);
            }
            i += 1;
        }
        proof {
            node_index_none(self.nodes@, name@);
        }
        None
    }

    /// A claim by namespace and name.
    pub open spec fn claim(&self, namespace: Seq<char>, name: Seq<char>) -> Option<PvcInfo> {
        self.pvcs.at(object_key(namespace, name))
    }

    pub fn pvc(&self, namespace: &str, name: &str) -> (r: Option<&PvcInfo>)
        ensures
            match self.claim(namespace@, name@) {
                Some(p) => r == Some(&p),
                None => r is None,
            },
    {
        let key = object_key_text(namespace, name);
        self.pvcs.get(key.as_str())
    }

    pub fn pv(&self, name: &str) -> (r: Option<&PvInfo>)
        ensures
            match self.pvs.at(name@) {
                Some(p) => r == Some(&p),
                None => r is None,
            },
    {
        self.pvs.get(name)
    }

    pub fn storage_class(&self, name: &str) -> (r: Option<&StorageClassInfo>)
        ensures
            match self.storage_classes.at(name@) {
                Some(p) => r == Some(&p),
                None => r is None,
            },
    {
        self.storage_classes.get(name)
    }

    pub fn csi_driver(&self, name: &str) -> (r: Option<&CsiDriverInfo>)
        ensures
            match self.csi_drivers.at(name@) {
                Some(p) => r == Some(&p),
                None => r is None,
            },
    {
        self.csi_drivers.get(name)
    }

    pub fn csi_node(&self, name: &str) -> (r: Option<&CsiNodeInfo>)
        ensures
            match self.csi_nodes.at(name@) {
                Some(p) => r == Some(&p),
                None => r is None,
            },
    {
        self.csi_nodes.get(name)
    }

    /// A resource claim by namespace and name.
    pub open spec fn resource_claim_at(&self, namespace: Seq<char>, name: Seq<char>) -> Option<
        ResourceClaim,
    > {
        self.resource_claims.at(object_key(namespace, name))
    }

    pub fn resource_claim(&self, namespace: &str, name: &str) -> (r: Option<&ResourceClaim>)
        ensures
            match self.resource_claim_at(namespace@, name@) {
                Some(p) => r == Some(&p),
                None => r is None,
            },
    {
        let key = object_key_text(namespace, name);
        self.resource_claims.get(key.as_str())
    }
}

/// Two claims on host ports collide both ways or not at all, and a wildcard
/// collides with every claim of its protocol and port.
pub proof fn collisions_are_mutual(a: HostPort, b: HostPort)
    ensures
        a.collides(&b) == b.collides(&a),
        wildcard(a.ip@) && a.protocol@ == b.protocol@ && a.port == b.port ==> a.collides(&b),
{
}

/// Two volumes clash both ways or not at all.
pub proof fn clashes_are_mutual(a: LegacyVolumeId, b: LegacyVolumeId)
    ensures
        a.clashes(&b) == b.clashes(&a),
{
}

proof fn nonzero_key_listed(e: Seq<(String, i64)>, i: int)
    requires
        0 <= i < e.len(),
        e[i].1 != 0,
    ensures
        nonzero_keys(e).contains(e[i].0@),
    decreases e.len(),
{
    let k = nonzero_keys(e);
    if i == e.len() - 1 {
        assert(k[k.len() - 1] == e[i].0@);
    } else {
        let t = e.drop_last();
        nonzero_key_listed(t, i);
        let j = choose|j: int| 0 <= j < nonzero_keys(t).len() && nonzero_keys(t)[j] == e[i].0@;
        assert(k[j] == e[i].0@);
    }
}

/// Every resource that there is some of is named, whatever its kind.
pub proof fn every_resource_is_named(r: Resources, name: Seq<char>)
    requires
        r.amount(name) != 0,
    ensures
        r.name_views().contains(name),
{
    let a = named("cpu"@, r.milli_cpu);
    let b = named("memory"@, r.memory);
    let c = named("ephemeral-storage"@, r.ephemeral_storage);
    let d = nonzero_keys(r.hugepages.entries@);
    let e = nonzero_keys(r.extended.entries@);
    let all = r.name_views();
    assert(all == a + b + c + d + e);
    if name == "cpu"@ {
        assert(all[0] == name);
    } else if name == "memory"@ {
        assert(all[a.len() as int] == name);
    } else if name == "ephemeral-storage"@ {
        assert(all[(a.len() + b.len()) as int] == name);
    } else if has_prefix(name, "hugepages-"@) {
        let i = crate::maps::find_key_index(r.hugepages.entries@, name);
        nonzero_key_listed(r.hugepages.entries@, i);
        let j = choose|j: int| 0 <= j < d.len() && d[j] == name;
        assert(all[a.len() + b.len() + c.len() + j] == name);
    } else {
        let i = crate::maps::find_key_index(r.extended.entries@, name);
        nonzero_key_listed(r.extended.entries@, i);
        let j = choose|j: int| 0 <= j < e.len() && e[j] == name;
        assert(all[a.len() + b.len() + c.len() + d.len() + j] == name);
    }
}

} // verus!
