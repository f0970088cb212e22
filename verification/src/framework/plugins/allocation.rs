//! Handing out devices on one node: a search with backtracking.
//!
//! A problem is a list of asks, each with alternatives in order of preference,
//! and the devices at hand. A plan takes one alternative for each ask and the
//! devices for it. The search finds the first plan that works, in the order of
//! alternatives and then of devices, so that no early pick dooms a later ask.

use crate::dra::{BasicDevice, DeviceAttribute, DeviceConstraint, DeviceRequestAllocationResult};
use crate::text::{chars_of, cut, has_prefix, joined, split_once, starts_with, text_eq};
use std::sync::Arc;
use vstd::prelude::*;

verus! {

/// A device: its driver, its pool and its name there.
pub type DeviceId = (String, String, String);

/// A device of the node.
pub struct Candidate {
    pub driver: String,
    pub pool: String,
    pub name: String,
    pub basic: Arc<BasicDevice>,
}

/// One way to serve an ask.
pub struct Alternative {
    /// The name under which devices are handed out.
    pub result_name: String,
    pub class_known: bool,
    /// Take every device that matches, not a number of them.
    pub all_devices: bool,
    pub count: u64,
    /// Share devices with others.
    pub admin_access: bool,
    /// For each device: whether the selectors choose it.
    pub matching: Vec<bool>,
    /// For each device: whether it can be handed out as well.
    pub usable: Vec<bool>,
}

/// A request of a claim.
pub struct Ask {
    pub claim: usize,
    pub constraints: Option<Arc<Vec<DeviceConstraint>>>,
    pub alternatives: Vec<Alternative>,
}

pub struct Problem {
    pub devices: Vec<Candidate>,
    pub asks: Vec<Ask>,
}

/// What a plan takes for one ask: an alternative and devices, by index.
pub struct Choice {
    pub alternative: usize,
    pub picks: Vec<usize>,
}

pub type Selection = (usize, Seq<usize>);

pub open spec fn plan_view(v: Seq<Choice>) -> Seq<Selection> {
    v.map_values(|c: Choice| (c.alternative, c.picks@))
}

/// The value of an attribute.
pub enum CelAttr {
    Bool(bool),
    Int(i64),
    Str(String),
}

impl CelAttr {
    pub open spec fn agrees(self, other: CelAttr) -> bool {
        match (self, other) {
            (CelAttr::Bool(a), CelAttr::Bool(b)) => a == b,
            (CelAttr::Int(a), CelAttr::Int(b)) => a == b,
            (CelAttr::Str(a), CelAttr::Str(b)) => a@ == b@,
            _ => false,
        }
    }

    pub fn is_agreeing(&self, other: &CelAttr) -> (r: bool)
        ensures
            r == self.agrees(*other),
    {
        match (self, other) {
            (CelAttr::Bool(a), CelAttr::Bool(b)) => *a == *b,
            (CelAttr::Int(a), CelAttr::Int(b)) => *a == *b,
            (CelAttr::Str(a), CelAttr::Str(b)) => text_eq(a.as_str(), b.as_str()),
            _ => false,
        }
    }
}

/// The value that an attribute holds: the first of its fields that is set.
pub open spec fn attribute_value(a: DeviceAttribute) -> Option<CelAttr> {
    match a.bool {
        Some(b) => Some(CelAttr::Bool(b)),
        None => match a.int {
            Some(i) => Some(CelAttr::Int(i)),
            None => match a.string {
                Some(s) => Some(CelAttr::Str(s)),
                None => match a.version {
                    Some(v) => Some(CelAttr::Str(v)),
                    None => None,
                },
            },
        },
    }
}

pub fn value_of_attribute(a: &DeviceAttribute) -> (r: Option<CelAttr>)
    ensures
        r == attribute_value(*a),
{
    match a.bool {
        Some(b) => Some(CelAttr::Bool(b)),
        None => match a.int {
            Some(i) => Some(CelAttr::Int(i)),
            None => match &a.string {
                Some(s) => Some(CelAttr::Str(s.clone())),
                None => match &a.version {
                    Some(v) => Some(CelAttr::Str(v.clone())),
                    None => None,
                },
            },
        },
    }
}

/// The attribute of a name: by that name in full, else, where the name is of
/// the driver's own domain, by the part after the domain.
pub open spec fn attribute_of(basic: BasicDevice, driver: Seq<char>, name: Seq<char>) -> Option<
    CelAttr,
> {
    match basic.attributes {
        None => None,
        Some(attrs) => match attrs.at(name) {
            Some(a) => attribute_value(a),
            None => match cut(name, '/') {
                Some((domain, bare)) => if domain == driver {
                    match attrs.at(bare) {
                        Some(a) => attribute_value(a),
                        None => None,
                    }
                } else {
                    None
                },
                None => None,
            },
        },
    }
}

pub fn lookup_attribute(basic: &BasicDevice, driver: &str, qualified_name: &str) -> (r: Option<
    CelAttr,
>)
    ensures
        r == attribute_of(*basic, driver@, qualified_name@),
{
    let attrs = match &basic.attributes {
        Some(a) => a,
        None => {
            return None;
        },
    };
    match attrs.get(qualified_name) {
        Some(a) => value_of_attribute(a),
        None => match split_once(qualified_name, '/') {
            Some((domain, bare)) => if text_eq(domain.as_str(), driver) {
                match attrs.get(bare.as_str()) {
                    Some(a) => value_of_attribute(a),
                    None => None,
                }
            } else {
                None
            },
            None => None,
        },
    }
}

/// A constraint on these requests covers what is handed out under a name: by
/// the name of the request, or of the request that it is an alternative of.
pub open spec fn covers(requests: Seq<String>, result_name: Seq<char>) -> bool {
    requests.len() == 0 || exists|i: int|
        0 <= i < requests.len() && names_request(#[trigger] requests[i], result_name)
}

pub open spec fn names_request(request: String, result_name: Seq<char>) -> bool {
    request@ == result_name || has_prefix(result_name, request@ + "/"@)
}

pub fn constraint_applies(requests: &Vec<String>, result_name: &str) -> (r: bool)
    ensures
        r == covers(requests@, result_name@),
{
    if requests.len() == 0 {
        return true;
    }
    let chars = chars_of(result_name);
    let mut i: usize = 0;
    while i < requests.len()
        invariant
            i <= requests@.len(),
            chars@ == result_name@,
            forall|k: int| 0 <= k < i ==> !names_request(#[trigger] requests@[k], result_name@),
        decreases requests@.len() - i,
    {
        let prefix = joined(requests[i].as_str(), "/");
        let p = chars_of(prefix.as_str());
        if text_eq(requests[i].as_str(), result_name) || starts_with(&chars, &p) {
            assert(names_request(requests@[i as int], result_name@));
            return true;
        }
        i += 1;
    }
    false
}

/// The attribute that a constraint puts on what is handed out under a name.
pub open spec fn demand(c: DeviceConstraint, result_name: Seq<char>) -> Option<Seq<char>> {
    match c.match_attribute {
        Some(a) => if covers(c.requests@, result_name) {
            Some(a@)
        } else {
            None
        },
        None => None,
    }
}

pub open spec fn constraint_list(c: Option<Arc<Vec<DeviceConstraint>>>) -> Seq<DeviceConstraint> {
    match c {
        Some(v) => v@,
        None => Seq::empty(),
    }
}

/// The device has every attribute that the constraints put on the name.
pub open spec fn has_demanded(
    constraints: Seq<DeviceConstraint>,
    result_name: Seq<char>,
    device: Candidate,
) -> bool {
    forall|i: int|
        0 <= i < constraints.len() ==> meets_demand(#[trigger] constraints[i], result_name, device)
}

pub open spec fn meets_demand(c: DeviceConstraint, result_name: Seq<char>, device: Candidate) -> bool {
    match demand(c, result_name) {
        Some(a) => attribute_of(*device.basic, device.driver@, a) is Some,
        None => true,
    }
}

/// A constraint covers both names and the devices disagree on its attribute.
pub open spec fn disagree(
    c: DeviceConstraint,
    name: Seq<char>,
    device: Candidate,
    other_name: Seq<char>,
    other: Candidate,
) -> bool {
    demand(c, name) is Some && demand(c, other_name) is Some && match (
        attribute_of(*device.basic, device.driver@, c.match_attribute->Some_0@),
        attribute_of(*other.basic, other.driver@, c.match_attribute->Some_0@),
    ) {
        (Some(a), Some(b)) => !a.agrees(b),
        _ => true,
    }
}

pub open spec fn any_disagree(
    constraints: Seq<DeviceConstraint>,
    name: Seq<char>,
    device: Candidate,
    other_name: Seq<char>,
    other: Candidate,
) -> bool {
    exists|i: int|
        0 <= i < constraints.len() && disagree(
            #[trigger] constraints[i],
            name,
            device,
            other_name,
            other,
        )
}

pub open spec fn same_device(a: Candidate, b: Candidate) -> bool {
    a.driver@ == b.driver@ && a.pool@ == b.pool@ && a.name@ == b.name@
}

/// How many of the flags from `i` on are set.
pub open spec fn set_from(flags: Seq<bool>, i: int) -> nat
    decreases flags.len() - i,
{
    if i < 0 || i >= flags.len() {
        0
    } else if flags[i] {
        1 + set_from(flags, i + 1)
    } else {
        set_from(flags, i + 1)
    }
}

impl Problem {
    pub open spec fn alt(&self, k: int, a: int) -> Alternative {
        self.asks@[k].alternatives@[a]
    }

    pub open spec fn wf(&self) -> bool {
        forall|k: int, a: int|
            0 <= k < self.asks@.len() && 0 <= a < self.asks@[k].alternatives@.len() ==> {
                &&& (#[trigger] self.alt(k, a)).matching@.len() == self.devices@.len()
                &&& self.alt(k, a).usable@.len() == self.devices@.len()
            }
    }

    /// How many devices an alternative takes.
    pub open spec fn needed(&self, k: int, a: int) -> nat {
        if self.alt(k, a).all_devices {
            set_from(self.alt(k, a).matching@, 0)
        } else {
            self.alt(k, a).count as nat
        }
    }

    /// An alternative that can be taken: of a known class, and where it takes
    /// all that matches, something does.
    pub open spec fn eligible(&self, k: int, a: int) -> bool {
        self.alt(k, a).class_known && (self.alt(k, a).all_devices ==> self.needed(k, a) > 0)
    }

    /// Two picks that cannot both be made: the same device, unless one of them
    /// shares it, or, within a claim, devices that a constraint keeps apart.
    pub open spec fn clash(&self, k: int, a: int, i: int, l: int, b: int, j: int) -> bool {
        let x = self.alt(k, a);
        let y = self.alt(l, b);
        let d = self.devices@[i];
        let e = self.devices@[j];
        ||| !x.admin_access && !y.admin_access && same_device(d, e)
        ||| self.asks@[k].claim == self.asks@[l].claim && any_disagree(
            constraint_list(self.asks@[k].constraints),
            x.result_name@,
            d,
            y.result_name@,
            e,
        )
    }

    /// The lowest device that the pick at `j` may be.
    pub open spec fn floor(picks: Seq<usize>, j: int) -> int {
        if j == 0 {
            0
        } else {
            picks[j - 1] + 1
        }
    }

    /// A pick is in order: a usable device, after the one before it, with none
    /// left out that has to be taken, and with no clash with an earlier pick.
    pub open spec fn pick_ok(&self, plan: Seq<Selection>, k: int, j: int) -> bool {
        let a = plan[k].0 as int;
        let picks = plan[k].1;
        let i = picks[j] as int;
        &&& i < self.devices@.len()
        &&& self.alt(k, a).usable@[i]
        &&& Self::floor(picks, j) <= i
        &&& self.alt(k, a).all_devices ==> self.none_left_out(k, a, Self::floor(picks, j), i)
        &&& forall|l: int, m: int|
            #![trigger plan[l].1[m]]
            0 <= l <= k && 0 <= m < plan[l].1.len() && (l < k || m < j) ==> !self.clash(
                l,
                plan[l].0 as int,
                plan[l].1[m] as int,
                k,
                a,
                i,
            )
    }

    /// No device from `from` up to `to` matches.
    pub open spec fn none_left_out(&self, k: int, a: int, from: int, to: int) -> bool {
        forall|i: int| from <= i < to ==> !#[trigger] self.alt(k, a).matching@[i]
    }

    /// What a plan takes for an ask is in order, as far as it goes.
    pub open spec fn choice_ok(&self, plan: Seq<Selection>, k: int) -> bool {
        &&& plan[k].0 < self.asks@[k].alternatives@.len()
        &&& self.eligible(k, plan[k].0 as int)
        &&& plan[k].1.len() <= self.needed(k, plan[k].0 as int)
        &&& forall|j: int| 0 <= j < plan[k].1.len() ==> #[trigger] self.pick_ok(plan, k, j)
    }

    pub open spec fn served(&self, plan: Seq<Selection>, k: int) -> bool {
        plan[k].1.len() == self.needed(k, plan[k].0 as int)
    }

    /// A plan that serves every ask.
    pub open spec fn solves(&self, plan: Seq<Selection>) -> bool {
        &&& plan.len() == self.asks@.len()
        &&& forall|k: int| 0 <= k < plan.len() ==> #[trigger] self.choice_ok(plan, k)
        &&& forall|k: int| 0 <= k < plan.len() ==> #[trigger] self.served(plan, k)
    }

    /// The beginning of a plan: all but its last ask are served.
    pub open spec fn begun(&self, plan: Seq<Selection>) -> bool {
        &&& plan.len() <= self.asks@.len()
        &&& forall|k: int| 0 <= k < plan.len() ==> #[trigger] self.choice_ok(plan, k)
        &&& forall|k: int| 0 <= k < plan.len() - 1 ==> #[trigger] self.served(plan, k)
    }

    /// How many devices the last ask of a beginning still lacks.
    spec fn lacking(&self, plan: Seq<Selection>) -> int {
        if plan.len() == 0 {
            0
        } else {
            let k = plan.len() - 1;
            self.needed(k, plan[k].0 as int) - plan[k].1.len()
        }
    }
}

/// Plan `e` starts with the beginning `d`.
pub open spec fn extends(e: Seq<Selection>, d: Seq<Selection>) -> bool {
    &&& d.len() <= e.len()
    &&& forall|l: int| 0 <= l < d.len() - 1 ==> #[trigger] e[l] == d[l]
    &&& d.len() > 0 ==> {
        let k = d.len() - 1;
        &&& e[k].0 == d[k].0
        &&& d[k].1.len() <= e[k].1.len()
        &&& forall|m: int| 0 <= m < d[k].1.len() ==> #[trigger] e[k].1[m] == d[k].1[m]
    }
}

/// The plans agree up to ask `k`, where the first takes an earlier alternative.
pub open spec fn earlier_alternative(e: Seq<Selection>, r: Seq<Selection>, k: int) -> bool {
    &&& 0 <= k < e.len()
    &&& k < r.len()
    &&& forall|l: int| 0 <= l < k ==> #[trigger] e[l] == r[l]
    &&& e[k].0 < r[k].0
}

/// The plans agree up to pick `j` of ask `k`, where the first takes an earlier
/// device.
pub open spec fn earlier_pick(e: Seq<Selection>, r: Seq<Selection>, k: int, j: int) -> bool {
    &&& 0 <= k < e.len()
    &&& k < r.len()
    &&& forall|l: int| 0 <= l < k ==> #[trigger] e[l] == r[l]
    &&& e[k].0 == r[k].0
    &&& 0 <= j < e[k].1.len()
    &&& j < r[k].1.len()
    &&& forall|m: int| 0 <= m < j ==> #[trigger] e[k].1[m] == r[k].1[m]
    &&& e[k].1[j] < r[k].1[j]
}

/// Plan `e` comes before plan `r` in the order of preference.
pub open spec fn comes_before(e: Seq<Selection>, r: Seq<Selection>) -> bool {
    ||| exists|k: int| #[trigger] earlier_alternative(e, r, k)
    ||| exists|k: int, j: int| #[trigger] earlier_pick(e, r, k, j)
}

/// Plan `r` is the first of those that solve the problem and start with `d`.
pub open spec fn first_solution(p: Problem, d: Seq<Selection>, r: Seq<Selection>) -> bool {
    &&& p.solves(r)
    &&& extends(r, d)
    &&& forall|e: Seq<Selection>| #[trigger]
        p.solves(e) && extends(e, d) ==> !comes_before(e, r)
}

/// No plan that solves the problem starts with `d`.
pub open spec fn no_solution(p: Problem, d: Seq<Selection>) -> bool {
    forall|e: Seq<Selection>| #[trigger] p.solves(e) ==> !extends(e, d)
}

/// The plans are the same up to pick `j` of ask `k`.
spec fn alike(x: Seq<Selection>, y: Seq<Selection>, k: int, j: int) -> bool {
    &&& 0 <= k < x.len()
    &&& k < y.len()
    &&& forall|l: int| 0 <= l < k ==> #[trigger] x[l] == y[l]
    &&& x[k].0 == y[k].0
    &&& 0 <= j < x[k].1.len()
    &&& j < y[k].1.len()
    &&& forall|m: int| 0 <= m <= j ==> #[trigger] x[k].1[m] == y[k].1[m]
}

/// Whether a pick is in order depends on nothing after it.
proof fn alike_picks(p: Problem, x: Seq<Selection>, y: Seq<Selection>, k: int, j: int)
    requires
        alike(x, y, k, j),
        p.pick_ok(x, k, j),
    ensures
        p.pick_ok(y, k, j),
{
    let a = y[k].0 as int;
    let picks = y[k].1;
    let i = picks[j] as int;
    assert(x[k].1[j] == y[k].1[j]);
    if j > 0 {
        assert(x[k].1[j - 1] == y[k].1[j - 1]);
    }
    assert forall|l: int, m: int|
        #![trigger y[l].1[m]]
        0 <= l <= k && 0 <= m < y[l].1.len() && (l < k || m < j) implies !p.clash(
        l,
        y[l].0 as int,
        y[l].1[m] as int,
        k,
        a,
        i,
    ) by {
        if l < k {
            assert(x[l] == y[l]);
            assert(x[l].1[m] == y[l].1[m]);
        } else {
            assert(x[k].1[m] == y[k].1[m]);
        }
    }
}

/// A choice stays in order when the plan grows behind it.
proof fn alike_choices(p: Problem, x: Seq<Selection>, y: Seq<Selection>, k: int)
    requires
        0 <= k < x.len(),
        k < y.len(),
        forall|l: int| 0 <= l <= k ==> #[trigger] x[l] == y[l],
        p.choice_ok(x, k),
    ensures
        p.choice_ok(y, k),
{
    assert(x[k] == y[k]);
    assert forall|j: int| 0 <= j < y[k].1.len() implies #[trigger] p.pick_ok(y, k, j) by {
        assert(p.pick_ok(x, k, j));
        alike_picks(p, x, y, k, j);
    }
}

/// A plan that solves the problem and starts with a beginning whose asks are
/// all served has those choices.
proof fn served_choices(p: Problem, e: Seq<Selection>, d: Seq<Selection>)
    requires
        p.solves(e),
        p.begun(d),
        extends(e, d),
        d.len() > 0 ==> p.served(d, d.len() - 1),
    ensures
        forall|l: int| 0 <= l < d.len() ==> #[trigger] e[l] == d[l],
{
    if d.len() > 0 {
        let k = d.len() - 1;
        assert(p.served(e, k));
        assert(e[k].1 =~= d[k].1);
    }
}

/// Nothing comes before itself.
proof fn not_before_itself(e: Seq<Selection>)
    ensures
        !comes_before(e, e),
{
    if comes_before(e, e) {
        if exists|k: int| #[trigger] earlier_alternative(e, e, k) {
            let k = choose|k: int| #[trigger] earlier_alternative(e, e, k);
            assert(earlier_alternative(e, e, k));
        } else {
            let (k, j) = choose|k: int, j: int| #[trigger] earlier_pick(e, e, k, j);
            assert(earlier_pick(e, e, k, j));
        }
    }
}

/// Plans that agree before ask `k` and differ there are ordered there.
proof fn later_alternative(e: Seq<Selection>, r: Seq<Selection>, k: int)
    requires
        0 <= k < e.len(),
        k < r.len(),
        forall|l: int| 0 <= l < k ==> #[trigger] e[l] == r[l],
        e[k].0 > r[k].0,
    ensures
        !comes_before(e, r),
{
    if comes_before(e, r) {
        if exists|x: int| #[trigger] earlier_alternative(e, r, x) {
            let x = choose|x: int| #[trigger] earlier_alternative(e, r, x);
            if x < k {
                assert(e[x] == r[x]);
            } else if x > k {
                assert(e[k] == r[k]);
            }
        } else {
            let (x, j) = choose|x: int, j: int| #[trigger] earlier_pick(e, r, x, j);
            if x < k {
                assert(e[x] == r[x]);
            } else if x > k {
                assert(e[k] == r[k]);
            }
        }
    }
}

/// Plans that agree before pick `j` of ask `k` and differ there are ordered
/// there.
proof fn later_pick(e: Seq<Selection>, r: Seq<Selection>, k: int, j: int)
    requires
        0 <= k < e.len(),
        k < r.len(),
        forall|l: int| 0 <= l < k ==> #[trigger] e[l] == r[l],
        e[k].0 == r[k].0,
        0 <= j < e[k].1.len(),
        j < r[k].1.len(),
        forall|m: int| 0 <= m < j ==> #[trigger] e[k].1[m] == r[k].1[m],
        e[k].1[j] > r[k].1[j],
    ensures
        !comes_before(e, r),
{
    if comes_before(e, r) {
        if exists|x: int| #[trigger] earlier_alternative(e, r, x) {
            let x = choose|x: int| #[trigger] earlier_alternative(e, r, x);
            if x < k {
                assert(e[x] == r[x]);
            } else if x > k {
                assert(e[k] == r[k]);
            }
        } else {
            let (x, y) = choose|x: int, y: int| #[trigger] earlier_pick(e, r, x, y);
            if x < k {
                assert(e[x] == r[x]);
            } else if x > k {
                assert(e[k] == r[k]);
            } else if y < j {
                assert(e[k].1[y] == r[k].1[y]);
            } else if y > j {
                assert(e[k].1[j] == r[k].1[j]);
            }
        }
    }
}

/// Fewer flags are set from a later index on.
proof fn fewer_later(flags: Seq<bool>, i: int, j: int)
    requires
        0 <= i <= j,
    ensures
        set_from(flags, j) <= set_from(flags, i),
    decreases j - i,
{
    if i < j {
        fewer_later(flags, i + 1, j);
    }
}

/// The picks from `j` on are that many usable devices.
proof fn enough_usable(p: Problem, e: Seq<Selection>, k: int, j: int)
    requires
        p.wf(),
        0 <= k < e.len() <= p.asks@.len(),
        p.choice_ok(e, k),
        0 <= j < e[k].1.len(),
    ensures
        set_from(p.alt(k, e[k].0 as int).usable@, e[k].1[j] as int) >= e[k].1.len() - j,
    decreases e[k].1.len() - j,
{
    let flags = p.alt(k, e[k].0 as int).usable@;
    assert(p.pick_ok(e, k, j));
    if j + 1 < e[k].1.len() {
        assert(p.pick_ok(e, k, j + 1));
        enough_usable(p, e, k, j + 1);
        fewer_later(flags, e[k].1[j] + 1, e[k].1[j + 1] as int);
    }
}

fn count_set(flags: &Vec<bool>, from: usize) -> (r: usize)
    requires
        from <= flags@.len(),
    ensures
        r == set_from(flags@, from as int),
        r <= flags@.len() - from,
{
    let size: usize = flags.len();
    let mut i: usize = size;
    let mut n: usize = 0;
    while i > from
        invariant
            from <= i <= size == flags@.len(),
            n == set_from(flags@, i as int),
            n <= flags@.len() - i,
        decreases i,
    {
        i -= 1;
        if flags[i] {
            n += 1;
        }
    }
    n
}

impl Candidate {
    fn is_same_device(&self, other: &Candidate) -> (r: bool)
        ensures
            r == same_device(*self, *other),
    {
        text_eq(self.driver.as_str(), other.driver.as_str()) && text_eq(
            self.pool.as_str(),
            other.pool.as_str(),
        ) && text_eq(self.name.as_str(), other.name.as_str())
    }
}

/// Whether the device has every attribute that the constraints put on a name.
pub fn check_demands(
    constraints: &Option<Arc<Vec<DeviceConstraint>>>,
    result_name: &str,
    device: &Candidate,
) -> (r: bool)
    ensures
        r == has_demanded(constraint_list(*constraints), result_name@, *device),
{
    match constraints {
        None => true,
        Some(list) => {
            let mut i: usize = 0;
            while i < list.len()
                invariant
                    i <= list@.len(),
                    list@ == constraint_list(*constraints),
                    forall|k: int|
                        0 <= k < i ==> meets_demand(#[trigger] list@[k], result_name@, *device),
                decreases list@.len() - i,
            {
                let ok = match &list[i].match_attribute {
                    Some(a) => !constraint_applies(&list[i].requests, result_name)
                        || lookup_attribute(
                        &device.basic,
                        device.driver.as_str(),
                        a.as_str(),
                    ).is_some(),
                    None => true,
                };
                if !ok {
                    assert(!meets_demand(list@[i as int], result_name@, *device));
                    return false;
                }
                i += 1;
            }
            true
        },
    }
}

/// Whether a constraint keeps two devices apart.
fn check_disagreement(
    constraints: &Option<Arc<Vec<DeviceConstraint>>>,
    name: &str,
    device: &Candidate,
    other_name: &str,
    other: &Candidate,
) -> (r: bool)
    ensures
        r == any_disagree(constraint_list(*constraints), name@, *device, other_name@, *other),
{
    match constraints {
        None => false,
        Some(list) => {
            let mut i: usize = 0;
            while i < list.len()
                invariant
                    i <= list@.len(),
                    list@ == constraint_list(*constraints),
                    forall|k: int|
                        0 <= k < i ==> !disagree(
                            #[trigger] list@[k],
                            name@,
                            *device,
                            other_name@,
                            *other,
                        ),
                decreases list@.len() - i,
            {
                let apart = match &list[i].match_attribute {
                    Some(a) => {
                        if constraint_applies(&list[i].requests, name) && constraint_applies(
                            &list[i].requests,
                            other_name,
                        ) {
                            let x = lookup_attribute(
                                &device.basic,
                                device.driver.as_str(),
                                a.as_str(),
                            );
                            let y = lookup_attribute(
                                &other.basic,
                                other.driver.as_str(),
                                a.as_str(),
                            );
                            match (&x, &y) {
                                (Some(u), Some(v)) => !u.is_agreeing(v),
                                _ => true,
                            }
                        } else {
                            false
                        }
                    },
                    None => false,
                };
                if apart {
                    assert(disagree(list@[i as int], name@, *device, other_name@, *other));
                    return true;
                }
                i += 1;
            }
            false
        },
    }
}

impl Problem {
    fn need(&self, k: usize, a: usize) -> (r: u64)
        requires
            k < self.asks@.len(),
            a < self.asks@[k as int].alternatives@.len(),
        ensures
            r == self.needed(k as int, a as int),
    {
        let alt = &self.asks[k].alternatives[a];
        if alt.all_devices {
            count_set(&alt.matching, 0) as u64
        } else {
            alt.count
        }
    }

    fn is_eligible(&self, k: usize, a: usize) -> (r: bool)
        requires
            k < self.asks@.len(),
            a < self.asks@[k as int].alternatives@.len(),
        ensures
            r == self.eligible(k as int, a as int),
    {
        let alt = &self.asks[k].alternatives[a];
        alt.class_known && (!alt.all_devices || self.need(k, a) > 0)
    }

    fn is_clash(&self, k: usize, a: usize, i: usize, l: usize, b: usize, j: usize) -> (r: bool)
        requires
            k < self.asks@.len(),
            a < self.asks@[k as int].alternatives@.len(),
            i < self.devices@.len(),
            l < self.asks@.len(),
            b < self.asks@[l as int].alternatives@.len(),
            j < self.devices@.len(),
        ensures
            r == self.clash(k as int, a as int, i as int, l as int, b as int, j as int),
    {
        let x = &self.asks[k].alternatives[a];
        let y = &self.asks[l].alternatives[b];
        let d = &self.devices[i];
        let e = &self.devices[j];
        if !x.admin_access && !y.admin_access && d.is_same_device(e) {
            return true;
        }
        self.asks[k].claim == self.asks[l].claim && check_disagreement(
            &self.asks[k].constraints,
            x.result_name.as_str(),
            d,
            y.result_name.as_str(),
            e,
        )
    }

    /// Whether a device clashes with a pick that the plan has made.
    fn clashes_with(&self, plan: &Vec<Choice>, k: usize, a: usize, i: usize) -> (r: bool)
        requires
            self.wf(),
            self.begun(plan_view(plan@)),
            k < plan@.len(),
            a < self.asks@[k as int].alternatives@.len(),
            i < self.devices@.len(),
        ensures
            r == exists|l: int, m: int|
                0 <= l < plan@.len() && 0 <= m < plan@[l].picks@.len() && self.clash(
                    l,
                    plan@[l].alternative as int,
                    #[trigger] plan@[l].picks@[m] as int,
                    k as int,
                    a as int,
                    i as int,
                ),
    {
        let ghost d = plan_view(plan@);
        let mut l: usize = 0;
        while l < plan.len()
            invariant
                l <= plan@.len(),
                self.wf(),
                self.begun(d),
                d == plan_view(plan@),
                k < plan@.len(),
                a < self.asks@[k as int].alternatives@.len(),
                i < self.devices@.len(),
                forall|x: int, m: int|
                    0 <= x < l && 0 <= m < plan@[x].picks@.len() ==> !self.clash(
                        x,
                        plan@[x].alternative as int,
                        #[trigger] plan@[x].picks@[m] as int,
                        k as int,
                        a as int,
                        i as int,
                    ),
            decreases plan@.len() - l,
        {
            let choice = &plan[l];
            assert(self.choice_ok(d, l as int));
            assert(d[l as int] == (choice.alternative, choice.picks@));
            let mut m: usize = 0;
            while m < choice.picks.len()
                invariant
                    m <= choice.picks@.len(),
                    l < plan@.len(),
                    *choice == plan@[l as int],
                    self.wf(),
                    self.begun(d),
                    self.choice_ok(d, l as int),
                    d[l as int] == (choice.alternative, choice.picks@),
                    d == plan_view(plan@),
                    k < plan@.len(),
                    a < self.asks@[k as int].alternatives@.len(),
                    i < self.devices@.len(),
                    forall|y: int|
                        0 <= y < m ==> !self.clash(
                            l as int,
                            choice.alternative as int,
                            #[trigger] choice.picks@[y] as int,
                            k as int,
                            a as int,
                            i as int,
                        ),
                decreases choice.picks@.len() - m,
            {
                assert(self.pick_ok(d, l as int, m as int));
                if self.is_clash(l, choice.alternative, choice.picks[m], k, a, i) {
                    assert(plan@[l as int].picks@[m as int] == choice.picks@[m as int]);
                    return true;
                }
                m += 1;
            }
            l += 1;
        }
        false
    }

    /// Whether a device that matches lies between two indices.
    fn leaves_none_out(&self, k: usize, a: usize, from: usize, to: usize) -> (r: bool)
        requires
            self.wf(),
            k < self.asks@.len(),
            a < self.asks@[k as int].alternatives@.len(),
            to <= self.devices@.len(),
        ensures
            r == self.none_left_out(k as int, a as int, from as int, to as int),
    {
        let alt = &self.asks[k].alternatives[a];
        assert(*alt == self.alt(k as int, a as int));
        let mut i: usize = from;
        while i < to
            invariant
                from <= i,
                i <= to || i == from,
                to <= alt.matching@.len(),
                *alt == self.alt(k as int, a as int),
                forall|x: int| from <= x < i ==> !#[trigger] alt.matching@[x],
            decreases to - i,
        {
            if alt.matching[i] {
                assert(self.alt(k as int, a as int).matching@[i as int]);
                return false;
            }
            i += 1;
        }
        true
    }

    /// Find the first plan that starts with the beginning and solves the
    /// problem.
    fn search(&self, plan: &mut Vec<Choice>) -> (found: bool)
        requires
            self.wf(),
            self.begun(plan_view(old(plan)@)),
        ensures
            found ==> first_solution(*self, plan_view(old(plan)@), plan_view(final(plan)@)),
            !found ==> plan_view(final(plan)@) == plan_view(old(plan)@) && no_solution(
                *self,
                plan_view(old(plan)@),
            ),
        decreases
                self.asks@.len() - old(plan)@.len(),
                self.lacking(plan_view(old(plan)@)),
                1int,
    {
        let ghost d = plan_view(plan@);
        let k: usize = plan.len();
        if k > 0 {
            let last = &plan[k - 1];
            proof {
                assert(d[k - 1] == (last.alternative, last.picks@));
                assert(self.choice_ok(d, k - 1));
            }
            if (last.picks.len() as u64) < self.need(k - 1, last.alternative) {
                return self.try_devices(plan);
            }
            assert(self.served(d, k - 1));
        }
        if k == self.asks.len() {
            proof {
                assert forall|x: int| 0 <= x < d.len() implies #[trigger] self.served(d, x) by {
                }
                assert forall|e: Seq<Selection>| #[trigger]
                    self.solves(e) && extends(e, d) implies !comes_before(e, d) by {
                    served_choices(*self, e, d);
                    assert(e =~= d);
                    not_before_itself(d);
                }
            }
            return true;
        }
        self.try_alternatives(plan)
    }

    fn try_alternatives(&self, plan: &mut Vec<Choice>) -> (found: bool)
        requires
            self.wf(),
            self.begun(plan_view(old(plan)@)),
            old(plan)@.len() < self.asks@.len(),
            old(plan)@.len() > 0 ==> self.served(plan_view(old(plan)@), old(plan)@.len() - 1),
        ensures
            found ==> first_solution(*self, plan_view(old(plan)@), plan_view(final(plan)@)),
            !found ==> plan_view(final(plan)@) == plan_view(old(plan)@) && no_solution(
                *self,
                plan_view(old(plan)@),
            ),
        decreases
                self.asks@.len() - old(plan)@.len(),
                self.lacking(plan_view(old(plan)@)),
                0int,
    {
        let ghost d = plan_view(plan@);
        let k: usize = plan.len();
        let mut a: usize = 0;
        while a < self.asks[k].alternatives.len()
            invariant
                k < self.asks@.len(),
                a <= self.asks@[k as int].alternatives@.len(),
                self.wf(),
                self.begun(d),
                d == plan_view(old(plan)@),
                d == plan_view(plan@),
                d.len() == k,
                old(plan)@.len() == k,
                k > 0 ==> self.served(d, k - 1),
                forall|e: Seq<Selection>| #[trigger]
                    self.solves(e) && extends(e, d) ==> e[k as int].0 >= a,
            decreases self.asks@[k as int].alternatives@.len() - a,
        {
            let ghost next = d.push((a, Seq::<usize>::empty()));
            if self.is_eligible(k, a) {
                let choice = Choice { alternative: a, picks: Vec::new() };
                plan.push(choice);
                proof {
                    assert(choice.picks@ =~= Seq::<usize>::empty());
                    assert(plan_view(plan@) =~= next);
                    assert forall|x: int| 0 <= x < next.len() implies #[trigger] self.choice_ok(
                        next,
                        x,
                    ) by {
                        if x < k {
                            assert(self.choice_ok(d, x));
                            alike_choices(*self, d, next, x);
                        }
                    }
                    assert forall|x: int| 0 <= x < next.len() - 1 implies #[trigger] self.served(
                        next,
                        x,
                    ) by {
                        assert(next[x] == d[x]);
                        assert(self.served(d, x));
                    }
                }
                let found = self.search(plan);
                if found {
                    proof {
                        let r = plan_view(plan@);
                        assert(extends(r, d)) by {
                            assert forall|l: int| 0 <= l < d.len() implies #[trigger] r[l] == d[l] by {
                                assert(next[l] == d[l]);
                            }
                        }
                        assert forall|e: Seq<Selection>| #[trigger]
                            self.solves(e) && extends(e, d) implies !comes_before(e, r) by {
                            served_choices(*self, e, d);
                            if e[k as int].0 == a {
                                assert(extends(e, next)) by {
                                    assert forall|l: int| 0 <= l < next.len() - 1 implies
                                        #[trigger] e[l] == next[l] by {
                                        assert(e[l] == d[l]);
                                    }
                                }
                            } else {
                                assert forall|l: int| 0 <= l < k implies #[trigger] e[l] == r[l] by {
                                    assert(e[l] == d[l]);
                                    assert(r[l] == next[l]);
                                    assert(next[l] == d[l]);
                                }
                                assert(r[k as int].0 == next[k as int].0);
                                later_alternative(e, r, k as int);
                            }
                        }
                    }
                    return true;
                }
                let ghost longer = plan@;
                let _ = plan.pop();
                proof {
                    assert(plan_view(longer).drop_last() =~= plan_view(plan@));
                    assert(next.drop_last() =~= d);
                }
            }
            proof {
                assert forall|e: Seq<Selection>| #[trigger]
                    self.solves(e) && extends(e, d) implies e[k as int].0 >= a + 1 by {
                    if e[k as int].0 == a {
                        assert(self.choice_ok(e, k as int));
                        served_choices(*self, e, d);
                        assert(extends(e, next)) by {
                            assert forall|l: int| 0 <= l < next.len() - 1 implies #[trigger] e[l]
                                == next[l] by {
                                assert(e[l] == d[l]);
                            }
                        }
                    }
                }
            }
            a += 1;
        }
        proof {
            assert forall|e: Seq<Selection>| #[trigger] self.solves(e) implies !extends(e, d) by {
                if extends(e, d) {
                    assert(self.choice_ok(e, k as int));
                }
            }
        }
        false
    }

    fn try_devices(&self, plan: &mut Vec<Choice>) -> (found: bool)
        requires
            self.wf(),
            self.begun(plan_view(old(plan)@)),
            old(plan)@.len() > 0,
            self.lacking(plan_view(old(plan)@)) > 0,
        ensures
            found ==> first_solution(*self, plan_view(old(plan)@), plan_view(final(plan)@)),
            !found ==> plan_view(final(plan)@) == plan_view(old(plan)@) && no_solution(
                *self,
                plan_view(old(plan)@),
            ),
        decreases
                self.asks@.len() - old(plan)@.len(),
                self.lacking(plan_view(old(plan)@)),
                0int,
    {
        let ghost d = plan_view(plan@);
        let k: usize = plan.len() - 1;
        let a: usize = plan[k].alternative;
        let j: usize = plan[k].picks.len();
        let ghost picks = plan@[k as int].picks@;
        proof {
            assert(d[k as int] == (a, picks));
            assert(self.choice_ok(d, k as int));
            if j > 0 {
                assert(self.pick_ok(d, k as int, j - 1));
            }
            let alt = self.alt(k as int, a as int);
            assert(alt.usable@.len() == self.devices@.len());
        }
        let need: u64 = self.need(k, a);
        let n: usize = self.devices.len();
        let floor: usize = if j == 0 {
            0
        } else {
            plan[k].picks[j - 1] + 1
        };
        proof {
            assert forall|e: Seq<Selection>| #[trigger]
                self.solves(e) && extends(e, d) implies e[k as int].1[j as int] >= floor by {
                assert(self.choice_ok(e, k as int));
                assert(self.served(e, k as int));
                assert(self.pick_ok(e, k as int, j as int));
                if j > 0 {
                    assert(e[k as int].1[j - 1] == d[k as int].1[j - 1]);
                }
            }
        }
        let mut left: usize = count_set(&self.asks[k].alternatives[a].usable, floor);
        let mut i: usize = floor;
        while i < n && (left as u64) >= need - (j as u64)
            invariant
                floor <= i <= n == self.devices@.len(),
                k < self.asks@.len(),
                a < self.asks@[k as int].alternatives@.len(),
                self.wf(),
                self.begun(d),
                d == plan_view(old(plan)@),
                d == plan_view(plan@),
                d.len() == k + 1,
                old(plan)@.len() == k + 1,
                d[k as int] == (a, picks),
                picks.len() == j,
                floor == Problem::floor(picks, j as int),
                need == self.needed(k as int, a as int),
                j < need,
                self.alt(k as int, a as int).usable@.len() == n,
                left == set_from(self.alt(k as int, a as int).usable@, i as int),
                forall|e: Seq<Selection>| #[trigger]
                    self.solves(e) && extends(e, d) ==> e[k as int].1[j as int] >= i,
            decreases n - i,
        {
            let ghost longer_picks = picks.push(i);
            let ghost next = d.update(k as int, (a, longer_picks));
            let alt = &self.asks[k].alternatives[a];
            assert(*alt == self.alt(k as int, a as int));
            let usable = alt.usable[i];
            let fits = usable && !self.clashes_with(plan, k, a, i) && (!alt.all_devices
                || self.leaves_none_out(k, a, floor, i));
            proof {
                assert(fits == self.pick_ok(next, k as int, j as int)) by {
                    fits_is_ok(*self, plan@, d, next, k as int, j as int, fits);
                }
            }
            if fits {
                self.extend_plan(plan, i);
                proof {
                    assert(plan_view(plan@) == next);
                    grown_begun(*self, d, next, k as int, j as int);
                }
                let found = self.search(plan);
                if found {
                    proof {
                        let r = plan_view(plan@);
                        grown_first(*self, d, next, r, k as int, j as int, i);
                    }
                    return true;
                }
                self.shrink_plan(plan);
                proof {
                    assert(next[k as int].1.drop_last() =~= picks);
                    assert(next.update(k as int, (a, picks)) =~= d);
                }
            }
            proof {
                assert forall|e: Seq<Selection>| #[trigger]
                    self.solves(e) && extends(e, d) implies e[k as int].1[j as int] >= i + 1 by {
                    if e[k as int].1[j as int] == i {
                        assert(self.choice_ok(e, k as int));
                        assert(self.served(e, k as int));
                        assert(self.pick_ok(e, k as int, j as int));
                        grown_extends(e, d, next, k as int, j as int, i);
                        alike_picks(*self, e, next, k as int, j as int);
                    }
                }
            }
            if usable {
                left -= 1;
            }
            i += 1;
        }
        proof {
            assert forall|e: Seq<Selection>| #[trigger] self.solves(e) implies !extends(e, d) by {
                if extends(e, d) {
                    assert(self.choice_ok(e, k as int));
                    assert(self.served(e, k as int));
                    assert(self.pick_ok(e, k as int, j as int));
                    enough_usable(*self, e, k as int, j as int);
                    fewer_later(
                        self.alt(k as int, a as int).usable@,
                        i as int,
                        e[k as int].1[j as int] as int,
                    );
                }
            }
        }
        false
    }

    fn extend_plan(&self, plan: &mut Vec<Choice>, i: usize)
        requires
            old(plan)@.len() > 0,
        ensures
            ({
                let d = plan_view(old(plan)@);
                let k = d.len() - 1;
                plan_view(final(plan)@) == d.update(k, (d[k].0, d[k].1.push(i)))
            }),
    {
        let ghost d = plan_view(plan@);
        let k: usize = plan.len() - 1;
        match plan.pop() {
            Some(mut choice) => {
                choice.picks.push(i);
                plan.push(choice);
            },
            None => {},
        }
        assert(plan_view(plan@) =~= d.update(k as int, (d[k as int].0, d[k as int].1.push(i))));
    }

    fn shrink_plan(&self, plan: &mut Vec<Choice>)
        requires
            old(plan)@.len() > 0,
            old(plan)@.last().picks@.len() > 0,
        ensures
            ({
                let d = plan_view(old(plan)@);
                let k = d.len() - 1;
                plan_view(final(plan)@) == d.update(k, (d[k].0, d[k].1.drop_last()))
            }),
    {
        let ghost d = plan_view(plan@);
        let k: usize = plan.len() - 1;
        match plan.pop() {
            Some(mut choice) => {
                let _ = choice.picks.pop();
                plan.push(choice);
            },
            None => {},
        }
        assert(plan_view(plan@) =~= d.update(k as int, (d[k as int].0, d[k as int].1.drop_last())));
    }

    /// The first plan that serves every ask, if there is one.
    pub fn solve(&self) -> (r: Option<Vec<Choice>>)
        requires
            self.wf(),
        ensures
            match r {
                Some(plan) => {
                    &&& self.solves(plan_view(plan@))
                    &&& forall|e: Seq<Selection>| #[trigger]
                        self.solves(e) ==> !comes_before(e, plan_view(plan@))
                },
                None => forall|e: Seq<Selection>| !#[trigger] self.solves(e),
            },
    {
        let mut plan: Vec<Choice> = Vec::new();
        let ghost d = plan_view(plan@);
        assert(d.len() == 0);
        if self.search(&mut plan) {
            proof {
                assert forall|e: Seq<Selection>| #[trigger] self.solves(e) implies !comes_before(
                    e,
                    plan_view(plan@),
                ) by {
                    assert(extends(e, d));
                }
            }
            Some(plan)
        } else {
            proof {
                assert forall|e: Seq<Selection>| !#[trigger] self.solves(e) by {
                    assert(extends(e, d));
                }
            }
            None
        }
    }
}

/// What the search tests of a device is what makes it a pick in order.
proof fn fits_is_ok(
    p: Problem,
    plan: Seq<Choice>,
    d: Seq<Selection>,
    next: Seq<Selection>,
    k: int,
    j: int,
    fits: bool,
)
    requires
        d == plan_view(plan),
        k == plan.len() - 1,
        k >= 0,
        j == plan[k].picks@.len(),
        next == d.update(k, (d[k].0, d[k].1.push(next[k].1[j]))),
        next[k].1[j] < p.devices@.len(),
        Problem::floor(d[k].1, j) <= next[k].1[j],
        fits == (p.alt(k, d[k].0 as int).usable@[next[k].1[j] as int] && !(exists|
            l: int,
            m: int,
        |
            0 <= l < plan.len() && 0 <= m < plan[l].picks@.len() && p.clash(
                l,
                plan[l].alternative as int,
                #[trigger] plan[l].picks@[m] as int,
                k,
                d[k].0 as int,
                next[k].1[j] as int,
            )) && (!p.alt(k, d[k].0 as int).all_devices || p.none_left_out(
            k,
            d[k].0 as int,
            Problem::floor(d[k].1, j),
            next[k].1[j] as int,
        ))),
    ensures
        fits == p.pick_ok(next, k, j),
{
    let a = d[k].0 as int;
    let i = next[k].1[j] as int;
    assert(d[k] == (plan[k].alternative, plan[k].picks@));
    assert(next[k].0 == d[k].0);
    if j > 0 {
        assert(next[k].1[j - 1] == d[k].1[j - 1]);
    }
    assert(Problem::floor(next[k].1, j) == Problem::floor(d[k].1, j));
    if fits {
        assert forall|l: int, m: int|
            #![trigger next[l].1[m]]
            0 <= l <= k && 0 <= m < next[l].1.len() && (l < k || m < j) implies !p.clash(
            l,
            next[l].0 as int,
            next[l].1[m] as int,
            k,
            a,
            i,
        ) by {
            assert(d[l] == (plan[l].alternative, plan[l].picks@));
            if l < k {
                assert(next[l] == d[l]);
            } else {
                assert(next[k].1[m] == d[k].1[m]);
            }
            assert(next[l].1[m] == plan[l].picks@[m]);
        }
    }
    if p.pick_ok(next, k, j) {
        assert forall|l: int, m: int|
            0 <= l < plan.len() && 0 <= m < plan[l].picks@.len() implies !p.clash(
            l,
            plan[l].alternative as int,
            #[trigger] plan[l].picks@[m] as int,
            k,
            a,
            i,
        ) by {
            assert(d[l] == (plan[l].alternative, plan[l].picks@));
            if l < k {
                assert(next[l] == d[l]);
            } else {
                assert(next[k].1[m] == d[k].1[m]);
            }
            assert(next[l].1[m] == plan[l].picks@[m]);
        }
    }
}

/// A beginning with one more pick in order is a beginning.
proof fn grown_begun(p: Problem, d: Seq<Selection>, next: Seq<Selection>, k: int, j: int)
    requires
        p.begun(d),
        k == d.len() - 1,
        k >= 0,
        j == d[k].1.len(),
        j < p.needed(k, d[k].0 as int),
        next == d.update(k, (d[k].0, d[k].1.push(next[k].1[j]))),
        p.pick_ok(next, k, j),
    ensures
        p.begun(next),
{
    assert(p.choice_ok(d, k));
    assert forall|x: int| 0 <= x < next.len() implies #[trigger] p.choice_ok(next, x) by {
        assert(p.choice_ok(d, x));
        if x < k {
            alike_choices(p, d, next, x);
        } else {
            assert forall|y: int| 0 <= y < next[k].1.len() implies #[trigger] p.pick_ok(
                next,
                k,
                y,
            ) by {
                if y < j {
                    assert(p.pick_ok(d, k, y));
                    alike_picks(p, d, next, k, y);
                }
            }
        }
    }
    assert forall|x: int| 0 <= x < next.len() - 1 implies #[trigger] p.served(next, x) by {
        assert(next[x] == d[x]);
        assert(p.served(d, x));
    }
}

/// A plan that starts with `d` and goes on with device `i` starts with `d`
/// grown by `i`.
proof fn grown_extends(
    e: Seq<Selection>,
    d: Seq<Selection>,
    next: Seq<Selection>,
    k: int,
    j: int,
    i: usize,
)
    requires
        extends(e, d),
        k == d.len() - 1,
        k >= 0,
        j == d[k].1.len(),
        j < e[k].1.len(),
        e[k].1[j] == i,
        next == d.update(k, (d[k].0, d[k].1.push(i))),
    ensures
        extends(e, next),
        alike(e, next, k, j),
{
    assert forall|l: int| 0 <= l < next.len() - 1 implies #[trigger] e[l] == next[l] by {
        assert(e[l] == d[l]);
        assert(next[l] == d[l]);
    }
    assert forall|m: int| 0 <= m < next[k].1.len() implies #[trigger] e[k].1[m] == next[k].1[m] by {
        if m < j {
            assert(e[k].1[m] == d[k].1[m]);
        }
    }
}

/// The first plan that starts with `d` grown by the first device that leads to
/// any is the first that starts with `d`.
proof fn grown_first(
    p: Problem,
    d: Seq<Selection>,
    next: Seq<Selection>,
    r: Seq<Selection>,
    k: int,
    j: int,
    i: usize,
)
    requires
        p.begun(d),
        k == d.len() - 1,
        k >= 0,
        j == d[k].1.len(),
        j < p.needed(k, d[k].0 as int),
        next == d.update(k, (d[k].0, d[k].1.push(i))),
        first_solution(p, next, r),
        forall|e: Seq<Selection>| #[trigger]
            p.solves(e) && extends(e, d) ==> e[k].1[j] >= i,
    ensures
        first_solution(p, d, r),
{
    assert forall|l: int| 0 <= l < k implies #[trigger] r[l] == d[l] by {
        assert(r[l] == next[l]);
        assert(next[l] == d[l]);
    }
    assert(next[k].0 == d[k].0);
    assert forall|m: int| 0 <= m < j implies #[trigger] r[k].1[m] == d[k].1[m] by {
        assert(r[k].1[m] == next[k].1[m]);
        assert(next[k].1[m] == d[k].1[m]);
    }
    assert(next[k].1[j] == i);
    assert(r[k].1[j] == next[k].1[j]);
    assert(extends(r, d));
    assert forall|e: Seq<Selection>| #[trigger]
        p.solves(e) && extends(e, d) implies !comes_before(e, r) by {
        assert(p.served(e, k));
        if e[k].1[j] == i {
            grown_extends(e, d, next, k, j, i);
        } else {
            assert forall|l: int| 0 <= l < k implies #[trigger] e[l] == r[l] by {
                assert(e[l] == d[l]);
            }
            assert forall|m: int| 0 <= m < j implies #[trigger] e[k].1[m] == r[k].1[m] by {
                assert(e[k].1[m] == d[k].1[m]);
            }
            later_pick(e, r, k, j);
        }
    }
}

/// What a plan hands out for one pick.
pub open spec fn handed(p: Problem, k: int, a: int, i: int) -> DeviceRequestAllocationResult {
    DeviceRequestAllocationResult {
        request: p.alt(k, a).result_name,
        driver: p.devices@[i].driver,
        pool: p.devices@[i].pool,
        device: p.devices@[i].name,
        admin_access: p.alt(k, a).admin_access,
    }
}

/// What a plan hands out for an ask.
pub open spec fn handed_for(p: Problem, plan: Seq<Selection>, k: int) -> Seq<
    DeviceRequestAllocationResult,
> {
    plan[k].1.map_values(|i: usize| handed(p, k, plan[k].0 as int, i as int))
}

/// What a plan hands out for a claim, over its first `n` asks.
pub open spec fn handed_to(p: Problem, plan: Seq<Selection>, claim: usize, n: int) -> Seq<
    DeviceRequestAllocationResult,
>
    decreases n,
{
    if n <= 0 {
        Seq::empty()
    } else {
        let rest = handed_to(p, plan, claim, n - 1);
        if p.asks@[n - 1].claim == claim {
            rest + handed_for(p, plan, n - 1)
        } else {
            rest
        }
    }
}

impl Problem {
    /// What a plan hands out for a claim.
    pub fn results(&self, plan: &Vec<Choice>, claim: usize) -> (r: Vec<
        DeviceRequestAllocationResult,
    >)
        requires
            self.wf(),
            self.solves(plan_view(plan@)),
        ensures
            r@ == handed_to(*self, plan_view(plan@), claim, self.asks@.len() as int),
    {
        let ghost d = plan_view(plan@);
        let mut out: Vec<DeviceRequestAllocationResult> = Vec::new();
        let mut k: usize = 0;
        while k < plan.len()
            invariant
                k <= plan@.len() == self.asks@.len(),
                self.wf(),
                self.solves(d),
                d == plan_view(plan@),
                out@ == handed_to(*self, d, claim, k as int),
            decreases plan@.len() - k,
        {
            if self.asks[k].claim == claim {
                let choice = &plan[k];
                let ghost before = out@;
                let ghost whole = handed_for(*self, d, k as int);
                assert(self.choice_ok(d, k as int));
                assert(d[k as int] == (choice.alternative, choice.picks@));
                let alt = &self.asks[k].alternatives[choice.alternative];
                let mut j: usize = 0;
                assert(before + whole.take(0) =~= before);
                while j < choice.picks.len()
                    invariant
                        j <= choice.picks@.len() == whole.len(),
                        k < self.asks@.len(),
                        d[k as int] == (choice.alternative, choice.picks@),
                        self.choice_ok(d, k as int),
                        *alt == self.alt(k as int, choice.alternative as int),
                        whole == handed_for(*self, d, k as int),
                        out@ == before + whole.take(j as int),
                    decreases choice.picks@.len() - j,
                {
                    assert(self.pick_ok(d, k as int, j as int));
                    let device = &self.devices[choice.picks[j]];
                    out.push(
                        DeviceRequestAllocationResult {
                            request: alt.result_name.clone(),
                            driver: device.driver.clone(),
                            pool: device.pool.clone(),
                            device: device.name.clone(),
                            admin_access: alt.admin_access,
                        },
                    );
                    j += 1;
                    assert(before + whole.take(j as int) =~= (before + whole.take(j - 1)).push(
                        whole[j - 1],
                    ));
                }
                assert(whole.take(j as int) =~= whole);
            }
            k += 1;
        }
        out
    }
}

/// No device is handed out twice where nobody shares it: two picks of a plan
/// that both keep their device to themselves are of different devices.
pub proof fn devices_are_exclusive(
    p: Problem,
    plan: Seq<Selection>,
    k: int,
    i: int,
    l: int,
    j: int,
)
    requires
        p.solves(plan),
        0 <= k <= l < plan.len(),
        0 <= i < plan[k].1.len(),
        0 <= j < plan[l].1.len(),
        k < l || i < j,
        !p.alt(k, plan[k].0 as int).admin_access,
        !p.alt(l, plan[l].0 as int).admin_access,
    ensures
        !same_device(
            p.devices@[plan[k].1[i] as int],
            p.devices@[plan[l].1[j] as int],
        ),
{
    assert(p.choice_ok(plan, l));
    assert(p.pick_ok(plan, l, j));
    assert(!p.clash(
        k,
        plan[k].0 as int,
        plan[k].1[i] as int,
        l,
        plan[l].0 as int,
        plan[l].1[j] as int,
    ));
}

/// Devices that a constraint of a claim covers all report one value for its
/// attribute.
pub proof fn constrained_devices_agree(
    p: Problem,
    plan: Seq<Selection>,
    k: int,
    i: int,
    l: int,
    j: int,
    c: int,
)
    requires
        p.solves(plan),
        0 <= k <= l < plan.len(),
        0 <= i < plan[k].1.len(),
        0 <= j < plan[l].1.len(),
        k < l || i < j,
        p.asks@[k].claim == p.asks@[l].claim,
        0 <= c < constraint_list(p.asks@[k].constraints).len(),
        demand(
            constraint_list(p.asks@[k].constraints)[c],
            p.alt(k, plan[k].0 as int).result_name@,
        ) is Some,
        demand(
            constraint_list(p.asks@[k].constraints)[c],
            p.alt(l, plan[l].0 as int).result_name@,
        ) is Some,
    ensures
        ({
            let name = constraint_list(p.asks@[k].constraints)[c].match_attribute->Some_0@;
            let d = p.devices@[plan[k].1[i] as int];
            let e = p.devices@[plan[l].1[j] as int];
            let x = attribute_of(*d.basic, d.driver@, name);
            let y = attribute_of(*e.basic, e.driver@, name);
            x is Some && y is Some && x->Some_0.agrees(y->Some_0)
        }),
{
    assert(p.choice_ok(plan, l));
    assert(p.pick_ok(plan, l, j));
    assert(!p.clash(
        k,
        plan[k].0 as int,
        plan[k].1[i] as int,
        l,
        plan[l].0 as int,
        plan[l].1[j] as int,
    ));
    let list = constraint_list(p.asks@[k].constraints);
    assert(!disagree(
        list[c],
        p.alt(k, plan[k].0 as int).result_name@,
        p.devices@[plan[k].1[i] as int],
        p.alt(l, plan[l].0 as int).result_name@,
        p.devices@[plan[l].1[j] as int],
    ));
}

/// An alternative that takes all devices takes every one that matches.
pub proof fn all_means_every_match(p: Problem, plan: Seq<Selection>, k: int, i: int)
    requires
        p.wf(),
        p.solves(plan),
        0 <= k < plan.len(),
        p.alt(k, plan[k].0 as int).all_devices,
        0 <= i < p.devices@.len(),
        p.alt(k, plan[k].0 as int).matching@[i],
        forall|x: int|
            0 <= x < p.devices@.len() && #[trigger] p.alt(k, plan[k].0 as int).usable@[x]
                ==> p.alt(k, plan[k].0 as int).matching@[x],
    ensures
        exists|j: int| 0 <= j < plan[k].1.len() && #[trigger] plan[k].1[j] == i,
{
    assert(p.choice_ok(plan, k));
    assert(p.served(plan, k));
    let flags = p.alt(k, plan[k].0 as int).matching@;
    let picks = plan[k].1;
    matches_before(p, plan, k, picks.len() as int);
    let last = Problem::floor(picks, picks.len() as int);
    if i >= last {
        // One more match than picks.
        fewer_later(flags, last, i);
    } else {
        picked_before(p, plan, k, picks.len() as int, i);
    }
}

/// The matches below the floor of pick `j` are as many as the picks before it.
proof fn matches_before(p: Problem, plan: Seq<Selection>, k: int, j: int)
    requires
        p.wf(),
        p.solves(plan),
        0 <= k < plan.len(),
        p.alt(k, plan[k].0 as int).all_devices,
        0 <= j <= plan[k].1.len(),
        forall|x: int|
            0 <= x < p.devices@.len() && #[trigger] p.alt(k, plan[k].0 as int).usable@[x]
                ==> p.alt(k, plan[k].0 as int).matching@[x],
    ensures
        set_from(p.alt(k, plan[k].0 as int).matching@, 0) == j + set_from(
            p.alt(k, plan[k].0 as int).matching@,
            Problem::floor(plan[k].1, j),
        ),
        0 <= Problem::floor(plan[k].1, j) <= p.devices@.len(),
    decreases j,
{
    let flags = p.alt(k, plan[k].0 as int).matching@;
    assert(p.choice_ok(plan, k));
    if j > 0 {
        matches_before(p, plan, k, j - 1);
        assert(p.pick_ok(plan, k, j - 1));
        let from = Problem::floor(plan[k].1, j - 1);
        let to = plan[k].1[j - 1] as int;
        none_between(flags, from, to);
        assert(p.alt(k, plan[k].0 as int).usable@[to]);
        assert(set_from(flags, to) == 1 + set_from(flags, to + 1));
    }
}

proof fn none_between(flags: Seq<bool>, from: int, to: int)
    requires
        0 <= from <= to <= flags.len(),
        forall|i: int| from <= i < to ==> !#[trigger] flags[i],
    ensures
        set_from(flags, from) == set_from(flags, to),
    decreases to - from,
{
    if from < to {
        assert(!flags[from]);
        none_between(flags, from + 1, to);
    }
}

/// A match below the floor of pick `j` is one of the picks before it.
proof fn picked_before(p: Problem, plan: Seq<Selection>, k: int, j: int, i: int)
    requires
        p.wf(),
        p.solves(plan),
        0 <= k < plan.len(),
        p.alt(k, plan[k].0 as int).all_devices,
        0 <= j <= plan[k].1.len(),
        0 <= i < Problem::floor(plan[k].1, j),
        p.alt(k, plan[k].0 as int).matching@[i],
    ensures
        exists|m: int| 0 <= m < plan[k].1.len() && #[trigger] plan[k].1[m] == i,
    decreases j,
{
    assert(p.choice_ok(plan, k));
    assert(p.pick_ok(plan, k, j - 1));
    let to = plan[k].1[j - 1] as int;
    if i == to {
        assert(plan[k].1[j - 1] == i);
    } else {
        let from = Problem::floor(plan[k].1, j - 1);
        if i >= from {
            assert(p.none_left_out(k, plan[k].0 as int, from, to));
            assert(!p.alt(k, plan[k].0 as int).matching@[i]);
        } else {
            picked_before(p, plan, k, j - 1, i);
        }
    }
}

/// A plan serves every ask in full: for an alternative of a number, that many
/// devices, all of them usable, each once.
pub proof fn asks_are_served_in_full(p: Problem, plan: Seq<Selection>, k: int)
    requires
        p.wf(),
        p.solves(plan),
        0 <= k < p.asks@.len(),
    ensures
        plan[k].0 < p.asks@[k].alternatives@.len(),
        p.alt(k, plan[k].0 as int).class_known,
        !p.alt(k, plan[k].0 as int).all_devices ==> plan[k].1.len() == p.alt(
            k,
            plan[k].0 as int,
        ).count,
        p.alt(k, plan[k].0 as int).all_devices ==> plan[k].1.len() > 0,
        forall|j: int|
            0 <= j < plan[k].1.len() ==> (#[trigger] plan[k].1[j]) < p.devices@.len() && p.alt(
                k,
                plan[k].0 as int,
            ).usable@[plan[k].1[j] as int],
        forall|i: int, j: int|
            0 <= i < j < plan[k].1.len() ==> (#[trigger] plan[k].1[i]) < (#[trigger] plan[k].1[j]),
{
    assert(p.choice_ok(plan, k));
    assert(p.served(plan, k));
    assert forall|j: int| 0 <= j < plan[k].1.len() implies (#[trigger] plan[k].1[j])
        < p.devices@.len() && p.alt(k, plan[k].0 as int).usable@[plan[k].1[j] as int] by {
        assert(p.pick_ok(plan, k, j));
    }
    picks_ascend(p, plan, k, plan[k].1.len() as int);
}

proof fn picks_ascend(p: Problem, plan: Seq<Selection>, k: int, n: int)
    requires
        p.choice_ok(plan, k),
        0 <= n <= plan[k].1.len(),
    ensures
        forall|i: int, j: int|
            0 <= i < j < n ==> (#[trigger] plan[k].1[i]) < (#[trigger] plan[k].1[j]),
    decreases n,
{
    if n > 1 {
        picks_ascend(p, plan, k, n - 1);
        assert(p.pick_ok(plan, k, n - 1));
        assert forall|i: int, j: int| 0 <= i < j < n implies (#[trigger] plan[k].1[i]) < (
        #[trigger] plan[k].1[j]) by {
            if j == n - 1 && i < n - 2 {
                assert(plan[k].1[i] < plan[k].1[n - 2]);
            }
        }
    }
}

/// A result hands out a device under the name of an alternative, to be shared
/// where the alternative shares.
pub open spec fn handed_as(
    p: Problem,
    k: int,
    a: int,
    i: int,
    r: DeviceRequestAllocationResult,
) -> bool {
    &&& r.request == p.alt(k, a).result_name
    &&& r.driver == p.devices@[i].driver
    &&& r.pool == p.devices@[i].pool
    &&& r.device == p.devices@[i].name
    &&& r.admin_access == p.alt(k, a).admin_access
}

/// What is handed out for a claim is exactly what the plan picks for the asks of
/// that claim.
pub proof fn picks_are_handed_out(
    p: Problem,
    plan: Seq<Selection>,
    claim: usize,
    n: int,
    r: DeviceRequestAllocationResult,
)
    requires
        0 <= n <= plan.len(),
        plan.len() == p.asks@.len(),
    ensures
        handed_to(p, plan, claim, n).contains(r) <==> exists|k: int, j: int|
            0 <= k < n && p.asks@[k].claim == claim && 0 <= j < plan[k].1.len() && handed_as(
                p,
                k,
                plan[k].0 as int,
                #[trigger] plan[k].1[j] as int,
                r,
            ),
    decreases n,
{
    if n > 0 {
        picks_are_handed_out(p, plan, claim, n - 1, r);
        let rest = handed_to(p, plan, claim, n - 1);
        let more = handed_for(p, plan, n - 1);
        let all = handed_to(p, plan, claim, n);
        if rest.contains(r) {
            let x = choose|x: int| 0 <= x < rest.len() && rest[x] == r;
            assert(all[x] == r);
            let (k, j) = choose|k: int, j: int|
                0 <= k < n - 1 && p.asks@[k].claim == claim && 0 <= j < plan[k].1.len() && handed_as(
                    p,
                    k,
                    plan[k].0 as int,
                    #[trigger] plan[k].1[j] as int,
                    r,
                );
            assert(0 <= k < n && handed_as(p, k, plan[k].0 as int, plan[k].1[j] as int, r));
        }
        if all.contains(r) && !rest.contains(r) {
            let x = choose|x: int| 0 <= x < all.len() && all[x] == r;
            if x < rest.len() {
                assert(rest[x] == r);
            }
            let j = x - rest.len();
            assert(more[j] == r);
            assert(handed_as(p, n - 1, plan[n - 1].0 as int, plan[n - 1].1[j] as int, r));
        }
        if exists|k: int, j: int|
            0 <= k < n && p.asks@[k].claim == claim && 0 <= j < plan[k].1.len() && handed_as(
                p,
                k,
                plan[k].0 as int,
                #[trigger] plan[k].1[j] as int,
                r,
            ) {
            let (k, j) = choose|k: int, j: int|
                0 <= k < n && p.asks@[k].claim == claim && 0 <= j < plan[k].1.len() && handed_as(
                p,
                k,
                plan[k].0 as int,
                #[trigger] plan[k].1[j] as int,
                r,
            );
            if k == n - 1 {
                assert(more[j] == r);
                assert(all[rest.len() + j] == r);
            } else {
                assert(handed_as(p, k, plan[k].0 as int, plan[k].1[j] as int, r));
            }
        }
    }
}

} // verus!
