//! `DynamicResources`: a pod's claims get devices, on the node it runs on.
//!
//! A claim that has devices already ties the pod to where they are. For the
//! others each node is tried: the devices there, those that the selectors of a
//! request and of its class choose, and none that is spoken for. All of the
//! pod's claims are served together or not at all, so that two of them never
//! get one device.
//!
//! What a pod was promised is remembered until it is written or given up, so
//! that the next pod is not promised it too.

use super::allocation::{
    attribute_value, check_demands, constraint_list, handed_to, has_demanded, plan_view,
    value_of_attribute, Alternative, Ask, Candidate, CelAttr, Choice, DeviceId, Problem, Selection,
    comes_before,
};
use super::node_affinity::{
    matches_node_selector, requirement_list, selector_holds, term_holds, value_satisfies,
};
use super::quantity::{
    canonical, functions_in, install, is_standard, quantity_functions, quantity_of, stands_for, zero,
};
use super::{always_on, event_on};
use crate::api::{NodeSelector, NodeSelectorRequirement, NodeSelectorTerm};
use crate::cache::{object_key, NodeInfo, PodInfo, Snapshot};
use crate::dra::{
    AllocationResult, BasicDevice, ConsumerReference, Device, DeviceAllocationResult,
    DeviceAttribute, DeviceCapacity, DeviceClass, DeviceConstraint, DeviceRequest,
    DeviceRequestAllocationResult, DeviceSelector, DeviceSubRequest, ResourceClaim,
    ResourceClaimStatus, ResourceSlice,
};
use crate::events::{ActionType, ClusterEvent, EventResource};
use crate::framework::status::{
    failure, skip, success, unresolvable, unschedulable, NodeToStatus, Status, StatusView,
};
use crate::framework::{
    events_of, filter_switched_off, unhinted, ClusterEventWithHint, CycleState, FilterPlugin,
    NoHint, Plugin, PostFilterPlugin, PreEnqueuePlugin, PreFilterPlugin, ReservePlugin,
};
use crate::maps::{Same, StrMap};
use crate::text::{cut, debug_text, joined, quoted, split_once, text_eq, views};
use cel::{Context, Program, Value};
use std::collections::HashMap;
use std::sync::Arc;
use vstd::prelude::*;

verus! {

pub const NAME: &'static str = "DynamicResources";

pub open spec fn subscriptions() -> Seq<ClusterEvent> {
    seq![
        event_on(EventResource::Node, ActionType::ADD | ActionType::UPDATE_NODE_LABEL),
        event_on(EventResource::ResourceClaim, ActionType::ADD | ActionType::UPDATE),
        event_on(EventResource::ResourceSlice, ActionType::ADD | ActionType::UPDATE),
        event_on(EventResource::DeviceClass, ActionType::ADD | ActionType::UPDATE),
        event_on(
            EventResource::UnschedulablePod,
            ActionType::UPDATE_POD_GENERATED_RESOURCE_CLAIM,
        ),
    ]
}

/// The events that can make progress on a claim.
pub fn events_impl() -> (r: Vec<ClusterEventWithHint<NoHint>>)
    ensures
        events_of(r@) == subscriptions(),
        unhinted(r@),
{
    let mut out: Vec<ClusterEventWithHint<NoHint>> = Vec::new();
    out.push(always_on(EventResource::Node, ActionType::ADD | ActionType::UPDATE_NODE_LABEL));
    out.push(always_on(EventResource::ResourceClaim, ActionType::ADD | ActionType::UPDATE));
    out.push(always_on(EventResource::ResourceSlice, ActionType::ADD | ActionType::UPDATE));
    out.push(always_on(EventResource::DeviceClass, ActionType::ADD | ActionType::UPDATE));
    out.push(
        always_on(
            EventResource::UnschedulablePod,
            ActionType::UPDATE_POD_GENERATED_RESOURCE_CLAIM,
        ),
    );
    assert(events_of(out@) =~= subscriptions());
    out
}

/// A claim is to be made from a template and is not there yet.
pub open spec fn awaited(pod: PodInfo, i: int) -> bool {
    let pc = pod.resource_claims@[i];
    pc.resource_claim_name is None && pc.resource_claim_template_name is Some
        && pc.object_name_view(pod.resource_claim_statuses) is None
}

/// The first of a pod's claims, from `i` on, that is awaited.
pub open spec fn first_awaited(pod: PodInfo, i: int) -> Option<int>
    decreases pod.resource_claims@.len() - i,
{
    if i < 0 || i >= pod.resource_claims@.len() {
        None
    } else if awaited(pod, i) {
        Some(i)
    } else {
        first_awaited(pod, i + 1)
    }
}

/// What a pod is told before it enters the queue.
pub open spec fn admission(pod: PodInfo) -> StatusView {
    match first_awaited(pod, 0) {
        Some(i) => unschedulable(
            NAME@,
            "waiting for a generated ResourceClaim for "@ + quoted(pod.resource_claims@[i].name@),
        ),
        None => success(),
    }
}

/// Hold a pod back while a claim of its own has not been made yet.
pub fn pre_enqueue_impl(pod: &PodInfo) -> (r: Status)
    ensures
        r@ == admission(*pod),
{
    let mut i: usize = 0;
    while i < pod.resource_claims.len()
        invariant
            i <= pod.resource_claims@.len(),
            first_awaited(*pod, 0) == first_awaited(*pod, i as int),
        decreases pod.resource_claims@.len() - i,
    {
        let pc = &pod.resource_claims[i];
        if pc.resource_claim_name.is_none() && pc.resource_claim_template_name.is_some()
            && pc.object_name(&pod.resource_claim_statuses).is_none() {
            let name = debug_text(pc.name.as_str());
            let text = joined("waiting for a generated ResourceClaim for ", name.as_str());
            return Status::unschedulable(NAME, text.as_str());
        }
        i += 1;
    }
    Status::success()
}

/// What a selector sees of a device: attributes and capacities, by domain and
/// name.
pub struct CelDevice {
    pub driver: String,
    pub attributes: StrMap<StrMap<CelAttr>>,
    pub capacity: StrMap<StrMap<CelAttr>>,
}

/// What a map of maps holds under two keys.
pub open spec fn under(m: StrMap<StrMap<CelAttr>>, domain: Seq<char>, name: Seq<char>) -> Option<
    CelAttr,
> {
    match m.at(domain) {
        Some(inner) => inner.at(name),
        None => None,
    }
}

fn put(m: &mut StrMap<StrMap<CelAttr>>, domain: &str, name: &str, value: CelAttr)
    ensures
        forall|d: Seq<char>, n: Seq<char>| #[trigger]
            under(*final(m), d, n) == if d == domain@ && n == name@ {
                Some(value)
            } else {
                under(*old(m), d, n)
            },
{
    let ghost whole = *m;
    let mut inner: StrMap<CelAttr> = match m.take(domain) {
        Some(i) => i,
        None => StrMap::new(),
    };
    let ghost before = inner;
    let ghost without = *m;
    inner.insert(name.to_owned(), value);
    m.insert(domain.to_owned(), inner);
    proof {
        assert forall|d: Seq<char>, n: Seq<char>| #[trigger]
            under(*m, d, n) == if d == domain@ && n == name@ {
                Some(value)
            } else {
                under(whole, d, n)
            } by {
            let a = without.at(d);
            let b = before.at(n);
            let c = inner.at(n);
        }
    }
}

/// A key split at its first `/`; one without is of the driver's own domain.
pub open spec fn qualified(key: Seq<char>, own_driver: Seq<char>) -> (Seq<char>, Seq<char>) {
    match cut(key, '/') {
        Some(parts) => parts,
        None => (own_driver, key),
    }
}

pub fn split_qualified(key: &str, own_driver: &str) -> (r: (String, String))
    ensures
        (r.0@, r.1@) == qualified(key@, own_driver@),
{
    match split_once(key, '/') {
        Some(parts) => parts,
        None => (own_driver.to_owned(), key.to_owned()),
    }
}

/// The key is visible under a domain and a name: as it is split, and where it
/// has no domain under the empty one too.
pub open spec fn visible(
    key: Seq<char>,
    driver: Seq<char>,
    domain: Seq<char>,
    name: Seq<char>,
) -> bool {
    (domain, name) == qualified(key, driver) || (cut(key, '/') is None && domain == ""@ && name
        == key)
}

/// The value of the last attribute of a list that is visible under a domain and
/// a name.
pub open spec fn shown_attribute(
    e: Seq<(String, DeviceAttribute)>,
    driver: Seq<char>,
    domain: Seq<char>,
    name: Seq<char>,
) -> Option<CelAttr>
    decreases e.len(),
{
    if e.len() == 0 {
        None
    } else if visible(e.last().0@, driver, domain, name) && attribute_value(e.last().1) is Some {
        attribute_value(e.last().1)
    } else {
        shown_attribute(e.drop_last(), driver, domain, name)
    }
}

/// A capacity as a selector sees it: the text of the quantity, or of zero where
/// it cannot be read.
pub open spec fn shows_quantity(a: CelAttr, raw: Seq<char>) -> bool {
    match a {
        CelAttr::Str(s) => match quantity_of(raw) {
            Some((p, q)) => q > 0 && stands_for(s@, p, q),
            None => stands_for(s@, 0, 1),
        },
        _ => false,
    }
}

/// The last capacity of a list under a domain and a name.
pub open spec fn last_capacity(
    e: Seq<(String, DeviceCapacity)>,
    driver: Seq<char>,
    domain: Seq<char>,
    name: Seq<char>,
) -> Option<Seq<char>>
    decreases e.len(),
{
    if e.len() == 0 {
        None
    } else if (domain, name) == qualified(e.last().0@, driver) {
        Some(e.last().1.value@)
    } else {
        last_capacity(e.drop_last(), driver, domain, name)
    }
}

pub open spec fn attribute_entries(basic: BasicDevice) -> Seq<(String, DeviceAttribute)> {
    match basic.attributes {
        Some(m) => m.entries@,
        None => Seq::empty(),
    }
}

pub open spec fn capacity_entries(basic: BasicDevice) -> Seq<(String, DeviceCapacity)> {
    match basic.capacity {
        Some(m) => m.entries@,
        None => Seq::empty(),
    }
}

/// The capacities under a domain and a name are those of a list.
pub open spec fn shows_capacities(
    m: StrMap<StrMap<CelAttr>>,
    e: Seq<(String, DeviceCapacity)>,
    driver: Seq<char>,
) -> bool {
    forall|d: Seq<char>, n: Seq<char>|
        match (#[trigger] under(m, d, n)) {
            Some(a) => last_capacity(e, driver, d, n) is Some && shows_quantity(
                a,
                last_capacity(e, driver, d, n)->Some_0,
            ),
            None => last_capacity(e, driver, d, n) is None,
        }
}

/// The attributes under a domain and a name are those of a list.
pub open spec fn shows_attributes(
    m: StrMap<StrMap<CelAttr>>,
    e: Seq<(String, DeviceAttribute)>,
    driver: Seq<char>,
) -> bool {
    forall|d: Seq<char>, n: Seq<char>| #[trigger]
        under(m, d, n) == shown_attribute(e, driver, d, n)
}

fn shown_attributes(basic: &BasicDevice, driver: &str) -> (r: StrMap<StrMap<CelAttr>>)
    ensures
        shows_attributes(r, attribute_entries(*basic), driver@),
{
    let mut out: StrMap<StrMap<CelAttr>> = StrMap::new();
    match &basic.attributes {
        None => {},
        Some(m) => {
            let e = &m.entries;
            let mut i: usize = 0;
            while i < e.len()
                invariant
                    i <= e@.len(),
                    e@ == attribute_entries(*basic),
                    shows_attributes(out, e@.take(i as int), driver@),
                decreases e@.len() - i,
            {
                let ghost before = out;
                let key = e[i].0.as_str();
                let bare = split_once(key, '/').is_none();
                let (domain, name) = split_qualified(key, driver);
                match value_of_attribute(&e[i].1) {
                    Some(value) => {
                        if bare {
                            match value_of_attribute(&e[i].1) {
                                Some(copy) => {
                                    put(&mut out, "", key, copy);
                                },
                                None => {},
                            }
                        }
                        put(&mut out, domain.as_str(), name.as_str(), value);
                    },
                    None => {},
                }
                i += 1;
                proof {
                    let longer = e@.take(i as int);
                    assert(longer.drop_last() =~= e@.take(i - 1));
                    assert forall|d: Seq<char>, n: Seq<char>| #[trigger]
                        under(out, d, n) == shown_attribute(longer, driver@, d, n) by {
                        let was = under(before, d, n);
                    }
                }
            }
            assert(e@.take(i as int) =~= e@);
        },
    }
    out
}

fn shown_capacities(basic: &BasicDevice, driver: &str) -> (r: StrMap<StrMap<CelAttr>>)
    ensures
        shows_capacities(r, capacity_entries(*basic), driver@),
{
    let mut out: StrMap<StrMap<CelAttr>> = StrMap::new();
    match &basic.capacity {
        None => {},
        Some(m) => {
            let e = &m.entries;
            let mut i: usize = 0;
            while i < e.len()
                invariant
                    i <= e@.len(),
                    e@ == capacity_entries(*basic),
                    shows_capacities(out, e@.take(i as int), driver@),
                decreases e@.len() - i,
            {
                let ghost before = out;
                let (domain, name) = split_qualified(e[i].0.as_str(), driver);
                let text = match canonical(e[i].1.value.as_str()) {
                    Some(text) => text,
                    None => zero(),
                };
                let ghost value = CelAttr::Str(text);
                put(&mut out, domain.as_str(), name.as_str(), CelAttr::Str(text));
                i += 1;
                proof {
                    let longer = e@.take(i as int);
                    assert(longer.drop_last() =~= e@.take(i - 1));
                    assert(shows_quantity(value, e@[i - 1].1.value@));
                    assert forall|d: Seq<char>, n: Seq<char>|
                        match (#[trigger] under(out, d, n)) {
                            Some(a) => last_capacity(longer, driver@, d, n) is Some
                                && shows_quantity(a, last_capacity(longer, driver@, d, n)->Some_0),
                            None => last_capacity(longer, driver@, d, n) is None,
                        } by {
                        let was = under(before, d, n);
                    }
                }
            }
            assert(e@.take(i as int) =~= e@);
        },
    }
    out
}

/// What a selector sees of a device.
pub fn cel_device(driver: &str, basic: &BasicDevice) -> (r: CelDevice)
    ensures
        r.driver@ == driver@,
        shows_attributes(r.attributes, attribute_entries(*basic), driver@),
        shows_capacities(r.capacity, capacity_entries(*basic), driver@),
{
    CelDevice {
        driver: driver.to_owned(),
        attributes: shown_attributes(basic, driver),
        capacity: shown_capacities(basic, driver),
    }
}

/// One value of a device, as an expression sees it.
pub enum Shown {
    Bool(bool),
    Int(i64),
    Text(Seq<char>),
}

impl View for CelAttr {
    type V = Shown;

    open spec fn view(&self) -> Shown {
        match *self {
            CelAttr::Bool(b) => Shown::Bool(b),
            CelAttr::Int(i) => Shown::Int(i),
            CelAttr::Str(s) => Shown::Text(s@),
        }
    }
}

/// A device, as an expression sees it: values by domain and name.
pub struct Seen {
    pub driver: Seq<char>,
    pub attributes: Map<(Seq<char>, Seq<char>), Shown>,
    pub capacity: Map<(Seq<char>, Seq<char>), Shown>,
}

/// What a map of maps holds, by both keys.
pub open spec fn pairs_of(m: StrMap<StrMap<CelAttr>>) -> Map<(Seq<char>, Seq<char>), Shown> {
    Map::new(
        |k: (Seq<char>, Seq<char>)| under(m, k.0, k.1) is Some,
        |k: (Seq<char>, Seq<char>)| under(m, k.0, k.1)->Some_0@,
    )
}

impl View for CelDevice {
    type V = Seen;

    open spec fn view(&self) -> Seen {
        Seen {
            driver: self.driver@,
            attributes: pairs_of(self.attributes),
            capacity: pairs_of(self.capacity),
        }
    }
}

/// The values of a `cel::Value` that is a map of maps of values, by both keys.
pub uninterp spec fn entries_in(v: cel::Value) -> Option<Map<(Seq<char>, Seq<char>), Shown>>;

/// The device that the variable `device` of a `cel::Context` is bound to.
pub uninterp spec fn device_in(ctx: cel::Context<'_, '_>) -> Option<Seen>;

/// `cel::Program::compile` reads the expression.
pub uninterp spec fn readable(expression: Seq<char>) -> bool;

/// Evaluating the expression can come to the answer, in a standard context with
/// functions of these names and this device. An expression that walks a map
/// can come to several: the order is that of a hash map.
pub uninterp spec fn can_answer(
    expression: Seq<char>,
    functions: Set<Seq<char>>,
    device: Seen,
    answer: Option<bool>,
) -> bool;

/// `cel::Context::default`: the standard library, no function added to it and no
/// variable.
#[verifier::external_body]
fn new_context() -> (r: cel::Context<'static, 'static>)
    ensures
        is_standard(r),
        functions_in(r) == Set::<Seq<char>>::empty(),
{
    Context::default()
}

/// A map of maps as a `cel::Value`, key by key, each attribute as a value of its
/// kind. Where a key occurs twice, the first pair counts.
#[verifier::external_body]
fn maps_to_cel(m: &StrMap<StrMap<CelAttr>>) -> (r: cel::Value)
    ensures
        entries_in(r) == Some(pairs_of(*m)),
{
    let value = |a: &CelAttr| match a {
        CelAttr::Bool(b) => Value::Bool(*b),
        CelAttr::Int(i) => Value::Int(*i),
        CelAttr::Str(s) => Value::from(s.clone()),
    };
    let inner = |m: &StrMap<CelAttr>| {
        m.entries.iter().rev().map(|(n, a)| (n.clone(), value(a))).collect::<HashMap<_, _>>()
    };
    let outer =
        m.entries.iter().rev().map(|(d, m)| (d.clone(), inner(m))).collect::<HashMap<_, _>>();
    Value::from(outer)
}

/// `cel::Context::add_variable_from_value`: expressions see the device, with
/// its driver, attributes and capacity, under the name `device`. The functions
/// stay.
#[verifier::external_body]
fn bind_device(
    ctx: &mut cel::Context<'static, 'static>,
    driver: &str,
    attributes: cel::Value,
    capacity: cel::Value,
)
    requires
        entries_in(attributes) is Some,
        entries_in(capacity) is Some,
    ensures
        device_in(*final(ctx)) == Some(
            Seen {
                driver: driver@,
                attributes: entries_in(attributes)->Some_0,
                capacity: entries_in(capacity)->Some_0,
            },
        ),
        is_standard(*final(ctx)) == is_standard(*old(ctx)),
        functions_in(*final(ctx)) == functions_in(*old(ctx)),
{
    let fields = HashMap::from([
        ("driver", Value::from(driver)),
        ("attributes", attributes),
        ("capacity", capacity),
    ]);
    ctx.add_variable_from_value("device", fields);
}

/// `cel::Program::compile` and `cel::Program::execute`: the truth value that an
/// expression has, none where it cannot be read, fails or has another value.
/// Which of the answers it can have comes back is not said: an expression may
/// walk a hash map.
#[verifier::external_body]
fn run(expression: &str, ctx: &cel::Context<'static, 'static>) -> (r: Option<bool>)
    ensures
        !readable(expression@) ==> r is None,
        is_standard(*ctx) && device_in(*ctx) is Some ==> can_answer(
            expression@,
            functions_in(*ctx),
            device_in(*ctx)->Some_0,
            r,
        ),
{
    match Program::compile(expression).ok()?.execute(ctx) {
        Ok(Value::Bool(b)) => Some(b),
        _ => None,
    }
}

/// The answer is one that the expression can have of the device, with the
/// quantity functions at hand; none where the expression cannot be read.
pub open spec fn answered(expression: Seq<char>, device: Seen, answer: Option<bool>) -> bool {
    &&& !readable(expression) ==> answer is None
    &&& can_answer(expression, quantity_functions(), device, answer)
}

/// Evaluate an expression on a device, with the quantity functions at hand.
fn evaluate(expression: &str, device: &CelDevice) -> (r: Option<bool>)
    ensures
        answered(expression@, device@, r),
{
    let mut ctx = new_context();
    install(&mut ctx);
    assert(functions_in(ctx) =~= quantity_functions());
    let attributes = maps_to_cel(&device.attributes);
    let capacity = maps_to_cel(&device.capacity);
    bind_device(&mut ctx, device.driver.as_str(), attributes, capacity);
    run(expression, &ctx)
}

/// Every answer is a plain yes.
pub open spec fn all_yes(answers: Seq<Option<bool>>) -> bool {
    forall|i: int| 0 <= i < answers.len() ==> #[trigger] answers[i] == Some(true)
}

/// Whether every answer is a plain yes: what cannot be evaluated excludes the
/// device.
pub fn all_hold(answers: &Vec<Option<bool>>) -> (r: bool)
    ensures
        r == all_yes(answers@),
{
    let mut i: usize = 0;
    while i < answers.len()
        invariant
            i <= answers@.len(),
            forall|k: int| 0 <= k < i ==> #[trigger] answers@[k] == Some(true),
        decreases answers@.len() - i,
    {
        match answers[i] {
            Some(true) => {},
            _ => {
                assert(answers@[i as int] != Some(true));
                return false;
            },
        }
        i += 1;
    }
    true
}

/// The expressions that the selectors of a list hold, in order.
pub open spec fn expressions(s: Seq<DeviceSelector>) -> Seq<Seq<char>>
    decreases s.len(),
{
    if s.len() == 0 {
        Seq::empty()
    } else {
        match s.last().cel {
            Some(cel) => expressions(s.drop_last()).push(cel.expression@),
            None => expressions(s.drop_last()),
        }
    }
}

pub open spec fn selector_list(s: Option<Vec<DeviceSelector>>) -> Seq<DeviceSelector> {
    match s {
        Some(v) => v@,
        None => Seq::empty(),
    }
}

fn add_expressions(selectors: &Option<Vec<DeviceSelector>>, out: &mut Vec<String>)
    ensures
        views(final(out)@) == views(old(out)@) + expressions(selector_list(*selectors)),
{
    let ghost before = views(out@);
    match selectors {
        None => {
            assert(before + Seq::<Seq<char>>::empty() =~= before);
        },
        Some(list) => {
            let mut i: usize = 0;
            assert(list@.take(0) =~= Seq::empty());
            assert(before + expressions(list@.take(0)) =~= before);
            while i < list.len()
                invariant
                    i <= list@.len(),
                    views(out@) == before + expressions(list@.take(i as int)),
                decreases list@.len() - i,
            {
                let ghost prior = out@;
                let ghost sofar = expressions(list@.take(i as int));
                assert(list@.take(i + 1).drop_last() =~= list@.take(i as int));
                match &list[i].cel {
                    Some(cel) => {
                        out.push(cel.expression.clone());
                        assert(views(out@) =~= views(prior).push(cel.expression@));
                        assert(before + sofar.push(cel.expression@) =~= (before + sofar).push(
                            cel.expression@,
                        ));
                    },
                    None => {},
                }
                i += 1;
            }
            assert(list@.take(i as int) =~= list@);
        },
    }
}

/// The expressions to ask about a device: the request's, then its class's.
pub fn questions(selectors: &Option<Vec<DeviceSelector>>, class: &Option<Vec<DeviceSelector>>) -> (r:
    Vec<String>)
    ensures
        views(r@) == expressions(selector_list(*selectors)) + expressions(selector_list(*class)),
{
    let mut out: Vec<String> = Vec::new();
    assert(views(out@) =~= Seq::<Seq<char>>::empty());
    add_expressions(selectors, &mut out);
    assert(Seq::<Seq<char>>::empty() + expressions(selector_list(*selectors)) =~= expressions(
        selector_list(*selectors),
    ));
    add_expressions(class, &mut out);
    out
}

/// Every expression has its answer on a device.
pub open spec fn all_answered(
    expressions: Seq<Seq<char>>,
    device: Seen,
    answers: Seq<Option<bool>>,
) -> bool {
    &&& answers.len() == expressions.len()
    &&& forall|i: int|
        0 <= i < answers.len() ==> answered(expressions[i], device, #[trigger] answers[i])
}

/// Ask every question about a device.
fn ask_all(questions: &Vec<String>, device: &CelDevice) -> (r: Vec<Option<bool>>)
    ensures
        all_answered(views(questions@), device@, r@),
{
    let mut out: Vec<Option<bool>> = Vec::new();
    let mut i: usize = 0;
    while i < questions.len()
        invariant
            i <= questions@.len(),
            out@.len() == i,
            forall|k: int|
                0 <= k < i ==> answered(views(questions@)[k], device@, #[trigger] out@[k]),
        decreases questions@.len() - i,
    {
        out.push(evaluate(questions[i].as_str(), device));
        i += 1;
    }
    out
}

/// The verdict is that of one answer to each expression on the device.
pub open spec fn chosen_by(
    chosen: bool,
    selectors: Seq<DeviceSelector>,
    class: Seq<DeviceSelector>,
    device: Seen,
) -> bool {
    exists|answers: Seq<Option<bool>>|
        all_answered(expressions(selectors) + expressions(class), device, answers) && chosen
            == #[trigger] all_yes(answers)
}

/// Whether a device satisfies the selectors of a request and of its class.
pub fn device_matches(
    selectors: &Option<Vec<DeviceSelector>>,
    class: &Option<Vec<DeviceSelector>>,
    device: &CelDevice,
) -> (r: bool)
    ensures
        chosen_by(r, selector_list(*selectors), selector_list(*class), device@),
{
    let asked = questions(selectors, class);
    let answers = ask_all(&asked, device);
    let r = all_hold(&answers);
    assert(r == all_yes(answers@));
    r
}

/// Devices that nothing selects against are chosen.
pub proof fn unselective_chooses_all(
    chosen: bool,
    selectors: Seq<DeviceSelector>,
    class: Seq<DeviceSelector>,
    device: Seen,
)
    requires
        expressions(selectors).len() == 0,
        expressions(class).len() == 0,
        chosen_by(chosen, selectors, class, device),
    ensures
        chosen,
{
}

/// A selector whose expression cannot be read excludes every device.
pub proof fn unreadable_chooses_none(
    chosen: bool,
    selectors: Seq<DeviceSelector>,
    class: Seq<DeviceSelector>,
    device: Seen,
    i: int,
)
    requires
        0 <= i < expressions(selectors).len() + expressions(class).len(),
        !readable((expressions(selectors) + expressions(class))[i]),
        chosen_by(chosen, selectors, class, device),
    ensures
        !chosen,
{
    let asked = expressions(selectors) + expressions(class);
    let answers = choose|answers: Seq<Option<bool>>|
        all_answered(asked, device, answers) && chosen == #[trigger] all_yes(answers);
    assert(answered(asked[i], device, answers[i]));
}

/// The device says itself where it is: everywhere, on a node, or on the nodes
/// of a selector; nowhere where it does not say.
pub open spec fn device_applies(basic: BasicDevice, node: NodeInfo) -> bool {
    if basic.all_nodes == Some(true) {
        true
    } else if basic.node_name is Some {
        basic.node_name->Some_0@ == node.name@
    } else if basic.node_selector is Some {
        selector_holds(basic.node_selector->Some_0, node)
    } else {
        false
    }
}

pub fn device_applies_to_node(basic: &BasicDevice, node: &NodeInfo) -> (r: bool)
    ensures
        r == device_applies(*basic, *node),
{
    match basic.all_nodes {
        Some(true) => {
            return true;
        },
        _ => {},
    }
    match &basic.node_name {
        Some(name) => {
            return text_eq(name.as_str(), node.name.as_str());
        },
        None => {},
    }
    match &basic.node_selector {
        Some(sel) => matches_node_selector(sel, node),
        None => false,
    }
}

pub open spec fn per_device(slice: ResourceSlice) -> bool {
    slice.spec.per_device_node_selection == Some(true)
}

/// A slice is about a node; one whose devices say so themselves may be.
pub open spec fn slice_applies(slice: ResourceSlice, node: NodeInfo) -> bool {
    ||| per_device(slice)
    ||| slice.spec.all_nodes == Some(true)
    ||| slice.spec.node_name is Some && slice.spec.node_name->Some_0@ == node.name@
    ||| slice.spec.node_selector is Some && selector_holds(slice.spec.node_selector->Some_0, node)
}

fn is_per_device(slice: &ResourceSlice) -> (r: bool)
    ensures
        r == per_device(*slice),
{
    match slice.spec.per_device_node_selection {
        Some(true) => true,
        _ => false,
    }
}

fn slice_applies_to_node(slice: &ResourceSlice, node: &NodeInfo) -> (r: bool)
    ensures
        r == slice_applies(*slice, *node),
{
    if is_per_device(slice) {
        return true;
    }
    match slice.spec.all_nodes {
        Some(true) => {
            return true;
        },
        _ => {},
    }
    match &slice.spec.node_name {
        Some(name) => {
            if text_eq(name.as_str(), node.name.as_str()) {
                return true;
            }
        },
        None => {},
    }
    match &slice.spec.node_selector {
        Some(sel) => matches_node_selector(sel, node),
        None => false,
    }
}

/// The devices of a list that are on a node.
pub open spec fn devices_on(devices: Seq<Device>, slice: ResourceSlice, node: NodeInfo) -> Seq<
    Candidate,
>
    decreases devices.len(),
{
    if devices.len() == 0 {
        Seq::empty()
    } else {
        let rest = devices_on(devices.drop_last(), slice, node);
        let d = devices.last();
        if per_device(slice) && !device_applies(*d.basic, node) {
            rest
        } else {
            rest.push(
                Candidate {
                    driver: slice.spec.driver,
                    pool: slice.spec.pool.name,
                    name: d.name,
                    basic: d.basic,
                },
            )
        }
    }
}

pub open spec fn slice_devices(slice: ResourceSlice) -> Seq<Device> {
    match slice.spec.devices {
        Some(d) => d@,
        None => Seq::empty(),
    }
}

/// The devices of the slices of a list that are on a node, in order.
pub open spec fn candidates(slices: Seq<(String, ResourceSlice)>, node: NodeInfo) -> Seq<Candidate>
    decreases slices.len(),
{
    if slices.len() == 0 {
        Seq::empty()
    } else {
        let rest = candidates(slices.drop_last(), node);
        let slice = slices.last().1;
        if slice_applies(slice, node) {
            rest + devices_on(slice_devices(slice), slice, node)
        } else {
            rest
        }
    }
}

fn add_devices(slice: &ResourceSlice, node: &NodeInfo, out: &mut Vec<Candidate>)
    ensures
        final(out)@ == old(out)@ + devices_on(slice_devices(*slice), *slice, *node),
{
    let ghost before = out@;
    let per = is_per_device(slice);
    match &slice.spec.devices {
        None => {
            assert(out@ =~= before + Seq::<Candidate>::empty());
        },
        Some(devices) => {
            let mut i: usize = 0;
            assert(devices@.take(0) =~= Seq::empty());
            assert(before + devices_on(devices@.take(0), *slice, *node) =~= before);
            while i < devices.len()
                invariant
                    i <= devices@.len(),
                    per == per_device(*slice),
                    out@ == before + devices_on(devices@.take(i as int), *slice, *node),
                decreases devices@.len() - i,
            {
                let d = &devices[i];
                let ghost sofar = devices_on(devices@.take(i as int), *slice, *node);
                proof {
                    assert(devices@.take(i + 1).drop_last() =~= devices@.take(i as int));
                }
                if !per || device_applies_to_node(&d.basic, node) {
                    let c = Candidate {
                        driver: slice.spec.driver.clone(),
                        pool: slice.spec.pool.name.clone(),
                        name: d.name.clone(),
                        basic: d.basic.clone(),
                    };
                    out.push(c);
                    assert(out@ =~= before + sofar.push(c));
                }
                i += 1;
            }
            assert(devices@.take(i as int) =~= devices@);
        },
    }
}

pub fn candidates_for_node(snapshot: &Snapshot, node: &NodeInfo) -> (r: Vec<Candidate>)
    ensures
        r@ == candidates(snapshot.resource_slices.entries@, *node),
{
    let slices = &snapshot.resource_slices.entries;
    let mut out: Vec<Candidate> = Vec::new();
    let mut i: usize = 0;
    while i < slices.len()
        invariant
            i <= slices@.len(),
            slices@ == snapshot.resource_slices.entries@,
            out@ == candidates(slices@.take(i as int), *node),
        decreases slices@.len() - i,
    {
        if slice_applies_to_node(&slices[i].1, node) {
            add_devices(&slices[i].1, node, &mut out);
        }
        i += 1;
        assert(slices@.take(i as int).drop_last() =~= slices@.take(i - 1));
    }
    assert(slices@.take(i as int) =~= slices@);
    out
}

/// One alternative of a request, with everything spelt out.
pub struct EffectiveRequest<'a> {
    pub result_name: String,
    pub device_class_name: String,
    pub selectors: &'a Option<Vec<DeviceSelector>>,
    pub all_devices: bool,
    pub count: u64,
    pub admin_access: bool,
}

pub open spec fn takes_all(mode: Option<String>) -> bool {
    mode is Some && mode->Some_0@ == "All"@
}

pub open spec fn mode_known(mode: Option<String>) -> bool {
    mode is None || mode->Some_0@ == "ExactCount"@ || takes_all(mode)
}

/// How many devices are asked for: one where it is not said.
pub open spec fn count_asked(mode: Option<String>, count: Option<i64>) -> int {
    if takes_all(mode) {
        0
    } else {
        match count {
            Some(n) => if n > 0 {
                n as int
            } else {
                0
            },
            None => 1,
        }
    }
}

pub open spec fn sub_known(sub: DeviceSubRequest) -> bool {
    sub.device_class_name is Some && mode_known(sub.allocation_mode)
}

/// A request that can be read: it is exact or a list of alternatives, and each
/// names its class and a mode that is known.
pub open spec fn request_known(req: DeviceRequest) -> bool {
    match req.exactly {
        Some(x) => x.device_class_name is Some && mode_known(x.allocation_mode),
        None => match req.first_available {
            Some(subs) => subs@.len() > 0 && forall|i: int|
                0 <= i < subs@.len() ==> sub_known(#[trigger] subs@[i]),
            None => false,
        },
    }
}

/// How many alternatives a request has.
pub open spec fn ways(req: DeviceRequest) -> nat {
    match req.exactly {
        Some(x) => 1,
        None => match req.first_available {
            Some(subs) => subs@.len(),
            None => 0,
        },
    }
}

/// The alternative at `a` of a request.
pub open spec fn is_way(e: EffectiveRequest, req: DeviceRequest, a: int) -> bool {
    match req.exactly {
        Some(x) => {
            &&& e.result_name@ == req.name@
            &&& x.device_class_name is Some && e.device_class_name@ == x.device_class_name->Some_0@
            &&& *e.selectors == x.selectors
            &&& e.all_devices == takes_all(x.allocation_mode)
            &&& e.count == count_asked(x.allocation_mode, x.count)
            &&& e.admin_access == (x.admin_access == Some(true))
        },
        None => {
            let sub = req.first_available->Some_0@[a];
            &&& e.result_name@ == req.name@ + "/"@ + sub.name@
            &&& sub.device_class_name is Some && e.device_class_name@
                == sub.device_class_name->Some_0@
            &&& *e.selectors == sub.selectors
            &&& e.all_devices == takes_all(sub.allocation_mode)
            &&& e.count == count_asked(sub.allocation_mode, sub.count)
            &&& !e.admin_access
        },
    }
}

fn is_all(mode: &Option<String>) -> (r: bool)
    ensures
        r == takes_all(*mode),
{
    match mode {
        Some(m) => text_eq(m.as_str(), "All"),
        None => false,
    }
}

fn is_known_mode(mode: &Option<String>) -> (r: bool)
    ensures
        r == mode_known(*mode),
{
    match mode {
        Some(m) => text_eq(m.as_str(), "ExactCount") || text_eq(m.as_str(), "All"),
        None => true,
    }
}

fn asked(mode: &Option<String>, count: Option<i64>) -> (r: u64)
    ensures
        r == count_asked(*mode, count),
{
    if is_all(mode) {
        0
    } else {
        match count {
            Some(n) => if n > 0 {
                n as u64
            } else {
                0
            },
            None => 1,
        }
    }
}

/// Every alternative of a request, in order; `None` where the request cannot be
/// read.
pub fn effective_requests<'a>(req: &'a DeviceRequest) -> (r: Option<Vec<EffectiveRequest<'a>>>)
    ensures
        match r {
            Some(list) => request_known(*req) && list@.len() == ways(*req) && forall|a: int|
                0 <= a < list@.len() ==> is_way(#[trigger] list@[a], *req, a),
            None => !request_known(*req),
        },
{
    match &req.exactly {
        Some(x) => {
            let class = match &x.device_class_name {
                Some(c) => c,
                None => {
                    return None;
                },
            };
            if !is_known_mode(&x.allocation_mode) {
                return None;
            }
            let mut out: Vec<EffectiveRequest<'a>> = Vec::new();
            out.push(
                EffectiveRequest {
                    result_name: req.name.clone(),
                    device_class_name: class.clone(),
                    selectors: &x.selectors,
                    all_devices: is_all(&x.allocation_mode),
                    count: asked(&x.allocation_mode, x.count),
                    admin_access: match x.admin_access {
                        Some(b) => b,
                        None => false,
                    },
                },
            );
            Some(out)
        },
        None => match &req.first_available {
            None => None,
            Some(subs) => {
                if subs.len() == 0 {
                    return None;
                }
                let mut out: Vec<EffectiveRequest<'a>> = Vec::new();
                let mut i: usize = 0;
                while i < subs.len()
                    invariant
                        i <= subs@.len(),
                        subs@.len() > 0,
                        req.exactly is None,
                        req.first_available is Some,
                        *subs == req.first_available->Some_0,
                        out@.len() == i,
                        forall|a: int| 0 <= a < i ==> sub_known(#[trigger] subs@[a]),
                        forall|a: int| 0 <= a < i ==> is_way(#[trigger] out@[a], *req, a),
                    decreases subs@.len() - i,
                {
                    let sub = &subs[i];
                    let class = match &sub.device_class_name {
                        Some(c) => c,
                        None => {
                            assert(!sub_known(subs@[i as int]));
                            return None;
                        },
                    };
                    if !is_known_mode(&sub.allocation_mode) {
                        assert(!sub_known(subs@[i as int]));
                        return None;
                    }
                    let head = joined(req.name.as_str(), "/");
                    out.push(
                        EffectiveRequest {
                            result_name: joined(head.as_str(), sub.name.as_str()),
                            device_class_name: class.clone(),
                            selectors: &sub.selectors,
                            all_devices: is_all(&sub.allocation_mode),
                            count: asked(&sub.allocation_mode, sub.count),
                            admin_access: false,
                        },
                    );
                    i += 1;
                }
                Some(out)
            },
        },
    }
}

/// The claim that a pod's reference names.
pub open spec fn claim_named(pod: PodInfo, snapshot: Snapshot, i: int) -> Option<ResourceClaim> {
    match object_name_at(pod, i) {
        Some(n) => snapshot.resource_claim_at(pod.namespace@, n),
        None => None,
    }
}

pub open spec fn object_name_at(pod: PodInfo, i: int) -> Option<Seq<char>> {
    pod.resource_claims@[i].object_name_view(pod.resource_claim_statuses)
}

/// The claim's controlling owner, the first that says so, is the pod.
pub open spec fn controlled_by(owners: Seq<crate::api::OwnerReference>, uid: Seq<char>) -> bool
    decreases owners.len(),
{
    if owners.len() == 0 {
        false
    } else if owners[0].controller == Some(true) {
        owners[0].uid@ == uid
    } else {
        controlled_by(owners.skip(1), uid)
    }
}

pub open spec fn owners_of(claim: ResourceClaim) -> Seq<crate::api::OwnerReference> {
    match claim.metadata.owner_references {
        Some(o) => o@,
        None => Seq::empty(),
    }
}

fn is_controlled_by(claim: &ResourceClaim, uid: &str) -> (r: bool)
    ensures
        r == controlled_by(owners_of(*claim), uid@),
{
    match &claim.metadata.owner_references {
        None => false,
        Some(owners) => {
            let mut i: usize = 0;
            assert(owners@.skip(0) =~= owners@);
            while i < owners.len()
                invariant
                    i <= owners@.len(),
                    owners@ == owners_of(*claim),
                    controlled_by(owners@, uid@) == controlled_by(owners@.skip(i as int), uid@),
                decreases owners@.len() - i,
            {
                match owners[i].controller {
                    Some(true) => {
                        return text_eq(owners[i].uid.as_str(), uid);
                    },
                    _ => {},
                }
                assert(owners@.skip(i as int).skip(1) =~= owners@.skip(i + 1));
                i += 1;
            }
            false
        },
    }
}

pub open spec fn requests_of(claim: ResourceClaim) -> Seq<DeviceRequest> {
    match claim.spec.devices {
        Some(d) => match d.requests {
            Some(r) => r@,
            None => Seq::empty(),
        },
        None => Seq::empty(),
    }
}

pub open spec fn constraints_of(claim: ResourceClaim) -> Option<Arc<Vec<DeviceConstraint>>> {
    match claim.spec.devices {
        Some(d) => d.constraints,
        None => None,
    }
}

pub open spec fn requests_known(claim: ResourceClaim) -> bool {
    forall|i: int|
        0 <= i < requests_of(claim).len() ==> request_known(#[trigger] requests_of(claim)[i])
}

fn claim_requests<'a>(claim: &'a ResourceClaim) -> (r: Option<&'a Vec<DeviceRequest>>)
    ensures
        match r {
            Some(list) => list@ == requests_of(*claim),
            None => requests_of(*claim).len() == 0,
        },
{
    match &claim.spec.devices {
        Some(d) => match &d.requests {
            Some(list) => Some(list),
            None => None,
        },
        None => None,
    }
}

fn are_requests_known(claim: &ResourceClaim) -> (r: bool)
    ensures
        r == requests_known(*claim),
{
    match claim_requests(claim) {
        None => true,
        Some(list) => {
            let mut i: usize = 0;
            while i < list.len()
                invariant
                    i <= list@.len(),
                    list@ == requests_of(*claim),
                    forall|k: int| 0 <= k < i ==> request_known(#[trigger] list@[k]),
                decreases list@.len() - i,
            {
                if effective_requests(&list[i]).is_none() {
                    assert(!request_known(list@[i as int]));
                    return false;
                }
                i += 1;
            }
            true
        },
    }
}

/// What is wrong with a request that cannot be read.
pub const MALFORMED: &'static str =
    " has a malformed device request (neither exactly nor firstAvailable set, a missing deviceClassName, or an unrecognized allocationMode)";

/// The reason where a claim was made for another pod.
pub open spec fn not_owner(namespace: Seq<char>, claim: Seq<char>, pod: Seq<char>) -> Seq<char> {
    "ResourceClaim "@ + object_key(namespace, claim) + " was not created for pod "@ + object_key(
        namespace,
        pod,
    ) + " (pod is not owner)"@
}

/// Why a reference keeps the pod from being scheduled at all, if it does.
pub open spec fn reference_verdict(pod: PodInfo, snapshot: Snapshot, i: int) -> Option<StatusView> {
    match object_name_at(pod, i) {
        None => Some(
            unschedulable(
                NAME@,
                "resourceclaim for "@ + quoted(pod.resource_claims@[i].name@) + " does not exist"@,
            ),
        ),
        Some(name) => match claim_named(pod, snapshot, i) {
            None => Some(
                unschedulable(NAME@, "resourceclaim "@ + quoted(name) + " not found"@),
            ),
            Some(claim) => if pod.resource_claims@[i].resource_claim_name is None
                && !controlled_by(owners_of(claim), pod.uid@) {
                Some(unresolvable(NAME@, not_owner(pod.namespace@, name, pod.name@)))
            } else if !claim.is_allocated() && !requests_known(claim) {
                Some(unresolvable(NAME@, "resourceclaim "@ + quoted(name) + MALFORMED@))
            } else {
                None
            },
        },
    }
}

/// The verdict of the first reference, of the first `n`, that has one.
pub open spec fn first_verdict(pod: PodInfo, snapshot: Snapshot, n: int) -> Option<StatusView>
    decreases n,
{
    if n <= 0 {
        None
    } else {
        match first_verdict(pod, snapshot, n - 1) {
            Some(v) => Some(v),
            None => reference_verdict(pod, snapshot, n - 1),
        }
    }
}

proof fn verdict_stands(pod: PodInfo, snapshot: Snapshot, i: int, n: int)
    requires
        0 <= i <= n,
        first_verdict(pod, snapshot, i) is Some,
    ensures
        first_verdict(pod, snapshot, n) == first_verdict(pod, snapshot, i),
    decreases n - i,
{
    if i < n {
        verdict_stands(pod, snapshot, i + 1, n);
    }
}

fn resolve_reference<'a>(pod: &PodInfo, snapshot: &'a Snapshot, i: usize) -> (r: Result<
    (String, &'a ResourceClaim),
    Status,
>)
    requires
        i < pod.resource_claims@.len(),
    ensures
        match reference_verdict(*pod, *snapshot, i as int) {
            Some(v) => r is Err && r->Err_0@ == v,
            None => r is Ok && object_name_at(*pod, i as int) == Some(r->Ok_0.0@) && claim_named(
                *pod,
                *snapshot,
                i as int,
            ) == Some(*r->Ok_0.1),
        },
{
    let pc = &pod.resource_claims[i];
    let name = match pc.object_name(&pod.resource_claim_statuses) {
        Some(n) => n,
        None => {
            let shown = debug_text(pc.name.as_str());
            let text = joined("resourceclaim for ", shown.as_str());
            let text = joined(text.as_str(), " does not exist");
            return Err(Status::unschedulable(NAME, text.as_str()));
        },
    };
    let claim = match snapshot.resource_claim(pod.namespace.as_str(), name.as_str()) {
        Some(c) => c,
        None => {
            let shown = debug_text(name.as_str());
            let text = joined("resourceclaim ", shown.as_str());
            let text = joined(text.as_str(), " not found");
            return Err(Status::unschedulable(NAME, text.as_str()));
        },
    };
    if pc.resource_claim_name.is_none() && !is_controlled_by(claim, pod.uid.as_str()) {
        let key = crate::cache::object_key_text(pod.namespace.as_str(), name.as_str());
        let own = crate::cache::object_key_text(pod.namespace.as_str(), pod.name.as_str());
        let text = joined("ResourceClaim ", key.as_str());
        let text = joined(text.as_str(), " was not created for pod ");
        let text = joined(text.as_str(), own.as_str());
        let text = joined(text.as_str(), " (pod is not owner)");
        return Err(Status::unresolvable(NAME, text.as_str()));
    }
    if !claim.bound() && !are_requests_known(claim) {
        let shown = debug_text(name.as_str());
        let text = joined("resourceclaim ", shown.as_str());
        let text = joined(text.as_str(), MALFORMED);
        return Err(Status::unresolvable(NAME, text.as_str()));
    }
    Ok((name, claim))
}

/// One of a pod's claims, as resolved.
pub struct Wanted<'a> {
    pub name: String,
    pub claim: &'a ResourceClaim,
    /// The first reference to the same claim.
    pub leader: usize,
}

/// The first reference, from `j` on, to the claim that reference `i` names.
pub open spec fn leader_from(pod: PodInfo, i: int, j: int) -> int
    decreases i - j,
{
    if j >= i || object_name_at(pod, j) == object_name_at(pod, i) {
        j
    } else {
        leader_from(pod, i, j + 1)
    }
}

/// The references, resolved.
pub open spec fn resolved(w: Seq<Wanted>, pod: PodInfo, snapshot: Snapshot) -> bool {
    forall|i: int|
        0 <= i < w.len() ==> {
            &&& object_name_at(pod, i) == Some((#[trigger] w[i]).name@)
            &&& claim_named(pod, snapshot, i) == Some(*w[i].claim)
            &&& w[i].leader == leader_from(pod, i, 0)
            &&& w[i].claim.is_allocated() || requests_known(*w[i].claim)
        }
}

fn resolve_references<'a>(pod: &PodInfo, snapshot: &'a Snapshot) -> (r: Result<
    Vec<Wanted<'a>>,
    Status,
>)
    ensures
        match first_verdict(*pod, *snapshot, pod.resource_claims@.len() as int) {
            Some(v) => r is Err && r->Err_0@ == v,
            None => r is Ok && r->Ok_0@.len() == pod.resource_claims@.len() && resolved(
                r->Ok_0@,
                *pod,
                *snapshot,
            ),
        },
{
    let mut out: Vec<Wanted<'a>> = Vec::new();
    let mut i: usize = 0;
    while i < pod.resource_claims.len()
        invariant
            i <= pod.resource_claims@.len(),
            out@.len() == i,
            resolved(out@, *pod, *snapshot),
            first_verdict(*pod, *snapshot, i as int) is None,
        decreases pod.resource_claims@.len() - i,
    {
        match resolve_reference(pod, snapshot, i) {
            Err(status) => {
                proof {
                    verdict_stands(*pod, *snapshot, i + 1, pod.resource_claims@.len() as int);
                }
                return Err(status);
            },
            Ok((name, claim)) => {
                let mut j: usize = 0;
                while j < i && !text_eq(out[j].name.as_str(), name.as_str())
                    invariant
                        j <= i,
                        out@.len() == i,
                        resolved(out@, *pod, *snapshot),
                        object_name_at(*pod, i as int) == Some(name@),
                        leader_from(*pod, i as int, 0) == leader_from(*pod, i as int, j as int),
                    decreases i - j,
                {
                    assert(object_name_at(*pod, j as int) == Some(out@[j as int].name@));
                    j += 1;
                }
                proof {
                    if j < i {
                        assert(object_name_at(*pod, j as int) == Some(out@[j as int].name@));
                    }
                }
                out.push(Wanted { name, claim, leader: j });
            },
        }
        i += 1;
    }
    Ok(out)
}

/// A device of this name is promised to a pod, or a claim has it for itself.
pub open spec fn spoken_for(excluded: Seq<DeviceId>, snapshot: Snapshot, c: Candidate) -> bool {
    has_id(excluded, c) || exists|i: int|
        0 <= i < snapshot.resource_claims.entries@.len() && claim_holds(
            #[trigger] snapshot.resource_claims.entries@[i].1,
            c,
        )
}

pub open spec fn is_id(id: DeviceId, c: Candidate) -> bool {
    id.0@ == c.driver@ && id.1@ == c.pool@ && id.2@ == c.name@
}

pub open spec fn has_id(ids: Seq<DeviceId>, c: Candidate) -> bool {
    exists|i: int| 0 <= i < ids.len() && is_id(#[trigger] ids[i], c)
}

pub open spec fn allocated_results(claim: ResourceClaim) -> Seq<DeviceRequestAllocationResult> {
    match claim.status {
        Some(s) => match s.allocation {
            Some(a) => match a.devices {
                Some(d) => match d.results {
                    Some(r) => r@,
                    None => Seq::empty(),
                },
                None => Seq::empty(),
            },
            None => Seq::empty(),
        },
        None => Seq::empty(),
    }
}

/// The result is of the device, for itself.
pub open spec fn result_holds(r: DeviceRequestAllocationResult, c: Candidate) -> bool {
    !r.admin_access && r.driver@ == c.driver@ && r.pool@ == c.pool@ && r.device@ == c.name@
}

pub open spec fn claim_holds(claim: ResourceClaim, c: Candidate) -> bool {
    exists|i: int|
        0 <= i < allocated_results(claim).len() && result_holds(
            #[trigger] allocated_results(claim)[i],
            c,
        )
}

fn find_id(ids: &Vec<DeviceId>, c: &Candidate) -> (r: bool)
    ensures
        r == has_id(ids@, *c),
{
    let mut i: usize = 0;
    while i < ids.len()
        invariant
            i <= ids@.len(),
            forall|k: int| 0 <= k < i ==> !is_id(#[trigger] ids@[k], *c),
        decreases ids@.len() - i,
    {
        let id = &ids[i];
        if text_eq(id.0.as_str(), c.driver.as_str()) && text_eq(id.1.as_str(), c.pool.as_str())
            && text_eq(id.2.as_str(), c.name.as_str()) {
            assert(is_id(ids@[i as int], *c));
            return true;
        }
        i += 1;
    }
    false
}

fn results_of<'a>(claim: &'a ResourceClaim) -> (r: Option<&'a Vec<DeviceRequestAllocationResult>>)
    ensures
        match r {
            Some(list) => list@ == allocated_results(*claim),
            None => allocated_results(*claim).len() == 0,
        },
{
    match &claim.status {
        Some(s) => match &s.allocation {
            Some(a) => match &a.devices {
                Some(d) => match &d.results {
                    Some(list) => Some(list),
                    None => None,
                },
                None => None,
            },
            None => None,
        },
        None => None,
    }
}

fn does_claim_hold(claim: &ResourceClaim, c: &Candidate) -> (r: bool)
    ensures
        r == claim_holds(*claim, *c),
{
    match results_of(claim) {
        None => false,
        Some(list) => {
            let mut i: usize = 0;
            while i < list.len()
                invariant
                    i <= list@.len(),
                    list@ == allocated_results(*claim),
                    forall|k: int| 0 <= k < i ==> !result_holds(#[trigger] list@[k], *c),
                decreases list@.len() - i,
            {
                let r = &list[i];
                if !r.admin_access && text_eq(r.driver.as_str(), c.driver.as_str()) && text_eq(
                    r.pool.as_str(),
                    c.pool.as_str(),
                ) && text_eq(r.device.as_str(), c.name.as_str()) {
                    assert(result_holds(list@[i as int], *c));
                    return true;
                }
                i += 1;
            }
            false
        },
    }
}

fn is_spoken_for(excluded: &Vec<DeviceId>, snapshot: &Snapshot, c: &Candidate) -> (r: bool)
    ensures
        r == spoken_for(excluded@, *snapshot, *c),
{
    if find_id(excluded, c) {
        return true;
    }
    let claims = &snapshot.resource_claims.entries;
    let mut i: usize = 0;
    while i < claims.len()
        invariant
            i <= claims@.len(),
            claims@ == snapshot.resource_claims.entries@,
            forall|k: int| 0 <= k < i ==> !claim_holds((#[trigger] claims@[k]).1, *c),
        decreases claims@.len() - i,
    {
        if does_claim_hold(&claims[i].1, c) {
            assert(claim_holds(snapshot.resource_claims.entries@[i as int].1, *c));
            return true;
        }
        i += 1;
    }
    false
}

/// The selectors of a class.
pub open spec fn class_selectors(class: DeviceClass) -> Seq<DeviceSelector> {
    selector_list(class.spec.selectors)
}

/// What a selector sees is the device of a candidate.
pub open spec fn shows_candidate(shown: CelDevice, c: Candidate) -> bool {
    &&& shown.driver@ == c.driver@
    &&& shows_attributes(shown.attributes, attribute_entries(*c.basic), c.driver@)
    &&& shows_capacities(shown.capacity, capacity_entries(*c.basic), c.driver@)
}

/// The verdict is one of the selectors on the device of a candidate.
pub open spec fn candidate_chosen(
    chosen: bool,
    selectors: Seq<DeviceSelector>,
    class: Seq<DeviceSelector>,
    c: Candidate,
) -> bool {
    exists|shown: CelDevice|
        shows_candidate(shown, c) && #[trigger] chosen_by(chosen, selectors, class, shown@)
}

/// Every device of a list is shown, in order.
pub open spec fn all_shown(shown: Seq<CelDevice>, devices: Seq<Candidate>) -> bool {
    &&& shown.len() == devices.len()
    &&& forall|i: int| 0 <= i < shown.len() ==> shows_candidate(#[trigger] shown[i], devices[i])
}

/// An alternative stands for one way of a request, with some verdict of the
/// selectors on every device. A device can be handed out where the selectors
/// choose it, it is not spoken for or is shared, and it has the attributes that
/// the claim's constraints ask about.
pub open spec fn alternative_stands(
    x: Alternative,
    devices: Seq<Candidate>,
    e: EffectiveRequest,
    constraints: Option<Arc<Vec<DeviceConstraint>>>,
    snapshot: Snapshot,
    excluded: Seq<DeviceId>,
) -> bool {
    let class = snapshot.device_classes.at(e.device_class_name@);
    &&& x.result_name@ == e.result_name@
    &&& x.class_known == (class is Some)
    &&& x.all_devices == e.all_devices
    &&& x.count == e.count
    &&& x.admin_access == e.admin_access
    &&& x.matching@.len() == devices.len()
    &&& x.usable@.len() == devices.len()
    &&& forall|d: int|
        0 <= d < devices.len() ==> match class {
            Some(c) => candidate_chosen(
                #[trigger] x.matching@[d],
                selector_list(*e.selectors),
                class_selectors(c),
                devices[d],
            ),
            None => !x.matching@[d],
        }
    &&& forall|d: int|
        0 <= d < devices.len() ==> #[trigger] x.usable@[d] == (x.matching@[d] && (x.admin_access
            || !spoken_for(excluded, snapshot, devices[d])) && has_demanded(
            constraint_list(constraints),
            x.result_name@,
            devices[d],
        ))
}

/// An alternative stands for the way `a` of a request.
pub open spec fn way_stands(
    x: Alternative,
    a: int,
    req: DeviceRequest,
    devices: Seq<Candidate>,
    constraints: Option<Arc<Vec<DeviceConstraint>>>,
    snapshot: Snapshot,
    excluded: Seq<DeviceId>,
) -> bool {
    exists|e: EffectiveRequest| #[trigger]
        is_way(e, req, a) && alternative_stands(x, devices, e, constraints, snapshot, excluded)
}

/// An ask stands for a request of the claim of a reference.
pub open spec fn ask_stands(
    ask: Ask,
    i: int,
    req: DeviceRequest,
    devices: Seq<Candidate>,
    claim: ResourceClaim,
    snapshot: Snapshot,
    excluded: Seq<DeviceId>,
) -> bool {
    &&& ask.claim == i
    &&& ask.constraints == constraints_of(claim)
    &&& ask.alternatives@.len() == ways(req)
    &&& forall|a: int|
        0 <= a < ask.alternatives@.len() ==> way_stands(
            #[trigger] ask.alternatives@[a],
            a,
            req,
            devices,
            ask.constraints,
            snapshot,
            excluded,
        )
}

/// The requests to serve, with their references: those of every claim without
/// devices, once.
pub open spec fn to_serve(pod: PodInfo, snapshot: Snapshot, n: int) -> Seq<(int, DeviceRequest)>
    decreases n,
{
    if n <= 0 {
        Seq::empty()
    } else {
        let rest = to_serve(pod, snapshot, n - 1);
        match claim_named(pod, snapshot, n - 1) {
            Some(claim) => if claim.is_allocated() || leader_from(pod, n - 1, 0) != n - 1 {
                rest
            } else {
                rest + requests_of(claim).map_values(|r: DeviceRequest| (n - 1, r))
            },
            None => rest,
        }
    }
}

/// A problem is that of serving a pod on a node.
pub open spec fn poses(
    p: Problem,
    pod: PodInfo,
    snapshot: Snapshot,
    node: NodeInfo,
    excluded: Seq<DeviceId>,
) -> bool {
    let wants = to_serve(pod, snapshot, pod.resource_claims@.len() as int);
    &&& p.devices@ == candidates(snapshot.resource_slices.entries@, node)
    &&& p.asks@.len() == wants.len()
    &&& forall|k: int|
        0 <= k < p.asks@.len() ==> ask_stands(
            #[trigger] p.asks@[k],
            wants[k].0,
            wants[k].1,
            p.devices@,
            claim_named(pod, snapshot, wants[k].0)->Some_0,
            snapshot,
            excluded,
        )
}

fn build_alternative(
    e: &EffectiveRequest,
    devices: &Vec<Candidate>,
    shown: &Vec<CelDevice>,
    constraints: &Option<Arc<Vec<DeviceConstraint>>>,
    snapshot: &Snapshot,
    excluded: &Vec<DeviceId>,
) -> (r: Alternative)
    requires
        all_shown(shown@, devices@),
    ensures
        alternative_stands(r, devices@, *e, *constraints, *snapshot, excluded@),
{
    let class = snapshot.device_classes.get(e.device_class_name.as_str());
    let mut matching: Vec<bool> = Vec::new();
    let mut usable: Vec<bool> = Vec::new();
    let mut d: usize = 0;
    while d < devices.len()
        invariant
            d <= devices@.len(),
            all_shown(shown@, devices@),
            matching@.len() == d,
            usable@.len() == d,
            match snapshot.device_classes.at(e.device_class_name@) {
                Some(c) => class == Some(&c),
                None => class is None,
            },
            forall|x: int|
                0 <= x < d ==> match snapshot.device_classes.at(e.device_class_name@) {
                    Some(c) => candidate_chosen(
                        #[trigger] matching@[x],
                        selector_list(*e.selectors),
                        class_selectors(c),
                        devices@[x],
                    ),
                    None => !matching@[x],
                },
            forall|x: int|
                0 <= x < d ==> #[trigger] usable@[x] == (matching@[x] && (e.admin_access
                    || !spoken_for(excluded@, *snapshot, devices@[x])) && has_demanded(
                    constraint_list(*constraints),
                    e.result_name@,
                    devices@[x],
                )),
        decreases devices@.len() - d,
    {
        let chosen = match class {
            Some(c) => device_matches(e.selectors, &c.spec.selectors, &shown[d]),
            None => false,
        };
        let free = chosen && (e.admin_access || !is_spoken_for(excluded, snapshot, &devices[d]))
            && check_demands(constraints, e.result_name.as_str(), &devices[d]);
        matching.push(chosen);
        usable.push(free);
        d += 1;
    }
    Alternative {
        result_name: e.result_name.clone(),
        class_known: class.is_some(),
        all_devices: e.all_devices,
        count: e.count,
        admin_access: e.admin_access,
        matching,
        usable,
    }
}

fn build_ask(
    i: usize,
    req: &DeviceRequest,
    devices: &Vec<Candidate>,
    shown: &Vec<CelDevice>,
    claim: &ResourceClaim,
    snapshot: &Snapshot,
    excluded: &Vec<DeviceId>,
) -> (r: Ask)
    requires
        all_shown(shown@, devices@),
        request_known(*req),
    ensures
        ask_stands(r, i as int, *req, devices@, *claim, *snapshot, excluded@),
{
    let constraints = match &claim.spec.devices {
        Some(d) => match &d.constraints {
            Some(c) => Some(c.clone()),
            None => None,
        },
        None => None,
    };
    let mut alternatives: Vec<Alternative> = Vec::new();
    match effective_requests(req) {
        Some(list) => {
            let mut a: usize = 0;
            while a < list.len()
                invariant
                    a <= list@.len() == ways(*req),
                    all_shown(shown@, devices@),
                    constraints == constraints_of(*claim),
                    alternatives@.len() == a,
                    forall|x: int| 0 <= x < list@.len() ==> is_way(#[trigger] list@[x], *req, x),
                    forall|x: int|
                        0 <= x < a ==> way_stands(
                            #[trigger] alternatives@[x],
                            x,
                            *req,
                            devices@,
                            constraints,
                            *snapshot,
                            excluded@,
                        ),
                decreases list@.len() - a,
            {
                let x = build_alternative(
                    &list[a],
                    devices,
                    shown,
                    &constraints,
                    snapshot,
                    excluded,
                );
                assert(is_way(list@[a as int], *req, a as int));
                alternatives.push(x);
                a += 1;
            }
        },
        None => {},
    }
    Ask { claim: i, constraints, alternatives }
}

fn show_devices(devices: &Vec<Candidate>) -> (r: Vec<CelDevice>)
    ensures
        all_shown(r@, devices@),
{
    let mut out: Vec<CelDevice> = Vec::new();
    let mut i: usize = 0;
    while i < devices.len()
        invariant
            i <= devices@.len(),
            out@.len() == i,
            forall|k: int| 0 <= k < i ==> shows_candidate(#[trigger] out@[k], devices@[k]),
        decreases devices@.len() - i,
    {
        out.push(cel_device(devices[i].driver.as_str(), &devices[i].basic));
        i += 1;
    }
    out
}

/// The problem of serving a pod on a node.
fn build_problem(
    pod: &PodInfo,
    wanted: &Vec<Wanted>,
    snapshot: &Snapshot,
    node: &NodeInfo,
    excluded: &Vec<DeviceId>,
) -> (r: Problem)
    requires
        wanted@.len() == pod.resource_claims@.len(),
        resolved(wanted@, *pod, *snapshot),
    ensures
        poses(r, *pod, *snapshot, *node, excluded@),
        r.wf(),
{
    let devices = candidates_for_node(snapshot, node);
    let shown = show_devices(&devices);
    let mut asks: Vec<Ask> = Vec::new();
    let mut i: usize = 0;
    while i < wanted.len()
        invariant
            i <= wanted@.len(),
            all_shown(shown@, devices@),
            resolved(wanted@, *pod, *snapshot),
            asks@.len() == to_serve(*pod, *snapshot, i as int).len(),
            forall|k: int|
                0 <= k < asks@.len() ==> ask_stands(
                    #[trigger] asks@[k],
                    to_serve(*pod, *snapshot, i as int)[k].0,
                    to_serve(*pod, *snapshot, i as int)[k].1,
                    devices@,
                    claim_named(
                        *pod,
                        *snapshot,
                        to_serve(*pod, *snapshot, i as int)[k].0,
                    )->Some_0,
                    *snapshot,
                    excluded@,
                ),
        decreases wanted@.len() - i,
    {
        let ghost sofar = to_serve(*pod, *snapshot, i as int);
        let ghost longer = to_serve(*pod, *snapshot, i + 1);
        let w = &wanted[i];
        assert(claim_named(*pod, *snapshot, i as int) == Some(*wanted@[i as int].claim));
        if !w.claim.bound() && w.leader == i {
            let ghost reqs = requests_of(*w.claim);
            proof {
                assert(longer == sofar + reqs.map_values(|r: DeviceRequest| (i as int, r)));
            }
            match claim_requests(w.claim) {
                None => {
                    assert(longer =~= sofar);
                },
                Some(list) => {
                    let mut j: usize = 0;
                    while j < list.len()
                        invariant
                            j <= list@.len(),
                            i < wanted@.len(),
                            all_shown(shown@, devices@),
                            list@ == reqs,
                            reqs == requests_of(*w.claim),
                            requests_known(*w.claim),
                            claim_named(*pod, *snapshot, i as int) == Some(*w.claim),
                            longer == sofar + reqs.map_values(|r: DeviceRequest| (i as int, r)),
                            asks@.len() == sofar.len() + j,
                            forall|k: int|
                                0 <= k < asks@.len() ==> ask_stands(
                                    #[trigger] asks@[k],
                                    longer[k].0,
                                    longer[k].1,
                                    devices@,
                                    claim_named(*pod, *snapshot, longer[k].0)->Some_0,
                                    *snapshot,
                                    excluded@,
                                ),
                        decreases list@.len() - j,
                    {
                        assert(request_known(reqs[j as int]));
                        let ask = build_ask(
                            i,
                            &list[j],
                            &devices,
                            &shown,
                            w.claim,
                            snapshot,
                            excluded,
                        );
                        asks.push(ask);
                        assert(longer[sofar.len() + j] == (i as int, reqs[j as int]));
                        j += 1;
                    }
                },
            }
        }
        i += 1;
    }
    let r = Problem { devices, asks };
    proof {
        assert forall|k: int, a: int|
            0 <= k < r.asks@.len() && 0 <= a < r.asks@[k].alternatives@.len() implies {
            &&& (#[trigger] r.alt(k, a)).matching@.len() == r.devices@.len()
            &&& r.alt(k, a).usable@.len() == r.devices@.len()
        } by {
            let ask = r.asks@[k];
            let x = ask.alternatives@[a];
        }
    }
    r
}

/// What serving a pod on a node came to.
pub struct Outcome {
    pub problem: Problem,
    pub plan: Option<Vec<Choice>>,
}

/// The outcome is the first plan that serves every request, if there is one.
pub open spec fn settled(o: Outcome) -> bool {
    &&& o.problem.wf()
    &&& match o.plan {
        Some(plan) => {
            &&& o.problem.solves(plan_view(plan@))
            &&& forall|e: Seq<Selection>| #[trigger]
                o.problem.solves(e) ==> !comes_before(e, plan_view(plan@))
        },
        None => forall|e: Seq<Selection>| !#[trigger] o.problem.solves(e),
    }
}

/// Try to serve every request of a pod's claims with the devices of a node.
fn allocate_on_node(
    pod: &PodInfo,
    wanted: &Vec<Wanted>,
    snapshot: &Snapshot,
    node: &NodeInfo,
    excluded: &Vec<DeviceId>,
) -> (r: Outcome)
    requires
        wanted@.len() == pod.resource_claims@.len(),
        resolved(wanted@, *pod, *snapshot),
    ensures
        settled(r),
        poses(r.problem, *pod, *snapshot, *node, excluded@),
{
    let problem = build_problem(pod, wanted, snapshot, node, excluded);
    let plan = problem.solve();
    Outcome { problem, plan }
}

/// The outcomes on every node.
pub open spec fn tried(
    o: Seq<Outcome>,
    pod: PodInfo,
    snapshot: Snapshot,
    excluded: Seq<DeviceId>,
) -> bool {
    o.len() == snapshot.nodes@.len() && forall|x: int|
        0 <= x < o.len() ==> settled(#[trigger] o[x]) && poses(
            o[x].problem,
            pod,
            snapshot,
            *snapshot.nodes@[x],
            excluded,
        )
}

fn try_nodes(
    pod: &PodInfo,
    wanted: &Vec<Wanted>,
    snapshot: &Snapshot,
    excluded: &Vec<DeviceId>,
) -> (r: Vec<Outcome>)
    requires
        wanted@.len() == pod.resource_claims@.len(),
        resolved(wanted@, *pod, *snapshot),
    ensures
        tried(r@, *pod, *snapshot, excluded@),
{
    let mut out: Vec<Outcome> = Vec::new();
    let mut x: usize = 0;
    while x < snapshot.nodes.len()
        invariant
            x <= snapshot.nodes@.len(),
            wanted@.len() == pod.resource_claims@.len(),
            resolved(wanted@, *pod, *snapshot),
            out@.len() == x,
            forall|y: int|
                0 <= y < x ==> settled(#[trigger] out@[y]) && poses(
                    out@[y].problem,
                    *pod,
                    *snapshot,
                    *snapshot.nodes@[y],
                    excluded@,
                ),
        decreases snapshot.nodes@.len() - x,
    {
        out.push(allocate_on_node(pod, wanted, snapshot, &snapshot.nodes[x], excluded));
        x += 1;
    }
    out
}

/// What a claim gets on the last node of a name, of the first `n`, where the pod
/// can be served.
pub open spec fn granted(
    o: Seq<Outcome>,
    nodes: Seq<Arc<NodeInfo>>,
    claim: usize,
    name: Seq<char>,
    n: int,
) -> Option<Seq<DeviceRequestAllocationResult>>
    decreases n,
{
    if n <= 0 {
        None
    } else if nodes[n - 1].name@ == name && o[n - 1].plan is Some {
        Some(
            handed_to(
                o[n - 1].problem,
                plan_view(o[n - 1].plan->Some_0@),
                claim,
                o[n - 1].problem.asks@.len() as int,
            ),
        )
    } else {
        granted(o, nodes, claim, name, n - 1)
    }
}

/// A table of what a claim gets on every node where the pod can be served.
pub open spec fn tabled(
    m: StrMap<Vec<DeviceRequestAllocationResult>>,
    o: Seq<Outcome>,
    nodes: Seq<Arc<NodeInfo>>,
    claim: usize,
    n: int,
) -> bool {
    forall|name: Seq<char>|
        match (#[trigger] m.at(name)) {
            Some(v) => granted(o, nodes, claim, name, n) == Some(v@),
            None => granted(o, nodes, claim, name, n) is None,
        }
}

fn table(outcomes: &Vec<Outcome>, snapshot: &Snapshot, claim: usize) -> (r: StrMap<
    Vec<DeviceRequestAllocationResult>,
>)
    requires
        outcomes@.len() == snapshot.nodes@.len(),
        forall|x: int| 0 <= x < outcomes@.len() ==> settled(#[trigger] outcomes@[x]),
    ensures
        tabled(r, outcomes@, snapshot.nodes@, claim, snapshot.nodes@.len() as int),
{
    let mut out: StrMap<Vec<DeviceRequestAllocationResult>> = StrMap::new();
    let mut x: usize = 0;
    while x < outcomes.len()
        invariant
            x <= outcomes@.len() == snapshot.nodes@.len(),
            forall|y: int| 0 <= y < outcomes@.len() ==> settled(#[trigger] outcomes@[y]),
            tabled(out, outcomes@, snapshot.nodes@, claim, x as int),
        decreases outcomes@.len() - x,
    {
        let ghost before = out;
        let o = &outcomes[x];
        assert(settled(outcomes@[x as int]));
        match &o.plan {
            Some(plan) => {
                let results = o.problem.results(plan, claim);
                out.insert(snapshot.nodes[x].name.clone(), results);
            },
            None => {},
        }
        x += 1;
        proof {
            assert forall|name: Seq<char>|
                match (#[trigger] out.at(name)) {
                    Some(v) => granted(outcomes@, snapshot.nodes@, claim, name, x as int) == Some(
                        v@,
                    ),
                    None => granted(outcomes@, snapshot.nodes@, claim, name, x as int) is None,
                } by {
                let was = before.at(name);
            }
        }
    }
    out
}

/// What is to be done about one of a pod's claims.
pub enum ClaimPlan {
    /// It has devices. The selector is where they can be used from.
    Reserved {
        claim_key: String,
        needs_reservation: bool,
        node_selector: Option<Arc<NodeSelector>>,
    },
    /// It has none. On a node where the whole pod can be served: what it gets.
    Allocate { claim_key: String, by_node: StrMap<Vec<DeviceRequestAllocationResult>> },
}

pub struct WantedClaims(pub Vec<ClaimPlan>);

pub open spec fn consumers(claim: ResourceClaim) -> Seq<ConsumerReference> {
    match claim.status {
        Some(s) => match s.reserved_for {
            Some(r) => r@,
            None => Seq::empty(),
        },
        None => Seq::empty(),
    }
}

/// The reference is to the pod.
pub open spec fn is_consumer(c: ConsumerReference, pod: PodInfo) -> bool {
    c.resource@ == "pods"@ && c.name@ == pod.name@ && c.uid@ == pod.uid@
}

pub open spec fn has_consumer(c: Seq<ConsumerReference>, pod: PodInfo) -> bool {
    exists|i: int| 0 <= i < c.len() && is_consumer(#[trigger] c[i], pod)
}

fn names_pod(c: &ConsumerReference, pod: &PodInfo) -> (r: bool)
    ensures
        r == is_consumer(*c, *pod),
{
    text_eq(c.resource.as_str(), "pods") && text_eq(c.name.as_str(), pod.name.as_str()) && text_eq(
        c.uid.as_str(),
        pod.uid.as_str(),
    )
}

fn find_consumer(c: &Vec<ConsumerReference>, pod: &PodInfo) -> (r: bool)
    ensures
        r == has_consumer(c@, *pod),
{
    let mut i: usize = 0;
    while i < c.len()
        invariant
            i <= c@.len(),
            forall|k: int| 0 <= k < i ==> !is_consumer(#[trigger] c@[k], *pod),
        decreases c@.len() - i,
    {
        if names_pod(&c[i], pod) {
            assert(is_consumer(c@[i as int], *pod));
            return true;
        }
        i += 1;
    }
    false
}

fn consumers_of<'a>(claim: &'a ResourceClaim) -> (r: Option<&'a Vec<ConsumerReference>>)
    ensures
        match r {
            Some(list) => list@ == consumers(*claim),
            None => consumers(*claim).len() == 0,
        },
{
    match &claim.status {
        Some(s) => match &s.reserved_for {
            Some(list) => Some(list),
            None => None,
        },
        None => None,
    }
}

pub open spec fn allocated_selector(claim: ResourceClaim) -> Option<Arc<NodeSelector>> {
    match claim.status {
        Some(s) => match s.allocation {
            Some(a) => a.node_selector,
            None => None,
        },
        None => None,
    }
}

/// The plan for the claim of reference `i`.
pub open spec fn plan_stands(
    plan: ClaimPlan,
    i: int,
    o: Seq<Outcome>,
    pod: PodInfo,
    snapshot: Snapshot,
) -> bool {
    match claim_named(pod, snapshot, i) {
        None => false,
        Some(claim) => if claim.is_allocated() {
            plan matches ClaimPlan::Reserved { claim_key, needs_reservation, node_selector }
                && claim_key@ == claim.key_view() && needs_reservation == !has_consumer(
                consumers(claim),
                pod,
            ) && node_selector == allocated_selector(claim)
        } else {
            plan matches ClaimPlan::Allocate { claim_key, by_node } && claim_key@
                == claim.key_view() && tabled(
                by_node,
                o,
                snapshot.nodes@,
                leader_from(pod, i, 0) as usize,
                snapshot.nodes@.len() as int,
            )
        },
    }
}

/// The plans for a pod's claims, on the outcomes of trying every node.
pub open spec fn plans_stand(
    plans: Seq<ClaimPlan>,
    pod: PodInfo,
    snapshot: Snapshot,
    excluded: Seq<DeviceId>,
) -> bool {
    exists|o: Seq<Outcome>| #[trigger]
        tried(o, pod, snapshot, excluded) && plans.len() == pod.resource_claims@.len() && forall|
            i: int,
        |
            0 <= i < plans.len() ==> plan_stands(#[trigger] plans[i], i, o, pod, snapshot)
}

fn plan_claim(
    pod: &PodInfo,
    snapshot: &Snapshot,
    w: &Wanted,
    outcomes: &Vec<Outcome>,
    Ghost(i): Ghost<int>,
) -> (r: ClaimPlan)
    requires
        claim_named(*pod, *snapshot, i) == Some(*w.claim),
        w.leader == leader_from(*pod, i, 0),
        outcomes@.len() == snapshot.nodes@.len(),
        forall|x: int| 0 <= x < outcomes@.len() ==> settled(#[trigger] outcomes@[x]),
    ensures
        plan_stands(r, i, outcomes@, *pod, *snapshot),
{
    let claim_key = w.claim.key();
    if w.claim.bound() {
        let reserved = match consumers_of(w.claim) {
            Some(list) => find_consumer(list, pod),
            None => false,
        };
        let node_selector = match &w.claim.status {
            Some(s) => match &s.allocation {
                Some(a) => match &a.node_selector {
                    Some(sel) => Some(sel.clone()),
                    None => None,
                },
                None => None,
            },
            None => None,
        };
        ClaimPlan::Reserved { claim_key, needs_reservation: !reserved, node_selector }
    } else {
        ClaimPlan::Allocate { claim_key, by_node: table(outcomes, snapshot, w.leader) }
    }
}

/// What looking at a pod's claims comes to. `excluded` are the devices promised
/// to other pods.
pub open spec fn looked_at(
    before: CycleState,
    pod: PodInfo,
    snapshot: Snapshot,
    excluded: Seq<DeviceId>,
    after: CycleState,
    status: StatusView,
) -> bool {
    if pod.resource_claims@.len() == 0 {
        status == skip() && filter_switched_off(before, after, NAME@)
    } else {
        match first_verdict(pod, snapshot, pod.resource_claims@.len() as int) {
            Some(v) => status == v && after == before,
            None => {
                &&& status == success()
                &&& after.only_slot(&before, NAME@)
                &&& after.same_skips(&before)
                &&& after.value::<WantedClaims>(NAME@) matches Some(w) && plans_stand(
                    w.0@,
                    pod,
                    snapshot,
                    excluded,
                )
            },
        }
    }
}

/// Resolve a pod's claims and try every node. `excluded` are the devices
/// promised to other pods.
pub fn pre_filter_impl(
    state: &mut CycleState,
    pod: &PodInfo,
    snapshot: &Snapshot,
    excluded: &Vec<DeviceId>,
) -> (r: (Status, Option<Vec<String>>))
    ensures
        r.1 is None,
        looked_at(*old(state), *pod, *snapshot, excluded@, *final(state), r.0@),
{
    if pod.resource_claims.len() == 0 {
        state.skip_filter(NAME);
        return (Status::skip(), None);
    }
    let wanted = match resolve_references(pod, snapshot) {
        Ok(w) => w,
        Err(status) => {
            return (status, None);
        },
    };
    let outcomes = try_nodes(pod, &wanted, snapshot, excluded);
    let mut plans: Vec<ClaimPlan> = Vec::new();
    let mut i: usize = 0;
    while i < wanted.len()
        invariant
            i <= wanted@.len() == pod.resource_claims@.len(),
            *state == *old(state),
            resolved(wanted@, *pod, *snapshot),
            tried(outcomes@, *pod, *snapshot, excluded@),
            plans@.len() == i,
            forall|k: int|
                0 <= k < i ==> plan_stands(#[trigger] plans@[k], k, outcomes@, *pod, *snapshot),
        decreases wanted@.len() - i,
    {
        assert(claim_named(*pod, *snapshot, i as int) == Some(*wanted@[i as int].claim));
        let plan = plan_claim(pod, snapshot, &wanted[i], &outcomes, Ghost(i as int));
        plans.push(plan);
        i += 1;
    }
    assert(tried(outcomes@, *pod, *snapshot, excluded@));
    assert(plans_stand(plans@, *pod, *snapshot, excluded@));
    state.write(NAME, WantedClaims(plans));
    (Status::success(), None)
}

/// A plan's verdict on a node.
pub open spec fn plan_verdict(plan: ClaimPlan, node: NodeInfo) -> Option<StatusView> {
    match plan {
        ClaimPlan::Reserved { claim_key, needs_reservation, node_selector } => match node_selector {
            Some(sel) => if selector_holds(*sel, node) {
                None
            } else {
                Some(unresolvable(NAME@, "node(s) not in the claim's allocated topology"@))
            },
            None => None,
        },
        ClaimPlan::Allocate { claim_key, by_node } => if by_node.at(node.name@) is Some {
            None
        } else {
            Some(
                unschedulable(
                    NAME@,
                    "node(s) did not have available devices for a resource claim"@,
                ),
            )
        },
    }
}

fn check_plan(plan: &ClaimPlan, node: &NodeInfo) -> (r: Option<Status>)
    ensures
        match plan_verdict(*plan, *node) {
            Some(v) => r is Some && r->Some_0@ == v,
            None => r is None,
        },
{
    match plan {
        ClaimPlan::Reserved { claim_key, needs_reservation, node_selector } => match node_selector {
            Some(sel) => if matches_node_selector(sel, node) {
                None
            } else {
                Some(Status::unresolvable(NAME, "node(s) not in the claim's allocated topology"))
            },
            None => None,
        },
        ClaimPlan::Allocate { claim_key, by_node } => if by_node.contains_key(node.name.as_str()) {
            None
        } else {
            Some(
                Status::unschedulable(
                    NAME,
                    "node(s) did not have available devices for a resource claim",
                ),
            )
        },
    }
}

/// The verdict of the first plan that turns the node away.
pub open spec fn node_verdict(plans: Seq<ClaimPlan>, node: NodeInfo) -> Option<StatusView>
    decreases plans.len(),
{
    if plans.len() == 0 {
        None
    } else {
        match node_verdict(plans.drop_last(), node) {
            Some(v) => Some(v),
            None => plan_verdict(plans.last(), node),
        }
    }
}

proof fn node_verdict_stands(plans: Seq<ClaimPlan>, node: NodeInfo, n: int)
    requires
        0 <= n <= plans.len(),
        node_verdict(plans.take(n), node) is Some,
    ensures
        node_verdict(plans, node) == node_verdict(plans.take(n), node),
    decreases plans.len() - n,
{
    if n == plans.len() {
        assert(plans.take(n) =~= plans);
    } else {
        assert(plans.take(n + 1).drop_last() =~= plans.take(n));
        node_verdict_stands(plans, node, n + 1);
    }
}

/// What a node is told.
pub open spec fn told(state: CycleState, node: NodeInfo) -> StatusView {
    match state.value::<WantedClaims>(NAME@) {
        None => success(),
        Some(w) => match node_verdict(w.0@, node) {
            Some(v) => v,
            None => success(),
        },
    }
}

/// Whether the pod's claims can be met on a node.
pub fn filter_impl(state: &CycleState, pod: &PodInfo, node: &NodeInfo) -> (r: Status)
    ensures
        r@ == told(*state, *node),
{
    let plans = match state.read::<WantedClaims>(NAME) {
        Some(w) => &w.0,
        None => {
            return Status::success();
        },
    };
    let ghost all = plans@;
    let mut i: usize = 0;
    while i < plans.len()
        invariant
            i <= plans@.len(),
            all == plans@,
            state.value::<WantedClaims>(NAME@) matches Some(w) && w.0@ == all,
            node_verdict(all.take(i as int), *node) is None,
        decreases plans@.len() - i,
    {
        assert(all.take(i + 1).drop_last() =~= all.take(i as int));
        match check_plan(&plans[i], node) {
            Some(status) => {
                proof {
                    node_verdict_stands(all, *node, i + 1);
                }
                return status;
            },
            None => {},
        }
        i += 1;
    }
    assert(all.take(i as int) =~= all);
    Status::success()
}

/// No node is where a selector says.
pub open spec fn unreachable_everywhere(sel: NodeSelector, nodes: Seq<Arc<NodeInfo>>) -> bool {
    forall|i: int| 0 <= i < nodes.len() ==> !selector_holds(sel, *#[trigger] nodes[i])
}

fn is_unreachable(sel: &NodeSelector, snapshot: &Snapshot) -> (r: bool)
    ensures
        r == unreachable_everywhere(*sel, snapshot.nodes@),
{
    let mut i: usize = 0;
    while i < snapshot.nodes.len()
        invariant
            i <= snapshot.nodes@.len(),
            forall|k: int| 0 <= k < i ==> !selector_holds(*sel, *#[trigger] snapshot.nodes@[k]),
        decreases snapshot.nodes@.len() - i,
    {
        if matches_node_selector(sel, &snapshot.nodes[i]) {
            assert(selector_holds(*sel, *snapshot.nodes@[i as int]));
            return false;
        }
        i += 1;
    }
    true
}

/// A claim that the plan may free: its devices are out of reach of every node,
/// and nobody but the pod still needs them.
pub open spec fn freeable(plan: ClaimPlan, pod: PodInfo, snapshot: Snapshot) -> Option<
    (Seq<char>, Seq<char>),
> {
    match plan {
        ClaimPlan::Reserved { claim_key, needs_reservation, node_selector: Some(sel) } => match cut(
            claim_key@,
            '/',
        ) {
            Some((namespace, name)) => match snapshot.resource_claim_at(namespace, name) {
                Some(claim) => if unreachable_everywhere(*sel, snapshot.nodes@) && only_for(
                    consumers(claim),
                    pod,
                ) {
                    Some((namespace, name))
                } else {
                    None
                },
                None => None,
            },
            None => None,
        },
        _ => None,
    }
}

/// Reserved for nobody, or for the pod alone.
pub open spec fn only_for(c: Seq<ConsumerReference>, pod: PodInfo) -> bool {
    c.len() == 0 || (c.len() == 1 && is_consumer(c[0], pod))
}

fn free_plan(plan: &ClaimPlan, pod: &PodInfo, snapshot: &Snapshot) -> (r: Option<(String, String)>)
    ensures
        match freeable(*plan, *pod, *snapshot) {
            Some((namespace, name)) => r is Some && r->Some_0.0@ == namespace && r->Some_0.1@
                == name,
            None => r is None,
        },
{
    match plan {
        ClaimPlan::Reserved { claim_key, needs_reservation, node_selector: Some(sel) } => {
            if !is_unreachable(sel, snapshot) {
                return None;
            }
            match split_once(claim_key.as_str(), '/') {
                Some((namespace, name)) => match snapshot.resource_claim(
                    namespace.as_str(),
                    name.as_str(),
                ) {
                    Some(claim) => {
                        let ours = match consumers_of(claim) {
                            Some(list) => list.len() == 0 || (list.len() == 1 && names_pod(
                                &list[0],
                                pod,
                            )),
                            None => true,
                        };
                        if ours {
                            Some((namespace, name))
                        } else {
                            None
                        }
                    },
                    None => None,
                },
                None => None,
            }
        },
        _ => None,
    }
}

/// The first of the plans whose claim may be freed.
pub open spec fn first_freeable(
    plans: Seq<ClaimPlan>,
    pod: PodInfo,
    snapshot: Snapshot,
    i: int,
) -> Option<(Seq<char>, Seq<char>)>
    decreases plans.len() - i,
{
    if i < 0 || i >= plans.len() {
        None
    } else if freeable(plans[i], pod, snapshot) is Some {
        freeable(plans[i], pod, snapshot)
    } else {
        first_freeable(plans, pod, snapshot, i + 1)
    }
}

/// The claim, by namespace and name, to free so that the pod may be served
/// elsewhere.
pub fn post_filter_impl(wanted: &WantedClaims, pod: &PodInfo, snapshot: &Snapshot) -> (r: Option<
    (String, String),
>)
    ensures
        match first_freeable(wanted.0@, *pod, *snapshot, 0) {
            Some((namespace, name)) => r is Some && r->Some_0.0@ == namespace && r->Some_0.1@
                == name,
            None => r is None,
        },
{
    let mut i: usize = 0;
    while i < wanted.0.len()
        invariant
            i <= wanted.0@.len(),
            first_freeable(wanted.0@, *pod, *snapshot, 0) == first_freeable(
                wanted.0@,
                *pod,
                *snapshot,
                i as int,
            ),
        decreases wanted.0@.len() - i,
    {
        let found = free_plan(&wanted.0[i], pod, snapshot);
        if found.is_some() {
            return found;
        }
        i += 1;
    }
    None
}

/// What was promised to a pod for one claim: new devices, or none where it had
/// them already.
pub struct AssumedClaim {
    pub claim_key: String,
    pub new_devices: Vec<DeviceRequestAllocationResult>,
}

fn copy_results(v: &Vec<DeviceRequestAllocationResult>) -> (r: Vec<DeviceRequestAllocationResult>)
    ensures
        r@ == v@,
{
    let mut out: Vec<DeviceRequestAllocationResult> = Vec::new();
    let mut i: usize = 0;
    while i < v.len()
        invariant
            i <= v@.len(),
            out@ == v@.take(i as int),
        decreases v@.len() - i,
    {
        out.push(
            DeviceRequestAllocationResult {
                request: v[i].request.clone(),
                driver: v[i].driver.clone(),
                pool: v[i].pool.clone(),
                device: v[i].device.clone(),
                admin_access: v[i].admin_access,
            },
        );
        i += 1;
        assert(v@.take(i as int) =~= v@.take(i - 1).push(v@[i - 1]));
    }
    assert(v@.take(i as int) =~= v@);
    out
}

/// The first claim, from `i` on, that gets nothing on a node.
pub open spec fn unplanned(plans: Seq<ClaimPlan>, node: Seq<char>, i: int) -> Option<Seq<char>>
    decreases plans.len() - i,
{
    if i < 0 || i >= plans.len() {
        None
    } else {
        match plans[i] {
            ClaimPlan::Allocate { claim_key, by_node } => if by_node.at(node) is None {
                Some(claim_key@)
            } else {
                unplanned(plans, node, i + 1)
            },
            _ => unplanned(plans, node, i + 1),
        }
    }
}

/// What a plan promises on a node.
pub open spec fn promises(a: AssumedClaim, plan: ClaimPlan, node: Seq<char>) -> bool {
    match plan {
        ClaimPlan::Reserved { claim_key, needs_reservation, node_selector } => a.claim_key@
            == claim_key@ && a.new_devices@.len() == 0,
        ClaimPlan::Allocate { claim_key, by_node } => a.claim_key@ == claim_key@ && by_node.at(
            node,
        ) is Some && a.new_devices@ == by_node.at(node)->Some_0@,
    }
}

pub open spec fn all_promised(a: Seq<AssumedClaim>, plans: Seq<ClaimPlan>, node: Seq<char>) -> bool {
    a.len() == plans.len() && forall|i: int|
        0 <= i < a.len() ==> promises(#[trigger] a[i], plans[i], node)
}

/// Why a reservation fails: a node was approved without devices for a claim.
pub open spec fn unplanned_reason(node: Seq<char>, claim: Seq<char>) -> Seq<char> {
    "internal: Filter approved node "@ + node + " with no computed allocation for "@ + claim
}

/// The devices that pods were promised and that are not written yet.
pub struct AssumedDevices {
    pub by_pod: StrMap<Vec<AssumedClaim>>,
}

/// One of the claims was promised the device for itself.
pub open spec fn any_holds(a: Seq<AssumedClaim>, c: Candidate) -> bool {
    exists|i: int, j: int|
        0 <= i < a.len() && 0 <= j < a[i].new_devices@.len() && result_holds(
            #[trigger] a[i].new_devices@[j],
            c,
        )
}

impl AssumedDevices {
    pub fn new() -> (r: Self)
        ensures
            r.by_pod.entries@.len() == 0,
            r.by_pod.ordered(),
            forall|u: Seq<char>| (#[trigger] r.by_pod.at(u)) is None,
    {
        AssumedDevices { by_pod: StrMap::new() }
    }

    /// Some pod was promised the device for itself.
    pub open spec fn promised(&self, c: Candidate) -> bool {
        exists|u: int|
            0 <= u < self.by_pod.entries@.len() && any_holds(
                (#[trigger] self.by_pod.entries@[u]).1@,
                c,
            )
    }

    /// What promising a pod what its claims get on a node comes to.
    pub open spec fn promising(
        &self,
        wanted: Option<WantedClaims>,
        pod_uid: Seq<char>,
        node: Seq<char>,
        after: &Self,
        status: StatusView,
    ) -> bool {
        match wanted {
            None => status == success() && *after == *self,
            Some(w) => match unplanned(w.0@, node, 0) {
                Some(claim) => status == failure(NAME@, unplanned_reason(node, claim)) && *after
                    == *self,
                None => {
                    &&& status == success()
                    &&& after.by_pod.at(pod_uid) is Some
                    &&& all_promised(after.by_pod.at(pod_uid)->Some_0@, w.0@, node)
                    &&& forall|u: Seq<char>|
                        u != pod_uid ==> #[trigger] after.by_pod.at(u) == self.by_pod.at(u)
                    &&& self.by_pod.ordered() ==> after.by_pod.ordered()
                },
            },
        }
    }

    /// Promise a pod what its claims get on the node that won.
    pub fn reserve(&mut self, wanted: Option<&WantedClaims>, pod_uid: &str, node: &str) -> (r: Status)
        ensures
            old(self).promising(
                crate::framework::unref(wanted),
                pod_uid@,
                node@,
                final(self),
                r@,
            ),
    {
        let plans = match wanted {
            Some(w) => &w.0,
            None => {
                return Status::success();
            },
        };
        let mut assumed: Vec<AssumedClaim> = Vec::new();
        let mut i: usize = 0;
        while i < plans.len()
            invariant
                i <= plans@.len(),
                *self == *old(self),
                wanted matches Some(w) && w.0@ == plans@,
                assumed@.len() == i,
                unplanned(plans@, node@, 0) == unplanned(plans@, node@, i as int),
                forall|k: int| 0 <= k < i ==> promises(#[trigger] assumed@[k], plans@[k], node@),
            decreases plans@.len() - i,
        {
            match &plans[i] {
                ClaimPlan::Reserved { claim_key, needs_reservation, node_selector } => {
                    assumed.push(
                        AssumedClaim { claim_key: claim_key.clone(), new_devices: Vec::new() },
                    );
                },
                ClaimPlan::Allocate { claim_key, by_node } => match by_node.get(node) {
                    Some(devices) => {
                        assumed.push(
                            AssumedClaim {
                                claim_key: claim_key.clone(),
                                new_devices: copy_results(devices),
                            },
                        );
                    },
                    None => {
                        let text = joined("internal: Filter approved node ", node);
                        let text = joined(text.as_str(), " with no computed allocation for ");
                        let text = joined(text.as_str(), claim_key.as_str());
                        return Status::error(NAME, text.as_str());
                    },
                },
            }
            i += 1;
        }
        self.by_pod.insert(pod_uid.to_owned(), assumed);
        Status::success()
    }

    /// Forget what a pod was promised; nothing happens where it was promised
    /// nothing.
    pub fn release(&mut self, pod_uid: &str)
        ensures
            forall|u: Seq<char>| #[trigger]
                final(self).by_pod.at(u) == if u == pod_uid@ {
                    None
                } else {
                    old(self).by_pod.at(u)
                },
            old(self).by_pod.ordered() ==> final(self).by_pod.ordered(),
    {
        self.by_pod.remove(pod_uid);
    }

    /// What a pod was promised.
    pub fn assumed_for(&self, pod_uid: &str) -> (r: Option<&Vec<AssumedClaim>>)
        ensures
            match self.by_pod.at(pod_uid@) {
                Some(a) => r == Some(&a),
                None => r is None,
            },
    {
        self.by_pod.get(pod_uid)
    }

    /// The devices that were promised, which no other pod may get. A device
    /// that a pod was promised to share is not among them.
    pub fn excluded(&self) -> (r: Vec<DeviceId>)
        ensures
            forall|c: Candidate| #[trigger] has_id(r@, c) == self.promised(c),
    {
        let pods = &self.by_pod.entries;
        let mut out: Vec<DeviceId> = Vec::new();
        let mut u: usize = 0;
        while u < pods.len()
            invariant
                u <= pods@.len(),
                pods@ == self.by_pod.entries@,
                forall|c: Candidate| #[trigger]
                    has_id(out@, c) == exists|x: int|
                        0 <= x < u && any_holds((#[trigger] pods@[x]).1@, c),
            decreases pods@.len() - u,
        {
            let ghost before = out@;
            add_promised(&pods[u].1, &mut out);
            u += 1;
            proof {
                assert forall|c: Candidate| #[trigger]
                    has_id(out@, c) == exists|x: int|
                        0 <= x < u && any_holds((#[trigger] pods@[x]).1@, c) by {
                    let was = has_id(before, c);
                    if was {
                        let x = choose|x: int|
                            0 <= x < u - 1 && any_holds((#[trigger] pods@[x]).1@, c);
                        assert(any_holds(pods@[x].1@, c));
                    }
                    if any_holds(pods@[u - 1].1@, c) {
                        assert(any_holds(pods@[u - 1].1@, c));
                    }
                }
            }
        }
        out
    }
}

/// One of the first `n` results of a list is of the device, for itself.
spec fn some_hold(r: Seq<DeviceRequestAllocationResult>, n: int, c: Candidate) -> bool {
    exists|j: int| 0 <= j < n && result_holds(#[trigger] r[j], c)
}

/// One of the first `n` claims of a list was promised the device for itself.
spec fn claims_hold(a: Seq<AssumedClaim>, n: int, c: Candidate) -> bool {
    exists|i: int| 0 <= i < n && some_hold(
        (#[trigger] a[i]).new_devices@,
        a[i].new_devices@.len() as int,
        c,
    )
}

proof fn claims_hold_any(a: Seq<AssumedClaim>, c: Candidate)
    ensures
        claims_hold(a, a.len() as int, c) == any_holds(a, c),
{
    if claims_hold(a, a.len() as int, c) {
        let i = choose|i: int|
            0 <= i < a.len() && some_hold(
                (#[trigger] a[i]).new_devices@,
                a[i].new_devices@.len() as int,
                c,
            );
        let r = a[i].new_devices@;
        let j = choose|j: int| 0 <= j < r.len() && result_holds(#[trigger] r[j], c);
        assert(result_holds(a[i].new_devices@[j], c));
    }
    if any_holds(a, c) {
        let (i, j) = choose|i: int, j: int|
            0 <= i < a.len() && 0 <= j < a[i].new_devices@.len() && result_holds(
                #[trigger] a[i].new_devices@[j],
                c,
            );
        let r = a[i].new_devices@;
        assert(result_holds(r[j], c));
        assert(some_hold(a[i].new_devices@, a[i].new_devices@.len() as int, c));
    }
}

proof fn id_pushed(ids: Seq<DeviceId>, id: DeviceId, c: Candidate)
    ensures
        has_id(ids.push(id), c) == (has_id(ids, c) || is_id(id, c)),
{
    let longer = ids.push(id);
    if has_id(longer, c) {
        let i = choose|i: int| 0 <= i < longer.len() && is_id(#[trigger] longer[i], c);
        if i < ids.len() {
            assert(is_id(ids[i], c));
        }
    }
    if has_id(ids, c) {
        let i = choose|i: int| 0 <= i < ids.len() && is_id(#[trigger] ids[i], c);
        assert(longer[i] == ids[i]);
        assert(is_id(longer[i], c));
    }
    assert(longer[ids.len() as int] == id);
}

fn add_promised(a: &Vec<AssumedClaim>, out: &mut Vec<DeviceId>)
    ensures
        forall|c: Candidate| #[trigger]
            has_id(final(out)@, c) == (has_id(old(out)@, c) || any_holds(a@, c)),
{
    let ghost before = out@;
    let mut i: usize = 0;
    while i < a.len()
        invariant
            i <= a@.len(),
            forall|c: Candidate| #[trigger]
                has_id(out@, c) == (has_id(before, c) || claims_hold(a@, i as int, c)),
        decreases a@.len() - i,
    {
        let list = &a[i].new_devices;
        let ghost outer = out@;
        let mut j: usize = 0;
        while j < list.len()
            invariant
                j <= list@.len(),
                forall|c: Candidate| #[trigger]
                    has_id(out@, c) == (has_id(outer, c) || some_hold(list@, j as int, c)),
            decreases list@.len() - j,
        {
            let ghost prior = out@;
            let d = &list[j];
            let id = (d.driver.clone(), d.pool.clone(), d.device.clone());
            if !d.admin_access {
                out.push(id);
            }
            j += 1;
            proof {
                assert forall|c: Candidate| #[trigger]
                    has_id(out@, c) == (has_id(outer, c) || some_hold(list@, j as int, c)) by {
                    id_pushed(prior, id, c);
                    let was = has_id(prior, c);
                    if some_hold(list@, j - 1, c) {
                        let x = choose|x: int| 0 <= x < j - 1 && result_holds(#[trigger] list@[x], c);
                        assert(result_holds(list@[x], c));
                    }
                    if some_hold(list@, j as int, c) {
                        let x = choose|x: int| 0 <= x < j && result_holds(#[trigger] list@[x], c);
                        if x < j - 1 {
                            assert(some_hold(list@, j - 1, c));
                        }
                    }
                    if result_holds(list@[j - 1], c) {
                        assert(some_hold(list@, j as int, c));
                    }
                }
            }
        }
        i += 1;
        proof {
            assert forall|c: Candidate| #[trigger]
                has_id(out@, c) == (has_id(before, c) || claims_hold(a@, i as int, c)) by {
                let was = has_id(outer, c);
                if claims_hold(a@, i - 1, c) {
                    let x = choose|x: int|
                        0 <= x < i - 1 && some_hold(
                            (#[trigger] a@[x]).new_devices@,
                            a@[x].new_devices@.len() as int,
                            c,
                        );
                    assert(some_hold(a@[x].new_devices@, a@[x].new_devices@.len() as int, c));
                }
                if claims_hold(a@, i as int, c) {
                    let x = choose|x: int|
                        0 <= x < i && some_hold(
                            (#[trigger] a@[x]).new_devices@,
                            a@[x].new_devices@.len() as int,
                            c,
                        );
                    if x < i - 1 {
                        assert(claims_hold(a@, i - 1, c));
                    }
                }
                if some_hold(list@, list@.len() as int, c) {
                    assert(claims_hold(a@, i as int, c));
                }
            }
        }
    }
    proof {
        assert forall|c: Candidate| #[trigger]
            has_id(out@, c) == (has_id(before, c) || any_holds(a@, c)) by {
            claims_hold_any(a@, c);
        }
    }
}

/// A node that passes the filter can be reserved: every claim without devices
/// gets some there.
pub proof fn approved_nodes_are_planned(plans: Seq<ClaimPlan>, node: NodeInfo, i: int)
    requires
        node_verdict(plans, node) is None,
        0 <= i,
    ensures
        unplanned(plans, node.name@, i) is None,
    decreases plans.len() - i,
{
    if i < plans.len() {
        approved_everywhere(plans, node, i);
        approved_nodes_are_planned(plans, node, i + 1);
    }
}

proof fn approved_everywhere(plans: Seq<ClaimPlan>, node: NodeInfo, i: int)
    requires
        node_verdict(plans, node) is None,
        0 <= i < plans.len(),
    ensures
        plan_verdict(plans[i], node) is None,
    decreases plans.len(),
{
    if i < plans.len() - 1 {
        approved_everywhere(plans.drop_last(), node, i);
        assert(plans.drop_last()[i] == plans[i]);
    }
}

/// A device that another pod was promised for itself is never handed out again,
/// unless it is shared.
pub proof fn promised_devices_are_left_alone(
    o: Outcome,
    pod: PodInfo,
    snapshot: Snapshot,
    node: NodeInfo,
    excluded: Seq<DeviceId>,
    k: int,
    j: int,
)
    requires
        settled(o),
        poses(o.problem, pod, snapshot, node, excluded),
        o.plan is Some,
        0 <= k < o.plan->Some_0@.len(),
        0 <= j < o.plan->Some_0@[k].picks@.len(),
        !o.problem.alt(k, o.plan->Some_0@[k].alternative as int).admin_access,
    ensures
        !spoken_for(
            excluded,
            snapshot,
            o.problem.devices@[o.plan->Some_0@[k].picks@[j] as int],
        ),
{
    let p = o.problem;
    let plan = plan_view(o.plan->Some_0@);
    assert(plan[k] == (o.plan->Some_0@[k].alternative, o.plan->Some_0@[k].picks@));
    assert(p.choice_ok(plan, k));
    assert(p.pick_ok(plan, k, j));
    let ask = p.asks@[k];
    let a = plan[k].0 as int;
    let x = ask.alternatives@[a];
    assert(p.alt(k, a) == x);
    let i = plan[k].1[j] as int;
    assert(x.usable@[i]);
}

/// A selector of the one node with a host name.
pub fn single_node_selector(node: &str) -> (r: NodeSelector)
    ensures
        selects_host(r, node@),
{
    let mut values: Vec<String> = Vec::new();
    values.push(node.to_owned());
    assert(views(values@) =~= seq![node@]);
    let mut reqs: Vec<NodeSelectorRequirement> = Vec::new();
    reqs.push(
        NodeSelectorRequirement {
            key: "kubernetes.io/hostname".to_owned(),
            operator: "In".to_owned(),
            values: Some(values),
        },
    );
    let mut terms: Vec<NodeSelectorTerm> = Vec::new();
    terms.push(NodeSelectorTerm { match_expressions: Some(reqs), match_fields: None });
    NodeSelector { node_selector_terms: terms }
}

/// The selector of an allocation for a node.
pub open spec fn selects_host(sel: NodeSelector, node: Seq<char>) -> bool {
    &&& sel.node_selector_terms@.len() == 1
    &&& sel.node_selector_terms@[0].match_fields is None
    &&& sel.node_selector_terms@[0].match_expressions is Some
    &&& sel.node_selector_terms@[0].match_expressions->Some_0@.len() == 1
    &&& ({
        let req = sel.node_selector_terms@[0].match_expressions->Some_0@[0];
        req.key@ == "kubernetes.io/hostname"@ && req.operator@ == "In"@ && req.values is Some
            && views(req.values->Some_0@) == seq![node]
    })
}

/// Namespace and name of a claim's key.
pub fn claim_key_parts(key: &str) -> (r: Result<(String, String), Status>)
    ensures
        match cut(key@, '/') {
            Some((namespace, name)) => r is Ok && r->Ok_0.0@ == namespace && r->Ok_0.1@ == name,
            None => r is Err && r->Err_0@ == failure(
                NAME@,
                "malformed claim key "@ + quoted(key@),
            ),
        },
{
    match split_once(key, '/') {
        Some(parts) => Ok(parts),
        None => {
            let shown = debug_text(key);
            let text = joined("malformed claim key ", shown.as_str());
            Err(Status::error(NAME, text.as_str()))
        },
    }
}

/// The status to write for a claim that was just read: reserved for the pod
/// too, and with the promised devices where it has none yet.
pub fn committed_status(
    current: &ResourceClaim,
    pod: &PodInfo,
    node: &str,
    assumed: &AssumedClaim,
) -> (r: ResourceClaimStatus)
    ensures
        r.reserved_for is Some,
        ({
            let was = consumers(*current);
            let now = r.reserved_for->Some_0@;
            if has_consumer(was, *pod) {
                now.len() == was.len() && forall|i: int|
                    0 <= i < was.len() ==> (#[trigger] was[i]).same(&now[i])
            } else {
                &&& now.len() == was.len() + 1
                &&& forall|i: int| 0 <= i < was.len() ==> (#[trigger] was[i]).same(&now[i])
                &&& is_consumer(now[was.len() as int], *pod)
                &&& now[was.len() as int].api_group is None
            }
        }),
        r.allocation is Some,
        if current.is_allocated() {
            current.status->Some_0.allocation->Some_0.same(&r.allocation->Some_0)
        } else {
            &&& r.allocation->Some_0.devices is Some
            &&& r.allocation->Some_0.devices->Some_0.results is Some
            &&& r.allocation->Some_0.devices->Some_0.results->Some_0@ == assumed.new_devices@
            &&& r.allocation->Some_0.node_selector is Some
            &&& selects_host(*r.allocation->Some_0.node_selector->Some_0, node@)
        },
{
    let mut reserved_for: Vec<ConsumerReference> = match consumers_of(current) {
        Some(list) => list.duplicate(),
        None => Vec::new(),
    };
    let found = match consumers_of(current) {
        Some(list) => find_consumer(list, pod),
        None => false,
    };
    if !found {
        reserved_for.push(
            ConsumerReference {
                api_group: None,
                resource: "pods".to_owned(),
                name: pod.name.clone(),
                uid: pod.uid.clone(),
            },
        );
    }
    let existing = match &current.status {
        Some(s) => match &s.allocation {
            Some(a) => Some(a.duplicate()),
            None => None,
        },
        None => None,
    };
    let allocation = match existing {
        Some(a) => a,
        None => AllocationResult {
            devices: Some(
                DeviceAllocationResult { results: Some(copy_results(&assumed.new_devices)) },
            ),
            node_selector: Some(Arc::new(single_node_selector(node))),
        },
    };
    ResourceClaimStatus { allocation: Some(allocation), reserved_for: Some(reserved_for) }
}

/// The plugin, with what it has promised.
pub struct DynamicResources {
    pub assumed: AssumedDevices,
}

impl DynamicResources {
    pub fn new() -> (r: Self)
        ensures
            r.assumed.by_pod.entries@.len() == 0,
    {
        DynamicResources { assumed: AssumedDevices::new() }
    }
}

impl Plugin for DynamicResources {
    type Hint = NoHint;

    open spec fn name_view(&self) -> Seq<char> {
        NAME@
    }

    fn name(&self) -> (r: &'static str) {
        NAME
    }

    fn events_to_register(&self) -> (r: Vec<ClusterEventWithHint<NoHint>>)
        ensures
            events_of(r@) == subscriptions(),
            crate::framework::unhinted(r@),
    {
        events_impl()
    }
}

impl PreEnqueuePlugin for DynamicResources {
    open spec fn pre_enqueue_view(&self, pod: PodInfo) -> StatusView {
        admission(pod)
    }

    fn pre_enqueue(&self, pod: &PodInfo) -> (r: Status) {
        pre_enqueue_impl(pod)
    }
}

/// A list of just the devices that pods were promised for themselves.
pub open spec fn lists_promised(list: Seq<DeviceId>, assumed: AssumedDevices) -> bool {
    forall|c: Candidate| #[trigger] has_id(list, c) == assumed.promised(c)
}

impl PreFilterPlugin for DynamicResources {
    open spec fn pre_filter_view(
        &self,
        before: CycleState,
        pod: PodInfo,
        snapshot: Snapshot,
        after: CycleState,
        status: StatusView,
    ) -> bool {
        exists|excluded: Seq<DeviceId>| #[trigger]
            lists_promised(excluded, self.assumed) && looked_at(
                before,
                pod,
                snapshot,
                excluded,
                after,
                status,
            )
    }

    fn pre_filter(&self, state: &mut CycleState, pod: &PodInfo, snapshot: &Snapshot) -> (r: (
        Status,
        Option<Vec<String>>,
    ))
        ensures
            r.1 is None,
    {
        let excluded = self.assumed.excluded();
        assert(lists_promised(excluded@, self.assumed));
        pre_filter_impl(state, pod, snapshot, &excluded)
    }
}

impl FilterPlugin for DynamicResources {
    open spec fn filter_view(&self, state: CycleState, pod: PodInfo, node: NodeInfo) -> StatusView {
        told(state, node)
    }

    fn filter(&self, state: &CycleState, pod: &PodInfo, node: &NodeInfo) -> (r: Status) {
        filter_impl(state, pod, node)
    }
}

/// What is answered where no node was feasible: whether a claim can be freed
/// and was.
pub open spec fn freeing_answer(state: CycleState, pod: PodInfo, snapshot: Snapshot) -> StatusView {
    match state.value::<WantedClaims>(NAME@) {
        None => unschedulable(NAME@, "no claims to deallocate"@),
        Some(w) => match first_freeable(w.0@, pod, snapshot, 0) {
            None => unschedulable(NAME@, "still not schedulable"@),
            Some(_) => unschedulable(NAME@, "deallocation of ResourceClaim completed"@),
        },
    }
}

/// The answer once the claim that [`post_filter_impl`] names, if any, is freed.
impl PostFilterPlugin for DynamicResources {
    open spec fn post_filter_view(
        &self,
        before: CycleState,
        pod: PodInfo,
        snapshot: Snapshot,
        node_statuses: NodeToStatus,
        after: CycleState,
        status: StatusView,
        node: Option<Seq<char>>,
    ) -> bool {
        &&& after == before
        &&& status == freeing_answer(before, pod, snapshot)
        &&& node is None
    }

    fn post_filter(
        &self,
        state: &mut CycleState,
        pod: &PodInfo,
        snapshot: &Snapshot,
        node_statuses: &NodeToStatus,
    ) -> (r: (Status, Option<String>)) {
        let freed = match state.read::<WantedClaims>(NAME) {
            None => {
                return (Status::unschedulable(NAME, "no claims to deallocate"), None);
            },
            Some(wanted) => post_filter_impl(wanted, pod, snapshot).is_some(),
        };
        if !freed {
            return (Status::unschedulable(NAME, "still not schedulable"), None);
        }
        (Status::unschedulable(NAME, "deallocation of ResourceClaim completed"), None)
    }
}

impl ReservePlugin for DynamicResources {
    open spec fn reserve_view(
        &self,
        before: CycleState,
        pod: PodInfo,
        node: Seq<char>,
        after: CycleState,
        reserved: &Self,
        status: StatusView,
    ) -> bool {
        after == before && self.assumed.promising(
            before.value::<WantedClaims>(NAME@),
            pod.uid@,
            node,
            &reserved.assumed,
            status,
        )
    }

    open spec fn unreserve_view(
        &self,
        before: CycleState,
        pod: PodInfo,
        node: Seq<char>,
        after: CycleState,
        released: &Self,
    ) -> bool {
        &&& after == before
        &&& forall|u: Seq<char>| #[trigger]
            released.assumed.by_pod.at(u) == if u == pod.uid@ {
                None
            } else {
                self.assumed.by_pod.at(u)
            }
    }

    fn reserve(&mut self, state: &mut CycleState, pod: &PodInfo, node: &str) -> (r: Status) {
        self.assumed.reserve(state.read::<WantedClaims>(NAME), pod.uid.as_str(), node)
    }

    fn unreserve(&mut self, state: &mut CycleState, pod: &PodInfo, node: &str) {
        self.assumed.release(pod.uid.as_str());
    }
}

/// Giving up a pod's devices undoes their reservation, whether or not the
/// reservation succeeded.
pub proof fn release_undoes_reserve(
    before: DynamicResources,
    reserved: DynamicResources,
    after: DynamicResources,
    states: (CycleState, CycleState, CycleState),
    pod: PodInfo,
    node: Seq<char>,
    status: StatusView,
)
    requires
        before.assumed.by_pod.at(pod.uid@) is None,
        before.reserve_view(states.0, pod, node, states.1, &reserved, status),
        reserved.unreserve_view(states.1, pod, node, states.2, &after),
    ensures
        states.2 == states.0,
        forall|u: Seq<char>| #[trigger]
            after.assumed.by_pod.at(u) == before.assumed.by_pod.at(u),
{
    assert forall|u: Seq<char>| #[trigger]
        after.assumed.by_pod.at(u) == before.assumed.by_pod.at(u) by {
        let was = reserved.assumed.by_pod.at(u);
    }
}

/// Giving up a pod's devices twice is giving them up once.
pub proof fn release_is_idempotent(
    reserved: DynamicResources,
    once: DynamicResources,
    twice: DynamicResources,
    states: (CycleState, CycleState, CycleState),
    pod: PodInfo,
    node: Seq<char>,
)
    requires
        reserved.unreserve_view(states.0, pod, node, states.1, &once),
        once.unreserve_view(states.1, pod, node, states.2, &twice),
    ensures
        states.2 == states.1,
        forall|u: Seq<char>| #[trigger]
            twice.assumed.by_pod.at(u) == once.assumed.by_pod.at(u),
{
    assert forall|u: Seq<char>| #[trigger]
        twice.assumed.by_pod.at(u) == once.assumed.by_pod.at(u) by {
        let was = reserved.assumed.by_pod.at(u);
    }
}

proof fn no_node_verdict(plans: Seq<ClaimPlan>, node: NodeInfo)
    ensures
        node_verdict(plans, node) is None <==> forall|i: int|
            0 <= i < plans.len() ==> plan_verdict(#[trigger] plans[i], node) is None,
        node_verdict(plans, node) matches Some(v) ==> v != success(),
    decreases plans.len(),
{
    if plans.len() > 0 {
        let t = plans.drop_last();
        no_node_verdict(t, node);
        if node_verdict(plans, node) is None {
            assert forall|i: int| 0 <= i < plans.len() implies plan_verdict(
                #[trigger] plans[i],
                node,
            ) is None by {
                if i < t.len() {
                    assert(t[i] == plans[i]);
                }
            }
        }
        if forall|i: int| 0 <= i < plans.len() ==> plan_verdict(#[trigger] plans[i], node) is None {
            assert forall|i: int| 0 <= i < t.len() implies plan_verdict(#[trigger] t[i], node)
                is None by {
                assert(plans[i] == t[i]);
            }
            assert(plans[plans.len() - 1] == plans.last());
        }
    }
}

proof fn granted_where_planned(
    o: Seq<Outcome>,
    nodes: Seq<Arc<NodeInfo>>,
    claim: usize,
    name: Seq<char>,
    n: int,
)
    requires
        0 <= n <= nodes.len(),
    ensures
        granted(o, nodes, claim, name, n) is Some <==> exists|y: int|
            0 <= y < n && (#[trigger] nodes[y]).name@ == name && o[y].plan is Some,
    decreases n,
{
    if n > 0 {
        granted_where_planned(o, nodes, claim, name, n - 1);
        if granted(o, nodes, claim, name, n) is Some {
            if !(nodes[n - 1].name@ == name && o[n - 1].plan is Some) {
                let y = choose|y: int|
                    0 <= y < n - 1 && (#[trigger] nodes[y]).name@ == name && o[y].plan is Some;
                assert(0 <= y < n && nodes[y].name@ == name);
            }
        }
        if exists|y: int| 0 <= y < n && (#[trigger] nodes[y]).name@ == name && o[y].plan is Some {
            let y = choose|y: int|
                0 <= y < n && (#[trigger] nodes[y]).name@ == name && o[y].plan is Some;
            if y < n - 1 {
                assert(0 <= y < n - 1 && nodes[y].name@ == name);
            }
        }
    }
}

/// Where the devices of the claim of reference `i` can be used from, if the
/// claim has devices and says so, includes the node.
pub open spec fn within_reach(pod: PodInfo, snapshot: Snapshot, node: NodeInfo, i: int) -> bool {
    match claim_named(pod, snapshot, i) {
        Some(claim) => match claim.status {
            Some(s) => match s.allocation {
                Some(a) => match a.node_selector {
                    Some(sel) => selector_holds(*sel, node),
                    None => true,
                },
                None => true,
            },
            None => true,
        },
        None => true,
    }
}

/// The claim of reference `i` has no devices yet.
pub open spec fn unserved(pod: PodInfo, snapshot: Snapshot, i: int) -> bool {
    claim_named(pod, snapshot, i) matches Some(claim) && (claim.status is None
        || claim.status->Some_0.allocation is None)
}

/// A node passes only where it is within the reach of every claim of the pod
/// that has devices.
pub proof fn passing_means_reachable(
    before: CycleState,
    pod: PodInfo,
    snapshot: Snapshot,
    excluded: Seq<DeviceId>,
    state: CycleState,
    status: StatusView,
    node: NodeInfo,
    i: int,
)
    requires
        looked_at(before, pod, snapshot, excluded, state, status),
        status == success(),
        0 <= i < pod.resource_claims@.len(),
        told(state, node) == success(),
    ensures
        within_reach(pod, snapshot, node, i),
{
    first_reference_decides(pod, snapshot, pod.resource_claims@.len() as int);
    let plans = state.value::<WantedClaims>(NAME@)->Some_0.0@;
    no_node_verdict(plans, node);
    let o = choose|o: Seq<Outcome>| #[trigger]
        tried(o, pod, snapshot, excluded) && plans.len() == pod.resource_claims@.len() && forall|
            i: int,
        | 0 <= i < plans.len() ==> plan_stands(#[trigger] plans[i], i, o, pod, snapshot);
    assert(plan_stands(plans[i], i, o, pod, snapshot));
    assert(plan_verdict(plans[i], node) is None);
}

/// A node of the cluster passes exactly where it is within the reach of every
/// claim that has devices and, if some claim has none, a plan was found that
/// serves every request of those claims with devices of that node. Where none was
/// found there is none for the answers that the selectors gave.
pub proof fn passing_means_served(
    before: CycleState,
    pod: PodInfo,
    snapshot: Snapshot,
    excluded: Seq<DeviceId>,
    state: CycleState,
    status: StatusView,
    x: int,
)
    requires
        looked_at(before, pod, snapshot, excluded, state, status),
        status == success(),
        0 <= x < snapshot.nodes@.len(),
        forall|y: int|
            0 <= y < snapshot.nodes@.len() && y != x ==> (#[trigger] snapshot.nodes@[y]).name@
                != snapshot.nodes@[x].name@,
    ensures
        exists|problem: Problem| #[trigger]
            poses(problem, pod, snapshot, *snapshot.nodes@[x], excluded) && (told(
                state,
                *snapshot.nodes@[x],
            ) == success() <==> {
                &&& forall|i: int|
                    0 <= i < pod.resource_claims@.len() ==> #[trigger] within_reach(
                        pod,
                        snapshot,
                        *snapshot.nodes@[x],
                        i,
                    )
                &&& (exists|i: int|
                    0 <= i < pod.resource_claims@.len() && #[trigger] unserved(pod, snapshot, i))
                    ==> exists|plan: Seq<Selection>| problem.solves(plan)
            }),
{
    first_reference_decides(pod, snapshot, pod.resource_claims@.len() as int);
    let plans = state.value::<WantedClaims>(NAME@)->Some_0.0@;
    let nodes = snapshot.nodes@;
    let node = crate::maps::shared(nodes[x]);
    let n = nodes.len() as int;
    no_node_verdict(plans, node);
    let o = choose|o: Seq<Outcome>| #[trigger]
        tried(o, pod, snapshot, excluded) && plans.len() == pod.resource_claims@.len() && forall|
            i: int,
        | 0 <= i < plans.len() ==> plan_stands(#[trigger] plans[i], i, o, pod, snapshot);
    let problem = o[x].problem;
    assert(settled(o[x]) && poses(problem, pod, snapshot, *nodes[x], excluded));
    let solvable = exists|plan: Seq<Selection>| problem.solves(plan);
    assert(o[x].plan is Some <==> solvable) by {
        if o[x].plan is Some {
            assert(problem.solves(plan_view(o[x].plan->Some_0@)));
        }
    }
    assert forall|i: int| 0 <= i < plans.len() implies (plan_verdict(#[trigger] plans[i], node)
        is None <==> within_reach(pod, snapshot, node, i) && (unserved(pod, snapshot, i)
        ==> solvable)) by {
        assert(plan_stands(plans[i], i, o, pod, snapshot));
        match plans[i] {
            ClaimPlan::Allocate { claim_key, by_node } => {
                let leader = leader_from(pod, i, 0) as usize;
                let at = by_node.at(node.name@);
                granted_where_planned(o, nodes, leader, node.name@, n);
                if o[x].plan is Some {
                    assert(nodes[x].name@ == node.name@);
                }
            },
            _ => {},
        }
    }
    if told(state, node) == success() {
        assert forall|i: int| 0 <= i < plans.len() implies #[trigger] within_reach(
            pod,
            snapshot,
            node,
            i,
        ) by {
            assert(plan_verdict(plans[i], node) is None);
        }
        if exists|i: int|
            0 <= i < pod.resource_claims@.len() && #[trigger] unserved(pod, snapshot, i) {
            let i = choose|i: int|
                0 <= i < pod.resource_claims@.len() && #[trigger] unserved(pod, snapshot, i);
            assert(plan_verdict(plans[i], node) is None);
        }
    }
    if (forall|i: int|
        0 <= i < pod.resource_claims@.len() ==> #[trigger] within_reach(pod, snapshot, node, i))
        && ((exists|i: int|
        0 <= i < pod.resource_claims@.len() && #[trigger] unserved(pod, snapshot, i)) ==> solvable) {
        assert forall|i: int| 0 <= i < plans.len() implies plan_verdict(#[trigger] plans[i], node)
            is None by {
            assert(within_reach(pod, snapshot, node, i));
            if unserved(pod, snapshot, i) {
                assert(solvable);
            }
        }
    }
}

/// The device of a slice is on a node, as a candidate.
pub open spec fn offers(slice: ResourceSlice, d: Device, node: NodeInfo, c: Candidate) -> bool {
    &&& slice_applies(slice, node)
    &&& per_device(slice) ==> device_applies(*d.basic, node)
    &&& c == Candidate {
        driver: slice.spec.driver,
        pool: slice.spec.pool.name,
        name: d.name,
        basic: d.basic,
    }
}

proof fn devices_on_hold(devices: Seq<Device>, slice: ResourceSlice, node: NodeInfo, c: Candidate)
    requires
        slice_applies(slice, node),
    ensures
        devices_on(devices, slice, node).contains(c) <==> exists|d: int|
            0 <= d < devices.len() && offers(slice, #[trigger] devices[d], node, c),
    decreases devices.len(),
{
    if devices.len() > 0 {
        let t = devices.drop_last();
        devices_on_hold(t, slice, node, c);
        let all = devices_on(devices, slice, node);
        let rest = devices_on(t, slice, node);
        if rest.contains(c) {
            let k = choose|k: int| 0 <= k < rest.len() && rest[k] == c;
            assert(all[k] == c);
            let d = choose|d: int| 0 <= d < t.len() && offers(slice, #[trigger] t[d], node, c);
            assert(offers(slice, devices[d], node, c));
        }
        if offers(slice, devices.last(), node, c) {
            assert(all[all.len() - 1] == c);
            assert(offers(slice, devices[devices.len() - 1], node, c));
        }
        if all.contains(c) {
            let k = choose|k: int| 0 <= k < all.len() && all[k] == c;
            if k < rest.len() {
                assert(rest[k] == c);
            } else {
                assert(offers(slice, devices.last(), node, c));
            }
        }
        if exists|d: int| 0 <= d < devices.len() && offers(slice, #[trigger] devices[d], node, c) {
            let d = choose|d: int|
                0 <= d < devices.len() && offers(slice, #[trigger] devices[d], node, c);
            if d < t.len() {
                assert(offers(slice, t[d], node, c));
            }
        }
    }
}

/// The devices that a node is tried with are exactly those that some slice has
/// there.
pub proof fn candidates_are_on_the_node(
    slices: Seq<(String, ResourceSlice)>,
    node: NodeInfo,
    c: Candidate,
)
    ensures
        candidates(slices, node).contains(c) <==> exists|s: int, d: int|
            0 <= s < slices.len() && 0 <= d < slice_devices(slices[s].1).len() && offers(
                slices[s].1,
                #[trigger] slice_devices(slices[s].1)[d],
                node,
                c,
            ),
    decreases slices.len(),
{
    if slices.len() > 0 {
        let t = slices.drop_last();
        let last = slices.len() - 1;
        let slice = slices.last().1;
        candidates_are_on_the_node(t, node, c);
        let all = candidates(slices, node);
        let rest = candidates(t, node);
        let more = devices_on(slice_devices(slice), slice, node);
        if slice_applies(slice, node) {
            devices_on_hold(slice_devices(slice), slice, node, c);
        }
        if rest.contains(c) {
            let k = choose|k: int| 0 <= k < rest.len() && rest[k] == c;
            assert(all[k] == c);
            let (s, d) = choose|s: int, d: int|
                0 <= s < t.len() && 0 <= d < slice_devices(t[s].1).len() && offers(
                    t[s].1,
                    #[trigger] slice_devices(t[s].1)[d],
                    node,
                    c,
                );
            assert(offers(slices[s].1, slice_devices(slices[s].1)[d], node, c));
        }
        if slice_applies(slice, node) && more.contains(c) {
            let k = choose|k: int| 0 <= k < more.len() && more[k] == c;
            assert(all[rest.len() + k] == c);
            let d = choose|d: int|
                0 <= d < slice_devices(slice).len() && offers(
                    slice,
                    #[trigger] slice_devices(slice)[d],
                    node,
                    c,
                );
            assert(offers(slices[last].1, slice_devices(slices[last].1)[d], node, c));
        }
        if all.contains(c) {
            let k = choose|k: int| 0 <= k < all.len() && all[k] == c;
            if k < rest.len() {
                assert(rest[k] == c);
            } else {
                assert(more[k - rest.len()] == c);
            }
        }
        if exists|s: int, d: int|
            0 <= s < slices.len() && 0 <= d < slice_devices(slices[s].1).len() && offers(
                slices[s].1,
                #[trigger] slice_devices(slices[s].1)[d],
                node,
                c,
            ) {
            let (s, d) = choose|s: int, d: int|
                0 <= s < slices.len() && 0 <= d < slice_devices(slices[s].1).len() && offers(
                    slices[s].1,
                    #[trigger] slice_devices(slices[s].1)[d],
                    node,
                    c,
                );
            if s < t.len() {
                assert(offers(t[s].1, slice_devices(t[s].1)[d], node, c));
            } else {
                assert(offers(slice, slice_devices(slice)[d], node, c));
            }
        }
    }
}

/// Every request of every claim without devices is served, once for each claim,
/// and nothing else is.
pub proof fn every_request_is_served(
    pod: PodInfo,
    snapshot: Snapshot,
    n: int,
    i: int,
    req: DeviceRequest,
)
    requires
        0 <= n <= pod.resource_claims@.len(),
    ensures
        to_serve(pod, snapshot, n).contains((i, req)) <==> 0 <= i < n && unserved(pod, snapshot, i)
            && requests_of(claim_named(pod, snapshot, i)->Some_0).contains(req) && forall|j: int|
            0 <= j < i ==> #[trigger] object_name_at(pod, j) != object_name_at(pod, i),
    decreases n,
{
    if n > 0 {
        every_request_is_served(pod, snapshot, n - 1, i, req);
        let rest = to_serve(pod, snapshot, n - 1);
        let all = to_serve(pod, snapshot, n);
        leader_is_first(pod, n - 1, 0);
        if rest.contains((i, req)) {
            let k = choose|k: int| 0 <= k < rest.len() && rest[k] == (i, req);
            assert(all[k] == (i, req));
        }
        match claim_named(pod, snapshot, n - 1) {
            Some(claim) => {
                let reqs = requests_of(claim);
                let mapped = reqs.map_values(|r: DeviceRequest| (n - 1, r));
                if !(claim.is_allocated() || leader_from(pod, n - 1, 0) != n - 1) {
                    if i == n - 1 && reqs.contains(req) {
                        let k = choose|k: int| 0 <= k < reqs.len() && reqs[k] == req;
                        assert(mapped[k] == (i, req));
                        assert(all[rest.len() + k] == (i, req));
                    }
                    if all.contains((i, req)) && !rest.contains((i, req)) {
                        let k = choose|k: int| 0 <= k < all.len() && all[k] == (i, req);
                        if k < rest.len() {
                            assert(rest[k] == (i, req));
                        }
                        assert(mapped[k - rest.len()] == (i, req));
                        assert(reqs[k - rest.len()] == req);
                    }
                }
            },
            None => {},
        }
    }
}

proof fn leader_is_first(pod: PodInfo, i: int, j: int)
    requires
        0 <= j <= i,
    ensures
        j <= leader_from(pod, i, j) <= i,
        leader_from(pod, i, j) == i <==> forall|k: int|
            j <= k < i ==> #[trigger] object_name_at(pod, k) != object_name_at(pod, i),
    decreases i - j,
{
    if j < i {
        if object_name_at(pod, j) != object_name_at(pod, i) {
            leader_is_first(pod, i, j + 1);
        }
    }
}

/// A pod is kept from scheduling exactly where one of its references is: by the
/// reason of the first of them.
pub proof fn first_reference_decides(pod: PodInfo, snapshot: Snapshot, n: int)
    requires
        0 <= n,
    ensures
        match first_verdict(pod, snapshot, n) {
            None => forall|i: int| 0 <= i < n ==> #[trigger] reference_verdict(pod, snapshot, i) is None,
            Some(v) => exists|i: int|
                0 <= i < n && #[trigger] reference_verdict(pod, snapshot, i) == Some(v) && forall|
                    j: int,
                | 0 <= j < i ==> #[trigger] reference_verdict(pod, snapshot, j) is None,
        },
        first_verdict(pod, snapshot, n) matches Some(v) ==> v != success(),
    decreases n,
{
    if n > 0 {
        first_reference_decides(pod, snapshot, n - 1);
        match first_verdict(pod, snapshot, n - 1) {
            None => {
                if reference_verdict(pod, snapshot, n - 1) is Some {
                    assert(0 <= n - 1 < n);
                }
            },
            Some(v) => {
                let i = choose|i: int|
                    0 <= i < n - 1 && #[trigger] reference_verdict(pod, snapshot, i) == Some(v)
                        && forall|j: int|
                        0 <= j < i ==> #[trigger] reference_verdict(pod, snapshot, j) is None;
                assert(0 <= i < n && reference_verdict(pod, snapshot, i) == Some(v));
            },
        }
    }
}

/// A pod is held back exactly where one of its claims, wherever in the list, is
/// to be made from a template and has no name yet.
pub proof fn every_awaited_claim_holds_the_pod(pod: PodInfo)
    ensures
        admission(pod) == success() <==> forall|i: int|
            0 <= i < pod.resource_claims@.len() ==> !((
            #[trigger] pod.resource_claims@[i]).resource_claim_name is None
                && pod.resource_claims@[i].resource_claim_template_name is Some
                && pod.resource_claims@[i].object_name_view(pod.resource_claim_statuses) is None),
{
    first_awaited_is_first(pod, 0);
    if let Some(i) = first_awaited(pod, 0) {
        assert(awaited(pod, i));
    } else {
        assert forall|i: int| 0 <= i < pod.resource_claims@.len() implies !((
        #[trigger] pod.resource_claims@[i]).resource_claim_name is None
            && pod.resource_claims@[i].resource_claim_template_name is Some
            && pod.resource_claims@[i].object_name_view(pod.resource_claim_statuses) is None) by {
            assert(!awaited(pod, i));
        }
    }
}

proof fn first_awaited_is_first(pod: PodInfo, i: int)
    requires
        0 <= i <= pod.resource_claims@.len(),
    ensures
        match first_awaited(pod, i) {
            Some(k) => i <= k < pod.resource_claims@.len() && awaited(pod, k),
            None => forall|k: int| i <= k < pod.resource_claims@.len() ==> !#[trigger] awaited(pod, k),
        },
    decreases pod.resource_claims@.len() - i,
{
    if i < pod.resource_claims@.len() && !awaited(pod, i) {
        first_awaited_is_first(pod, i + 1);
    }
}

/// A claim is freed only where no node is where its devices can be used from, and
/// where nobody but the pod has it reserved; and where some plan's claim may be
/// freed, one is.
pub proof fn only_stranded_claims_are_freed(
    plans: Seq<ClaimPlan>,
    pod: PodInfo,
    snapshot: Snapshot,
    from: int,
)
    requires
        0 <= from <= plans.len(),
    ensures
        match first_freeable(plans, pod, snapshot, from) {
            Some((namespace, name)) => {
                &&& snapshot.resource_claim_at(namespace, name) matches Some(claim) && forall|c: int|
                    0 <= c < consumers(claim).len() ==> is_consumer(
                        #[trigger] consumers(claim)[c],
                        pod,
                    )
                &&& exists|i: int|
                    from <= i < plans.len() && stranded(#[trigger] plans[i], snapshot) && cut(
                        plans[i]->Reserved_claim_key@,
                        '/',
                    ) == Some((namespace, name))
            },
            None => forall|i: int|
                from <= i < plans.len() ==> freeable(#[trigger] plans[i], pod, snapshot) is None,
        },
    decreases plans.len() - from,
{
    if from < plans.len() {
        match freeable(plans[from], pod, snapshot) {
            Some((namespace, name)) => {
                assert(stranded(plans[from], snapshot));
            },
            None => {
                only_stranded_claims_are_freed(plans, pod, snapshot, from + 1);
            },
        }
    }
}

/// The devices of a plan's claim can be used from some nodes only, and none of
/// those is in the cluster.
pub open spec fn stranded(plan: ClaimPlan, snapshot: Snapshot) -> bool {
    plan matches ClaimPlan::Reserved { claim_key, needs_reservation, node_selector: Some(sel) }
        && forall|n: int|
        0 <= n < snapshot.nodes@.len() ==> !selector_holds(*sel, *#[trigger] snapshot.nodes@[n])
}

/// A reservation succeeds exactly where every claim, wherever in the list, has
/// its devices already or gets some on the node.
pub proof fn every_claim_is_reserved(plans: Seq<ClaimPlan>, node: Seq<char>, from: int)
    requires
        0 <= from <= plans.len(),
    ensures
        unplanned(plans, node, from) is None <==> forall|i: int|
            from <= i < plans.len() ==> (#[trigger] plans[i] matches ClaimPlan::Allocate {
                claim_key,
                by_node,
            } ==> by_node.at(node) is Some),
    decreases plans.len() - from,
{
    if from < plans.len() {
        every_claim_is_reserved(plans, node, from + 1);
    }
}

proof fn granted_there(
    o: Seq<Outcome>,
    nodes: Seq<Arc<NodeInfo>>,
    claim: usize,
    name: Seq<char>,
    n: int,
)
    requires
        0 <= n <= nodes.len(),
        granted(o, nodes, claim, name, n) is Some,
    ensures
        exists|y: int|
            0 <= y < n && (#[trigger] nodes[y]).name@ == name && o[y].plan is Some && granted(
                o,
                nodes,
                claim,
                name,
                n,
            ) == Some(
                handed_to(
                    o[y].problem,
                    plan_view(o[y].plan->Some_0@),
                    claim,
                    o[y].problem.asks@.len() as int,
                ),
            ),
    decreases n,
{
    if nodes[n - 1].name@ == name && o[n - 1].plan is Some {
        assert(0 <= n - 1 < n && nodes[n - 1].name@ == name);
    } else {
        granted_there(o, nodes, claim, name, n - 1);
        let y = choose|y: int|
            0 <= y < n - 1 && (#[trigger] nodes[y]).name@ == name && o[y].plan is Some && granted(
                o,
                nodes,
                claim,
                name,
                n - 1,
            ) == Some(
                handed_to(
                    o[y].problem,
                    plan_view(o[y].plan->Some_0@),
                    claim,
                    o[y].problem.asks@.len() as int,
                ),
            );
        assert(0 <= y < n && nodes[y].name@ == name);
    }
}

/// What a claim without devices gets on a node is what a plan picks for it that
/// serves every request of the pod with devices of that node. References to one
/// claim share what it gets.
pub proof fn claims_get_what_was_planned(
    before: CycleState,
    pod: PodInfo,
    snapshot: Snapshot,
    excluded: Seq<DeviceId>,
    state: CycleState,
    status: StatusView,
    i: int,
    name: Seq<char>,
)
    requires
        looked_at(before, pod, snapshot, excluded, state, status),
        status == success(),
        0 <= i < pod.resource_claims@.len(),
        unserved(pod, snapshot, i),
    ensures
        state.value::<WantedClaims>(NAME@) matches Some(w) && w.0@.len()
            == pod.resource_claims@.len() && (w.0@[i] matches ClaimPlan::Allocate {
            claim_key,
            by_node,
        } && claim_key@ == claim_named(pod, snapshot, i)->Some_0.key_view() && (by_node.at(
            name,
        ) is Some ==> exists|y: int, problem: Problem, plan: Seq<Selection>|
            0 <= y < snapshot.nodes@.len() && (#[trigger] snapshot.nodes@[y]).name@ == name
                && poses(problem, pod, snapshot, *snapshot.nodes@[y], excluded)
                && #[trigger] problem.solves(plan) && by_node.at(name)->Some_0@ == handed_to(
                problem,
                plan,
                leader_from(pod, i, 0) as usize,
                problem.asks@.len() as int,
            ))),
{
    first_reference_decides(pod, snapshot, pod.resource_claims@.len() as int);
    let plans = state.value::<WantedClaims>(NAME@)->Some_0.0@;
    let nodes = snapshot.nodes@;
    let n = nodes.len() as int;
    let o = choose|o: Seq<Outcome>| #[trigger]
        tried(o, pod, snapshot, excluded) && plans.len() == pod.resource_claims@.len() && forall|
            i: int,
        | 0 <= i < plans.len() ==> plan_stands(#[trigger] plans[i], i, o, pod, snapshot);
    assert(plan_stands(plans[i], i, o, pod, snapshot));
    if let ClaimPlan::Allocate { claim_key, by_node } = plans[i] {
        let leader = leader_from(pod, i, 0) as usize;
        if by_node.at(name) is Some {
            granted_there(o, nodes, leader, name, n);
            let y = choose|y: int|
                0 <= y < n && (#[trigger] nodes[y]).name@ == name && o[y].plan is Some && granted(
                    o,
                    nodes,
                    leader,
                    name,
                    n,
                ) == Some(
                    handed_to(
                        o[y].problem,
                        plan_view(o[y].plan->Some_0@),
                        leader,
                        o[y].problem.asks@.len() as int,
                    ),
                );
            assert(settled(o[y]) && poses(o[y].problem, pod, snapshot, *nodes[y], excluded));
            assert(snapshot.nodes@[y].name@ == name);
            assert(o[y].problem.solves(plan_view(o[y].plan->Some_0@)));
        }
    }
}

/// The selector that is written for a node accepts exactly the nodes with its
/// host name.
pub proof fn written_selectors_name_the_host(sel: NodeSelector, host: Seq<char>, node: NodeInfo)
    requires
        selects_host(sel, host),
    ensures
        selector_holds(sel, node) <==> node.labels.text("kubernetes.io/hostname"@) == Some(host),
{
    reveal_strlit("In");
    reveal_strlit("Gt");
    reveal_strlit("Lt");
    assert("In"@[0] != "Gt"@[0] && "In"@[0] != "Lt"@[0]);
    let term = sel.node_selector_terms@[0];
    let reqs = term.match_expressions->Some_0@;
    let values = reqs[0].values->Some_0@;
    let actual = node.labels.text("kubernetes.io/hostname"@);
    assert(views(values)[0] == host && views(values).len() == 1);
    assert(values[0]@ == host);
    assert(crate::text::has_text(values, host));
    assert(requirement_list(term.match_expressions)
        == reqs);
    assert(value_satisfies(reqs[0], actual) <==> actual
        == Some(host));
    if actual == Some(host) {
        assert(term_holds(term, node));
    }
    if selector_holds(sel, node) {
        assert(term_holds(
            sel.node_selector_terms@[0],
            node,
        ));
        let r = requirement_list(term.match_expressions);
        assert(value_satisfies(
            r[0],
            node.labels.text(r[0].key@),
        ));
    }
}

} // verus!
