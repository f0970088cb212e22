//! Extenders: services outside the scheduler that it asks over HTTP, between
//! its own filters and scores, about nodes, scores, victims and bindings.
//!
//! Here is what is decided: which configurations are sound, which pods an
//! extender hears of, what it is sent, and what its replies mean. Sending and
//! receiving is left to the caller.

use crate::api::{
    copy_labels, Container, Node, NodeSpec, NodeStatus, ObjectMeta, Pod, PodSpec, Taint, Toleration,
};
use crate::cache::{clamp64, NodeInfo, PodInfo, Resources, Snapshot};
use crate::framework::MAX_NODE_SCORE;
use crate::maps::{Labels, StrMap};
use crate::numbers::narrow;
use crate::preempt::Candidate;
use crate::text::{
    check_digit, chars_of, contains_text, debug_text, decimal, decimal_text, has_text, is_digit,
    joined, quoted, signed_decimal, signed_decimal_text, string_of, text_eq,
};
use base64::Engine;
use std::sync::Arc;
use vstd::prelude::*;

verus! {

/// The top of an extender's own scale of scores.
pub const MAX_EXTENDER_PRIORITY: i64 = 10;

/// How long a call may take where nothing is configured: five seconds.
pub const DEFAULT_TIMEOUT: u128 = 5_000_000_000;

/// One configured extender.
#[derive(Clone, Debug)]
pub struct ExtenderConfig {
    pub url_prefix: String,
    pub filter_verb: Option<String>,
    pub prioritize_verb: Option<String>,
    pub preempt_verb: Option<String>,
    pub bind_verb: Option<String>,
    pub weight: i64,
    pub node_cache_capable: bool,
    pub ignorable: bool,
    /// In nanoseconds.
    pub http_timeout: u128,
    pub enable_https: bool,
    pub tls_config: Option<ExtenderTlsConfig>,
    /// Where there are any, the extender is asked only about pods that ask for
    /// one of these resources.
    pub managed_resources: Vec<String>,
    /// Resources whose fit only the extender judges.
    pub ignored_by_scheduler: Vec<String>,
}

#[derive(Clone, Debug)]
pub struct ExtenderTlsConfig {
    pub insecure: bool,
    pub server_name: String,
    pub cert_file: String,
    pub key_file: String,
    pub ca_file: String,
    pub cert_data: Option<Vec<u8>>,
    pub key_data: Option<Vec<u8>>,
    pub ca_data: Option<Vec<u8>>,
}

/// A timeout as written, and its length in nanoseconds or what is wrong with
/// it.
#[derive(Debug)]
pub struct TimeoutText {
    pub text: String,
    pub nanos: Result<u128, String>,
}

/// An extender's configuration as written.
#[derive(Debug)]
pub struct RawExtenderConfig {
    pub url_prefix: String,
    pub filter_verb: Option<String>,
    pub prioritize_verb: Option<String>,
    pub bind_verb: Option<String>,
    pub preempt_verb: Option<String>,
    pub tls_config: Option<RawExtenderTlsConfig>,
    pub enable_https: bool,
    pub weight: i64,
    pub node_cache_capable: bool,
    pub ignorable: bool,
    pub http_timeout: Option<TimeoutText>,
    pub http_timeout_seconds: Option<u64>,
    pub managed_resources: Vec<RawManagedResource>,
}

#[derive(Clone, Debug)]
pub struct RawManagedResource {
    pub name: String,
    pub ignored_by_scheduler: bool,
}

#[derive(Clone, Debug)]
pub struct RawExtenderTlsConfig {
    pub insecure: bool,
    pub server_name: String,
    pub cert_file: String,
    pub key_file: String,
    pub ca_file: String,
    pub cert_data: Option<String>,
    pub key_data: Option<String>,
    pub ca_data: Option<String>,
}

pub fn default_weight() -> (r: i64)
    ensures
        r == 1,
{
    1
}

/// Whether a list of resources names one that a container asks for or is
/// limited in.
pub open spec fn container_interests(managed: Seq<String>, c: Container) -> bool {
    match c.resources {
        Some(r) => keys_interest(managed, r.requests) || keys_interest(managed, r.limits),
        None => false,
    }
}

pub open spec fn keys_interest(managed: Seq<String>, m: Option<StrMap<String>>) -> bool {
    match m {
        Some(m) => exists|i: int|
            0 <= i < m.entries@.len() && has_text(managed, (#[trigger] m.entries@[i]).0@),
        None => false,
    }
}

pub open spec fn containers_interest(managed: Seq<String>, c: Seq<Container>) -> bool {
    exists|i: int| 0 <= i < c.len() && container_interests(managed, #[trigger] c[i])
}

pub open spec fn object_interests(managed: Seq<String>, pod: Option<Arc<Pod>>) -> bool {
    match pod {
        Some(p) => match p.spec {
            Some(spec) => containers_interest(managed, spec.containers@) || match spec.init_containers {
                Some(c) => containers_interest(managed, c@),
                None => false,
            },
            None => false,
        },
        None => false,
    }
}

/// Whether a list of resources names one that the pod asks for.
pub open spec fn requests_interest(managed: Seq<String>, requests: Resources) -> bool {
    exists|i: int|
        0 <= i < managed.len() && requests.extended.at((#[trigger] managed[i])@) is Some
}

fn do_keys_interest(managed: &Vec<String>, m: &Option<StrMap<String>>) -> (r: bool)
    ensures
        r == keys_interest(managed@, *m),
{
    match m {
        None => false,
        Some(map) => {
            let mut i: usize = 0;
            while i < map.entries.len()
                invariant
                    i <= map.entries@.len(),
                    *m == Some(*map),
                    forall|k: int|
                        0 <= k < i ==> !has_text(managed@, (#[trigger] map.entries@[k]).0@),
                decreases map.entries@.len() - i,
            {
                if contains_text(managed, map.entries[i].0.as_str()) {
                    assert(has_text(managed@, m->Some_0.entries@[i as int].0@));
                    return true;
                }
                i += 1;
            }
            false
        },
    }
}

fn do_containers_interest(managed: &Vec<String>, c: &Vec<Container>) -> (r: bool)
    ensures
        r == containers_interest(managed@, c@),
{
    let mut i: usize = 0;
    while i < c.len()
        invariant
            i <= c@.len(),
            forall|k: int| 0 <= k < i ==> !container_interests(managed@, #[trigger] c@[k]),
        decreases c@.len() - i,
    {
        let here = match &c[i].resources {
            Some(r) => do_keys_interest(managed, &r.requests) || do_keys_interest(
                managed,
                &r.limits,
            ),
            None => false,
        };
        if here {
            assert(container_interests(managed@, c@[i as int]));
            return true;
        }
        i += 1;
    }
    false
}

impl ExtenderConfig {
    /// Whether the extender is asked about a pod: about every one, unless it
    /// manages resources; then about those that ask for one of them or have a
    /// container limited in one.
    pub fn applies_to(&self, pod: &PodInfo) -> (r: bool)
        ensures
            r == (self.managed_resources@.len() == 0 || object_interests(
                self.managed_resources@,
                pod.api_object,
            ) || requests_interest(self.managed_resources@, pod.requests)),
    {
        if self.managed_resources.len() == 0 {
            return true;
        }
        match &pod.api_object {
            Some(api) => match &api.spec {
                Some(spec) => {
                    if do_containers_interest(&self.managed_resources, &spec.containers) {
                        return true;
                    }
                    match &spec.init_containers {
                        Some(c) => {
                            if do_containers_interest(&self.managed_resources, c) {
                                return true;
                            }
                        },
                        None => {},
                    }
                },
                None => {},
            },
            None => {},
        }
        let mut i: usize = 0;
        while i < self.managed_resources.len()
            invariant
                i <= self.managed_resources@.len(),
                forall|k: int|
                    0 <= k < i ==> pod.requests.extended.at(
                        (#[trigger] self.managed_resources@[k])@,
                    ) is None,
            decreases self.managed_resources@.len() - i,
        {
            if pod.requests.extended.contains_key(self.managed_resources[i].as_str()) {
                assert(pod.requests.extended.at(self.managed_resources@[i as int]@) is Some);
                return true;
            }
            i += 1;
        }
        false
    }
}

/// A digit or a decimal point.
pub open spec fn numeric(c: char) -> bool {
    is_digit(c) || c == '.'
}

/// The end of the run, from `i` on, of characters that are numeric or of those
/// that are not.
pub open spec fn run_end(s: Seq<char>, i: int, wanted: bool) -> int
    decreases s.len() - i,
{
    if 0 <= i < s.len() && numeric(s[i]) == wanted {
        run_end(s, i + 1, wanted)
    } else {
        i
    }
}

/// A duration's parts from `i` on, each a number and a unit.
pub open spec fn parts_from(s: Seq<char>, i: int) -> Seq<(Seq<char>, Seq<char>)>
    decreases s.len() - i,
{
    if i < 0 || i >= s.len() {
        Seq::empty()
    } else {
        let mid = run_end(s, i, true);
        let end = run_end(s, mid, false);
        if end <= i || end > s.len() {
            Seq::empty()
        } else {
            seq![(s.subrange(i, mid), s.subrange(mid, end))] + parts_from(s, end)
        }
    }
}

proof fn run_end_bounds(s: Seq<char>, i: int, wanted: bool)
    requires
        0 <= i <= s.len(),
    ensures
        i <= run_end(s, i, wanted) <= s.len(),
        run_end(s, i, wanted) < s.len() ==> numeric(s[run_end(s, i, wanted)]) != wanted,
    decreases s.len() - i,
{
    if i < s.len() && numeric(s[i]) == wanted {
        run_end_bounds(s, i + 1, wanted);
    }
}

fn find_run_end(chars: &Vec<char>, from: usize, wanted: bool) -> (r: usize)
    requires
        from <= chars@.len(),
    ensures
        r == run_end(chars@, from as int, wanted),
        from <= r <= chars@.len(),
{
    let mut i: usize = from;
    while i < chars.len() && (check_digit(chars[i]) || chars[i] == '.') == wanted
        invariant
            from <= i <= chars@.len(),
            run_end(chars@, from as int, wanted) == run_end(chars@, i as int, wanted),
        ensures
            run_end(chars@, i as int, wanted) == i,
        decreases chars@.len() - i,
    {
        i += 1;
    }
    i
}

/// The views of a list of pairs of texts.
pub open spec fn pair_views(v: Seq<(String, String)>) -> Seq<(Seq<char>, Seq<char>)> {
    v.map_values(|p: (String, String)| (p.0@, p.1@))
}

/// A duration split into numbers and units; `None` where it does not begin with
/// a number.
pub fn duration_parts(raw: &str) -> (r: Option<Vec<(String, String)>>)
    ensures
        match r {
            Some(parts) => raw@.len() > 0 && numeric(raw@[0]) && pair_views(parts@) == parts_from(
                raw@,
                0,
            ),
            None => raw@.len() == 0 || !numeric(raw@[0]),
        },
{
    let chars = chars_of(raw);
    if chars.len() == 0 || !(check_digit(chars[0]) || chars[0] == '.') {
        return None;
    }
    let mut out: Vec<(String, String)> = Vec::new();
    let mut at: usize = 0;
    assert(pair_views(out@) + parts_from(raw@, 0) =~= parts_from(raw@, 0));
    while at < chars.len()
        invariant
            at <= chars@.len(),
            chars@ == raw@,
            at < chars@.len() ==> numeric(chars@[at as int]),
            pair_views(out@) + parts_from(raw@, at as int) == parts_from(raw@, 0),
        decreases chars@.len() - at,
    {
        let ghost before = out@;
        let mid: usize = find_run_end(&chars, at, true);
        let end: usize = find_run_end(&chars, mid, false);
        proof {
            run_end_bounds(raw@, at as int, true);
            run_end_bounds(raw@, at + 1, true);
            run_end_bounds(raw@, mid as int, false);
            assert(mid > at);
        }
        let number = string_of(&chars, at, mid);
        let unit = string_of(&chars, mid, end);
        out.push((number, unit));
        proof {
            let part = (raw@.subrange(at as int, mid as int), raw@.subrange(mid as int, end as int));
            assert(parts_from(raw@, at as int) == seq![part] + parts_from(raw@, end as int));
            assert(pair_views(out@) =~= pair_views(before).push(part));
            assert(pair_views(out@) + parts_from(raw@, end as int) =~= pair_views(before) + (
            seq![part] + parts_from(raw@, end as int)));
        }
        at = end;
    }
    assert(pair_views(out@) + parts_from(raw@, at as int) =~= pair_views(out@));
    Some(out)
}

/// How many nanoseconds a unit has.
pub open spec fn unit_length(unit: Seq<char>) -> Option<int> {
    if unit == "ns"@ {
        Some(1)
    } else if unit == "us"@ || unit == "\u{b5}s"@ || unit == "\u{3bc}s"@ {
        Some(1_000)
    } else if unit == "ms"@ {
        Some(1_000_000)
    } else if unit == "s"@ {
        Some(1_000_000_000)
    } else if unit == "m"@ {
        Some(60_000_000_000)
    } else if unit == "h"@ {
        Some(3_600_000_000_000)
    } else {
        None
    }
}

pub fn unit_nanos(unit: &str) -> (r: Option<u64>)
    ensures
        match unit_length(unit@) {
            Some(n) => r is Some && r->Some_0 == n,
            None => r is None,
        },
{
    if text_eq(unit, "ns") {
        Some(1)
    } else if text_eq(unit, "us") || text_eq(unit, "\u{b5}s") || text_eq(unit, "\u{3bc}s") {
        Some(1_000)
    } else if text_eq(unit, "ms") {
        Some(1_000_000)
    } else if text_eq(unit, "s") {
        Some(1_000_000_000)
    } else if text_eq(unit, "m") {
        Some(60_000_000_000)
    } else if text_eq(unit, "h") {
        Some(3_600_000_000_000)
    } else {
        None
    }
}

/// What standard base64 without white space decodes to, or what is wrong with
/// it.
pub uninterp spec fn base64_read(s: Seq<char>) -> Result<Seq<u8>, Seq<char>>;

/// `base64::engine::general_purpose::STANDARD.decode`: the bytes, or the
/// decoder's message.
#[verifier::external_body]
fn read_base64(s: &str) -> (r: Result<Vec<u8>, String>)
    ensures
        match base64_read(s@) {
            Ok(bytes) => r is Ok && r->Ok_0@ == bytes,
            Err(e) => r is Err && r->Err_0@ == e,
        },
{
    base64::engine::general_purpose::STANDARD.decode(s).map_err(|e| e.to_string())
}

/// ASCII white space.
pub open spec fn ascii_space(c: char) -> bool {
    c == ' ' || c == '\t' || c == '\n' || c == '\r' || c == '\u{c}'
}

/// A text without its ASCII white space.
pub open spec fn compact(s: Seq<char>) -> Seq<char>
    decreases s.len(),
{
    if s.len() == 0 {
        Seq::empty()
    } else if ascii_space(s.last()) {
        compact(s.drop_last())
    } else {
        compact(s.drop_last()).push(s.last())
    }
}

fn compacted(s: &str) -> (r: String)
    ensures
        r@ == compact(s@),
{
    let chars = chars_of(s);
    let mut out = String::new();
    let mut i: usize = 0;
    while i < chars.len()
        invariant
            i <= chars@.len(),
            out@ == compact(chars@.take(i as int)),
        decreases chars@.len() - i,
    {
        let c = chars[i];
        if !(c == ' ' || c == '\t' || c == '\n' || c == '\r' || c == '\u{c}') {
            out.push(c);
        }
        i += 1;
        assert(chars@.take(i as int).drop_last() =~= chars@.take(i - 1));
    }
    assert(chars@.take(i as int) =~= chars@);
    out
}

/// Read base64 data, in which white space does not count.
pub fn decode_base64(raw: &str) -> (r: Result<Vec<u8>, String>)
    ensures
        match base64_read(compact(raw@)) {
            Ok(bytes) => r is Ok && r->Ok_0@ == bytes,
            Err(e) => r is Err && r->Err_0@ == "invalid base64 data: "@ + e,
        },
{
    let text = compacted(raw);
    let read = read_base64(text.as_str());
    decoded_data(read)
}

/// What the decoder's answer means.
pub fn decoded_data(read: Result<Vec<u8>, String>) -> (r: Result<Vec<u8>, String>)
    ensures
        match read {
            Ok(bytes) => r == Ok::<Vec<u8>, String>(bytes),
            Err(e) => r is Err && r->Err_0@ == "invalid base64 data: "@ + e@,
        },
{
    match read {
        Ok(bytes) => Ok(bytes),
        Err(e) => Err(joined("invalid base64 data: ", e.as_str())),
    }
}

/// What is wrong with a list of configurations.
#[derive(Debug)]
pub enum ExtenderError {
    /// More than one extender binds: how many.
    Binders(u64),
    /// An extender that would be called for nothing: its URL prefix.
    NoVerb(String),
    /// An extender that scores, without a positive weight.
    Weight(String, i64),
    /// A resource that is managed twice.
    Managed(String),
    /// A timeout that cannot be read: URL prefix, timeout and why.
    Timeout(String, String, String),
    /// TLS data that cannot be read: why.
    Data(String),
}

impl ExtenderError {
    pub open spec fn text(&self) -> Seq<char> {
        match self {
            ExtenderError::Binders(n) => "NODESCHEDULER_EXTENDERS_JSON has "@ + decimal(*n as nat)
                + " extenders implementing bindVerb; upstream permits only one"@,
            ExtenderError::NoVerb(url) => "extender "@ + quoted(url@)
                + " sets neither filterVerb nor prioritizeVerb \u{2014} it would never be called for anything."@,
            ExtenderError::Weight(url, w) => "extender "@ + quoted(url@)
                + " has prioritizeVerb but weight="@ + signed_decimal(*w as int)
                + " \u{2014} upstream requires a positive weight"@,
            ExtenderError::Managed(name) => "managed resource "@ + quoted(name@)
                + " is listed by more than one extender"@,
            ExtenderError::Timeout(url, text, why) => "extender "@ + quoted(url@)
                + " has invalid httpTimeout "@ + quoted(text@) + ": "@ + why@,
            ExtenderError::Data(why) => why@,
        }
    }

    pub fn message(&self) -> (r: String)
        ensures
            r@ == self.text(),
    {
        match self {
            ExtenderError::Binders(n) => {
                let count = decimal_text(*n);
                let text = joined("NODESCHEDULER_EXTENDERS_JSON has ", count.as_str());
                joined(
                    text.as_str(),
                    " extenders implementing bindVerb; upstream permits only one",
                )
            },
            ExtenderError::NoVerb(url) => {
                let shown = debug_text(url.as_str());
                let text = joined("extender ", shown.as_str());
                joined(
                    text.as_str(),
                    " sets neither filterVerb nor prioritizeVerb \u{2014} it would never be called for anything.",
                )
            },
            ExtenderError::Weight(url, w) => {
                let shown = debug_text(url.as_str());
                let weight = signed_decimal_text(*w);
                let text = joined("extender ", shown.as_str());
                let text = joined(text.as_str(), " has prioritizeVerb but weight=");
                let text = joined(text.as_str(), weight.as_str());
                joined(text.as_str(), " \u{2014} upstream requires a positive weight")
            },
            ExtenderError::Managed(name) => {
                let shown = debug_text(name.as_str());
                let text = joined("managed resource ", shown.as_str());
                joined(text.as_str(), " is listed by more than one extender")
            },
            ExtenderError::Timeout(url, raw, why) => {
                let shown = debug_text(url.as_str());
                let timeout = debug_text(raw.as_str());
                let text = joined("extender ", shown.as_str());
                let text = joined(text.as_str(), " has invalid httpTimeout ");
                let text = joined(text.as_str(), timeout.as_str());
                let text = joined(text.as_str(), ": ");
                joined(text.as_str(), why.as_str())
            },
            ExtenderError::Data(why) => why.clone(),
        }
    }
}

/// A verb that is set and not empty.
pub open spec fn verb_set(v: Option<String>) -> bool {
    v is Some && v->Some_0@ != ""@
}

/// A verb, where it is set and not empty.
pub open spec fn verb_of(v: Option<String>) -> Option<String> {
    if verb_set(v) {
        v
    } else {
        None
    }
}

fn real_verb(v: &Option<String>) -> (r: Option<String>)
    ensures
        r == verb_of(*v),
{
    match v {
        Some(s) => if text_eq(s.as_str(), "") {
            None
        } else {
            Some(s.clone())
        },
        None => None,
    }
}

/// How many extenders of a list bind.
pub open spec fn binders(raws: Seq<RawExtenderConfig>) -> nat
    decreases raws.len(),
{
    if raws.len() == 0 {
        0
    } else {
        binders(raws.drop_last()) + if verb_set(raws.last().bind_verb) {
            1nat
        } else {
            0nat
        }
    }
}

fn count_binders(raws: &Vec<RawExtenderConfig>) -> (r: u64)
    ensures
        r == binders(raws@),
{
    let size: usize = raws.len();
    let mut n: usize = 0;
    let mut i: usize = 0;
    while i < size
        invariant
            n <= i <= size == raws@.len(),
            n == binders(raws@.take(i as int)),
        decreases size - i,
    {
        if real_verb(&raws[i].bind_verb).is_some() {
            n += 1;
        }
        i += 1;
        assert(raws@.take(i as int).drop_last() =~= raws@.take(i - 1));
    }
    assert(raws@.take(i as int) =~= raws@);
    n as u64
}

/// The names of resources.
pub open spec fn resource_names(m: Seq<RawManagedResource>) -> Seq<Seq<char>> {
    m.map_values(|r: RawManagedResource| r.name@)
}

/// The names of the resources that a list of extenders manages.
pub open spec fn managed_names(raws: Seq<RawExtenderConfig>) -> Seq<Seq<char>>
    decreases raws.len(),
{
    if raws.len() == 0 {
        Seq::empty()
    } else {
        managed_names(raws.drop_last()) + resource_names(raws.last().managed_resources@)
    }
}

/// The first of the names `more`, from `i` on, that stands before it, in `all`
/// or in `more` itself.
pub open spec fn repeated(all: Seq<Seq<char>>, more: Seq<Seq<char>>, i: int) -> Option<Seq<char>>
    decreases more.len() - i,
{
    if i < 0 || i >= more.len() {
        None
    } else if all.contains(more[i]) || more.take(i).contains(more[i]) {
        Some(more[i])
    } else {
        repeated(all, more, i + 1)
    }
}

/// The timeout of an extender: as written, or five seconds where that is
/// nothing.
pub open spec fn timeout_of(raw: RawExtenderConfig) -> int {
    let n = match raw.http_timeout {
        Some(t) => match t.nanos {
            Ok(n) => n as int,
            Err(_) => 0,
        },
        None => match raw.http_timeout_seconds {
            Some(s) => s * 1_000_000_000,
            None => 0,
        },
    };
    if n == 0 {
        DEFAULT_TIMEOUT as int
    } else {
        n
    }
}

/// The TLS data that cannot be read: certificate, key and authority in turn.
pub open spec fn data_error(t: Option<String>) -> Option<Seq<char>> {
    match t {
        Some(s) => match base64_read(compact(s@)) {
            Ok(_) => None,
            Err(e) => Some("invalid base64 data: "@ + e),
        },
        None => None,
    }
}

pub open spec fn tls_error(t: Option<RawExtenderTlsConfig>) -> Option<Seq<char>> {
    match t {
        Some(tls) => match data_error(tls.cert_data) {
            Some(e) => Some(e),
            None => match data_error(tls.key_data) {
                Some(e) => Some(e),
                None => data_error(tls.ca_data),
            },
        },
        None => None,
    }
}

/// What is wrong with the extender at `i`, given those before it.
pub open spec fn config_error(raws: Seq<RawExtenderConfig>, i: int) -> Option<Seq<char>> {
    let raw = raws[i];
    let url = raw.url_prefix;
    if !verb_set(raw.filter_verb) && !verb_set(raw.prioritize_verb) && !verb_set(raw.preempt_verb)
        && !verb_set(raw.bind_verb) {
        Some(ExtenderError::NoVerb(url).text())
    } else if verb_set(raw.prioritize_verb) && raw.weight <= 0 {
        Some(ExtenderError::Weight(url, raw.weight).text())
    } else {
        match repeated(
            managed_names(raws.take(i)),
            resource_names(raw.managed_resources@),
            0,
        ) {
            Some(name) => Some(
                "managed resource "@ + quoted(name) + " is listed by more than one extender"@,
            ),
            None => match raw.http_timeout {
                Some(TimeoutText { text, nanos: Err(why) }) => Some(
                    ExtenderError::Timeout(url, text, why).text(),
                ),
                _ => tls_error(raw.tls_config),
            },
        }
    }
}

/// What is wrong with the first extender, of the first `n`, with which
/// something is.
pub open spec fn first_error(raws: Seq<RawExtenderConfig>, n: int) -> Option<Seq<char>>
    decreases n,
{
    if n <= 0 {
        None
    } else {
        match first_error(raws, n - 1) {
            Some(e) => Some(e),
            None => config_error(raws, n - 1),
        }
    }
}

/// What is wrong with a list of configurations.
pub open spec fn configs_error(raws: Seq<RawExtenderConfig>) -> Option<Seq<char>> {
    if binders(raws) > 1 {
        Some(
            "NODESCHEDULER_EXTENDERS_JSON has "@ + decimal(binders(raws))
                + " extenders implementing bindVerb; upstream permits only one"@,
        )
    } else {
        first_error(raws, raws.len() as int)
    }
}

/// Data as it was decoded.
pub open spec fn data_of(d: Option<Vec<u8>>, raw: Option<String>) -> bool {
    match raw {
        Some(s) => d is Some && base64_read(compact(s@)) == Ok::<Seq<u8>, Seq<char>>(d->Some_0@),
        None => d is None,
    }
}

pub open spec fn tls_of(tls: ExtenderTlsConfig, raw: RawExtenderTlsConfig) -> bool {
    &&& tls.insecure == raw.insecure
    &&& tls.server_name@ == raw.server_name@
    &&& tls.cert_file@ == raw.cert_file@
    &&& tls.key_file@ == raw.key_file@
    &&& tls.ca_file@ == raw.ca_file@
    &&& data_of(tls.cert_data, raw.cert_data)
    &&& data_of(tls.key_data, raw.key_data)
    &&& data_of(tls.ca_data, raw.ca_data)
}

/// The names of the resources whose fit only the extender judges.
pub open spec fn ignored_names(m: Seq<RawManagedResource>) -> Seq<Seq<char>>
    decreases m.len(),
{
    if m.len() == 0 {
        Seq::empty()
    } else if m.last().ignored_by_scheduler {
        ignored_names(m.drop_last()).push(m.last().name@)
    } else {
        ignored_names(m.drop_last())
    }
}

/// A configuration is what was written.
pub open spec fn configured(c: ExtenderConfig, raw: RawExtenderConfig) -> bool {
    &&& c.url_prefix@ == raw.url_prefix@
    &&& c.filter_verb == verb_of(raw.filter_verb)
    &&& c.prioritize_verb == verb_of(raw.prioritize_verb)
    &&& c.preempt_verb == verb_of(raw.preempt_verb)
    &&& c.bind_verb == verb_of(raw.bind_verb)
    &&& c.weight == raw.weight
    &&& c.node_cache_capable == raw.node_cache_capable
    &&& c.ignorable == raw.ignorable
    &&& c.http_timeout == timeout_of(raw)
    &&& c.enable_https == raw.enable_https
    &&& match raw.tls_config {
        Some(tls) => c.tls_config is Some && tls_of(c.tls_config->Some_0, tls),
        None => c.tls_config is None,
    }
    &&& crate::text::views(c.managed_resources@) == resource_names(raw.managed_resources@)
    &&& crate::text::views(c.ignored_by_scheduler@) == ignored_names(raw.managed_resources@)
}

fn read_data(t: &Option<String>) -> (r: Result<Option<Vec<u8>>, String>)
    ensures
        match data_error(*t) {
            Some(e) => r is Err && r->Err_0@ == e,
            None => r is Ok && data_of(r->Ok_0, *t),
        },
{
    match t {
        Some(s) => match decode_base64(s.as_str()) {
            Ok(bytes) => Ok(Some(bytes)),
            Err(e) => Err(e),
        },
        None => Ok(None),
    }
}

fn read_tls(tls: &RawExtenderTlsConfig) -> (r: Result<ExtenderTlsConfig, String>)
    ensures
        match tls_error(Some(*tls)) {
            Some(e) => r is Err && r->Err_0@ == e,
            None => r is Ok && tls_of(r->Ok_0, *tls),
        },
{
    let cert_data = match read_data(&tls.cert_data) {
        Ok(d) => d,
        Err(e) => {
            return Err(e);
        },
    };
    let key_data = match read_data(&tls.key_data) {
        Ok(d) => d,
        Err(e) => {
            return Err(e);
        },
    };
    let ca_data = match read_data(&tls.ca_data) {
        Ok(d) => d,
        Err(e) => {
            return Err(e);
        },
    };
    Ok(
        ExtenderTlsConfig {
            insecure: tls.insecure,
            server_name: tls.server_name.clone(),
            cert_file: tls.cert_file.clone(),
            key_file: tls.key_file.clone(),
            ca_file: tls.ca_file.clone(),
            cert_data,
            key_data,
            ca_data,
        },
    )
}

/// Add the names of managed resources to those seen; the first that was seen
/// before is handed back.
fn add_managed(seen: &mut Vec<String>, more: &Vec<RawManagedResource>) -> (r: Option<String>)
    ensures
        match repeated(crate::text::views(old(seen)@), resource_names(more@), 0) {
            Some(name) => r is Some && r->Some_0@ == name,
            None => r is None && crate::text::views(final(seen)@) == crate::text::views(old(seen)@)
                + resource_names(more@),
        },
{
    let ghost all = crate::text::views(seen@);
    let ghost names = resource_names(more@);
    let mut i: usize = 0;
    assert(all + names.take(0) =~= all);
    while i < more.len()
        invariant
            i <= more@.len(),
            all == crate::text::views(old(seen)@),
            names == resource_names(more@),
            crate::text::views(seen@) == all + names.take(i as int),
            repeated(all, names, 0) == repeated(all, names, i as int),
        decreases more@.len() - i,
    {
        let name = &more[i].name;
        let known = contains_text(seen, name.as_str());
        proof {
            assert(names[i as int] == name@);
            seen_before(seen@, all, names, i as int);
        }
        if known {
            return Some(name.clone());
        }
        let ghost before = seen@;
        seen.push(name.clone());
        i += 1;
        proof {
            assert(crate::text::views(seen@) =~= crate::text::views(before).push(name@));
            assert(all + names.take(i as int) =~= (all + names.take(i - 1)).push(names[i - 1]));
        }
    }
    assert(names.take(i as int) =~= names);
    None
}

proof fn seen_before(seen: Seq<String>, all: Seq<Seq<char>>, names: Seq<Seq<char>>, i: int)
    requires
        0 <= i < names.len(),
        crate::text::views(seen) == all + names.take(i),
    ensures
        has_text(seen, names[i]) == (all.contains(names[i]) || names.take(i).contains(names[i])),
{
    let v = crate::text::views(seen);
    let n = names[i];
    assert(v.len() == seen.len());
    assert(v.len() == all.len() + i);
    assert forall|k: int| 0 <= k < seen.len() implies #[trigger] v[k] == seen[k]@ by {}
    if has_text(seen, n) {
        let k = choose|k: int| 0 <= k < seen.len() && (#[trigger] seen[k])@ == n;
        assert(v[k] == n);
        if k < all.len() {
            assert(all[k] == n);
        } else {
            assert(names.take(i)[k - all.len()] == n);
        }
    }
    if all.contains(n) {
        let k = choose|k: int| 0 <= k < all.len() && all[k] == n;
        assert(v[k] == n);
        assert(seen[k]@ == n);
    }
    if names.take(i).contains(n) {
        let k = choose|k: int| 0 <= k < i && names.take(i)[k] == n;
        assert(v[all.len() + k] == n);
        assert(seen[all.len() + k]@ == n);
    }
}

fn copy_names(m: &Vec<RawManagedResource>) -> (r: (Vec<String>, Vec<String>))
    ensures
        crate::text::views(r.0@) == resource_names(m@),
        crate::text::views(r.1@) == ignored_names(m@),
{
    let mut names: Vec<String> = Vec::new();
    let mut ignored: Vec<String> = Vec::new();
    let mut i: usize = 0;
    assert(crate::text::views(names@) =~= resource_names(m@.take(0)));
    assert(crate::text::views(ignored@) =~= ignored_names(m@.take(0)));
    while i < m.len()
        invariant
            i <= m@.len(),
            crate::text::views(names@) == resource_names(m@.take(i as int)),
            crate::text::views(ignored@) == ignored_names(m@.take(i as int)),
        decreases m@.len() - i,
    {
        let ghost was = names@;
        let ghost were = ignored@;
        names.push(m[i].name.clone());
        if m[i].ignored_by_scheduler {
            ignored.push(m[i].name.clone());
        }
        i += 1;
        proof {
            let longer = m@.take(i as int);
            assert(longer.drop_last() =~= m@.take(i - 1));
            assert(crate::text::views(names@) =~= crate::text::views(was).push(m@[i - 1].name@));
            assert(resource_names(longer) =~= resource_names(m@.take(i - 1)).push(m@[i - 1].name@));
            if m@[i - 1].ignored_by_scheduler {
                assert(crate::text::views(ignored@) =~= crate::text::views(were).push(
                    m@[i - 1].name@,
                ));
            }
        }
    }
    assert(m@.take(i as int) =~= m@);
    (names, ignored)
}

fn read_timeout(raw: &RawExtenderConfig) -> (r: Result<u128, ExtenderError>)
    ensures
        match raw.http_timeout {
            Some(TimeoutText { text, nanos: Err(why) }) => r is Err && r->Err_0.text()
                == ExtenderError::Timeout(raw.url_prefix, text, why).text(),
            _ => r is Ok && r->Ok_0 == timeout_of(*raw),
        },
{
    let n: u128 = match &raw.http_timeout {
        Some(t) => match &t.nanos {
            Ok(n) => *n,
            Err(why) => {
                return Err(
                    ExtenderError::Timeout(raw.url_prefix.clone(), t.text.clone(), why.clone()),
                );
            },
        },
        None => match raw.http_timeout_seconds {
            Some(s) => (s as u128) * 1_000_000_000,
            None => 0,
        },
    };
    if n == 0 {
        Ok(DEFAULT_TIMEOUT)
    } else {
        Ok(n)
    }
}

/// Check configurations as written, and bring them into the form that is acted
/// on.
pub fn parse_extenders(raws: &Vec<RawExtenderConfig>) -> (r: Result<
    Vec<ExtenderConfig>,
    ExtenderError,
>)
    ensures
        match configs_error(raws@) {
            Some(e) => r is Err && r->Err_0.text() == e,
            None => r is Ok && r->Ok_0@.len() == raws@.len() && forall|i: int|
                0 <= i < raws@.len() ==> configured(#[trigger] r->Ok_0@[i], raws@[i]),
        },
{
    let count: u64 = count_binders(raws);
    if count > 1 {
        return Err(ExtenderError::Binders(count));
    }
    let mut seen: Vec<String> = Vec::new();
    let mut out: Vec<ExtenderConfig> = Vec::new();
    let mut i: usize = 0;
    proof {
        assert(raws@.take(0) =~= Seq::empty());
        assert(crate::text::views(seen@) =~= managed_names(raws@.take(0)));
    }
    while i < raws.len()
        invariant
            i <= raws@.len(),
            binders(raws@) <= 1,
            out@.len() == i,
            crate::text::views(seen@) == managed_names(raws@.take(i as int)),
            first_error(raws@, i as int) is None,
            forall|k: int| 0 <= k < i ==> configured(#[trigger] out@[k], raws@[k]),
        decreases raws@.len() - i,
    {
        match read_config(&raws[i], &mut seen, Ghost(raws@), Ghost(i as int)) {
            Ok(c) => {
                out.push(c);
            },
            Err(e) => {
                proof {
                    error_stands(raws@, i + 1, raws@.len() as int);
                }
                return Err(e);
            },
        }
        i += 1;
        assert(raws@.take(i as int).drop_last() =~= raws@.take(i - 1));
    }
    Ok(out)
}

proof fn error_stands(raws: Seq<RawExtenderConfig>, i: int, n: int)
    requires
        0 <= i <= n,
        first_error(raws, i) is Some,
    ensures
        first_error(raws, n) == first_error(raws, i),
    decreases n - i,
{
    if i < n {
        error_stands(raws, i + 1, n);
    }
}

fn read_config(
    raw: &RawExtenderConfig,
    seen: &mut Vec<String>,
    Ghost(raws): Ghost<Seq<RawExtenderConfig>>,
    Ghost(i): Ghost<int>,
) -> (r: Result<ExtenderConfig, ExtenderError>)
    requires
        0 <= i < raws.len(),
        *raw == raws[i],
        crate::text::views(old(seen)@) == managed_names(raws.take(i)),
    ensures
        match config_error(raws, i) {
            Some(e) => r is Err && r->Err_0.text() == e,
            None => r is Ok && configured(r->Ok_0, *raw) && crate::text::views(final(seen)@)
                == managed_names(raws.take(i)) + resource_names(raw.managed_resources@),
        },
{
    let filter_verb = real_verb(&raw.filter_verb);
    let prioritize_verb = real_verb(&raw.prioritize_verb);
    let bind_verb = real_verb(&raw.bind_verb);
    let preempt_verb = real_verb(&raw.preempt_verb);
    if filter_verb.is_none() && prioritize_verb.is_none() && preempt_verb.is_none()
        && bind_verb.is_none() {
        return Err(ExtenderError::NoVerb(raw.url_prefix.clone()));
    }
    if prioritize_verb.is_some() && raw.weight <= 0 {
        return Err(ExtenderError::Weight(raw.url_prefix.clone(), raw.weight));
    }
    match add_managed(seen, &raw.managed_resources) {
        Some(name) => {
            return Err(ExtenderError::Managed(name));
        },
        None => {},
    }
    let http_timeout: u128 = match read_timeout(raw) {
        Ok(n) => n,
        Err(e) => {
            return Err(e);
        },
    };
    let tls_config = match &raw.tls_config {
        Some(tls) => match read_tls(tls) {
            Ok(t) => Some(t),
            Err(e) => {
                return Err(ExtenderError::Data(e));
            },
        },
        None => None,
    };
    let (managed_resources, ignored_by_scheduler) = copy_names(&raw.managed_resources);
    Ok(
        ExtenderConfig {
            url_prefix: raw.url_prefix.clone(),
            filter_verb,
            prioritize_verb,
            preempt_verb,
            bind_verb,
            weight: raw.weight,
            node_cache_capable: raw.node_cache_capable,
            ignorable: raw.ignorable,
            http_timeout,
            enable_https: raw.enable_https,
            tls_config,
            managed_resources,
            ignored_by_scheduler,
        },
    )
}

/// No two extenders of a sound list manage one resource, and no extender
/// manages one twice.
pub proof fn resources_have_one_manager(raws: Seq<RawExtenderConfig>, i: int, j: int, x: int, y: int)
    requires
        configs_error(raws) is None,
        0 <= i <= j < raws.len(),
        0 <= x < raws[i].managed_resources@.len(),
        0 <= y < raws[j].managed_resources@.len(),
        i < j || x < y,
    ensures
        raws[i].managed_resources@[x].name@ != raws[j].managed_resources@[y].name@,
{
    no_error_at(raws, j, raws.len() as int);
    let all = managed_names(raws.take(j));
    let names = resource_names(raws[j].managed_resources@);
    let n = raws[i].managed_resources@[x].name@;
    none_repeated(all, names, 0, y);
    if n == names[y] {
        if i < j {
            managed_listed(raws, i, x, j);
        } else {
            assert(names.take(y)[x] == n);
        }
    }
}

proof fn no_error_at(raws: Seq<RawExtenderConfig>, i: int, n: int)
    requires
        0 <= i < n <= raws.len(),
        first_error(raws, n) is None,
    ensures
        config_error(raws, i) is None,
    decreases n,
{
    if i < n - 1 {
        no_error_at(raws, i, n - 1);
    }
}

proof fn none_repeated(all: Seq<Seq<char>>, more: Seq<Seq<char>>, i: int, y: int)
    requires
        0 <= i <= y < more.len(),
        repeated(all, more, i) is None,
    ensures
        !all.contains(more[y]),
        !more.take(y).contains(more[y]),
    decreases y - i,
{
    if i < y {
        none_repeated(all, more, i + 1, y);
    }
}

proof fn managed_listed(raws: Seq<RawExtenderConfig>, i: int, x: int, n: int)
    requires
        0 <= i < n <= raws.len(),
        0 <= x < raws[i].managed_resources@.len(),
    ensures
        managed_names(raws.take(n)).contains(raws[i].managed_resources@[x].name@),
    decreases n,
{
    let t = raws.take(n);
    assert(t.drop_last() =~= raws.take(n - 1));
    let rest = managed_names(raws.take(n - 1));
    let own = resource_names(t.last().managed_resources@);
    let whole = managed_names(t);
    let name = raws[i].managed_resources@[x].name@;
    assert(whole == rest + own);
    if i < n - 1 {
        managed_listed(raws, i, x, n - 1);
        let k = choose|k: int| 0 <= k < rest.len() && rest[k] == name;
        assert(whole[k] == name);
    } else {
        assert(own[x] == name);
        assert(whole[rest.len() + x] == name);
    }
}

/// The texts of a list of tolerations are copied whole.
fn copy_tolerations(v: &Vec<Toleration>) -> (r: Vec<Toleration>)
    ensures
        r@ == v@,
{
    let mut out: Vec<Toleration> = Vec::new();
    let mut i: usize = 0;
    while i < v.len()
        invariant
            i <= v@.len(),
            out@ == v@.take(i as int),
        decreases v@.len() - i,
    {
        out.push(v[i].copy());
        i += 1;
        assert(v@.take(i as int) =~= v@.take(i - 1).push(v@[i - 1]));
    }
    assert(v@.take(i as int) =~= v@);
    out
}

fn copy_taints(v: &Vec<Taint>) -> (r: Vec<Taint>)
    ensures
        r@ == v@,
{
    let mut out: Vec<Taint> = Vec::new();
    let mut i: usize = 0;
    while i < v.len()
        invariant
            i <= v@.len(),
            out@ == v@.take(i as int),
        decreases v@.len() - i,
    {
        out.push(v[i].copy());
        i += 1;
        assert(v@.take(i as int) =~= v@.take(i - 1).push(v@[i - 1]));
    }
    assert(v@.take(i as int) =~= v@);
    out
}

pub open spec fn holds_text(t: Option<String>, s: Seq<char>) -> bool {
    t is Some && t->Some_0@ == s
}

pub open spec fn holds_labels(t: Option<Labels>, m: Labels) -> bool {
    t is Some && t->Some_0.entries@ == m.entries@
}

/// An object says of a pod who it is and what its scheduling depends on.
pub open spec fn describes_pod(api: Pod, pod: PodInfo) -> bool {
    &&& holds_text(api.metadata.name, pod.name@)
    &&& holds_text(api.metadata.namespace, pod.namespace@)
    &&& holds_text(api.metadata.uid, pod.uid@)
    &&& holds_labels(api.metadata.labels, pod.labels)
    &&& api.metadata.annotations is None
    &&& api.metadata.owner_references is None
    &&& api.status is None
    &&& api.spec matches Some(spec) && {
        &&& holds_labels(spec.node_selector, pod.node_selector)
        &&& spec.priority == Some(pod.priority)
        &&& holds_text(spec.scheduler_name, pod.scheduler_name@)
        &&& spec.tolerations is Some && spec.tolerations->Some_0@ == pod.tolerations@
        &&& spec.scheduling_gates is None
        &&& spec.containers@.len() == 0
        &&& spec.init_containers is None
    }
}

/// The object for a pod: the whole one where it was kept, else one made from
/// what is known.
pub open spec fn pod_object(api: Arc<Pod>, pod: PodInfo) -> bool {
    match pod.api_object {
        Some(whole) => api == whole,
        None => describes_pod(*api, pod),
    }
}

pub fn pod_to_api(pod: &PodInfo) -> (r: Arc<Pod>)
    ensures
        pod_object(r, *pod),
{
    match &pod.api_object {
        Some(api) => {
            return api.clone();
        },
        None => {},
    }
    Arc::new(
        Pod {
            metadata: ObjectMeta {
                name: Some(pod.name.clone()),
                namespace: Some(pod.namespace.clone()),
                uid: Some(pod.uid.clone()),
                labels: Some(copy_labels(&pod.labels)),
                annotations: None,
                owner_references: None,
            },
            spec: Some(
                PodSpec {
                    node_selector: Some(copy_labels(&pod.node_selector)),
                    priority: Some(pod.priority),
                    scheduler_name: Some(pod.scheduler_name.clone()),
                    tolerations: Some(copy_tolerations(&pod.tolerations)),
                    scheduling_gates: None,
                    containers: Vec::new(),
                    init_containers: None,
                    requests: Resources::none(),
                    serialized: String::new(),
                },
            ),
            status: None,
        },
    )
}

/// An object says of a node who it is, what keeps pods off it and how much CPU
/// and memory it has.
pub open spec fn describes_node(api: Node, node: NodeInfo) -> bool {
    &&& holds_text(api.metadata.name, node.name@)
    &&& api.metadata.namespace is None
    &&& api.metadata.uid is None
    &&& holds_labels(api.metadata.labels, node.labels)
    &&& api.spec matches Some(spec) && {
        &&& spec.taints is Some && spec.taints->Some_0@ == node.taints@
        &&& spec.unschedulable == Some(node.unschedulable)
    }
    &&& api.status matches Some(status) && {
        &&& status.conditions is None
        &&& status.allocatable matches Some(m) && {
            &&& m.text("cpu"@) == Some(signed_decimal(node.allocatable.milli_cpu as int) + "m"@)
            &&& m.text("memory"@) == Some(signed_decimal(node.allocatable.memory as int))
            &&& forall|k: Seq<char>|
                k != "cpu"@ && k != "memory"@ ==> (#[trigger] m.text(k)) is None
        }
    }
}

pub open spec fn node_object(api: Arc<Node>, node: NodeInfo) -> bool {
    match node.api_object {
        Some(whole) => api == whole,
        None => describes_node(*api, node),
    }
}

pub fn node_to_api(node: &NodeInfo) -> (r: Arc<Node>)
    ensures
        node_object(r, *node),
{
    match &node.api_object {
        Some(api) => {
            return api.clone();
        },
        None => {},
    }
    let mut allocatable: StrMap<String> = StrMap::new();
    let cpu = signed_decimal_text(node.allocatable.milli_cpu);
    allocatable.insert("cpu".to_owned(), joined(cpu.as_str(), "m"));
    let ghost first = allocatable;
    allocatable.insert("memory".to_owned(), signed_decimal_text(node.allocatable.memory));
    proof {
        reveal_strlit("cpu");
        reveal_strlit("memory");
        assert("cpu"@.len() == 3 && "memory"@.len() == 6);
        assert(first.text("cpu"@) is Some);
        assert forall|k: Seq<char>| k != "cpu"@ && k != "memory"@ implies (#[trigger] allocatable.text(
            k,
        )) is None by {
            let was = first.text(k);
        }
    }
    Arc::new(
        Node {
            metadata: ObjectMeta {
                name: Some(node.name.clone()),
                namespace: None,
                uid: None,
                labels: Some(copy_labels(&node.labels)),
                annotations: None,
                owner_references: None,
            },
            spec: Some(
                NodeSpec {
                    taints: Some(copy_taints(&node.taints)),
                    unschedulable: Some(node.unschedulable),
                },
            ),
            status: Some(NodeStatus { allocatable: Some(allocatable), conditions: None }),
        },
    )
}

/// What an extender is sent about nodes: their names where it knows the nodes
/// itself, else the nodes.
pub struct ExtenderArgs {
    pub pod: Arc<Pod>,
    pub nodes: Option<Vec<Arc<Node>>>,
    pub node_names: Option<Vec<String>>,
}

/// What an extender replies about nodes.
pub struct ExtenderFilterResult {
    pub nodes: Option<Vec<Arc<Node>>>,
    pub node_names: Option<Vec<String>>,
    pub failed_nodes: StrMap<String>,
    pub failed_and_unresolvable_nodes: StrMap<String>,
    pub error: String,
}

/// Which nodes an extender lets through, and why not the others.
pub struct FilterOutcome {
    pub passed: Vec<String>,
    /// The nodes as the extender sent them back, to be used in place of the
    /// known ones.
    pub replacement_nodes: Option<Vec<Arc<Node>>>,
    pub failed: StrMap<String>,
    pub failed_unresolvable: StrMap<String>,
}

/// The objects of a list of nodes, in order.
pub open spec fn node_objects(api: Seq<Arc<Node>>, nodes: Seq<Arc<NodeInfo>>) -> bool {
    api.len() == nodes.len() && forall|i: int|
        0 <= i < api.len() ==> node_object(#[trigger] api[i], *nodes[i])
}

/// The names of a list of nodes.
pub open spec fn node_names(nodes: Seq<Arc<NodeInfo>>) -> Seq<Seq<char>> {
    nodes.map_values(|n: Arc<NodeInfo>| n.name@)
}

/// What is sent to have nodes filtered or scored.
pub fn node_args(config: &ExtenderConfig, pod: &PodInfo, nodes: &Vec<Arc<NodeInfo>>) -> (r:
    ExtenderArgs)
    ensures
        pod_object(r.pod, *pod),
        if config.node_cache_capable {
            r.nodes is None && r.node_names is Some && crate::text::views(r.node_names->Some_0@)
                == node_names(nodes@)
        } else {
            r.node_names is None && r.nodes is Some && node_objects(r.nodes->Some_0@, nodes@)
        },
{
    let mut names: Vec<String> = Vec::new();
    let mut objects: Vec<Arc<Node>> = Vec::new();
    let mut i: usize = 0;
    while i < nodes.len()
        invariant
            i <= nodes@.len(),
            if config.node_cache_capable {
                names@.len() == i && forall|k: int|
                    0 <= k < i ==> (#[trigger] names@[k])@ == nodes@[k].name@
            } else {
                objects@.len() == i && forall|k: int|
                    0 <= k < i ==> node_object(#[trigger] objects@[k], *nodes@[k])
            },
        decreases nodes@.len() - i,
    {
        if config.node_cache_capable {
            names.push(nodes[i].name.clone());
        } else {
            objects.push(node_to_api(&nodes[i]));
        }
        i += 1;
    }
    if config.node_cache_capable {
        assert(crate::text::views(names@) =~= node_names(nodes@));
        ExtenderArgs { pod: pod_to_api(pod), nodes: None, node_names: Some(names) }
    } else {
        ExtenderArgs { pod: pod_to_api(pod), nodes: Some(objects), node_names: None }
    }
}

/// The names that a list of objects has; one without is passed over.
pub open spec fn object_names(v: Seq<Arc<Node>>) -> Seq<Seq<char>>
    decreases v.len(),
{
    if v.len() == 0 {
        Seq::empty()
    } else {
        match v.last().metadata.name {
            Some(n) => object_names(v.drop_last()).push(n@),
            None => object_names(v.drop_last()),
        }
    }
}

fn names_of_objects(v: &Vec<Arc<Node>>) -> (r: Vec<String>)
    ensures
        crate::text::views(r@) == object_names(v@),
{
    let mut out: Vec<String> = Vec::new();
    let mut i: usize = 0;
    assert(crate::text::views(out@) =~= object_names(v@.take(0)));
    while i < v.len()
        invariant
            i <= v@.len(),
            crate::text::views(out@) == object_names(v@.take(i as int)),
        decreases v@.len() - i,
    {
        let ghost before = out@;
        assert(v@.take(i + 1).drop_last() =~= v@.take(i as int));
        match &v[i].metadata.name {
            Some(n) => {
                out.push(n.clone());
                assert(crate::text::views(out@) =~= crate::text::views(before).push(n@));
            },
            None => {},
        }
        i += 1;
    }
    assert(v@.take(i as int) =~= v@);
    out
}

/// A node of the name is among those that were sent.
pub open spec fn was_sent(nodes: Seq<Arc<NodeInfo>>, name: Seq<char>) -> bool {
    exists|i: int| 0 <= i < nodes.len() && (#[trigger] nodes[i]).name@ == name
}

/// The first of the names, from `i` on, that was not sent.
pub open spec fn first_unsent(names: Seq<String>, nodes: Seq<Arc<NodeInfo>>, i: int) -> Option<
    Seq<char>,
>
    decreases names.len() - i,
{
    if i < 0 || i >= names.len() {
        None
    } else if !was_sent(nodes, names[i]@) {
        Some(names[i]@)
    } else {
        first_unsent(names, nodes, i + 1)
    }
}

fn find_unsent(names: &Vec<String>, nodes: &Vec<Arc<NodeInfo>>) -> (r: Option<String>)
    ensures
        match first_unsent(names@, nodes@, 0) {
            Some(n) => r is Some && r->Some_0@ == n,
            None => r is None,
        },
{
    let mut i: usize = 0;
    while i < names.len()
        invariant
            i <= names@.len(),
            first_unsent(names@, nodes@, 0) == first_unsent(names@, nodes@, i as int),
        decreases names@.len() - i,
    {
        let mut found = false;
        let mut j: usize = 0;
        while j < nodes.len()
            invariant
                j <= nodes@.len(),
                i < names@.len(),
                found == exists|k: int|
                    0 <= k < j && (#[trigger] nodes@[k]).name@ == names@[i as int]@,
            decreases nodes@.len() - j,
        {
            let ghost was = found;
            if text_eq(nodes[j].name.as_str(), names[i].as_str()) {
                found = true;
            }
            j += 1;
            proof {
                if was {
                    let k = choose|k: int|
                        0 <= k < j - 1 && (#[trigger] nodes@[k]).name@ == names@[i as int]@;
                    assert(nodes@[k].name@ == names@[i as int]@);
                }
            }
        }
        if !found {
            return Some(names[i].clone());
        }
        i += 1;
    }
    None
}

pub open spec fn filter_error_text(url: Seq<char>, error: Seq<char>) -> Seq<char> {
    "extender "@ + quoted(url) + " filter error: "@ + error
}

pub open spec fn unsent_text(url: Seq<char>, name: Seq<char>) -> Seq<char> {
    "extender "@ + quoted(url) + " claims filtered node "@ + quoted(name)
        + ", which was not in its input node list"@
}

/// What is wrong with a reply about nodes.
pub open spec fn filter_fault(
    config: ExtenderConfig,
    nodes: Seq<Arc<NodeInfo>>,
    reply: ExtenderFilterResult,
) -> Option<Seq<char>> {
    if reply.error@ != ""@ {
        Some(filter_error_text(config.url_prefix@, reply.error@))
    } else {
        match reply.node_names {
            Some(names) => if config.node_cache_capable {
                match first_unsent(names@, nodes, 0) {
                    Some(name) => Some(unsent_text(config.url_prefix@, name)),
                    None => None,
                }
            } else {
                None
            },
            None => None,
        }
    }
}

/// What a reply about nodes means. Nodes that are not named in it did not pass.
pub fn filter_outcome(
    config: &ExtenderConfig,
    nodes: &Vec<Arc<NodeInfo>>,
    reply: ExtenderFilterResult,
) -> (r: Result<FilterOutcome, String>)
    ensures
        match filter_fault(*config, nodes@, reply) {
            Some(e) => r is Err && r->Err_0@ == e,
            None => r matches Ok(o) && {
                &&& o.failed == reply.failed_nodes
                &&& o.failed_unresolvable == reply.failed_and_unresolvable_nodes
                &&& if config.node_cache_capable && reply.node_names is Some {
                    o.passed == reply.node_names->Some_0 && o.replacement_nodes is None
                } else if reply.nodes is Some {
                    crate::text::views(o.passed@) == object_names(reply.nodes->Some_0@)
                        && o.replacement_nodes == reply.nodes
                } else {
                    o.passed@.len() == 0 && o.replacement_nodes is None
                }
            },
        },
{
    if !text_eq(reply.error.as_str(), "") {
        let shown = debug_text(config.url_prefix.as_str());
        let text = joined("extender ", shown.as_str());
        let text = joined(text.as_str(), " filter error: ");
        return Err(joined(text.as_str(), reply.error.as_str()));
    }
    if config.node_cache_capable {
        match reply.node_names {
            Some(names) => {
                match find_unsent(&names, nodes) {
                    Some(name) => {
                        let shown = debug_text(config.url_prefix.as_str());
                        let node = debug_text(name.as_str());
                        let text = joined("extender ", shown.as_str());
                        let text = joined(text.as_str(), " claims filtered node ");
                        let text = joined(text.as_str(), node.as_str());
                        return Err(
                            joined(text.as_str(), ", which was not in its input node list"),
                        );
                    },
                    None => {},
                }
                return Ok(
                    FilterOutcome {
                        passed: names,
                        replacement_nodes: None,
                        failed: reply.failed_nodes,
                        failed_unresolvable: reply.failed_and_unresolvable_nodes,
                    },
                );
            },
            None => {},
        }
    }
    match reply.nodes {
        Some(list) => {
            let passed = names_of_objects(&list);
            Ok(
                FilterOutcome {
                    passed,
                    replacement_nodes: Some(list),
                    failed: reply.failed_nodes,
                    failed_unresolvable: reply.failed_and_unresolvable_nodes,
                },
            )
        },
        None => Ok(
            FilterOutcome {
                passed: Vec::new(),
                replacement_nodes: None,
                failed: reply.failed_nodes,
                failed_unresolvable: reply.failed_and_unresolvable_nodes,
            },
        ),
    }
}

/// Where an extender that knows the nodes itself names nodes, what passes was
/// sent to it.
pub proof fn nothing_unsent_passes(names: Seq<String>, nodes: Seq<Arc<NodeInfo>>, i: int, k: int)
    requires
        0 <= i <= k < names.len(),
        first_unsent(names, nodes, i) is None,
    ensures
        was_sent(nodes, names[k]@),
    decreases k - i,
{
    if i < k {
        nothing_unsent_passes(names, nodes, i + 1, k);
    }
}

/// An extender's score of a node.
pub struct HostPriority {
    pub host: String,
    pub score: i64,
}

/// A score on the scheduler's scale, weighted.
pub open spec fn scaled_score(score: i64, weight: i64) -> int {
    clamp64(clamp64(score * weight) * (MAX_NODE_SCORE / MAX_EXTENDER_PRIORITY))
}

/// The scores of a reply, on the scheduler's scale.
pub fn scaled_scores(config: &ExtenderConfig, reply: &Vec<HostPriority>) -> (r: Vec<(String, i64)>)
    ensures
        r@.len() == reply@.len(),
        forall|i: int|
            0 <= i < r@.len() ==> (#[trigger] r@[i]).0@ == reply@[i].host@ && r@[i].1
                == scaled_score(reply@[i].score, config.weight),
{
    let mut out: Vec<(String, i64)> = Vec::new();
    let mut i: usize = 0;
    while i < reply.len()
        invariant
            i <= reply@.len(),
            out@.len() == i,
            forall|k: int|
                0 <= k < i ==> (#[trigger] out@[k]).0@ == reply@[k].host@ && out@[k].1
                    == scaled_score(reply@[k].score, config.weight),
        decreases reply@.len() - i,
    {
        let s: i128 = reply[i].score as i128;
        let w: i128 = config.weight as i128;
        assert(-0x8000_0000_0000_0000 * 0x8000_0000_0000_0000 <= s * w <= 0x8000_0000_0000_0000
            * 0x8000_0000_0000_0000) by (nonlinear_arith)
            requires
                -0x8000_0000_0000_0000 <= s <= 0x7fff_ffff_ffff_ffff,
                -0x8000_0000_0000_0000 <= w <= 0x7fff_ffff_ffff_ffff,
        ;
        let product: i64 = narrow(s * w);
        let score: i64 = narrow((product as i128) * 10);
        out.push((reply[i].host.clone(), score));
        i += 1;
    }
    out
}

/// A score within the extender's scale lands within the scheduler's, at weight
/// one.
pub proof fn scale_is_kept(score: i64)
    requires
        0 <= score <= MAX_EXTENDER_PRIORITY,
    ensures
        0 <= scaled_score(score, 1) <= MAX_NODE_SCORE,
{
    assert(score * 1 == score) by (nonlinear_arith);
    assert(MAX_NODE_SCORE / MAX_EXTENDER_PRIORITY == 10);
    assert(clamp64(score * 1) == score);
    assert(clamp64(score * 1) * (MAX_NODE_SCORE / MAX_EXTENDER_PRIORITY) == score * 10);
}

/// Pods to evict from a node, whole.
pub struct WireVictims {
    pub pods: Vec<Arc<Pod>>,
    pub num_pdb_violations: i64,
}

/// Pods to evict from a node, by uid.
pub struct WireMetaVictims {
    pub pods: Vec<String>,
    pub num_pdb_violations: i64,
}

/// What an extender is sent about preemption.
pub struct ExtenderPreemptionArgs {
    pub pod: Arc<Pod>,
    pub node_name_to_victims: Option<StrMap<WireVictims>>,
    pub node_name_to_meta_victims: Option<StrMap<WireMetaVictims>>,
}

/// Pods that an extender would evict from a node, by the scheduler's keys.
pub struct ExtenderVictims {
    pub node: String,
    pub pod_keys: Vec<String>,
    pub pdb_violations: u64,
}

/// The pods of a list with one of the keys.
pub open spec fn keyed(pods: Seq<Arc<PodInfo>>, keys: Seq<String>) -> Seq<Arc<PodInfo>>
    decreases pods.len(),
{
    if pods.len() == 0 {
        Seq::empty()
    } else if has_text(keys, pods.last().key_view()) {
        keyed(pods.drop_last(), keys).push(pods.last())
    } else {
        keyed(pods.drop_last(), keys)
    }
}

fn pods_with_keys(pods: &Vec<Arc<PodInfo>>, keys: &Vec<String>) -> (r: Vec<Arc<PodInfo>>)
    ensures
        r@ == keyed(pods@, keys@),
{
    let mut out: Vec<Arc<PodInfo>> = Vec::new();
    let mut i: usize = 0;
    while i < pods.len()
        invariant
            i <= pods@.len(),
            out@ == keyed(pods@.take(i as int), keys@),
        decreases pods@.len() - i,
    {
        let key = pods[i].key();
        if contains_text(keys, key.as_str()) {
            out.push(pods[i].clone());
        }
        i += 1;
        assert(pods@.take(i as int).drop_last() =~= pods@.take(i - 1));
    }
    assert(pods@.take(i as int) =~= pods@);
    out
}

/// The pods that a candidate would evict.
pub open spec fn evicted(c: Candidate, snapshot: Snapshot) -> Seq<Arc<PodInfo>> {
    match snapshot.node_named(c.node@) {
        Some(n) => keyed(n.pods@, c.victims.pods@),
        None => Seq::empty(),
    }
}

/// A count, where the wire can hold it.
pub open spec fn counts(n: i64, violations: usize) -> bool {
    violations <= i64::MAX ==> n == violations
}

fn wire_count(violations: usize) -> (r: i64)
    ensures
        counts(r, violations),
{
    #[verifier::truncate]
    let r: i64 = violations as i64;
    r
}

pub open spec fn victims_of(v: WireVictims, c: Candidate, snapshot: Snapshot) -> bool {
    let pods = evicted(c, snapshot);
    &&& v.pods@.len() == pods.len()
    &&& forall|i: int| 0 <= i < pods.len() ==> pod_object(#[trigger] v.pods@[i], *pods[i])
    &&& counts(v.num_pdb_violations, c.victims.pdb_violations)
}

pub open spec fn meta_victims_of(v: WireMetaVictims, c: Candidate, snapshot: Snapshot) -> bool {
    let pods = evicted(c, snapshot);
    &&& v.pods@.len() == pods.len()
    &&& forall|i: int| 0 <= i < pods.len() ==> (#[trigger] v.pods@[i])@ == pods[i].uid@
    &&& counts(v.num_pdb_violations, c.victims.pdb_violations)
}

/// The last candidate of a list for a node.
pub open spec fn last_for(c: Seq<Candidate>, node: Seq<char>) -> Option<Candidate>
    decreases c.len(),
{
    if c.len() == 0 {
        None
    } else if c.last().node@ == node {
        Some(c.last())
    } else {
        last_for(c.drop_last(), node)
    }
}

/// A map holds the victims of every candidate.
pub open spec fn holds_victims(m: StrMap<WireVictims>, c: Seq<Candidate>, snapshot: Snapshot) -> bool {
    forall|n: Seq<char>|
        match (#[trigger] m.at(n)) {
            Some(v) => last_for(c, n) is Some && victims_of(v, last_for(c, n)->Some_0, snapshot),
            None => last_for(c, n) is None,
        }
}

pub open spec fn holds_meta_victims(
    m: StrMap<WireMetaVictims>,
    c: Seq<Candidate>,
    snapshot: Snapshot,
) -> bool {
    forall|n: Seq<char>|
        match (#[trigger] m.at(n)) {
            Some(v) => last_for(c, n) is Some && meta_victims_of(
                v,
                last_for(c, n)->Some_0,
                snapshot,
            ),
            None => last_for(c, n) is None,
        }
}

/// The first candidate, from `i` on, whose node is gone.
pub open spec fn first_gone(c: Seq<Candidate>, snapshot: Snapshot, i: int) -> Option<Seq<char>>
    decreases c.len() - i,
{
    if i < 0 || i >= c.len() {
        None
    } else if snapshot.node_named(c[i].node@) is None {
        Some(c[i].node@)
    } else {
        first_gone(c, snapshot, i + 1)
    }
}

fn wire_victims(pods: &Vec<Arc<PodInfo>>, violations: usize) -> (r: WireVictims)
    ensures
        r.pods@.len() == pods@.len(),
        forall|i: int| 0 <= i < pods@.len() ==> pod_object(#[trigger] r.pods@[i], *pods@[i]),
        counts(r.num_pdb_violations, violations),
{
    let mut out: Vec<Arc<Pod>> = Vec::new();
    let mut i: usize = 0;
    while i < pods.len()
        invariant
            i <= pods@.len(),
            out@.len() == i,
            forall|k: int| 0 <= k < i ==> pod_object(#[trigger] out@[k], *pods@[k]),
        decreases pods@.len() - i,
    {
        out.push(pod_to_api(&pods[i]));
        i += 1;
    }
    WireVictims { pods: out, num_pdb_violations: wire_count(violations) }
}

fn wire_meta_victims(pods: &Vec<Arc<PodInfo>>, violations: usize) -> (r: WireMetaVictims)
    ensures
        r.pods@.len() == pods@.len(),
        forall|i: int| 0 <= i < pods@.len() ==> (#[trigger] r.pods@[i])@ == pods@[i].uid@,
        counts(r.num_pdb_violations, violations),
{
    let mut out: Vec<String> = Vec::new();
    let mut i: usize = 0;
    while i < pods.len()
        invariant
            i <= pods@.len(),
            out@.len() == i,
            forall|k: int| 0 <= k < i ==> (#[trigger] out@[k])@ == pods@[k].uid@,
        decreases pods@.len() - i,
    {
        out.push(pods[i].uid.clone());
        i += 1;
    }
    WireMetaVictims { pods: out, num_pdb_violations: wire_count(violations) }
}

/// What is sent to have preemption candidates refined: victims by uid where the
/// extender knows the pods itself, else the pods.
pub fn preemption_args(
    config: &ExtenderConfig,
    pod: &PodInfo,
    candidates: &Vec<Candidate>,
    snapshot: &Snapshot,
) -> (r: Result<ExtenderPreemptionArgs, String>)
    ensures
        match first_gone(candidates@, *snapshot, 0) {
            Some(node) => r is Err && r->Err_0@ == "preemption candidate node "@ + quoted(node)
                + " disappeared from the snapshot"@,
            None => r matches Ok(args) && {
                &&& pod_object(args.pod, *pod)
                &&& if config.node_cache_capable {
                    args.node_name_to_victims is None && args.node_name_to_meta_victims is Some
                        && holds_meta_victims(
                        args.node_name_to_meta_victims->Some_0,
                        candidates@,
                        *snapshot,
                    )
                } else {
                    args.node_name_to_meta_victims is None && args.node_name_to_victims is Some
                        && holds_victims(
                        args.node_name_to_victims->Some_0,
                        candidates@,
                        *snapshot,
                    )
                }
            },
        },
{
    let mut full: StrMap<WireVictims> = StrMap::new();
    let mut meta: StrMap<WireMetaVictims> = StrMap::new();
    let mut i: usize = 0;
    while i < candidates.len()
        invariant
            i <= candidates@.len(),
            first_gone(candidates@, *snapshot, 0) == first_gone(candidates@, *snapshot, i as int),
            if config.node_cache_capable {
                holds_meta_victims(meta, candidates@.take(i as int), *snapshot)
            } else {
                holds_victims(full, candidates@.take(i as int), *snapshot)
            },
        decreases candidates@.len() - i,
    {
        let ghost full0 = full;
        let ghost meta0 = meta;
        let candidate = &candidates[i];
        let node = match snapshot.node(candidate.node.as_str()) {
            Some(n) => n,
            None => {
                let shown = debug_text(candidate.node.as_str());
                let text = joined("preemption candidate node ", shown.as_str());
                return Err(joined(text.as_str(), " disappeared from the snapshot"));
            },
        };
        let pods = pods_with_keys(&node.pods, &candidate.victims.pods);
        assert(pods@ == evicted(*candidate, *snapshot));
        if config.node_cache_capable {
            let v = wire_meta_victims(&pods, candidate.victims.pdb_violations);
            assert(meta_victims_of(v, *candidate, *snapshot));
            meta.insert(candidate.node.clone(), v);
        } else {
            let v = wire_victims(&pods, candidate.victims.pdb_violations);
            assert(victims_of(v, *candidate, *snapshot));
            full.insert(candidate.node.clone(), v);
        }
        i += 1;
        proof {
            let longer = candidates@.take(i as int);
            assert(longer.drop_last() =~= candidates@.take(i - 1));
            if config.node_cache_capable {
                assert forall|n: Seq<char>|
                    match (#[trigger] meta.at(n)) {
                        Some(v) => last_for(longer, n) is Some && meta_victims_of(
                            v,
                            last_for(longer, n)->Some_0,
                            *snapshot,
                        ),
                        None => last_for(longer, n) is None,
                    } by {
                    let was = meta0.at(n);
                }
            } else {
                assert forall|n: Seq<char>|
                    match (#[trigger] full.at(n)) {
                        Some(v) => last_for(longer, n) is Some && victims_of(
                            v,
                            last_for(longer, n)->Some_0,
                            *snapshot,
                        ),
                        None => last_for(longer, n) is None,
                    } by {
                    let was = full0.at(n);
                }
            }
        }
    }
    assert(candidates@.take(i as int) =~= candidates@);
    if config.node_cache_capable {
        Ok(
            ExtenderPreemptionArgs {
                pod: pod_to_api(pod),
                node_name_to_victims: None,
                node_name_to_meta_victims: Some(meta),
            },
        )
    } else {
        Ok(
            ExtenderPreemptionArgs {
                pod: pod_to_api(pod),
                node_name_to_victims: Some(full),
                node_name_to_meta_victims: None,
            },
        )
    }
}

/// The first pod of a list, from `i` on, with a uid.
pub open spec fn uid_at(pods: Seq<Arc<PodInfo>>, uid: Seq<char>, i: int) -> Option<int>
    decreases pods.len() - i,
{
    if i < 0 || i >= pods.len() {
        None
    } else if pods[i].uid@ == uid {
        Some(i)
    } else {
        uid_at(pods, uid, i + 1)
    }
}

/// The key of the first pod of a list with a uid.
pub open spec fn key_of_uid(pods: Seq<Arc<PodInfo>>, uid: Seq<char>) -> Option<Seq<char>> {
    match uid_at(pods, uid, 0) {
        Some(i) => Some(pods[i].key_view()),
        None => None,
    }
}

fn find_uid(pods: &Vec<Arc<PodInfo>>, uid: &str) -> (r: Option<usize>)
    ensures
        match uid_at(pods@, uid@, 0) {
            Some(i) => r is Some && r->Some_0 == i && 0 <= i < pods@.len(),
            None => r is None,
        },
{
    let mut i: usize = 0;
    while i < pods.len()
        invariant
            i <= pods@.len(),
            uid_at(pods@, uid@, 0) == uid_at(pods@, uid@, i as int),
        decreases pods@.len() - i,
    {
        if text_eq(pods[i].uid.as_str(), uid) {
            return Some(i);
        }
        i += 1;
    }
    None
}

/// The first of the uids, from `i` on, of which a list has no pod.
pub open spec fn first_absent(pods: Seq<Arc<PodInfo>>, uids: Seq<String>, i: int) -> Option<
    Seq<char>,
>
    decreases uids.len() - i,
{
    if i < 0 || i >= uids.len() {
        None
    } else if uid_at(pods, uids[i]@, 0) is None {
        Some(uids[i]@)
    } else {
        first_absent(pods, uids, i + 1)
    }
}

/// What is wrong with the victims that an extender names for a node.
pub open spec fn victims_fault(
    url: Seq<char>,
    node: Seq<char>,
    uids: Seq<String>,
    snapshot: Snapshot,
) -> Option<Seq<char>> {
    match snapshot.node_named(node) {
        None => Some(
            "extender "@ + quoted(url) + " returned preemption victims for unknown node "@
                + quoted(node),
        ),
        Some(n) => match first_absent(n.pods@, uids, 0) {
            Some(uid) => Some(
                "extender "@ + quoted(url) + " claims to preempt pod UID "@ + quoted(uid)
                    + " on node "@ + quoted(node) + ", but that pod is not on the node"@,
            ),
            None => None,
        },
    }
}

/// What is wrong with the first entry of a reply, from `i` on, with which
/// something is.
pub open spec fn reply_fault(
    url: Seq<char>,
    reply: Seq<(String, WireMetaVictims)>,
    snapshot: Snapshot,
    i: int,
) -> Option<Seq<char>>
    decreases reply.len() - i,
{
    if i < 0 || i >= reply.len() {
        None
    } else {
        match victims_fault(url, reply[i].0@, reply[i].1.pods@, snapshot) {
            Some(e) => Some(e),
            None => reply_fault(url, reply, snapshot, i + 1),
        }
    }
}

/// Victims are those that an extender named for a node.
pub open spec fn victims_named(
    v: ExtenderVictims,
    entry: (String, WireMetaVictims),
    snapshot: Snapshot,
) -> bool {
    let pods = snapshot.node_named(entry.0@)->Some_0.pods@;
    &&& v.node@ == entry.0@
    &&& v.pod_keys@.len() == entry.1.pods@.len()
    &&& forall|i: int|
        0 <= i < v.pod_keys@.len() ==> Some((#[trigger] v.pod_keys@[i])@) == key_of_uid(
            pods,
            entry.1.pods@[i]@,
        )
    &&& v.pdb_violations == if entry.1.num_pdb_violations > 0 {
        entry.1.num_pdb_violations as int
    } else {
        0
    }
}

fn resolve_entry(
    url: &str,
    entry: &(String, WireMetaVictims),
    snapshot: &Snapshot,
) -> (r: Result<ExtenderVictims, String>)
    ensures
        match victims_fault(url@, entry.0@, entry.1.pods@, *snapshot) {
            Some(e) => r is Err && r->Err_0@ == e,
            None => r is Ok && victims_named(r->Ok_0, *entry, *snapshot),
        },
{
    let node = match snapshot.node(entry.0.as_str()) {
        Some(n) => n,
        None => {
            let shown = debug_text(url);
            let name = debug_text(entry.0.as_str());
            let text = joined("extender ", shown.as_str());
            let text = joined(text.as_str(), " returned preemption victims for unknown node ");
            return Err(joined(text.as_str(), name.as_str()));
        },
    };
    let uids = &entry.1.pods;
    let mut pod_keys: Vec<String> = Vec::new();
    let mut i: usize = 0;
    while i < uids.len()
        invariant
            i <= uids@.len(),
            uids@ == entry.1.pods@,
            snapshot.node_named(entry.0@) == Some(*node),
            pod_keys@.len() == i,
            first_absent(node.pods@, uids@, 0) == first_absent(node.pods@, uids@, i as int),
            forall|k: int|
                0 <= k < i ==> Some((#[trigger] pod_keys@[k])@) == key_of_uid(
                    node.pods@,
                    entry.1.pods@[k]@,
                ),
        decreases uids@.len() - i,
    {
        match find_uid(&node.pods, uids[i].as_str()) {
            Some(at) => {
                pod_keys.push(node.pods[at].key());
            },
            None => {
                let shown = debug_text(url);
                let uid = debug_text(uids[i].as_str());
                let name = debug_text(entry.0.as_str());
                let text = joined("extender ", shown.as_str());
                let text = joined(text.as_str(), " claims to preempt pod UID ");
                let text = joined(text.as_str(), uid.as_str());
                let text = joined(text.as_str(), " on node ");
                let text = joined(text.as_str(), name.as_str());
                return Err(joined(text.as_str(), ", but that pod is not on the node"));
            },
        }
        i += 1;
    }
    let n: i64 = entry.1.num_pdb_violations;
    Ok(
        ExtenderVictims {
            node: entry.0.clone(),
            pod_keys,
            pdb_violations: if n > 0 {
                n as u64
            } else {
                0
            },
        },
    )
}

/// The victims that an extender named, by the scheduler's keys.
pub fn resolve_victims(
    config: &ExtenderConfig,
    reply: &StrMap<WireMetaVictims>,
    snapshot: &Snapshot,
) -> (r: Result<Vec<ExtenderVictims>, String>)
    ensures
        match reply_fault(config.url_prefix@, reply.entries@, *snapshot, 0) {
            Some(e) => r is Err && r->Err_0@ == e,
            None => r is Ok && r->Ok_0@.len() == reply.entries@.len() && forall|i: int|
                0 <= i < reply.entries@.len() ==> victims_named(
                    #[trigger] r->Ok_0@[i],
                    reply.entries@[i],
                    *snapshot,
                ),
        },
{
    let entries = &reply.entries;
    let mut out: Vec<ExtenderVictims> = Vec::new();
    let mut i: usize = 0;
    while i < entries.len()
        invariant
            i <= entries@.len(),
            entries@ == reply.entries@,
            out@.len() == i,
            reply_fault(config.url_prefix@, entries@, *snapshot, 0) == reply_fault(
                config.url_prefix@,
                entries@,
                *snapshot,
                i as int,
            ),
            forall|k: int|
                0 <= k < i ==> victims_named(#[trigger] out@[k], entries@[k], *snapshot),
        decreases entries@.len() - i,
    {
        match resolve_entry(config.url_prefix.as_str(), &entries[i], snapshot) {
            Ok(v) => {
                out.push(v);
            },
            Err(e) => {
                return Err(e);
            },
        }
        i += 1;
    }
    Ok(out)
}

/// What an extender is sent to bind a pod.
pub struct ExtenderBindingArgs {
    pub pod_name: String,
    pub pod_namespace: String,
    pub pod_uid: String,
    pub node: String,
}

pub fn binding_args(pod: &PodInfo, node: &str) -> (r: ExtenderBindingArgs)
    ensures
        r.pod_name@ == pod.name@,
        r.pod_namespace@ == pod.namespace@,
        r.pod_uid@ == pod.uid@,
        r.node@ == node@,
{
    ExtenderBindingArgs {
        pod_name: pod.name.clone(),
        pod_namespace: pod.namespace.clone(),
        pod_uid: pod.uid.clone(),
        node: node.to_owned(),
    }
}

/// What a reply about a binding means: an error in it is one.
pub fn binding_outcome(config: &ExtenderConfig, error: &str) -> (r: Result<(), String>)
    ensures
        if error@ == ""@ {
            r is Ok
        } else {
            r is Err && r->Err_0@ == "extender "@ + quoted(config.url_prefix@) + " bind error: "@
                + error@
        },
{
    if text_eq(error, "") {
        return Ok(());
    }
    let shown = debug_text(config.url_prefix.as_str());
    let text = joined("extender ", shown.as_str());
    let text = joined(text.as_str(), " bind error: ");
    Err(joined(text.as_str(), error))
}

/// A text without the slashes at its end.
pub open spec fn without_slashes(s: Seq<char>) -> Seq<char>
    decreases s.len(),
{
    if s.len() > 0 && s.last() == '/' {
        without_slashes(s.drop_last())
    } else {
        s
    }
}

/// Where a verb is posted.
pub fn request_url(prefix: &str, verb: &str) -> (r: String)
    ensures
        r@ == without_slashes(prefix@) + "/"@ + verb@,
{
    let chars = chars_of(prefix);
    let mut n: usize = chars.len();
    assert(chars@.take(n as int) =~= chars@);
    while n > 0 && chars[n - 1] == '/'
        invariant
            n <= chars@.len(),
            without_slashes(chars@) == without_slashes(chars@.take(n as int)),
        ensures
            n == 0 || chars@[n - 1] != '/',
        decreases n,
    {
        assert(chars@.take(n as int).drop_last() =~= chars@.take(n - 1));
        n -= 1;
    }
    let base = string_of(&chars, 0, n);
    proof {
        assert(base@ =~= chars@.take(n as int));
        if n > 0 {
            assert(chars@.take(n as int).last() == chars@[n - 1]);
        }
    }
    let head = joined(base.as_str(), "/");
    joined(head.as_str(), verb)
}

/// Whether a reply counts: with status 200 and no other.
pub fn accept_status(url: &str, code: u16, shown: &str) -> (r: Result<(), String>)
    ensures
        if code == 200 {
            r is Ok
        } else {
            r is Err && r->Err_0@ == "extender "@ + quoted(url@) + " returned HTTP "@ + shown@
        },
{
    if code == 200 {
        return Ok(());
    }
    let name = debug_text(url);
    let text = joined("extender ", name.as_str());
    let text = joined(text.as_str(), " returned HTTP ");
    Err(joined(text.as_str(), shown))
}

/// Host, port as written, and port or that of the scheme, of a URL; or what is
/// wrong with it.
pub uninterp spec fn url_read(s: Seq<char>) -> Result<
    (Option<Seq<char>>, Option<u16>, Option<u16>),
    Seq<char>,
>;

/// What a URL says of its endpoint.
pub struct UrlParts {
    pub host: Option<String>,
    pub port: Option<u16>,
    pub known_port: Option<u16>,
}

pub open spec fn option_view(t: Option<String>) -> Option<Seq<char>> {
    match t {
        Some(s) => Some(s@),
        None => None,
    }
}

/// `reqwest::Url::parse`, `host_str`, `port` and `port_or_known_default`: what
/// a URL says of its endpoint, or the parser's message.
#[verifier::external_body]
fn read_url(s: &str) -> (r: Result<UrlParts, String>)
    ensures
        match url_read(s@) {
            Ok((host, port, known)) => r is Ok && option_view(r->Ok_0.host) == host && r->Ok_0.port
                == port && r->Ok_0.known_port == known,
            Err(e) => r is Err && r->Err_0@ == e,
        },
{
    let url = reqwest::Url::parse(s).map_err(|e| e.to_string())?;
    Ok(UrlParts {
        host: url.host_str().map(|h| h.to_string()),
        port: url.port(),
        known_port: url.port_or_known_default(),
    })
}

/// A URL with another host; none where the URL or the host is not valid.
pub uninterp spec fn url_with_host(s: Seq<char>, host: Seq<char>) -> Option<Seq<char>>;

/// `reqwest::Url::set_host`: the URL with another host, and all else the same.
#[verifier::external_body]
fn replace_host(s: &str, host: &str) -> (r: Option<String>)
    ensures
        option_view(r) == url_with_host(s@, host@),
{
    let mut url = reqwest::Url::parse(s).ok()?;
    url.set_host(Some(host)).ok()?;
    Some(url.to_string())
}

/// Where an extender listens.
#[derive(Debug)]
pub struct Endpoint {
    pub host: String,
    pub port: u16,
    /// The port, where the URL has one.
    pub explicit_port: Option<u16>,
}

/// What is wrong with a URL's endpoint.
pub open spec fn endpoint_fault(
    url: Seq<char>,
    parts: Result<(Option<Seq<char>>, Option<u16>, Option<u16>), Seq<char>>,
) -> Option<Seq<char>> {
    match parts {
        Err(e) => Some("parsing extender urlPrefix "@ + quoted(url) + ": "@ + e),
        Ok((host, port, known)) => if host is None {
            Some("extender urlPrefix "@ + quoted(url) + " has no host"@)
        } else if known is None {
            Some(
                "extender urlPrefix "@ + quoted(url)
                    + " has no port and its scheme has no default"@,
            )
        } else {
            None
        },
    }
}

pub open spec fn parts_view(parts: Result<UrlParts, String>) -> Result<
    (Option<Seq<char>>, Option<u16>, Option<u16>),
    Seq<char>,
> {
    match parts {
        Ok(p) => Ok((option_view(p.host), p.port, p.known_port)),
        Err(e) => Err(e@),
    }
}

/// The endpoint that the parts of a URL give.
pub fn endpoint_of(url: &str, parts: Result<UrlParts, String>) -> (r: Result<Endpoint, String>)
    ensures
        match endpoint_fault(url@, parts_view(parts)) {
            Some(e) => r is Err && r->Err_0@ == e,
            None => r is Ok && Some(r->Ok_0.host@) == option_view(parts->Ok_0.host) && Some(
                r->Ok_0.port,
            ) == parts->Ok_0.known_port && r->Ok_0.explicit_port == parts->Ok_0.port,
        },
{
    let shown = debug_text(url);
    match parts {
        Err(e) => {
            let text = joined("parsing extender urlPrefix ", shown.as_str());
            let text = joined(text.as_str(), ": ");
            Err(joined(text.as_str(), e.as_str()))
        },
        Ok(p) => match p.host {
            None => {
                let text = joined("extender urlPrefix ", shown.as_str());
                Err(joined(text.as_str(), " has no host"))
            },
            Some(host) => match p.known_port {
                None => {
                    let text = joined("extender urlPrefix ", shown.as_str());
                    Err(joined(text.as_str(), " has no port and its scheme has no default"))
                },
                Some(port) => Ok(Endpoint { host, port, explicit_port: p.port }),
            },
        },
    }
}

/// Where a URL prefix points.
pub fn endpoint(url: &str) -> (r: Result<Endpoint, String>)
    ensures
        match endpoint_fault(url@, url_read(url@)) {
            Some(e) => r is Err && r->Err_0@ == e,
            None => r is Ok && Some(r->Ok_0.host@) == url_read(url@)->Ok_0.0 && Some(r->Ok_0.port)
                == url_read(url@)->Ok_0.2 && r->Ok_0.explicit_port == url_read(url@)->Ok_0.1,
        },
{
    let parts = read_url(url);
    endpoint_of(url, parts)
}

/// The `Host` header that keeps pointing at an endpoint: an IPv6 address in
/// brackets, and the port where the URL has one.
pub fn host_header(endpoint: &Endpoint, ipv6: bool) -> (r: String)
    ensures
        r@ == header_of(*endpoint, ipv6),
{
    let host = if ipv6 {
        let open = joined("[", endpoint.host.as_str());
        joined(open.as_str(), "]")
    } else {
        endpoint.host.clone()
    };
    match endpoint.explicit_port {
        Some(p) => {
            let port = decimal_text(p as u64);
            let text = joined(host.as_str(), ":");
            let r = joined(text.as_str(), port.as_str());
            assert(r@ =~= host@ + (":"@ + decimal(p as nat)));
            r
        },
        None => {
            proof {
                reveal_strlit("");
                assert(host@ + ""@ =~= host@);
            }
            host
        },
    }
}

/// What the answer of replacing the host means.
pub fn rewritten(server_name: &str, url: Option<String>) -> (r: Result<String, String>)
    ensures
        match url {
            Some(u) => r == Ok::<String, String>(u),
            None => r is Err && r->Err_0@ == "invalid extender tlsConfig.serverName "@ + quoted(
                server_name@,
            ),
        },
{
    match url {
        Some(u) => Ok(u),
        None => {
            let shown = debug_text(server_name);
            Err(joined("invalid extender tlsConfig.serverName ", shown.as_str()))
        },
    }
}

/// The prefix to send requests to, so that the server is verified by its name.
pub fn request_prefix(url: &str, server_name: &str) -> (r: Result<String, String>)
    ensures
        match url_with_host(url@, server_name@) {
            Some(u) => r is Ok && r->Ok_0@ == u,
            None => r is Err && r->Err_0@ == "invalid extender tlsConfig.serverName "@ + quoted(
                server_name@,
            ),
        },
{
    let url = replace_host(url, server_name);
    rewritten(server_name, url)
}

/// Data that is there and not empty.
pub open spec fn has_data(d: Option<Vec<u8>>) -> bool {
    d is Some && d->Some_0@.len() > 0
}

/// Where PEM data comes from: from the configuration, else from a file.
pub enum PemSource<'a> {
    Data(&'a Vec<u8>),
    File(&'a String),
    Absent,
}

pub fn pem_source<'a>(data: &'a Option<Vec<u8>>, file: &'a String) -> (r: PemSource<'a>)
    ensures
        if has_data(*data) {
            r == PemSource::Data(&data->Some_0)
        } else if file@ != ""@ {
            r == PemSource::File(file)
        } else {
            r is Absent
        },
{
    match data {
        Some(d) => {
            if d.len() > 0 {
                return PemSource::Data(d);
            }
        },
        None => {},
    }
    if !text_eq(file.as_str(), "") {
        PemSource::File(file)
    } else {
        PemSource::Absent
    }
}

/// Whether an extender's server can be verified: over HTTPS either an authority
/// is configured or verification is waived.
pub fn check_https(config: &ExtenderConfig) -> (r: Result<(), String>)
    ensures
        match config.tls_config {
            Some(tls) => if config.enable_https && !has_data(tls.ca_data) && tls.ca_file@ == ""@
                && !tls.insecure {
                r is Err && r->Err_0@ == "HTTPS extender "@ + quoted(config.url_prefix@)
                    + " requires tlsConfig.caData/caFile or tlsConfig.insecure=true"@
            } else {
                r is Ok
            },
            None => r is Ok,
        },
{
    match &config.tls_config {
        Some(tls) => {
            let has_ca = match pem_source(&tls.ca_data, &tls.ca_file) {
                PemSource::Absent => false,
                _ => true,
            };
            if config.enable_https && !has_ca && !tls.insecure {
                let shown = debug_text(config.url_prefix.as_str());
                let text = joined("HTTPS extender ", shown.as_str());
                return Err(
                    joined(
                        text.as_str(),
                        " requires tlsConfig.caData/caFile or tlsConfig.insecure=true",
                    ),
                );
            }
            Ok(())
        },
        None => Ok(()),
    }
}

/// How requests reach an extender.
pub struct Route {
    pub request_url_prefix: String,
    /// The `Host` header to send, where the prefix does not name the endpoint.
    pub host_header: Option<String>,
}

/// What to do first to reach an extender.
pub enum RouteStep {
    /// The prefix is used as it is.
    Direct(Route),
    /// The server goes by another name: look up the addresses of its endpoint.
    Resolve(Endpoint),
    Fail(String),
}

/// The name that the server is verified by, where one is configured.
pub open spec fn server_name(config: ExtenderConfig) -> Option<Seq<char>> {
    match config.tls_config {
        Some(tls) => if tls.server_name@ == ""@ {
            None
        } else {
            Some(tls.server_name@)
        },
        None => None,
    }
}

/// What to do first to reach an extender.
pub fn first_route_step(config: &ExtenderConfig) -> (r: RouteStep)
    ensures
        match server_name(*config) {
            None => r matches RouteStep::Direct(route) && route.request_url_prefix@
                == config.url_prefix@ && route.host_header is None,
            Some(_) => match endpoint_fault(config.url_prefix@, url_read(config.url_prefix@)) {
                Some(e) => r matches RouteStep::Fail(why) && why@ == e,
                None => r matches RouteStep::Resolve(at) && Some(at.host@) == url_read(
                    config.url_prefix@,
                )->Ok_0.0 && Some(at.port) == url_read(config.url_prefix@)->Ok_0.2
                    && at.explicit_port == url_read(config.url_prefix@)->Ok_0.1,
            },
        },
{
    let named = match &config.tls_config {
        Some(tls) => !text_eq(tls.server_name.as_str(), ""),
        None => false,
    };
    if !named {
        return RouteStep::Direct(
            Route { request_url_prefix: config.url_prefix.clone(), host_header: None },
        );
    }
    match endpoint(config.url_prefix.as_str()) {
        Ok(at) => RouteStep::Resolve(at),
        Err(e) => RouteStep::Fail(e),
    }
}

/// An endpoint as messages show it.
pub open spec fn shown_endpoint(at: Endpoint) -> Seq<char> {
    quoted(at.host@) + ":"@ + decimal(at.port as nat)
}

fn show_endpoint(at: &Endpoint) -> (r: String)
    ensures
        r@ == shown_endpoint(*at),
{
    let host = debug_text(at.host.as_str());
    let port = decimal_text(at.port as u64);
    let text = joined(host.as_str(), ":");
    joined(text.as_str(), port.as_str())
}

/// What is wrong with a lookup: that it failed, or that it found nothing.
pub open spec fn lookup_fault(at: Endpoint, found: Result<usize, String>) -> Option<Seq<char>> {
    match found {
        Err(e) => Some("resolving extender endpoint "@ + shown_endpoint(at) + ": "@ + e@),
        Ok(n) => if n == 0 {
            Some("extender endpoint "@ + shown_endpoint(at) + " resolved to no addresses"@)
        } else {
            None
        },
    }
}

/// The `Host` header of an endpoint.
pub open spec fn header_of(at: Endpoint, ipv6: bool) -> Seq<char> {
    (if ipv6 {
        "["@ + at.host@ + "]"@
    } else {
        at.host@
    }) + (match at.explicit_port {
        Some(p) => ":"@ + decimal(p as nat),
        None => ""@,
    })
}

/// The way to an extender whose server goes by another name, once the addresses
/// of its endpoint were looked up: how many were found, or why none. Requests
/// name the server, and the header the endpoint.
pub fn resolved_route(
    config: &ExtenderConfig,
    name: &str,
    at: &Endpoint,
    ipv6: bool,
    found: &Result<usize, String>,
) -> (r: Result<Route, String>)
    ensures
        match lookup_fault(*at, *found) {
            Some(e) => r is Err && r->Err_0@ == e,
            None => match url_with_host(config.url_prefix@, name@) {
                None => r is Err && r->Err_0@ == "invalid extender tlsConfig.serverName "@ + quoted(
                    name@,
                ),
                Some(url) => r is Ok && r->Ok_0.request_url_prefix@ == url && holds_text(
                    r->Ok_0.host_header,
                    header_of(*at, ipv6),
                ),
            },
        },
{
    match found {
        Err(e) => {
            let shown = show_endpoint(at);
            let text = joined("resolving extender endpoint ", shown.as_str());
            let text = joined(text.as_str(), ": ");
            return Err(joined(text.as_str(), e.as_str()));
        },
        Ok(n) => {
            if *n == 0 {
                let shown = show_endpoint(at);
                let text = joined("extender endpoint ", shown.as_str());
                return Err(joined(text.as_str(), " resolved to no addresses"));
            }
        },
    }
    match request_prefix(config.url_prefix.as_str(), name) {
        Ok(url) => Ok(
            Route { request_url_prefix: url, host_header: Some(host_header(at, ipv6)) },
        ),
        Err(e) => Err(e),
    }
}

/// What a connection is secured with.
pub struct Trust<'a> {
    /// The server is not verified.
    pub insecure: bool,
    pub authority: PemSource<'a>,
    pub certificate: PemSource<'a>,
    pub key: PemSource<'a>,
}

/// Where PEM data comes from.
pub open spec fn source_of(r: PemSource, data: Option<Vec<u8>>, file: String) -> bool {
    if has_data(data) {
        r matches PemSource::Data(d) && *d == data->Some_0
    } else if file@ != ""@ {
        r matches PemSource::File(f) && *f == file
    } else {
        r is Absent
    }
}

/// What a connection is secured with; nothing where no TLS is configured.
pub fn trust<'a>(config: &'a ExtenderConfig) -> (r: Result<Option<Trust<'a>>, String>)
    ensures
        match config.tls_config {
            None => r matches Ok(t) && t is None,
            Some(tls) => if config.enable_https && !has_data(tls.ca_data) && tls.ca_file@ == ""@
                && !tls.insecure {
                r is Err && r->Err_0@ == "HTTPS extender "@ + quoted(config.url_prefix@)
                    + " requires tlsConfig.caData/caFile or tlsConfig.insecure=true"@
            } else {
                r matches Ok(Some(t)) && t.insecure == tls.insecure && source_of(
                    t.authority,
                    tls.ca_data,
                    tls.ca_file,
                ) && source_of(t.certificate, tls.cert_data, tls.cert_file) && source_of(
                    t.key,
                    tls.key_data,
                    tls.key_file,
                )
            },
        },
{
    match check_https(config) {
        Ok(()) => {},
        Err(e) => {
            return Err(e);
        },
    }
    match &config.tls_config {
        None => Ok(None),
        Some(tls) => Ok(
            Some(
                Trust {
                    insecure: tls.insecure,
                    authority: pem_source(&tls.ca_data, &tls.ca_file),
                    certificate: pem_source(&tls.cert_data, &tls.cert_file),
                    key: pem_source(&tls.key_data, &tls.key_file),
                },
            ),
        ),
    }
}

/// The client's certificate and key in one: both or neither.
pub fn client_identity(cert: Option<Vec<u8>>, key: Option<Vec<u8>>) -> (r: Result<
    Option<Vec<u8>>,
    String,
>)
    ensures
        match (cert, key) {
            (Some(c), Some(k)) => r matches Ok(Some(both)) && both@ == c@ + seq![10u8] + k@,
            (None, None) => r == Ok::<Option<Vec<u8>>, String>(None),
            _ => r is Err && r->Err_0@
                == "extender TLS client authentication requires both certificate and key"@,
        },
{
    match (cert, key) {
        (Some(c), Some(k)) => {
            let mut both: Vec<u8> = c;
            let mut tail: Vec<u8> = k;
            both.push(10u8);
            both.append(&mut tail);
            assert(both@ =~= c@ + seq![10u8] + k@);
            Ok(Some(both))
        },
        (None, None) => Ok(None),
        _ => Err(
            "extender TLS client authentication requires both certificate and key".to_owned(),
        ),
    }
}

/// Every extender that binds counts once, wherever it stands.
pub proof fn every_binder_counts(raws: Seq<RawExtenderConfig>, i: int)
    requires
        0 <= i < raws.len(),
    ensures
        binders(raws) == binders(raws.remove(i)) + if (raws[i].bind_verb matches Some(v) && v@
            != ""@) {
            1nat
        } else {
            0nat
        },
    decreases raws.len(),
{
    let t = raws.drop_last();
    if i == raws.len() - 1 {
        assert(raws.remove(i) =~= t);
    } else {
        every_binder_counts(t, i);
        assert(raws.remove(i).drop_last() =~= t.remove(i));
        assert(raws.remove(i).last() == raws.last());
    }
}

proof fn no_first_error(raws: Seq<RawExtenderConfig>, n: int)
    requires
        0 <= n,
    ensures
        first_error(raws, n) is None <==> forall|i: int|
            0 <= i < n ==> #[trigger] config_error(raws, i) is None,
    decreases n,
{
    if n > 0 {
        no_first_error(raws, n - 1);
        if first_error(raws, n - 1) is Some {
            let i = choose|i: int| 0 <= i < n - 1 && #[trigger] config_error(raws, i) is Some;
            assert(0 <= i < n && config_error(raws, i) is Some);
        } else if config_error(raws, n - 1) is Some {
            assert(0 <= n - 1 < n);
        }
    }
}

/// TLS data that can be read, where there is any.
pub open spec fn readable(t: Option<String>) -> bool {
    t matches Some(s) ==> base64_read(compact(s@)) is Ok
}

/// In a sound list every extender, wherever it stands, has a verb, has a
/// positive weight where it scores, a timeout that can be read and TLS data that
/// can be read; and no two of them bind.
pub proof fn sound_lists_are_sound_throughout(raws: Seq<RawExtenderConfig>, i: int)
    requires
        configs_error(raws) is None,
        0 <= i < raws.len(),
    ensures
        verb_set(raws[i].filter_verb) || verb_set(raws[i].prioritize_verb) || verb_set(
            raws[i].preempt_verb,
        ) || verb_set(raws[i].bind_verb),
        verb_set(raws[i].prioritize_verb) ==> raws[i].weight > 0,
        raws[i].http_timeout matches Some(t) ==> t.nanos is Ok,
        raws[i].tls_config matches Some(tls) ==> readable(tls.cert_data) && readable(tls.key_data)
            && readable(tls.ca_data),
        forall|j: int|
            0 <= j < raws.len() && j != i && verb_set((#[trigger] raws[j]).bind_verb) ==> !verb_set(
                raws[i].bind_verb,
            ),
{
    no_first_error(raws, raws.len() as int);
    assert(config_error(raws, i) is None);
    assert forall|j: int|
        0 <= j < raws.len() && j != i && verb_set((#[trigger] raws[j]).bind_verb) implies !verb_set(
        raws[i].bind_verb,
    ) by {
        if verb_set(raws[i].bind_verb) {
            every_binder_counts(raws, i);
            let rest = raws.remove(i);
            let k = if j < i { j } else { j - 1 };
            assert(rest[k] == raws[j]);
            every_binder_counts(rest, k);
        }
    }
}

/// White space does not count, wherever it stands, and all else does.
pub proof fn spaces_do_not_count(s: Seq<char>, i: int)
    requires
        0 <= i < s.len(),
    ensures
        ascii_space(s[i]) ==> compact(s) == compact(s.remove(i)),
        !ascii_space(s[i]) ==> compact(s).contains(s[i]) && compact(s).len() == compact(
            s.remove(i),
        ).len() + 1,
        (forall|k: int| 0 <= k < s.len() ==> !ascii_space(#[trigger] s[k])) ==> compact(s) == s,
    decreases s.len(),
{
    let t = s.drop_last();
    let last = s.len() - 1;
    if i == last {
        assert(s.remove(i) =~= t);
        if !ascii_space(s[i]) {
            assert(compact(s)[compact(s).len() - 1] == s[i]);
        }
    } else {
        spaces_do_not_count(t, i);
        assert(s.remove(i).drop_last() =~= t.remove(i));
        assert(s.remove(i).last() == s.last());
        assert(t[i] == s[i]);
        if !ascii_space(s[i]) {
            let k = choose|k: int| 0 <= k < compact(t).len() && compact(t)[k] == s[i];
            assert(compact(s)[k] == s[i]);
        }
    }
    if forall|k: int| 0 <= k < s.len() ==> !ascii_space(#[trigger] s[k]) {
        if t.len() > 0 {
            assert forall|k: int| 0 <= k < t.len() implies !ascii_space(#[trigger] t[k]) by {
                assert(s[k] == t[k]);
            }
            spaces_do_not_count(t, 0);
        } else {
            assert(compact(t) =~= t);
        }
        assert(!ascii_space(s[last]));
        assert(s =~= t.push(s.last()));
    }
}

/// The pods that a candidate would evict are exactly those of its node with one
/// of its keys.
pub proof fn keyed_pods_are_listed(pods: Seq<Arc<PodInfo>>, keys: Seq<String>, p: Arc<PodInfo>)
    ensures
        keyed(pods, keys).contains(p) <==> pods.contains(p) && exists|k: int|
            0 <= k < keys.len() && (#[trigger] keys[k])@ == p.key_view(),
    decreases pods.len(),
{
    if pods.len() > 0 {
        let t = pods.drop_last();
        keyed_pods_are_listed(t, keys, p);
        let all = keyed(pods, keys);
        let rest = keyed(t, keys);
        if rest.contains(p) {
            let k = choose|k: int| 0 <= k < rest.len() && rest[k] == p;
            assert(all[k] == p);
        }
        if t.contains(p) {
            let k = choose|k: int| 0 <= k < t.len() && t[k] == p;
            assert(pods[k] == p);
        }
        if pods.last() == p {
            assert(pods[pods.len() - 1] == p);
            if has_text(keys, p.key_view()) {
                assert(all[all.len() - 1] == p);
            }
        }
        if all.contains(p) && !rest.contains(p) {
            let k = choose|k: int| 0 <= k < all.len() && all[k] == p;
            if k < rest.len() {
                assert(rest[k] == p);
            }
        }
        if pods.contains(p) && pods.last() != p {
            let k = choose|k: int| 0 <= k < pods.len() && pods[k] == p;
            assert(t[k] == p);
        }
    }
}

proof fn uid_found(pods: Seq<Arc<PodInfo>>, uid: Seq<char>, i: int)
    requires
        0 <= i <= pods.len(),
    ensures
        match uid_at(pods, uid, i) {
            Some(k) => i <= k < pods.len() && pods[k].uid@ == uid,
            None => forall|k: int| i <= k < pods.len() ==> (#[trigger] pods[k]).uid@ != uid,
        },
    decreases pods.len() - i,
{
    if i < pods.len() && pods[i].uid@ != uid {
        uid_found(pods, uid, i + 1);
    }
}

proof fn none_absent(pods: Seq<Arc<PodInfo>>, uids: Seq<String>, i: int)
    requires
        0 <= i <= uids.len(),
    ensures
        first_absent(pods, uids, i) is None <==> forall|k: int|
            i <= k < uids.len() ==> uid_at(pods, (#[trigger] uids[k])@, 0) is Some,
    decreases uids.len() - i,
{
    if i < uids.len() {
        none_absent(pods, uids, i + 1);
    }
}

proof fn no_reply_fault(
    url: Seq<char>,
    reply: Seq<(String, WireMetaVictims)>,
    snapshot: Snapshot,
    i: int,
)
    requires
        0 <= i <= reply.len(),
    ensures
        reply_fault(url, reply, snapshot, i) is None <==> forall|k: int|
            i <= k < reply.len() ==> victims_fault(
                url,
                (#[trigger] reply[k]).0@,
                reply[k].1.pods@,
                snapshot,
            ) is None,
    decreases reply.len() - i,
{
    if i < reply.len() {
        no_reply_fault(url, reply, snapshot, i + 1);
    }
}

/// A reply about victims is taken exactly where every node in it is known and
/// every pod that it names for a node is on that node.
pub proof fn victims_are_on_their_nodes(
    url: Seq<char>,
    reply: Seq<(String, WireMetaVictims)>,
    snapshot: Snapshot,
)
    ensures
        reply_fault(url, reply, snapshot, 0) is None <==> forall|e: int, u: int|
            0 <= e < reply.len() ==> snapshot.node_named((#[trigger] reply[e]).0@) is Some && (0
                <= u < reply[e].1.pods@.len() ==> exists|p: int|
                0 <= p < snapshot.node_named(reply[e].0@)->Some_0.pods@.len() && (
                #[trigger] snapshot.node_named(reply[e].0@)->Some_0.pods@[p]).uid@ == (
                #[trigger] reply[e].1.pods@[u])@),
{
    no_reply_fault(url, reply, snapshot, 0);
    assert forall|e: int| 0 <= e < reply.len() implies (victims_fault(
        url,
        (#[trigger] reply[e]).0@,
        reply[e].1.pods@,
        snapshot,
    ) is None <==> snapshot.node_named(reply[e].0@) is Some && forall|u: int|
        0 <= u < reply[e].1.pods@.len() ==> exists|p: int|
            0 <= p < snapshot.node_named(reply[e].0@)->Some_0.pods@.len() && (
            #[trigger] snapshot.node_named(reply[e].0@)->Some_0.pods@[p]).uid@ == (
            #[trigger] reply[e].1.pods@[u])@) by {
        if let Some(n) = snapshot.node_named(reply[e].0@) {
            let pods = n.pods@;
            let uids = reply[e].1.pods@;
            none_absent(pods, uids, 0);
            assert forall|u: int| 0 <= u < uids.len() implies (uid_at(
                pods,
                (#[trigger] uids[u])@,
                0,
            ) is Some <==> exists|p: int|
                0 <= p < pods.len() && (#[trigger] pods[p]).uid@ == uids[u]@) by {
                uid_found(pods, uids[u]@, 0);
            }
        }
    }
}

/// A score counts by its weight, ten to one, as long as that is in range.
pub proof fn scores_are_weighted(score: i64, weight: i64)
    requires
        i64::MIN <= score * weight * 10 <= i64::MAX,
    ensures
        scaled_score(score, weight) == score * weight * 10,
{
    let n = score * weight;
    assert(i64::MIN <= n <= i64::MAX);
    assert(clamp64(n) == n);
    assert(MAX_NODE_SCORE / MAX_EXTENDER_PRIORITY == 10);
}

/// The slashes at the end of a text go, and nothing else.
pub proof fn only_slashes_go(s: Seq<char>)
    ensures
        without_slashes(s).len() <= s.len(),
        without_slashes(s) == s.take(without_slashes(s).len() as int),
        forall|i: int| without_slashes(s).len() <= i < s.len() ==> #[trigger] s[i] == '/',
        without_slashes(s).len() > 0 ==> without_slashes(s).last() != '/',
    decreases s.len(),
{
    if s.len() > 0 && s.last() == '/' {
        let t = s.drop_last();
        only_slashes_go(t);
        let n = without_slashes(s).len() as int;
        assert(t.take(n) =~= s.take(n));
        assert forall|i: int| n <= i < s.len() implies #[trigger] s[i] == '/' by {
            if i < t.len() {
                assert(t[i] == '/');
            }
        }
    } else {
        assert(s.take(s.len() as int) =~= s);
    }
}

proof fn run_bounds(s: Seq<char>, i: int, wanted: bool)
    requires
        0 <= i <= s.len(),
    ensures
        i <= run_end(s, i, wanted) <= s.len(),
        forall|k: int| i <= k < run_end(s, i, wanted) ==> numeric(#[trigger] s[k]) == wanted,
        run_end(s, i, wanted) < s.len() ==> numeric(s[run_end(s, i, wanted)]) != wanted,
    decreases s.len() - i,
{
    if i < s.len() && numeric(s[i]) == wanted {
        run_bounds(s, i + 1, wanted);
    }
}

/// The parts of a list of numbers and units, joined.
pub open spec fn joined_parts(p: Seq<(Seq<char>, Seq<char>)>) -> Seq<char>
    decreases p.len(),
{
    if p.len() == 0 {
        Seq::empty()
    } else {
        p[0].0 + p[0].1 + joined_parts(p.skip(1))
    }
}

/// The parts of a duration, joined, are the duration. No number holds anything
/// but digits and points, and no unit any of them.
pub proof fn parts_make_up_the_duration(s: Seq<char>, i: int)
    requires
        0 <= i <= s.len(),
    ensures
        joined_parts(parts_from(s, i)) == s.skip(i),
        forall|p: int, k: int|
            0 <= p < parts_from(s, i).len() && 0 <= k < parts_from(s, i)[p].0.len() ==> numeric(
                #[trigger] parts_from(s, i)[p].0[k],
            ),
        forall|p: int, k: int|
            0 <= p < parts_from(s, i).len() && 0 <= k < parts_from(s, i)[p].1.len() ==> !numeric(
                #[trigger] parts_from(s, i)[p].1[k],
            ),
    decreases s.len() - i,
{
    let all = parts_from(s, i);
    if i < s.len() {
        let mid = run_end(s, i, true);
        run_bounds(s, i, true);
        let end = run_end(s, mid, false);
        run_bounds(s, mid, false);
        assert(end > i);
        parts_make_up_the_duration(s, end);
        let rest = parts_from(s, end);
        assert(all[0] == (s.subrange(i, mid), s.subrange(mid, end)));
        assert(all.skip(1) =~= rest);
        assert(s.subrange(i, mid) + s.subrange(mid, end) + s.skip(end) =~= s.skip(i));
        assert forall|p: int, k: int| 0 <= p < all.len() && 0 <= k < all[p].0.len() implies numeric(
            #[trigger] all[p].0[k],
        ) by {
            if p > 0 {
                assert(all[p] == rest[p - 1]);
                assert(numeric(rest[p - 1].0[k]));
            }
        }
        assert forall|p: int, k: int| 0 <= p < all.len() && 0 <= k
            < all[p].1.len() implies !numeric(#[trigger] all[p].1[k]) by {
            if p > 0 {
                assert(all[p] == rest[p - 1]);
                assert(!numeric(rest[p - 1].1[k]));
            }
        }
    } else {
        assert(s.skip(i) =~= Seq::empty());
    }
}

/// A managed resource is left to the extender exactly where it says so.
pub proof fn ignored_resources_are_marked(m: Seq<RawManagedResource>, name: Seq<char>)
    ensures
        ignored_names(m).contains(name) <==> exists|i: int|
            0 <= i < m.len() && (#[trigger] m[i]).ignored_by_scheduler && m[i].name@ == name,
    decreases m.len(),
{
    if m.len() > 0 {
        let t = m.drop_last();
        let last = m.len() - 1;
        ignored_resources_are_marked(t, name);
        let all = ignored_names(m);
        let rest = ignored_names(t);
        assert(m[last] == m.last());
        assert forall|i: int| 0 <= i < last implies #[trigger] m[i] == t[i] by {}
        if rest.contains(name) {
            let k = choose|k: int| 0 <= k < rest.len() && rest[k] == name;
            assert(all[k] == name);
            let i = choose|i: int|
                0 <= i < t.len() && (#[trigger] t[i]).ignored_by_scheduler && t[i].name@ == name;
            assert(m[i] == t[i]);
        }
        if m[last].ignored_by_scheduler && m[last].name@ == name {
            assert(all[all.len() - 1] == name);
        }
        if all.contains(name) && !rest.contains(name) {
            let k = choose|k: int| 0 <= k < all.len() && all[k] == name;
            if k < rest.len() {
                assert(rest[k] == name);
            }
        }
    }
}

} // verus!
