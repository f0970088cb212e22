//! Plugin verdicts.
//!
//! [`Code::Unschedulable`] and [`Code::UnschedulableAndUnresolvable`] differ in
//! what they allow: only the first leaves the node open to preemption. The
//! second says that evicting other pods would not help.

use crate::text::{
    ascending, contains_text, decimal, decimal_text, has_text, insert_sorted, join, join_views,
    joined, text_eq, text_less, views,
};
use vstd::prelude::*;

verus! {

/// Why a plugin returned what it did.
#[derive(Clone, Copy, Debug, PartialEq, Eq, Structural)]
pub enum Code {
    /// Carry on.
    Success,
    /// The plugin itself failed. Aborts the cycle; never a placement decision.
    Error,
    /// The pod does not fit here now. Preemption may be able to fix it.
    Unschedulable,
    /// The pod cannot fit here, and evicting other pods would not change that.
    UnschedulableAndUnresolvable,
    /// The plugin has nothing to say for this pod.
    Skip,
    /// Hold the pod in the binding cycle.
    Wait,
    /// Rejected, but progress was made: no backoff is charged.
    Pending,
    /// The object went away while its bind was in flight.
    Cancelled,
}

impl Code {
    /// Whether this verdict rejects the pod.
    pub open spec fn rejects(self) -> bool {
        self == Code::Unschedulable || self == Code::UnschedulableAndUnresolvable || self
            == Code::Pending
    }

    pub fn is_rejection(self) -> (r: bool)
        ensures
            r == self.rejects(),
    {
        matches!(
            self,
            Code::Unschedulable | Code::UnschedulableAndUnresolvable | Code::Pending
        )
    }

    /// Whether preemption could help.
    pub fn is_resolvable_by_preemption(self) -> (r: bool)
        ensures
            r == (self == Code::Unschedulable),
    {
        matches!(self, Code::Unschedulable)
    }

    /// The name of the code.
    pub open spec fn label_view(self) -> Seq<char> {
        match self {
            Code::Success => "Success"@,
            Code::Error => "Error"@,
            Code::Unschedulable => "Unschedulable"@,
            Code::UnschedulableAndUnresolvable => "UnschedulableAndUnresolvable"@,
            Code::Skip => "Skip"@,
            Code::Wait => "Wait"@,
            Code::Pending => "Pending"@,
            Code::Cancelled => "Cancelled"@,
        }
    }

    pub fn label(self) -> (r: &'static str)
        ensures
            r@ == self.label_view(),
    {
        match self {
            Code::Success => "Success",
            Code::Error => "Error",
            Code::Unschedulable => "Unschedulable",
            Code::UnschedulableAndUnresolvable => "UnschedulableAndUnresolvable",
            Code::Skip => "Skip",
            Code::Wait => "Wait",
            Code::Pending => "Pending",
            Code::Cancelled => "Cancelled",
        }
    }
}

/// A plugin's verdict, with the reasons a person needs to understand it.
#[derive(Clone, Debug)]
pub struct Status {
    pub code: Code,
    /// The plugin that produced this. Empty for success.
    pub plugin: &'static str,
    pub reasons: Vec<String>,
}

/// What a verdict says.
pub struct StatusView {
    pub code: Code,
    pub plugin: Seq<char>,
    pub reasons: Seq<Seq<char>>,
}

impl View for Status {
    type V = StatusView;

    open spec fn view(&self) -> StatusView {
        StatusView { code: self.code, plugin: self.plugin@, reasons: views(self.reasons@) }
    }
}

/// A verdict of one code, plugin and reason.
pub open spec fn verdict(code: Code, plugin: Seq<char>, reason: Seq<char>) -> StatusView {
    StatusView { code, plugin, reasons: seq![reason] }
}

pub open spec fn success() -> StatusView {
    StatusView { code: Code::Success, plugin: ""@, reasons: Seq::empty() }
}

pub open spec fn skip() -> StatusView {
    StatusView { code: Code::Skip, plugin: ""@, reasons: Seq::empty() }
}

/// Rejected for now.
pub open spec fn unschedulable(plugin: Seq<char>, reason: Seq<char>) -> StatusView {
    verdict(Code::Unschedulable, plugin, reason)
}

/// Rejected whatever is evicted.
pub open spec fn unresolvable(plugin: Seq<char>, reason: Seq<char>) -> StatusView {
    verdict(Code::UnschedulableAndUnresolvable, plugin, reason)
}

/// The plugin failed.
pub open spec fn failure(plugin: Seq<char>, reason: Seq<char>) -> StatusView {
    verdict(Code::Error, plugin, reason)
}

impl Status {
    fn with(code: Code, plugin: &'static str, reason: &str) -> (r: Self)
        ensures
            r@ == verdict(code, plugin@, reason@),
    {
        let mut reasons: Vec<String> = Vec::new();
        reasons.push(reason.to_owned());
        assert(views(reasons@) =~= seq![reason@]);
        Status { code, plugin, reasons }
    }

    pub fn success() -> (r: Self)
        ensures
            r@ == success(),
    {
        let reasons: Vec<String> = Vec::new();
        assert(views(reasons@) =~= Seq::<Seq<char>>::empty());
        Status { code: Code::Success, plugin: "", reasons }
    }

    pub fn skip() -> (r: Self)
        ensures
            r@ == skip(),
    {
        let reasons: Vec<String> = Vec::new();
        assert(views(reasons@) =~= Seq::<Seq<char>>::empty());
        Status { code: Code::Skip, plugin: "", reasons }
    }

    pub fn unschedulable(plugin: &'static str, reason: &str) -> (r: Self)
        ensures
            r@ == unschedulable(plugin@, reason@),
    {
        Self::with(Code::Unschedulable, plugin, reason)
    }

    pub fn unresolvable(plugin: &'static str, reason: &str) -> (r: Self)
        ensures
            r@ == unresolvable(plugin@, reason@),
    {
        Self::with(Code::UnschedulableAndUnresolvable, plugin, reason)
    }

    pub fn error(plugin: &'static str, reason: &str) -> (r: Self)
        ensures
            r@ == failure(plugin@, reason@),
    {
        Self::with(Code::Error, plugin, reason)
    }

    pub fn pending(plugin: &'static str, reason: &str) -> (r: Self)
        ensures
            r@ == verdict(Code::Pending, plugin@, reason@),
    {
        Self::with(Code::Pending, plugin, reason)
    }

    pub fn cancelled(plugin: &'static str, reason: &str) -> (r: Self)
        ensures
            r@ == verdict(Code::Cancelled, plugin@, reason@),
    {
        Self::with(Code::Cancelled, plugin, reason)
    }

    pub fn is_success(&self) -> (r: bool)
        ensures
            r == (self.code == Code::Success),
    {
        self.code == Code::Success
    }

    pub fn is_skip(&self) -> (r: bool)
        ensures
            r == (self.code == Code::Skip),
    {
        self.code == Code::Skip
    }

    pub fn is_rejection(&self) -> (r: bool)
        ensures
            r == self.code.rejects(),
    {
        self.code.is_rejection()
    }

    /// The verdict in words: its code where no plugin is named, else the
    /// plugin and its reasons.
    pub fn describe(&self) -> (r: String)
        ensures
            r@ == if self.plugin@ == ""@ {
                self.code.label_view()
            } else {
                self.plugin@ + ": "@ + join_views(views(self.reasons@), ", "@)
            },
    {
        if text_eq(self.plugin, "") {
            self.code.label().to_owned()
        } else {
            let head = joined(self.plugin, ": ");
            let reasons = join(&self.reasons, ", ");
            joined(head.as_str(), reasons.as_str())
        }
    }
}

/// Why each node was rejected, for one scheduling attempt.
#[derive(Clone, Debug, Default)]
pub struct NodeToStatus {
    pub per_node: Vec<(String, Status)>,
}

/// The nodes that preemption could free up, in the order recorded.
pub open spec fn resolvable_nodes(e: Seq<(String, Status)>) -> Seq<Seq<char>>
    decreases e.len(),
{
    if e.len() == 0 {
        Seq::empty()
    } else if e.last().1.code == Code::Unschedulable {
        resolvable_nodes(e.drop_last()).push(e.last().0@)
    } else {
        resolvable_nodes(e.drop_last())
    }
}

/// The last verdict recorded for a node.
pub open spec fn last_verdict(e: Seq<(String, Status)>, node: Seq<char>) -> Option<Status>
    decreases e.len(),
{
    if e.len() == 0 {
        None
    } else if e.last().0@ == node {
        Some(e.last().1)
    } else {
        last_verdict(e.drop_last(), node)
    }
}

/// Some recorded verdict of the plugin rejects the pod.
pub open spec fn rejected_by(e: Seq<(String, Status)>, plugin: Seq<char>) -> bool {
    exists|i: int| 0 <= i < e.len() && (#[trigger] e[i]).1.code.rejects() && e[i].1.plugin@ == plugin
}

/// Some node was rejected for the reason.
pub open spec fn given(e: Seq<(String, Status)>, reason: Seq<char>) -> bool {
    exists|i: int| 0 <= i < e.len() && has_text((#[trigger] e[i]).1.reasons@, reason)
}

/// How many records give the reason.
pub open spec fn times_given(e: Seq<(String, Status)>, reason: Seq<char>) -> nat
    decreases e.len(),
{
    if e.len() == 0 {
        0
    } else {
        times_given(e.drop_last(), reason) + if has_text(e.last().1.reasons@, reason) {
            1nat
        } else {
            0nat
        }
    }
}

/// `"<n> <reason>"` for each reason.
pub open spec fn counted(e: Seq<(String, Status)>, reasons: Seq<Seq<char>>) -> Seq<Seq<char>> {
    reasons.map_values(|r: Seq<char>| decimal(times_given(e, r)) + " "@ + r)
}

/// The summary over a list of reasons.
pub open spec fn summary_text(
    e: Seq<(String, Status)>,
    total: nat,
    reasons: Seq<Seq<char>>,
) -> Seq<char> {
    let head = "0/"@ + decimal(total) + " nodes are available"@;
    if reasons.len() == 0 {
        head
    } else {
        head + ": "@ + join_views(counted(e, reasons), ", "@)
    }
}

/// The reasons a list of records gives, each once, in ascending order.
pub open spec fn sorted_reasons(e: Seq<(String, Status)>, reasons: Seq<Seq<char>>) -> bool {
    &&& forall|i: int, j: int|
        0 <= i < j < reasons.len() ==> text_less(#[trigger] reasons[i], #[trigger] reasons[j])
    &&& forall|t: Seq<char>| #[trigger] reasons.contains(t) <==> given(e, t)
}

impl NodeToStatus {
    pub fn record(&mut self, node: &str, status: Status)
        ensures
            final(self).per_node@.len() == old(self).per_node@.len() + 1,
            final(self).per_node@.drop_last() == old(self).per_node@,
            final(self).per_node@.last().0@ == node@,
            final(self).per_node@.last().1 == status,
    {
        let ghost before = self.per_node@;
        self.per_node.push((node.to_owned(), status));
        assert(self.per_node@.drop_last() =~= before);
    }

    pub fn len(&self) -> (r: usize)
        ensures
            r == self.per_node@.len(),
    {
        self.per_node.len()
    }

    pub fn is_empty(&self) -> (r: bool)
        ensures
            r == (self.per_node@.len() == 0),
    {
        self.per_node.len() == 0
    }

    /// The first plugin failure recorded, which aborts the whole cycle.
    pub fn first_error(&self) -> (r: Option<&Status>)
        ensures
            match r {
                Some(s) => exists|i: int|
                    0 <= i < self.per_node@.len() && #[trigger] self.per_node@[i].1 == *s
                        && s.code == Code::Error && forall|j: int|
                        0 <= j < i ==> (#[trigger] self.per_node@[j]).1.code != Code::Error,
                None => forall|j: int|
                    0 <= j < self.per_node@.len() ==> (#[trigger] self.per_node@[j]).1.code
                        != Code::Error,
            },
    {
        let mut i: usize = 0;
        while i < self.per_node.len()
            invariant
                i <= self.per_node@.len(),
                forall|j: int| 0 <= j < i ==> (#[trigger] self.per_node@[j]).1.code != Code::Error,
            decreases self.per_node@.len() - i,
        {
            if self.per_node[i].1.code == Code::Error {
                assert(self.per_node@[i as int].1.code == Code::Error);
                return Some(&self.per_node[i].1);
            }
            i += 1;
        }
        None
    }

    /// Nodes preemption could free up.
    pub fn preemption_candidates(&self) -> (r: Vec<&str>)
        ensures
            r@.map_values(|s: &str| s@) == resolvable_nodes(self.per_node@),
    {
        let mut out: Vec<&str> = Vec::new();
        let mut i: usize = 0;
        assert(out@.map_values(|s: &str| s@) =~= Seq::<Seq<char>>::empty());
        while i < self.per_node.len()
            invariant
                i <= self.per_node@.len(),
                out@.map_values(|s: &str| s@) == resolvable_nodes(self.per_node@.take(i as int)),
            decreases self.per_node@.len() - i,
        {
            let ghost before = out@;
            if self.per_node[i].1.code.is_resolvable_by_preemption() {
                out.push(self.per_node[i].0.as_str());
                assert(out@.map_values(|s: &str| s@) =~= before.map_values(|s: &str| s@).push(
                    self.per_node@[i as int].0@,
                ));
            }
            i += 1;
            assert(self.per_node@.take(i as int).drop_last() =~= self.per_node@.take(i - 1));
        }
        assert(self.per_node@.take(i as int) =~= self.per_node@);
        out
    }

    /// The last verdict recorded for one node, which is the one acted on.
    pub fn for_node(&self, node: &str) -> (r: Option<&Status>)
        ensures
            match last_verdict(self.per_node@, node@) {
                Some(s) => r == Some(&s),
                None => r is None,
            },
    {
        let mut i: usize = self.per_node.len();
        assert(self.per_node@.take(i as int) =~= self.per_node@);
        while i > 0
            invariant
                i <= self.per_node@.len(),
                last_verdict(self.per_node@, node@) == last_verdict(
                    self.per_node@.take(i as int),
                    node@,
                ),
            decreases i,
        {
            i -= 1;
            assert(self.per_node@.take(i + 1).drop_last() =~= self.per_node@.take(i as int));
            if text_eq(self.per_node[i].0.as_str(), node) {
                return Some(&self.per_node[i].1);
            }
        }
        None
    }

    /// The plugins that rejected the pod on any node, each once, in order.
    pub fn rejecting_plugins(&self) -> (r: Vec<String>)
        ensures
            ascending(r@),
            forall|p: Seq<char>| #[trigger] has_text(r@, p) <==> rejected_by(self.per_node@, p),
    {
        let mut out: Vec<String> = Vec::new();
        let mut i: usize = 0;
        while i < self.per_node.len()
            invariant
                i <= self.per_node@.len(),
                ascending(out@),
                forall|p: Seq<char>| #[trigger]
                    has_text(out@, p) <==> rejected_by(self.per_node@.take(i as int), p),
            decreases self.per_node@.len() - i,
        {
            let ghost before = out@;
            let ghost e = self.per_node@;
            if self.per_node[i].1.is_rejection() {
                insert_sorted(&mut out, self.per_node[i].1.plugin.to_owned());
            }
            i += 1;
            proof {
                assert forall|p: Seq<char>| #[trigger]
                    has_text(out@, p) <==> rejected_by(e.take(i as int), p) by {
                    assert(has_text(before, p) <==> rejected_by(e.take(i - 1), p));
                    if rejected_by(e.take(i as int), p) {
                        let k = choose|k: int|
                            0 <= k < i && (#[trigger] e.take(i as int)[k]).1.code.rejects()
                                && e.take(i as int)[k].1.plugin@ == p;
                        if k < i - 1 {
                            assert(e.take(i - 1)[k] == e.take(i as int)[k]);
                        }
                    }
                    if rejected_by(e.take(i - 1), p) {
                        let k = choose|k: int|
                            0 <= k < i - 1 && (#[trigger] e.take(i - 1)[k]).1.code.rejects()
                                && e.take(i - 1)[k].1.plugin@ == p;
                        assert(e.take(i as int)[k] == e.take(i - 1)[k]);
                    }
                    assert(e.take(i as int)[i - 1] == e[i - 1]);
                }
            }
        }
        assert(self.per_node@.take(i as int) =~= self.per_node@);
        out
    }

    fn distinct_reasons(&self) -> (r: Vec<String>)
        ensures
            ascending(r@),
            forall|t: Seq<char>| #[trigger] has_text(r@, t) <==> given(self.per_node@, t),
    {
        let mut out: Vec<String> = Vec::new();
        let mut i: usize = 0;
        let ghost e = self.per_node@;
        while i < self.per_node.len()
            invariant
                i <= self.per_node@.len(),
                e == self.per_node@,
                ascending(out@),
                forall|t: Seq<char>| #[trigger]
                    has_text(out@, t) <==> given(e.take(i as int), t),
            decreases self.per_node@.len() - i,
        {
            let ghost before = out@;
            let reasons = &self.per_node[i].1.reasons;
            let mut j: usize = 0;
            while j < reasons.len()
                invariant
                    j <= reasons@.len(),
                    ascending(out@),
                    forall|t: Seq<char>| #[trigger]
                        has_text(out@, t) <==> has_text(before, t) || has_text(
                            reasons@.take(j as int),
                            t,
                        ),
                decreases reasons@.len() - j,
            {
                let ghost prior = out@;
                insert_sorted(&mut out, reasons[j].clone());
                j += 1;
                proof {
                    assert forall|t: Seq<char>| #[trigger]
                        has_text(out@, t) <==> has_text(before, t) || has_text(
                            reasons@.take(j as int),
                            t,
                        ) by {
                        text_step(reasons@, j - 1, t);
                        assert(has_text(prior, t) <==> has_text(before, t) || has_text(
                            reasons@.take(j - 1),
                            t,
                        ));
                    }
                }
            }
            assert(reasons@.take(j as int) =~= reasons@);
            i += 1;
            proof {
                assert forall|t: Seq<char>| #[trigger]
                    has_text(out@, t) <==> given(e.take(i as int), t) by {
                    assert(has_text(before, t) <==> given(e.take(i - 1), t));
                    if given(e.take(i as int), t) {
                        let k = choose|k: int|
                            0 <= k < i && has_text((#[trigger] e.take(i as int)[k]).1.reasons@, t);
                        if k < i - 1 {
                            assert(e.take(i - 1)[k] == e.take(i as int)[k]);
                        }
                    }
                    if given(e.take(i - 1), t) {
                        let k = choose|k: int|
                            0 <= k < i - 1 && has_text((#[trigger] e.take(i - 1)[k]).1.reasons@, t);
                        assert(e.take(i as int)[k] == e.take(i - 1)[k]);
                    }
                    assert(e.take(i as int)[i - 1] == e[i - 1]);
                }
            }
        }
        assert(e.take(i as int) =~= e);
        out
    }

    fn count_given(&self, reason: &str) -> (r: usize)
        ensures
            r == times_given(self.per_node@, reason@),
    {
        let mut n: usize = 0;
        let mut i: usize = 0;
        while i < self.per_node.len()
            invariant
                i <= self.per_node@.len(),
                n <= i,
                n == times_given(self.per_node@.take(i as int), reason@),
            decreases self.per_node@.len() - i,
        {
            if contains_text(&self.per_node[i].1.reasons, reason) {
                n += 1;
            }
            i += 1;
            assert(self.per_node@.take(i as int).drop_last() =~= self.per_node@.take(i - 1));
        }
        assert(self.per_node@.take(i as int) =~= self.per_node@);
        n
    }

    /// How many nodes each distinct reason rejected, as one line. A record
    /// that gives a reason twice counts once.
    pub fn summary(&self, total_nodes: usize) -> (r: String)
        ensures
            exists|reasons: Seq<Seq<char>>|
                sorted_reasons(self.per_node@, reasons) && r@ == summary_text(
                    self.per_node@,
                    total_nodes as nat,
                    reasons,
                ),
    {
        let reasons = self.distinct_reasons();
        let total = decimal_text(total_nodes as u64);
        let head = joined("0/", total.as_str());
        let head = joined(head.as_str(), " nodes are available");
        let ghost keys = views(reasons@);
        proof {
            assert forall|t: Seq<char>| #[trigger] keys.contains(t) <==> given(
                self.per_node@,
                t,
            ) by {
                assert(has_text(reasons@, t) <==> given(self.per_node@, t));
                if keys.contains(t) {
                    let k = choose|k: int| 0 <= k < keys.len() && keys[k] == t;
                    assert(reasons@[k]@ == t);
                }
                if has_text(reasons@, t) {
                    let k = choose|k: int| 0 <= k < reasons@.len() && (#[trigger] reasons@[k])@ == t;
                    assert(keys[k] == t);
                }
            }
            assert forall|i: int, j: int| 0 <= i < j < keys.len() implies text_less(
                #[trigger] keys[i],
                #[trigger] keys[j],
            ) by {
                assert(keys[i] == reasons@[i]@ && keys[j] == reasons@[j]@);
            }
            assert(sorted_reasons(self.per_node@, keys));
        }
        if reasons.len() == 0 {
            assert(head@ == summary_text(self.per_node@, total_nodes as nat, keys));
            return head;
        }
        let mut parts: Vec<String> = Vec::new();
        let mut i: usize = 0;
        while i < reasons.len()
            invariant
                i <= reasons@.len(),
                keys == views(reasons@),
                parts@.len() == i,
                forall|k: int|
                    0 <= k < i ==> (#[trigger] parts@[k])@ == counted(self.per_node@, keys)[k],
            decreases reasons@.len() - i,
        {
            let n = self.count_given(reasons[i].as_str());
            let count = decimal_text(n as u64);
            let part = joined(count.as_str(), " ");
            parts.push(joined(part.as_str(), reasons[i].as_str()));
            i += 1;
        }
        proof {
            assert(views(parts@) =~= counted(self.per_node@, keys));
        }
        let detail = join(&parts, ", ");
        let head = joined(head.as_str(), ": ");
        let out = joined(head.as_str(), detail.as_str());
        assert(out@ == summary_text(self.per_node@, total_nodes as nat, keys));
        out
    }
}

proof fn text_step(v: Seq<String>, n: int, t: Seq<char>)
    requires
        0 <= n < v.len(),
    ensures
        has_text(v.take(n + 1), t) == (has_text(v.take(n), t) || v[n]@ == t),
{
    if has_text(v.take(n + 1), t) {
        let k = choose|k: int| 0 <= k < n + 1 && (#[trigger] v.take(n + 1)[k])@ == t;
        if k < n {
            assert(v.take(n)[k]@ == t);
        }
    }
    if has_text(v.take(n), t) {
        let k = choose|k: int| 0 <= k < n && (#[trigger] v.take(n)[k])@ == t;
        assert(v.take(n + 1)[k]@ == t);
    }
    if v[n]@ == t {
        assert(v.take(n + 1)[n]@ == t);
    }
}

/// The lists of reasons a summary may be over are one list: two ascending
/// lists of the same texts are equal.
pub proof fn one_summary(e: Seq<(String, Status)>, a: Seq<Seq<char>>, b: Seq<Seq<char>>)
    requires
        sorted_reasons(e, a),
        sorted_reasons(e, b),
    ensures
        a == b,
{
    assert forall|t: Seq<char>| #[trigger] a.contains(t) <==> b.contains(t) by {
        assert(a.contains(t) <==> given(e, t));
        assert(b.contains(t) <==> given(e, t));
    }
    ascending_unique(a, b);
}

proof fn ascending_unique(a: Seq<Seq<char>>, b: Seq<Seq<char>>)
    requires
        forall|i: int, j: int| 0 <= i < j < a.len() ==> text_less(#[trigger] a[i], #[trigger] a[j]),
        forall|i: int, j: int| 0 <= i < j < b.len() ==> text_less(#[trigger] b[i], #[trigger] b[j]),
        forall|t: Seq<char>| #[trigger] a.contains(t) <==> b.contains(t),
    ensures
        a == b,
    decreases a.len(),
{
    if a.len() == 0 {
        if b.len() > 0 {
            assert(b.contains(b[0]));
            assert(a.contains(b[0]));
        }
        assert(a =~= b);
    } else {
        assert(a.contains(a[0]));
        let k = choose|k: int| 0 <= k < b.len() && b[k] == a[0];
        assert(b.contains(b[0]));
        assert(a.contains(b[0]));
        let m = choose|m: int| 0 <= m < a.len() && a[m] == b[0];
        if k > 0 {
            assert(text_less(b[0], b[k]));
            if m > 0 {
                assert(text_less(a[0], a[m]));
                crate::text::text_less_transitive(a[0], b[0], a[0]);
            }
            crate::text::text_less_irreflexive(a[0]);
        }
        assert(a[0] == b[0]);
        let x = a.skip(1);
        let y = b.skip(1);
        assert forall|t: Seq<char>| #[trigger] x.contains(t) <==> y.contains(t) by {
            if x.contains(t) {
                let i = choose|i: int| 0 <= i < x.len() && x[i] == t;
                assert(a[i + 1] == t);
                assert(a.contains(t));
                let j = choose|j: int| 0 <= j < b.len() && b[j] == t;
                if j == 0 {
                    assert(text_less(a[0], a[i + 1]));
                    crate::text::text_less_irreflexive(a[0]);
                }
                assert(y[j - 1] == t);
            }
            if y.contains(t) {
                let i = choose|i: int| 0 <= i < y.len() && y[i] == t;
                assert(b[i + 1] == t);
                assert(b.contains(t));
                assert(a.contains(t));
                let j = choose|j: int| 0 <= j < a.len() && a[j] == t;
                if j == 0 {
                    assert(text_less(b[0], b[i + 1]));
                    crate::text::text_less_irreflexive(b[0]);
                }
                assert(x[j - 1] == t);
            }
        }
        assert forall|i: int, j: int| 0 <= i < j < x.len() implies text_less(
            #[trigger] x[i],
            #[trigger] x[j],
        ) by {
            assert(text_less(a[i + 1], a[j + 1]));
        }
        assert forall|i: int, j: int| 0 <= i < j < y.len() implies text_less(
            #[trigger] y[i],
            #[trigger] y[j],
        ) by {
            assert(text_less(b[i + 1], b[j + 1]));
        }
        ascending_unique(x, y);
        assert(a =~= seq![a[0]] + x);
        assert(b =~= seq![b[0]] + y);
    }
}

/// No reason is counted for more nodes than were recorded, and every reason
/// that was given is counted.
pub proof fn counts_stay_within_records(e: Seq<(String, Status)>, reason: Seq<char>)
    ensures
        times_given(e, reason) <= e.len(),
        given(e, reason) <==> times_given(e, reason) > 0,
    decreases e.len(),
{
    if e.len() > 0 {
        let t = e.drop_last();
        counts_stay_within_records(t, reason);
        if has_text(e.last().1.reasons@, reason) {
            assert(has_text(e[e.len() - 1].1.reasons@, reason));
        }
        if given(t, reason) {
            let i = choose|i: int| 0 <= i < t.len() && has_text((#[trigger] t[i]).1.reasons@, reason);
            assert(has_text(e[i].1.reasons@, reason));
        }
        if given(e, reason) && !has_text(e.last().1.reasons@, reason) {
            let i = choose|i: int| 0 <= i < e.len() && has_text((#[trigger] e[i]).1.reasons@, reason);
            assert(has_text(t[i].1.reasons@, reason));
        }
    }
}

/// The nodes that preemption could free up are exactly those with a record that
/// eviction can resolve.
pub proof fn resolvable_nodes_are_recorded(e: Seq<(String, Status)>, node: Seq<char>)
    ensures
        resolvable_nodes(e).contains(node) <==> exists|i: int|
            0 <= i < e.len() && (#[trigger] e[i]).0@ == node && e[i].1.code == Code::Unschedulable,
    decreases e.len(),
{
    if e.len() > 0 {
        let t = e.drop_last();
        let last = e.len() - 1;
        resolvable_nodes_are_recorded(t, node);
        let all = resolvable_nodes(e);
        let rest = resolvable_nodes(t);
        assert(e[last] == e.last());
        assert forall|i: int| 0 <= i < last implies #[trigger] e[i] == t[i] by {}
        if rest.contains(node) {
            let k = choose|k: int| 0 <= k < rest.len() && rest[k] == node;
            assert(all[k] == node);
            let i = choose|i: int|
                0 <= i < t.len() && (#[trigger] t[i]).0@ == node && t[i].1.code
                    == Code::Unschedulable;
            assert(e[i] == t[i]);
        }
        if e[last].0@ == node && e[last].1.code == Code::Unschedulable {
            assert(all[all.len() - 1] == node);
        }
        if all.contains(node) && !rest.contains(node) {
            let k = choose|k: int| 0 <= k < all.len() && all[k] == node;
            if k < rest.len() {
                assert(rest[k] == node);
            }
        }
    }
}

/// Every record that gives a reason counts once, wherever it stands.
pub proof fn every_record_counts(e: Seq<(String, Status)>, reason: Seq<char>, i: int)
    requires
        0 <= i < e.len(),
    ensures
        times_given(e, reason) == times_given(e.remove(i), reason) + if has_text(
            e[i].1.reasons@,
            reason,
        ) {
            1nat
        } else {
            0nat
        },
    decreases e.len(),
{
    let t = e.drop_last();
    if i == e.len() - 1 {
        assert(e.remove(i) =~= t);
    } else {
        every_record_counts(t, reason, i);
        assert(e.remove(i).drop_last() =~= t.remove(i));
        assert(e.remove(i).last() == e.last());
    }
}

/// The verdict on a node is that of its last record.
pub proof fn last_record_decides(e: Seq<(String, Status)>, node: Seq<char>)
    ensures
        match last_verdict(e, node) {
            Some(s) => exists|i: int|
                0 <= i < e.len() && (#[trigger] e[i]).0@ == node && e[i].1 == s && forall|j: int|
                    i < j < e.len() ==> (#[trigger] e[j]).0@ != node,
            None => forall|i: int| 0 <= i < e.len() ==> (#[trigger] e[i]).0@ != node,
        },
    decreases e.len(),
{
    if e.len() > 0 {
        let t = e.drop_last();
        let last = e.len() - 1;
        last_record_decides(t, node);
        assert(e[last] == e.last());
        assert forall|i: int| 0 <= i < last implies #[trigger] e[i] == t[i] by {}
        if e.last().0@ != node {
            if let Some(s) = last_verdict(t, node) {
                let i = choose|i: int|
                    0 <= i < t.len() && (#[trigger] t[i]).0@ == node && t[i].1 == s && forall|
                        j: int,
                    | i < j < t.len() ==> (#[trigger] t[j]).0@ != node;
                assert(e[i].0@ == node && e[i].1 == s);
                assert forall|j: int| i < j < e.len() implies (#[trigger] e[j]).0@ != node by {
                    if j < last {
                        assert(t[j].0@ != node);
                    }
                }
            }
        }
    }
}

} // verus!
