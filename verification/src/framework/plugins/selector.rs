//! Label selectors: which objects, by their labels, and in which namespaces.
//!
//! An empty selector matches everything; an absent one matches nothing.

use crate::api::{copy_texts, LabelSelector, LabelSelectorRequirement};
use crate::maps::{Labels, StrMap};
use crate::text::{contains_text, has_text, text_eq};
use vstd::prelude::*;

verus! {

/// The values of a requirement, none where the list is absent.
pub open spec fn value_list(values: Option<Vec<String>>) -> Seq<String> {
    match values {
        Some(v) => v@,
        None => Seq::empty(),
    }
}

pub fn listed(values: &Option<Vec<String>>, s: &str) -> (r: bool)
    ensures
        r == has_text(value_list(*values), s@),
{
    match values {
        Some(v) => contains_text(v, s),
        None => false,
    }
}

/// The operators that ask about a label's presence or its value.
pub open spec fn set_operator_holds(
    operator: Seq<char>,
    actual: Option<Seq<char>>,
    values: Seq<String>,
) -> bool {
    if operator == "In"@ {
        actual is Some && has_text(values, actual->Some_0)
    } else if operator == "NotIn"@ {
        actual is None || !has_text(values, actual->Some_0)
    } else if operator == "Exists"@ {
        actual is Some
    } else if operator == "DoesNotExist"@ {
        actual is None
    } else {
        false
    }
}

pub fn set_operator(operator: &str, actual: Option<&String>, values: &Option<Vec<String>>) -> (r:
    bool)
    ensures
        r == set_operator_holds(
            operator@,
            match actual {
                Some(a) => Some(a@),
                None => None,
            },
            value_list(*values),
        ),
{
    if text_eq(operator, "In") {
        match actual {
            Some(a) => listed(values, a.as_str()),
            None => false,
        }
    } else if text_eq(operator, "NotIn") {
        match actual {
            Some(a) => !listed(values, a.as_str()),
            None => true,
        }
    } else if text_eq(operator, "Exists") {
        actual.is_some()
    } else if text_eq(operator, "DoesNotExist") {
        actual.is_none()
    } else {
        false
    }
}

/// Whether labels satisfy one requirement.
pub open spec fn requirement_holds(req: LabelSelectorRequirement, labels: Labels) -> bool {
    set_operator_holds(req.operator@, labels.text(req.key@), value_list(req.values))
}

/// Every pair of one map stands in another.
pub open spec fn carries_all(wanted: Labels, labels: Labels) -> bool {
    forall|i: int|
        0 <= i < wanted.entries@.len() ==> labels.carries(
            (#[trigger] wanted.entries@[i]).0@,
            wanted.entries@[i].1@,
        )
}

pub fn has_every_pair(wanted: &Labels, labels: &Labels) -> (r: bool)
    ensures
        r == carries_all(*wanted, *labels),
{
    let mut i: usize = 0;
    while i < wanted.entries.len()
        invariant
            i <= wanted.entries@.len(),
            forall|k: int|
                0 <= k < i ==> labels.carries(
                    (#[trigger] wanted.entries@[k]).0@,
                    wanted.entries@[k].1@,
                ),
        decreases wanted.entries@.len() - i,
    {
        if !labels.carries_pair(wanted.entries[i].0.as_str(), wanted.entries[i].1.as_str()) {
            assert(!labels.carries(wanted.entries@[i as int].0@, wanted.entries@[i as int].1@));
            return false;
        }
        i += 1;
    }
    true
}

/// The pairs a selector asks for.
pub open spec fn wanted_labels(sel: LabelSelector) -> Seq<(String, String)> {
    match sel.match_labels {
        Some(m) => m.entries@,
        None => Seq::empty(),
    }
}

/// The requirements a selector states.
pub open spec fn requirements(sel: LabelSelector) -> Seq<LabelSelectorRequirement> {
    match sel.match_expressions {
        Some(e) => e@,
        None => Seq::empty(),
    }
}

/// Whether labels satisfy a selector: every pair is carried and every
/// requirement holds.
pub open spec fn selects(sel: LabelSelector, labels: Labels) -> bool {
    &&& forall|i: int|
        0 <= i < wanted_labels(sel).len() ==> labels.carries(
            (#[trigger] wanted_labels(sel)[i]).0@,
            wanted_labels(sel)[i].1@,
        )
    &&& forall|i: int|
        0 <= i < requirements(sel).len() ==> requirement_holds(
            #[trigger] requirements(sel)[i],
            labels,
        )
}

/// An absent selector selects nothing.
pub open spec fn selected(sel: Option<LabelSelector>, labels: Labels) -> bool {
    match sel {
        Some(s) => selects(s, labels),
        None => false,
    }
}

/// Whether a set of labels satisfies a selector.
pub fn matches_selector(selector: Option<&LabelSelector>, labels: &Labels) -> (r: bool)
    ensures
        r == selected(crate::framework::unref(selector), *labels),
{
    let sel = match selector {
        Some(s) => s,
        None => {
            return false;
        },
    };
    match &sel.match_labels {
        Some(m) => {
            if !has_every_pair(m, labels) {
                proof {
                    let k = choose|k: int|
                        0 <= k < m.entries@.len() && !labels.carries(
                            (#[trigger] m.entries@[k]).0@,
                            m.entries@[k].1@,
                        );
                    assert(wanted_labels(*sel)[k] == m.entries@[k]);
                }
                return false;
            }
        },
        None => {},
    }
    match &sel.match_expressions {
        Some(reqs) => {
            let mut i: usize = 0;
            while i < reqs.len()
                invariant
                    i <= reqs@.len(),
                    selector == Some(sel),
                    requirements(*sel) == reqs@,
                    forall|k: int| 0 <= k < i ==> requirement_holds(#[trigger] reqs@[k], *labels),
                decreases reqs@.len() - i,
            {
                let actual = labels.get(reqs[i].key.as_str());
                if !set_operator(reqs[i].operator.as_str(), actual, &reqs[i].values) {
                    assert(!requirement_holds(requirements(*sel)[i as int], *labels));
                    return false;
                }
                i += 1;
            }
        },
        None => {},
    }
    true
}

/// The namespaces a term applies to.
#[derive(Debug, PartialEq)]
pub enum NamespaceScope<'a> {
    /// Only the namespace of the pod that declares the term.
    OwnOnly,
    /// This explicit set.
    Explicit(Vec<String>),
    /// Every namespace.
    All,
    /// The namespaces whose labels satisfy the selector, and the listed ones.
    Selected { selector: &'a LabelSelector, namespaces: Vec<String> },
}

impl<'a> NamespaceScope<'a> {
    /// Whether a namespace is inside the scope of a term that a pod in `own`
    /// declares.
    pub open spec fn holds(&self, own: Seq<char>, namespace: Seq<char>, known: StrMap<Labels>) -> bool {
        match *self {
            NamespaceScope::OwnOnly => namespace == own,
            NamespaceScope::Explicit(list) => has_text(list@, namespace),
            NamespaceScope::All => true,
            NamespaceScope::Selected { selector, namespaces } => has_text(namespaces@, namespace)
                || match known.at(namespace) {
                Some(labels) => selects(*selector, labels),
                None => false,
            },
        }
    }
}

/// A selector without requirements.
pub open spec fn asks_nothing(sel: LabelSelector) -> bool {
    wanted_labels(sel).len() == 0 && requirements(sel).len() == 0
}

/// The namespaces a term covers: the listed ones together with those its
/// selector matches, every one where the selector asks nothing, and the
/// declaring pod's own where both are absent.
pub open spec fn in_scope(
    namespaces: Option<Vec<String>>,
    selector: Option<LabelSelector>,
    own: Seq<char>,
    namespace: Seq<char>,
    known: StrMap<Labels>,
) -> bool {
    match selector {
        None => if value_list(namespaces).len() == 0 {
            namespace == own
        } else {
            has_text(value_list(namespaces), namespace)
        },
        Some(sel) => asks_nothing(sel) || has_text(value_list(namespaces), namespace)
            || match known.at(namespace) {
            Some(labels) => selects(sel, labels),
            None => false,
        },
    }
}

pub fn namespace_scope<'a>(
    namespaces: Option<&Vec<String>>,
    namespace_selector: Option<&'a LabelSelector>,
) -> (r: NamespaceScope<'a>)
    ensures
        forall|own: Seq<char>, namespace: Seq<char>, known: StrMap<Labels>| #[trigger]
            r.holds(own, namespace, known) == in_scope(
                crate::framework::unref(namespaces),
                crate::framework::unref(namespace_selector),
                own,
                namespace,
                known,
            ),
        r is OwnOnly <==> namespace_selector is None && value_list(
            crate::framework::unref(namespaces),
        ).len() == 0,
        r is All <==> namespace_selector is Some && asks_nothing(*namespace_selector->Some_0),
        r is Explicit <==> namespace_selector is None && value_list(
            crate::framework::unref(namespaces),
        ).len() > 0,
{
    let explicit = match namespaces {
        Some(v) => copy_texts(v),
        None => Vec::new(),
    };
    match namespace_selector {
        None => {
            if explicit.len() == 0 {
                NamespaceScope::OwnOnly
            } else {
                NamespaceScope::Explicit(explicit)
            }
        },
        Some(sel) => {
            let no_labels = match &sel.match_labels {
                Some(m) => m.entries.len() == 0,
                None => true,
            };
            let no_expressions = match &sel.match_expressions {
                Some(e) => e.len() == 0,
                None => true,
            };
            if no_labels && no_expressions {
                NamespaceScope::All
            } else {
                NamespaceScope::Selected { selector: sel, namespaces: explicit }
            }
        },
    }
}

/// Whether a pod in `pod_namespace` is inside `scope`, for a term declared by
/// a pod in `own_namespace`. A namespace whose labels are not known satisfies
/// no selector.
pub fn namespace_in_scope(
    scope: &NamespaceScope,
    own_namespace: &str,
    pod_namespace: &str,
    namespace_labels: &StrMap<Labels>,
) -> (r: bool)
    ensures
        r == scope.holds(own_namespace@, pod_namespace@, *namespace_labels),
{
    match scope {
        NamespaceScope::OwnOnly => text_eq(pod_namespace, own_namespace),
        NamespaceScope::Explicit(list) => contains_text(list, pod_namespace),
        NamespaceScope::All => true,
        NamespaceScope::Selected { selector, namespaces } => contains_text(
            namespaces,
            pod_namespace,
        ) || match namespace_labels.get(pod_namespace) {
            Some(labels) => matches_selector(Some(*selector), labels),
            None => false,
        },
    }
}

/// An empty selector selects whatever the labels, and an absent one never.
pub proof fn empty_is_not_absent(sel: LabelSelector, labels: Labels)
    requires
        asks_nothing(sel),
    ensures
        selected(Some(sel), labels),
        !selected(None, labels),
{
}

/// `NotIn` is the opposite of `In` and `DoesNotExist` of `Exists`; a label that is
/// absent is in no list. An operator that is none of these holds of nothing.
pub proof fn operators_are_opposites(actual: Option<Seq<char>>, values: Seq<String>, other: Seq<char>)
    ensures
        set_operator_holds("In"@, actual, values) <==> exists|i: int|
            0 <= i < values.len() && Some((#[trigger] values[i])@) == actual,
        set_operator_holds("NotIn"@, actual, values) <==> !set_operator_holds("In"@, actual, values),
        set_operator_holds("Exists"@, actual, values) <==> actual is Some,
        set_operator_holds("DoesNotExist"@, actual, values) <==> actual is None,
        other != "In"@ && other != "NotIn"@ && other != "Exists"@ && other != "DoesNotExist"@
            ==> !set_operator_holds(other, actual, values),
{
    reveal_strlit("In");
    reveal_strlit("NotIn");
    reveal_strlit("Exists");
    reveal_strlit("DoesNotExist");
    assert("In"@.len() == 2 && "NotIn"@.len() == 5 && "Exists"@.len() == 6 && "DoesNotExist"@.len()
        == 12);
    if set_operator_holds("In"@, actual, values) {
        let i = choose|i: int|
            0 <= i < values.len() && (#[trigger] values[i])@ == actual->Some_0;
        assert(Some(values[i]@) == actual);
    }
    if exists|i: int| 0 <= i < values.len() && Some((#[trigger] values[i])@) == actual {
        let i = choose|i: int| 0 <= i < values.len() && Some((#[trigger] values[i])@) == actual;
        assert(values[i]@ == actual->Some_0);
    }
}

/// Labels satisfy a selector exactly where they carry each of its pairs and meet
/// each of its requirements, so that each of them is needed.
pub proof fn selectors_ask_for_everything(sel: LabelSelector, labels: Labels)
    ensures
        selects(sel, labels) <==> {
            &&& sel.match_labels matches Some(m) ==> forall|i: int|
                0 <= i < m.entries@.len() ==> labels.text((#[trigger] m.entries@[i]).0@) == Some(
                    m.entries@[i].1@,
                )
            &&& sel.match_expressions matches Some(reqs) ==> forall|i: int|
                0 <= i < reqs@.len() ==> set_operator_holds(
                    (#[trigger] reqs@[i]).operator@,
                    labels.text(reqs@[i].key@),
                    value_list(reqs@[i].values),
                )
        },
{
    if selects(sel, labels) {
        if let Some(m) = sel.match_labels {
            assert forall|i: int| 0 <= i < m.entries@.len() implies labels.text(
                (#[trigger] m.entries@[i]).0@,
            ) == Some(m.entries@[i].1@) by {
                let e = wanted_labels(sel);
                assert(labels.carries(e[i].0@, e[i].1@));
            }
        }
        if let Some(reqs) = sel.match_expressions {
            assert forall|i: int| 0 <= i < reqs@.len() implies set_operator_holds(
                (#[trigger] reqs@[i]).operator@,
                labels.text(reqs@[i].key@),
                value_list(reqs@[i].values),
            ) by {
                assert(requirement_holds(requirements(sel)[i], labels));
            }
        }
    }
}

/// A namespace that a term lists is always in its scope; the declaring pod's own
/// is where the term names none; and a namespace that is not listed is only where
/// the selector asks nothing or its labels satisfy it.
pub proof fn scopes_cover_what_is_named(
    namespaces: Option<Vec<String>>,
    selector: Option<LabelSelector>,
    own: Seq<char>,
    namespace: Seq<char>,
    known: StrMap<Labels>,
)
    ensures
        has_text(value_list(namespaces), namespace) ==> in_scope(
            namespaces,
            selector,
            own,
            namespace,
            known,
        ),
        selector is None && value_list(namespaces).len() == 0 ==> (in_scope(
            namespaces,
            selector,
            own,
            namespace,
            known,
        ) <==> namespace == own),
        !has_text(value_list(namespaces), namespace) && in_scope(
            namespaces,
            selector,
            own,
            namespace,
            known,
        ) ==> (selector is None && namespace == own) || (selector matches Some(sel) && (
        asks_nothing(sel) || (known.at(namespace) matches Some(labels) && selects(sel, labels)))),
        selector matches Some(sel) ==> (known.at(namespace) matches Some(labels) ==> (selects(
            sel,
            labels,
        ) ==> in_scope(namespaces, selector, own, namespace, known))),
{
}

} // verus!
