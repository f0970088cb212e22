use nodescheduler::api::{LabelSelector, LabelSelectorRequirement};
use nodescheduler::framework::plugins::selector::{
    matches_selector, namespace_in_scope, namespace_scope, NamespaceScope,
};
use nodescheduler::maps::{Labels, StrMap};

fn strmap<V>(entries: Vec<(String, V)>) -> StrMap<V> {
    let mut m = StrMap::new();
    for (k, v) in entries {
        m.insert(k, v);
    }
    m
}

fn labels(pairs: &[(&str, &str)]) -> Labels {
    strmap(pairs.iter().map(|(k, v)| (k.to_string(), v.to_string())).collect())
}

fn sel_labels(pairs: &[(&str, &str)]) -> LabelSelector {
    LabelSelector {
        match_labels: Some(labels(pairs)),
        match_expressions: None,
    }
}

#[test]
fn an_absent_selector_matches_nothing() {
    assert!(!matches_selector(None, &labels(&[("app", "web")])));
}

#[test]
fn an_empty_selector_matches_everything() {
    let empty = LabelSelector { match_labels: None, match_expressions: None };
    assert!(matches_selector(Some(&empty), &labels(&[("app", "web")])));
    assert!(matches_selector(Some(&empty), &StrMap::new()));
}

#[test]
fn match_labels_requires_every_entry() {
    let sel = sel_labels(&[("app", "web"), ("tier", "front")]);
    assert!(matches_selector(Some(&sel), &labels(&[("app", "web"), ("tier", "front")])));
    assert!(!matches_selector(Some(&sel), &labels(&[("app", "web")])));
}

#[test]
fn every_match_expression_operator_behaves() {
    let l = labels(&[("app", "web"), ("tier", "front")]);
    let expr = |key: &str, op: &str, vals: &[&str]| LabelSelector {
        match_labels: None,
        match_expressions: Some(vec![LabelSelectorRequirement {
            key: key.to_string(),
            operator: op.to_string(),
            values: Some(vals.iter().map(|s| s.to_string()).collect()),
        }]),
    };

    assert!(matches_selector(Some(&expr("app", "In", &["web", "api"])), &l));
    assert!(!matches_selector(Some(&expr("app", "In", &["api"])), &l));
    assert!(matches_selector(Some(&expr("app", "NotIn", &["api"])), &l));
    assert!(matches_selector(Some(&expr("app", "Exists", &[])), &l));
    assert!(!matches_selector(Some(&expr("nope", "Exists", &[])), &l));
    assert!(matches_selector(Some(&expr("nope", "DoesNotExist", &[])), &l));
    assert!(!matches_selector(Some(&expr("app", "DoesNotExist", &[])), &l));
}

#[test]
fn notin_is_satisfied_by_a_label_that_is_absent() {
    let l: Labels = StrMap::new();
    let sel = LabelSelector {
        match_labels: None,
        match_expressions: Some(vec![LabelSelectorRequirement {
            key: "app".to_string(),
            operator: "NotIn".to_string(),
            values: Some(vec!["web".to_string()]),
        }]),
    };
    assert!(matches_selector(Some(&sel), &l));
}

#[test]
fn an_unknown_operator_matches_nothing_rather_than_everything() {
    let sel = LabelSelector {
        match_labels: None,
        match_expressions: Some(vec![LabelSelectorRequirement {
            key: "app".to_string(),
            operator: "Sortof".to_string(),
            values: None,
        }]),
    };
    assert!(!matches_selector(Some(&sel), &labels(&[("app", "web")])));
}


#[test]
fn no_namespaces_and_no_selector_means_the_pods_own_namespace() {
    assert_eq!(namespace_scope(None, None), NamespaceScope::OwnOnly);
    let ns = StrMap::new();
    assert!(namespace_in_scope(&NamespaceScope::OwnOnly, "prod", "prod", &ns));
    assert!(!namespace_in_scope(&NamespaceScope::OwnOnly, "prod", "dev", &ns));
}

#[test]
fn an_explicit_list_is_used_verbatim() {
    let scope = namespace_scope(Some(&vec!["a".to_string(), "b".to_string()]), None);
    assert_eq!(scope, NamespaceScope::Explicit(vec!["a".to_string(), "b".to_string()]));
    let ns = StrMap::new();
    assert!(namespace_in_scope(&scope, "own", "a", &ns));
    assert!(!namespace_in_scope(&scope, "own", "c", &ns));
    assert!(
        !namespace_in_scope(&scope, "own", "own", &ns),
        "an explicit list replaces the own-namespace default, it does not extend it"
    );
}

#[test]
fn an_empty_namespace_selector_means_every_namespace() {
    let empty = LabelSelector { match_labels: None, match_expressions: None };
    let scope = namespace_scope(None, Some(&empty));
    assert_eq!(scope, NamespaceScope::All);
    let ns = StrMap::new();
    assert!(namespace_in_scope(&scope, "prod", "anything", &ns));
}

#[test]
fn a_namespace_selector_is_evaluated_against_real_namespace_labels() {
    let prod = sel_labels(&[("env", "prod")]);
    let scope = namespace_scope(None, Some(&prod));
    let mut ns = StrMap::new();
    ns.insert("prod-a".to_string(), labels(&[("env", "prod")]));
    ns.insert("staging".to_string(), labels(&[("env", "staging")]));

    assert!(namespace_in_scope(&scope, "own", "prod-a", &ns));
    assert!(!namespace_in_scope(&scope, "own", "staging", &ns));
    assert!(
        !namespace_in_scope(&scope, "own", "never-heard-of-it", &ns),
        "a namespace with no known labels cannot satisfy a selector"
    );
}

#[test]
fn a_list_and_a_selector_together_cover_both() {
    let listed = vec!["tools".to_string()];
    let sel = sel_labels(&[("env", "prod")]);
    let scope = namespace_scope(Some(&listed), Some(&sel));
    let mut ns = StrMap::new();
    ns.insert("prod-a".to_string(), labels(&[("env", "prod")]));

    assert!(namespace_in_scope(&scope, "own", "tools", &ns));
    assert!(namespace_in_scope(&scope, "own", "prod-a", &ns));
    assert!(!namespace_in_scope(&scope, "own", "own", &ns));
}
