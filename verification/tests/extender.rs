use nodescheduler::api::{Container, Pod, PodSpec, ResourceRequirements};
use nodescheduler::cache::{NodeInfo, PodInfo, Snapshot};
use nodescheduler::extender::{
    accept_status, binding_args, binding_outcome, check_https, client_identity, decode_base64,
    decoded_data, default_weight, duration_parts, endpoint, filter_outcome, first_route_step,
    host_header, node_args,
    node_to_api, parse_extenders, pem_source, pod_to_api, preemption_args, request_prefix,
    request_url, resolve_victims, resolved_route, scaled_scores, trust, unit_nanos, Endpoint,
    ExtenderConfig, ExtenderFilterResult, ExtenderTlsConfig, HostPriority, PemSource, RawExtenderConfig, RawExtenderTlsConfig,
    RawManagedResource, RouteStep, TimeoutText, WireMetaVictims,
};
use nodescheduler::maps::StrMap;
use nodescheduler::preempt::{Candidate, Victims};
use serde_json::Value;
use std::sync::Arc;

fn pod(name: &str) -> PodInfo {
    PodInfo { name: name.to_string(), ..Default::default() }
}

fn node(name: &str) -> NodeInfo {
    NodeInfo { name: name.to_string(), ..Default::default() }
}

const SECOND: u128 = 1_000_000_000;

fn text(v: &Value, key: &str) -> Option<String> {
    v.get(key).and_then(|t| t.as_str()).map(|t| t.to_string())
}

fn flag(v: &Value, key: &str) -> bool {
    v.get(key).and_then(|t| t.as_bool()).unwrap_or(false)
}

/// The length of a timeout, as the parts of its text add up.
fn timeout(raw: String) -> TimeoutText {
    let mut seconds = 0f64;
    for (number, unit) in duration_parts(&raw).unwrap() {
        let length = unit_nanos(&unit).unwrap() as f64 / 1e9;
        seconds += number.parse::<f64>().unwrap() * length;
    }
    TimeoutText { text: raw, nanos: Ok((seconds * 1e9).round() as u128) }
}

fn raw_config(v: &Value) -> RawExtenderConfig {
    RawExtenderConfig {
        url_prefix: text(v, "urlPrefix").unwrap(),
        filter_verb: text(v, "filterVerb"),
        prioritize_verb: text(v, "prioritizeVerb"),
        bind_verb: text(v, "bindVerb"),
        preempt_verb: text(v, "preemptVerb"),
        tls_config: v.get("tlsConfig").map(|t| RawExtenderTlsConfig {
            insecure: flag(t, "insecure"),
            server_name: text(t, "serverName").unwrap_or_default(),
            cert_file: text(t, "certFile").unwrap_or_default(),
            key_file: text(t, "keyFile").unwrap_or_default(),
            ca_file: text(t, "caFile").unwrap_or_default(),
            cert_data: text(t, "certData"),
            key_data: text(t, "keyData"),
            ca_data: text(t, "caData"),
        }),
        enable_https: flag(v, "enableHTTPS"),
        weight: v.get("weight").and_then(|w| w.as_i64()).unwrap_or_else(default_weight),
        node_cache_capable: flag(v, "nodeCacheCapable"),
        ignorable: flag(v, "ignorable"),
        http_timeout: text(v, "httpTimeout").map(timeout),
        http_timeout_seconds: v.get("httpTimeoutSeconds").and_then(|s| s.as_u64()),
        managed_resources: v
            .get("managedResources")
            .and_then(|m| m.as_array())
            .map(|m| {
                m.iter()
                    .map(|r| RawManagedResource {
                        name: text(r, "name").unwrap(),
                        ignored_by_scheduler: flag(r, "ignoredByScheduler"),
                    })
                    .collect()
            })
            .unwrap_or_default(),
    }
}

fn parse(raw: &str) -> Result<Vec<ExtenderConfig>, String> {
    let parsed: Value = serde_json::from_str(raw).unwrap();
    let raws = parsed.as_array().unwrap().iter().map(raw_config).collect();
    parse_extenders(&raws).map_err(|e| e.message())
}

#[test]
fn a_minimal_filter_only_extender_parses_with_upstream_defaults() {
    let cfgs = parse(r#"[{"urlPrefix":"http://ext:8888","filterVerb":"filter"}]"#).unwrap();
    assert_eq!(cfgs.len(), 1);
    let c = &cfgs[0];
    assert_eq!(c.url_prefix, "http://ext:8888");
    assert_eq!(c.filter_verb.as_deref(), Some("filter"));
    assert_eq!(c.prioritize_verb, None);
    assert_eq!(c.weight, 1, "upstream's own default weight");
    assert!(!c.node_cache_capable);
    assert!(!c.ignorable);
    assert_eq!(c.http_timeout, 5 * SECOND);
}

#[test]
fn filter_and_prioritize_with_explicit_fields_all_parse() {
    let cfgs = parse(
        r#"[{"urlPrefix":"https://ext","filterVerb":"filter","prioritizeVerb":"prioritize",
             "weight":3,"nodeCacheCapable":true,"ignorable":true,"httpTimeoutSeconds":30}]"#,
    )
    .unwrap();
    let c = &cfgs[0];
    assert_eq!(c.prioritize_verb.as_deref(), Some("prioritize"));
    assert_eq!(c.weight, 3);
    assert!(c.node_cache_capable);
    assert!(c.ignorable);
    assert_eq!(c.http_timeout, 30 * SECOND);
}

#[test]
fn a_bind_only_extender_is_a_valid_upstream_configuration() {
    let cfg = parse(r#"[{"urlPrefix":"http://ext","bindVerb":"bind"}]"#).unwrap();
    assert_eq!(cfg[0].bind_verb.as_deref(), Some("bind"));
}

#[test]
fn more_than_one_bind_extender_is_rejected_like_upstream() {
    let err = parse(
        r#"[{"urlPrefix":"http://a","bindVerb":"bind"},{"urlPrefix":"http://b","bindVerb":"bind"}]"#,
    )
    .unwrap_err()
    .to_string();
    assert!(err.contains("only one"), "{err}");
}

#[test]
fn a_prioritizer_requires_a_positive_weight() {
    let err = parse(
        r#"[{"urlPrefix":"http://ext","prioritizeVerb":"score","weight":0}]"#,
    )
    .unwrap_err()
    .to_string();
    assert!(err.contains("positive weight"), "{err}");
}

#[test]
fn empty_verbs_mean_the_extension_is_not_implemented() {
    let cfg = parse(
        r#"[{"urlPrefix":"http://ext","filterVerb":"","bindVerb":"bind"}]"#,
    )
    .unwrap();
    assert_eq!(cfg[0].filter_verb, None);
    assert_eq!(cfg[0].bind_verb.as_deref(), Some("bind"));
}

#[test]
fn a_preempt_verb_is_supported() {
    let cfg = parse(
        r#"[{"urlPrefix":"http://ext","filterVerb":"filter","preemptVerb":"preempt"}]"#,
    )
    .unwrap();
    assert_eq!(cfg[0].preempt_verb.as_deref(), Some("preempt"));
}

#[test]
fn upstream_tls_config_and_duration_fields_parse() {
    let cfg = parse(
        r#"[{"urlPrefix":"https://ext","filterVerb":"filter","enableHTTPS":true,
             "httpTimeout":"1m30.5s","tlsConfig":{"insecure":true,"caData":"UEVN"}}]"#,
    )
    .unwrap();
    assert!(cfg[0].enable_https);
    assert_eq!(cfg[0].http_timeout, 90_500_000_000);
    let tls = cfg[0].tls_config.as_ref().unwrap();
    assert!(tls.insecure);
    assert_eq!(tls.ca_data.as_deref(), Some(b"PEM".as_slice()));
}

#[test]
fn a_zero_upstream_timeout_gets_the_five_second_default() {
    let cfg = parse(
        r#"[{"urlPrefix":"http://ext","filterVerb":"filter","httpTimeout":"0s"}]"#,
    )
    .unwrap();
    assert_eq!(cfg[0].http_timeout, 5 * SECOND);
}

#[test]
fn managed_resources_parses_into_plain_names() {
    let cfgs = parse(
        r#"[{"urlPrefix":"http://ext","filterVerb":"filter",
             "managedResources":[{"name":"example.com/gpu"}]}]"#,
    )
    .unwrap();
    assert_eq!(cfgs[0].managed_resources, vec!["example.com/gpu".to_string()]);
}

#[test]
fn a_managed_resource_cannot_belong_to_two_extenders() {
    let err = parse(
        r#"[
            {"urlPrefix":"http://a","filterVerb":"filter","managedResources":[{"name":"example.com/gpu"}]},
            {"urlPrefix":"http://b","filterVerb":"filter","managedResources":[{"name":"example.com/gpu"}]}
        ]"#,
    )
    .unwrap_err()
    .to_string();
    assert!(err.contains("more than one extender"), "{err}");
}

#[test]
fn an_extender_with_no_managed_resources_applies_to_every_pod() {
    let cfgs = parse(r#"[{"urlPrefix":"http://ext","filterVerb":"filter"}]"#).unwrap();
    let pod = pod("p");
    assert!(cfgs[0].applies_to(&pod));
}

#[test]
fn an_extender_with_managed_resources_only_applies_to_a_pod_requesting_one() {
    let cfgs = parse(
        r#"[{"urlPrefix":"http://ext","filterVerb":"filter",
             "managedResources":[{"name":"example.com/gpu"}]}]"#,
    )
    .unwrap();
    let plain_pod = pod("p");
    assert!(!cfgs[0].applies_to(&plain_pod), "pod requests nothing the extender manages");

    let mut gpu_pod = pod("p");
    gpu_pod.requests.extended.insert("example.com/gpu".to_string(), 1);
    assert!(cfgs[0].applies_to(&gpu_pod));
}

#[test]
fn an_extender_with_neither_verb_is_refused() {
    let err = parse(r#"[{"urlPrefix":"http://ext"}]"#).unwrap_err().to_string();
    assert!(err.contains("neither filterVerb nor prioritizeVerb"), "{err}");
}

#[test]
fn multiple_extenders_parse_in_order() {
    let cfgs = parse(
        r#"[{"urlPrefix":"http://a","filterVerb":"filter"},{"urlPrefix":"http://b","prioritizeVerb":"prioritize"}]"#,
    )
    .unwrap();
    assert_eq!(cfgs.len(), 2);
    assert_eq!(cfgs[0].url_prefix, "http://a");
    assert_eq!(cfgs[1].url_prefix, "http://b");
}

#[test]
fn pod_to_api_carries_identity_and_scheduling_relevant_fields() {
    let mut pod = pod("p");
    pod.namespace = "ns".to_string();
    pod.uid = "the-uid".to_string();
    pod.priority = 7;
    let api = pod_to_api(&pod);
    assert_eq!(api.metadata.name.as_deref(), Some("p"));
    assert_eq!(api.metadata.namespace.as_deref(), Some("ns"));
    assert_eq!(api.metadata.uid.as_deref(), Some("the-uid"));
    assert_eq!(api.spec.as_ref().unwrap().priority, Some(7));
}

#[test]
fn node_to_api_carries_name_labels_and_taints() {
    let node = node("n1");
    let api = node_to_api(&node);
    assert_eq!(api.metadata.name.as_deref(), Some("n1"));
}


#[test]
fn tls_server_name_rewrites_sni_but_preserves_the_endpoint_host_header() {
    let config = parse(
        r#"[{"urlPrefix":"https://127.0.0.1:9443/base","filterVerb":"filter",
             "enableHTTPS":true,
             "tlsConfig":{"insecure":true,"serverName":"extender.internal"}}]"#,
    )
    .unwrap()
    .remove(0);
    assert!(check_https(&config).is_ok());
    let tls = config.tls_config.as_ref().unwrap();
    let at = endpoint(&config.url_prefix).unwrap();
    assert_eq!((at.host.as_str(), at.port), ("127.0.0.1", 9443));
    let prefix = request_prefix(&config.url_prefix, &tls.server_name).unwrap();
    assert_eq!(prefix, "https://extender.internal:9443/base");
    assert_eq!(host_header(&at, false), "127.0.0.1:9443");

    let RouteStep::Resolve(at) = first_route_step(&config) else { panic!("expected a lookup") };
    let route = resolved_route(&config, "extender.internal", &at, false, &Ok(1)).ok().unwrap();
    assert_eq!(route.request_url_prefix, "https://extender.internal:9443/base");
    assert_eq!(route.host_header.as_deref(), Some("127.0.0.1:9443"));
    assert_eq!(
        resolved_route(&config, "extender.internal", &at, false, &Ok(0)).err().unwrap(),
        "extender endpoint \"127.0.0.1\":9443 resolved to no addresses"
    );
    assert_eq!(
        resolved_route(&config, "extender.internal", &at, false, &Err("no".to_string())).err().unwrap(),
        "resolving extender endpoint \"127.0.0.1\":9443: no"
    );
}

#[test]
fn without_a_server_name_the_prefix_is_used_as_it_is() {
    let RouteStep::Direct(route) = first_route_step(&config(true)) else {
        panic!("expected no lookup")
    };
    assert_eq!(route.request_url_prefix, "http://ext/");
    assert!(route.host_header.is_none());
    assert!(trust(&config(true)).ok().unwrap().is_none());
}

#[test]
fn trust_takes_each_pem_from_where_it_is() {
    let mut c = config(true);
    c.tls_config = Some(ExtenderTlsConfig {
        insecure: true,
        server_name: String::new(),
        cert_file: "/c".to_string(),
        key_file: String::new(),
        ca_file: String::new(),
        cert_data: None,
        key_data: Some(vec![7]),
        ca_data: None,
    });
    let t = trust(&c).ok().unwrap().unwrap();
    assert!(t.insecure);
    assert!(matches!(t.authority, PemSource::Absent));
    assert!(matches!(t.certificate, PemSource::File(f) if f == "/c"));
    assert!(matches!(t.key, PemSource::Data(d) if d == &vec![7]));
}

#[test]
fn managed_resource_interest_includes_container_limits_like_upstream() {
    let cfgs = parse(
        r#"[{"urlPrefix":"http://ext","filterVerb":"filter",
             "managedResources":[{"name":"example.com/gpu"}]}]"#,
    )
    .unwrap();
    let mut limits = StrMap::new();
    limits.insert("example.com/gpu".to_string(), "1".to_string());
    let api = Pod {
        spec: Some(PodSpec {
            containers: vec![Container {
                name: "c".to_string(),
                resources: Some(ResourceRequirements { requests: None, limits: Some(limits) }),
            }],
            ..Default::default()
        }),
        ..Default::default()
    };
    let mut p = pod("p");
    p.api_object = Some(Arc::new(api));
    assert!(cfgs[0].applies_to(&p));
}

#[test]
fn an_endpoint_needs_a_host_and_a_port() {
    let at = endpoint("https://ext/base").unwrap();
    assert_eq!((at.port, at.explicit_port), (443, None));
    assert_eq!(host_header(&at, false), "ext");
    assert_eq!(host_header(&Endpoint { host: "::1".to_string(), port: 80, explicit_port: Some(80) }, true), "[::1]:80");
    assert!(endpoint("not a url").unwrap_err().starts_with("parsing extender urlPrefix \"not a url\": "));
    assert_eq!(endpoint("unix:/run/ext").unwrap_err(), "extender urlPrefix \"unix:/run/ext\" has no host");
    assert_eq!(
        endpoint("weird://ext").unwrap_err(),
        "extender urlPrefix \"weird://ext\" has no port and its scheme has no default"
    );
    assert_eq!(
        request_prefix("https://ext", "not a host").unwrap_err(),
        "invalid extender tlsConfig.serverName \"not a host\""
    );
}

#[test]
fn https_needs_an_authority_or_a_waiver() {
    let parsed = |tls: &str| {
        parse(&format!(
            r#"[{{"urlPrefix":"https://ext","filterVerb":"f","enableHTTPS":true,"tlsConfig":{tls}}}]"#
        ))
        .unwrap()
        .remove(0)
    };
    assert_eq!(
        check_https(&parsed("{}")).unwrap_err(),
        "HTTPS extender \"https://ext\" requires tlsConfig.caData/caFile or tlsConfig.insecure=true"
    );
    assert!(check_https(&parsed(r#"{"insecure":true}"#)).is_ok());
    assert!(check_https(&parsed(r#"{"caFile":"/ca.pem"}"#)).is_ok());
    assert!(check_https(&parsed(r#"{"caData":"UEVN"}"#)).is_ok());
}

#[test]
fn pem_data_comes_before_a_file_and_keys_come_in_pairs() {
    let file = "/x.pem".to_string();
    let nothing = String::new();
    assert!(matches!(pem_source(&Some(vec![1]), &file), PemSource::Data(d) if d == &vec![1]));
    assert!(matches!(pem_source(&Some(vec![]), &file), PemSource::File(f) if f == "/x.pem"));
    assert!(matches!(pem_source(&None, &nothing), PemSource::Absent));
    assert_eq!(client_identity(Some(vec![1]), Some(vec![2])).unwrap(), Some(vec![1, 10, 2]));
    assert_eq!(client_identity(None, None).unwrap(), None);
    assert_eq!(
        client_identity(None, Some(vec![2])).unwrap_err(),
        "extender TLS client authentication requires both certificate and key"
    );
}

#[test]
fn durations_split_into_numbers_and_units() {
    let parts = |raw: &str| duration_parts(raw);
    assert_eq!(
        parts("1m30.5s").unwrap(),
        vec![("1".to_string(), "m".to_string()), ("30.5".to_string(), "s".to_string())]
    );
    assert_eq!(parts("7").unwrap(), vec![("7".to_string(), String::new())]);
    assert!(parts("").is_none());
    assert!(parts("-1s").is_none());
    assert_eq!(unit_nanos("h"), Some(3_600_000_000_000));
    assert_eq!(unit_nanos("\u{b5}s"), Some(1_000));
    assert_eq!(unit_nanos(""), None);
    assert_eq!(unit_nanos("d"), None);
}

#[test]
fn base64_data_may_be_broken_across_lines() {
    assert_eq!(decode_base64(" UE\nVN\t").unwrap(), b"PEM".to_vec());
    assert!(decode_base64("U*VN").unwrap_err().starts_with("invalid base64 data: "));
    assert_eq!(decoded_data(Err("why".to_string())).unwrap_err(), "invalid base64 data: why");
    let err = parse(
        r#"[{"urlPrefix":"http://a","filterVerb":"f","tlsConfig":{"keyData":"*"}}]"#,
    )
    .unwrap_err();
    assert!(err.starts_with("invalid base64 data: "), "{err}");
}

#[test]
fn a_timeout_that_cannot_be_read_is_refused() {
    let mut raw = raw_config(
        &serde_json::from_str::<Value>(r#"{"urlPrefix":"http://a","filterVerb":"f"}"#).unwrap(),
    );
    raw.http_timeout = Some(TimeoutText {
        text: "5x".to_string(),
        nanos: Err("unsupported duration unit \"x\"".to_string()),
    });
    assert_eq!(
        parse_extenders(&vec![raw]).unwrap_err().message(),
        "extender \"http://a\" has invalid httpTimeout \"5x\": unsupported duration unit \"x\""
    );
}

#[test]
fn resources_the_scheduler_ignores_are_listed_apart() {
    let cfgs = parse(
        r#"[{"urlPrefix":"http://ext","filterVerb":"filter",
             "managedResources":[{"name":"a"},{"name":"b","ignoredByScheduler":true}]}]"#,
    )
    .unwrap();
    assert_eq!(cfgs[0].managed_resources, vec!["a".to_string(), "b".to_string()]);
    assert_eq!(cfgs[0].ignored_by_scheduler, vec!["b".to_string()]);
}

fn config(cache_capable: bool) -> ExtenderConfig {
    parse(&format!(
        r#"[{{"urlPrefix":"http://ext/","filterVerb":"filter","prioritizeVerb":"score","weight":3,
             "nodeCacheCapable":{cache_capable}}}]"#
    ))
    .unwrap()
    .remove(0)
}

fn two_nodes() -> Vec<Arc<NodeInfo>> {
    vec![Arc::new(node("n1")), Arc::new(node("n2"))]
}

fn reply(names: Option<Vec<&str>>, nodes: Option<Vec<&str>>, error: &str) -> ExtenderFilterResult {
    ExtenderFilterResult {
        nodes: nodes.map(|v| v.into_iter().map(|n| node_to_api(&node(n))).collect()),
        node_names: names.map(|v| v.into_iter().map(|n| n.to_string()).collect()),
        failed_nodes: StrMap::new(),
        failed_and_unresolvable_nodes: StrMap::new(),
        error: error.to_string(),
    }
}

#[test]
fn an_extender_is_sent_names_or_nodes() {
    let named = node_args(&config(true), &pod("p"), &two_nodes());
    assert_eq!(named.node_names, Some(vec!["n1".to_string(), "n2".to_string()]));
    assert!(named.nodes.is_none());
    let whole = node_args(&config(false), &pod("p"), &two_nodes());
    assert!(whole.node_names.is_none());
    assert_eq!(whole.nodes.unwrap()[1].metadata.name.as_deref(), Some("n2"));
}

#[test]
fn only_what_a_reply_names_passes() {
    let nodes = two_nodes();
    let some = filter_outcome(&config(true), &nodes, reply(Some(vec!["n2"]), None, "")).ok().unwrap();
    assert_eq!(some.passed, vec!["n2".to_string()]);
    assert!(some.replacement_nodes.is_none());
    let none = filter_outcome(&config(true), &nodes, reply(None, None, "")).ok().unwrap();
    assert!(none.passed.is_empty());
    let replaced = filter_outcome(&config(false), &nodes, reply(Some(vec!["n1"]), Some(vec!["n2"]), ""))
        .ok()
        .unwrap();
    assert_eq!(replaced.passed, vec!["n2".to_string()]);
    assert_eq!(replaced.replacement_nodes.unwrap().len(), 1);
}

#[test]
fn a_reply_with_an_error_or_a_strange_node_is_refused() {
    let nodes = two_nodes();
    assert_eq!(
        filter_outcome(&config(true), &nodes, reply(None, None, "down")).err().unwrap(),
        "extender \"http://ext/\" filter error: down"
    );
    assert_eq!(
        filter_outcome(&config(true), &nodes, reply(Some(vec!["n9"]), None, "")).err().unwrap(),
        "extender \"http://ext/\" claims filtered node \"n9\", which was not in its input node list"
    );
}

#[test]
fn scores_are_brought_to_the_schedulers_scale() {
    let scores = scaled_scores(
        &config(true),
        &vec![
            HostPriority { host: "n1".to_string(), score: 7 },
            HostPriority { host: "n2".to_string(), score: i64::MAX },
        ],
    );
    assert_eq!(scores, vec![("n1".to_string(), 210), ("n2".to_string(), i64::MAX)]);
}

fn preemption() -> (Snapshot, Vec<Candidate>) {
    let mut n = node("n1");
    let mut victim = pod("victim");
    victim.namespace = "ns".to_string();
    victim.uid = "uid-v".to_string();
    n.add_pod(Arc::new(victim), 1);
    n.add_pod(Arc::new(pod("bystander")), 2);
    let snapshot = Snapshot { nodes: vec![Arc::new(n)], ..Default::default() };
    let candidates = vec![Candidate {
        node: "n1".to_string(),
        victims: Victims { pods: vec!["ns/victim".to_string()], pdb_violations: 1 },
        highest_victim_priority: 0,
        sum_victim_priorities: 0,
        latest_start_of_highest: None,
    }];
    (snapshot, candidates)
}

#[test]
fn preemption_candidates_are_sent_by_uid_or_whole() {
    let (snapshot, candidates) = preemption();
    let args = preemption_args(&config(true), &pod("p"), &candidates, &snapshot).ok().unwrap();
    assert!(args.node_name_to_victims.is_none());
    let meta = args.node_name_to_meta_victims.unwrap();
    let victims = meta.get("n1").unwrap();
    assert_eq!(victims.pods, vec!["uid-v".to_string()]);
    assert_eq!(victims.num_pdb_violations, 1);

    let args = preemption_args(&config(false), &pod("p"), &candidates, &snapshot).ok().unwrap();
    assert!(args.node_name_to_meta_victims.is_none());
    let full = args.node_name_to_victims.unwrap();
    assert_eq!(full.get("n1").unwrap().pods[0].metadata.name.as_deref(), Some("victim"));

    let gone = preemption_args(&config(true), &pod("p"), &candidates, &Snapshot::default());
    assert_eq!(
        gone.err().unwrap(),
        "preemption candidate node \"n1\" disappeared from the snapshot"
    );
}

#[test]
fn victims_are_resolved_to_keys_or_refused() {
    let (snapshot, _) = preemption();
    let named = |node: &str, uid: &str, violations: i64| {
        let mut m = StrMap::new();
        m.insert(
            node.to_string(),
            WireMetaVictims { pods: vec![uid.to_string()], num_pdb_violations: violations },
        );
        m
    };
    let resolved = resolve_victims(&config(true), &named("n1", "uid-v", -3), &snapshot).ok().unwrap();
    assert_eq!(resolved[0].node, "n1");
    assert_eq!(resolved[0].pod_keys, vec!["ns/victim".to_string()]);
    assert_eq!(resolved[0].pdb_violations, 0);
    assert_eq!(
        resolve_victims(&config(true), &named("n2", "uid-v", 0), &snapshot).err().unwrap(),
        "extender \"http://ext/\" returned preemption victims for unknown node \"n2\""
    );
    assert_eq!(
        resolve_victims(&config(true), &named("n1", "uid-x", 0), &snapshot).err().unwrap(),
        "extender \"http://ext/\" claims to preempt pod UID \"uid-x\" on node \"n1\", but that pod is not on the node"
    );
}

#[test]
fn bindings_urls_and_statuses() {
    let mut p = pod("p");
    p.namespace = "ns".to_string();
    p.uid = "u".to_string();
    let args = binding_args(&p, "n1");
    assert_eq!((args.pod_name.as_str(), args.pod_namespace.as_str()), ("p", "ns"));
    assert_eq!((args.pod_uid.as_str(), args.node.as_str()), ("u", "n1"));
    assert!(binding_outcome(&config(true), "").is_ok());
    assert_eq!(
        binding_outcome(&config(true), "taken").unwrap_err(),
        "extender \"http://ext/\" bind error: taken"
    );
    assert_eq!(request_url("http://ext//", "filter"), "http://ext/filter");
    assert!(accept_status("http://ext/filter", 200, "200 OK").is_ok());
    assert_eq!(
        accept_status("http://ext/filter", 204, "204 No Content").unwrap_err(),
        "extender \"http://ext/filter\" returned HTTP 204 No Content"
    );
}

#[test]
fn a_node_is_described_by_its_cpu_and_memory() {
    let mut n = node("n1");
    n.allocatable.milli_cpu = 1500;
    n.allocatable.memory = 1024;
    n.unschedulable = true;
    let api = node_to_api(&n);
    let allocatable = api.status.as_ref().unwrap().allocatable.as_ref().unwrap();
    assert_eq!(allocatable.get("cpu").map(String::as_str), Some("1500m"));
    assert_eq!(allocatable.get("memory").map(String::as_str), Some("1024"));
    assert_eq!(api.spec.as_ref().unwrap().unschedulable, Some(true));
}
