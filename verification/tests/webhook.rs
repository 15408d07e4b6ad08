use sysctl_mutator::string_map::StringMap;
use sysctl_mutator::webhook::{
    calculate_merged_sysctls, mutate_handler_inner, read_namespace_sysctls, same_sysctls, AdmissionRequest, Namespace,
    Operation, PatchOp, PatchTarget, Pod, PodSecurityContext, PodSpec, Sysctl, Verdict,
    MISSING_OBJECT_CODE, STATUS_BAD_REQUEST, STATUS_OK, SYSCTLS_ANNOTATION,
};

fn sysctl(name: &str, value: &str) -> Sysctl {
    Sysctl { name: name.to_string(), value: value.to_string() }
}

fn create_test_pod(sysctls: Option<Vec<Sysctl>>) -> Pod {
    Pod {
        spec: Some(PodSpec {
            host_network: None,
            host_ipc: None,
            security_context: sysctls.map(|s| PodSecurityContext { sysctls: Some(s) }),
        }),
    }
}

fn create_test_ns(annotation_val: Option<&str>) -> Namespace {
    let mut annotations = StringMap::new();
    if let Some(val) = annotation_val {
        annotations.insert(
            "sysctl-mutator.gromware.com/sysctls".to_string(),
            val.to_string(),
        );
    }
    Namespace { annotations: Some(annotations) }
}

fn defaults() -> StringMap {
    let mut defaults = StringMap::new();
    defaults.insert(
        "net.ipv4.ip_local_port_range".to_string(),
        "1024 65000".to_string(),
    );
    defaults.insert("net.core.somaxconn".to_string(), "1024".to_string());
    defaults
}

fn names_values(v: &[Sysctl]) -> Vec<(String, String)> {
    v.iter().map(|s| (s.name.clone(), s.value.clone())).collect()
}

fn request(object: Option<Pod>) -> AdmissionRequest {
    AdmissionRequest {
        operation: Operation::Create,
        namespace: Some("test-ns".to_string()),
        object,
    }
}

#[test]
fn test_hierarchical_merge() {
    // 1. Defaults setup
    let mut defaults = StringMap::new();
    defaults.insert(
        "net.ipv4.ip_local_port_range".to_string(),
        "1024 65000".to_string(),
    );
    defaults.insert("net.core.somaxconn".to_string(), "1024".to_string());

    // Scenario A: Pod with no annotations, NS with no annotations -> inherits only defaults
    let pod_a = create_test_pod(None);
    let ns_a = create_test_ns(None);
    let merged_a = calculate_merged_sysctls(&pod_a, Some(&ns_a), &defaults);
    assert_eq!(merged_a.len(), 2);
    assert_eq!(merged_a[0].name, "net.core.somaxconn");
    assert_eq!(merged_a[0].value, "1024");
    assert_eq!(merged_a[1].name, "net.ipv4.ip_local_port_range");
    assert_eq!(merged_a[1].value, "1024 65000");

    // Scenario B: NS overrides a default and adds a new one
    let ns_b = create_test_ns(Some(
        r#"{"net.core.somaxconn": "2048", "net.ipv4.tcp_rmem": "4096 87380 16777216"}"#,
    ));
    let merged_b = calculate_merged_sysctls(&pod_a, Some(&ns_b), &defaults);
    assert_eq!(merged_b.len(), 3);
    // net.core.somaxconn should be overridden by Namespace to 2048
    let somaxconn = merged_b
        .iter()
        .find(|s| s.name == "net.core.somaxconn")
        .unwrap();
    assert_eq!(somaxconn.value, "2048");
    // net.ipv4.tcp_rmem should be added
    let tcp_rmem = merged_b
        .iter()
        .find(|s| s.name == "net.ipv4.tcp_rmem")
        .unwrap();
    assert_eq!(tcp_rmem.value, "4096 87380 16777216");
    // net.ipv4.ip_local_port_range should still be default
    let port_range = merged_b
        .iter()
        .find(|s| s.name == "net.ipv4.ip_local_port_range")
        .unwrap();
    assert_eq!(port_range.value, "1024 65000");

    // Scenario C: Pod overrides default and Namespace
    let pod_c = create_test_pod(Some(vec![Sysctl {
        name: "net.core.somaxconn".to_string(),
        value: "4096".to_string(),
    }]));
    let merged_c = calculate_merged_sysctls(&pod_c, Some(&ns_b), &defaults);
    let somaxconn_c = merged_c
        .iter()
        .find(|s| s.name == "net.core.somaxconn")
        .unwrap();
    // Pod value 4096 should override NS value 2048 and default value 1024
    assert_eq!(somaxconn_c.value, "4096");
}

#[test]
fn merge_lists_names_in_order_once() {
    let ns = create_test_ns(Some(r#"{"net.ipv4.tcp_rmem": "1", "kernel.shmmax": "2"}"#));
    let pod = create_test_pod(Some(vec![
        sysctl("net.core.somaxconn", "10"),
        sysctl("a.b", "x"),
        sysctl("net.core.somaxconn", "20"),
    ]));
    let merged = calculate_merged_sysctls(&pod, Some(&ns), &defaults());
    assert_eq!(
        names_values(&merged),
        vec![
            ("a.b".to_string(), "x".to_string()),
            ("kernel.shmmax".to_string(), "2".to_string()),
            ("net.core.somaxconn".to_string(), "20".to_string()),
            ("net.ipv4.ip_local_port_range".to_string(), "1024 65000".to_string()),
            ("net.ipv4.tcp_rmem".to_string(), "1".to_string()),
        ]
    );
}

#[test]
fn merge_ignores_unreadable_annotation() {
    let ns = create_test_ns(Some("not json"));
    let pod = create_test_pod(None);
    let merged = calculate_merged_sysctls(&pod, Some(&ns), &defaults());
    assert_eq!(
        names_values(&merged),
        vec![
            ("net.core.somaxconn".to_string(), "1024".to_string()),
            ("net.ipv4.ip_local_port_range".to_string(), "1024 65000".to_string()),
        ]
    );
}

#[test]
fn merge_without_namespace_uses_defaults_and_pod() {
    let pod = create_test_pod(Some(vec![sysctl("net.core.somaxconn", "7")]));
    let merged = calculate_merged_sysctls(&pod, None, &defaults());
    assert_eq!(
        names_values(&merged),
        vec![
            ("net.core.somaxconn".to_string(), "7".to_string()),
            ("net.ipv4.ip_local_port_range".to_string(), "1024 65000".to_string()),
        ]
    );
    let no_annotations = Namespace { annotations: None };
    let merged2 = calculate_merged_sysctls(&pod, Some(&no_annotations), &defaults());
    assert_eq!(names_values(&merged2), names_values(&merged));
}

#[test]
fn annotation_key_is_the_documented_one() {
    assert_eq!(SYSCTLS_ANNOTATION, "sysctl-mutator.gromware.com/sysctls");
}

#[test]
fn same_sysctls_ignores_order_but_not_counts() {
    let a = vec![sysctl("x", "1"), sysctl("y", "2")];
    let b = vec![sysctl("y", "2"), sysctl("x", "1")];
    assert!(same_sysctls(&a, &b));
    assert!(same_sysctls(&a, &a));
    assert!(!same_sysctls(&a, &vec![sysctl("x", "1")]));
    assert!(!same_sysctls(&vec![sysctl("x", "1"), sysctl("x", "1")], &vec![sysctl("x", "1")]));
    assert!(!same_sysctls(&a, &vec![sysctl("x", "1"), sysctl("y", "3")]));
    assert!(same_sysctls(&vec![], &vec![]));
}

#[test]
fn review_without_request_is_bad_request() {
    let out = mutate_handler_inner(None, None, &defaults());
    assert_eq!(out.status, STATUS_BAD_REQUEST);
    assert_eq!(out.status, 400);
    assert!(!out.allowed);
    assert!(matches!(out.verdict, Verdict::MissingRequest));
    assert_eq!(out.operation_label(), "UNKNOWN");
    assert_eq!(out.namespace_label(), "unknown");
}

#[test]
fn request_without_pod_is_refused() {
    let req = AdmissionRequest { operation: Operation::Update, namespace: None, object: None };
    let out = mutate_handler_inner(Some(&req), None, &defaults());
    assert_eq!(out.status, STATUS_OK);
    assert_eq!(out.status, 200);
    assert!(!out.allowed);
    assert!(matches!(out.verdict, Verdict::MissingObject));
    assert_eq!(out.operation_label(), "UPDATE");
    assert_eq!(out.namespace_label(), "unknown");
    assert_eq!(MISSING_OBJECT_CODE, 400);
}

#[test]
fn host_network_pod_is_left_alone() {
    for (net, ipc) in [(Some(true), None), (None, Some(true)), (Some(true), Some(false))] {
        let pod = Pod {
            spec: Some(PodSpec { host_network: net, host_ipc: ipc, security_context: None }),
        };
        let out = mutate_handler_inner(Some(&request(Some(pod))), None, &defaults());
        assert!(out.allowed);
        assert!(matches!(out.verdict, Verdict::Allow));
        assert_eq!(out.operation_label(), "CREATE");
        assert_eq!(out.namespace_label(), "test-ns");
    }
}

#[test]
fn pod_without_security_context_gets_one() {
    let ns = create_test_ns(Some(r#"{"net.core.somaxconn": "2048"}"#));
    let pod = Pod {
        spec: Some(PodSpec { host_network: Some(false), host_ipc: None, security_context: None }),
    };
    let out = mutate_handler_inner(Some(&request(Some(pod))), Some(&ns), &StringMap::new());
    assert!(out.allowed);
    match out.verdict {
        Verdict::Patch(p) => {
            assert_eq!(p.op, PatchOp::Add);
            assert_eq!(p.target, PatchTarget::SecurityContext);
            assert_eq!(p.op.name(), "add");
            assert_eq!(p.target.path(), "/spec/securityContext");
            assert_eq!(names_values(&p.sysctls), vec![("net.core.somaxconn".to_string(), "2048".to_string())]);
        },
        _ => panic!("expected a patch"),
    }
}

#[test]
fn pod_without_sysctl_list_gets_one() {
    let pod = Pod {
        spec: Some(PodSpec {
            host_network: None,
            host_ipc: None,
            security_context: Some(PodSecurityContext { sysctls: None }),
        }),
    };
    let out = mutate_handler_inner(Some(&request(Some(pod))), None, &defaults());
    match out.verdict {
        Verdict::Patch(p) => {
            assert_eq!(p.op, PatchOp::Add);
            assert_eq!(p.target, PatchTarget::Sysctls);
            assert_eq!(p.target.path(), "/spec/securityContext/sysctls");
            assert_eq!(p.sysctls.len(), 2);
        },
        _ => panic!("expected a patch"),
    }
}

#[test]
fn pod_with_outdated_sysctls_gets_them_replaced() {
    let pod = create_test_pod(Some(vec![sysctl("kernel.shmmax", "1")]));
    let out = mutate_handler_inner(Some(&request(Some(pod))), None, &defaults());
    match out.verdict {
        Verdict::Patch(p) => {
            assert_eq!(p.op, PatchOp::Replace);
            assert_eq!(p.op.name(), "replace");
            assert_eq!(p.target, PatchTarget::Sysctls);
            assert_eq!(
                names_values(&p.sysctls),
                vec![
                    ("kernel.shmmax".to_string(), "1".to_string()),
                    ("net.core.somaxconn".to_string(), "1024".to_string()),
                    ("net.ipv4.ip_local_port_range".to_string(), "1024 65000".to_string()),
                ]
            );
        },
        _ => panic!("expected a patch"),
    }
}

#[test]
fn pod_already_holding_merged_sysctls_is_left_alone() {
    // Same sysctls in another order.
    let pod = create_test_pod(Some(vec![
        sysctl("net.ipv4.ip_local_port_range", "1024 65000"),
        sysctl("net.core.somaxconn", "1024"),
    ]));
    let out = mutate_handler_inner(Some(&request(Some(pod))), None, &defaults());
    assert!(out.allowed);
    assert!(matches!(out.verdict, Verdict::Allow));
}

#[test]
fn pod_with_duplicate_entry_is_patched() {
    let pod = create_test_pod(Some(vec![
        sysctl("net.core.somaxconn", "1024"),
        sysctl("net.ipv4.ip_local_port_range", "1024 65000"),
        sysctl("net.core.somaxconn", "1024"),
    ]));
    let out = mutate_handler_inner(Some(&request(Some(pod))), None, &defaults());
    match out.verdict {
        Verdict::Patch(p) => {
            assert_eq!(p.op, PatchOp::Replace);
            assert_eq!(p.sysctls.len(), 2);
        },
        _ => panic!("expected a patch"),
    }
}

#[test]
fn empty_merge_on_bare_pod_is_left_alone() {
    let pod = Pod { spec: None };
    let out = mutate_handler_inner(Some(&request(Some(pod))), None, &StringMap::new());
    assert!(matches!(out.verdict, Verdict::Allow));
}

#[test]
fn patched_pod_is_left_alone_on_second_review() {
    let ns = create_test_ns(Some(r#"{"net.core.somaxconn": "2048", "net.ipv4.tcp_rmem": "4096"}"#));
    let pod = create_test_pod(Some(vec![sysctl("kernel.shmmax", "5")]));
    let out = mutate_handler_inner(Some(&request(Some(pod))), Some(&ns), &defaults());
    let patched = match out.verdict {
        Verdict::Patch(p) => create_test_pod(Some(p.sysctls)),
        _ => panic!("expected a patch"),
    };
    let again = mutate_handler_inner(Some(&request(Some(patched))), Some(&ns), &defaults());
    assert!(again.allowed);
    assert!(matches!(again.verdict, Verdict::Allow));
}

#[test]
fn operation_labels() {
    assert_eq!(Operation::Create.label(), "CREATE");
    assert_eq!(Operation::Update.label(), "UPDATE");
    assert_eq!(Operation::Delete.label(), "DELETE");
    assert_eq!(Operation::Connect.label(), "CONNECT");
}

#[test]
fn unreadable_annotation_is_reported_by_the_review() {
    let ns = create_test_ns(Some("{not json"));
    let pod = create_test_pod(None);
    let out = mutate_handler_inner(Some(&request(Some(pod))), Some(&ns), &defaults());
    assert!(out.annotation_error.is_some());
    assert!(out.allowed);
    assert!(matches!(out.verdict, Verdict::Patch(_)));

    let good = create_test_ns(Some(r#"{"a": "1"}"#));
    let out2 = mutate_handler_inner(Some(&request(Some(create_test_pod(None)))), Some(&good), &defaults());
    assert!(out2.annotation_error.is_none());

    let host_pod = Pod {
        spec: Some(PodSpec { host_network: Some(true), host_ipc: None, security_context: None }),
    };
    let out3 = mutate_handler_inner(Some(&request(Some(host_pod))), Some(&ns), &defaults());
    assert!(out3.annotation_error.is_none());
}

#[test]
fn read_namespace_sysctls_reports_errors() {
    let (m, err) = read_namespace_sysctls(Some(&create_test_ns(Some("[1, 2]"))));
    assert!(m.is_empty());
    assert!(err.is_some());
    let (m, err) = read_namespace_sysctls(Some(&create_test_ns(Some(r#"{"x": "y"}"#))));
    assert_eq!(m.get("x").unwrap(), "y");
    assert!(err.is_none());
    let (m, err) = read_namespace_sysctls(Some(&create_test_ns(None)));
    assert!(m.is_empty());
    assert!(err.is_none());
    let (m, err) = read_namespace_sysctls(None);
    assert!(m.is_empty());
    assert!(err.is_none());
}

#[test]
fn reordered_pod_sysctls_give_the_same_outcome() {
    let ns = create_test_ns(Some(r#"{"net.ipv4.tcp_rmem": "4096"}"#));
    let a = create_test_pod(Some(vec![sysctl("b.x", "1"), sysctl("a.y", "2"), sysctl("c.z", "3")]));
    let b = create_test_pod(Some(vec![sysctl("c.z", "3"), sysctl("b.x", "1"), sysctl("a.y", "2")]));
    let out_a = mutate_handler_inner(Some(&request(Some(a))), Some(&ns), &defaults());
    let out_b = mutate_handler_inner(Some(&request(Some(b))), Some(&ns), &defaults());
    match (out_a.verdict, out_b.verdict) {
        (Verdict::Patch(p), Verdict::Patch(q)) => {
            assert_eq!(p.op, q.op);
            assert_eq!(p.target, q.target);
            assert_eq!(names_values(&p.sysctls), names_values(&q.sysctls));
        },
        _ => panic!("expected two patches"),
    }
}
