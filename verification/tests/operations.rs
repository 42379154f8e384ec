use nanocached::cluster::Directory;
use nanocached::cluster::SharedRing;
use nanocached::fault::ErrorKind;
use nanocached::http::after_head;
use nanocached::http::answer_request;
use nanocached::http::http_response;
use nanocached::http::read_http_request_path;
use nanocached::http::route;
use nanocached::http::HeadStep;
use nanocached::http::Route;
use nanocached::leave::LeaveState;
use nanocached::lifecycle::is_ordinary_close;
use nanocached::lifecycle::pause_after_accept_error;
use nanocached::lifecycle::shutdown_step;
use nanocached::lifecycle::ServerAction;
use nanocached::lifecycle::ServerRun;
use nanocached::lifecycle::TaskStep;
use nanocached::limits::Platform;
use nanocached::limits::ACCEPT_ERROR_BACKOFF;
use nanocached::limits::DEFAULT_MAX_CONNECTIONS;
use nanocached::metrics::metrics_label_escape;
use nanocached::metrics::render_node_metrics;
use nanocached::metrics::CacheStats;
use nanocached::metrics::NamespaceStats;
use nanocached::migration::ActiveMigration;
use nanocached::node::NodeContext;
use nanocached::registration::adopt_roster;
use nanocached::registration::DiscoveryRole;
use nanocached::ring::HashRing;

fn stats(namespaces: Vec<NamespaceStats>) -> CacheStats {
    CacheStats {
        used_bytes: 123,
        max_memory_bytes: 1000,
        entries: 2,
        hits: 3,
        misses: 4,
        sets: 5,
        deletes: 6,
        evictions: 7,
        expirations: 8,
        incrs: 9,
        cas_sets: 10,
        cas_deletes: 11,
        namespaces,
    }
}

#[test]
fn metrics_endpoint_reports_cache_state_and_counters() {
    // Three stores, a read that finds its key and one that does not, an
    // increment, and a conditional store and deletion of the same key.
    let counted = CacheStats {
        used_bytes: 300,
        max_memory_bytes: 1_048_576,
        entries: 3,
        hits: 1,
        misses: 1,
        sets: 3,
        deletes: 0,
        evictions: 0,
        expirations: 0,
        incrs: 1,
        cas_sets: 1,
        cas_deletes: 1,
        namespaces: vec![
            NamespaceStats {
                namespace: Vec::new(),
                entries: 2,
                used_bytes: 200,
                budget_bytes: None,
            },
            NamespaceStats {
                namespace: b"users".to_vec(),
                entries: 1,
                used_bytes: 100,
                budget_bytes: Some(4096),
            },
        ],
    };
    let answer = |path: &str, stats: &Option<CacheStats>| {
        let response = answer_request(route(path), stats, 0, DEFAULT_MAX_CONNECTIONS, &None);
        let (head, body) = response.split_once("\r\n\r\n").unwrap();
        (head.lines().next().unwrap().to_string(), body.to_string())
    };
    let (status, body) = answer("/metrics", &Some(counted));
    assert_eq!(status, "HTTP/1.1 200 OK");
    for line in [
        "nanocached_node_entries 3\n",
        "nanocached_node_namespace_budget_bytes{namespace=\"users\"} 4096\n",
        "nanocached_node_hits_total 1\n",
        "nanocached_node_misses_total 1\n",
        "nanocached_node_sets_total 3\n",
        "nanocached_node_incrs_total 1\n",
        "nanocached_node_cas_sets_total 1\n",
        "nanocached_node_cas_deletes_total 1\n",
        "nanocached_node_namespace_entries{namespace=\"users\"} 1\n",
        "nanocached_node_namespace_entries{namespace=\"\"} 2\n",
        "nanocached_node_memory_used_bytes ",
        "nanocached_node_connections 0\n",
    ] {
        assert!(body.contains(line), "{line:?} is missing from {body}");
    }
    assert_eq!(answer("/healthz", &None).0, "HTTP/1.1 200 OK");
    assert_eq!(answer("/nope", &None).0, "HTTP/1.1 404 Not Found");
}

#[test]
fn every_counter_has_its_line() {
    let text = render_node_metrics(
        &stats(vec![
            NamespaceStats {
                namespace: Vec::new(),
                entries: 1,
                used_bytes: 60,
                budget_bytes: None,
            },
            NamespaceStats {
                namespace: b"users".to_vec(),
                entries: 1,
                used_bytes: 63,
                budget_bytes: Some(500),
            },
        ]),
        1,
        1024,
    );
    assert!(text.starts_with(
        "# HELP nanocached_node_memory_used_bytes Bytes of cache memory in use (keys + values + \
         per-entry overhead).\n# TYPE nanocached_node_memory_used_bytes gauge\n\
         nanocached_node_memory_used_bytes 123\n# HELP nanocached_node_memory_max_bytes The \
         --max-memory bound.\n"
    ));
    for line in [
        "nanocached_node_memory_max_bytes 1000\n",
        "nanocached_node_entries 2\n",
        "nanocached_node_connections 1\n",
        "nanocached_node_connections_max 1024\n",
        "nanocached_node_hits_total 3\n",
        "nanocached_node_misses_total 4\n",
        "nanocached_node_sets_total 5\n",
        "nanocached_node_deletes_total 6\n",
        "nanocached_node_evictions_total 7\n",
        "nanocached_node_expirations_total 8\n",
        "nanocached_node_incrs_total 9\n",
        "nanocached_node_cas_sets_total 10\n",
        "nanocached_node_cas_deletes_total 11\n",
        "nanocached_node_namespace_entries{namespace=\"\"} 1\n",
        "nanocached_node_namespace_entries{namespace=\"users\"} 1\n",
        "nanocached_node_namespace_used_bytes{namespace=\"users\"} 63\n",
    ] {
        assert!(text.contains(line), "{line:?} is missing from {text}");
    }
    assert!(text.ends_with(
        "# TYPE nanocached_node_namespace_budget_bytes gauge\n\
         nanocached_node_namespace_budget_bytes{namespace=\"users\"} 500\n"
    ));
    assert!(!text.contains("budget_bytes{namespace=\"\"}"));
}

#[test]
fn a_node_without_namespaces_reports_none() {
    let text = render_node_metrics(&stats(Vec::new()), 0, 1);
    assert!(!text.contains("nanocached_node_namespace"));
    assert!(text.ends_with("nanocached_node_cas_deletes_total 11\n"));
}

#[test]
fn labels_are_escaped() {
    assert_eq!(
        metrics_label_escape(b"a\\b\"c\nd"),
        "a\\\\b\\\"c\\nd".to_string()
    );
    assert_eq!(metrics_label_escape(b"\xff"), "\u{fffd}".to_string());
    assert_eq!(
        metrics_label_escape("gr\u{fc}n".as_bytes()),
        "gr\u{fc}n".to_string()
    );
    // A text that is escaped already does not collide with another.
    assert_ne!(metrics_label_escape(b"\\n"), metrics_label_escape(b"\n"));
}

#[test]
fn the_path_is_taken_from_a_get_request() {
    let path = |head: &[u8]| read_http_request_path(head);
    assert_eq!(
        path(b"GET /metrics HTTP/1.1\r\nHost: x\r\n\r\n"),
        Ok("/metrics".to_string())
    );
    assert_eq!(path(b"GET /healthz"), Ok("/healthz".to_string()));
    assert_eq!(path(b"GET \n"), Ok(String::new()));
    assert_eq!(path(b"GET /a\r"), Ok("/a\r".to_string()));
    assert_eq!(path(b"GET /\xff x"), Ok("/\u{fffd}".to_string()));
    for bad in [
        &b"POST /metrics HTTP/1.1\r\n\r\n"[..],
        b"",
        b"GET",
        b"GET\n/metrics",
        b" GET /metrics",
    ] {
        let error = path(bad).unwrap_err();
        assert_eq!(error.kind, ErrorKind::InvalidData);
        assert_eq!(error.text, "not a GET request");
    }
}

#[test]
fn a_request_head_is_bounded() {
    assert_eq!(after_head(b"GET / HTTP/1.1\r\n", false), HeadStep::Read);
    assert_eq!(
        after_head(b"GET / HTTP/1.1\r\n\r\n", false),
        HeadStep::Parse
    );
    assert_eq!(after_head(b"GET /", true), HeadStep::Parse);
    assert_eq!(after_head(&[b'x'; 8192], false), HeadStep::Read);
    match after_head(&[b'x'; 8193], false) {
        HeadStep::Fail(error) => assert_eq!(error.text, "oversized http request head"),
        other => panic!("unexpected {other:?}"),
    }
}

#[test]
fn a_response_declares_its_length() {
    assert_eq!(
        http_response("200 OK", "\u{fc}\n"),
        "HTTP/1.1 200 OK\r\nContent-Type: text/plain; version=0.0.4; charset=utf-8\r\n\
         Content-Length: 3\r\nConnection: close\r\n\r\n\u{fc}\n"
            .to_string()
    );
}

fn readiness(node: &Option<NodeContext>) -> String {
    answer_request(route("/readyz"), &None, 0, 1, node)
}

#[test]
fn readyz_gates_on_membership_for_cluster_nodes() {
    let not_ready = http_response("503 Service Unavailable", "joining\n");
    assert_eq!(readiness(&None), http_response("200 OK", "ok\n"));
    let mut node = Some(NodeContext::new("self".to_string(), "t".to_string()));
    assert_eq!(readiness(&node), not_ready);
    adopt_roster(
        DiscoveryRole::Primary,
        node.as_mut().unwrap(),
        &Some((vec!["self".to_string()], 1)),
        1,
        0,
    );
    assert_eq!(readiness(&node), http_response("200 OK", "ok\n"));
}

#[test]
fn a_node_that_leaves_is_not_ready() {
    let mut context = NodeContext::new("self".to_string(), "t".to_string());
    let members = vec!["self".to_string(), "peer".to_string()];
    adopt_roster(DiscoveryRole::Primary, &mut context, &Some((members, 1)), 1, 0);
    context.leaving = Some(LeaveState {
        before_ring: HashRing::new(vec!["self".to_string(), "peer".to_string()]),
        after_ring: HashRing::new(vec!["peer".to_string()]),
        replication: 1,
        addresses: Directory::new(),
        tokens: Directory::new(),
    });
    let mut node = Some(context);
    assert!(readiness(&node).starts_with("HTTP/1.1 503 Service Unavailable\r\n"));
    node.as_mut().unwrap().leaving = None;
    assert!(readiness(&node).starts_with("HTTP/1.1 200 OK\r\n"));
}

#[test]
fn each_path_has_its_answer() {
    assert_eq!(route("/metrics"), Route::Metrics);
    assert_eq!(route("/healthz"), Route::Health);
    assert_eq!(route("/metrics/"), Route::Unknown);
    let answer = |path: &str, stats: &Option<CacheStats>| {
        answer_request(route(path), stats, 2, 8, &None)
    };
    assert_eq!(answer("/healthz", &None), http_response("200 OK", "ok\n"));
    assert_eq!(
        answer("/metrics", &None),
        http_response("500 Internal Server Error", "cache actor unavailable\n")
    );
    let counted = stats(Vec::new());
    let body = render_node_metrics(&counted, 2, 8);
    assert_eq!(
        answer("/metrics", &Some(counted)),
        http_response("200 OK", &body)
    );
    assert_eq!(
        answer("/", &None),
        http_response("404 Not Found", "not found\n")
    );
}

#[test]
fn a_clustered_node_with_a_drain_budget_leaves_before_it_shuts_down() {
    let mut run = ServerRun::new();
    assert_eq!(run.on_decommissioned(&mut None), ServerAction::Serve);
    assert_eq!(run.on_signal(true, 1, &mut None), ServerAction::Decommission);
    assert!(run.heartbeats_stopped);
    assert!(!run.shutting_down);
    assert_eq!(run.on_decommissioned(&mut None), ServerAction::Shutdown);
    assert!(run.shutting_down);
}

#[test]
fn a_second_signal_while_draining_shuts_down_at_once() {
    let mut slot = Some(ActiveMigration {
        joining_name: "joiner".to_string(),
        joining_addr: "127.0.0.1:9".to_string(),
        joining_token: "t".to_string(),
        after_ring: SharedRing {
            id: 1,
            ring: HashRing::new(vec!["joiner".to_string()]),
        },
        replication: 1,
        completed_at: None,
        forwarding_grace: 0,
        acked_entries: None,
        abort_requested: false,
        marked_keys: Vec::new(),
        confirmed: false,
        pre_completion_ring: None,
        pending_clears: Vec::new(),
    });
    let mut run = ServerRun::new();
    assert_eq!(run.on_signal(true, 1, &mut slot), ServerAction::Decommission);
    assert!(!slot.as_ref().unwrap().abort_requested);
    assert_eq!(run.on_signal(true, 1, &mut slot), ServerAction::Shutdown);
    assert!(run.shutting_down);
    assert!(slot.as_ref().unwrap().abort_requested);
    // Nothing undoes it.
    assert_eq!(run.on_signal(true, 1, &mut slot), ServerAction::Shutdown);
    assert_eq!(run.on_decommissioned(&mut slot), ServerAction::Shutdown);
}

#[test]
fn a_node_on_its_own_or_without_a_budget_shuts_down_at_once() {
    for (is_cluster, budget) in [(false, 1), (true, 0)] {
        let mut run = ServerRun::new();
        assert_eq!(
            run.on_signal(is_cluster, budget, &mut None),
            ServerAction::Shutdown
        );
        assert!(run.heartbeats_stopped && run.shutting_down);
    }
}

#[test]
fn a_shutdown_waits_for_its_tasks_until_it_runs_out_of_time() {
    assert_eq!(shutdown_step(2, false), TaskStep::Await);
    assert_eq!(shutdown_step(2, true), TaskStep::AbortAll);
    assert_eq!(shutdown_step(0, false), TaskStep::Done);
    assert_eq!(shutdown_step(0, true), TaskStep::Done);
}

#[test]
fn a_node_pauses_after_an_accept_error_that_would_repeat_at_once() {
    assert_eq!(
        pause_after_accept_error(Platform::Unix, Some(24)),
        ACCEPT_ERROR_BACKOFF
    );
    assert_eq!(pause_after_accept_error(Platform::Unix, Some(103)), 0);
    assert_eq!(
        pause_after_accept_error(Platform::Other, None),
        ACCEPT_ERROR_BACKOFF
    );
}

#[test]
fn a_close_without_notice_is_ordinary() {
    assert!(is_ordinary_close(
        "peer closed connection without sending TLS close_notify: see docs"
    ));
    assert!(!is_ordinary_close("connection idle timeout"));
    assert!(!is_ordinary_close(""));
}
