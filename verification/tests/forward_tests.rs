use adaptive_balancer::cache::SimpleCache;
use adaptive_balancer::dispatcher::DynamicWeightedBalancer;
use adaptive_balancer::forward::{
    build_forward_uri, is_static_resource, retry_decide, route_request, should_cache_response,
    RetryDecision, RouteDecision, UpstreamOutcome,
};
use adaptive_balancer::worker::{Category, QueueItem};

#[test]
fn static_extensions_are_recognised() {
    for p in
        [&b"/a.jpg"[..], b"/a.jpeg", b"/a.png", b"/a.gif", b"/style.css", b"/x/app.js"]
    {
        assert!(is_static_resource(&p.to_vec()), "{:?}", p);
    }
    for p in [&b"/api/x"[..], b"/a.html", b"/a.jsx", b"/png", b""] {
        assert!(!is_static_resource(&p.to_vec()), "{:?}", p);
    }
}

#[test]
fn forward_uri_is_assembled() {
    let uri = build_forward_uri(&b"worker-1".to_vec(), 5000, &b"/api/x".to_vec());
    assert_eq!(String::from_utf8(uri).unwrap(), "http://worker-1:5000/api/x");
}

#[test]
fn upstream_status_is_never_retried() {
    assert_eq!(
        retry_decide(0, UpstreamOutcome::Responded { status: 500 }),
        RetryDecision::Done { status: 500 }
    );
    assert_eq!(
        retry_decide(2, UpstreamOutcome::Responded { status: 200 }),
        RetryDecision::Done { status: 200 }
    );
}

#[test]
fn failures_retry_with_doubling_backoff() {
    assert_eq!(
        retry_decide(0, UpstreamOutcome::ConnectError),
        RetryDecision::RetryAfter { backoff_ms: 100 }
    );
    assert_eq!(
        retry_decide(1, UpstreamOutcome::IoError),
        RetryDecision::RetryAfter { backoff_ms: 200 }
    );
}

#[test]
fn one_failure_then_success_costs_one_backoff() {
    // a connect refusal then a response: one retry, backed off 100 ms,
    // and the second attempt's status is final
    let d1 = retry_decide(0, UpstreamOutcome::ConnectError);
    assert_eq!(d1, RetryDecision::RetryAfter { backoff_ms: 100 });
    let d2 = retry_decide(1, UpstreamOutcome::Responded { status: 200 });
    assert_eq!(d2, RetryDecision::Done { status: 200 });
}

#[test]
fn exhausted_budget_maps_to_gateway_statuses() {
    assert_eq!(retry_decide(2, UpstreamOutcome::TimedOut), RetryDecision::GiveUp { status: 504 });
    assert_eq!(
        retry_decide(2, UpstreamOutcome::ConnectError),
        RetryDecision::GiveUp { status: 503 }
    );
    assert_eq!(retry_decide(2, UpstreamOutcome::IoError), RetryDecision::GiveUp { status: 503 });
}

#[test]
fn cache_admission_takes_static_get_success_only() {
    assert!(should_cache_response(true, &b"/a.png".to_vec(), 200));
    assert!(should_cache_response(true, &b"/a.png".to_vec(), 299));
    assert!(!should_cache_response(false, &b"/a.png".to_vec(), 200));
    assert!(!should_cache_response(true, &b"/api".to_vec(), 200));
    assert!(!should_cache_response(true, &b"/a.png".to_vec(), 304));
    assert!(!should_cache_response(true, &b"/a.png".to_vec(), 404));
}

#[test]
fn no_backend_yields_refusal() {
    let balancer = DynamicWeightedBalancer::new(vec![], 0);
    let mut cache = SimpleCache::new(4);
    let d = route_request(
        &balancer,
        &mut cache,
        true,
        &b"/a.png".to_vec(),
        &b"/a.png".to_vec(),
        5000,
        0,
    );
    assert!(matches!(d, RouteDecision::NoBackend));
}

#[test]
fn cached_static_get_short_circuits() {
    let balancer = DynamicWeightedBalancer::new(
        vec![QueueItem { dns_name: b"w1".to_vec(), score_milli: 90_000, category: Category::Lu }],
        0,
    );
    let mut cache = SimpleCache::new(4);
    cache.set(b"/a.png".to_vec(), b"IMG".to_vec(), 3_600_000, 0);
    let d = route_request(
        &balancer,
        &mut cache,
        true,
        &b"/a.png".to_vec(),
        &b"/a.png".to_vec(),
        5000,
        1000,
    );
    match d {
        RouteDecision::CachedResponse { body } => assert_eq!(body, b"IMG".to_vec()),
        other => panic!("expected a cached response, got {:?}", discriminant_name(&other)),
    }
}

#[test]
fn uncached_request_is_forwarded() {
    let balancer = DynamicWeightedBalancer::new(
        vec![QueueItem { dns_name: b"w1".to_vec(), score_milli: 90_000, category: Category::Lu }],
        0,
    );
    let mut cache = SimpleCache::new(4);
    let d = route_request(
        &balancer,
        &mut cache,
        false,
        &b"/api/x".to_vec(),
        &b"/api/x".to_vec(),
        5000,
        0,
    );
    match d {
        RouteDecision::ForwardTo { dns_name, uri } => {
            assert_eq!(dns_name, b"w1".to_vec());
            assert_eq!(String::from_utf8(uri).unwrap(), "http://w1:5000/api/x");
        },
        _ => panic!("expected a forward decision"),
    }
}

fn discriminant_name(d: &RouteDecision) -> &'static str {
    match d {
        RouteDecision::CachedResponse { .. } => "CachedResponse",
        RouteDecision::ForwardTo { .. } => "ForwardTo",
        RouteDecision::NoBackend => "NoBackend",
    }
}
