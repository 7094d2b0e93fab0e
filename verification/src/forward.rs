//! Forward-proxy decisions: static-resource detection, cache admission,
//! target URI construction, and the retry policy for upstream attempts.
//!
//! The surrounding I/O (accepting, sending, timing) is not here; these
//! functions decide, from plain values, what the proxy does next.
use vstd::prelude::*;
use crate::cache::{spec_get_result, spec_get_state, SimpleCache};
use crate::dispatcher::DynamicWeightedBalancer;
use crate::text::{append_bytes, dec_u64, spec_dec};
use crate::worker::{Category, QueueItem};

verus! {

/// Maximum number of attempts to reach an upstream worker for one request.
pub const MAX_ATTEMPTS: u8 = 3;

/// Backoff before the second attempt, in milliseconds; it doubles after
/// each further failure.
pub const FIRST_BACKOFF_MS: u64 = 100;

/// Time-to-live of a cached static response, in milliseconds.
pub const CACHE_TTL_MS: u64 = 3_600_000;

/// Whether `s` ends with `suffix`.
pub open spec fn spec_ends_with(s: Seq<u8>, suffix: Seq<u8>) -> bool {
    s.len() >= suffix.len() && s.skip(s.len() - suffix.len()) == suffix
}

/// The cacheable path suffixes: ".jpg", ".jpeg", ".png", ".gif", ".css",
/// ".js".
pub open spec fn spec_static_suffixes() -> Seq<Seq<u8>> {
    seq![
        seq![46u8, 106u8, 112u8, 103u8],
        seq![46u8, 106u8, 112u8, 101u8, 103u8],
        seq![46u8, 112u8, 110u8, 103u8],
        seq![46u8, 103u8, 105u8, 102u8],
        seq![46u8, 99u8, 115u8, 115u8],
        seq![46u8, 106u8, 115u8],
    ]
}

/// Whether a path names a static resource.
pub open spec fn spec_is_static(path: Seq<u8>) -> bool {
    exists|i: int| 0 <= i < spec_static_suffixes().len() && spec_ends_with(
        path,
        #[trigger] spec_static_suffixes()[i],
    )
}

/// Whether `s` ends with `suffix`, byte for byte.
pub fn ends_with_bytes(s: &Vec<u8>, suffix: &Vec<u8>) -> (r: bool)
    ensures
        r == spec_ends_with(s@, suffix@),
{
    if s.len() < suffix.len() {
        return false;
    }
    let n: usize = s.len();
    let off: usize = n - suffix.len();
    let mut i: usize = 0;
    while i < suffix.len()
        invariant
            s@.len() >= suffix@.len(),
            s@.len() <= usize::MAX,
            off == s@.len() - suffix@.len(),
            i <= suffix@.len(),
            forall|j: int| 0 <= j < i ==> s@[off + j] == suffix@[j],
        decreases suffix@.len() - i,
    {
        if s[off + i] != suffix[i] {
            proof {
                assert(s@.skip(off as int)[i as int] == s@[off + i]);
            }
            return false;
        }
        i += 1;
    }
    proof {
        assert(s@.skip(off as int) =~= suffix@);
    }
    true
}

/// Whether the path names a static resource: it ends in one of ".jpg",
/// ".jpeg", ".png", ".gif", ".css", ".js".
pub fn is_static_resource(path: &Vec<u8>) -> (r: bool)
    ensures
        r == spec_is_static(path@),
{
    let suffixes: Vec<Vec<u8>> = static_suffixes();
    let mut i: usize = 0;
    while i < suffixes.len()
        invariant
            suffixes@.len() == spec_static_suffixes().len(),
            forall|j: int|
                0 <= j < suffixes@.len() ==> (#[trigger] suffixes@[j])@ == spec_static_suffixes()[j],
            i <= suffixes@.len(),
            forall|j: int| 0 <= j < i ==> !spec_ends_with(path@, spec_static_suffixes()[j]),
        decreases suffixes@.len() - i,
    {
        if ends_with_bytes(path, &suffixes[i]) {
            return true;
        }
        i += 1;
    }
    false
}

/// The static suffixes as byte vectors.
fn static_suffixes() -> (r: Vec<Vec<u8>>)
    ensures
        r@.len() == spec_static_suffixes().len(),
        forall|j: int| 0 <= j < r@.len() ==> (#[trigger] r@[j])@ == spec_static_suffixes()[j],
{
    let mut r: Vec<Vec<u8>> = Vec::new();
    let s0: Vec<u8> = vec![46u8, 106u8, 112u8, 103u8];
    let s1: Vec<u8> = vec![46u8, 106u8, 112u8, 101u8, 103u8];
    let s2: Vec<u8> = vec![46u8, 112u8, 110u8, 103u8];
    let s3: Vec<u8> = vec![46u8, 103u8, 105u8, 102u8];
    let s4: Vec<u8> = vec![46u8, 99u8, 115u8, 115u8];
    let s5: Vec<u8> = vec![46u8, 106u8, 115u8];
    proof {
        assert(s0@ =~= spec_static_suffixes()[0]);
        assert(s1@ =~= spec_static_suffixes()[1]);
        assert(s2@ =~= spec_static_suffixes()[2]);
        assert(s3@ =~= spec_static_suffixes()[3]);
        assert(s4@ =~= spec_static_suffixes()[4]);
        assert(s5@ =~= spec_static_suffixes()[5]);
    }
    r.push(s0);
    r.push(s1);
    r.push(s2);
    r.push(s3);
    r.push(s4);
    r.push(s5);
    r
}

/// The URI a request is forwarded to: `http://<dns>:<port><path>`.
pub open spec fn spec_forward_uri(dns: Seq<u8>, port: u16, path: Seq<u8>) -> Seq<u8> {
    seq![104u8, 116u8, 116u8, 112u8, 58u8, 47u8, 47u8] + dns + seq![58u8] + spec_dec(port as int)
        + path
}

/// Builds the forwarded URI for a chosen worker.
pub fn build_forward_uri(dns_name: &Vec<u8>, port: u16, path: &Vec<u8>) -> (r: Vec<u8>)
    ensures
        r@ == spec_forward_uri(dns_name@, port, path@),
{
    let mut r: Vec<u8> = vec![104u8, 116u8, 116u8, 112u8, 58u8, 47u8, 47u8];
    let ghost prefix = r@;
    proof {
        assert(prefix =~= seq![104u8, 116u8, 116u8, 112u8, 58u8, 47u8, 47u8]);
    }
    append_bytes(&mut r, dns_name);
    r.push(58u8);
    let port_dec = dec_u64(port as u64);
    append_bytes(&mut r, &port_dec);
    append_bytes(&mut r, path);
    proof {
        assert(r@ =~= spec_forward_uri(dns_name@, port, path@));
    }
    r
}

/// What one upstream attempt came back with.
#[derive(Clone, Copy, Debug, PartialEq, Eq, Structural)]
pub enum UpstreamOutcome {
    /// A well-formed response, whatever its status.
    Responded { status: u16 },
    /// The connection could not be established.
    ConnectError,
    /// The connection broke while sending or receiving.
    IoError,
    /// The per-attempt deadline passed.
    TimedOut,
}

/// What the proxy does after an attempt.
#[derive(Clone, Copy, Debug, PartialEq, Eq, Structural)]
pub enum RetryDecision {
    /// Forward this status verbatim; upstream statuses are never retried.
    Done { status: u16 },
    /// Try again after the given backoff.
    RetryAfter { backoff_ms: u64 },
    /// The attempt budget is spent: answer with this status.
    GiveUp { status: u16 },
}

/// The backoff before the attempt after `attempt` (zero-based): it starts
/// at the first backoff and doubles after each failure.
pub open spec fn spec_backoff_ms(attempt: u8) -> u64
    decreases attempt,
{
    if attempt == 0 {
        FIRST_BACKOFF_MS
    } else {
        (2 * spec_backoff_ms((attempt - 1) as u8)) as u64
    }
}

/// What the retry loop does after attempt number `attempt` (zero-based)
/// ended in `outcome`: any response is final; a connect error, I/O error or
/// timeout is retried with doubling backoff until the budget of attempts is
/// spent, then answered 504 for a timeout and 503 otherwise.
pub open spec fn spec_retry_decide(attempt: u8, outcome: UpstreamOutcome) -> RetryDecision {
    match outcome {
        UpstreamOutcome::Responded { status } => RetryDecision::Done { status },
        _ => if attempt + 1 < MAX_ATTEMPTS {
            RetryDecision::RetryAfter { backoff_ms: spec_backoff_ms(attempt) }
        } else if outcome == UpstreamOutcome::TimedOut {
            RetryDecision::GiveUp { status: 504 }
        } else {
            RetryDecision::GiveUp { status: 503 }
        },
    }
}

/// Decides what follows one upstream attempt.
pub fn retry_decide(attempt: u8, outcome: UpstreamOutcome) -> (r: RetryDecision)
    requires
        attempt < MAX_ATTEMPTS,
    ensures
        r == spec_retry_decide(attempt, outcome),
{
    match outcome {
        UpstreamOutcome::Responded { status } => RetryDecision::Done { status },
        _ => {
            if attempt + 1 < MAX_ATTEMPTS {
                let backoff_ms: u64 = if attempt == 0 {
                    FIRST_BACKOFF_MS
                } else {
                    2 * FIRST_BACKOFF_MS
                };
                proof {
                    assert(spec_backoff_ms(0) == FIRST_BACKOFF_MS);
                    assert(backoff_ms == spec_backoff_ms(attempt));
                }
                RetryDecision::RetryAfter { backoff_ms }
            } else if matches!(outcome, UpstreamOutcome::TimedOut) {
                RetryDecision::GiveUp { status: 504 }
            } else {
                RetryDecision::GiveUp { status: 503 }
            }
        },
    }
}

/// Whether a response is cached: only a successful (2xx) response to a GET
/// of a static resource.
pub open spec fn spec_should_cache(is_get: bool, path: Seq<u8>, status: u16) -> bool {
    is_get && spec_is_static(path) && 200 <= status < 300
}

/// Decides whether the response body is written through to the cache.
pub fn should_cache_response(is_get: bool, path: &Vec<u8>, status: u16) -> (r: bool)
    ensures
        r == spec_should_cache(is_get, path@, status),
{
    is_get && is_static_resource(path) && 200 <= status && status < 300
}

/// The first routing decision for a request.
pub enum RouteDecision {
    /// A cached body answers the request; no worker is contacted.
    CachedResponse { body: Vec<u8> },
    /// Forward to this worker at this URI.
    ForwardTo { dns_name: Vec<u8>, uri: Vec<u8> },
    /// No worker is available: answer 503.
    NoBackend,
}

/// Routes one request: a GET of a static resource is answered from the
/// cache when an unexpired entry exists under the full request URI; else a
/// worker is chosen by weighted draw, and its forwarding URI built; with no
/// worker available the request is refused.
pub fn route_request(
    balancer: &DynamicWeightedBalancer,
    cache: &mut SimpleCache,
    is_get: bool,
    uri: &Vec<u8>,
    path: &Vec<u8>,
    target_port: u16,
    now: u64,
) -> (r: RouteDecision)
    requires
        balancer.wf(),
        old(cache).wf(),
    ensures
        final(cache).wf(),
        final(cache).capacity() == old(cache).capacity(),
        final(cache)@ == (if is_get && spec_is_static(path@) {
            spec_get_state(old(cache)@, uri@, now)
        } else {
            old(cache)@
        }),
        is_get && spec_is_static(path@) && (spec_get_result(old(cache)@, uri@, now) is Some) ==> (
        r matches RouteDecision::CachedResponse { body } && Some(body@) == spec_get_result(
            old(cache)@,
            uri@,
            now,
        )),
        match r {
            RouteDecision::CachedResponse { body } => is_get && spec_is_static(path@)
                && spec_get_result(old(cache)@, uri@, now) == Some(body@),
            RouteDecision::ForwardTo { dns_name, uri: target } => balancer@.len() > 0 && (exists|
                i: int|
                0 <= i < balancer@.len() && balancer@[i].0 == dns_name@ && balancer@[i].2
                    != Category::Sundown) && target@ == spec_forward_uri(
                dns_name@,
                target_port,
                path@,
            ),
            RouteDecision::NoBackend => balancer@.len() == 0,
        },
{
    if is_get && is_static_resource(path) {
        let cached = cache.get(uri, now);
        match cached {
            Some(body) => {
                return RouteDecision::CachedResponse { body };
            },
            None => {},
        }
    }
    match balancer.next() {
        Some(item) => {
            let target = build_forward_uri(&item.dns_name, target_port, path);
            RouteDecision::ForwardTo { dns_name: item.dns_name, uri: target }
        },
        None => RouteDecision::NoBackend,
    }
}

} // verus!
