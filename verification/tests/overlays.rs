use std::sync::atomic::{AtomicBool, AtomicU32, Ordering};
use std::sync::Arc;

use futures::executor::block_on;
use ikigai_core::{
    Bindings, Capability, Endpoint, EndpointSpace, Exact, FnEndpoint, Invocation, Iri,
    Representation, ReprType, Scope, Space,
};
use ikigai_throttle::breaker::BreakerEndpoint;
use ikigai_throttle::rate_limit::Routed;
use ikigai_throttle::retry::Step;
use ikigai_throttle::{
    Breakers, CircuitBreaker, Error, Hits, Moment, Rate, RateLimit, Request, Resolution, Resolved,
    Retry, Span, Verb,
};

type Door = Arc<dyn Endpoint>;

fn at_millis(millis: u128) -> Moment {
    Moment { nanos: millis * 1_000_000 }
}

/// Resolves the target in the space, and hands the outcome over as the overlays take it.
fn resolved(space: &EndpointSpace, target: &str) -> Resolution<Door, Bindings> {
    let request = ikigai_core::Request::new(ikigai_core::Verb::Source, Iri::parse(target).unwrap());
    match space.resolve(&request, &Scope::empty()) {
        ikigai_core::Resolution::Hit(hit) => {
            Resolution::Hit(Resolved { endpoint: hit.endpoint, bindings: hit.bindings })
        }
        ikigai_core::Resolution::Miss => Resolution::Miss,
    }
}

/// Invokes the endpoint, and hands the outcome over as the overlays take it.
fn invoke(endpoint: &Door, target: &str) -> Result<Representation, Error> {
    let request = ikigai_core::Request::new(ikigai_core::Verb::Source, Iri::parse(target).unwrap());
    let bindings = Bindings::new();
    let capability = Capability::root();
    let invocation = Invocation::detached(&request, &bindings, &capability);
    block_on(endpoint.invoke(&invocation)).map_err(|error| match error {
        ikigai_core::Error::Timeout(message) => Error::Timeout(message),
        ikigai_core::Error::Unavailable(message) => Error::Unavailable(message),
        ikigai_core::Error::Denied(message) => Error::Denied(message),
        other => panic!("{other:?}"),
    })
}

fn request(verb: Verb, target: &str) -> Request {
    Request { verb, target: target.to_string() }
}

fn hit<E, B>(resolution: Resolution<E, B>) -> Resolved<E, B> {
    match resolution {
        Resolution::Hit(hit) => hit,
        Resolution::Miss => panic!("a miss"),
    }
}

fn ok() -> Representation {
    Representation::new(ReprType::new("text/plain"), b"ok".to_vec())
}

/// Serves one call to an endpoint behind a breaker at a moment.
fn call(
    endpoint: &BreakerEndpoint<Door>,
    breakers: &mut Breakers,
    now: Moment,
) -> Result<Representation, Error> {
    endpoint.enter_at(breakers, now)?;
    let outcome = invoke(&endpoint.inner, "urn:dep");
    endpoint.settle_at(breakers, &outcome, now);
    outcome
}

#[test]
fn trips_open_fails_fast_then_recovers_after_cooldown() {
    let seen = Arc::new(AtomicU32::new(0));
    let fail = Arc::new(AtomicBool::new(true));
    let (counted, failing) = (seen.clone(), fail.clone());
    let endpoint = FnEndpoint::new("controlled", move |_inv| {
        counted.fetch_add(1, Ordering::SeqCst);
        if failing.load(Ordering::SeqCst) {
            Err(ikigai_core::Error::Unavailable("dependency down".into()))
        } else {
            Ok(ok())
        }
    });
    let space = EndpointSpace::new().bind(Exact::new("urn:dep"), endpoint);
    let overlay = CircuitBreaker::new(space, 2, Span::from_millis(20));
    let mut breakers = Breakers::new();
    let resolution = overlay
        .resolve(&request(Verb::Source, "urn:dep"), resolved(overlay.inner(), "urn:dep"));
    let endpoint = hit(resolution).endpoint;

    // Two transient failures trip the circuit: both reach the dependency.
    assert!(call(&endpoint, &mut breakers, at_millis(0)).is_err());
    assert!(call(&endpoint, &mut breakers, at_millis(0)).is_err());
    assert_eq!(seen.load(Ordering::SeqCst), 2);

    // The circuit is open: it fails fast without touching the dependency.
    let err = call(&endpoint, &mut breakers, at_millis(0)).unwrap_err();
    assert!(format!("{err:?}").contains("circuit open"), "{err:?}");
    assert_eq!(seen.load(Ordering::SeqCst), 2, "fast-failed, dependency untouched");

    // The dependency recovers; after the cooldown, a half-open probe closes the circuit.
    fail.store(false, Ordering::SeqCst);
    assert!(call(&endpoint, &mut breakers, at_millis(30)).is_ok());
    assert_eq!(seen.load(Ordering::SeqCst), 3, "the probe reached the recovered dependency");
    // Closed again: traffic flows.
    assert!(call(&endpoint, &mut breakers, at_millis(30)).is_ok());
    assert_eq!(seen.load(Ordering::SeqCst), 4);
}

/// A space over an endpoint that fails transiently its first `fail` invocations.
fn flaky(fail: u32, seen: Arc<AtomicU32>) -> EndpointSpace {
    let endpoint = FnEndpoint::new("flaky", move |_inv| {
        let n = seen.fetch_add(1, Ordering::SeqCst);
        if n < fail {
            Err(ikigai_core::Error::Timeout(format!("attempt {n}")))
        } else {
            Ok(ok())
        }
    });
    EndpointSpace::new().bind(Exact::new("urn:flaky"), endpoint)
}

/// Serves one call to the flaky endpoint.
fn serve(overlay: &Retry<EndpointSpace>, verb: Verb) -> Result<Representation, Error> {
    let endpoint = hit(overlay.resolve(resolved(overlay.inner(), "urn:flaky"))).endpoint;
    let mut run = endpoint.begin(verb);
    loop {
        match run.settle(invoke(&endpoint.inner, "urn:flaky")) {
            Step::Again(next) => run = next,
            Step::Done(outcome) => return outcome,
        }
    }
}

#[test]
fn retries_transient_idempotent_but_not_sinks_or_permanent() {
    // (a) A Source that fails transiently twice then succeeds: retried to success.
    let seen = Arc::new(AtomicU32::new(0));
    let overlay = Retry::new(flaky(2, seen.clone()), 3);
    let out = serve(&overlay, Verb::Source);
    assert!(out.is_ok(), "transient failures retried to success: {out:?}");
    assert_eq!(seen.load(Ordering::SeqCst), 3, "2 transient fails + 1 success");

    // (b) A non-idempotent Sink is never re-sent: one attempt, then the error.
    let seen = Arc::new(AtomicU32::new(0));
    let overlay = Retry::new(flaky(2, seen.clone()), 3);
    let out = serve(&overlay, Verb::Sink);
    assert!(out.is_err(), "a Sink is not blindly re-sent");
    assert_eq!(seen.load(Ordering::SeqCst), 1, "the Sink was invoked exactly once");
}

fn always_ok() -> FnEndpoint {
    FnEndpoint::new("ok", |_inv| Ok(ok()))
}

fn overlay_with(rate: Rate) -> RateLimit<EndpointSpace> {
    let inner = EndpointSpace::new().bind(Exact::new("urn:demo:tick"), always_ok());
    RateLimit::new(inner).limit("urn:demo:", rate)
}

/// Invokes what a request was routed to.
fn answered(routed: Resolution<Routed<Door>, Bindings>, target: &str) -> Result<Representation, Error> {
    match hit(routed).endpoint {
        Routed::Through(endpoint) => invoke(&endpoint, target),
        Routed::Limited(over) => Err(over.endpoint().refusal()),
    }
}

fn tick(overlay: &RateLimit<EndpointSpace>, hits: &mut Hits) -> Result<Representation, Error> {
    let inner = resolved(overlay.inner(), "urn:demo:tick");
    let routed = overlay.resolve(hits, &request(Verb::Source, "urn:demo:tick"), inner);
    answered(routed, "urn:demo:tick")
}

fn tick_at(
    overlay: &RateLimit<EndpointSpace>,
    hits: &mut Hits,
    now: Moment,
) -> Result<Representation, Error> {
    let inner = resolved(overlay.inner(), "urn:demo:tick");
    let routed = overlay.resolve_at(hits, &request(Verb::Source, "urn:demo:tick"), inner, now);
    answered(routed, "urn:demo:tick")
}

#[test]
fn over_budget_resolutions_are_throttled() {
    // Three per (long) window; the fourth in the window is throttled.
    let overlay = overlay_with(Rate::new(3, Span::from_secs(3600)));
    let mut hits = Hits::new();
    for i in 0..3 {
        assert!(tick(&overlay, &mut hits).is_ok(), "call {i} should pass");
    }
    let err = tick(&overlay, &mut hits).unwrap_err();
    assert!(format!("{err:?}").contains("rate-limited"), "{err:?}");
    assert!(format!("{err:?}").contains("retry after"), "{err:?}");
}

#[test]
fn the_window_slides() {
    // One per 1ms: after the window elapses, calls pass again.
    let overlay = overlay_with(Rate::new(1, Span::from_millis(1)));
    let mut hits = Hits::new();
    assert!(tick_at(&overlay, &mut hits, at_millis(0)).is_ok());
    assert!(tick_at(&overlay, &mut hits, at_millis(5)).is_ok(), "the window should have slid");
}

#[test]
fn unmatched_prefixes_and_meta_pass_freely() {
    let inner = EndpointSpace::new().bind(Exact::new("urn:other:x"), always_ok());
    let overlay = RateLimit::new(inner).limit("urn:demo:", Rate::new(1, Span::from_secs(3600)));
    let mut hits = Hits::new();
    // Not under the limited prefix: never throttled, however many times.
    for _ in 0..5 {
        let inner = resolved(overlay.inner(), "urn:other:x");
        let routed = overlay.resolve(&mut hits, &request(Verb::Source, "urn:other:x"), inner);
        let r = answered(routed, "urn:other:x");
        assert!(r.is_ok());
    }
}
