use ikigai_throttle::breaker::BreakerEndpoint;
use ikigai_throttle::{
    Breakers, CircuitBreaker, Error, Moment, Request, Resolution, Resolved, Span, Verb,
};

fn at(nanos: u128) -> Moment {
    Moment { nanos }
}

fn down() -> Result<(), Error> {
    Err(Error::Unavailable("down".to_string()))
}

fn gone() -> Result<(), Error> {
    Err(Error::NotFound("gone".to_string()))
}

fn endpoint(threshold: u32, cooldown: Span, target: &str) -> BreakerEndpoint<&'static str> {
    let request = Request { verb: Verb::Source, target: target.to_string() };
    let inner: Resolution<&str, u8> = Resolution::Hit(Resolved { endpoint: "door", bindings: 9 });
    match CircuitBreaker::new((), threshold, cooldown).resolve(&request, inner) {
        Resolution::Hit(hit) => {
            assert_eq!(hit.bindings, 9);
            assert_eq!(hit.endpoint.inner, "door");
            assert_eq!(hit.endpoint.target, target);
            assert_eq!(hit.endpoint.cooldown, cooldown);
            hit.endpoint
        }
        Resolution::Miss => panic!("a miss"),
    }
}

#[test]
fn a_miss_is_not_put_behind_a_circuit() {
    let request = Request { verb: Verb::Source, target: "urn:x".to_string() };
    let inner: Resolution<&str, u8> = Resolution::Miss;
    let overlay = CircuitBreaker::new((), 2, Span::from_secs(1));
    assert!(matches!(overlay.resolve(&request, inner), Resolution::Miss));
}

#[test]
fn a_threshold_of_none_is_one() {
    assert_eq!(endpoint(0, Span::from_secs(1), "urn:x").threshold, 1);
    assert_eq!(endpoint(1, Span::from_secs(1), "urn:x").threshold, 1);
    assert_eq!(endpoint(7, Span::from_secs(1), "urn:x").threshold, 7);
}

#[test]
fn failing_fast_names_the_target_and_is_transient() {
    let endpoint = endpoint(1, Span::from_millis(20), "urn:dep");
    let mut breakers = Breakers::new();
    endpoint.settle_at(&mut breakers, &down(), at(0));
    let error = endpoint.enter_at(&breakers, at(0)).unwrap_err();
    assert!(error.is_transient());
    assert_eq!(
        error,
        Error::Unavailable(
            "circuit open for `urn:dep` \u{2014} failing fast until it cools down".to_string()
        )
    );
}

#[test]
fn it_trips_at_the_threshold_and_cools_for_the_cooldown() {
    let endpoint = endpoint(3, Span::from_millis(20), "urn:dep");
    let mut breakers = Breakers::new();
    for n in 0..3 {
        assert!(endpoint.enter_at(&breakers, at(n)).is_ok());
        endpoint.settle_at(&mut breakers, &down(), at(n));
    }
    assert_eq!(breakers.get("urn:dep").failures, 3);
    assert_eq!(breakers.get("urn:dep").opened_at, Some(at(2)));
    assert!(endpoint.enter_at(&breakers, at(2)).is_err());
    assert!(endpoint.enter_at(&breakers, at(20_000_001)).is_err());
    assert!(endpoint.enter_at(&breakers, at(20_000_002)).is_ok());
    // A moment before it opened counts as no time.
    assert!(endpoint.enter_at(&breakers, at(0)).is_err());
}

#[test]
fn a_success_breaks_the_row_and_a_permanent_failure_does_not() {
    let endpoint = endpoint(2, Span::from_millis(20), "urn:dep");
    let mut breakers = Breakers::new();
    endpoint.settle_at(&mut breakers, &down(), at(0));
    endpoint.settle_at(&mut breakers, &Ok(()), at(0));
    endpoint.settle_at(&mut breakers, &down(), at(0));
    assert!(endpoint.enter_at(&breakers, at(0)).is_ok());
    endpoint.settle_at(&mut breakers, &gone(), at(0));
    assert!(endpoint.enter_at(&breakers, at(0)).is_ok());
    endpoint.settle_at(&mut breakers, &down(), at(0));
    assert!(endpoint.enter_at(&breakers, at(0)).is_err());
}

#[test]
fn a_failed_probe_opens_anew_and_a_permanent_failure_leaves_the_next_probe() {
    let endpoint = endpoint(1, Span::from_millis(20), "urn:dep");
    let mut breakers = Breakers::new();
    endpoint.settle_at(&mut breakers, &down(), at(0));
    assert!(endpoint.enter_at(&breakers, at(30_000_000)).is_ok());
    endpoint.settle_at(&mut breakers, &down(), at(30_000_000));
    assert!(endpoint.enter_at(&breakers, at(49_999_999)).is_err());
    assert!(endpoint.enter_at(&breakers, at(50_000_000)).is_ok());
    endpoint.settle_at(&mut breakers, &gone(), at(50_000_000));
    assert!(endpoint.enter_at(&breakers, at(50_000_000)).is_ok());
    endpoint.settle_at(&mut breakers, &Ok(()), at(50_000_000));
    assert_eq!(breakers.get("urn:dep").failures, 0);
    assert_eq!(breakers.get("urn:dep").opened_at, None);
}

#[test]
fn each_target_has_a_circuit_of_its_own() {
    let one = endpoint(1, Span::from_secs(60), "urn:one");
    let other = endpoint(1, Span::from_secs(60), "urn:other");
    let mut breakers = Breakers::new();
    one.settle_at(&mut breakers, &down(), at(0));
    assert!(one.enter_at(&breakers, at(0)).is_err());
    assert!(other.enter_at(&breakers, at(0)).is_ok());
    other.settle_at(&mut breakers, &Ok(()), at(0));
    assert!(one.enter_at(&breakers, at(0)).is_err());
}

#[test]
fn the_circuit_reads_the_clock_itself() {
    let endpoint = endpoint(1, Span::from_secs(3600), "urn:dep");
    let mut breakers = Breakers::new();
    assert!(endpoint.enter(&breakers).is_ok());
    endpoint.settle(&mut breakers, &down());
    assert!(endpoint.enter(&breakers).is_err());
    endpoint.settle(&mut breakers, &Ok(()));
    assert!(endpoint.enter(&breakers).is_ok());
}

#[test]
fn a_circuit_is_open_as_of_the_latest_failure() {
    let endpoint = endpoint(2, Span::from_millis(20), "urn:dep");
    let mut breakers = Breakers::new();
    for n in 0..5 {
        endpoint.settle_at(&mut breakers, &down(), at(n * 1_000_000));
        endpoint.settle_at(&mut breakers, &gone(), at(n * 1_000_000 + 1));
    }
    assert_eq!(breakers.get("urn:dep").failures, 5);
    assert_eq!(breakers.get("urn:dep").opened_at, Some(at(4_000_000)));
    assert!(endpoint.enter_at(&breakers, at(23_999_999)).is_err());
    assert!(endpoint.enter_at(&breakers, at(24_000_000)).is_ok());
}
