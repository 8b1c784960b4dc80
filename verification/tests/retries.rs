use ikigai_core::Iri;
use ikigai_throttle::retry::{RetryEndpoint, Step};
use ikigai_throttle::{Error, Resolution, Resolved, Retry, Verb};

fn timeout() -> Result<u32, Error> {
    Err(Error::Timeout("slow".to_string()))
}

fn down() -> Result<u32, Error> {
    Err(Error::Unavailable("down".to_string()))
}

fn denied() -> Result<u32, Error> {
    Err(Error::Denied("no grant".to_string()))
}

fn endpoint(attempts: u32) -> RetryEndpoint<&'static str> {
    let inner: Resolution<&str, u8> = Resolution::Hit(Resolved { endpoint: "door", bindings: 9 });
    match Retry::new((), attempts).resolve(inner) {
        Resolution::Hit(hit) => {
            assert_eq!(hit.bindings, 9);
            assert_eq!(hit.endpoint.inner, "door");
            hit.endpoint
        }
        Resolution::Miss => panic!("a miss"),
    }
}

/// Serves one call whose invocations answer in turn; tells how many there were.
fn serve(attempts: u32, verb: Verb, answers: Vec<Result<u32, Error>>) -> (usize, Result<u32, Error>) {
    let mut run = endpoint(attempts).begin(verb);
    let mut made: usize = 0;
    for answer in answers {
        made += 1;
        match run.settle(answer) {
            Step::Again(next) => run = next,
            Step::Done(outcome) => return (made, outcome),
        }
    }
    panic!("still going after {made}")
}

#[test]
fn a_miss_stays_a_miss() {
    let inner: Resolution<&str, u8> = Resolution::Miss;
    assert!(matches!(Retry::new((), 3).resolve(inner), Resolution::Miss));
}

#[test]
fn every_idempotent_verb_is_retried() {
    for verb in [Verb::Source, Verb::Exists, Verb::Meta, Verb::Delete] {
        assert!(verb.is_idempotent());
        let (made, outcome) = serve(3, verb, vec![timeout(), down(), Ok(1), Ok(2)]);
        assert_eq!((made, outcome), (3, Ok(1)));
    }
    assert!(!Verb::Sink.is_idempotent());
}

#[test]
fn attempts_are_spent_and_no_more() {
    let (made, outcome) = serve(3, Verb::Source, vec![timeout(), timeout(), down(), Ok(1)]);
    assert_eq!((made, outcome), (3, down()));
}

#[test]
fn one_attempt_is_no_retry_and_so_is_none() {
    for attempts in [0, 1] {
        assert_eq!(endpoint(attempts).attempts, 1);
        let (made, outcome) = serve(attempts, Verb::Source, vec![timeout(), Ok(1)]);
        assert_eq!((made, outcome), (1, timeout()));
    }
}

#[test]
fn a_sink_is_never_sent_twice() {
    let (made, outcome) = serve(5, Verb::Sink, vec![timeout(), Ok(1)]);
    assert_eq!((made, outcome), (1, timeout()));
}

#[test]
fn what_is_settled_is_returned_at_once() {
    assert_eq!(serve(5, Verb::Source, vec![denied(), Ok(1)]), (1, denied()));
    assert_eq!(serve(5, Verb::Source, vec![timeout(), denied(), Ok(1)]), (2, denied()));
    assert_eq!(serve(5, Verb::Source, vec![Ok(1), timeout()]), (1, Ok(1)));
}

#[test]
fn only_timeouts_and_what_is_unavailable_are_transient() {
    assert!(Error::Timeout("slow".to_string()).is_transient());
    assert!(Error::Unavailable("down".to_string()).is_transient());
    assert!(!Error::Unresolved(Iri::parse("urn:x").unwrap()).is_transient());
    assert!(!Error::MissingArgument("in".to_string()).is_transient());
    let invalid = Error::InvalidArgument { name: "in".to_string(), detail: "odd".to_string() };
    assert!(!invalid.is_transient());
    assert!(!Error::Endpoint("boom".to_string()).is_transient());
    assert!(!Error::Denied("no grant".to_string()).is_transient());
    assert!(!Error::NotFound("gone".to_string()).is_transient());
}

#[test]
fn a_larger_allowance_changes_nothing_that_settled() {
    for attempts in [3, 4, 100] {
        let answers = vec![timeout(), down(), Ok(1), Ok(2)];
        assert_eq!(serve(attempts, Verb::Source, answers), (3, Ok(1)));
        assert_eq!(serve(attempts, Verb::Source, vec![timeout(), denied(), Ok(2)]), (2, denied()));
    }
}
