use ikigai_throttle::rate_limit::{rate_limited, OverBudget, Routed};
use ikigai_throttle::{
    Error, Hits, Moment, Rate, RateLimit, Request, Resolution, Resolved, Span, Verb,
};

const SEC: u128 = 1_000_000_000;

fn at(nanos: u128) -> Moment {
    Moment { nanos }
}

fn found() -> Resolution<&'static str, u32> {
    Resolution::Hit(Resolved { endpoint: "door", bindings: 7 })
}

fn ask(
    overlay: &RateLimit<()>,
    hits: &mut Hits,
    verb: Verb,
    target: &str,
    now: Moment,
) -> Result<(), (String, u32, Span)> {
    let request = Request { verb, target: target.to_string() };
    match overlay.resolve_at(hits, &request, found(), now) {
        Resolution::Hit(hit) => {
            assert_eq!(hit.bindings, 7, "the bindings are kept");
            match hit.endpoint {
                Routed::Through(endpoint) => {
                    assert_eq!(endpoint, "door");
                    Ok(())
                }
                Routed::Limited(over) => Err((over.prefix, over.rate.max, over.retry)),
            }
        }
        Resolution::Miss => panic!("a miss"),
    }
}

fn passes(overlay: &RateLimit<()>, hits: &mut Hits, target: &str, now: Moment) -> bool {
    ask(overlay, hits, Verb::Source, target, now).is_ok()
}

#[test]
fn a_miss_stays_a_miss_and_costs_nothing() {
    let overlay = RateLimit::new(()).limit("urn:", Rate::new(1, Span::from_secs(60)));
    let mut hits = Hits::new();
    let request = Request { verb: Verb::Source, target: "urn:a".to_string() };
    for _ in 0..3 {
        let inner: Resolution<&str, u32> = Resolution::Miss;
        let answer = overlay.resolve_at(&mut hits, &request, inner, at(0));
        assert!(matches!(answer, Resolution::Miss));
    }
    assert!(passes(&overlay, &mut hits, "urn:a", at(0)));
}

#[test]
fn self_description_is_never_limited() {
    let overlay = RateLimit::new(()).limit("urn:demo:", Rate::new(1, Span::from_secs(60)));
    let mut hits = Hits::new();
    assert!(passes(&overlay, &mut hits, "urn:demo:x", at(0)));
    for _ in 0..5 {
        assert!(ask(&overlay, &mut hits, Verb::Meta, "urn:demo:x", at(0)).is_ok());
    }
    for verb in [Verb::Source, Verb::Sink, Verb::Exists, Verb::Delete] {
        assert!(ask(&overlay, &mut hits, verb, "urn:demo:x", at(0)).is_err());
    }
}

#[test]
fn the_longest_prefix_wins_in_either_order() {
    let wide = Rate::new(1, Span::from_secs(60));
    let narrow = Rate::new(2, Span::from_secs(60));
    let one = RateLimit::new(()).limit("urn:a", wide).limit("urn:a:b", narrow);
    let other = RateLimit::new(()).limit("urn:a:b", narrow).limit("urn:a", wide);
    for overlay in [one, other] {
        assert_eq!(overlay.rule_for("urn:a:b:c").unwrap().0, "urn:a:b");
        assert_eq!(overlay.rule_for("urn:a:c").unwrap().0, "urn:a");
        assert!(overlay.rule_for("urn:b").is_none());
        let mut hits = Hits::new();
        assert!(passes(&overlay, &mut hits, "urn:a:b:c", at(0)));
        assert!(passes(&overlay, &mut hits, "urn:a:b:d", at(0)));
        let (prefix, max, _) = ask(&overlay, &mut hits, Verb::Source, "urn:a:b:e", at(0)).unwrap_err();
        assert_eq!((prefix.as_str(), max), ("urn:a:b", 2));
        // Each prefix has a budget of its own.
        assert!(passes(&overlay, &mut hits, "urn:a:c", at(0)));
        assert!(!passes(&overlay, &mut hits, "urn:a:d", at(0)));
    }
}

#[test]
fn a_second_limit_on_one_prefix_never_governs() {
    let overlay = RateLimit::new(())
        .limit("urn:a", Rate::new(1, Span::from_secs(60)))
        .limit("urn:a", Rate::new(9, Span::from_secs(1)));
    assert_eq!(overlay.rule_for("urn:a:x").unwrap().1.max, 1);
}

#[test]
fn prefixes_are_measured_in_whole_text() {
    let overlay = RateLimit::new(())
        .limit("urn:\u{e9}", Rate::new(1, Span::from_secs(60)))
        .limit("urn:\u{e9}\u{e9}", Rate::new(2, Span::from_secs(60)))
        .limit("urn:abcdefgh", Rate::new(3, Span::from_secs(60)));
    assert_eq!(overlay.rule_for("urn:\u{e9}\u{e9}x").unwrap().1.max, 2);
    assert_eq!(overlay.rule_for("urn:\u{e9}x").unwrap().1.max, 1);
    assert_eq!(overlay.rule_for("urn:abcdefghi").unwrap().1.max, 3);
    assert!(overlay.rule_for("urn:abc").is_none());
}

#[test]
fn the_empty_prefix_limits_everything() {
    let overlay = RateLimit::new(()).limit("", Rate::new(1, Span::from_secs(60)));
    let mut hits = Hits::new();
    assert!(passes(&overlay, &mut hits, "urn:a", at(0)));
    assert!(!passes(&overlay, &mut hits, "http://b", at(0)));
}

#[test]
fn at_most_max_within_any_window() {
    let overlay = RateLimit::new(()).limit("urn:", Rate::new(2, Span::from_secs(10)));
    let mut hits = Hits::new();
    let mut through: Vec<u128> = Vec::new();
    for step in 0..200u128 {
        let now = step * SEC / 2;
        if passes(&overlay, &mut hits, "urn:x", at(now)) {
            through.push(now);
        }
    }
    assert_eq!(through[..4], [0, SEC / 2, 10 * SEC, 10 * SEC + SEC / 2]);
    for from in &through {
        let within = through.iter().filter(|t| **t >= *from && **t < *from + 10 * SEC).count();
        assert!(within <= 2);
    }
}

#[test]
fn a_hit_as_old_as_the_window_has_expired() {
    let overlay = RateLimit::new(()).limit("urn:", Rate::new(1, Span::from_secs(10)));
    let mut hits = Hits::new();
    assert!(passes(&overlay, &mut hits, "urn:x", at(0)));
    assert!(!passes(&overlay, &mut hits, "urn:x", at(10 * SEC - 1)));
    assert!(passes(&overlay, &mut hits, "urn:x", at(10 * SEC)));
}

#[test]
fn a_refusal_leaves_no_trace_and_its_advice_is_honest() {
    let overlay = RateLimit::new(()).limit("urn:", Rate::new(1, Span::from_secs(10)));
    let mut hits = Hits::new();
    assert!(passes(&overlay, &mut hits, "urn:x", at(0)));
    for _ in 0..20 {
        let (_, _, retry) = ask(&overlay, &mut hits, Verb::Source, "urn:x", at(4 * SEC)).unwrap_err();
        assert_eq!(retry, Span::from_secs(6));
    }
    assert!(passes(&overlay, &mut hits, "urn:x", at(4 * SEC + 7 * SEC)));
}

#[test]
fn a_moment_before_the_recorded_ones_counts_as_no_time() {
    let overlay = RateLimit::new(()).limit("urn:", Rate::new(1, Span::from_secs(10)));
    let mut hits = Hits::new();
    assert!(passes(&overlay, &mut hits, "urn:x", at(50 * SEC)));
    let (_, _, retry) = ask(&overlay, &mut hits, Verb::Source, "urn:x", at(0)).unwrap_err();
    assert_eq!(retry, Span::from_secs(10));
}

#[test]
fn a_window_of_no_length_limits_nothing() {
    let overlay = RateLimit::new(()).limit("urn:", Rate::new(1, Span::from_secs(0)));
    let mut hits = Hits::new();
    for _ in 0..5 {
        assert!(passes(&overlay, &mut hits, "urn:x", at(3)));
    }
}

#[test]
fn the_clock_is_read_where_no_moment_is_told() {
    let overlay = RateLimit::new(()).limit("urn:", Rate::new(1, Span::from_secs(3600)));
    let mut hits = Hits::new();
    let request = Request { verb: Verb::Source, target: "urn:x".to_string() };
    let first = overlay.resolve(&mut hits, &request, found());
    assert!(matches!(first, Resolution::Hit(hit) if matches!(hit.endpoint, Routed::Through("door"))));
    match overlay.resolve(&mut hits, &request, found()) {
        Resolution::Hit(hit) => match hit.endpoint {
            Routed::Limited(over) => assert!(over.retry.as_secs() >= 3500),
            Routed::Through(_) => panic!("over budget"),
        },
        Resolution::Miss => panic!("a miss"),
    }
}

#[test]
fn the_refusal_says_what_is_capped_and_when_to_come_back() {
    let rate = Rate::new(3, Span::from_secs(10));
    let endpoint = rate_limited("urn:system:exec", rate, Span::new(9, 999_000_000));
    let text = "rate-limited: `urn:system:exec` is capped at 3/10s \u{2014} retry after 10s";
    assert_eq!(endpoint.message, text);
    assert_eq!(endpoint.description.id, "rate-limited");
    assert_eq!(endpoint.description.title, "Rate limit reached");
    assert_eq!(endpoint.description.summary, text);
    assert_eq!(endpoint.description.verbs, vec![Verb::Source, Verb::Meta]);
    assert_eq!(endpoint.description.outputs, vec!["text/plain;charset=utf-8".to_string()]);
    let refusal = endpoint.refusal();
    assert!(!refusal.is_transient());
    assert_eq!(refusal, Error::Endpoint(text.to_string()));
}

#[test]
fn the_refusal_tells_at_least_a_second() {
    let endpoint = rate_limited("p", Rate::new(u32::MAX, Span::from_millis(1)), Span::from_secs(0));
    assert_eq!(endpoint.message, "rate-limited: `p` is capped at 4294967295/1s \u{2014} retry after 1s");
    let endpoint = rate_limited("p", Rate::new(0, Span::from_secs(100)), Span::from_secs(u64::MAX - 1));
    assert_eq!(
        endpoint.message,
        "rate-limited: `p` is capped at 0/100s \u{2014} retry after 18446744073709551615s"
    );
}

#[test]
fn spans_are_whole_nanoseconds() {
    assert_eq!(Span::from_secs(2), Span::new(2, 0));
    assert_eq!(Span::from_millis(2_500), Span::new(2, 500_000_000));
    assert_eq!(Span::new(2, 999_999_999).as_secs(), 2);
    assert_eq!(Span::new(u64::MAX, 999_999_999).as_secs(), u64::MAX);
    assert_eq!(Span::from_secs(2).saturating_sub_nanos(SEC), Span::from_secs(1));
    assert_eq!(Span::from_secs(2).saturating_sub_nanos(3 * SEC), Span::from_secs(0));
    assert!(Span::from_secs(2).is_over(2 * SEC));
    assert!(!Span::from_secs(2).is_over(2 * SEC - 1));
    assert_eq!(at(5).since(at(3)), 2);
    assert_eq!(at(3).since(at(5)), 0);
}

#[test]
fn a_budget_of_none_refuses_the_first_already() {
    let overlay = RateLimit::new(()).limit("urn:demo:", Rate::new(0, Span::from_secs(10)));
    let mut hits = Hits::new();
    for now in [0, 5 * SEC, 60 * SEC] {
        let (prefix, max, retry) =
            ask(&overlay, &mut hits, Verb::Source, "urn:demo:tick", at(now)).unwrap_err();
        assert_eq!((prefix.as_str(), max, retry), ("urn:demo:", 0, Span::from_secs(10)));
        let endpoint = rate_limited(&prefix, Rate::new(max, Span::from_secs(10)), retry);
        assert_eq!(
            endpoint.refusal(),
            Error::Endpoint(
                "rate-limited: `urn:demo:` is capped at 0/10s \u{2014} retry after 11s".to_string()
            )
        );
    }
    // What is never limited still passes.
    assert!(ask(&overlay, &mut hits, Verb::Meta, "urn:demo:tick", at(0)).is_ok());
    assert!(passes(&overlay, &mut hits, "urn:other", at(0)));
}

#[test]
fn the_advice_holds_whatever_is_refused_or_limited_elsewhere_in_between() {
    let rate = Rate::new(1, Span::from_secs(10));
    let overlay = RateLimit::new(()).limit("urn:a", rate).limit("urn:b", rate);
    let mut hits = Hits::new();
    assert!(passes(&overlay, &mut hits, "urn:a", at(0)));
    assert!(!passes(&overlay, &mut hits, "urn:a", at(SEC)));
    for step in 2..10 {
        assert!(!passes(&overlay, &mut hits, "urn:a", at(step * SEC)));
        passes(&overlay, &mut hits, "urn:b", at(step * SEC));
    }
    assert!(!passes(&overlay, &mut hits, "urn:a", at(10 * SEC - 1)));
    assert!(passes(&overlay, &mut hits, "urn:a", at(10 * SEC)));
}

#[test]
fn a_refusal_tells_the_prefix_the_budget_and_the_wait() {
    let over = OverBudget {
        prefix: "urn:a".to_string(),
        rate: Rate::new(2, Span::from_secs(60)),
        retry: Span::from_millis(1_500),
    };
    let endpoint = over.endpoint();
    let text = "rate-limited: `urn:a` is capped at 2/60s \u{2014} retry after 2s";
    assert_eq!(endpoint.message, text);
    assert_eq!(endpoint.description.summary, text);
    assert_eq!(endpoint.refusal(), Error::Endpoint(text.to_string()));
}

#[test]
fn a_request_counts_under_the_rule_of_its_target_unless_it_asks_for_a_description() {
    let overlay = RateLimit::new(()).limit("urn:a", Rate::new(2, Span::from_secs(60)));
    let request = |verb: Verb, target: &str| Request { verb, target: target.to_string() };
    assert_eq!(overlay.counted_under(&request(Verb::Sink, "urn:a:x")).unwrap().0, "urn:a");
    assert!(overlay.counted_under(&request(Verb::Meta, "urn:a:x")).is_none());
    assert!(overlay.counted_under(&request(Verb::Source, "urn:b")).is_none());
}
