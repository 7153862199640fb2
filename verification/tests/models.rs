//! Model calls: requests, the deterministic provider, and the gateway.

use swarm_platform::clock::Timestamp;
use swarm_platform::error::SwarmError;
use swarm_platform::figures::{Real32, Real64};
use swarm_platform::gateway::{no_stream, over_budget, Gateway, GatewayConfig, Opening, Usage};
use swarm_platform::hash::stable_hash;
use swarm_platform::ids::{AgentId, JobId, TaskId};
use swarm_platform::mock::{stream_chunks, topic_of, Answer, MockProvider};
use swarm_platform::model::{
    CompletionRequest, CompletionResponse, Message, ModelPricing, ProviderHealth, TokenChunk,
};

fn request(prompt: &str) -> CompletionRequest {
    CompletionRequest::new("mock-small", vec![Message::user(prompt)])
}

/// A provider serves every model, unless its name says which one.
fn serves(provider: &MockProvider, model: &str) -> bool {
    match provider.name().strip_prefix("only-") {
        Some(only) => only == model,
        None => true,
    }
}

fn number(x: f64) -> Real64 {
    Real64 { bits: x.to_bits() }
}

fn value(x: Real64) -> f64 {
    f64::from_bits(x.bits)
}

/// An answer as the provider sends it.
fn encode(answer: Answer) -> String {
    match answer {
        Answer::Text(text) => text,
        Answer::Document(sketch) => {
            let mut evidence = Vec::new();
            for (index, finding) in sketch.findings.iter().enumerate() {
                let mut item = serde_json::Map::new();
                item.insert("source".into(), sketch.sources[index].as_str().into());
                item.insert("claim".into(), finding.as_str().into());
                let support = sketch.supports[index] as f64 / 100.0 + 0.65;
                item.insert("support".into(), support.into());
                evidence.push(serde_json::Value::Object(item));
            }
            let mut document = serde_json::Map::new();
            document.insert("summary".into(), sketch.summary.into());
            document.insert("findings".into(), sketch.findings.into());
            document.insert("confidence".into(), (sketch.confidence as f64 / 100.0).into());
            document.insert("evidence".into(), evidence.into());
            document.insert("reasoning_summary".into(), sketch.reasoning.into());
            serde_json::Value::Object(document).to_string()
        }
    }
}

/// Call a provider, and price what it answers.
fn ask(
    provider: &mut MockProvider,
    request: &CompletionRequest,
) -> Result<CompletionResponse, SwarmError> {
    let text = encode(provider.call(request)?);
    let mut response = provider.respond(request, text, Real64::zero(), provider.latency_ms());
    let pricing = provider.pricing();
    response.cost_usd = number(
        (response.tokens_in as f64 / 1_000_000.0) * value(pricing.input_per_million)
            + (response.tokens_out as f64 / 1_000_000.0) * value(pricing.output_per_million),
    );
    Ok(response)
}

/// Call a model through a gateway.
fn complete(
    gateway: &mut Gateway,
    providers: &mut [MockProvider],
    request: &CompletionRequest,
    now: Timestamp,
) -> Result<CompletionResponse, SwarmError> {
    let serves: Vec<bool> =
        providers.iter().map(|provider| serves(provider, &request.model)).collect();
    let mut route = match gateway.begin(request, &serves) {
        Opening::Hit(response) => return Ok(response),
        Opening::Refused(error) => return Err(error),
        Opening::Overspent => {
            let spent = format!("{:.4}", value(gateway.usage().cost_usd));
            let budget = format!("{:.4}", value(gateway.config().budget_usd.unwrap()));
            return Err(over_budget(&spent, &budget));
        }
        Opening::Try(route) => route,
    };
    while let Some(index) = gateway.next_provider(&mut route, now) {
        let mut attempt = 1;
        loop {
            gateway.record_request();
            let error = match ask(&mut providers[index], request) {
                Ok(response) => {
                    let spent =
                        number(value(gateway.usage().cost_usd) + value(response.cost_usd));
                    gateway.record_success(index, &response, request.cache_key(), spent);
                    return Ok(response);
                }
                Err(error) => error,
            };
            if gateway.retry_after(index, &error, attempt, now).is_none() {
                route.gave_up(error);
                break;
            }
            attempt += 1;
        }
    }
    Err(route.failure())
}

fn stream(
    gateway: &mut Gateway,
    providers: &mut [MockProvider],
    request: &CompletionRequest,
    now: Timestamp,
) -> Result<Vec<TokenChunk>, SwarmError> {
    let serves: Vec<bool> =
        providers.iter().map(|provider| serves(provider, &request.model)).collect();
    let mut from = 0;
    while let Some(index) = gateway.next_stream(from, &serves, now) {
        match providers[index].call(request) {
            Ok(answer) => return Ok(stream_chunks(&encode(answer))),
            Err(_) => gateway.record_failure(index, now),
        }
        from = index + 1;
    }
    Err(no_stream())
}

#[test]
fn cache_keys_ignore_attribution_but_not_content() {
    let base = CompletionRequest::new("m", vec![Message::user("hello")]);
    let attributed = base.clone().with_idempotency_key("task-1#0").attributed_to(
        JobId::new(),
        TaskId::new(),
        AgentId::new(),
    );
    assert_eq!(base.cache_key(), attributed.cache_key());

    let different = CompletionRequest::new("m", vec![Message::user("hello!")]);
    assert_ne!(base.cache_key(), different.cache_key());

    assert_ne!(base.cache_key(), base.clone().json().cache_key());
    assert_ne!(
        base.cache_key(),
        base.clone().with_temperature(Real32 { bits: 0.9_f32.to_bits() }).cache_key()
    );
    assert_ne!(
        base.cache_key(),
        CompletionRequest::new("other", vec![Message::user("hello")]).cache_key()
    );
}

#[test]
fn hashing_is_stable_across_runs() {
    // Cache keys and mock responses depend on this being deterministic.
    assert_eq!(stable_hash(b"swarm"), stable_hash(b"swarm"));
    assert_ne!(stable_hash(b"swarm"), stable_hash(b"swarn"));
}


#[test]
fn the_last_user_message_is_what_a_provider_answers() {
    let request = CompletionRequest::new(
        "m",
        vec![
            Message::system("be brief"),
            Message::user("first"),
            Message::assistant("ok"),
            Message::user("second"),
        ],
    );
    assert_eq!(request.last_user_message(), "second");
    assert_eq!(request.estimated_prompt_tokens(), 5);
    assert_eq!(
        CompletionRequest::new("m", vec![Message::system("x")]).last_user_message(),
        ""
    );
}

#[test]
fn the_same_prompt_always_produces_the_same_answer() {
    let mut provider = MockProvider::new("mock");
    let first = ask(&mut provider, &request("Task: explain Raft"))
        .unwrap();
    let second = ask(&mut provider, &request("Task: explain Raft"))
        .unwrap();
    assert_eq!(first.text, second.text);

    let other = ask(&mut provider, &request("Task: explain Paxos"))
        .unwrap();
    assert_ne!(first.text, other.text);
}

#[test]
fn json_mode_returns_the_keys_agents_validate_against() {
    let mut provider = MockProvider::new("mock");
    let response = ask(&mut provider, &request("Task: explain Raft").json())
        .unwrap();

    let value = response.parse_json().unwrap();
    for key in [
        "summary",
        "findings",
        "confidence",
        "evidence",
        "reasoning_summary",
    ] {
        assert!(value.get(key).is_some(), "missing key `{key}`");
    }
    assert!(value["findings"].as_array().unwrap().len() >= 3);
    let confidence = value["confidence"].as_f64().unwrap();
    assert!((0.0..=1.0).contains(&confidence));
}

#[test]
fn answers_mention_the_task_so_content_checks_can_pass() {
    let mut provider = MockProvider::new("mock");
    let response = ask(&mut provider, &request(
            "Task: compare Raft and Paxos\nInstruction: be brief",
        ))
        .unwrap();
    assert!(response.text.contains("compare Raft and Paxos"));
}

#[test]
fn scripted_answers_win_over_synthesis() {
    let mut provider = MockProvider::new("mock").scripted("capital of France", "Paris");
    let response = ask(&mut provider, &request("What is the capital of France?"))
        .unwrap();
    assert_eq!(response.text, "Paris");
}

#[test]
fn token_and_cost_accounting_follows_the_price_list() {
    let mut provider = MockProvider::new("mock").with_pricing(ModelPricing {
        input_per_million: number(1_000_000.0),
        output_per_million: number(2_000_000.0),
    });
    let response = ask(&mut provider, &request("one two three")).unwrap();

    assert_eq!(response.tokens_in, 3);
    assert!(response.tokens_out > 0);
    let expected = response.tokens_in as f64 + response.tokens_out as f64 * 2.0;
    assert!((value(response.cost_usd) - expected).abs() < 1e-6);
}

#[test]
fn injected_failures_happen_exactly_when_asked() {
    let mut recovering = MockProvider::new("mock").failing_first(2);
    assert!(ask(&mut recovering, &request("x")).is_err());
    assert!(ask(&mut recovering, &request("x")).is_err());
    assert!(ask(&mut recovering, &request("x")).is_ok());
    assert_eq!(recovering.call_count(), 3);
    assert_eq!(recovering.failure_count(), 2);

    let mut flaky = MockProvider::new("mock").failing_every(3);
    assert!(ask(&mut flaky, &request("x")).is_ok());
    assert!(ask(&mut flaky, &request("x")).is_ok());
    assert!(ask(&mut flaky, &request("x")).is_err());

    let mut broken = MockProvider::new("mock").always_failing();
    assert!(ask(&mut broken, &request("x")).is_err());
    assert!(!broken.health_check().healthy);
}


#[test]
fn topics_come_from_the_task_line_when_there_is_one() {
    assert_eq!(topic_of("Task: explain Raft\nother"), "explain Raft");
    assert_eq!(topic_of("just a prompt"), "just a prompt");
    assert_eq!(topic_of(""), "the objective");
    assert_eq!(topic_of("Task:   "), "the objective");
    assert_eq!(
        topic_of(&format!("Task: {}", "word ".repeat(50)))
            .split_whitespace()
            .count(),
        12
    );
}

#[test]
fn streaming_reassembles_into_the_same_answer() {
    let mut provider = MockProvider::new("mock");
    let complete = ask(&mut provider, &request("Task: explain Raft")).unwrap();

    let answer = provider.call(&request("Task: explain Raft")).unwrap();
    let mut assembled = String::new();
    let mut saw_last = false;
    for chunk in stream_chunks(&encode(answer)) {
        assembled.push_str(&chunk.text);
        saw_last = chunk.last;
    }

    assert_eq!(assembled, complete.text);
    assert!(saw_last, "the final chunk must be flagged");
}

fn config() -> GatewayConfig {
    GatewayConfig {
        retry_backoff_ms: 0,
        ..GatewayConfig::default()
    }
}

#[test]
fn a_gateway_without_providers_says_so() {
    let mut providers = [];
    let mut gateway = Gateway::new(config());
    assert!(matches!(
        complete(&mut gateway, &mut providers, &request("x"), Timestamp::now()).unwrap_err(),
        SwarmError::Config(_)
    ));
}


#[test]
fn transient_failures_are_retried_inside_one_provider() {
    let mut providers = [MockProvider::new("mock").failing_first(2)];
    let mut gateway = Gateway::new(config()).and_provider("mock");

    let response = complete(&mut gateway, &mut providers, &request("Task: retry me"), Timestamp::now()).unwrap();
    assert_eq!(response.provider, "mock");
    assert_eq!(providers[0].call_count(), 3, "two failures then a success");
    assert_eq!(gateway.usage().failures, 2);
    assert_eq!(gateway.usage().fallbacks, 0);
}

#[test]
fn retries_give_up_after_the_configured_budget() {
    let mut providers = [MockProvider::new("mock").always_failing()];
    let mut gateway = Gateway::new(GatewayConfig {
        max_attempts: 2,
        ..config()
    })
    .and_provider("mock");

    assert!(complete(&mut gateway, &mut providers, &request("x"), Timestamp::now()).is_err());
    assert_eq!(providers[0].call_count(), 2);
}

#[test]
fn identical_requests_are_served_from_cache() {
    let mut providers = [MockProvider::new("mock")];
    let mut gateway = Gateway::new(config()).and_provider("mock");

    let first = complete(&mut gateway, &mut providers, &request("Task: cache me"), Timestamp::now()).unwrap();
    assert!(!first.cached);

    let second = complete(&mut gateway, &mut providers, &request("Task: cache me"), Timestamp::now()).unwrap();
    assert!(second.cached);
    assert_eq!(second.text, first.text);
    assert_eq!(
        providers[0].call_count(),
        1,
        "the cache must prevent the second call"
    );

    let usage = gateway.usage();
    assert_eq!(usage.cache_hits, 1);
    assert_eq!(usage.requests, 1);
    // A cache hit is free: it must not be billed twice.
    assert!((value(usage.cost_usd) - value(first.cost_usd)).abs() < 1e-9);
}

#[test]
fn a_caller_can_bypass_a_cached_answer_it_knows_is_unusable() {
    let mut providers = [MockProvider::new("mock")];
    let mut gateway = Gateway::new(config()).and_provider("mock");

    complete(&mut gateway, &mut providers, &request("Task: retry me"), Timestamp::now()).unwrap();
    let retried = complete(&mut gateway, &mut providers, &request("Task: retry me").bypassing_cache(true), Timestamp::now())
        .unwrap();

    assert!(!retried.cached);
    assert_eq!(
        providers[0].call_count(),
        2,
        "the bypass must reach the provider"
    );
}

#[test]
fn caching_can_be_turned_off() {
    let mut providers = [MockProvider::new("mock")];
    let mut gateway = Gateway::new(GatewayConfig {
        cache_enabled: false,
        ..config()
    })
    .and_provider("mock");

    complete(&mut gateway, &mut providers, &request("Task: x"), Timestamp::now()).unwrap();
    complete(&mut gateway, &mut providers, &request("Task: x"), Timestamp::now()).unwrap();
    assert_eq!(providers[0].call_count(), 2);
}

#[test]
fn the_cache_stays_bounded() {
    let mut providers = [MockProvider::new("mock")];
    let mut gateway = Gateway::new(GatewayConfig {
        cache_capacity: 4,
        ..config()
    })
    .and_provider("mock");

    for index in 0..20 {
        complete(&mut gateway, &mut providers, &request(&format!("Task: prompt {index}")), Timestamp::now())
            .unwrap();
    }
    assert!(
        gateway.cached_responses() <= 4,
        "cache must not grow without bound"
    );
}

#[test]
fn token_and_cost_totals_accumulate_across_calls() {
    let mut providers = [MockProvider::new("mock")];
    let mut gateway = Gateway::new(config()).and_provider("mock");

    let first = complete(&mut gateway, &mut providers, &request("Task: one"), Timestamp::now()).unwrap();
    let second = complete(&mut gateway, &mut providers, &request("Task: two"), Timestamp::now()).unwrap();

    let usage = gateway.usage();
    assert_eq!(usage.requests, 2);
    assert_eq!(usage.tokens_in, first.tokens_in + second.tokens_in);
    assert_eq!(usage.tokens_out, first.tokens_out + second.tokens_out);
    assert!((value(usage.cost_usd) - (value(first.cost_usd) + value(second.cost_usd))).abs() < 1e-9);

    gateway.reset_usage();
    assert_eq!(gateway.usage(), Usage::default());
}

#[test]
fn a_dead_primary_falls_back_to_the_secondary() {
    let mut providers = [
        MockProvider::new("primary").always_failing(),
        MockProvider::new("secondary"),
    ];
    let mut gateway =
        Gateway::new(config()).and_provider("primary").and_provider("secondary");

    let response =
        complete(&mut gateway, &mut providers, &request("Task: anything"), Timestamp::now())
            .unwrap();
    assert_eq!(response.provider, "secondary");
    assert_eq!(providers[1].call_count(), 1);
    assert!(providers[0].call_count() >= 1);
    assert_eq!(gateway.usage().fallbacks, 1);
}

#[test]
fn a_failing_provider_gets_its_breaker_opened_and_is_then_skipped() {
    let mut providers = [
        MockProvider::new("broken").always_failing(),
        MockProvider::new("healthy"),
    ];
    let mut gateway = Gateway::new(GatewayConfig {
        max_attempts: 1,
        circuit_failure_threshold: 2,
        circuit_reset_ms: 60_000,
        // Without this the cache would answer calls 2 and 3 and the breaker would
        // never see enough traffic to trip.
        cache_enabled: false,
        ..config()
    })
    .and_provider("broken")
    .and_provider("healthy");
    let now = Timestamp::now();

    for _ in 0..3 {
        complete(&mut gateway, &mut providers, &request("Task: x"), now).unwrap();
    }

    assert_eq!(
        providers[0].call_count(),
        2,
        "after two failures the breaker must stop further calls"
    );
    assert_eq!(providers[1].call_count(), 3);
    assert!(gateway.usage().circuit_rejections >= 1);

    let health: Vec<ProviderHealth> = (0..2)
        .map(|index| gateway.health(index, Some(providers[index].health_check()), now))
        .collect();
    assert!(health
        .iter()
        .any(|h| h.provider == "broken" && h.circuit_open));
}

#[test]
fn a_breaker_reopens_the_path_once_the_reset_window_passes() {
    let mut providers = [MockProvider::new("recovering").failing_first(2)];
    let mut gateway = Gateway::new(GatewayConfig {
        max_attempts: 1,
        circuit_failure_threshold: 2,
        circuit_reset_ms: 1,
        ..config()
    })
    .and_provider("recovering");
    let now = Timestamp::now();

    assert!(complete(&mut gateway, &mut providers, &request("Task: x"), now).is_err());
    assert!(complete(&mut gateway, &mut providers, &request("Task: x"), now).is_err());

    let later = now.plus_millis(5);
    let response =
        complete(&mut gateway, &mut providers, &request("Task: x"), later).unwrap();
    assert_eq!(response.provider, "recovering");
}

#[test]
fn spending_past_the_budget_is_refused_rather_than_reported() {
    let mut providers = [MockProvider::new("mock").with_pricing(ModelPricing {
        input_per_million: number(1_000_000.0),
        output_per_million: number(1_000_000.0),
    })];
    let mut gateway = Gateway::new(GatewayConfig {
        budget_usd: Some(number(10.0)),
        cache_enabled: false,
        ..config()
    })
    .and_provider("mock");

    // Each call costs (tokens_in + tokens_out) dollars at this absurd price.
    let mut refused = false;
    for index in 0..10 {
        let prompt = format!("Task: {index}");
        if let Err(err) =
            complete(&mut gateway, &mut providers, &request(&prompt), Timestamp::now())
        {
            assert!(matches!(err, SwarmError::BudgetExceeded(_)));
            refused = true;
            break;
        }
    }
    assert!(refused, "the budget must eventually stop the gateway");
    let left = (10.0 - value(gateway.usage().cost_usd)).max(0.0);
    assert_eq!(gateway.remaining_budget(number(left)), Some(number(0.0)));
}

#[test]
fn model_routing_skips_providers_that_do_not_serve_the_model() {
    let mut providers = [MockProvider::new("only-big"), MockProvider::new("mock")];
    let mut gateway = Gateway::new(config()).and_provider("only-big").and_provider("mock");

    let response =
        complete(&mut gateway, &mut providers, &request("Task: x"), Timestamp::now()).unwrap();
    assert_eq!(response.provider, "mock");

    let unserved = CompletionRequest::new("enormous", vec![Message::user("x")]);
    let mut gateway = Gateway::new(config()).and_provider("only-big");
    assert!(matches!(
        complete(&mut gateway, &mut providers[..1], &unserved, Timestamp::now()).unwrap_err(),
        SwarmError::Config(_)
    ));
}

#[test]
fn streaming_falls_back_like_completion_does() {
    let mut providers =
        [MockProvider::new("dead").always_failing(), MockProvider::new("live")];
    let mut gateway = Gateway::new(config()).and_provider("dead").and_provider("live");

    let chunks =
        stream(&mut gateway, &mut providers, &request("Task: stream"), Timestamp::now())
            .unwrap();
    let text: String = chunks.iter().map(|chunk| chunk.text.as_str()).collect();
    assert!(text.contains("stream"));
}

#[test]
fn a_stream_nobody_can_open_is_an_error() {
    let mut providers = [MockProvider::new("dead").always_failing()];
    let mut gateway = Gateway::new(config()).and_provider("dead");
    let error = stream(&mut gateway, &mut providers, &request("x"), Timestamp::now())
        .unwrap_err();
    assert_eq!(
        error.to_string(),
        "provider `gateway` failed: no provider could open a stream"
    );
}

#[test]
fn limits_are_kept_per_model() {
    let gateway = Gateway::new(GatewayConfig { max_concurrent: 0, ..config() })
        .and_model_limit("big", 2);
    assert_eq!(gateway.permits(), 1);
    assert_eq!(gateway.model_limit("big"), Some(2));
    assert_eq!(gateway.model_limit("small"), None);
    assert!(gateway.provider_names().is_empty());
}

#[test]
fn backoff_between_calls_doubles() {
    let mut gateway = Gateway::new(GatewayConfig {
        retry_backoff_ms: 100,
        max_attempts: 4,
        ..GatewayConfig::default()
    })
    .and_provider("mock");
    let error = SwarmError::Timeout { millis: 1 };
    let now = Timestamp::now();
    assert_eq!(gateway.retry_after(0, &error, 1, now), Some(100));
    assert_eq!(gateway.retry_after(0, &error, 2, now), Some(200));
    assert_eq!(gateway.retry_after(0, &error, 3, now), Some(400));
    assert_eq!(gateway.retry_after(0, &error, 4, now), None);
    assert_eq!(
        gateway.retry_after(0, &SwarmError::Validation("x".into()), 1, now),
        None
    );
}

#[test]
fn stop_sequences_make_a_different_request() {
    let plain = request("hello");
    let mut stopped = request("hello");
    stopped.stop = vec!["END".to_owned()];
    assert_ne!(plain.cache_key(), stopped.cache_key());
}
