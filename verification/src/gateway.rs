//! The gateway: everything that is true of every provider.
//!
//! Routing, ordered fallback, retry with backoff, circuit breaking, concurrency limits,
//! response caching, budget enforcement, and token accounting. Providers stay dumb; this is
//! where the operational behaviour lives. The gateway decides and keeps the books; whoever
//! drives it makes the calls and hands back what came of them.

use crate::agent::{count_one, counted};
use crate::clock::Timestamp;
use crate::error::{ErrorView, SwarmError};
use crate::figures::{Real64, INFINITY_BITS_64};
use crate::model::{CompletionRequest, CompletionResponse, CompletionView, ProviderHealth,
    ResponseView};
use crate::register::Register;
use crate::table::Table;
use crate::task::doubled;
use crate::text::{same_text, views};
use vstd::prelude::*;

verus! {

/// Operational limits applied to every model call.
#[derive(Clone, Copy, Debug, PartialEq, Eq, Structural)]
pub struct GatewayConfig {
    /// Model calls in flight across the whole process.
    pub max_concurrent: usize,
    /// Whether identical requests may be served from cache.
    pub cache_enabled: bool,
    /// Cached responses retained before the oldest are dropped.
    pub cache_capacity: usize,
    /// Attempts per provider, including the first.
    pub max_attempts: u32,
    /// Base backoff between attempts, doubled each time.
    pub retry_backoff_ms: u64,
    /// Consecutive failures before a provider's breaker opens.
    pub circuit_failure_threshold: u32,
    /// How long a breaker stays open before a probe is allowed through.
    pub circuit_reset_ms: u64,
    /// Total spend ceiling for this gateway, in USD.
    pub budget_usd: Option<Real64>,
}

/// The limits that hold where nobody set others.
pub open spec fn default_limits() -> GatewayConfig {
    GatewayConfig {
        max_concurrent: 32,
        cache_enabled: true,
        cache_capacity: 4_096,
        max_attempts: 3,
        retry_backoff_ms: 50,
        circuit_failure_threshold: 5,
        circuit_reset_ms: 5_000,
        budget_usd: None,
    }
}

impl Default for GatewayConfig {
    fn default() -> (r: Self)
        ensures
            r == default_limits(),
    {
        GatewayConfig {
            max_concurrent: 32,
            cache_enabled: true,
            cache_capacity: 4_096,
            max_attempts: 3,
            retry_backoff_ms: 50,
            circuit_failure_threshold: 5,
            circuit_reset_ms: 5_000,
            budget_usd: None,
        }
    }
}

/// Running totals for everything the gateway has spent.
#[derive(Clone, Copy, Debug, PartialEq, Eq, Structural)]
pub struct Usage {
    /// Calls that reached a provider.
    pub requests: u64,
    /// Calls served from cache.
    pub cache_hits: u64,
    /// Provider calls that returned an error.
    pub failures: u64,
    /// Times the gateway moved on to a lower-priority provider.
    pub fallbacks: u64,
    /// Times a call was refused because a breaker was open.
    pub circuit_rejections: u64,
    /// Prompt tokens.
    pub tokens_in: u64,
    /// Completion tokens.
    pub tokens_out: u64,
    /// Estimated spend in USD.
    pub cost_usd: Real64,
}

impl Usage {
    /// Nothing spent.
    pub open spec fn none() -> Usage {
        Usage {
            requests: 0,
            cache_hits: 0,
            failures: 0,
            fallbacks: 0,
            circuit_rejections: 0,
            tokens_in: 0,
            tokens_out: 0,
            cost_usd: Real64 { bits: 0 },
        }
    }
}

impl Default for Usage {
    fn default() -> (r: Self)
        ensures
            r == Usage::none(),
    {
        Usage {
            requests: 0,
            cache_hits: 0,
            failures: 0,
            fallbacks: 0,
            circuit_rejections: 0,
            tokens_in: 0,
            tokens_out: 0,
            cost_usd: Real64::zero(),
        }
    }
}

/// A total after `more`; a total that cannot grow stays full.
pub open spec fn summed(total: u64, more: u64) -> u64 {
    if total + more > u64::MAX {
        u64::MAX
    } else {
        (total + more) as u64
    }
}

/// Per-provider failure tracking.
#[derive(Clone, Copy, Debug, PartialEq, Eq, Structural)]
pub struct Breaker {
    /// Failures since the last success.
    pub consecutive_failures: u32,
    /// When it opened, while it is open.
    pub opened_at: Option<Timestamp>,
}

impl Breaker {
    /// A breaker nothing has failed on.
    pub open spec fn closed() -> Breaker {
        Breaker { consecutive_failures: 0, opened_at: None }
    }

    /// Whether calls are refused at `now`.
    pub open spec fn refuses(self, reset_ms: u64, now: Timestamp) -> bool {
        match self.opened_at {
            Some(since) => now.millis_after(since) < reset_ms,
            None => false,
        }
    }

    /// After a look at `now`: once the reset window has passed, one call is let through to
    /// see whether the provider recovered.
    pub open spec fn looked_at(self, reset_ms: u64, now: Timestamp) -> Breaker {
        if self.opened_at is Some && !self.refuses(reset_ms, now) {
            Breaker::closed()
        } else {
            self
        }
    }

    /// After a failure at `now`.
    pub open spec fn failed(self, threshold: u32, now: Timestamp) -> Breaker {
        let failures = if self.consecutive_failures < u32::MAX {
            (self.consecutive_failures + 1) as u32
        } else {
            u32::MAX
        };
        Breaker {
            consecutive_failures: failures,
            opened_at: if failures >= threshold && self.opened_at is None {
                Some(now)
            } else {
                self.opened_at
            },
        }
    }

    /// A breaker nothing has failed on.
    pub fn new() -> (r: Self)
        ensures
            r == Breaker::closed(),
    {
        Breaker { consecutive_failures: 0, opened_at: None }
    }

    /// Whether calls are refused at `now`, and the breaker after this look at it.
    pub fn look(self, reset_ms: u64, now: Timestamp) -> (r: (bool, Breaker))
        ensures
            r.0 == self.refuses(reset_ms, now),
            r.1 == self.looked_at(reset_ms, now),
    {
        match self.opened_at {
            Some(since) => if now.millis_since(since) < reset_ms {
                (true, self)
            } else {
                (false, Breaker::new())
            },
            None => (false, self),
        }
    }

    /// The breaker after a failure at `now`.
    pub fn fail(self, threshold: u32, now: Timestamp) -> (r: Breaker)
        ensures
            r == self.failed(threshold, now),
    {
        let failures: u32 = if self.consecutive_failures < u32::MAX {
            self.consecutive_failures + 1
        } else {
            u32::MAX
        };
        let opened_at = if failures >= threshold && self.opened_at.is_none() {
            Some(now)
        } else {
            self.opened_at
        };
        Breaker { consecutive_failures: failures, opened_at }
    }
}

/// What a request comes to before any provider is called.
#[derive(Debug)]
pub enum Opening {
    /// An identical request was answered before.
    Hit(CompletionResponse),
    /// The request cannot be served.
    Refused(SwarmError),
    /// The budget is spent.
    Overspent,
    /// The providers to try, in fallback order.
    Try(Route),
}

/// Where a request stands among the providers that serve its model.
#[derive(Debug)]
pub struct Route {
    /// Positions of the providers to try, in fallback order.
    pub candidates: Vec<usize>,
    /// How many of them have been considered.
    pub considered: usize,
    /// Why the last one considered did not answer.
    pub last_error: Option<SwarmError>,
}

/// A route, with its error taken by its view.
#[verifier::ext_equal]
pub struct RouteView {
    /// Positions of the providers to try.
    pub candidates: Seq<usize>,
    /// How many of them have been considered.
    pub considered: nat,
    /// Why the last one considered did not answer.
    pub last_error: Option<ErrorView>,
}

impl View for Route {
    type V = RouteView;

    open spec fn view(&self) -> RouteView {
        RouteView {
            candidates: self.candidates@,
            considered: self.considered as nat,
            last_error: match self.last_error {
                Some(error) => Some(error@),
                None => None,
            },
        }
    }
}

impl RouteView {
    /// Why no provider answered.
    pub open spec fn failure(self) -> ErrorView {
        match self.last_error {
            Some(error) => error,
            None => ErrorView::Provider {
                provider: "gateway"@,
                detail: "no provider was able to serve the request"@,
            },
        }
    }
}

impl Route {
    /// Why no provider answered, once all have been tried.
    pub fn failure(self) -> (r: SwarmError)
        ensures
            r@ == self@.failure(),
    {
        match self.last_error {
            Some(error) => error,
            None => SwarmError::Provider {
                provider: "gateway".to_owned(),
                detail: "no provider was able to serve the request".to_owned(),
            },
        }
    }

    /// The provider that was tried last failed with `error`.
    pub fn gave_up(&mut self, error: SwarmError)
        ensures
            final(self)@ == (RouteView { last_error: Some(error@), ..old(self)@ }),
    {
        self.last_error = Some(error);
    }
}

/// Positions of the providers that serve a model, in fallback order.
pub open spec fn serving(serves: Seq<bool>) -> Seq<usize>
    decreases serves.len(),
{
    if serves.len() == 0 {
        seq![]
    } else {
        let before = serving(serves.drop_last());
        if serves.last() {
            before.push((serves.len() - 1) as usize)
        } else {
            before
        }
    }
}

/// The limit a model was given last.
pub open spec fn last_limit(limits: Seq<(Seq<char>, usize)>, model: Seq<char>) -> Option<usize>
    decreases limits.len(),
{
    if limits.len() == 0 {
        None
    } else if limits.last().0 == model {
        Some(limits.last().1)
    } else {
        last_limit(limits.drop_last(), model)
    }
}

/// The name a provider's breaker is filed under.
pub open spec fn breaker_of(provider: Seq<char>) -> (Seq<char>, Seq<char>) {
    ("breaker"@, provider)
}

/// What a gateway holds.
#[verifier::ext_equal]
pub struct GatewayView {
    /// Its limits.
    pub config: GatewayConfig,
    /// Names of its providers, in fallback order.
    pub providers: Seq<Seq<char>>,
    /// Concurrency limits of single models, in the order they were set.
    pub limits: Seq<(Seq<char>, usize)>,
    /// Cached responses by cache key.
    pub held: Map<u128, ResponseView>,
    /// Cache keys in the order their responses came in.
    pub order: Seq<u64>,
    /// Breakers by provider.
    pub breakers: Map<(Seq<char>, Seq<char>), Breaker>,
    /// What was spent.
    pub usage: Usage,
}

impl GatewayView {
    /// A gateway with no providers yet.
    pub open spec fn empty(config: GatewayConfig) -> GatewayView {
        GatewayView {
            config,
            providers: seq![],
            limits: seq![],
            held: Map::empty(),
            order: seq![],
            breakers: Map::empty(),
            usage: Usage::none(),
        }
    }

    /// With one more provider, behind the others.
    pub open spec fn with_provider(self, provider: Seq<char>) -> GatewayView {
        GatewayView {
            providers: self.providers.push(provider),
            breakers: self.breakers.insert(breaker_of(provider), Breaker::closed()),
            ..self
        }
    }

    /// Whether a provider's breaker refuses calls at `now`.
    pub open spec fn refuses(self, provider: Seq<char>, now: Timestamp) -> bool {
        self.breakers.contains_key(breaker_of(provider)) && self.breakers[breaker_of(
            provider,
        )].refuses(self.config.circuit_reset_ms, now)
    }

    /// After a look at a provider's breaker at `now`.
    pub open spec fn looked_at(self, provider: Seq<char>, now: Timestamp) -> GatewayView {
        if self.breakers.contains_key(breaker_of(provider)) {
            GatewayView {
                breakers: self.breakers.insert(
                    breaker_of(provider),
                    self.breakers[breaker_of(provider)].looked_at(
                        self.config.circuit_reset_ms,
                        now,
                    ),
                ),
                ..self
            }
        } else {
            self
        }
    }

    /// After a provider failed at `now`.
    pub open spec fn failed(self, provider: Seq<char>, now: Timestamp) -> GatewayView {
        GatewayView {
            usage: Usage { failures: counted(self.usage.failures), ..self.usage },
            breakers: if self.breakers.contains_key(breaker_of(provider)) {
                self.breakers.insert(
                    breaker_of(provider),
                    self.breakers[breaker_of(provider)].failed(
                        self.config.circuit_failure_threshold,
                        now,
                    ),
                )
            } else {
                self.breakers
            },
            ..self
        }
    }

    /// How many of the oldest cache keys go when one more comes in.
    pub open spec fn surplus(self) -> int {
        if self.order.len() + 1 > self.config.cache_capacity {
            self.order.len() + 1 - self.config.cache_capacity
        } else {
            0
        }
    }

    /// With a response filed in the cache. The oldest go first where it grows too large.
    pub open spec fn filed(self, key: u64, response: ResponseView) -> GatewayView {
        let order = self.order.push(key);
        GatewayView {
            held: self.held.insert(key as u128, response).remove_keys(
                order.take(self.surplus()).map_values(|k: u64| k as u128).to_set(),
            ),
            order: order.skip(self.surplus()),
            ..self
        }
    }

    /// After a provider answered; `spent` is the total spend with this answer.
    pub open spec fn answered(
        self,
        provider: Seq<char>,
        response: ResponseView,
        key: u64,
        spent: Real64,
    ) -> GatewayView {
        let booked = GatewayView {
            breakers: if self.breakers.contains_key(breaker_of(provider)) {
                self.breakers.insert(breaker_of(provider), Breaker::closed())
            } else {
                self.breakers
            },
            usage: Usage {
                tokens_in: summed(self.usage.tokens_in, response.tokens_in),
                tokens_out: summed(self.usage.tokens_out, response.tokens_out),
                cost_usd: spent,
                ..self.usage
            },
            ..self
        };
        if self.config.cache_enabled {
            booked.filed(key, response)
        } else {
            booked
        }
    }

    /// The response cached for a request, where it may be used.
    pub open spec fn cached(self, request: CompletionView) -> Option<ResponseView> {
        if self.config.cache_enabled && !request.bypass_cache && self.held.contains_key(
            request.key() as u128,
        ) {
            Some(self.held[request.key() as u128])
        } else {
            None
        }
    }

    /// Whether the budget is spent.
    pub open spec fn overspent(self) -> bool {
        match self.config.budget_usd {
            Some(budget) => self.usage.cost_usd.reaches(budget),
            None => false,
        }
    }

    /// Considering the candidates of a route from `route.considered` on at `now`: the
    /// gateway and the route after it, and the provider to call, if one is left. A provider
    /// whose breaker refuses is skipped; trying any but the first is a fallback.
    pub open spec fn routed(self, route: RouteView, now: Timestamp) -> (
        GatewayView,
        RouteView,
        Option<usize>,
    )
        decreases route.candidates.len() - route.considered,
    {
        if route.considered >= route.candidates.len() {
            (self, route, None)
        } else {
            let at = route.candidates[route.considered as int];
            let provider = self.providers[at as int];
            let on = RouteView { considered: route.considered + 1, ..route };
            if self.refuses(provider, now) {
                GatewayView {
                    usage: Usage {
                        circuit_rejections: counted(self.usage.circuit_rejections),
                        ..self.usage
                    },
                    ..self.looked_at(provider, now)
                }.routed(
                    RouteView { last_error: Some(ErrorView::CircuitOpen { provider }), ..on },
                    now,
                )
            } else {
                let seen = self.looked_at(provider, now);
                let chosen = if route.considered > 0 {
                    GatewayView {
                        usage: Usage { fallbacks: counted(seen.usage.fallbacks), ..seen.usage },
                        ..seen
                    }
                } else {
                    seen
                };
                (chosen, on, Some(at))
            }
        }
    }

    /// Looking for a provider to stream from, from position `from` on, at `now`.
    pub open spec fn streaming(self, from: nat, serves: Seq<bool>, now: Timestamp) -> (
        GatewayView,
        Option<usize>,
    )
        decreases self.providers.len() - from,
    {
        if from >= self.providers.len() {
            (self, None)
        } else {
            let provider = self.providers[from as int];
            let seen = self.looked_at(provider, now);
            if self.refuses(provider, now) || !serves[from as int] {
                seen.streaming(from + 1, serves, now)
            } else {
                (seen, Some(from as usize))
            }
        }
    }

    /// How long to wait before trying a provider again after attempt number `attempt`
    /// failed with `error`; nothing when it is not tried again.
    pub open spec fn retry_after(self, error: ErrorView, attempt: u32) -> Option<u64> {
        if attempt >= self.config.max_attempts || !error.retryable() {
            None
        } else {
            let doublings: nat = if attempt > 11 {
                10
            } else {
                (attempt - 1) as nat
            };
            let wait = self.config.retry_backoff_ms * doubled(doublings);
            if wait > u64::MAX {
                Some(u64::MAX)
            } else {
                Some(wait as u64)
            }
        }
    }

    /// What holds of every gateway: every provider has a breaker, every cached response
    /// came in, and no more keys are kept than the cache has room for.
    pub open spec fn wf(self) -> bool {
        &&& forall|i: int|
            0 <= i < self.providers.len() ==> self.breakers.contains_key(
                breaker_of(#[trigger] self.providers[i]),
            )
        &&& forall|key: u128| #[trigger]
            self.held.contains_key(key) ==> key <= u64::MAX && self.order.contains(key as u64)
        &&& self.order.len() <= self.config.cache_capacity
    }
}

/// Routes model calls to providers and enforces the platform's operational limits.
pub struct Gateway {
    config: GatewayConfig,
    providers: Vec<String>,
    model_limits: Vec<(String, usize)>,
    cache: Register<CompletionResponse>,
    cache_order: Vec<u64>,
    breakers: Table<Breaker>,
    usage: Usage,
}

impl View for Gateway {
    type V = GatewayView;

    closed spec fn view(&self) -> GatewayView {
        GatewayView {
            config: self.config,
            providers: views(self.providers@),
            limits: self.model_limits@.map_values(|limit: (String, usize)| (limit.0@, limit.1)),
            held: self.cache@.map_values(|response: CompletionResponse| response@),
            order: self.cache_order@,
            breakers: self.breakers@,
            usage: self.usage,
        }
    }
}

/// The health a probe reports; nothing when the probe failed.
pub open spec fn health_fields(health: ProviderHealth) -> (
    Seq<char>,
    bool,
    u64,
    bool,
    Option<Seq<char>>,
) {
    (
        health.provider@,
        health.healthy,
        health.latency_ms,
        health.circuit_open,
        crate::text::option_view(health.detail),
    )
}

impl Gateway {
    /// What holds of every gateway.
    pub closed spec fn wf(&self) -> bool {
        self@.wf() && self.cache.wf() && self.breakers.wf()
    }

    /// What every gateway's contents satisfy.
    pub proof fn lemma_wf(&self)
        requires
            self.wf(),
        ensures
            self@.wf(),
    {
    }

    /// A gateway with no providers yet.
    pub fn new(config: GatewayConfig) -> (r: Self)
        ensures
            r.wf(),
            r@ == GatewayView::empty(config),
    {
        let r = Gateway {
            config,
            providers: Vec::new(),
            model_limits: Vec::new(),
            cache: Register::new(),
            cache_order: Vec::new(),
            breakers: Table::new(),
            usage: Usage::default(),
        };
        assert(r@ =~= GatewayView::empty(config));
        r
    }

    /// A gateway with default limits and a single provider.
    pub fn with_provider(provider: &str) -> (r: Self)
        ensures
            r.wf(),
            r@ == GatewayView::empty(default_limits()).with_provider(provider@),
    {
        Gateway::new(GatewayConfig::default()).and_provider(provider)
    }

    /// Append a provider. Order is fallback order: earlier providers are preferred.
    pub fn and_provider(self, provider: &str) -> (r: Self)
        requires
            self.wf(),
        ensures
            r.wf(),
            r@ == self@.with_provider(provider@),
    {
        let ghost before = self@;
        let mut r = self;
        r.breakers.put("breaker", provider, Breaker::new());
        r.providers.push(provider.to_owned());
        proof {
            let after = before.with_provider(provider@);
            assert(r@ =~= after);
            assert forall|i: int| 0 <= i < after.providers.len() implies after.breakers.contains_key(
                breaker_of(#[trigger] after.providers[i]),
            ) by {
                if i < before.providers.len() {
                    assert(after.providers[i] == before.providers[i]);
                }
            }
        }
        r
    }

    /// Cap concurrent calls to one specific model.
    pub fn and_model_limit(self, model: &str, limit: usize) -> (r: Self)
        requires
            self.wf(),
        ensures
            r.wf(),
            r@ == (GatewayView {
                limits: self@.limits.push(
                    (
                        model@,
                        if limit == 0 {
                            1
                        } else {
                            limit
                        },
                    ),
                ),
                ..self@
            }),
    {
        let mut r = self;
        r.model_limits.push(
            (
                model.to_owned(),
                if limit == 0 {
                    1
                } else {
                    limit
                },
            ),
        );
        assert(r@.limits =~= self@.limits.push(
            (
                model@,
                if limit == 0 {
                    1
                } else {
                    limit
                },
            ),
        ));
        r
    }

    /// Names of the registered providers, in fallback order.
    pub fn provider_names(&self) -> (r: Vec<String>)
        ensures
            views(r@) == self@.providers,
    {
        crate::text::clone_strings(&self.providers)
    }

    /// Its limits.
    pub fn config(&self) -> (r: GatewayConfig)
        ensures
            r == self@.config,
    {
        self.config
    }

    /// A snapshot of spend so far.
    pub fn usage(&self) -> (r: Usage)
        ensures
            r == self@.usage,
    {
        self.usage
    }

    /// Zero the counters, for benchmarking between phases of a run.
    pub fn reset_usage(&mut self)
        requires
            old(self).wf(),
        ensures
            final(self).wf(),
            final(self)@ == (GatewayView { usage: Usage::none(), ..old(self)@ }),
    {
        self.usage = Usage::default();
    }

    /// Remaining budget in USD, if one is configured. `left` is the budget less the spend;
    /// an overspent budget has nothing remaining.
    pub fn remaining_budget(&self, left: Real64) -> (r: Option<Real64>)
        ensures
            r == match self@.config.budget_usd {
                Some(_) => Some(
                    if left.reaches(Real64 { bits: 0 }) {
                        left
                    } else {
                        Real64 { bits: 0 }
                    },
                ),
                None => None,
            },
    {
        match self.config.budget_usd {
            Some(_) => Some(
                if left.at_least(Real64::zero()) {
                    left
                } else {
                    Real64::zero()
                },
            ),
            None => None,
        }
    }

    /// How many model calls may be in flight at once.
    pub fn permits(&self) -> (r: usize)
        ensures
            r == if self@.config.max_concurrent == 0 {
                1
            } else {
                self@.config.max_concurrent
            },
    {
        if self.config.max_concurrent == 0 {
            1
        } else {
            self.config.max_concurrent
        }
    }

    /// How many calls to a model may be in flight at once, where it has a limit of its own.
    pub fn model_limit(&self, model: &str) -> (r: Option<usize>)
        ensures
            r == last_limit(self@.limits, model@),
    {
        let ghost limits = self@.limits;
        let mut i: usize = self.model_limits.len();
        assert(limits.take(i as int) =~= limits);
        while i > 0
            invariant
                limits == self@.limits,
                i <= limits.len() == self.model_limits@.len(),
                last_limit(limits, model@) == last_limit(limits.take(i as int), model@),
            decreases i,
        {
            assert(limits.take(i as int).last() == limits[i - 1]);
            assert(limits.take(i as int).drop_last() =~= limits.take(i - 1));
            i -= 1;
            if same_text(self.model_limits[i].0.as_str(), model) {
                return Some(self.model_limits[i].1);
            }
        }
        None
    }

    /// How many responses are cached.
    pub fn cached_responses(&self) -> (r: usize)
        ensures
            r == self@.held.dom().len(),
    {
        assert(self@.held.dom() =~= self.cache@.dom());
        self.cache.len()
    }

    /// Whether a provider's breaker refuses calls at `now`.
    pub fn circuit_is_open(&mut self, provider: usize, now: Timestamp) -> (r: bool)
        requires
            old(self).wf(),
            provider < old(self)@.providers.len(),
        ensures
            final(self).wf(),
            r == old(self)@.refuses(old(self)@.providers[provider as int], now),
            final(self)@ == old(self)@.looked_at(old(self)@.providers[provider as int], now),
    {
        let ghost before = self@;
        let name = self.providers[provider].clone();
        assert(before.breakers.contains_key(breaker_of(before.providers[provider as int])));
        let breaker = match self.breakers.get("breaker", name.as_str()) {
            Some(breaker) => *breaker,
            None => Breaker::new(),
        };
        let (open, seen) = breaker.look(self.config.circuit_reset_ms, now);
        self.breakers.put("breaker", name.as_str(), seen);
        assert(self@ =~= before.looked_at(before.providers[provider as int], now));
        open
    }

    /// A provider failed at `now`.
    pub fn record_failure(&mut self, provider: usize, now: Timestamp)
        requires
            old(self).wf(),
            provider < old(self)@.providers.len(),
        ensures
            final(self).wf(),
            final(self)@ == old(self)@.failed(old(self)@.providers[provider as int], now),
    {
        let ghost before = self@;
        let name = self.providers[provider].clone();
        assert(before.breakers.contains_key(breaker_of(before.providers[provider as int])));
        self.usage.failures = count_one(self.usage.failures);
        let breaker = match self.breakers.get("breaker", name.as_str()) {
            Some(breaker) => *breaker,
            None => Breaker::new(),
        };
        self.breakers.put(
            "breaker",
            name.as_str(),
            breaker.fail(self.config.circuit_failure_threshold, now),
        );
        assert(self@ =~= before.failed(before.providers[provider as int], now));
    }

    /// File a response in the cache. Eviction is by insertion order.
    fn file(&mut self, key: u64, response: CompletionResponse)
        requires
            old(self).wf(),
        ensures
            final(self).wf(),
            final(self)@ == old(self)@.filed(key, response@),
    {
        let ghost before = self@;
        let ghost order = before.order.push(key);
        let ghost held = before.held.insert(key as u128, response@);
        let capacity: usize = self.config.cache_capacity;
        self.cache.put(key as u128, response);
        self.cache_order.push(key);
        let ghost mut gone: int = 0;
        proof {
            assert(order.skip(0) =~= order);
            assert(self@.held =~= held.remove_keys(
                order.take(0).map_values(|k: u64| k as u128).to_set(),
            ));
            assert forall|k: u128| #[trigger] self@.held.contains_key(k) implies k <= u64::MAX
                && order.contains(k as u64) by {
                if k == key as u128 {
                    assert(order.last() == key);
                } else {
                    assert(before.held.contains_key(k));
                    let i = choose|i: int|
                        0 <= i < before.order.len() && before.order[i] == k as u64;
                    assert(order[i] == k as u64);
                }
            }
        }
        while self.cache_order.len() > capacity
            invariant
                order == before.order.push(key),
                held == before.held.insert(key as u128, response@),
                0 <= gone <= before.surplus() <= order.len(),
                before.order.len() <= capacity,
                capacity == before.config.cache_capacity,
                gone == order.len() - self@.order.len(),
                self.cache.wf(),
                self.breakers.wf(),
                self@ == (GatewayView { held: self@.held, order: self@.order, ..before }),
                self@.order == order.skip(gone),
                self@.held == held.remove_keys(
                    order.take(gone).map_values(|k: u64| k as u128).to_set(),
                ),
                forall|k: u128| #[trigger]
                    self@.held.contains_key(k) ==> k <= u64::MAX && self@.order.contains(k as u64),
            decreases self.cache_order@.len(),
        {
            let ghost earlier = self@;
            let oldest: u64 = self.cache_order.remove(0);
            let _ = self.cache.remove(oldest as u128);
            proof {
                assert(oldest == order[gone]);
                assert(self@.order =~= order.skip(gone + 1));
                let f = |k: u64| k as u128;
                let dropped = order.take(gone).map_values(f);
                let next = order.take(gone + 1).map_values(f);
                assert(next =~= dropped.push(oldest as u128));
                assert forall|k: u128| next.to_set().contains(k) == (dropped.to_set().contains(k)
                    || k == oldest as u128) by {
                    if dropped.contains(k) {
                        let i = choose|i: int| 0 <= i < dropped.len() && dropped[i] == k;
                        assert(next[i] == k);
                    }
                    if k == oldest as u128 {
                        assert(next[gone] == k);
                    }
                    if next.contains(k) {
                        let i = choose|i: int| 0 <= i < next.len() && next[i] == k;
                        if i < gone {
                            assert(dropped[i] == k);
                        }
                    }
                }
                assert(self@.held =~= earlier.held.remove(oldest as u128));
                assert(self@.held =~= held.remove_keys(next.to_set()));
                gone = gone + 1;
                assert forall|k: u128| #[trigger] self@.held.contains_key(k) implies k <= u64::MAX
                    && self@.order.contains(k as u64) by {
                    assert(earlier.held.contains_key(k));
                    let i = choose|i: int|
                        0 <= i < earlier.order.len() && earlier.order[i] == k as u64;
                    assert(i != 0);
                    assert(self@.order[i - 1] == k as u64);
                }
            }
        }
        assert(gone == before.surplus());
        assert(self@ =~= before.filed(key, response@));
    }

    /// A provider answered; `spent` is the total spend with this answer.
    pub fn record_success(
        &mut self,
        provider: usize,
        response: &CompletionResponse,
        cache_key: u64,
        spent: Real64,
    )
        requires
            old(self).wf(),
            provider < old(self)@.providers.len(),
        ensures
            final(self).wf(),
            final(self)@ == old(self)@.answered(
                old(self)@.providers[provider as int],
                response@,
                cache_key,
                spent,
            ),
    {
        let ghost before = self@;
        let name = self.providers[provider].clone();
        assert(before.breakers.contains_key(breaker_of(before.providers[provider as int])));
        self.breakers.put("breaker", name.as_str(), Breaker::new());
        self.usage.tokens_in = self.usage.tokens_in.saturating_add(response.tokens_in);
        self.usage.tokens_out = self.usage.tokens_out.saturating_add(response.tokens_out);
        self.usage.cost_usd = spent;
        if self.config.cache_enabled {
            self.file(cache_key, response.clone());
        }
        assert(self@ =~= before.answered(
            before.providers[provider as int],
            response@,
            cache_key,
            spent,
        ));
    }

    /// Take in a request: whether it can be answered from the cache or must be refused, and
    /// otherwise which providers to try. `serves` says of each provider whether it serves
    /// the requested model.
    ///
    /// The budget is checked before any call, so an overspend is refused rather than merely
    /// reported.
    pub fn begin(&mut self, request: &CompletionRequest, serves: &Vec<bool>) -> (r: Opening)
        requires
            old(self).wf(),
            serves@.len() == old(self)@.providers.len(),
        ensures
            final(self).wf(),
            match r {
                Opening::Hit(response) => {
                    &&& old(self)@.providers.len() > 0
                    &&& old(self)@.cached(request@) matches Some(hit) && response@ == (
                    ResponseView { cached: true, ..hit })
                    &&& final(self)@ == (GatewayView {
                        usage: Usage {
                            cache_hits: counted(old(self)@.usage.cache_hits),
                            ..old(self)@.usage
                        },
                        ..old(self)@
                    })
                },
                Opening::Refused(error) => {
                    &&& final(self)@ == old(self)@
                    &&& old(self)@.providers.len() == 0 && error@ == ErrorView::Config(
                        "gateway has no providers"@,
                    ) || (old(self)@.providers.len() > 0 && old(self)@.cached(request@) is None
                        && !old(self)@.overspent() && serving(serves@).len() == 0 && error@
                        == ErrorView::Config(
                        "no provider serves model `"@ + request@.model + "`"@,
                    ))
                },
                Opening::Overspent => {
                    &&& final(self)@ == old(self)@
                    &&& old(self)@.providers.len() > 0
                    &&& old(self)@.cached(request@) is None
                    &&& old(self)@.overspent()
                },
                Opening::Try(route) => {
                    &&& final(self)@ == old(self)@
                    &&& old(self)@.providers.len() > 0
                    &&& old(self)@.cached(request@) is None
                    &&& !old(self)@.overspent()
                    &&& route@ == (RouteView {
                        candidates: serving(serves@),
                        considered: 0,
                        last_error: None,
                    })
                    &&& route@.candidates.len() > 0
                    &&& forall|i: int|
                        0 <= i < route@.candidates.len() ==> #[trigger] route@.candidates[i]
                            < old(self)@.providers.len()
                },
            },
    {
        let ghost before = self@;
        if self.providers.len() == 0 {
            return Opening::Refused(SwarmError::Config("gateway has no providers".to_owned()));
        }
        if self.config.cache_enabled && !request.bypass_cache {
            let hit = match self.cache.get(request.cache_key() as u128) {
                Some(hit) => Some(hit.clone()),
                None => None,
            };
            if let Some(hit) = hit {
                self.usage.cache_hits = count_one(self.usage.cache_hits);
                return Opening::Hit(CompletionResponse { cached: true, ..hit });
            }
        }
        if let Some(budget) = self.config.budget_usd {
            if self.usage.cost_usd.at_least(budget) {
                return Opening::Overspent;
            }
        }
        let mut candidates: Vec<usize> = Vec::new();
        for i in 0..serves.len()
            invariant
                candidates@ == serving(serves@.take(i as int)),
                forall|k: int| 0 <= k < candidates@.len() ==> #[trigger] candidates@[k] < i,
        {
            assert(serves@.take(i + 1).drop_last() =~= serves@.take(i as int));
            assert(serves@.take(i + 1).last() == serves@[i as int]);
            if serves[i] {
                candidates.push(i);
            }
        }
        assert(serves@.take(serves@.len() as int) =~= serves@);
        if candidates.len() == 0 {
            let mut text = "no provider serves model `".to_owned();
            text.append(request.model.as_str());
            text.append("`");
            return Opening::Refused(SwarmError::Config(text));
        }
        Opening::Try(Route { candidates, considered: 0, last_error: None })
    }

    /// The next provider to call for a request, if one is left.
    pub fn next_provider(&mut self, route: &mut Route, now: Timestamp) -> (r: Option<usize>)
        requires
            old(self).wf(),
            forall|i: int|
                0 <= i < old(route)@.candidates.len() ==> #[trigger] old(route)@.candidates[i]
                    < old(self)@.providers.len(),
        ensures
            final(self).wf(),
            (final(self)@, final(route)@, r) == old(self)@.routed(old(route)@, now),
            final(route)@.candidates == old(route)@.candidates,
            final(self)@.providers == old(self)@.providers,
            r matches Some(i) ==> i < old(self)@.providers.len(),
    {
        let ghost entry = self@;
        let ghost asked = route@;
        while route.considered < route.candidates.len()
            invariant
                self.wf(),
                entry == old(self)@,
                asked == old(route)@,
                route@.candidates == asked.candidates,
                self@.providers == entry.providers,
                entry.routed(asked, now) == self@.routed(route@, now),
                forall|i: int|
                    0 <= i < asked.candidates.len() ==> #[trigger] asked.candidates[i]
                        < entry.providers.len(),
            decreases route.candidates@.len() - route.considered,
        {
            let ghost before = self@;
            let ghost from = route@;
            let first = route.considered == 0;
            let at: usize = route.candidates[route.considered];
            assert(at == asked.candidates[from.considered as int]);
            route.considered = route.considered + 1;
            if self.circuit_is_open(at, now) {
                self.usage.circuit_rejections = count_one(self.usage.circuit_rejections);
                route.last_error = Some(
                    SwarmError::CircuitOpen { provider: self.providers[at].clone() },
                );
                proof {
                    let provider = before.providers[at as int];
                    assert(self@ =~= GatewayView {
                        usage: Usage {
                            circuit_rejections: counted(before.usage.circuit_rejections),
                            ..before.usage
                        },
                        ..before.looked_at(provider, now)
                    });
                    assert(route@ =~= RouteView {
                        considered: from.considered + 1,
                        last_error: Some(ErrorView::CircuitOpen { provider }),
                        ..from
                    });
                }
            } else {
                if !first {
                    self.usage.fallbacks = count_one(self.usage.fallbacks);
                }
                assert(route@ =~= RouteView { considered: from.considered + 1, ..from });
                return Some(at);
            }
        }
        None
    }

    /// A call is about to reach a provider.
    pub fn record_request(&mut self)
        requires
            old(self).wf(),
        ensures
            final(self).wf(),
            final(self)@ == (GatewayView {
                usage: Usage {
                    requests: counted(old(self)@.usage.requests),
                    ..old(self)@.usage
                },
                ..old(self)@
            }),
    {
        self.usage.requests = count_one(self.usage.requests);
    }

    /// Attempt number `attempt` on a provider failed at `now`: how long to wait before
    /// trying it again, or nothing when it is given up.
    pub fn retry_after(&mut self, provider: usize, error: &SwarmError, attempt: u32, now: Timestamp) -> (r:
        Option<u64>)
        requires
            old(self).wf(),
            provider < old(self)@.providers.len(),
            attempt >= 1,
        ensures
            final(self).wf(),
            final(self)@ == old(self)@.failed(old(self)@.providers[provider as int], now),
            r == old(self)@.retry_after(error@, attempt),
    {
        self.record_failure(provider, now);
        if attempt >= self.config.max_attempts || !error.is_retryable() {
            return None;
        }
        let doublings: u32 = if attempt > 11 {
            10
        } else {
            attempt - 1
        };
        let base: u64 = self.config.retry_backoff_ms;
        let mut wait: u128 = base as u128;
        let mut done: u32 = 0;
        proof {
            assert(base * doubled(0) == base) by (nonlinear_arith)
                requires
                    doubled(0) == 1,
            ;
            reveal_with_fuel(doubled, 12);
        }
        while done < doublings
            invariant
                done <= doublings <= 10,
                wait == base * doubled(done as nat),
                doubled(done as nat) <= 1024,
                base == self@.config.retry_backoff_ms,
            decreases doublings - done,
        {
            proof {
                reveal_with_fuel(doubled, 12);
                assert(doubled((done + 1) as nat) == 2 * doubled(done as nat));
                assert(doubled((done + 1) as nat) <= 1024);
                assert(base * (2 * doubled(done as nat)) == 2 * (base * doubled(done as nat)))
                    by (nonlinear_arith);
                assert(base * doubled(done as nat) <= 0xffff_ffff_ffff_ffff * 1024)
                    by (nonlinear_arith)
                    requires
                        doubled(done as nat) <= 1024,
                        base <= 0xffff_ffff_ffff_ffff,
                ;
            }
            wait = wait * 2;
            done = done + 1;
        }
        if wait > 0xffff_ffff_ffff_ffff {
            Some(u64::MAX)
        } else {
            Some(wait as u64)
        }
    }

    /// The next provider to stream from, from position `from` on: the first whose breaker
    /// is closed and that serves the requested model.
    ///
    /// Streaming responses are not cached: a partial stream is not a usable cache entry, and
    /// buffering the whole thing would defeat the point of streaming.
    pub fn next_stream(&mut self, from: usize, serves: &Vec<bool>, now: Timestamp) -> (r: Option<
        usize,
    >)
        requires
            old(self).wf(),
            serves@.len() == old(self)@.providers.len(),
        ensures
            final(self).wf(),
            (final(self)@, r) == old(self)@.streaming(from as nat, serves@, now),
            final(self)@.providers == old(self)@.providers,
            r matches Some(i) ==> i < old(self)@.providers.len(),
    {
        let ghost entry = self@;
        let mut at: usize = from;
        while at < self.providers.len()
            invariant
                self.wf(),
                entry == old(self)@,
                serves@.len() == entry.providers.len(),
                self@.providers == entry.providers,
                entry.streaming(from as nat, serves@, now) == self@.streaming(
                    at as nat,
                    serves@,
                    now,
                ),
            decreases self.providers@.len() - at,
        {
            let ghost before = self@;
            if self.circuit_is_open(at, now) || !serves[at] {
                at += 1;
                assert(self@.streaming(at as nat, serves@, now) == before.streaming(
                    (at - 1) as nat,
                    serves@,
                    now,
                ));
            } else {
                return Some(at);
            }
        }
        None
    }

    /// The health of a provider, from what its probe reported at `now`.
    pub fn health(&mut self, provider: usize, probe: Option<ProviderHealth>, now: Timestamp) -> (r:
        ProviderHealth)
        requires
            old(self).wf(),
            provider < old(self)@.providers.len(),
        ensures
            final(self).wf(),
            final(self)@ == old(self)@.looked_at(old(self)@.providers[provider as int], now),
            ({
                let name = old(self)@.providers[provider as int];
                let open = old(self)@.refuses(name, now);
                health_fields(r) == match probe {
                    Some(health) => (
                        health.provider@,
                        health.healthy,
                        health.latency_ms,
                        open,
                        crate::text::option_view(health.detail),
                    ),
                    None => (name, false, 0u64, open, Some("health check failed"@)),
                }
            }),
    {
        let circuit_open = self.circuit_is_open(provider, now);
        match probe {
            Some(health) => ProviderHealth { circuit_open, ..health },
            None => ProviderHealth {
                provider: self.providers[provider].clone(),
                healthy: false,
                latency_ms: 0,
                circuit_open,
                detail: Some("health check failed".to_owned()),
            },
        }
    }
}

/// Why a request is refused once the budget is spent. The amounts come in dollars, written
/// out to four places.
pub fn over_budget(spent: &str, budget: &str) -> (r: SwarmError)
    ensures
        r@ == ErrorView::BudgetExceeded(
            "gateway has spent $"@ + spent@ + " of its $"@ + budget@ + " budget"@,
        ),
{
    let mut text = "gateway has spent $".to_owned();
    text.append(spent);
    text.append(" of its $");
    text.append(budget);
    text.append(" budget");
    SwarmError::BudgetExceeded(text)
}

/// Why no stream could be opened.
pub fn no_stream() -> (r: SwarmError)
    ensures
        r@ == (ErrorView::Provider {
            provider: "gateway"@,
            detail: "no provider could open a stream"@,
        }),
{
    SwarmError::Provider {
        provider: "gateway".to_owned(),
        detail: "no provider could open a stream".to_owned(),
    }
}

/// The cache stays bounded: it never holds more responses than it has room for.
pub proof fn law_the_cache_stays_bounded(gateway: GatewayView)
    requires
        gateway.wf(),
    ensures
        gateway.held.dom().finite(),
        gateway.held.dom().len() <= gateway.config.cache_capacity,
{
    let keys = gateway.order.map_values(|k: u64| k as u128);
    vstd::seq_lib::seq_to_set_is_finite(keys);
    assert(gateway.held.dom().subset_of(keys.to_set())) by {
        assert forall|k: u128| gateway.held.dom().contains(k) implies keys.to_set().contains(k) by {
            assert(gateway.held.contains_key(k));
            let i = choose|i: int| 0 <= i < gateway.order.len() && gateway.order[i] == k as u64;
            assert(keys[i] == k);
        }
    }
    vstd::set_lib::lemma_len_subset(gateway.held.dom(), keys.to_set());
    keys.lemma_cardinality_of_set();
}

/// An identical request is served from the cache: what a provider answered is what the cache
/// gives for the same key, unless making room dropped that key at once.
pub proof fn law_identical_requests_are_served_from_cache(
    gateway: GatewayView,
    provider: Seq<char>,
    response: ResponseView,
    spent: Real64,
    request: CompletionView,
)
    requires
        gateway.wf(),
        gateway.config.cache_enabled,
        !request.bypass_cache,
        !gateway.order.push(request.key()).take(gateway.surplus()).contains(request.key()),
    ensures
        gateway.answered(provider, response, request.key(), spent).cached(request) == Some(
            response,
        ),
{
    let key = request.key();
    let order = gateway.order.push(key);
    let dropped = order.take(gateway.surplus()).map_values(|k: u64| k as u128);
    let after = gateway.answered(provider, response, key, spent);
    assert(!dropped.to_set().contains(key as u128)) by {
        if dropped.contains(key as u128) {
            let i = choose|i: int| 0 <= i < dropped.len() && dropped[i] == key as u128;
            assert(order.take(gateway.surplus())[i] == key);
        }
    }
    assert(after.held.contains_key(key as u128));
}

/// A breaker opens at the threshold of consecutive failures, refuses every call until its
/// reset window has passed, and lets one through after that.
pub proof fn law_failures_open_the_breaker(
    breaker: Breaker,
    threshold: u32,
    reset_ms: u64,
    at: Timestamp,
    now: Timestamp,
)
    requires
        breaker.opened_at is None,
        breaker.consecutive_failures < u32::MAX,
    ensures
        breaker.consecutive_failures + 1 >= threshold && now.millis_after(at) < reset_ms
            ==> breaker.failed(threshold, at).refuses(reset_ms, now),
        breaker.consecutive_failures + 1 < threshold ==> !breaker.failed(threshold, at).refuses(
            reset_ms,
            now,
        ),
        now.millis_after(at) >= reset_ms ==> !breaker.failed(threshold, at).refuses(reset_ms, now)
            && breaker.failed(threshold, at).looked_at(reset_ms, now).opened_at is None,
{
}

/// Fallback goes in order: the provider chosen is the first one left whose breaker does not
/// refuse, and none is chosen only when all that are left refuse.
pub proof fn law_fallback_goes_in_order(gateway: GatewayView, route: RouteView, now: Timestamp)
    requires
        route.considered <= route.candidates.len(),
    ensures
        ({
            let (_, after, chosen) = gateway.routed(route, now);
            &&& after.candidates == route.candidates
            &&& route.considered <= after.considered <= route.candidates.len()
            &&& match chosen {
                Some(at) => {
                    &&& after.considered > route.considered
                    &&& at == route.candidates[after.considered - 1]
                    &&& !gateway.refuses(gateway.providers[at as int], now)
                    &&& forall|i: int|
                        route.considered <= i < after.considered - 1 ==> gateway.refuses(
                            gateway.providers[#[trigger] route.candidates[i] as int],
                            now,
                        )
                },
                None => forall|i: int|
                    route.considered <= i < route.candidates.len() ==> gateway.refuses(
                        gateway.providers[#[trigger] route.candidates[i] as int],
                        now,
                    ),
            }
        }),
    decreases route.candidates.len() - route.considered,
{
    if route.considered < route.candidates.len() {
        let at = route.candidates[route.considered as int];
        let provider = gateway.providers[at as int];
        if gateway.refuses(provider, now) {
            let next = GatewayView {
                usage: Usage {
                    circuit_rejections: counted(gateway.usage.circuit_rejections),
                    ..gateway.usage
                },
                ..gateway.looked_at(provider, now)
            };
            let on = RouteView {
                considered: route.considered + 1,
                last_error: Some(ErrorView::CircuitOpen { provider }),
                ..route
            };
            assert(next.breakers =~= gateway.breakers);
            law_fallback_goes_in_order(next, on, now);
            assert forall|p: Seq<char>| next.refuses(p, now) == #[trigger] gateway.refuses(
                p,
                now,
            ) by {}
            assert(gateway.routed(route, now) == next.routed(on, now));
        }
    }
}

/// Retries give up after the configured number of attempts, and a failure that retrying
/// cannot mend is not retried at all.
pub proof fn law_retries_give_up(gateway: GatewayView, error: ErrorView, attempt: u32)
    ensures
        gateway.retry_after(error, attempt) is Some <==> attempt < gateway.config.max_attempts
            && error.retryable(),
{
}

/// After a provider answered, its breaker counts no failure and refuses no call at any time, and
/// every other provider's breaker is as it was.
pub proof fn law_an_answer_closes_the_breaker(
    gateway: GatewayView,
    provider: Seq<char>,
    response: ResponseView,
    key: u64,
    spent: Real64,
    other: Seq<char>,
    now: Timestamp,
)
    ensures
        ({
            let after = gateway.answered(provider, response, key, spent);
            &&& !after.refuses(provider, now)
            &&& after.breakers.contains_key(breaker_of(provider)) ==> after.breakers[breaker_of(
                provider,
            )].consecutive_failures == 0 && after.breakers[breaker_of(provider)].opened_at is None
            &&& after.breakers.dom() == gateway.breakers.dom()
            &&& other != provider && gateway.breakers.contains_key(breaker_of(other))
                ==> after.breakers[breaker_of(other)] == gateway.breakers[breaker_of(other)]
            &&& other != provider ==> after.refuses(other, now) == gateway.refuses(other, now)
        }),
{
    assert(breaker_of(provider).1 == provider && breaker_of(other).1 == other);
    let after = gateway.answered(provider, response, key, spent);
    assert(after.breakers.dom() =~= gateway.breakers.dom());
}

/// A failure counts one more against the provider that failed, and against no other.
pub proof fn law_a_failure_counts_once(
    gateway: GatewayView,
    provider: Seq<char>,
    at: Timestamp,
    other: Seq<char>,
    now: Timestamp,
)
    requires
        gateway.breakers.contains_key(breaker_of(provider)),
        gateway.breakers[breaker_of(provider)].consecutive_failures < u32::MAX,
        gateway.usage.failures < u64::MAX,
    ensures
        ({
            let after = gateway.failed(provider, at);
            &&& after.breakers[breaker_of(provider)].consecutive_failures
                == gateway.breakers[breaker_of(provider)].consecutive_failures + 1
            &&& after.usage.failures == gateway.usage.failures + 1
            &&& other != provider ==> after.refuses(other, now) == gateway.refuses(other, now)
            &&& gateway.refuses(provider, now) ==> after.refuses(provider, now)
            &&& after.held == gateway.held
            &&& after.order == gateway.order
        }),
{
    assert(breaker_of(provider).1 == provider && breaker_of(other).1 == other);
}

/// A breaker after some failures in a row.
pub open spec fn after_failures(breaker: Breaker, threshold: u32, times: Seq<Timestamp>) -> Breaker
    decreases times.len(),
{
    if times.len() == 0 {
        breaker
    } else {
        after_failures(breaker, threshold, times.drop_last()).failed(threshold, times.last())
    }
}

/// Failures in a row open a closed breaker with the one that reaches the threshold and with none
/// before; from then on it refuses for the reset window, counted from that failure, however many
/// follow.
pub proof fn law_the_threshold_opens_the_breaker(
    threshold: u32,
    times: Seq<Timestamp>,
    reset_ms: u64,
    now: Timestamp,
)
    requires
        threshold > 0,
        times.len() < u32::MAX,
    ensures
        ({
            let breaker = after_failures(Breaker::closed(), threshold, times);
            &&& breaker.consecutive_failures == times.len()
            &&& times.len() < threshold ==> !breaker.refuses(reset_ms, now)
            &&& times.len() >= threshold ==> (breaker.refuses(reset_ms, now) <==> now.millis_after(
                times[threshold - 1],
            ) < reset_ms)
            &&& times.len() < threshold ==> breaker.opened_at is None
            &&& times.len() >= threshold ==> breaker.opened_at == Some(times[threshold - 1])
        }),
    decreases times.len(),
{
    if times.len() > 0 {
        law_the_threshold_opens_the_breaker(threshold, times.drop_last(), reset_ms, now);
        if times.len() > threshold {
            assert(times.drop_last()[threshold - 1] == times[threshold - 1]);
        }
    }
}

/// Something that happens between a gateway and its providers.
pub enum Call {
    /// A provider answered.
    Answered {
        /// The provider.
        provider: Seq<char>,
        /// What it answered.
        response: ResponseView,
        /// The cache key of the request.
        key: u64,
        /// The total spend with this answer.
        spent: Real64,
    },
    /// A provider failed.
    Failed {
        /// The provider.
        provider: Seq<char>,
        /// When.
        now: Timestamp,
    },
    /// A provider's breaker was looked at.
    Looked {
        /// The provider.
        provider: Seq<char>,
        /// When.
        now: Timestamp,
    },
}

/// The gateway after some calls.
pub open spec fn after_calls(gateway: GatewayView, calls: Seq<Call>) -> GatewayView
    decreases calls.len(),
{
    if calls.len() == 0 {
        gateway
    } else {
        let before = after_calls(gateway, calls.drop_last());
        match calls.last() {
            Call::Answered { provider, response, key, spent } => before.answered(
                provider,
                response,
                key,
                spent,
            ),
            Call::Failed { provider, now } => before.failed(provider, now),
            Call::Looked { provider, now } => before.looked_at(provider, now),
        }
    }
}

/// How often a provider failed since it last answered.
pub open spec fn failures_since_answer(calls: Seq<Call>, name: Seq<char>) -> nat
    decreases calls.len(),
{
    if calls.len() == 0 {
        0
    } else {
        let before = failures_since_answer(calls.drop_last(), name);
        match calls.last() {
            Call::Answered { provider, .. } => if provider == name {
                0
            } else {
                before
            },
            Call::Failed { provider, .. } => if provider == name {
                before + 1
            } else {
                before
            },
            Call::Looked { .. } => before,
        }
    }
}

/// A provider is refused only after it failed as often as the threshold says since it last
/// answered, and never without a failure.
pub proof fn law_only_repeated_failures_are_refused(
    gateway: GatewayView,
    calls: Seq<Call>,
    name: Seq<char>,
    now: Timestamp,
)
    requires
        gateway.breakers.contains_key(breaker_of(name)),
        gateway.breakers[breaker_of(name)].consecutive_failures == 0,
        gateway.breakers[breaker_of(name)].opened_at is None,
    ensures
        after_calls(gateway, calls).refuses(name, now) ==> failures_since_answer(calls, name)
            >= gateway.config.circuit_failure_threshold && failures_since_answer(calls, name) > 0,
{
    lemma_failures_counted(gateway, calls, name);
}

/// A breaker counts no more failures than there were since the last answer, and is open only
/// where there were enough.
proof fn lemma_failures_counted(gateway: GatewayView, calls: Seq<Call>, name: Seq<char>)
    requires
        gateway.breakers.contains_key(breaker_of(name)),
        gateway.breakers[breaker_of(name)].consecutive_failures == 0,
        gateway.breakers[breaker_of(name)].opened_at is None,
    ensures
        ({
            let after = after_calls(gateway, calls);
            let breaker = after.breakers[breaker_of(name)];
            let count = failures_since_answer(calls, name);
            &&& after.config == gateway.config
            &&& after.breakers.contains_key(breaker_of(name))
            &&& breaker.consecutive_failures <= count
            &&& breaker.opened_at is Some ==> count > 0 && count
                >= gateway.config.circuit_failure_threshold
        }),
    decreases calls.len(),
{
    if calls.len() > 0 {
        lemma_failures_counted(gateway, calls.drop_last(), name);
        let other = match calls.last() {
            Call::Answered { provider, .. } => provider,
            Call::Failed { provider, .. } => provider,
            Call::Looked { provider, .. } => provider,
        };
        assert(breaker_of(name).1 == name && breaker_of(other).1 == other);
    }
}

/// A look changes no verdict of that moment, and closes a breaker whose reset window has passed.
pub proof fn law_a_look_changes_no_verdict(
    gateway: GatewayView,
    provider: Seq<char>,
    other: Seq<char>,
    now: Timestamp,
)
    ensures
        gateway.looked_at(provider, now).refuses(other, now) == gateway.refuses(other, now),
        gateway.breakers.contains_key(breaker_of(provider)) && !gateway.refuses(provider, now)
            ==> gateway.looked_at(provider, now).breakers[breaker_of(provider)].opened_at is None,
        gateway.refuses(provider, now) ==> gateway.looked_at(provider, now).breakers[breaker_of(
            provider,
        )] == gateway.breakers[breaker_of(provider)],
{
    assert(breaker_of(provider).1 == provider && breaker_of(other).1 == other);
}

/// Where the cache has room, filing a response drops none: the same request is served from the
/// cache from then on, and every other one as before.
pub proof fn law_a_cache_with_room_drops_nothing(
    gateway: GatewayView,
    provider: Seq<char>,
    response: ResponseView,
    spent: Real64,
    request: CompletionView,
    other: CompletionView,
)
    requires
        gateway.order.len() < gateway.config.cache_capacity,
        gateway.config.cache_enabled,
    ensures
        ({
            let after = gateway.answered(provider, response, request.key(), spent);
            &&& !request.bypass_cache ==> after.cached(request) == Some(response)
            &&& other.key() != request.key() ==> after.cached(other) == gateway.cached(other)
            &&& after.order == gateway.order.push(request.key())
        }),
{
    let order = gateway.order.push(request.key());
    let gone = order.take(0).map_values(|k: u64| k as u128);
    assert(gateway.surplus() == 0);
    assert(gone =~= seq![]);
    assert(order.skip(0) =~= order);
    assert forall|k: u128| !gone.to_set().contains(k) by {}
}

/// Where the cache is full, the response that came in first goes, and those that came in later
/// stay.
pub proof fn law_the_oldest_response_goes_first(
    gateway: GatewayView,
    provider: Seq<char>,
    response: ResponseView,
    key: u64,
    spent: Real64,
    later: int,
)
    requires
        gateway.wf(),
        gateway.config.cache_enabled,
        gateway.order.len() == gateway.config.cache_capacity,
        gateway.order.len() > 0,
        key != gateway.order[0],
        0 < later < gateway.order.len(),
        gateway.order[later] != gateway.order[0],
        gateway.order[later] != key,
        gateway.held.contains_key(gateway.order[later] as u128),
    ensures
        ({
            let after = gateway.answered(provider, response, key, spent);
            &&& !after.held.contains_key(gateway.order[0] as u128)
            &&& after.held.contains_key(key as u128)
            &&& after.held[key as u128] == response
            &&& after.held.contains_key(gateway.order[later] as u128)
            &&& after.held[gateway.order[later] as u128]
                == gateway.held[gateway.order[later] as u128]
            &&& after.order.len() == gateway.order.len()
            &&& after.order.last() == key
        }),
{
    let order = gateway.order.push(key);
    let gone = order.take(1).map_values(|k: u64| k as u128);
    assert(gateway.surplus() == 1);
    assert(gone =~= seq![gateway.order[0] as u128]);
    assert forall|k: u128| gone.to_set().contains(k) <==> k == gateway.order[0] as u128 by {
        if k == gateway.order[0] as u128 {
            assert(gone[0] == k);
        }
    }
}

/// A request that asks to bypass the cache, or meets a gateway without one, is never served from
/// it.
pub proof fn law_the_cache_can_be_bypassed(gateway: GatewayView, request: CompletionView)
    requires
        request.bypass_cache || !gateway.config.cache_enabled,
    ensures
        gateway.cached(request) is None,
{
}

/// An answer is charged to the totals, and nothing else is.
pub proof fn law_answers_are_charged(
    gateway: GatewayView,
    provider: Seq<char>,
    response: ResponseView,
    key: u64,
    spent: Real64,
)
    requires
        gateway.usage.tokens_in + response.tokens_in <= u64::MAX,
        gateway.usage.tokens_out + response.tokens_out <= u64::MAX,
    ensures
        ({
            let before = gateway.usage;
            let after = gateway.answered(provider, response, key, spent).usage;
            &&& after.tokens_in - before.tokens_in == response.tokens_in
            &&& after.tokens_out - before.tokens_out == response.tokens_out
            &&& after.cost_usd == spent
            &&& after.requests == before.requests
            &&& after.failures == before.failures
            &&& after.cache_hits == before.cache_hits
            &&& after.fallbacks == before.fallbacks
        }),
{
}

/// A budget is spent from the amount that reaches it on, and one that was not set never is.
pub proof fn law_the_budget_is_a_ceiling(gateway: GatewayView, budget: Real64)
    requires
        gateway.config.budget_usd == Some(budget),
        budget.bits <= INFINITY_BITS_64,
        gateway.usage.cost_usd.bits <= INFINITY_BITS_64,
    ensures
        gateway.overspent() <==> gateway.usage.cost_usd.bits >= budget.bits,
        !(GatewayView {
            config: GatewayConfig { budget_usd: None, ..gateway.config },
            ..gateway
        }).overspent(),
{
}

/// The providers to try are exactly those that serve the model, each once, in fallback order.
pub proof fn law_every_serving_provider_is_tried(serves: Seq<bool>)
    requires
        serves.len() <= usize::MAX,
    ensures
        forall|i: int|
            0 <= i < serves.len() ==> (#[trigger] serves[i] <==> serving(serves).contains(
                i as usize,
            )),
        forall|a: int| 0 <= a < serving(serves).len() ==> #[trigger] serving(serves)[a]
            < serves.len(),
        forall|a: int, b: int|
            0 <= a < b < serving(serves).len() ==> #[trigger] serving(serves)[a]
                < #[trigger] serving(serves)[b],
    decreases serves.len(),
{
    if serves.len() > 0 {
        let front = serves.drop_last();
        law_every_serving_provider_is_tried(front);
        let before = serving(front);
        let all = serving(serves);
        let last = (serves.len() - 1) as usize;
        assert forall|i: int| 0 <= i < serves.len() implies (#[trigger] serves[i] <==> all.contains(
            i as usize,
        )) by {
            if i < front.len() {
                assert(front[i] == serves[i]);
                if before.contains(i as usize) {
                    let a = before.index_of(i as usize);
                    assert(all[a] == i as usize);
                }
                if all.contains(i as usize) {
                    let a = all.index_of(i as usize);
                    assert(all[a] == i as usize);
                    if a < before.len() {
                        assert(before[a] == i as usize);
                    }
                }
            } else {
                if serves[i] {
                    assert(all[before.len() as int] == last);
                }
                if all.contains(i as usize) {
                    let a = all.index_of(i as usize);
                    assert(all[a] == i as usize);
                    if a < before.len() {
                        assert(before[a] < front.len());
                    }
                }
            }
        }
    }
}

/// The waits between attempts double from the configured one, for the first eleven attempts.
pub proof fn law_waits_double(gateway: GatewayView, error: ErrorView, attempt: u32)
    requires
        1 <= attempt < 11,
        attempt + 1 < gateway.config.max_attempts,
        error.retryable(),
        gateway.config.retry_backoff_ms <= u64::MAX / 2048,
    ensures
        gateway.retry_after(error, 1) == Some(gateway.config.retry_backoff_ms),
        gateway.retry_after(error, attempt) matches Some(wait) && gateway.retry_after(
            error,
            (attempt + 1) as u32,
        ) matches Some(next) && next == 2 * wait,
{
    let base = gateway.config.retry_backoff_ms;
    let n = (attempt - 1) as nat;
    reveal_with_fuel(doubled, 12);
    assert(doubled(0) == 1);
    assert(doubled(n + 1) == 2 * doubled(n));
    assert(doubled(n + 1) <= 1024);
    assert(base * 1 == base);
    assert(base * (2 * doubled(n)) == 2 * (base * doubled(n))) by (nonlinear_arith);
    assert(base * doubled(n + 1) <= (u64::MAX / 2048) * 1024) by (nonlinear_arith)
        requires
            doubled(n + 1) <= 1024,
            0 <= base <= u64::MAX / 2048,
    ;
    assert(base * doubled(n) >= 0) by (nonlinear_arith)
        requires
            base >= 0,
    ;
}

/// A stream is opened from the first provider on that serves the model and does not refuse, and
/// none is opened only where there is no such provider.
pub proof fn law_streams_go_to_the_first_willing_provider(
    gateway: GatewayView,
    from: nat,
    serves: Seq<bool>,
    now: Timestamp,
)
    requires
        gateway.providers.len() <= usize::MAX,
    ensures
        match gateway.streaming(from, serves, now).1 {
            Some(at) => {
                &&& from <= at < gateway.providers.len()
                &&& serves[at as int]
                &&& !gateway.refuses(gateway.providers[at as int], now)
                &&& forall|i: int|
                    from <= i < at ==> gateway.refuses(#[trigger] gateway.providers[i], now)
                        || !serves[i]
            },
            None => forall|i: int|
                from <= i < gateway.providers.len() ==> gateway.refuses(
                    #[trigger] gateway.providers[i],
                    now,
                ) || !serves[i],
        },
    decreases gateway.providers.len() - from,
{
    if from < gateway.providers.len() {
        let provider = gateway.providers[from as int];
        let seen = gateway.looked_at(provider, now);
        assert forall|p: Seq<char>| #[trigger] seen.refuses(p, now) == gateway.refuses(p, now) by {
            law_a_look_changes_no_verdict(gateway, provider, p, now);
        }
        if gateway.refuses(provider, now) || !serves[from as int] {
            law_streams_go_to_the_first_willing_provider(seen, from + 1, serves, now);
            let r = seen.streaming(from + 1, serves, now).1;
            assert(seen.providers == gateway.providers);
            match r {
                Some(at) => {
                    assert forall|i: int| from <= i < at implies gateway.refuses(
                        #[trigger] gateway.providers[i],
                        now,
                    ) || !serves[i] by {
                        if i > from {
                            assert(seen.refuses(seen.providers[i], now) || !serves[i]);
                        }
                    }
                },
                None => {
                    assert forall|i: int|
                        from <= i < gateway.providers.len() implies gateway.refuses(
                        #[trigger] gateway.providers[i],
                        now,
                    ) || !serves[i] by {
                        if i > from {
                            assert(seen.refuses(seen.providers[i], now) || !serves[i]);
                        }
                    }
                },
            }
        }
    }
}

} // verus!
