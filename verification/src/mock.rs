//! A deterministic in-process model provider.
//!
//! Almost every automated test runs against this rather than a real model: the same prompt
//! always yields the same answer, so scheduling, consensus, and benchmark results are
//! reproducible and no test needs a network or an API key.
//!
//! It can also be told to fail on demand, which is how retry, fallback, and circuit breaker
//! behaviour is tested without waiting for a real provider to have a bad day.

use crate::agent::{count_one, counted};
use crate::error::{ErrorView, SwarmError};
use crate::figures::Real64;
use crate::hash::{fnv, stable_hash, OFFSET};
use crate::model::{CompletionRequest, CompletionResponse, CompletionView, ModelPricing,
    ProviderHealth, ResponseView, TokenChunk, last_user_content, prompt_words};
use crate::text::{after_prefix, contains, decimal, decimal_text, first_words, hex, hex_text, holds,
    lines, lines_of, shorten, string_of, strip_prefix, trim, trimmed, vec_views, views, word_count,
    words};
use vstd::prelude::*;
use vstd::string::*;
use vstd::utf8::encode_utf8;

verus! {

/// The phrasing of the summary, picked by prompt hash, so different tasks produce visibly
/// different — but still reproducible — output.
pub open spec fn phrase(seed: u64) -> Seq<char> {
    if seed % 4 == 0 {
        "the evidence points one way, with one caveat"@
    } else if seed % 4 == 1 {
        "two independent sources agree on the main claim"@
    } else if seed % 4 == 2 {
        "the mainstream answer holds, with a known exception"@
    } else {
        "the result is well supported but narrow in scope"@
    }
}

/// The angles on a topic, picked by prompt hash.
pub open spec fn angles(seed: u64) -> Seq<Seq<char>> {
    if seed % 4 == 0 {
        seq![
            "the mechanism is well documented"@,
            "the failure mode is understood"@,
            "the trade-off is latency against durability"@,
        ]
    } else if seed % 4 == 1 {
        seq![
            "the primary source is unambiguous"@,
            "a secondary source disagrees on scope"@,
            "the practical impact is small"@,
        ]
    } else if seed % 4 == 2 {
        seq![
            "the approach is standard practice"@,
            "the cost grows with coordination"@,
            "measurement matters more than intuition"@,
        ]
    } else {
        seq![
            "the constraint binds only under load"@,
            "the simple version is usually enough"@,
            "the edge case needs an explicit test"@,
        ]
    }
}

/// The phrasing of the summary.
fn phrase_of(seed: u64) -> (r: &'static str)
    ensures
        r@ == phrase(seed),
{
    if seed % 4 == 0 {
        "the evidence points one way, with one caveat"
    } else if seed % 4 == 1 {
        "two independent sources agree on the main claim"
    } else if seed % 4 == 2 {
        "the mainstream answer holds, with a known exception"
    } else {
        "the result is well supported but narrow in scope"
    }
}

/// The angle at `index`.
fn angle_at(seed: u64, index: usize) -> (r: &'static str)
    requires
        index < 3,
    ensures
        r@ == angles(seed)[index as int],
{
    if seed % 4 == 0 {
        if index == 0 {
            "the mechanism is well documented"
        } else if index == 1 {
            "the failure mode is understood"
        } else {
            "the trade-off is latency against durability"
        }
    } else if seed % 4 == 1 {
        if index == 0 {
            "the primary source is unambiguous"
        } else if index == 1 {
            "a secondary source disagrees on scope"
        } else {
            "the practical impact is small"
        }
    } else if seed % 4 == 2 {
        if index == 0 {
            "the approach is standard practice"
        } else if index == 1 {
            "the cost grows with coordination"
        } else {
            "measurement matters more than intuition"
        }
    } else {
        if index == 0 {
            "the constraint binds only under load"
        } else if index == 1 {
            "the simple version is usually enough"
        } else {
            "the edge case needs an explicit test"
        }
    }
}

/// What follows `Task:` on the first line that begins with it, blanks around the line aside.
pub open spec fn task_line(all: Seq<Seq<char>>) -> Option<Seq<char>>
    decreases all.len(),
{
    if all.len() == 0 {
        None
    } else {
        match after_prefix(trimmed(all[0]), "Task:"@) {
            Some(rest) => Some(rest),
            None => task_line(all.skip(1)),
        }
    }
}

/// The topic of a prompt: the first twelve words of its `Task:` line, or of its first line
/// when it has none.
pub open spec fn topic(prompt: Seq<char>) -> Seq<char> {
    let candidate = match task_line(lines(prompt)) {
        Some(rest) => rest,
        None => if lines(prompt).len() > 0 {
            lines(prompt)[0]
        } else {
            "the objective"@
        },
    };
    if first_words(candidate, 12).len() == 0 {
        "the objective"@
    } else {
        first_words(candidate, 12)
    }
}

/// Pull a short topic out of a prompt: prefers an explicit `Task:` line, since that is how
/// the agent runtime frames work, and falls back to the opening words.
pub fn topic_of(prompt: &str) -> (r: String)
    ensures
        r@ == topic(prompt@),
{
    let all = lines_of(prompt);
    let ghost rest = vec_views(all@);
    assert(rest == lines(prompt@));
    let mut candidate = if all.len() > 0 {
        string_of(&all[0])
    } else {
        "the objective".to_owned()
    };
    let ghost opening = candidate@;
    let mut i: usize = 0;
    let mut found = false;
    assert(rest.skip(0) =~= rest);
    while i < all.len() && !found
        invariant
            i <= all.len(),
            rest == vec_views(all@),
            rest == lines(prompt@),
            !found ==> candidate@ == opening && task_line(rest) == task_line(rest.skip(i as int)),
            found ==> task_line(rest) == Some(candidate@),
        decreases all.len() - i + (if found {
            0int
        } else {
            1int
        }),
    {
        let line = string_of(&all[i]);
        let bare = trim(line.as_str());
        assert(rest.skip(i as int)[0] == line@);
        assert(rest.skip(i as int).skip(1) =~= rest.skip(i + 1));
        match strip_prefix(bare.as_str(), "Task:") {
            Some(topic) => {
                candidate = topic;
                found = true;
            },
            None => {
                i += 1;
            },
        }
    }
    let short = shorten(candidate.as_str(), 12);
    if short.as_str().is_empty() {
        "the objective".to_owned()
    } else {
        short
    }
}

/// The material of an answer. Confidence and support come in hundredths; supports are what
/// each adds to a floor of sixty-five.
#[derive(Debug)]
pub struct Sketch {
    /// Hash of the prompt.
    pub seed: u64,
    /// The headline.
    pub summary: String,
    /// What was found, one per angle.
    pub findings: Vec<String>,
    /// Where each finding comes from.
    pub sources: Vec<String>,
    /// How much each finding is supported above the floor.
    pub supports: Vec<u64>,
    /// Confidence in the answer.
    pub confidence: u64,
    /// How the answer came about.
    pub reasoning: String,
}

/// What a sketch holds.
#[verifier::ext_equal]
pub struct SketchView {
    /// Hash of the prompt.
    pub seed: u64,
    /// The headline.
    pub summary: Seq<char>,
    /// What was found.
    pub findings: Seq<Seq<char>>,
    /// Where each finding comes from.
    pub sources: Seq<Seq<char>>,
    /// How much each finding is supported above the floor.
    pub supports: Seq<u64>,
    /// Confidence in the answer.
    pub confidence: u64,
    /// How the answer came about.
    pub reasoning: Seq<char>,
}

impl View for Sketch {
    type V = SketchView;

    open spec fn view(&self) -> SketchView {
        SketchView {
            seed: self.seed,
            summary: self.summary@,
            findings: views(self.findings@),
            sources: views(self.sources@),
            supports: self.supports@,
            confidence: self.confidence,
            reasoning: self.reasoning@,
        }
    }
}

impl SketchView {
    /// The material of the answer to a prompt.
    pub open spec fn of(prompt: Seq<char>) -> SketchView {
        let about = topic(prompt);
        let seed = fnv(OFFSET, encode_utf8(prompt));
        SketchView {
            seed,
            summary: about + ": "@ + phrase(seed),
            findings: seq![
                about + ": "@ + angles(seed)[0],
                about + ": "@ + angles(seed)[1],
                about + ": "@ + angles(seed)[2],
            ],
            sources: seq![
                "mock://corpus/"@ + hex(seed as nat) + "/"@ + decimal(0),
                "mock://corpus/"@ + hex(seed as nat) + "/"@ + decimal(1),
                "mock://corpus/"@ + hex(seed as nat) + "/"@ + decimal(2),
            ],
            supports: seq![
                (seed % 30) as u64,
                ((seed / 8) % 30) as u64,
                ((seed / 64) % 30) as u64,
            ],
            confidence: (60 + seed % 35) as u64,
            reasoning: "Considered 3 angles on `"@ + about
                + "` and kept the ones that agreed."@,
        }
    }

    /// The answer in prose.
    pub open spec fn prose(self) -> Seq<char> {
        self.summary + "\n\n"@ + "- "@ + self.findings[0] + "\n"@ + "- "@ + self.findings[1]
            + "\n"@ + "- "@ + self.findings[2] + "\n"@ + "\nConfidence: 0."@ + decimal(
            self.confidence as nat,
        ) + "\n"@ + self.reasoning
    }
}

impl Sketch {
    /// The material of the answer to a prompt.
    pub fn new(prompt: &str) -> (r: Self)
        ensures
            r@ == SketchView::of(prompt@),
    {
        let about = topic_of(prompt);
        let seed: u64 = stable_hash(prompt.as_bytes());
        let mut summary = about.clone();
        summary.append(": ");
        summary.append(phrase_of(seed));
        let mut reasoning = "Considered 3 angles on `".to_owned();
        reasoning.append(about.as_str());
        reasoning.append("` and kept the ones that agreed.");
        let mut findings: Vec<String> = Vec::new();
        let mut sources: Vec<String> = Vec::new();
        let ghost whole = SketchView::of(prompt@);
        for index in 0..3usize
            invariant
                whole == SketchView::of(prompt@),
                about@ == topic(prompt@),
                seed == whole.seed,
                findings@.len() == index,
                sources@.len() == index,
                index <= 3,
                forall|k: int| 0 <= k < index ==> (#[trigger] findings@[k])@ == whole.findings[k],
                forall|k: int| 0 <= k < index ==> (#[trigger] sources@[k])@ == whole.sources[k],
        {
            let mut finding = about.clone();
            finding.append(": ");
            finding.append(angle_at(seed, index));
            findings.push(finding);
            let mut source = "mock://corpus/".to_owned();
            source.append(hex_text(seed).as_str());
            source.append("/");
            source.append(decimal_text(index as u64).as_str());
            sources.push(source);
        }
        let r = Sketch {
            seed,
            summary,
            findings,
            sources,
            supports: vec![seed % 30, (seed / 8) % 30, (seed / 64) % 30],
            confidence: 60 + seed % 35,
            reasoning,
        };
        assert(r@ =~= whole);
        r
    }

    /// The answer in prose.
    pub fn prose(&self) -> (r: String)
        requires
            self@.findings.len() == 3,
        ensures
            r@ == self@.prose(),
    {
        let mut text = self.summary.clone();
        text.append("\n\n");
        let ghost head = text@;
        assert(self@.findings[0] == self.findings@[0]@);
        assert(self@.findings[1] == self.findings@[1]@);
        assert(self@.findings[2] == self.findings@[2]@);
        text.append("- ");
        text.append(self.findings[0].as_str());
        text.append("\n");
        text.append("- ");
        text.append(self.findings[1].as_str());
        text.append("\n");
        text.append("- ");
        text.append(self.findings[2].as_str());
        text.append("\n");
        text.append("\nConfidence: 0.");
        text.append(decimal_text(self.confidence).as_str());
        text.append("\n");
        text.append(self.reasoning.as_str());
        text
    }
}

/// The scripted answer to a prompt: that of the first needle the prompt holds.
pub open spec fn script_for(scripted: Seq<(Seq<char>, Seq<char>)>, prompt: Seq<char>) -> Option<
    Seq<char>,
>
    decreases scripted.len(),
{
    if scripted.len() == 0 {
        None
    } else if holds(prompt, scripted[0].0) {
        Some(scripted[0].1)
    } else {
        script_for(scripted.skip(1), prompt)
    }
}

/// What a request is answered with.
#[derive(Debug)]
pub enum Answer {
    /// A finished text.
    Text(String),
    /// The material of a JSON document.
    Document(Sketch),
}

/// What an answer holds.
pub enum AnswerView {
    /// A finished text.
    Text(Seq<char>),
    /// The material of a JSON document.
    Document(SketchView),
}

impl View for Answer {
    type V = AnswerView;

    open spec fn view(&self) -> AnswerView {
        match self {
            Answer::Text(text) => AnswerView::Text(text@),
            Answer::Document(sketch) => AnswerView::Document(sketch@),
        }
    }
}

/// A deterministic, offline model provider.
#[derive(Debug)]
pub struct MockProvider {
    name: String,
    pricing: ModelPricing,
    latency_ms: u64,
    fail_first: u64,
    fail_every: Option<u64>,
    always_fail: bool,
    scripted: Vec<(String, String)>,
    calls: u64,
    failures: u64,
    healthy: bool,
}

/// What a mock provider holds.
#[verifier::ext_equal]
pub struct MockView {
    /// Its name.
    pub name: Seq<char>,
    /// What it charges.
    pub pricing: ModelPricing,
    /// How long every call takes.
    pub latency_ms: u64,
    /// Fail the first so many calls, then behave. Models a provider recovering.
    pub fail_first: u64,
    /// Fail every `n`th call. Models an unreliable provider.
    pub fail_every: Option<u64>,
    /// Fail every call. Models an outage.
    pub always_fail: bool,
    /// Needles looked for in the last user message, and the answer each brings.
    pub scripted: Seq<(Seq<char>, Seq<char>)>,
    /// Calls made.
    pub calls: u64,
    /// Calls failed.
    pub failures: u64,
    /// What the health probe says.
    pub healthy: bool,
}

impl View for MockProvider {
    type V = MockView;

    closed spec fn view(&self) -> MockView {
        MockView {
            name: self.name@,
            pricing: self.pricing,
            latency_ms: self.latency_ms,
            fail_first: self.fail_first,
            fail_every: self.fail_every,
            always_fail: self.always_fail,
            scripted: self.scripted@.map_values(|pair: (String, String)| (pair.0@, pair.1@)),
            calls: self.calls,
            failures: self.failures,
            healthy: self.healthy,
        }
    }
}

impl MockView {
    /// A healthy provider.
    pub open spec fn fresh(name: Seq<char>, pricing: ModelPricing) -> MockView {
        MockView {
            name,
            pricing,
            latency_ms: 0,
            fail_first: 0,
            fail_every: None,
            always_fail: false,
            scripted: seq![],
            calls: 0,
            failures: 0,
            healthy: true,
        }
    }

    /// Whether the call after `earlier` others fails.
    pub open spec fn fails(self, earlier: u64) -> bool {
        ||| self.always_fail
        ||| earlier < self.fail_first
        ||| (self.fail_every matches Some(n) && n > 0 && (earlier + 1) % (n as int) == 0)
    }

    /// What a request is answered with.
    pub open spec fn answer(self, request: CompletionView) -> AnswerView {
        let prompt = last_user_content(request.messages);
        match script_for(self.scripted, prompt) {
            Some(text) => AnswerView::Text(text),
            None => if request.json_mode {
                AnswerView::Document(SketchView::of(prompt))
            } else {
                AnswerView::Text(SketchView::of(prompt).prose())
            },
        }
    }

    /// What holds of every mock provider.
    pub open spec fn wf(self) -> bool {
        self.fail_every matches Some(n) ==> n > 0
    }
}

impl MockProvider {
    /// A healthy provider named `name`.
    pub fn new(name: &str) -> (r: Self)
        ensures
            r@.wf(),
            r@ == MockView::fresh(name@, r@.pricing),
            r@.pricing.input_per_million.bits == crate::model::THREE_BITS_64,
            r@.pricing.output_per_million.bits == crate::model::FIFTEEN_BITS_64,
    {
        let r = MockProvider {
            name: name.to_owned(),
            pricing: ModelPricing::default(),
            latency_ms: 0,
            fail_first: 0,
            fail_every: None,
            always_fail: false,
            scripted: Vec::new(),
            calls: 0,
            failures: 0,
            healthy: true,
        };
        assert(r@ =~= MockView::fresh(name@, r@.pricing));
        r
    }

    /// Delay every call, to make latency-sensitive behaviour observable.
    pub fn with_latency(self, latency_ms: u64) -> (r: Self)
        requires
            self@.wf(),
        ensures
            r@.wf(),
            r@ == (MockView { latency_ms, ..self@ }),
    {
        MockProvider { latency_ms, ..self }
    }

    /// Charge a specific price, for cost-accounting tests.
    pub fn with_pricing(self, pricing: ModelPricing) -> (r: Self)
        requires
            self@.wf(),
        ensures
            r@.wf(),
            r@ == (MockView { pricing, ..self@ }),
    {
        MockProvider { pricing, ..self }
    }

    /// Fail the first `count` calls, then succeed.
    pub fn failing_first(self, count: u64) -> (r: Self)
        requires
            self@.wf(),
        ensures
            r@.wf(),
            r@ == (MockView { fail_first: count, ..self@ }),
    {
        MockProvider { fail_first: count, ..self }
    }

    /// Fail every `n`th call.
    pub fn failing_every(self, n: u64) -> (r: Self)
        requires
            self@.wf(),
        ensures
            r@.wf(),
            r@ == (MockView {
                fail_every: Some(
                    if n == 0 {
                        1
                    } else {
                        n
                    },
                ),
                ..self@
            }),
    {
        MockProvider {
            fail_every: Some(
                if n == 0 {
                    1
                } else {
                    n
                },
            ),
            ..self
        }
    }

    /// Fail every call.
    pub fn always_failing(self) -> (r: Self)
        requires
            self@.wf(),
        ensures
            r@.wf(),
            r@ == (MockView { always_fail: true, healthy: false, ..self@ }),
    {
        MockProvider { always_fail: true, healthy: false, ..self }
    }

    /// Return `response` whenever the last user message contains `needle`.
    pub fn scripted(self, needle: &str, response: &str) -> (r: Self)
        requires
            self@.wf(),
        ensures
            r@.wf(),
            r@ == (MockView { scripted: self@.scripted.push((needle@, response@)), ..self@ }),
    {
        let mut r = self;
        r.scripted.push((needle.to_owned(), response.to_owned()));
        assert(r@.scripted =~= self@.scripted.push((needle@, response@)));
        r
    }

    /// Its name.
    pub fn name(&self) -> (r: &str)
        ensures
            r@ == self@.name,
    {
        self.name.as_str()
    }

    /// What it charges.
    pub fn pricing(&self) -> (r: ModelPricing)
        ensures
            r == self@.pricing,
    {
        self.pricing
    }

    /// How long every call takes.
    pub fn latency_ms(&self) -> (r: u64)
        ensures
            r == self@.latency_ms,
    {
        self.latency_ms
    }

    /// How many calls have been made, including failures.
    pub fn call_count(&self) -> (r: u64)
        ensures
            r == self@.calls,
    {
        self.calls
    }

    /// How many calls have failed.
    pub fn failure_count(&self) -> (r: u64)
        ensures
            r == self@.failures,
    {
        self.failures
    }

    /// Flip the health probe result at runtime.
    pub fn set_healthy(&mut self, healthy: bool)
        ensures
            final(self)@ == (MockView { healthy, ..old(self)@ }),
    {
        self.healthy = healthy;
    }

    /// Whether the call after `call_index` others fails.
    pub fn should_fail(&self, call_index: u64) -> (r: bool)
        requires
            self@.wf(),
        ensures
            r == self@.fails(call_index),
    {
        if self.always_fail || call_index < self.fail_first {
            return true;
        }
        match self.fail_every {
            Some(n) => (call_index as u128 + 1) % n as u128 == 0,
            None => false,
        }
    }

    /// Build the deterministic answer for a request. A JSON document is left to be encoded.
    pub fn synthesize(&self, request: &CompletionRequest) -> (r: Answer)
        ensures
            r@ == self@.answer(request@),
    {
        let prompt = request.last_user_message();
        let ghost all = self@.scripted;
        assert(all.skip(0) =~= all);
        for i in 0..self.scripted.len()
            invariant
                all == self@.scripted,
                all.len() == self.scripted@.len(),
                prompt@ == last_user_content(request@.messages),
                script_for(all, prompt@) == script_for(all.skip(i as int), prompt@),
        {
            assert(all.skip(i as int)[0] == (self.scripted@[i as int].0@, self.scripted@[i as int].1@));
            assert(all.skip(i as int).skip(1) =~= all.skip(i + 1));
            if contains(prompt, self.scripted[i].0.as_str()) {
                return Answer::Text(self.scripted[i].1.clone());
            }
        }
        let sketch = Sketch::new(prompt);
        if request.json_mode {
            Answer::Document(sketch)
        } else {
            Answer::Text(sketch.prose())
        }
    }

    /// Make a call: the answer to the request, or the failure injected into this call.
    pub fn call(&mut self, request: &CompletionRequest) -> (r: Result<Answer, SwarmError>)
        requires
            old(self)@.wf(),
            old(self)@.calls < u64::MAX,
        ensures
            final(self)@.wf(),
            final(self)@ == (MockView {
                calls: (old(self)@.calls + 1) as u64,
                failures: if old(self)@.fails(old(self)@.calls) {
                    counted(old(self)@.failures)
                } else {
                    old(self)@.failures
                },
                ..old(self)@
            }),
            r is Err <==> old(self)@.fails(old(self)@.calls),
            match r {
                Ok(answer) => answer@ == old(self)@.answer(request@),
                Err(error) => error@ == (ErrorView::Provider {
                    provider: old(self)@.name,
                    detail: "injected failure on call "@ + decimal((old(self)@.calls + 1) as nat),
                }),
            },
    {
        let call_index: u64 = self.calls;
        self.calls = call_index + 1;
        if self.should_fail(call_index) {
            self.failures = count_one(self.failures);
            let mut detail = "injected failure on call ".to_owned();
            detail.append(decimal_text(call_index + 1).as_str());
            return Err(SwarmError::Provider { provider: self.name.clone(), detail });
        }
        Ok(self.synthesize(request))
    }

    /// The response that carries an answer's text. `cost_usd` is what the tokens cost at the
    /// provider's price.
    pub fn respond(
        &self,
        request: &CompletionRequest,
        text: String,
        cost_usd: Real64,
        latency_ms: u64,
    ) -> (r: CompletionResponse)
        ensures
            r@ == (ResponseView {
                text: text@,
                provider: self@.name,
                model: request@.model,
                tokens_in: if prompt_words(request@.messages) <= u64::MAX {
                    prompt_words(request@.messages) as u64
                } else {
                    u64::MAX
                },
                tokens_out: words(text@).len() as u64,
                cost_usd,
                latency_ms,
                cached: false,
                finish_reason: "stop"@,
            }),
    {
        let tokens_in: u64 = request.estimated_prompt_tokens();
        let tokens_out: u64 = word_count(text.as_str()) as u64;
        CompletionResponse {
            text,
            provider: self.name.clone(),
            model: request.model.clone(),
            tokens_in,
            tokens_out,
            cost_usd,
            latency_ms,
            cached: false,
            finish_reason: "stop".to_owned(),
        }
    }

    /// What the health probe says.
    pub fn health_check(&self) -> (r: ProviderHealth)
        ensures
            crate::gateway::health_fields(r) == (
                self@.name,
                self@.healthy,
                self@.latency_ms,
                false,
                None::<Seq<char>>,
            ),
    {
        ProviderHealth {
            provider: self.name.clone(),
            healthy: self.healthy,
            latency_ms: self.latency_ms,
            circuit_open: false,
            detail: None,
        }
    }
}

impl Default for MockProvider {
    fn default() -> (r: Self)
        ensures
            r@ == MockView::fresh("mock"@, r@.pricing),
    {
        Self::new("mock")
    }
}

/// The pieces a text is streamed in, where `current` is the piece being read: each ends
/// after a blank, which stays with it.
pub open spec fn chunks_from(s: Seq<char>, current: Seq<char>) -> Seq<Seq<char>>
    decreases s.len(),
{
    if s.len() == 0 {
        if current.len() == 0 {
            seq![]
        } else {
            seq![current]
        }
    } else if s[0] == ' ' {
        seq![current.push(' ')] + chunks_from(s.skip(1), seq![])
    } else {
        chunks_from(s.skip(1), current.push(s[0]))
    }
}

/// The texts one after the other.
pub open spec fn concatenated(parts: Seq<Seq<char>>) -> Seq<char>
    decreases parts.len(),
{
    if parts.len() == 0 {
        seq![]
    } else {
        parts[0] + concatenated(parts.skip(1))
    }
}

/// The texts of some chunks.
pub open spec fn chunk_texts(chunks: Seq<TokenChunk>) -> Seq<Seq<char>> {
    chunks.map_values(|chunk: TokenChunk| chunk.text@)
}

/// The pieces a text is streamed in. The last one, and no other, is flagged.
pub fn stream_chunks(text: &str) -> (r: Vec<TokenChunk>)
    ensures
        chunk_texts(r@) == chunks_from(text@, seq![]),
        forall|i: int| 0 <= i < r@.len() ==> (#[trigger] r@[i]).last == (i == r@.len() - 1),
{
    let chars = crate::text::chars_of(text);
    let ghost all = text@;
    let mut pieces: Vec<String> = Vec::new();
    let mut current = String::new();
    assert(all.skip(0) =~= all);
    assert(current@ =~= seq![]);
    assert(views(pieces@) + chunks_from(all, seq![]) =~= chunks_from(all, seq![]));
    for i in 0..chars.len()
        invariant
            chars@ == all,
            views(pieces@) + chunks_from(all.skip(i as int), current@) == chunks_from(all, seq![]),
    {
        let c = chars[i];
        let ghost before = views(pieces@);
        let ghost was = current@;
        assert(all.skip(i as int)[0] == c);
        assert(all.skip(i as int).skip(1) =~= all.skip(i + 1));
        current.push(c);
        if c == ' ' {
            pieces.push(current);
            current = String::new();
            proof {
                assert(views(pieces@) =~= before.push(was.push(' ')));
                assert(current@ =~= seq![]);
                assert(before.push(was.push(' ')) + chunks_from(all.skip(i + 1), seq![]) =~= before
                    + (seq![was.push(' ')] + chunks_from(all.skip(i + 1), seq![])));
            }
        }
    }
    assert(all.skip(all.len() as int).len() == 0);
    let ghost before = views(pieces@);
    if !current.as_str().is_empty() {
        let ghost was = current@;
        pieces.push(current);
        assert(views(pieces@) =~= before + seq![was]);
    } else {
        assert(before =~= before + chunks_from(all.skip(all.len() as int), current@));
    }
    assert(views(pieces@) =~= chunks_from(all, seq![]));
    let mut r: Vec<TokenChunk> = Vec::new();
    for i in 0..pieces.len()
        invariant
            r@.len() == i,
            forall|k: int| 0 <= k < i ==> (#[trigger] r@[k]).text@ == pieces@[k]@,
            forall|k: int| 0 <= k < i ==> (#[trigger] r@[k]).last == (k == pieces@.len() - 1),
    {
        r.push(TokenChunk { text: pieces[i].clone(), last: i + 1 == pieces.len() });
    }
    assert(chunk_texts(r@) =~= views(pieces@));
    r
}

/// Streaming loses nothing: the chunks, one after the other, are the text.
pub proof fn law_chunks_make_up_the_text(s: Seq<char>, current: Seq<char>)
    ensures
        concatenated(chunks_from(s, current)) == current + s,
    decreases s.len(),
{
    if s.len() == 0 {
        if current.len() == 0 {
            assert(current + s =~= seq![]);
        } else {
            assert(seq![current].skip(1) =~= seq![]);
            assert(concatenated(seq![current].skip(1)) =~= seq![]);
            assert(concatenated(seq![current]) =~= current + s);
        }
    } else if s[0] == ' ' {
        let rest = chunks_from(s.skip(1), seq![]);
        law_chunks_make_up_the_text(s.skip(1), seq![]);
        assert((seq![current.push(' ')] + rest).skip(1) =~= rest);
        assert(current.push(' ') + (seq![] + s.skip(1)) =~= current + s);
    } else {
        law_chunks_make_up_the_text(s.skip(1), current.push(s[0]));
        assert(current.push(s[0]) + s.skip(1) =~= current + s);
    }
}

/// The same prompt always produces the same answer, whatever else differs between two
/// requests in the same mode and however many calls lie between them.
pub proof fn law_answers_depend_on_the_prompt_alone(
    provider: MockView,
    calls: u64,
    failures: u64,
    first: CompletionView,
    second: CompletionView,
)
    requires
        last_user_content(first.messages) == last_user_content(second.messages),
        first.json_mode == second.json_mode,
    ensures
        provider.answer(first) == (MockView { calls, failures, ..provider }).answer(second),
{
}

/// A provider set up to fail at first fails just that many calls; one set up to fail every so
/// often fails just those; one set up to fail always fails all.
pub proof fn law_failures_come_as_set_up(mock: MockView, earlier: u64)
    ensures
        mock.always_fail ==> mock.fails(earlier),
        !mock.always_fail && mock.fail_every is None ==> (mock.fails(earlier) <==> earlier
            < mock.fail_first),
        !mock.always_fail && mock.fail_first == 0 && mock.fail_every == Some(1u64) ==> mock.fails(
            earlier,
        ),
        !mock.always_fail && mock.fail_first == 0 && mock.fail_every == Some(2u64) && earlier
            < u64::MAX ==> (mock.fails(earlier) <==> !mock.fails((earlier + 1) as u64)),
        !mock.always_fail && mock.fail_first == 0 && mock.fail_every is None ==> !mock.fails(
            earlier,
        ),
{
}

/// The first script whose cue is in the prompt answers it, and a prompt with no cue is answered
/// by none.
pub proof fn law_the_first_cue_answers(
    scripted: Seq<(Seq<char>, Seq<char>)>,
    prompt: Seq<char>,
)
    ensures
        script_for(scripted, prompt) is None <==> forall|i: int|
            0 <= i < scripted.len() ==> !holds(prompt, (#[trigger] scripted[i]).0),
        script_for(scripted, prompt) matches Some(text) ==> exists|i: int|
            {
                &&& 0 <= i < scripted.len()
                &&& holds(prompt, (#[trigger] scripted[i]).0)
                &&& scripted[i].1 == text
                &&& forall|j: int| 0 <= j < i ==> !holds(prompt, (#[trigger] scripted[j]).0)
            },
    decreases scripted.len(),
{
    if scripted.len() > 0 {
        let rest = scripted.skip(1);
        law_the_first_cue_answers(rest, prompt);
        assert forall|i: int| 0 <= i < rest.len() implies #[trigger] rest[i] == scripted[i + 1] by {}
        if holds(prompt, scripted[0].0) {
            assert(scripted[0].1 == script_for(scripted, prompt)->0);
        } else {
            match script_for(rest, prompt) {
                Some(text) => {
                    let i = choose|i: int|
                        {
                            &&& 0 <= i < rest.len()
                            &&& holds(prompt, (#[trigger] rest[i]).0)
                            &&& rest[i].1 == text
                            &&& forall|j: int|
                                0 <= j < i ==> !holds(prompt, (#[trigger] rest[j]).0)
                        };
                    assert(scripted[i + 1] == rest[i]);
                    assert forall|j: int| 0 <= j < i + 1 implies !holds(
                        prompt,
                        (#[trigger] scripted[j]).0,
                    ) by {
                        if j > 0 {
                            assert(rest[j - 1] == scripted[j]);
                        }
                    }
                },
                None => {
                    assert forall|i: int| 0 <= i < scripted.len() implies !holds(
                        prompt,
                        (#[trigger] scripted[i]).0,
                    ) by {
                        if i > 0 {
                            assert(rest[i - 1] == scripted[i]);
                        }
                    }
                },
            }
        }
    }
}

/// A made-up answer is sure between three fifths and nineteen twentieths, has as many sources as
/// findings, and is about its topic from its first word on.
pub proof fn law_made_up_answers_are_plausible(prompt: Seq<char>)
    ensures
        ({
            let sketch = SketchView::of(prompt);
            &&& 60 <= sketch.confidence < 95
            &&& sketch.findings.len() == 3 && sketch.sources.len() == 3 && sketch.supports.len()
                == 3
            &&& forall|i: int| 0 <= i < 3 ==> #[trigger] sketch.supports[i] < 30
            &&& sketch.summary.take(topic(prompt).len() as int) == topic(prompt)
            &&& forall|i: int|
                0 <= i < 3 ==> (#[trigger] sketch.findings[i]).take(topic(prompt).len() as int)
                    == topic(prompt)
        }),
{
    let sketch = SketchView::of(prompt);
    let about = topic(prompt);
    assert(sketch.summary.take(about.len() as int) =~= about);
    assert forall|i: int| 0 <= i < 3 implies (#[trigger] sketch.findings[i]).take(about.len() as int)
        == about by {
        assert(sketch.findings[i].take(about.len() as int) =~= about);
    }
}

} // verus!
