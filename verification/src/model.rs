//! Provider-independent access to language models.
//!
//! Everything above this talks in these terms and never to a vendor, so no
//! provider-specific branch ever leaks upward.
//!
//! Cost and token counts are returned on every call rather than logged, because
//! "what did 500 agents cost" is a first-class question for this platform.

use crate::error::{ErrorView, SwarmError};
use crate::figures::{Real32, Real64};
use crate::hash::{
    fnv, fnv1a, law_a_step_keeps_hashes_apart, law_the_same_bytes_keep_hashes_apart, lemma_one_byte,
    OFFSET,
};
use crate::ids::{AgentId, JobId, TaskId};
use crate::json::{json_content, json_parsed, parse_json, JsonView};
use crate::text::{clone_strings, views, word_count, words};
use vstd::prelude::*;
use vstd::string::*;
use vstd::utf8::encode_utf8;

verus! {

/// Who authored a message in a conversation.
#[derive(Clone, Copy, Debug, PartialEq, Eq, Structural)]
pub enum Role {
    /// Instructions that frame the whole exchange.
    System,
    /// Input from the platform on behalf of a task.
    User,
    /// A previous model response.
    Assistant,
    /// Output of a tool call.
    Tool,
}

impl Role {
    /// The number of a role in cache keys.
    pub open spec fn number(self) -> u8 {
        match self {
            Role::System => 0,
            Role::User => 1,
            Role::Assistant => 2,
            Role::Tool => 3,
        }
    }

    /// The number of a role in cache keys.
    fn code(self) -> (r: u8)
        ensures
            r == self.number(),
    {
        match self {
            Role::System => 0,
            Role::User => 1,
            Role::Assistant => 2,
            Role::Tool => 3,
        }
    }
}

/// One turn of a conversation.
#[derive(Debug)]
pub struct Message {
    /// Author.
    pub role: Role,
    /// Content.
    pub content: String,
}

/// What a message holds.
#[verifier::ext_equal]
pub struct MessageView {
    /// Author.
    pub role: Role,
    /// Content.
    pub content: Seq<char>,
}

impl View for Message {
    type V = MessageView;

    open spec fn view(&self) -> MessageView {
        MessageView { role: self.role, content: self.content@ }
    }
}

/// What the messages of a conversation hold.
pub open spec fn message_views(messages: Seq<Message>) -> Seq<MessageView> {
    Seq::new(messages.len(), |i: int| messages[i]@)
}

impl Message {
    /// A system message.
    pub fn system(content: &str) -> (r: Self)
        ensures
            r@ == (MessageView { role: Role::System, content: content@ }),
    {
        Message { role: Role::System, content: content.to_owned() }
    }

    /// A user message.
    pub fn user(content: &str) -> (r: Self)
        ensures
            r@ == (MessageView { role: Role::User, content: content@ }),
    {
        Message { role: Role::User, content: content.to_owned() }
    }

    /// An assistant message.
    pub fn assistant(content: &str) -> (r: Self)
        ensures
            r@ == (MessageView { role: Role::Assistant, content: content@ }),
    {
        Message { role: Role::Assistant, content: content.to_owned() }
    }
}

impl Clone for Message {
    fn clone(&self) -> (r: Self)
        ensures
            r@ == self@,
    {
        Message { role: self.role, content: self.content.clone() }
    }
}

/// A request for a completion.
#[derive(Debug)]
pub struct CompletionRequest {
    /// Model to use; the gateway routes on this.
    pub model: String,
    /// Conversation so far.
    pub messages: Vec<Message>,
    /// Cap on generated tokens.
    pub max_tokens: Option<u32>,
    /// Sampling temperature.
    pub temperature: Option<Real32>,
    /// Sequences that end generation.
    pub stop: Vec<String>,
    /// Whether the response must be a JSON object.
    pub json_mode: bool,
    /// Skip the response cache for this call.
    ///
    /// Set when the caller already has the cached answer and knows it was unusable —
    /// a retry after a failed validation, for instance. Without this, such a retry
    /// would be served the identical answer and fail identically.
    pub bypass_cache: bool,
    /// Makes a retried call recognisable as the same logical request.
    pub idempotency_key: String,
    /// Job this call belongs to, for cost attribution.
    pub job_id: Option<JobId>,
    /// Task this call belongs to.
    pub task_id: Option<TaskId>,
    /// Agent making the call.
    pub agent_id: Option<AgentId>,
}

/// What a request holds.
#[verifier::ext_equal]
pub struct CompletionView {
    /// Model to use.
    pub model: Seq<char>,
    /// Conversation so far.
    pub messages: Seq<MessageView>,
    /// Cap on generated tokens.
    pub max_tokens: Option<u32>,
    /// Sampling temperature.
    pub temperature: Option<Real32>,
    /// Sequences that end generation.
    pub stop: Seq<Seq<char>>,
    /// Whether the response must be a JSON object.
    pub json_mode: bool,
    /// Skip the response cache.
    pub bypass_cache: bool,
    /// Key of the logical request.
    pub idempotency_key: Seq<char>,
    /// Job this call belongs to.
    pub job_id: Option<JobId>,
    /// Task this call belongs to.
    pub task_id: Option<TaskId>,
    /// Agent making the call.
    pub agent_id: Option<AgentId>,
}

impl View for CompletionRequest {
    type V = CompletionView;

    open spec fn view(&self) -> CompletionView {
        CompletionView {
            model: self.model@,
            messages: message_views(self.messages@),
            max_tokens: self.max_tokens,
            temperature: self.temperature,
            stop: views(self.stop@),
            json_mode: self.json_mode,
            bypass_cache: self.bypass_cache,
            idempotency_key: self.idempotency_key@,
            job_id: self.job_id,
            task_id: self.task_id,
            agent_id: self.agent_id,
        }
    }
}

/// The four bytes of a number, lowest first.
pub open spec fn low_bytes_first(n: u32) -> Seq<u8> {
    seq![
        (n % 256) as u8,
        (n / 256 % 256) as u8,
        (n / 65_536 % 256) as u8,
        (n / 16_777_216) as u8,
    ]
}

/// A hash with the four bytes of a number folded in, lowest first.
fn fold_number(hash: u64, n: u32) -> (r: u64)
    ensures
        r == fnv(hash, low_bytes_first(n)),
{
    let bytes: [u8; 4] = [
        (n % 256) as u8,
        (n / 256 % 256) as u8,
        (n / 65_536 % 256) as u8,
        (n / 16_777_216) as u8,
    ];
    assert(bytes@ =~= low_bytes_first(n));
    fnv1a(hash, bytes.as_slice())
}

/// A hash with some messages folded in.
pub open spec fn folded_messages(hash: u64, messages: Seq<MessageView>) -> u64
    decreases messages.len(),
{
    if messages.len() == 0 {
        hash
    } else {
        let before = folded_messages(hash, messages.drop_last());
        fnv(
            fnv(before, seq![messages.last().role.number()]),
            encode_utf8(messages.last().content),
        )
    }
}

/// A hash with some texts folded in.
pub open spec fn folded_texts(hash: u64, texts: Seq<Seq<char>>) -> u64
    decreases texts.len(),
{
    if texts.len() == 0 {
        hash
    } else {
        fnv(folded_texts(hash, texts.drop_last()), encode_utf8(texts.last()))
    }
}

/// How many words some messages have.
pub open spec fn prompt_words(messages: Seq<MessageView>) -> nat
    decreases messages.len(),
{
    if messages.len() == 0 {
        0
    } else {
        prompt_words(messages.drop_last()) + words(messages.last().content).len()
    }
}

/// The content of the last user message of a conversation.
pub open spec fn last_user_content(messages: Seq<MessageView>) -> Seq<char>
    decreases messages.len(),
{
    if messages.len() == 0 {
        ""@
    } else if messages.last().role == Role::User {
        messages.last().content
    } else {
        last_user_content(messages.drop_last())
    }
}

impl CompletionView {
    /// A request for a model with some messages.
    pub open spec fn of(model: Seq<char>, messages: Seq<MessageView>) -> CompletionView {
        CompletionView {
            model,
            messages,
            max_tokens: None,
            temperature: None,
            stop: seq![],
            json_mode: false,
            bypass_cache: false,
            idempotency_key: ""@,
            job_id: None,
            task_id: None,
            agent_id: None,
        }
    }

    /// The hash of everything that changes the answer.
    pub open spec fn key(self) -> u64 {
        let conversation = folded_messages(fnv(OFFSET, encode_utf8(self.model)), self.messages);
        let shaped = fnv(
            conversation,
            seq![
                if self.json_mode {
                    1u8
                } else {
                    0u8
                },
            ],
        );
        let warmed = match self.temperature {
            Some(temperature) => fnv(shaped, low_bytes_first(temperature.bits)),
            None => shaped,
        };
        let capped = match self.max_tokens {
            Some(max_tokens) => fnv(warmed, low_bytes_first(max_tokens)),
            None => warmed,
        };
        folded_texts(capped, self.stop)
    }
}

impl CompletionRequest {
    /// A request for `model` with `messages`.
    pub fn new(model: &str, messages: Vec<Message>) -> (r: Self)
        ensures
            r@ == CompletionView::of(model@, message_views(messages@)),
    {
        let stop: Vec<String> = Vec::new();
        assert(views(stop@) =~= seq![]);
        CompletionRequest {
            model: model.to_owned(),
            messages,
            max_tokens: None,
            temperature: None,
            stop,
            json_mode: false,
            bypass_cache: false,
            idempotency_key: "".to_owned(),
            job_id: None,
            task_id: None,
            agent_id: None,
        }
    }

    /// Require a JSON object response.
    pub fn json(self) -> (r: Self)
        ensures
            r@ == (CompletionView { json_mode: true, ..self@ }),
    {
        CompletionRequest { json_mode: true, ..self }
    }

    /// Set the sampling temperature.
    pub fn with_temperature(self, temperature: Real32) -> (r: Self)
        ensures
            r@ == (CompletionView { temperature: Some(temperature), ..self@ }),
    {
        CompletionRequest { temperature: Some(temperature), ..self }
    }

    /// Set the generated-token ceiling.
    pub fn with_max_tokens(self, max_tokens: u32) -> (r: Self)
        ensures
            r@ == (CompletionView { max_tokens: Some(max_tokens), ..self@ }),
    {
        CompletionRequest { max_tokens: Some(max_tokens), ..self }
    }

    /// Attach the idempotency key of the calling task attempt.
    pub fn with_idempotency_key(self, key: &str) -> (r: Self)
        ensures
            r@ == (CompletionView { idempotency_key: key@, ..self@ }),
    {
        CompletionRequest { idempotency_key: key.to_owned(), ..self }
    }

    /// Ask the gateway to ignore any cached answer for this request.
    pub fn bypassing_cache(self, bypass: bool) -> (r: Self)
        ensures
            r@ == (CompletionView { bypass_cache: bypass, ..self@ }),
    {
        CompletionRequest { bypass_cache: bypass, ..self }
    }

    /// Attach the job, task, and agent this call is for.
    pub fn attributed_to(self, job_id: JobId, task_id: TaskId, agent_id: AgentId) -> (r: Self)
        ensures
            r@ == (CompletionView {
                job_id: Some(job_id),
                task_id: Some(task_id),
                agent_id: Some(agent_id),
                ..self@
            }),
    {
        CompletionRequest {
            job_id: Some(job_id),
            task_id: Some(task_id),
            agent_id: Some(agent_id),
            ..self
        }
    }

    /// The last user message, which is what mock providers key their answers on.
    pub fn last_user_message(&self) -> (r: &str)
        ensures
            r@ == last_user_content(self@.messages),
    {
        let ghost all = self@.messages;
        let mut n: usize = self.messages.len();
        assert(all.take(n as int) =~= all);
        while n > 0
            invariant
                all == message_views(self.messages@),
                n <= self.messages@.len(),
                last_user_content(all.take(n as int)) == last_user_content(all),
            decreases n,
        {
            proof {
                assert(all.take(n as int).last() == self.messages@[n - 1]@);
                assert(all.take(n as int).drop_last() =~= all.take(n - 1));
            }
            if self.messages[n - 1].role == Role::User {
                return self.messages[n - 1].content.as_str();
            }
            n = n - 1;
        }
        ""
    }

    /// Rough prompt token count; it stops at the largest number.
    ///
    /// Deliberately a word count rather than a tokenizer: it needs to be
    /// vendor-neutral, allocation-free, and stable across runs for benchmarking.
    pub fn estimated_prompt_tokens(&self) -> (r: u64)
        ensures
            r == if prompt_words(self@.messages) <= u64::MAX {
                prompt_words(self@.messages)
            } else {
                u64::MAX as nat
            },
    {
        let ghost all = self@.messages;
        let mut total: u64 = 0;
        assert(all.take(0) =~= seq![]);
        for i in 0..self.messages.len()
            invariant
                all == message_views(self.messages@),
                total == if prompt_words(all.take(i as int)) <= u64::MAX {
                    prompt_words(all.take(i as int))
                } else {
                    u64::MAX as nat
                },
        {
            proof {
                assert(all.take(i + 1).drop_last() =~= all.take(i as int));
                assert(all.take(i + 1).last() == self.messages@[i as int]@);
            }
            total = total.saturating_add(word_count(self.messages[i].content.as_str()) as u64);
        }
        assert(all.take(all.len() as int) =~= all);
        total
    }

    /// Cache key covering everything that changes the answer.
    ///
    /// Excludes the idempotency key and attribution, so two tasks asking the identical
    /// question share one answer.
    pub fn cache_key(&self) -> (r: u64)
        ensures
            r == self@.key(),
    {
        let ghost all = self@.messages;
        let mut hash: u64 = fnv1a(OFFSET, self.model.as_str().as_bytes());
        let ghost start = hash;
        assert(all.take(0) =~= seq![]);
        for i in 0..self.messages.len()
            invariant
                all == message_views(self.messages@),
                hash == folded_messages(start, all.take(i as int)),
        {
            proof {
                assert(all.take(i + 1).drop_last() =~= all.take(i as int));
                assert(all.take(i + 1).last() == self.messages@[i as int]@);
            }
            let role: [u8; 1] = [self.messages[i].role.code()];
            assert(role@ =~= seq![self.messages@[i as int].role.number()]);
            hash = fnv1a(hash, role.as_slice());
            hash = fnv1a(hash, self.messages[i].content.as_str().as_bytes());
        }
        assert(all.take(all.len() as int) =~= all);
        let shape: [u8; 1] = [
            if self.json_mode {
                1
            } else {
                0
            },
        ];
        assert(shape@ =~= seq![
            if self.json_mode {
                1u8
            } else {
                0u8
            },
        ]);
        hash = fnv1a(hash, shape.as_slice());
        match self.temperature {
            Some(temperature) => {
                hash = fold_number(hash, temperature.bits);
            },
            None => {},
        }
        match self.max_tokens {
            Some(max_tokens) => {
                hash = fold_number(hash, max_tokens);
            },
            None => {},
        }
        let ghost stops = self@.stop;
        let ghost before = hash;
        assert(stops.take(0) =~= seq![]);
        for i in 0..self.stop.len()
            invariant
                stops == views(self.stop@),
                hash == folded_texts(before, stops.take(i as int)),
        {
            proof {
                assert(stops.take(i + 1).drop_last() =~= stops.take(i as int));
                assert(stops.take(i + 1).last() == self.stop@[i as int]@);
            }
            hash = fnv1a(hash, self.stop[i].as_str().as_bytes());
        }
        assert(stops.take(stops.len() as int) =~= stops);
        hash
    }
}

impl Clone for CompletionRequest {
    fn clone(&self) -> (r: Self)
        ensures
            r@ == self@,
    {
        let mut messages: Vec<Message> = Vec::new();
        for i in 0..self.messages.len()
            invariant
                messages@.len() == i,
                forall|k: int| 0 <= k < i ==> (#[trigger] messages@[k])@ == self.messages@[k]@,
        {
            messages.push(self.messages[i].clone());
        }
        assert(message_views(messages@) =~= message_views(self.messages@));
        CompletionRequest {
            model: self.model.clone(),
            messages,
            max_tokens: self.max_tokens,
            temperature: self.temperature,
            stop: clone_strings(&self.stop),
            json_mode: self.json_mode,
            bypass_cache: self.bypass_cache,
            idempotency_key: self.idempotency_key.clone(),
            job_id: self.job_id,
            task_id: self.task_id,
            agent_id: self.agent_id,
        }
    }
}

/// Two requests that ask the same question share a cache key, whoever asks, under whatever
/// idempotency key, and whether or not they accept a cached answer.
pub proof fn law_cache_keys_ignore_attribution(
    request: CompletionView,
    key: Seq<char>,
    job_id: Option<JobId>,
    task_id: Option<TaskId>,
    agent_id: Option<AgentId>,
    bypass: bool,
)
    ensures
        (CompletionView {
            idempotency_key: key,
            job_id,
            task_id,
            agent_id,
            bypass_cache: bypass,
            ..request
        }).key() == request.key(),
{
}

/// A completed model response.
#[derive(Debug)]
pub struct CompletionResponse {
    /// Generated text.
    pub text: String,
    /// Provider that served it.
    pub provider: String,
    /// Model that served it.
    pub model: String,
    /// Prompt tokens consumed.
    pub tokens_in: u64,
    /// Completion tokens produced.
    pub tokens_out: u64,
    /// Estimated spend for this call.
    pub cost_usd: Real64,
    /// Time the call took.
    pub latency_ms: u64,
    /// Whether it was served from the gateway's cache.
    pub cached: bool,
    /// Why generation stopped.
    pub finish_reason: String,
}

/// What a response holds.
#[verifier::ext_equal]
pub struct ResponseView {
    /// Generated text.
    pub text: Seq<char>,
    /// Provider that served it.
    pub provider: Seq<char>,
    /// Model that served it.
    pub model: Seq<char>,
    /// Prompt tokens consumed.
    pub tokens_in: u64,
    /// Completion tokens produced.
    pub tokens_out: u64,
    /// Estimated spend.
    pub cost_usd: Real64,
    /// Time the call took.
    pub latency_ms: u64,
    /// Whether it was served from the cache.
    pub cached: bool,
    /// Why generation stopped.
    pub finish_reason: Seq<char>,
}

impl View for CompletionResponse {
    type V = ResponseView;

    open spec fn view(&self) -> ResponseView {
        ResponseView {
            text: self.text@,
            provider: self.provider@,
            model: self.model@,
            tokens_in: self.tokens_in,
            tokens_out: self.tokens_out,
            cost_usd: self.cost_usd,
            latency_ms: self.latency_ms,
            cached: self.cached,
            finish_reason: self.finish_reason@,
        }
    }
}

impl CompletionResponse {
    /// Parse the text as JSON, for `json_mode` requests.
    pub fn parse_json(&self) -> (r: Result<serde_json::Value, SwarmError>)
        ensures
            match r {
                Ok(value) => json_parsed(self@.text) == Ok::<JsonView, Seq<char>>(
                    json_content(value),
                ),
                Err(error) => json_parsed(self@.text) matches Err(message) && error@
                    == (ErrorView::Provider {
                    provider: self@.provider,
                    detail: "response is not valid JSON: "@ + message,
                }),
            },
    {
        match parse_json(self.text.as_str()) {
            Ok(value) => Ok(value),
            Err(message) => {
                let mut detail = "response is not valid JSON: ".to_owned();
                detail.append(message.as_str());
                Err(SwarmError::Provider { provider: self.provider.clone(), detail })
            },
        }
    }
}

impl Clone for CompletionResponse {
    fn clone(&self) -> (r: Self)
        ensures
            r@ == self@,
    {
        CompletionResponse {
            text: self.text.clone(),
            provider: self.provider.clone(),
            model: self.model.clone(),
            tokens_in: self.tokens_in,
            tokens_out: self.tokens_out,
            cost_usd: self.cost_usd,
            latency_ms: self.latency_ms,
            cached: self.cached,
            finish_reason: self.finish_reason.clone(),
        }
    }
}

/// One chunk of a streamed response.
#[derive(Debug)]
pub struct TokenChunk {
    /// Text of this chunk.
    pub text: String,
    /// Whether this is the final chunk.
    pub last: bool,
}

/// A provider's self-reported health.
#[derive(Debug)]
pub struct ProviderHealth {
    /// Provider name.
    pub provider: String,
    /// Whether it is accepting calls.
    pub healthy: bool,
    /// Observed probe latency.
    pub latency_ms: u64,
    /// Whether the gateway has tripped its breaker.
    pub circuit_open: bool,
    /// Free-text detail when unhealthy.
    pub detail: Option<String>,
}

/// Price per million tokens, used for cost accounting.
#[derive(Clone, Copy, Debug, PartialEq, Eq, Structural)]
pub struct ModelPricing {
    /// USD per million prompt tokens.
    pub input_per_million: Real64,
    /// USD per million completion tokens.
    pub output_per_million: Real64,
}

/// Bit pattern of the double-precision three.
pub const THREE_BITS_64: u64 = 0x4008_0000_0000_0000;

/// Bit pattern of the double-precision fifteen.
pub const FIFTEEN_BITS_64: u64 = 0x402e_0000_0000_0000;

impl Default for ModelPricing {
    fn default() -> (r: Self)
        ensures
            r.input_per_million.bits == THREE_BITS_64,
            r.output_per_million.bits == FIFTEEN_BITS_64,
    {
        // Stand-in figures. Real per-model tables arrive with the real providers; the
        // point here is that every call carries a cost at all.
        ModelPricing {
            input_per_million: Real64 { bits: THREE_BITS_64 },
            output_per_million: Real64 { bits: FIFTEEN_BITS_64 },
        }
    }
}

/// The words of a conversation are counted message by message.
pub proof fn law_every_message_is_counted(messages: Seq<MessageView>, more: Seq<MessageView>)
    ensures
        prompt_words(messages + more) == prompt_words(messages) + prompt_words(more),
        more.len() == 1 ==> prompt_words(more) == words(more[0].content).len(),
    decreases more.len(),
{
    if more.len() == 0 {
        assert(messages + more =~= messages);
    } else {
        assert((messages + more).drop_last() =~= messages + more.drop_last());
        law_every_message_is_counted(messages, more.drop_last());
        if more.len() == 1 {
            assert(more.drop_last() =~= seq![]);
        }
    }
}

/// The question is the last thing that the user said; where the user said nothing there is none.
pub proof fn law_the_question_is_the_last_user_message(messages: Seq<MessageView>)
    ensures
        forall|i: int|
            0 <= i < messages.len() && (#[trigger] messages[i]).role == Role::User && (forall|j: int|
                i < j < messages.len() ==> (#[trigger] messages[j]).role != Role::User)
                ==> last_user_content(messages) == messages[i].content,
        (forall|i: int| 0 <= i < messages.len() ==> (#[trigger] messages[i]).role != Role::User)
            ==> last_user_content(messages) == ""@,
    decreases messages.len(),
{
    if messages.len() > 0 {
        let front = messages.drop_last();
        law_the_question_is_the_last_user_message(front);
        assert(messages[messages.len() - 1] == messages.last());
        assert forall|i: int| 0 <= i < front.len() implies #[trigger] front[i] == messages[i] by {}
        assert forall|i: int|
            0 <= i < messages.len() && (#[trigger] messages[i]).role == Role::User && (forall|j: int|
                i < j < messages.len() ==> (#[trigger] messages[j]).role != Role::User) implies last_user_content(
            messages,
        ) == messages[i].content by {
            if i < front.len() {
                assert(front[i].role == Role::User);
                assert forall|j: int| i < j < front.len() implies (#[trigger] front[j]).role
                    != Role::User by {
                    assert(messages[j].role != Role::User);
                }
            }
        }
        if forall|i: int| 0 <= i < messages.len() ==> (#[trigger] messages[i]).role != Role::User {
            assert forall|i: int| 0 <= i < front.len() implies (#[trigger] front[i]).role
                != Role::User by {
                assert(messages[i].role != Role::User);
            }
        }
    }
}

/// Four bytes tell every number apart.
pub proof fn law_numbers_are_told_apart(one: u32, other: u32)
    ensures
        low_bytes_first(one) == low_bytes_first(other) ==> one == other,
        low_bytes_first(one).len() == 4,
{
    let a = low_bytes_first(one);
    let b = low_bytes_first(other);
    if a == b {
        assert(a[0] == b[0] && a[1] == b[1] && a[2] == b[2] && a[3] == b[3]);
    }
}

/// Folding the same stop texts into two different hashes leaves them different.
proof fn lemma_stops_keep_apart(one: u64, other: u64, texts: Seq<Seq<char>>)
    requires
        one != other,
    ensures
        folded_texts(one, texts) != folded_texts(other, texts),
    decreases texts.len(),
{
    if texts.len() > 0 {
        lemma_stops_keep_apart(one, other, texts.drop_last());
        law_the_same_bytes_keep_hashes_apart(
            folded_texts(one, texts.drop_last()),
            folded_texts(other, texts.drop_last()),
            encode_utf8(texts.last()),
        );
    }
}

/// Two requests that differ only in whether they ask for a structured answer are never served
/// from the same place in the cache.
pub proof fn law_cache_keys_tell_the_modes_apart(request: CompletionView)
    ensures
        (CompletionView { json_mode: true, ..request }).key() != (CompletionView {
            json_mode: false,
            ..request
        }).key(),
{
    let conversation = folded_messages(fnv(OFFSET, encode_utf8(request.model)), request.messages);
    let one = fnv(conversation, seq![1u8]);
    let other = fnv(conversation, seq![0u8]);
    lemma_one_byte(conversation, 1);
    lemma_one_byte(conversation, 0);
    law_a_step_keeps_hashes_apart(conversation, conversation, 1, 0);
    let (warm, cold) = match request.temperature {
        Some(temperature) => {
            let bytes = low_bytes_first(temperature.bits);
            law_the_same_bytes_keep_hashes_apart(one, other, bytes);
            (fnv(one, bytes), fnv(other, bytes))
        },
        None => (one, other),
    };
    let (long, short) = match request.max_tokens {
        Some(max_tokens) => {
            let bytes = low_bytes_first(max_tokens);
            law_the_same_bytes_keep_hashes_apart(warm, cold, bytes);
            (fnv(warm, bytes), fnv(cold, bytes))
        },
        None => (warm, cold),
    };
    lemma_stops_keep_apart(long, short, request.stop);
}

} // verus!
