//! Globally unique, time-ordered identifiers.
//!
//! All ids wrap a UUIDv7, so they sort by creation time. Each kind of id is a type of its
//! own and has an operator-facing form with a prefix that names the kind.

use crate::error::{ErrorView, SwarmError};
use crate::text::{after_prefix, begins_with, hex_char, hex_fixed, stands_at, strip_prefix};
use std::str::FromStr;
use vstd::prelude::*;

verus! {

/// What the uuid crate makes of a text: the 128 bits of an identifier, or the reason why
/// the text is not one.
pub uninterp spec fn uuid_parsed(s: Seq<char>) -> Result<u128, Seq<char>>;

/// The 32 lower case hexadecimal digits of an identifier.
pub open spec fn simple_form(value: u128) -> Seq<char> {
    hex_fixed(value as nat, 32)
}

/// The digits of an identifier in groups of eight, four, four, four, and twelve.
pub open spec fn hyphenated_form(value: u128) -> Seq<char> {
    let digits = simple_form(value);
    digits.subrange(0, 8) + seq!['-'] + digits.subrange(8, 12) + seq!['-'] + digits.subrange(12, 16)
        + seq!['-'] + digits.subrange(16, 20) + seq!['-'] + digits.subrange(20, 32)
}

/// What a text reads as, where an identifier of this kind may carry `prefix`.
pub open spec fn parsed_form(s: Seq<char>, prefix: Seq<char>) -> Result<u128, Seq<char>> {
    match after_prefix(s, prefix + seq!['_']) {
        Some(raw) => uuid_parsed(raw),
        None => uuid_parsed(s),
    }
}

/// `Uuid::now_v7`: a fresh identifier of version seven in the standard layout. Clock and
/// chance decide the other bits, so nothing else is said of them.
#[verifier::external_body]
fn uuid_now() -> (r: u128)
    ensures
        r / 0x1000_0000_0000_0000_0000 % 16 == 7,
        r / 0x4000_0000_0000_0000 % 4 == 2,
{
    uuid::Uuid::now_v7().as_u128()
}

/// `Uuid::parse_str`, with the error by its `Display` text: a function of the text alone.
#[verifier::external_body]
fn uuid_parse(s: &str) -> (r: Result<u128, String>)
    ensures
        match r {
            Ok(value) => uuid_parsed(s@) == Ok::<u128, Seq<char>>(value),
            Err(detail) => uuid_parsed(s@) == Err::<u128, Seq<char>>(detail@),
        },
{
    match uuid::Uuid::parse_str(s) {
        Ok(id) => Ok(id.as_u128()),
        Err(error) => Err(error.to_string()),
    }
}

/// The `Display` form of a `Uuid`: hyphenated lower case digits, which `Uuid::parse_str`
/// reads back.
#[verifier::external_body]
fn uuid_hyphenated(value: u128) -> (r: String)
    ensures
        r@ == hyphenated_form(value),
        (uuid_parsed(r@) == Ok::<u128, Seq<char>>(value)),
{
    uuid::Uuid::from_u128(value).to_string()
}

/// The `Uuid::as_simple` form of a `Uuid`: its bare lower case digits, which
/// `Uuid::parse_str` reads back.
#[verifier::external_body]
fn uuid_simple(value: u128) -> (r: String)
    ensures
        r@ == simple_form(value),
        (uuid_parsed(r@) == Ok::<u128, Seq<char>>(value)),
{
    uuid::Uuid::from_u128(value).as_simple().to_string()
}

/// Whether a character is a lower case hexadecimal digit.
pub open spec fn is_hex(c: char) -> bool {
    ('0' <= c <= '9') || ('a' <= c <= 'f')
}

/// Fixed-width hexadecimal text has that many characters, all of them digits.
pub proof fn lemma_hex_fixed(n: nat, width: nat)
    ensures
        hex_fixed(n, width).len() == width,
        forall|i: int| 0 <= i < width ==> is_hex(#[trigger] hex_fixed(n, width)[i]),
    decreases width,
{
    if width > 0 {
        lemma_hex_fixed(n / 16, (width - 1) as nat);
        assert(is_hex(hex_char(n % 16)));
    }
}

/// The plain form of an identifier never looks prefixed: where the underscore of a prefix
/// would stand, it has a digit.
proof fn lemma_plain_is_not_prefixed(value: u128, prefix: Seq<char>)
    requires
        prefix.len() < 8,
    ensures
        !begins_with(hyphenated_form(value), prefix + seq!['_']),
{
    lemma_hex_fixed(value as nat, 32);
    let text = hyphenated_form(value);
    let head = prefix + seq!['_'];
    let at = prefix.len() as int;
    assert(text[at] == simple_form(value)[at]);
    assert(is_hex(text[at]));
    if begins_with(text, head) {
        assert(text.subrange(0, head.len() as int)[at] == head[at]);
        assert(false);
    }
}

/// Behind its prefix and an underscore stands the rest of a prefixed form.
proof fn lemma_prefix_comes_off(prefix: Seq<char>, rest: Seq<char>)
    ensures
        after_prefix(prefix + seq!['_'] + rest, prefix + seq!['_']) == Some(rest),
{
    let head = prefix + seq!['_'];
    let text = head + rest;
    assert(text.subrange(0, head.len() as int) =~= head);
    assert(stands_at(text, head, 0));
    assert(text.skip(head.len() as int) =~= rest);
}

/// Read an identifier in its plain form, or behind `prefix` and an underscore.
fn parse_value(s: &str, prefix: &str) -> (r: Result<u128, SwarmError>)
    ensures
        match r {
            Ok(value) => parsed_form(s@, prefix@) == Ok::<u128, Seq<char>>(value),
            Err(error) => parsed_form(s@, prefix@) is Err && error@ == (ErrorView::InvalidId {
                value: s@,
                detail: parsed_form(s@, prefix@)->Err_0,
            }),
        },
{
    let mut head = prefix.to_owned();
    head.push('_');
    assert(head@ =~= prefix@ + seq!['_']);
    let parsed = match strip_prefix(s, head.as_str()) {
        Some(raw) => uuid_parse(raw.as_str()),
        None => uuid_parse(s),
    };
    match parsed {
        Ok(value) => Ok(value),
        Err(detail) => Err(SwarmError::InvalidId { value: s.to_owned(), detail }),
    }
}

/// The operator-facing form of an identifier.
fn prefixed_value(value: u128, prefix: &str) -> (r: String)
    ensures
        r@ == prefix@ + seq!['_'] + simple_form(value),
        (parsed_form(r@, prefix@) == Ok::<u128, Seq<char>>(value)),
{
    let digits = uuid_simple(value);
    let mut r = prefix.to_owned();
    r.push('_');
    r.append(digits.as_str());
    proof {
        assert(r@ =~= prefix@ + seq!['_'] + digits@);
        lemma_prefix_comes_off(prefix@, digits@);
    }
    r
}

/// Identifies a submitted job.
#[derive(Clone, Copy, Debug, PartialEq, Eq, Structural, Hash, PartialOrd, Ord)]
pub struct JobId {
    /// The 128 bits of the UUID.
    pub value: u128,
}

impl JobId {
    /// The plain form: hyphenated lower case digits.
    pub open spec fn text(self) -> Seq<char> {
        hyphenated_form(self.value)
    }

    /// Generate a fresh time-ordered identifier.
    pub fn new() -> (r: Self)
        ensures
            r.value / 0x1000_0000_0000_0000_0000 % 16 == 7,
    {
        JobId { value: uuid_now() }
    }

    /// Wrap the bits of an existing UUID.
    pub fn from_uuid(value: u128) -> (r: Self)
        ensures
            r.value == value,
    {
        JobId { value }
    }

    /// The bits of the underlying UUID.
    pub fn as_uuid(&self) -> (r: u128)
        ensures
            r == self.value,
    {
        self.value
    }

    /// Operator-facing form with a type prefix, which [`Self::from_str`] reads back.
    pub fn prefixed(&self) -> (r: String)
        ensures
            r@ == "job"@ + seq!['_'] + simple_form(self.value),
            (parsed_form(r@, "job"@) == Ok::<u128, Seq<char>>(self.value)),
    {
        prefixed_value(self.value, "job")
    }

    /// The type prefix used by [`Self::prefixed`].
    pub fn prefix() -> (r: &'static str)
        ensures
            r@ == "job"@,
    {
        "job"
    }

    /// The plain form, which [`Self::from_str`] reads back.
    pub fn to_string(&self) -> (r: String)
        ensures
            r@ == self.text(),
            (parsed_form(r@, "job"@) == Ok::<u128, Seq<char>>(self.value)),
    {
        let r = uuid_hyphenated(self.value);
        proof {
            reveal_strlit("job");
            lemma_plain_is_not_prefixed(self.value, "job"@);
        }
        r
    }

    /// Accepts both the plain UUID form and the prefixed form.
    pub fn from_str(s: &str) -> (r: Result<Self, SwarmError>)
        ensures
            match r {
                Ok(id) => parsed_form(s@, "job"@) == Ok::<u128, Seq<char>>(id.value),
                Err(error) => parsed_form(s@, "job"@) is Err && error@ == (
                ErrorView::InvalidId { value: s@, detail: parsed_form(s@, "job"@)->Err_0 }),
            },
    {
        match parse_value(s, "job") {
            Ok(value) => Ok(JobId { value }),
            Err(error) => Err(error),
        }
    }
}

impl Default for JobId {
    fn default() -> (r: Self)
        ensures
            r.value / 0x1000_0000_0000_0000_0000 % 16 == 7,
    {
        JobId::new()
    }
}

impl FromStr for JobId {
    type Err = SwarmError;

    fn from_str(s: &str) -> Result<Self, SwarmError> {
        JobId::from_str(s)
    }
}

/// Identifies a task inside a job's DAG.
#[derive(Clone, Copy, Debug, PartialEq, Eq, Structural, Hash, PartialOrd, Ord)]
pub struct TaskId {
    /// The 128 bits of the UUID.
    pub value: u128,
}

impl TaskId {
    /// The plain form: hyphenated lower case digits.
    pub open spec fn text(self) -> Seq<char> {
        hyphenated_form(self.value)
    }

    /// Generate a fresh time-ordered identifier.
    pub fn new() -> (r: Self)
        ensures
            r.value / 0x1000_0000_0000_0000_0000 % 16 == 7,
    {
        TaskId { value: uuid_now() }
    }

    /// Wrap the bits of an existing UUID.
    pub fn from_uuid(value: u128) -> (r: Self)
        ensures
            r.value == value,
    {
        TaskId { value }
    }

    /// The bits of the underlying UUID.
    pub fn as_uuid(&self) -> (r: u128)
        ensures
            r == self.value,
    {
        self.value
    }

    /// Operator-facing form with a type prefix, which [`Self::from_str`] reads back.
    pub fn prefixed(&self) -> (r: String)
        ensures
            r@ == "task"@ + seq!['_'] + simple_form(self.value),
            (parsed_form(r@, "task"@) == Ok::<u128, Seq<char>>(self.value)),
    {
        prefixed_value(self.value, "task")
    }

    /// The type prefix used by [`Self::prefixed`].
    pub fn prefix() -> (r: &'static str)
        ensures
            r@ == "task"@,
    {
        "task"
    }

    /// The plain form, which [`Self::from_str`] reads back.
    pub fn to_string(&self) -> (r: String)
        ensures
            r@ == self.text(),
            (parsed_form(r@, "task"@) == Ok::<u128, Seq<char>>(self.value)),
    {
        let r = uuid_hyphenated(self.value);
        proof {
            reveal_strlit("task");
            lemma_plain_is_not_prefixed(self.value, "task"@);
        }
        r
    }

    /// Accepts both the plain UUID form and the prefixed form.
    pub fn from_str(s: &str) -> (r: Result<Self, SwarmError>)
        ensures
            match r {
                Ok(id) => parsed_form(s@, "task"@) == Ok::<u128, Seq<char>>(id.value),
                Err(error) => parsed_form(s@, "task"@) is Err && error@ == (
                ErrorView::InvalidId { value: s@, detail: parsed_form(s@, "task"@)->Err_0 }),
            },
    {
        match parse_value(s, "task") {
            Ok(value) => Ok(TaskId { value }),
            Err(error) => Err(error),
        }
    }
}

impl Default for TaskId {
    fn default() -> (r: Self)
        ensures
            r.value / 0x1000_0000_0000_0000_0000 % 16 == 7,
    {
        TaskId::new()
    }
}

impl FromStr for TaskId {
    type Err = SwarmError;

    fn from_str(s: &str) -> Result<Self, SwarmError> {
        TaskId::from_str(s)
    }
}

/// Identifies an agent instance.
#[derive(Clone, Copy, Debug, PartialEq, Eq, Structural, Hash, PartialOrd, Ord)]
pub struct AgentId {
    /// The 128 bits of the UUID.
    pub value: u128,
}

impl AgentId {
    /// The plain form: hyphenated lower case digits.
    pub open spec fn text(self) -> Seq<char> {
        hyphenated_form(self.value)
    }

    /// Generate a fresh time-ordered identifier.
    pub fn new() -> (r: Self)
        ensures
            r.value / 0x1000_0000_0000_0000_0000 % 16 == 7,
    {
        AgentId { value: uuid_now() }
    }

    /// Wrap the bits of an existing UUID.
    pub fn from_uuid(value: u128) -> (r: Self)
        ensures
            r.value == value,
    {
        AgentId { value }
    }

    /// The bits of the underlying UUID.
    pub fn as_uuid(&self) -> (r: u128)
        ensures
            r == self.value,
    {
        self.value
    }

    /// Operator-facing form with a type prefix, which [`Self::from_str`] reads back.
    pub fn prefixed(&self) -> (r: String)
        ensures
            r@ == "agent"@ + seq!['_'] + simple_form(self.value),
            (parsed_form(r@, "agent"@) == Ok::<u128, Seq<char>>(self.value)),
    {
        prefixed_value(self.value, "agent")
    }

    /// The type prefix used by [`Self::prefixed`].
    pub fn prefix() -> (r: &'static str)
        ensures
            r@ == "agent"@,
    {
        "agent"
    }

    /// The plain form, which [`Self::from_str`] reads back.
    pub fn to_string(&self) -> (r: String)
        ensures
            r@ == self.text(),
            (parsed_form(r@, "agent"@) == Ok::<u128, Seq<char>>(self.value)),
    {
        let r = uuid_hyphenated(self.value);
        proof {
            reveal_strlit("agent");
            lemma_plain_is_not_prefixed(self.value, "agent"@);
        }
        r
    }

    /// Accepts both the plain UUID form and the prefixed form.
    pub fn from_str(s: &str) -> (r: Result<Self, SwarmError>)
        ensures
            match r {
                Ok(id) => parsed_form(s@, "agent"@) == Ok::<u128, Seq<char>>(id.value),
                Err(error) => parsed_form(s@, "agent"@) is Err && error@ == (
                ErrorView::InvalidId { value: s@, detail: parsed_form(s@, "agent"@)->Err_0 }),
            },
    {
        match parse_value(s, "agent") {
            Ok(value) => Ok(AgentId { value }),
            Err(error) => Err(error),
        }
    }
}

impl Default for AgentId {
    fn default() -> (r: Self)
        ensures
            r.value / 0x1000_0000_0000_0000_0000 % 16 == 7,
    {
        AgentId::new()
    }
}

impl FromStr for AgentId {
    type Err = SwarmError;

    fn from_str(s: &str) -> Result<Self, SwarmError> {
        AgentId::from_str(s)
    }
}

/// Identifies a worker node.
#[derive(Clone, Copy, Debug, PartialEq, Eq, Structural, Hash, PartialOrd, Ord)]
pub struct NodeId {
    /// The 128 bits of the UUID.
    pub value: u128,
}

impl NodeId {
    /// The plain form: hyphenated lower case digits.
    pub open spec fn text(self) -> Seq<char> {
        hyphenated_form(self.value)
    }

    /// Generate a fresh time-ordered identifier.
    pub fn new() -> (r: Self)
        ensures
            r.value / 0x1000_0000_0000_0000_0000 % 16 == 7,
    {
        NodeId { value: uuid_now() }
    }

    /// Wrap the bits of an existing UUID.
    pub fn from_uuid(value: u128) -> (r: Self)
        ensures
            r.value == value,
    {
        NodeId { value }
    }

    /// The bits of the underlying UUID.
    pub fn as_uuid(&self) -> (r: u128)
        ensures
            r == self.value,
    {
        self.value
    }

    /// Operator-facing form with a type prefix, which [`Self::from_str`] reads back.
    pub fn prefixed(&self) -> (r: String)
        ensures
            r@ == "node"@ + seq!['_'] + simple_form(self.value),
            (parsed_form(r@, "node"@) == Ok::<u128, Seq<char>>(self.value)),
    {
        prefixed_value(self.value, "node")
    }

    /// The type prefix used by [`Self::prefixed`].
    pub fn prefix() -> (r: &'static str)
        ensures
            r@ == "node"@,
    {
        "node"
    }

    /// The plain form, which [`Self::from_str`] reads back.
    pub fn to_string(&self) -> (r: String)
        ensures
            r@ == self.text(),
            (parsed_form(r@, "node"@) == Ok::<u128, Seq<char>>(self.value)),
    {
        let r = uuid_hyphenated(self.value);
        proof {
            reveal_strlit("node");
            lemma_plain_is_not_prefixed(self.value, "node"@);
        }
        r
    }

    /// Accepts both the plain UUID form and the prefixed form.
    pub fn from_str(s: &str) -> (r: Result<Self, SwarmError>)
        ensures
            match r {
                Ok(id) => parsed_form(s@, "node"@) == Ok::<u128, Seq<char>>(id.value),
                Err(error) => parsed_form(s@, "node"@) is Err && error@ == (
                ErrorView::InvalidId { value: s@, detail: parsed_form(s@, "node"@)->Err_0 }),
            },
    {
        match parse_value(s, "node") {
            Ok(value) => Ok(NodeId { value }),
            Err(error) => Err(error),
        }
    }
}

impl Default for NodeId {
    fn default() -> (r: Self)
        ensures
            r.value / 0x1000_0000_0000_0000_0000 % 16 == 7,
    {
        NodeId::new()
    }
}

impl FromStr for NodeId {
    type Err = SwarmError;

    fn from_str(s: &str) -> Result<Self, SwarmError> {
        NodeId::from_str(s)
    }
}

/// Identifies a task lease held by a worker.
#[derive(Clone, Copy, Debug, PartialEq, Eq, Structural, Hash, PartialOrd, Ord)]
pub struct LeaseId {
    /// The 128 bits of the UUID.
    pub value: u128,
}

impl LeaseId {
    /// The plain form: hyphenated lower case digits.
    pub open spec fn text(self) -> Seq<char> {
        hyphenated_form(self.value)
    }

    /// Generate a fresh time-ordered identifier.
    pub fn new() -> (r: Self)
        ensures
            r.value / 0x1000_0000_0000_0000_0000 % 16 == 7,
    {
        LeaseId { value: uuid_now() }
    }

    /// Wrap the bits of an existing UUID.
    pub fn from_uuid(value: u128) -> (r: Self)
        ensures
            r.value == value,
    {
        LeaseId { value }
    }

    /// The bits of the underlying UUID.
    pub fn as_uuid(&self) -> (r: u128)
        ensures
            r == self.value,
    {
        self.value
    }

    /// Operator-facing form with a type prefix, which [`Self::from_str`] reads back.
    pub fn prefixed(&self) -> (r: String)
        ensures
            r@ == "lease"@ + seq!['_'] + simple_form(self.value),
            (parsed_form(r@, "lease"@) == Ok::<u128, Seq<char>>(self.value)),
    {
        prefixed_value(self.value, "lease")
    }

    /// The type prefix used by [`Self::prefixed`].
    pub fn prefix() -> (r: &'static str)
        ensures
            r@ == "lease"@,
    {
        "lease"
    }

    /// The plain form, which [`Self::from_str`] reads back.
    pub fn to_string(&self) -> (r: String)
        ensures
            r@ == self.text(),
            (parsed_form(r@, "lease"@) == Ok::<u128, Seq<char>>(self.value)),
    {
        let r = uuid_hyphenated(self.value);
        proof {
            reveal_strlit("lease");
            lemma_plain_is_not_prefixed(self.value, "lease"@);
        }
        r
    }

    /// Accepts both the plain UUID form and the prefixed form.
    pub fn from_str(s: &str) -> (r: Result<Self, SwarmError>)
        ensures
            match r {
                Ok(id) => parsed_form(s@, "lease"@) == Ok::<u128, Seq<char>>(id.value),
                Err(error) => parsed_form(s@, "lease"@) is Err && error@ == (
                ErrorView::InvalidId { value: s@, detail: parsed_form(s@, "lease"@)->Err_0 }),
            },
    {
        match parse_value(s, "lease") {
            Ok(value) => Ok(LeaseId { value }),
            Err(error) => Err(error),
        }
    }
}

impl Default for LeaseId {
    fn default() -> (r: Self)
        ensures
            r.value / 0x1000_0000_0000_0000_0000 % 16 == 7,
    {
        LeaseId::new()
    }
}

impl FromStr for LeaseId {
    type Err = SwarmError;

    fn from_str(s: &str) -> Result<Self, SwarmError> {
        LeaseId::from_str(s)
    }
}

/// Identifies a protocol message.
#[derive(Clone, Copy, Debug, PartialEq, Eq, Structural, Hash, PartialOrd, Ord)]
pub struct MessageId {
    /// The 128 bits of the UUID.
    pub value: u128,
}

impl MessageId {
    /// The plain form: hyphenated lower case digits.
    pub open spec fn text(self) -> Seq<char> {
        hyphenated_form(self.value)
    }

    /// Generate a fresh time-ordered identifier.
    pub fn new() -> (r: Self)
        ensures
            r.value / 0x1000_0000_0000_0000_0000 % 16 == 7,
    {
        MessageId { value: uuid_now() }
    }

    /// Wrap the bits of an existing UUID.
    pub fn from_uuid(value: u128) -> (r: Self)
        ensures
            r.value == value,
    {
        MessageId { value }
    }

    /// The bits of the underlying UUID.
    pub fn as_uuid(&self) -> (r: u128)
        ensures
            r == self.value,
    {
        self.value
    }

    /// Operator-facing form with a type prefix, which [`Self::from_str`] reads back.
    pub fn prefixed(&self) -> (r: String)
        ensures
            r@ == "msg"@ + seq!['_'] + simple_form(self.value),
            (parsed_form(r@, "msg"@) == Ok::<u128, Seq<char>>(self.value)),
    {
        prefixed_value(self.value, "msg")
    }

    /// The type prefix used by [`Self::prefixed`].
    pub fn prefix() -> (r: &'static str)
        ensures
            r@ == "msg"@,
    {
        "msg"
    }

    /// The plain form, which [`Self::from_str`] reads back.
    pub fn to_string(&self) -> (r: String)
        ensures
            r@ == self.text(),
            (parsed_form(r@, "msg"@) == Ok::<u128, Seq<char>>(self.value)),
    {
        let r = uuid_hyphenated(self.value);
        proof {
            reveal_strlit("msg");
            lemma_plain_is_not_prefixed(self.value, "msg"@);
        }
        r
    }

    /// Accepts both the plain UUID form and the prefixed form.
    pub fn from_str(s: &str) -> (r: Result<Self, SwarmError>)
        ensures
            match r {
                Ok(id) => parsed_form(s@, "msg"@) == Ok::<u128, Seq<char>>(id.value),
                Err(error) => parsed_form(s@, "msg"@) is Err && error@ == (
                ErrorView::InvalidId { value: s@, detail: parsed_form(s@, "msg"@)->Err_0 }),
            },
    {
        match parse_value(s, "msg") {
            Ok(value) => Ok(MessageId { value }),
            Err(error) => Err(error),
        }
    }
}

impl Default for MessageId {
    fn default() -> (r: Self)
        ensures
            r.value / 0x1000_0000_0000_0000_0000 % 16 == 7,
    {
        MessageId::new()
    }
}

impl FromStr for MessageId {
    type Err = SwarmError;

    fn from_str(s: &str) -> Result<Self, SwarmError> {
        MessageId::from_str(s)
    }
}

/// Identifies a shared-memory record.
#[derive(Clone, Copy, Debug, PartialEq, Eq, Structural, Hash, PartialOrd, Ord)]
pub struct MemoryId {
    /// The 128 bits of the UUID.
    pub value: u128,
}

impl MemoryId {
    /// The plain form: hyphenated lower case digits.
    pub open spec fn text(self) -> Seq<char> {
        hyphenated_form(self.value)
    }

    /// Generate a fresh time-ordered identifier.
    pub fn new() -> (r: Self)
        ensures
            r.value / 0x1000_0000_0000_0000_0000 % 16 == 7,
    {
        MemoryId { value: uuid_now() }
    }

    /// Wrap the bits of an existing UUID.
    pub fn from_uuid(value: u128) -> (r: Self)
        ensures
            r.value == value,
    {
        MemoryId { value }
    }

    /// The bits of the underlying UUID.
    pub fn as_uuid(&self) -> (r: u128)
        ensures
            r == self.value,
    {
        self.value
    }

    /// Operator-facing form with a type prefix, which [`Self::from_str`] reads back.
    pub fn prefixed(&self) -> (r: String)
        ensures
            r@ == "mem"@ + seq!['_'] + simple_form(self.value),
            (parsed_form(r@, "mem"@) == Ok::<u128, Seq<char>>(self.value)),
    {
        prefixed_value(self.value, "mem")
    }

    /// The type prefix used by [`Self::prefixed`].
    pub fn prefix() -> (r: &'static str)
        ensures
            r@ == "mem"@,
    {
        "mem"
    }

    /// The plain form, which [`Self::from_str`] reads back.
    pub fn to_string(&self) -> (r: String)
        ensures
            r@ == self.text(),
            (parsed_form(r@, "mem"@) == Ok::<u128, Seq<char>>(self.value)),
    {
        let r = uuid_hyphenated(self.value);
        proof {
            reveal_strlit("mem");
            lemma_plain_is_not_prefixed(self.value, "mem"@);
        }
        r
    }

    /// Accepts both the plain UUID form and the prefixed form.
    pub fn from_str(s: &str) -> (r: Result<Self, SwarmError>)
        ensures
            match r {
                Ok(id) => parsed_form(s@, "mem"@) == Ok::<u128, Seq<char>>(id.value),
                Err(error) => parsed_form(s@, "mem"@) is Err && error@ == (
                ErrorView::InvalidId { value: s@, detail: parsed_form(s@, "mem"@)->Err_0 }),
            },
    {
        match parse_value(s, "mem") {
            Ok(value) => Ok(MemoryId { value }),
            Err(error) => Err(error),
        }
    }
}

impl Default for MemoryId {
    fn default() -> (r: Self)
        ensures
            r.value / 0x1000_0000_0000_0000_0000 % 16 == 7,
    {
        MemoryId::new()
    }
}

impl FromStr for MemoryId {
    type Err = SwarmError;

    fn from_str(s: &str) -> Result<Self, SwarmError> {
        MemoryId::from_str(s)
    }
}

/// Identifies one execution attempt of a task.
#[derive(Clone, Copy, Debug, PartialEq, Eq, Structural, Hash, PartialOrd, Ord)]
pub struct AttemptId {
    /// The 128 bits of the UUID.
    pub value: u128,
}

impl AttemptId {
    /// The plain form: hyphenated lower case digits.
    pub open spec fn text(self) -> Seq<char> {
        hyphenated_form(self.value)
    }

    /// Generate a fresh time-ordered identifier.
    pub fn new() -> (r: Self)
        ensures
            r.value / 0x1000_0000_0000_0000_0000 % 16 == 7,
    {
        AttemptId { value: uuid_now() }
    }

    /// Wrap the bits of an existing UUID.
    pub fn from_uuid(value: u128) -> (r: Self)
        ensures
            r.value == value,
    {
        AttemptId { value }
    }

    /// The bits of the underlying UUID.
    pub fn as_uuid(&self) -> (r: u128)
        ensures
            r == self.value,
    {
        self.value
    }

    /// Operator-facing form with a type prefix, which [`Self::from_str`] reads back.
    pub fn prefixed(&self) -> (r: String)
        ensures
            r@ == "attempt"@ + seq!['_'] + simple_form(self.value),
            (parsed_form(r@, "attempt"@) == Ok::<u128, Seq<char>>(self.value)),
    {
        prefixed_value(self.value, "attempt")
    }

    /// The type prefix used by [`Self::prefixed`].
    pub fn prefix() -> (r: &'static str)
        ensures
            r@ == "attempt"@,
    {
        "attempt"
    }

    /// The plain form, which [`Self::from_str`] reads back.
    pub fn to_string(&self) -> (r: String)
        ensures
            r@ == self.text(),
            (parsed_form(r@, "attempt"@) == Ok::<u128, Seq<char>>(self.value)),
    {
        let r = uuid_hyphenated(self.value);
        proof {
            reveal_strlit("attempt");
            lemma_plain_is_not_prefixed(self.value, "attempt"@);
        }
        r
    }

    /// Accepts both the plain UUID form and the prefixed form.
    pub fn from_str(s: &str) -> (r: Result<Self, SwarmError>)
        ensures
            match r {
                Ok(id) => parsed_form(s@, "attempt"@) == Ok::<u128, Seq<char>>(id.value),
                Err(error) => parsed_form(s@, "attempt"@) is Err && error@ == (
                ErrorView::InvalidId { value: s@, detail: parsed_form(s@, "attempt"@)->Err_0 }),
            },
    {
        match parse_value(s, "attempt") {
            Ok(value) => Ok(AttemptId { value }),
            Err(error) => Err(error),
        }
    }
}

impl Default for AttemptId {
    fn default() -> (r: Self)
        ensures
            r.value / 0x1000_0000_0000_0000_0000 % 16 == 7,
    {
        AttemptId::new()
    }
}

impl FromStr for AttemptId {
    type Err = SwarmError;

    fn from_str(s: &str) -> Result<Self, SwarmError> {
        AttemptId::from_str(s)
    }
}

/// Ties together every action caused by one logical operation.
#[derive(Clone, Copy, Debug, PartialEq, Eq, Structural, Hash, PartialOrd, Ord)]
pub struct CorrelationId {
    /// The 128 bits of the UUID.
    pub value: u128,
}

impl CorrelationId {
    /// The plain form: hyphenated lower case digits.
    pub open spec fn text(self) -> Seq<char> {
        hyphenated_form(self.value)
    }

    /// Generate a fresh time-ordered identifier.
    pub fn new() -> (r: Self)
        ensures
            r.value / 0x1000_0000_0000_0000_0000 % 16 == 7,
    {
        CorrelationId { value: uuid_now() }
    }

    /// Wrap the bits of an existing UUID.
    pub fn from_uuid(value: u128) -> (r: Self)
        ensures
            r.value == value,
    {
        CorrelationId { value }
    }

    /// The bits of the underlying UUID.
    pub fn as_uuid(&self) -> (r: u128)
        ensures
            r == self.value,
    {
        self.value
    }

    /// Operator-facing form with a type prefix, which [`Self::from_str`] reads back.
    pub fn prefixed(&self) -> (r: String)
        ensures
            r@ == "corr"@ + seq!['_'] + simple_form(self.value),
            (parsed_form(r@, "corr"@) == Ok::<u128, Seq<char>>(self.value)),
    {
        prefixed_value(self.value, "corr")
    }

    /// The type prefix used by [`Self::prefixed`].
    pub fn prefix() -> (r: &'static str)
        ensures
            r@ == "corr"@,
    {
        "corr"
    }

    /// The plain form, which [`Self::from_str`] reads back.
    pub fn to_string(&self) -> (r: String)
        ensures
            r@ == self.text(),
            (parsed_form(r@, "corr"@) == Ok::<u128, Seq<char>>(self.value)),
    {
        let r = uuid_hyphenated(self.value);
        proof {
            reveal_strlit("corr");
            lemma_plain_is_not_prefixed(self.value, "corr"@);
        }
        r
    }

    /// Accepts both the plain UUID form and the prefixed form.
    pub fn from_str(s: &str) -> (r: Result<Self, SwarmError>)
        ensures
            match r {
                Ok(id) => parsed_form(s@, "corr"@) == Ok::<u128, Seq<char>>(id.value),
                Err(error) => parsed_form(s@, "corr"@) is Err && error@ == (
                ErrorView::InvalidId { value: s@, detail: parsed_form(s@, "corr"@)->Err_0 }),
            },
    {
        match parse_value(s, "corr") {
            Ok(value) => Ok(CorrelationId { value }),
            Err(error) => Err(error),
        }
    }
}

impl Default for CorrelationId {
    fn default() -> (r: Self)
        ensures
            r.value / 0x1000_0000_0000_0000_0000 % 16 == 7,
    {
        CorrelationId::new()
    }
}

impl FromStr for CorrelationId {
    type Err = SwarmError;

    fn from_str(s: &str) -> Result<Self, SwarmError> {
        CorrelationId::from_str(s)
    }
}

/// Identifies a consensus round.
#[derive(Clone, Copy, Debug, PartialEq, Eq, Structural, Hash, PartialOrd, Ord)]
pub struct RoundId {
    /// The 128 bits of the UUID.
    pub value: u128,
}

impl RoundId {
    /// The plain form: hyphenated lower case digits.
    pub open spec fn text(self) -> Seq<char> {
        hyphenated_form(self.value)
    }

    /// Generate a fresh time-ordered identifier.
    pub fn new() -> (r: Self)
        ensures
            r.value / 0x1000_0000_0000_0000_0000 % 16 == 7,
    {
        RoundId { value: uuid_now() }
    }

    /// Wrap the bits of an existing UUID.
    pub fn from_uuid(value: u128) -> (r: Self)
        ensures
            r.value == value,
    {
        RoundId { value }
    }

    /// The bits of the underlying UUID.
    pub fn as_uuid(&self) -> (r: u128)
        ensures
            r == self.value,
    {
        self.value
    }

    /// Operator-facing form with a type prefix, which [`Self::from_str`] reads back.
    pub fn prefixed(&self) -> (r: String)
        ensures
            r@ == "round"@ + seq!['_'] + simple_form(self.value),
            (parsed_form(r@, "round"@) == Ok::<u128, Seq<char>>(self.value)),
    {
        prefixed_value(self.value, "round")
    }

    /// The type prefix used by [`Self::prefixed`].
    pub fn prefix() -> (r: &'static str)
        ensures
            r@ == "round"@,
    {
        "round"
    }

    /// The plain form, which [`Self::from_str`] reads back.
    pub fn to_string(&self) -> (r: String)
        ensures
            r@ == self.text(),
            (parsed_form(r@, "round"@) == Ok::<u128, Seq<char>>(self.value)),
    {
        let r = uuid_hyphenated(self.value);
        proof {
            reveal_strlit("round");
            lemma_plain_is_not_prefixed(self.value, "round"@);
        }
        r
    }

    /// Accepts both the plain UUID form and the prefixed form.
    pub fn from_str(s: &str) -> (r: Result<Self, SwarmError>)
        ensures
            match r {
                Ok(id) => parsed_form(s@, "round"@) == Ok::<u128, Seq<char>>(id.value),
                Err(error) => parsed_form(s@, "round"@) is Err && error@ == (
                ErrorView::InvalidId { value: s@, detail: parsed_form(s@, "round"@)->Err_0 }),
            },
    {
        match parse_value(s, "round") {
            Ok(value) => Ok(RoundId { value }),
            Err(error) => Err(error),
        }
    }
}

impl Default for RoundId {
    fn default() -> (r: Self)
        ensures
            r.value / 0x1000_0000_0000_0000_0000 % 16 == 7,
    {
        RoundId::new()
    }
}

impl FromStr for RoundId {
    type Err = SwarmError;

    fn from_str(s: &str) -> Result<Self, SwarmError> {
        RoundId::from_str(s)
    }
}

} // verus!
