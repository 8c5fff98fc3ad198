//! Embedding-client decisions: input checks, output checks, and the retry
//! schedule with exponential backoff. The remote call itself is made by the
//! caller, which hands each outcome back to these functions.

use vstd::prelude::*;
use crate::text::{chars_of, trim, trim_bounds, views};
use crate::chunking::fixed_pieces;

verus! {

/// Model asked for when none is configured.
pub const DEFAULT_MODEL: &'static str = "harald-phi4";

/// Embedding endpoint of a local service on its standard port.
pub const DEFAULT_ENDPOINT: &'static str = "http://127.0.0.1:11434/api/embeddings";

/// Seconds one request may take.
pub const DEFAULT_TIMEOUT_SECS: u64 = 60;

/// Attempts made for one text before giving up.
pub const MAX_RETRY_ATTEMPTS: usize = 3;

/// Longest text, in characters, that is sent to the service.
pub const MAX_INPUT_CHARS: usize = 100_000;

/// Fewest components a plausible embedding has.
pub const MIN_EMBEDDING_DIM: usize = 100;

/// Seconds of the first backoff unit; the wait after attempt `a` is this
/// times `2^a`.
pub const BACKOFF_BASE_SECS: u64 = 1;

/// Settings of the embedding client.
#[derive(Debug, Clone)]
pub struct EmbedConfig {
    /// Model name.
    pub model: String,
    /// Endpoint URL.
    pub endpoint: String,
    /// Seconds one request may take.
    pub timeout_secs: u64,
    /// Attempts made for one text.
    pub max_retries: usize,
}

impl Default for EmbedConfig {
    fn default() -> (r: EmbedConfig)
        ensures
            r.model@ == DEFAULT_MODEL@,
            r.endpoint@ == DEFAULT_ENDPOINT@,
            r.timeout_secs == DEFAULT_TIMEOUT_SECS,
            r.max_retries == MAX_RETRY_ATTEMPTS,
    {
        create_config(DEFAULT_MODEL, DEFAULT_ENDPOINT)
    }
}

/// A configuration for `model` at `endpoint`, with the default timeout and
/// attempt count.
pub fn create_config(model: &str, endpoint: &str) -> (r: EmbedConfig)
    ensures
        r.model@ == model@,
        r.endpoint@ == endpoint@,
        r.timeout_secs == DEFAULT_TIMEOUT_SECS,
        r.max_retries == MAX_RETRY_ATTEMPTS,
{
    EmbedConfig {
        model: model.to_owned(),
        endpoint: endpoint.to_owned(),
        timeout_secs: DEFAULT_TIMEOUT_SECS,
        max_retries: MAX_RETRY_ATTEMPTS,
    }
}

/// Body of one embedding request.
#[derive(Debug, Clone)]
pub struct EmbeddingRequest {
    /// Model name.
    pub model: String,
    /// Text to embed.
    pub prompt: String,
}

/// Why a returned vector is refused.
#[derive(Debug, Clone, Copy, PartialEq, Eq, Structural)]
pub enum OutputFault {
    /// The vector has no component.
    Empty,
    /// The vector has fewer components than the minimum.
    TooFewDimensions,
    /// A component is NaN or infinite.
    NonFinite,
}

/// Failures of the embedding client.
#[derive(Debug, Clone, Copy, PartialEq, Eq, Structural)]
pub enum EmbedError {
    /// The text is empty or whitespace only.
    EmptyInput,
    /// The text is longer than the input ceiling; the length in characters.
    InputTooLarge(usize),
    /// Every attempt failed; the number of attempts made.
    ServiceError(usize),
    /// The service answered with an unusable vector.
    InvalidOutput(OutputFault),
}

/// Checks a text before it is sent: not blank, and within the ceiling.
pub fn validate_input(text: &str) -> (r: Result<(), EmbedError>)
    ensures
        trim(text@).len() == 0 ==> r == Err::<(), EmbedError>(EmbedError::EmptyInput),
        trim(text@).len() > 0 && text@.len() > MAX_INPUT_CHARS ==> r == Err::<(), EmbedError>(
            EmbedError::InputTooLarge(text@.len() as usize),
        ),
        trim(text@).len() > 0 && text@.len() <= MAX_INPUT_CHARS ==> r is Ok,
{
    let chars = chars_of(text);
    assert(chars@.subrange(0, chars.len() as int) =~= chars@);
    let (a, b) = trim_bounds(&chars, 0, chars.len());
    if a == b {
        Err(EmbedError::EmptyInput)
    } else if chars.len() > MAX_INPUT_CHARS {
        Err(EmbedError::InputTooLarge(chars.len()))
    } else {
        Ok(())
    }
}

/// What is wrong with a returned vector of `dimension` components, of which
/// all are finite exactly when `all_finite` holds.
pub open spec fn output_fault(dimension: nat, all_finite: bool) -> Option<OutputFault> {
    if dimension == 0 {
        Some(OutputFault::Empty)
    } else if dimension < MIN_EMBEDDING_DIM {
        Some(OutputFault::TooFewDimensions)
    } else if !all_finite {
        Some(OutputFault::NonFinite)
    } else {
        None
    }
}

/// Checks a returned vector by its dimension and whether every component is
/// finite; a refused vector is `InvalidOutput`, whatever the transport said.
pub fn validate_embedding(dimension: usize, all_finite: bool) -> (r: Result<(), EmbedError>)
    ensures
        match output_fault(dimension as nat, all_finite) {
            Some(f) => r == Err::<(), EmbedError>(EmbedError::InvalidOutput(f)),
            None => r is Ok,
        },
{
    if dimension == 0 {
        Err(EmbedError::InvalidOutput(OutputFault::Empty))
    } else if dimension < MIN_EMBEDDING_DIM {
        Err(EmbedError::InvalidOutput(OutputFault::TooFewDimensions))
    } else if !all_finite {
        Err(EmbedError::InvalidOutput(OutputFault::NonFinite))
    } else {
        Ok(())
    }
}

/// `2^n`.
pub open spec fn pow2(n: nat) -> nat
    decreases n,
{
    if n == 0 {
        1
    } else {
        2 * pow2((n - 1) as nat)
    }
}

/// Largest attempt number whose backoff is computed exactly.
pub const MAX_EXACT_BACKOFF_ATTEMPT: usize = 62;

/// Seconds to wait after failed attempt `attempt` (counted from 1): the base
/// times `2^attempt`, held at `u64::MAX` past the exact range.
pub open spec fn backoff_secs(attempt: nat) -> nat {
    if attempt <= MAX_EXACT_BACKOFF_ATTEMPT {
        BACKOFF_BASE_SECS as nat * pow2(attempt)
    } else {
        u64::MAX as nat
    }
}

proof fn lemma_pow2_mono(a: nat, b: nat)
    requires
        a <= b,
    ensures
        1 <= pow2(a) <= pow2(b),
    decreases b,
{
    if a < b {
        lemma_pow2_mono(a, (b - 1) as nat);
    } else {
        lemma_pow2_pos(a);
    }
}

proof fn lemma_pow2_pos(n: nat)
    ensures
        1 <= pow2(n),
    decreases n,
{
    if n > 0 {
        lemma_pow2_pos((n - 1) as nat);
    }
}

proof fn lemma_pow2_bound(n: nat)
    ensures
        1 <= pow2(n),
        n <= 62 ==> pow2(n) <= 0x4000_0000_0000_0000,
{
    lemma_pow2_mono(0, n);
    if n <= 62 {
        lemma_pow2_mono(n, 62);
        lemma_pow2_62();
    }
}

proof fn lemma_pow2_62()
    ensures
        pow2(62) == 0x4000_0000_0000_0000,
{
    reveal_with_fuel(pow2, 63);
}

/// The backoff after failed attempt `attempt`.
pub fn backoff_delay_secs(attempt: usize) -> (r: u64)
    ensures
        r as nat == backoff_secs(attempt as nat),
{
    if attempt > MAX_EXACT_BACKOFF_ATTEMPT {
        return u64::MAX;
    }
    let mut d: u64 = BACKOFF_BASE_SECS;
    let mut k: usize = 0;
    while k < attempt
        invariant
            k <= attempt <= MAX_EXACT_BACKOFF_ATTEMPT,
            d as nat == BACKOFF_BASE_SECS as nat * pow2(k as nat),
        decreases attempt - k,
    {
        proof {
            lemma_pow2_bound((k + 1) as nat);
        }
        d = d * 2;
        k = k + 1;
    }
    d
}

/// What the client does after a failed attempt.
#[derive(Debug, Clone, Copy, PartialEq, Eq, Structural)]
pub enum RetryDecision {
    /// Wait this many seconds, then make the next attempt.
    RetryAfter(u64),
    /// Stop and surface the failure.
    GiveUp,
}

/// The decision after failed attempt `attempt` (counted from 1) when
/// `max_attempts` attempts are allowed.
pub open spec fn retry_decision(max_attempts: nat, attempt: nat) -> RetryDecision {
    if attempt < max_attempts {
        RetryDecision::RetryAfter(backoff_secs(attempt) as u64)
    } else {
        RetryDecision::GiveUp
    }
}

/// Decides, after failed attempt `attempt`, whether to wait and try again.
pub fn after_failed_attempt(config: &EmbedConfig, attempt: usize) -> (r: RetryDecision)
    ensures
        r == retry_decision(config.max_retries as nat, attempt as nat),
{
    if attempt < config.max_retries {
        RetryDecision::RetryAfter(backoff_delay_secs(attempt))
    } else {
        RetryDecision::GiveUp
    }
}

/// The error surfaced when every attempt failed.
pub fn exhausted(config: &EmbedConfig) -> (r: EmbedError)
    ensures
        r == EmbedError::ServiceError(config.max_retries),
{
    EmbedError::ServiceError(config.max_retries)
}

/// Against a service that always fails, a client allowed `n` attempts makes
/// exactly `n`: it retries after each of attempts `1..n-1`, with waits that
/// strictly grow, and gives up after attempt `n`.
pub proof fn lemma_retry_exhaustion(n: nat, attempt: nat)
    requires
        1 <= attempt <= n,
        n <= MAX_EXACT_BACKOFF_ATTEMPT + 1,
    ensures
        attempt < n ==> retry_decision(n, attempt) == RetryDecision::RetryAfter(
            backoff_secs(attempt) as u64,
        ),
        attempt == n ==> retry_decision(n, attempt) == RetryDecision::GiveUp,
        attempt + 1 < n ==> backoff_secs(attempt) < backoff_secs(attempt + 1),
        attempt < n ==> backoff_secs(attempt) <= u64::MAX,
{
    lemma_pow2_bound(attempt);
    lemma_pow2_bound(attempt + 1);
}

/// The pieces one text is embedded as: the whole text when it fits in
/// `max_chunk_size` characters, else fixed-size pieces in order.
pub fn plan_embedding_chunks(text: &str, max_chunk_size: usize) -> (r: Vec<String>)
    requires
        max_chunk_size > 0,
    ensures
        views(r@) == fixed_pieces(text@, max_chunk_size as nat),
        0 < text@.len() <= max_chunk_size ==> views(r@) == seq![text@],
{
    crate::chunking::size_based_chunking(text, max_chunk_size, true)
}

} // verus!
