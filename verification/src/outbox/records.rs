//! Values that cross the boundary of the outbox.

use crate::text;
use crate::time::{Duration, SystemTime};
use crate::types::{NonZeroU32, OutboundMetadata, OutboundScope};
use vstd::prelude::*;
use vstd::string::*;

verus! {

/// Stable identity of an outbox record.
#[derive(Clone, Copy, Debug, PartialEq, Eq, Ord, Hash, Structural)]
pub struct OutboxId {
    pub value: u64,
}

impl OutboxId {
    pub fn new(value: u64) -> (r: Self)
        ensures
            r.value == value,
    {
        OutboxId { value }
    }

    pub fn get(self) -> (r: u64)
        ensures
            r == self.value,
    {
        self.value
    }
}

impl PartialOrd for OutboxId {
    fn partial_cmp(&self, other: &Self) -> (r: Option<core::cmp::Ordering>) {
        if self.value < other.value {
            Some(core::cmp::Ordering::Less)
        } else if self.value == other.value {
            Some(core::cmp::Ordering::Equal)
        } else {
            Some(core::cmp::Ordering::Greater)
        }
    }
}

impl vstd::std_specs::cmp::PartialOrdSpecImpl for OutboxId {
    open spec fn obeys_partial_cmp_spec() -> bool {
        true
    }

    open spec fn partial_cmp_spec(&self, other: &Self) -> Option<core::cmp::Ordering> {
        if self.value < other.value {
            Some(core::cmp::Ordering::Less)
        } else if self.value == other.value {
            Some(core::cmp::Ordering::Equal)
        } else {
            Some(core::cmp::Ordering::Greater)
        }
    }
}

/// Identities compare as their numbers do: one is below another exactly if
/// its number is, and they are equal exactly if the numbers are.
pub proof fn law_ids_order_as_their_numbers(a: OutboxId, b: OutboxId)
    ensures
        vstd::std_specs::cmp::PartialOrdSpec::partial_cmp_spec(&a, &b) == Some(
            core::cmp::Ordering::Less,
        ) <==> a.value < b.value,
        vstd::std_specs::cmp::PartialOrdSpec::partial_cmp_spec(&a, &b) == Some(
            core::cmp::Ordering::Equal,
        ) <==> a.value == b.value,
        vstd::std_specs::cmp::PartialOrdSpec::partial_cmp_spec(&a, &b) == Some(
            core::cmp::Ordering::Greater,
        ) <==> a.value > b.value,
        a == b <==> a.value == b.value,
{
}

/// Identity of a worker lease owner.
#[derive(Clone, Copy, Debug, PartialEq, Eq, PartialOrd, Ord, Hash, Structural)]
pub struct OutboxWorkerId {
    pub value: u64,
}

impl OutboxWorkerId {
    pub fn new(value: u64) -> (r: Self)
        ensures
            r.value == value,
    {
        OutboxWorkerId { value }
    }

    pub fn get(self) -> (r: u64)
        ensures
            r == self.value,
    {
        self.value
    }
}

/// Fencing token for a claimed record.
#[derive(Clone, Copy, Debug, PartialEq, Eq, Hash, Structural)]
pub struct OutboxLease {
    pub worker: OutboxWorkerId,
    pub token: u64,
    pub until: SystemTime,
}

/// Safe, bounded failure categories persisted by an outbox store. Categories
/// are persisted rather than provider error text, which may contain
/// sensitive data.
#[derive(Clone, Copy, Debug, PartialEq, Eq, Structural)]
pub enum OutboxFailureKind {
    RetryAfter,
    Transient,
    Permanent,
    SchedulerUnavailable,
    Exhausted,
}

/// Terminal or retryable failure information safe to persist.
#[derive(Clone, Copy, Debug, PartialEq, Eq, Structural)]
pub struct OutboxFailure {
    pub kind: OutboxFailureKind,
}

impl OutboxFailure {
    pub fn new(kind: OutboxFailureKind) -> (r: Self)
        ensures
            r.kind == kind,
    {
        OutboxFailure { kind }
    }
}

/// Current durable state of an outbox record.
#[derive(Clone, Copy, Debug, PartialEq, Eq, Structural)]
pub enum OutboxStatus {
    Pending,
    Claimed,
    Completed,
    Failed(OutboxFailureKind),
}

/// Application payload and immutable scheduling metadata submitted to a
/// durable store.
#[derive(Clone, Debug, PartialEq, Eq)]
pub struct NewOutboxRequest {
    pub idempotency_key: String,
    pub payload: Vec<u8>,
    pub payload_version: u32,
    pub metadata: OutboundMetadata,
    pub available_at: SystemTime,
    pub max_attempts: NonZeroU32,
}

/// What a request says.
#[verifier::ext_equal]
pub struct RequestView {
    pub idempotency_key: Seq<char>,
    pub payload: Seq<u8>,
    pub payload_version: u32,
    pub metadata: OutboundMetadata,
    pub available_at: SystemTime,
    pub max_attempts: NonZeroU32,
}

/// How many attempts a request gets unless it says otherwise.
pub const DEFAULT_ATTEMPTS: u32 = 5;

impl NewOutboxRequest {
    pub open spec fn view(&self) -> RequestView {
        RequestView {
            idempotency_key: self.idempotency_key@,
            payload: self.payload@,
            payload_version: self.payload_version,
            metadata: self.metadata,
            available_at: self.available_at,
            max_attempts: self.max_attempts,
        }
    }

    /// Creates a request available from `now` on with payload version `1`
    /// and five attempts. Applications should use a stable, domain-specific
    /// key.
    pub fn new(
        idempotency_key: String,
        payload: Vec<u8>,
        metadata: OutboundMetadata,
        now: SystemTime,
    ) -> (r: Self)
        ensures
            r.idempotency_key@ == idempotency_key@,
            r.payload@ == payload@,
            r.payload_version == 1,
            r.metadata == metadata,
            r.available_at == now,
            r.max_attempts@ == DEFAULT_ATTEMPTS,
    {
        let max_attempts = match NonZeroU32::new(DEFAULT_ATTEMPTS) {
            Some(attempts) => attempts,
            None => NonZeroU32::one(),
        };
        NewOutboxRequest {
            idempotency_key,
            payload,
            payload_version: 1,
            metadata,
            available_at: now,
            max_attempts,
        }
    }

    pub fn with_payload_version(self, payload_version: u32) -> (r: Self)
        ensures
            r@ == (RequestView { payload_version, ..self@ }),
    {
        NewOutboxRequest { payload_version, ..self }
    }

    pub fn with_available_at(self, available_at: SystemTime) -> (r: Self)
        ensures
            r@ == (RequestView { available_at, ..self@ }),
    {
        NewOutboxRequest { available_at, ..self }
    }

    pub fn with_max_attempts(self, max_attempts: NonZeroU32) -> (r: Self)
        ensures
            r@ == (RequestView { max_attempts, ..self@ }),
    {
        NewOutboxRequest { max_attempts, ..self }
    }
}

/// Result of durable enqueue and idempotency deduplication.
#[derive(Clone, Copy, Debug, PartialEq, Eq, Structural)]
pub enum OutboxEnqueueResult {
    Inserted(OutboxId),
    Existing(OutboxId),
}

/// A record claimed by a worker and fenced by its lease.
#[derive(Clone, Debug, PartialEq, Eq)]
pub struct ClaimedOutboxRequest {
    pub id: OutboxId,
    pub idempotency_key: String,
    pub payload: Vec<u8>,
    pub payload_version: u32,
    pub metadata: OutboundMetadata,
    pub available_at: SystemTime,
    /// Number of delivery attempts that have actually started.
    pub attempt: u32,
    pub claim_count: u32,
    pub max_attempts: NonZeroU32,
    pub lease: OutboxLease,
}

/// What a claim hands out.
#[verifier::ext_equal]
pub struct ClaimView {
    pub id: OutboxId,
    pub request: RequestView,
    pub attempt: u32,
    pub claim_count: u32,
    pub lease: OutboxLease,
}

impl ClaimedOutboxRequest {
    pub open spec fn view(&self) -> ClaimView {
        ClaimView {
            id: self.id,
            request: RequestView {
                idempotency_key: self.idempotency_key@,
                payload: self.payload@,
                payload_version: self.payload_version,
                metadata: self.metadata,
                available_at: self.available_at,
                max_attempts: self.max_attempts,
            },
            attempt: self.attempt,
            claim_count: self.claim_count,
            lease: self.lease,
        }
    }
}

/// A safe point-in-time view useful for metrics, diagnostics and tests.
#[derive(Clone, Debug, PartialEq, Eq)]
pub struct OutboxSnapshot {
    pub id: OutboxId,
    pub idempotency_key: String,
    pub status: OutboxStatus,
    /// Number of delivery attempts that have actually started.
    pub attempt: u32,
    pub claim_count: u32,
    pub max_attempts: NonZeroU32,
    pub available_at: SystemTime,
    pub payload_version: u32,
    pub metadata: OutboundMetadata,
    pub lease: Option<OutboxLease>,
    pub last_failure: Option<OutboxFailureKind>,
}

/// A store mutation used after a failed execution.
#[derive(Clone, Copy, Debug, PartialEq, Eq, Structural)]
pub struct OutboxRetry {
    pub available_at: SystemTime,
    pub failure: OutboxFailure,
}

/// Result of atomically starting a delivery attempt under a valid lease.
#[derive(Clone, Copy, Debug, PartialEq, Eq, Structural)]
pub enum OutboxAttemptStart {
    Started { attempt: u32 },
    Exhausted,
}

/// Error returned by an application-defined executor. Provider-specific
/// errors are converted to these safe categories.
#[derive(Clone, Copy, Debug, PartialEq, Eq, Structural)]
pub enum OutboxExecutionError {
    RetryAfter { scope: OutboundScope, duration: Duration },
    Transient,
    Permanent,
}

/// Error returned by the worker. Store errors are passed through unchanged;
/// queue admission failures are rescheduled and therefore do not make the
/// worker lose the durable record.
#[derive(Debug)]
pub enum OutboxWorkerError<E> {
    Store(E),
    InvalidLeaseDuration,
}

impl<E> OutboxWorkerError<E> {
    /// The text of the error, given that of a store error.
    pub open spec fn message_spec(self, store: Seq<char>) -> Seq<char> {
        match self {
            OutboxWorkerError::Store(_) => "outbox store operation failed: "@ + store,
            OutboxWorkerError::InvalidLeaseDuration => "outbox lease_for must be positive"@,
        }
    }

    /// The text of the error, given that of a store error.
    pub fn message(&self, store: &str) -> (r: String)
        ensures
            r@ == self.message_spec(store@),
    {
        match self {
            OutboxWorkerError::Store(_) => {
                let mut text = String::from_str("outbox store operation failed: ");
                text.append(store);
                text
            },
            OutboxWorkerError::InvalidLeaseDuration => String::from_str(
                "outbox lease_for must be positive",
            ),
        }
    }
}

/// How an operation of the in-memory store fails.
#[derive(Clone, Copy, Debug, PartialEq, Eq, Structural)]
pub enum InMemoryOutboxError {
    Conflict { id: OutboxId },
    NotFound { id: OutboxId },
    LeaseMismatch { id: OutboxId },
    Poisoned,
    InjectedFailure,
}

impl InMemoryOutboxError {
    /// The text of the error.
    pub open spec fn message_spec(self) -> Seq<char> {
        match self {
            InMemoryOutboxError::Conflict { id } => "idempotency key conflicts with outbox record "@
                + text::decimal(id.value as nat),
            InMemoryOutboxError::NotFound { id } => "outbox record "@ + text::decimal(
                id.value as nat,
            ) + " was not found"@,
            InMemoryOutboxError::LeaseMismatch { id } => "outbox lease mismatch for record "@
                + text::decimal(id.value as nat),
            InMemoryOutboxError::Poisoned => "in-memory outbox mutex is poisoned"@,
            InMemoryOutboxError::InjectedFailure => "injected in-memory outbox failure"@,
        }
    }

    /// The text of the error.
    pub fn message(&self) -> (r: String)
        ensures
            r@ == self.message_spec(),
    {
        match self {
            InMemoryOutboxError::Conflict { id } => {
                let mut text = String::from_str("idempotency key conflicts with outbox record ");
                text.append(text::decimal_text(id.value).as_str());
                text
            },
            InMemoryOutboxError::NotFound { id } => {
                let mut text = String::from_str("outbox record ");
                text.append(text::decimal_text(id.value).as_str());
                text.append(" was not found");
                text
            },
            InMemoryOutboxError::LeaseMismatch { id } => {
                let mut text = String::from_str("outbox lease mismatch for record ");
                text.append(text::decimal_text(id.value).as_str());
                text
            },
            InMemoryOutboxError::Poisoned => String::from_str("in-memory outbox mutex is poisoned"),
            InMemoryOutboxError::InjectedFailure => String::from_str(
                "injected in-memory outbox failure",
            ),
        }
    }
}

} // verus!
