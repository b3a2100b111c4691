//! Values that cross the scheduler's boundary.

use crate::time::{Duration, Instant};
use vstd::prelude::*;

verus! {

/// A positive `u32`.
#[derive(Clone, Copy, Debug, PartialEq, Eq, Hash, Structural)]
pub struct NonZeroU32 {
    value: u32,
}

impl NonZeroU32 {
    #[verifier::type_invariant]
    spec fn positive(self) -> bool {
        self.value > 0
    }

    /// The number held.
    pub closed spec fn view(&self) -> u32 {
        self.value
    }

    /// Holds `value` unless it is zero.
    pub fn new(value: u32) -> (r: Option<Self>)
        ensures
            r is Some <==> value > 0,
            r matches Some(n) ==> n@ == value,
    {
        if value > 0 {
            Some(NonZeroU32 { value })
        } else {
            None
        }
    }

    /// The smallest positive number.
    pub fn one() -> (r: Self)
        ensures
            r@ == 1,
    {
        NonZeroU32 { value: 1 }
    }

    pub fn get(self) -> (r: u32)
        ensures
            r == self@,
            r > 0,
    {
        proof {
            use_type_invariant(self);
        }
        self.value
    }

    /// Whether both hold the same number.
    pub fn same(self, other: Self) -> (r: bool)
        ensures
            r == (self@ == other@),
            r == (self == other),
    {
        self.value == other.value
    }
}

/// Base priority of an outbound request: a higher value means a higher
/// priority. The named levels are shorthands; any `u8` is a valid level.
///
/// Selection is strictly priority-ordered; [`AgingPolicy`] raises the
/// effective priority of long-waiting jobs so that no job can starve.
/// Priority orders the heads of different ordering lanes but never reorders
/// a single lane.
#[derive(Clone, Copy, Debug, PartialEq, Eq, Ord, Hash, Structural)]
pub struct OutboundPriority {
    pub value: u8,
}

/// The level of [`OutboundPriority::highest`].
pub const HIGHEST_LEVEL: u8 = 255;

/// The level of [`OutboundPriority::critical`].
pub const CRITICAL_LEVEL: u8 = 224;

/// The level of [`OutboundPriority::interactive`].
pub const INTERACTIVE_LEVEL: u8 = 192;

/// The level of [`OutboundPriority::normal`].
pub const NORMAL_LEVEL: u8 = 128;

/// The level of [`OutboundPriority::background`].
pub const BACKGROUND_LEVEL: u8 = 32;

/// The level of [`OutboundPriority::lowest`].
pub const LOWEST_LEVEL: u8 = 0;

impl OutboundPriority {
    pub fn lowest() -> (r: Self)
        ensures
            r.value == LOWEST_LEVEL,
    {
        OutboundPriority { value: LOWEST_LEVEL }
    }

    pub fn background() -> (r: Self)
        ensures
            r.value == BACKGROUND_LEVEL,
    {
        OutboundPriority { value: BACKGROUND_LEVEL }
    }

    pub fn normal() -> (r: Self)
        ensures
            r.value == NORMAL_LEVEL,
    {
        OutboundPriority { value: NORMAL_LEVEL }
    }

    pub fn interactive() -> (r: Self)
        ensures
            r.value == INTERACTIVE_LEVEL,
    {
        OutboundPriority { value: INTERACTIVE_LEVEL }
    }

    pub fn critical() -> (r: Self)
        ensures
            r.value == CRITICAL_LEVEL,
    {
        OutboundPriority { value: CRITICAL_LEVEL }
    }

    pub fn highest() -> (r: Self)
        ensures
            r.value == HIGHEST_LEVEL,
    {
        OutboundPriority { value: HIGHEST_LEVEL }
    }

    pub fn new(value: u8) -> (r: Self)
        ensures
            r.value == value,
    {
        OutboundPriority { value }
    }

    pub fn get(self) -> (r: u8)
        ensures
            r == self.value,
    {
        self.value
    }
}

impl Default for OutboundPriority {
    fn default() -> (r: Self)
        ensures
            r.value == LOWEST_LEVEL,
    {
        OutboundPriority { value: LOWEST_LEVEL }
    }
}

impl PartialOrd for OutboundPriority {
    fn partial_cmp(&self, other: &Self) -> (r: Option<core::cmp::Ordering>) {
        if self.value < other.value {
            Some(core::cmp::Ordering::Less)
        } else if self.value == other.value {
            Some(core::cmp::Ordering::Equal)
        } else {
            Some(core::cmp::Ordering::Greater)
        }
    }
}

impl vstd::std_specs::cmp::PartialOrdSpecImpl for OutboundPriority {
    open spec fn obeys_partial_cmp_spec() -> bool {
        true
    }

    open spec fn partial_cmp_spec(&self, other: &Self) -> Option<core::cmp::Ordering> {
        if self.value < other.value {
            Some(core::cmp::Ordering::Less)
        } else if self.value == other.value {
            Some(core::cmp::Ordering::Equal)
        } else {
            Some(core::cmp::Ordering::Greater)
        }
    }
}

/// Priorities compare as their levels do: one is below another exactly if
/// its level is, and they are equal exactly if the levels are.
pub proof fn law_priorities_order_as_their_levels(a: OutboundPriority, b: OutboundPriority)
    ensures
        vstd::std_specs::cmp::PartialOrdSpec::partial_cmp_spec(&a, &b) == Some(
            core::cmp::Ordering::Less,
        ) <==> a.value < b.value,
        vstd::std_specs::cmp::PartialOrdSpec::partial_cmp_spec(&a, &b) == Some(
            core::cmp::Ordering::Equal,
        ) <==> a.value == b.value,
        vstd::std_specs::cmp::PartialOrdSpec::partial_cmp_spec(&a, &b) == Some(
            core::cmp::Ordering::Greater,
        ) <==> a.value > b.value,
        a == b <==> a.value == b.value,
{
}

/// The named levels ascend, by steps of an eighth of the range, three eighths,
/// a quarter, an eighth and what is left of the last eighth. Every priority
/// lies between the lowest and the highest of them.
pub proof fn law_named_levels_ascend(priority: OutboundPriority)
    ensures
        LOWEST_LEVEL < BACKGROUND_LEVEL < NORMAL_LEVEL < INTERACTIVE_LEVEL < CRITICAL_LEVEL
            < HIGHEST_LEVEL,
        LOWEST_LEVEL <= priority.value <= HIGHEST_LEVEL,
        HIGHEST_LEVEL - CRITICAL_LEVEL == 31,
        CRITICAL_LEVEL - INTERACTIVE_LEVEL == 32,
        INTERACTIVE_LEVEL - NORMAL_LEVEL == 64,
        NORMAL_LEVEL - BACKGROUND_LEVEL == 96,
        BACKGROUND_LEVEL - LOWEST_LEVEL == 32,
{
}

/// The kind of a chat, as its key says: the keys of channels and supergroups
/// are odd, those of all other chats even.
pub open spec fn chat_kind(chat: u64) -> WindowChatKind {
    if chat % 2 == 1 {
        WindowChatKind::ChannelOrSupergroup
    } else {
        WindowChatKind::NonChannel
    }
}

/// Chat identifier used for per-chat windows and penalties.
#[derive(Clone, Copy, Debug, PartialEq, Eq, Hash, Structural)]
pub struct OutboundChatKey {
    pub value: u64,
}

impl OutboundChatKey {
    pub fn new(value: u64) -> (r: Self)
        ensures
            r.value == value,
    {
        OutboundChatKey { value }
    }

    pub fn get(self) -> (r: u64)
        ensures
            r == self.value,
    {
        self.value
    }

    /// The kind of the chat.
    pub fn kind(self) -> (r: WindowChatKind)
        ensures
            r == chat_kind(self.value),
    {
        if self.value % 2 == 1 {
            WindowChatKind::ChannelOrSupergroup
        } else {
            WindowChatKind::NonChannel
        }
    }
}

/// Where a request applies and which rate limits it consumes.
#[derive(Clone, Copy, Debug, PartialEq, Eq, Hash, Structural)]
pub enum OutboundScope {
    Global,
    Chat(OutboundChatKey),
}

/// Ordering-lane identifier: the lane is served strictly in enqueue order,
/// and holds its next request back as its [`OutboundLaneMode`] says.
#[derive(Clone, Copy, Debug, PartialEq, Eq, PartialOrd, Ord, Hash, Structural)]
pub struct OutboundLaneKey {
    pub value: u64,
}

/// When a lane lets its next job go.
#[derive(Clone, Copy, Debug, PartialEq, Eq, Structural)]
pub enum OutboundLaneMode {
    /// Once the job before it is completed.
    Serial,
    /// Once the job before it has started: jobs start in order and may
    /// overlap.
    OrderedStart,
}

/// The number of lanes of either mode, and the first key of an ordered-start
/// lane.
pub const LANE_KEYS: u64 = 0x8000_0000_0000_0000;

/// When a lane lets its next job go, as its key says.
pub open spec fn lane_mode(key: u64) -> OutboundLaneMode {
    if key < LANE_KEYS {
        OutboundLaneMode::Serial
    } else {
        OutboundLaneMode::OrderedStart
    }
}

impl OutboundLaneKey {
    /// The key of a lane.
    pub fn of_mode(index: u64, mode: OutboundLaneMode) -> (r: Self)
        requires
            index < LANE_KEYS,
        ensures
            lane_mode(r.value) == mode,
            r.value == index || r.value == index + LANE_KEYS,
    {
        match mode {
            OutboundLaneMode::Serial => OutboundLaneKey { value: index },
            OutboundLaneMode::OrderedStart => OutboundLaneKey { value: index + LANE_KEYS },
        }
    }

    /// When the lane lets its next job go.
    pub fn mode(self) -> (r: OutboundLaneMode)
        ensures
            r == lane_mode(self.value),
    {
        if self.value < LANE_KEYS {
            OutboundLaneMode::Serial
        } else {
            OutboundLaneMode::OrderedStart
        }
    }
}

/// Request class (message send, preview, chat action, ...). Part of the
/// request metadata so that latest-wins slots can never be spoofed with
/// different semantics.
#[derive(Clone, Copy, Debug, PartialEq, Eq, Hash, Structural)]
pub struct OutboundClass {
    pub value: u64,
}

impl OutboundClass {
    pub fn new(value: u64) -> (r: Self)
        ensures
            r.value == value,
    {
        OutboundClass { value }
    }

    pub fn get(self) -> (r: u64)
        ensures
            r == self.value,
    {
        self.value
    }
}

/// Identity of a job inside the scheduler.
#[derive(Clone, Copy, Debug, PartialEq, Eq, PartialOrd, Ord, Hash, Structural)]
pub struct JobId {
    pub value: u64,
}

/// Full request metadata known at enqueue time, including the ordering lane.
#[derive(Clone, Copy, Debug, PartialEq, Eq, Structural)]
pub struct OutboundMeta {
    pub scope: OutboundScope,
    pub lane: Option<OutboundLaneKey>,
    pub class: OutboundClass,
    pub priority: OutboundPriority,
    pub weight: NonZeroU32,
}

/// Caller-provided metadata of an acquire.
#[derive(Clone, Copy, Debug, PartialEq, Eq, Structural)]
pub struct OutboundMetadata {
    pub scope: OutboundScope,
    pub class: OutboundClass,
    pub priority: OutboundPriority,
    /// Accounting weight: the number of window capacity units the request
    /// consumes when granted. Must fit every window that applies to the
    /// scope, otherwise the acquire fails with
    /// [`OutboundQueueError::WeightExceedsWindow`].
    pub weight: NonZeroU32,
}

/// Stable user-provided correlation id carried by an acquire.
#[derive(Clone, Copy, Debug, PartialEq, Eq, Hash, Structural)]
pub struct OutboundCorrelationId {
    pub value: u64,
}

impl OutboundCorrelationId {
    pub fn new(value: u64) -> (r: Self)
        ensures
            r.value == value,
    {
        OutboundCorrelationId { value }
    }

    pub fn get(self) -> (r: u64)
        ensures
            r == self.value,
    {
        self.value
    }
}

/// How a new job relates to already pending jobs.
#[derive(Clone, Copy, Debug, PartialEq, Eq, Structural)]
pub enum OutboundEnqueueMode {
    /// Plain FIFO queueing.
    Fifo,
    /// Replace the pending job of the latest-wins slot identified by
    /// `user_key`. The slot itself is derived by the scheduler from the
    /// request metadata (scope, lane, class), so a replacement can never
    /// silently change what the inherited position and budget accounting
    /// mean. Only a job that has not been granted yet is replaced.
    ReplacePending { user_key: u64 },
}

/// The outcome of an enqueue.
#[derive(Clone, Copy, Debug, PartialEq, Eq, Structural)]
pub struct EnqueueOutcome {
    /// The newly created job.
    pub job: JobId,
    /// The pending job replaced by this enqueue, if any. Its waiter must be
    /// told: it must neither silently disappear nor receive a permit.
    pub superseded: Option<JobId>,
}

/// Why an enqueue was rejected. The scheduler state is left unchanged.
#[derive(Clone, Copy, Debug, PartialEq, Eq, Structural)]
pub enum EnqueueError {
    /// The pending backlog is at capacity and this enqueue would grow it (a
    /// latest-wins replacement does not grow the backlog and is admitted
    /// even at capacity).
    QueueFull,
    /// The latest-wins slot exists with a different accounting weight.
    IncompatibleCoalesceMetadata,
    /// The request weight never fits at least one window that applies to
    /// its scope.
    WeightExceedsWindow { scope: OutboundScope, weight: NonZeroU32, capacity: u32 },
}

/// Why a queue could not be constructed, or why a settings update was
/// rejected.
#[derive(Clone, Copy, Debug, PartialEq, Eq, Structural)]
pub enum SchedulerConfigError {
    /// A window with zero capacity can never admit any request.
    ZeroWindowCapacity,
    /// A window with zero duration never expires its history.
    ZeroWindowDuration,
    /// An aging quantum of zero would divide by zero.
    ZeroAgingQuantum,
    /// `max_boost` cannot lift a job from the lowest to the highest
    /// priority, so the anti-starvation guarantee cannot hold.
    AgingCannotReachHighest { max_boost: u8 },
    /// A zero queue capacity admits nothing.
    ZeroQueueCapacity,
    /// A pending job would not fit a new window. The update is rejected as
    /// a whole and the previous limits stay in effect.
    PendingWeightExceedsWindow { scope: OutboundScope, weight: u32, capacity: u32 },
}

/// One granted job handed to the caller.
#[derive(Clone, Copy, Debug, PartialEq, Eq, Structural)]
pub struct Grant {
    pub job: JobId,
}

/// How a granted request ended.
#[derive(Clone, Copy, Debug, PartialEq, Eq, Structural)]
pub enum OutboundCompletion {
    Success,
    /// The request hit a `RetryAfter` limit. The penalty scope is explicit:
    /// a chat-scoped request can report a global flood penalty. The
    /// scheduler penalizes the reported scope for `duration` and never
    /// retries on its own.
    RetryAfter { scope: OutboundScope, duration: Duration },
    Failed,
    /// The granted permit was given back before any request was made.
    NoRequest,
    /// The granted permit was dropped without an explicit completion.
    CancelledAfterGrant,
}

/// Fairness configuration for priority aging.
#[derive(Clone, Copy, Debug, PartialEq, Eq, Structural)]
pub struct AgingPolicy {
    /// One full quantum of waiting raises the effective priority by one
    /// level.
    pub quantum: Duration,
    /// Maximum number of levels the effective priority can be raised. It
    /// must span the whole priority range.
    pub max_boost: u8,
}

/// The chats a window applies to.
#[derive(Clone, Copy, Debug, PartialEq, Eq, Structural)]
pub enum WindowChatKind {
    Any,
    NonChannel,
    ChannelOrSupergroup,
}

/// Sliding-window rate limit. A chat window may be one of chats of one kind
/// only; a global window applies to every request.
#[derive(Clone, Copy, Debug, PartialEq, Eq, Structural)]
pub struct WindowLimit {
    pub capacity: u32,
    pub window: Duration,
    pub kind: WindowChatKind,
}

impl WindowLimit {
    /// A window of every chat.
    pub fn new(capacity: u32, window: Duration) -> (r: Self)
        ensures
            r == (WindowLimit { capacity, window, kind: WindowChatKind::Any }),
    {
        WindowLimit { capacity, window, kind: WindowChatKind::Any }
    }

    /// A window of chats of one kind.
    pub fn for_chat_kind(capacity: u32, window: Duration, kind: WindowChatKind) -> (r: Self)
        ensures
            r == (WindowLimit { capacity, window, kind }),
    {
        WindowLimit { capacity, window, kind }
    }

    /// Whether the window is one of the chat.
    pub open spec fn applies(self, chat: u64) -> bool {
        self.kind is Any || self.kind == chat_kind(chat)
    }

    /// Whether the window is one of the chat.
    pub fn applies_to(&self, chat: OutboundChatKey) -> (r: bool)
        ensures
            r == self.applies(chat.value),
    {
        self.kind == WindowChatKind::Any || self.kind == chat.kind()
    }
}

/// Global and per-chat window limits. Each entry is one window of a window
/// set: a request must pass every window of the set.
#[derive(Clone, Debug, PartialEq, Eq)]
pub struct OutboundLimits {
    pub global: Vec<WindowLimit>,
    pub chat: Vec<WindowLimit>,
}

/// Construction settings of an outbound queue.
#[derive(Clone, Debug, PartialEq, Eq)]
pub struct OutboundSettings {
    /// Rate windows.
    pub limits: OutboundLimits,
    /// Maximum number of pending (not yet granted) jobs.
    pub queue_capacity: usize,
    /// Priority aging policy.
    pub aging: AgingPolicy,
}

/// Why the queue did not take an acquire.
#[derive(Clone, Copy, Debug, PartialEq, Eq, Structural)]
pub enum OutboundQueueError {
    /// The queue is shut down; the operation was not performed.
    Closed,
    /// The backlog is at capacity.
    QueueFull,
    /// The acquire weight never fits an applicable window.
    WeightExceedsWindow { scope: OutboundScope, weight: NonZeroU32, capacity: u32 },
    /// A latest-wins acquire changed the accounting weight of an existing
    /// slot; the slot was left untouched.
    IncompatibleCoalesceMetadata,
}

/// How an acquire fails.
#[derive(Clone, Copy, Debug, PartialEq, Eq, Structural)]
pub enum OutboundAcquireError {
    /// The queue is shut down.
    Closed,
    /// The backlog was at capacity when the acquire was enqueued.
    QueueFull,
    /// The acquire weight never fits an applicable window.
    WeightExceedsWindow { scope: OutboundScope, weight: NonZeroU32, capacity: u32 },
    /// A latest-wins acquire changed the accounting weight of an existing
    /// slot; the slot was left untouched.
    IncompatibleCoalesceMetadata,
    /// The pending job was replaced by a latest-wins acquire of the same
    /// slot.
    Superseded,
}

/// Why the limits could not be replaced.
#[derive(Clone, Copy, Debug, PartialEq, Eq, Structural)]
pub enum OutboundSetLimitsError {
    /// The queue is shut down; the update was not performed.
    Closed,
    /// The limits are invalid; the previous limits stay in effect.
    Invalid(SchedulerConfigError),
}

/// The acquire error that reports a queue error.
pub open spec fn acquire_error_of(error: OutboundQueueError) -> OutboundAcquireError {
    match error {
        OutboundQueueError::Closed => OutboundAcquireError::Closed,
        OutboundQueueError::QueueFull => OutboundAcquireError::QueueFull,
        OutboundQueueError::WeightExceedsWindow { scope, weight, capacity } =>
            OutboundAcquireError::WeightExceedsWindow { scope, weight, capacity },
        OutboundQueueError::IncompatibleCoalesceMetadata =>
            OutboundAcquireError::IncompatibleCoalesceMetadata,
    }
}

impl From<OutboundQueueError> for OutboundAcquireError {
    fn from(error: OutboundQueueError) -> (r: Self) {
        match error {
            OutboundQueueError::Closed => OutboundAcquireError::Closed,
            OutboundQueueError::QueueFull => OutboundAcquireError::QueueFull,
            OutboundQueueError::WeightExceedsWindow { scope, weight, capacity } =>
                OutboundAcquireError::WeightExceedsWindow { scope, weight, capacity },
            OutboundQueueError::IncompatibleCoalesceMetadata =>
                OutboundAcquireError::IncompatibleCoalesceMetadata,
        }
    }
}

impl vstd::std_specs::convert::FromSpecImpl<OutboundQueueError> for OutboundAcquireError {
    open spec fn obeys_from_spec() -> bool {
        true
    }

    open spec fn from_spec(error: OutboundQueueError) -> Self {
        acquire_error_of(error)
    }
}

/// A point-in-time view of the queue state, for diagnostics.
#[derive(Clone, Copy, Debug, PartialEq, Eq, Structural)]
pub struct OutboundSnapshot {
    /// Pending jobs (enqueued, not yet granted).
    pub pending: usize,
    /// Granted jobs whose permits are still in flight.
    pub in_flight: usize,
    /// Candidates that failed admission and are waiting for a deadline.
    pub blocked: usize,
    /// Jobs waiting for their `not_before` moment.
    pub delayed: usize,
    /// Candidate-heap entries (may include lazy stale entries).
    pub candidates: usize,
    /// Windows held back for blocked top-aged candidates.
    pub reservations: usize,
}

/// What to do after a grant pass.
#[derive(Clone, Copy, Debug, PartialEq, Eq, Structural)]
pub enum SchedulerWakeup {
    /// Run the grant pass again right away.
    Immediate,
    /// The earliest moment at which something may become grantable.
    At(Instant),
    /// Nothing time-based will change; wait for an external event (an
    /// enqueue, a completion or a penalty).
    ExternalEvent,
}

/// To which chats a window applies: one of no kind to all of them, one of a
/// kind to those of the kind. The keys of channels and supergroups are odd,
/// those of all other chats even.
pub proof fn law_a_window_applies_to_its_kind(limit: WindowLimit, chat: u64)
    ensures
        limit.applies(chat) <==> match limit.kind {
            WindowChatKind::Any => true,
            WindowChatKind::NonChannel => chat % 2 == 0,
            WindowChatKind::ChannelOrSupergroup => chat % 2 == 1,
        },
{
}

/// How a queue error is reported to whoever acquires: as the error of the same
/// name, with what it says.
pub proof fn law_queue_errors_are_reported_as_they_are(error: OutboundQueueError)
    ensures
        match error {
            OutboundQueueError::Closed => acquire_error_of(error) is Closed,
            OutboundQueueError::QueueFull => acquire_error_of(error) is QueueFull,
            OutboundQueueError::IncompatibleCoalesceMetadata => acquire_error_of(
                error,
            ) is IncompatibleCoalesceMetadata,
            OutboundQueueError::WeightExceedsWindow { scope, weight, capacity } =>
                acquire_error_of(error) == (OutboundAcquireError::WeightExceedsWindow {
                    scope,
                    weight,
                    capacity,
                }),
        },
{
}

} // verus!
