//! In-memory outbox store for deterministic tests, examples and small
//! applications, and the rules every store follows.

use super::records::{
    ClaimView, ClaimedOutboxRequest, InMemoryOutboxError, NewOutboxRequest, OutboxAttemptStart,
    OutboxEnqueueResult, OutboxFailure, OutboxFailureKind, OutboxId, OutboxLease, OutboxRetry,
    OutboxSnapshot, OutboxStatus, OutboxWorkerId, RequestView,
};
use crate::time::{Duration, SystemTime};
use vstd::prelude::*;

verus! {

/// The state of a record, with the lease of a claimed one.
#[derive(Clone, Copy, Debug, PartialEq, Eq, Structural)]
pub enum InMemoryStatus {
    Pending,
    Claimed(OutboxLease),
    Completed,
    Failed(OutboxFailureKind),
}

/// One stored record.
#[derive(Clone, Debug, PartialEq, Eq)]
pub struct InMemoryRecord {
    pub request: NewOutboxRequest,
    pub attempt: u32,
    pub claim_count: u32,
    pub status: InMemoryStatus,
    pub last_failure: Option<OutboxFailureKind>,
}

/// What is known of a record.
#[verifier::ext_equal]
pub struct RecordView {
    pub request: RequestView,
    /// Delivery attempts that have started.
    pub attempt: u32,
    pub claim_count: u32,
    pub status: InMemoryStatus,
    pub last_failure: Option<OutboxFailureKind>,
}

impl InMemoryRecord {
    pub open spec fn view(&self) -> RecordView {
        RecordView {
            request: self.request@,
            attempt: self.attempt,
            claim_count: self.claim_count,
            status: self.status,
            last_failure: self.last_failure,
        }
    }
}

impl RecordView {
    /// Whether nothing happens to the record any more.
    pub open spec fn is_terminal(self) -> bool {
        self.status is Completed || self.status is Failed
    }

    /// Whether the record waits for a worker at `now`.
    pub open spec fn is_due(self, now: SystemTime) -> bool {
        self.status is Pending && self.request.available_at.nanos <= now.nanos
    }

    /// The record once its lease has been looked at: an expired one no
    /// longer holds it.
    pub open spec fn expired(self, now: SystemTime) -> RecordView {
        match self.status {
            InMemoryStatus::Claimed(lease) => if lease.until.nanos <= now.nanos {
                RecordView { status: InMemoryStatus::Pending, ..self }
            } else {
                self
            },
            _ => self,
        }
    }
}

/// What a store holds. A record's id is its position.
#[verifier::ext_equal]
pub struct StoreView {
    pub records: Seq<RecordView>,
    /// The lease token that was issued last.
    pub last_token: u64,
    pub fail_next_complete: bool,
}

/// The status a snapshot shows.
pub open spec fn status_of(status: InMemoryStatus) -> OutboxStatus {
    match status {
        InMemoryStatus::Pending => OutboxStatus::Pending,
        InMemoryStatus::Claimed(_) => OutboxStatus::Claimed,
        InMemoryStatus::Completed => OutboxStatus::Completed,
        InMemoryStatus::Failed(kind) => OutboxStatus::Failed(kind),
    }
}

/// The lease a snapshot shows.
pub open spec fn lease_of(status: InMemoryStatus) -> Option<OutboxLease> {
    match status {
        InMemoryStatus::Claimed(lease) => Some(lease),
        _ => None,
    }
}

/// Whether a snapshot shows the record.
pub open spec fn shows(s: OutboxSnapshot, id: OutboxId, record: RecordView) -> bool {
    &&& s.id == id
    &&& s.idempotency_key@ == record.request.idempotency_key
    &&& s.status == status_of(record.status)
    &&& s.attempt == record.attempt
    &&& s.claim_count == record.claim_count
    &&& s.max_attempts == record.request.max_attempts
    &&& s.available_at == record.request.available_at
    &&& s.payload_version == record.request.payload_version
    &&& s.metadata == record.request.metadata
    &&& s.lease == lease_of(record.status)
    &&& s.last_failure == record.last_failure
}

/// Whether two requests under one key are the same work. When they become
/// available plays no part.
pub open spec fn agree(left: RequestView, right: RequestView) -> bool {
    &&& left.payload == right.payload
    &&& left.payload_version == right.payload_version
    &&& left.metadata == right.metadata
    &&& left.max_attempts == right.max_attempts
}

/// Whether `lease` holds a record in this state at `now`.
pub open spec fn holds(status: InMemoryStatus, lease: OutboxLease, now: SystemTime) -> bool {
    status == InMemoryStatus::Claimed(lease) && lease.until.nanos > now.nanos
}

/// Whether record `a` is claimed before record `b`: what became available
/// first, then what was stored first.
pub open spec fn claimed_before(records: Seq<RecordView>, a: int, b: int) -> bool {
    let x = records[a].request.available_at.nanos;
    let y = records[b].request.available_at.nanos;
    x < y || x == y && a < b
}

/// Puts `id` at its place in a list ordered by `claimed_before`.
pub open spec fn placed(records: Seq<RecordView>, order: Seq<int>, id: int) -> Seq<int>
    decreases order.len(),
{
    if order.len() == 0 || claimed_before(records, order.last(), id) {
        order.push(id)
    } else {
        placed(records, order.drop_last(), id).push(order.last())
    }
}

/// The due records among the first `n`, in the order in which they are
/// claimed.
pub open spec fn due_order(records: Seq<RecordView>, now: SystemTime, n: nat) -> Seq<int>
    decreases n,
{
    if n == 0 {
        Seq::empty()
    } else {
        let before = due_order(records, now, (n - 1) as nat);
        if records[n - 1].is_due(now) {
            placed(records, before, n - 1)
        } else {
            before
        }
    }
}

impl StoreView {
    pub open spec fn empty() -> StoreView {
        StoreView { records: Seq::empty(), last_token: 0, fail_next_complete: false }
    }

    /// No two records have the same key.
    pub open spec fn keys_differ(self) -> bool {
        forall|i: int, j: int|
            0 <= i < j < self.records.len() ==> (
            #[trigger] self.records[i]).request.idempotency_key != (
            #[trigger] self.records[j]).request.idempotency_key
    }

    /// Tokens in use have been issued, no two records are held by the same
    /// token, and no more attempts have started than a record allows.
    pub open spec fn inv(self) -> bool {
        &&& self.keys_differ()
        &&& forall|i: int|
            0 <= i < self.records.len() ==> {
                let record = #[trigger] self.records[i];
                &&& record.attempt <= record.request.max_attempts@
                &&& record.status matches InMemoryStatus::Claimed(lease) ==> lease.token
                    <= self.last_token
            }
        &&& forall|i: int, j: int|
            0 <= i < j < self.records.len() ==> {
                (#[trigger] self.records[i]).status matches InMemoryStatus::Claimed(a) ==> (
                #[trigger] self.records[j]).status matches InMemoryStatus::Claimed(b) ==> a.token
                    != b.token
            }
    }

    /// Whether `found` is what the store knows of an id.
    pub open spec fn finds(self, id: OutboxId, found: Option<OutboxSnapshot>) -> bool {
        &&& found is Some <==> id.value < self.records.len()
        &&& found matches Some(s) ==> shows(s, id, self.records[id.value as int])
    }

    /// Whether the key is in use.
    pub open spec fn has_key(self, key: Seq<char>) -> bool {
        exists|i: int|
            0 <= i < self.records.len() && (#[trigger] self.records[i]).request.idempotency_key
                == key
    }

    /// The record stored under a key.
    pub open spec fn under_key(self, key: Seq<char>) -> int {
        choose|i: int|
            0 <= i < self.records.len() && (#[trigger] self.records[i]).request.idempotency_key
                == key
    }

    /// Stores a request unless its key is in use.
    pub open spec fn enqueue(self, request: RequestView) -> StoreView {
        if self.has_key(request.idempotency_key) {
            self
        } else {
            StoreView {
                records: self.records.push(
                    RecordView {
                        request,
                        attempt: 0,
                        claim_count: 0,
                        status: InMemoryStatus::Pending,
                        last_failure: None,
                    },
                ),
                ..self
            }
        }
    }

    /// What a request is told: the record of its key if it is the same work,
    /// a conflict if it is not.
    pub open spec fn enqueue_result(self, request: RequestView) -> Result<
        OutboxEnqueueResult,
        InMemoryOutboxError,
    > {
        if self.has_key(request.idempotency_key) {
            let i = self.under_key(request.idempotency_key);
            let id = OutboxId { value: i as u64 };
            if agree(self.records[i].request, request) {
                Ok(OutboxEnqueueResult::Existing(id))
            } else {
                Err(InMemoryOutboxError::Conflict { id })
            }
        } else {
            Ok(OutboxEnqueueResult::Inserted(OutboxId { value: self.records.len() as u64 }))
        }
    }

    /// Why a change under a lease is refused.
    pub open spec fn refusal(self, id: OutboxId, lease: OutboxLease, now: SystemTime) -> Option<
        InMemoryOutboxError,
    > {
        if id.value >= self.records.len() {
            Some(InMemoryOutboxError::NotFound { id })
        } else if !holds(self.records[id.value as int].status, lease, now) {
            Some(InMemoryOutboxError::LeaseMismatch { id })
        } else {
            None
        }
    }

    pub open spec fn put(self, id: OutboxId, record: RecordView) -> StoreView {
        StoreView { records: self.records.update(id.value as int, record), ..self }
    }

    pub open spec fn renew(
        self,
        id: OutboxId,
        lease: OutboxLease,
        until: SystemTime,
        now: SystemTime,
    ) -> StoreView {
        if self.refusal(id, lease, now) is Some {
            self
        } else {
            self.put(
                id,
                RecordView {
                    status: InMemoryStatus::Claimed(OutboxLease { until, ..lease }),
                    ..self.records[id.value as int]
                },
            )
        }
    }

    /// Whether a record has no attempt left.
    pub open spec fn is_exhausted(self, id: OutboxId) -> bool {
        let record = self.records[id.value as int];
        record.attempt >= record.request.max_attempts@
    }

    pub open spec fn begin(self, id: OutboxId, lease: OutboxLease, now: SystemTime) -> StoreView {
        if self.refusal(id, lease, now) is Some || self.is_exhausted(id) {
            self
        } else {
            let record = self.records[id.value as int];
            self.put(id, RecordView { attempt: (record.attempt + 1) as u32, ..record })
        }
    }

    /// Ends a claim under its lease: the record becomes `after`.
    pub open spec fn settle(
        self,
        id: OutboxId,
        lease: OutboxLease,
        now: SystemTime,
        after: RecordView,
    ) -> StoreView {
        if self.refusal(id, lease, now) is Some {
            self
        } else {
            self.put(id, after)
        }
    }

    pub open spec fn complete(self, id: OutboxId, lease: OutboxLease, now: SystemTime) -> StoreView {
        if self.fail_next_complete {
            StoreView { fail_next_complete: false, ..self }
        } else {
            self.settle(
                id,
                lease,
                now,
                RecordView {
                    status: InMemoryStatus::Completed,
                    ..self.records[id.value as int]
                },
            )
        }
    }

    pub open spec fn reschedule(
        self,
        id: OutboxId,
        lease: OutboxLease,
        retry: OutboxRetry,
        now: SystemTime,
    ) -> StoreView {
        let record = self.records[id.value as int];
        self.settle(
            id,
            lease,
            now,
            RecordView {
                request: RequestView { available_at: retry.available_at, ..record.request },
                status: InMemoryStatus::Pending,
                last_failure: Some(retry.failure.kind),
                ..record
            },
        )
    }

    pub open spec fn fail(
        self,
        id: OutboxId,
        lease: OutboxLease,
        failure: OutboxFailure,
        now: SystemTime,
    ) -> StoreView {
        self.settle(
            id,
            lease,
            now,
            RecordView {
                status: InMemoryStatus::Failed(failure.kind),
                last_failure: Some(failure.kind),
                ..self.records[id.value as int]
            },
        )
    }

    /// The store once every expired lease has ended.
    pub open spec fn expire(self, now: SystemTime) -> StoreView {
        StoreView {
            records: Seq::new(self.records.len(), |i: int| self.records[i].expired(now)),
            ..self
        }
    }

    /// The store after one due record has been looked at: it is claimed, or
    /// it fails because no attempt is left. Either way a token is issued.
    pub open spec fn claim_one(
        self,
        i: int,
        worker: OutboxWorkerId,
        until: SystemTime,
    ) -> StoreView {
        let record = self.records[i];
        let token = (self.last_token + 1) as u64;
        StoreView {
            records: self.records.update(
                i,
                if record.attempt >= record.request.max_attempts@ {
                    RecordView {
                        status: InMemoryStatus::Failed(OutboxFailureKind::Exhausted),
                        ..record
                    }
                } else {
                    RecordView {
                        claim_count: (record.claim_count + 1) as u32,
                        status: InMemoryStatus::Claimed(OutboxLease { worker, token, until }),
                        ..record
                    }
                },
            ),
            last_token: token,
            ..self
        }
    }

    /// What claiming record `i` hands out.
    pub open spec fn claim_of(self, i: int, worker: OutboxWorkerId, until: SystemTime) -> ClaimView {
        let record = self.records[i];
        ClaimView {
            id: OutboxId { value: i as u64 },
            request: record.request,
            attempt: record.attempt,
            claim_count: (record.claim_count + 1) as u32,
            lease: OutboxLease { worker, token: (self.last_token + 1) as u64, until },
        }
    }

    /// Claims at most `limit` records of a list: the store afterwards and
    /// what is handed out.
    pub open spec fn claim_all(
        self,
        order: Seq<int>,
        worker: OutboxWorkerId,
        until: SystemTime,
        limit: nat,
    ) -> (StoreView, Seq<ClaimView>)
        decreases order.len(),
    {
        if order.len() == 0 || limit == 0 {
            (self, Seq::empty())
        } else {
            let i = order[0];
            let after = self.claim_one(i, worker, until);
            if self.records[i].attempt >= self.records[i].request.max_attempts@ {
                after.claim_all(order.drop_first(), worker, until, limit)
            } else {
                let (end, rest) = after.claim_all(
                    order.drop_first(),
                    worker,
                    until,
                    (limit - 1) as nat,
                );
                (end, seq![self.claim_of(i, worker, until)] + rest)
            }
        }
    }

    /// Claims what is due.
    pub open spec fn claim(
        self,
        worker: OutboxWorkerId,
        now: SystemTime,
        lease_for: Duration,
        limit: nat,
    ) -> (StoreView, Seq<ClaimView>) {
        let expired = self.expire(now);
        expired.claim_all(
            due_order(expired.records, now, expired.records.len()),
            worker,
            now.plus_or_self(lease_for),
            limit,
        )
    }

    /// The number of pending records among the first `n`.
    pub open spec fn pending(self, n: nat) -> nat
        decreases n,
    {
        if n == 0 {
            0
        } else {
            self.pending((n - 1) as nat) + if self.records[n - 1].status is Pending {
                1nat
            } else {
                0nat
            }
        }
    }
}

/// The records as they are known.
pub open spec fn record_views(records: Seq<InMemoryRecord>) -> Seq<RecordView> {
    Seq::new(records.len(), |i: int| records[i]@)
}

/// The positions as integers.
pub open spec fn positions(order: Seq<usize>) -> Seq<int> {
    Seq::new(order.len(), |i: int| order[i] as int)
}

/// What claims hand out.
pub open spec fn claim_views(claims: Seq<ClaimedOutboxRequest>) -> Seq<ClaimView> {
    Seq::new(claims.len(), |i: int| claims[i]@)
}

/// The due records hold positions of records.
proof fn lemma_placed_in_range(records: Seq<RecordView>, order: Seq<int>, id: int, n: int)
    requires
        0 <= id < n,
        forall|i: int| 0 <= i < order.len() ==> 0 <= #[trigger] order[i] < n,
    ensures
        placed(records, order, id).len() == order.len() + 1,
        forall|i: int|
            0 <= i < placed(records, order, id).len() ==> 0 <= #[trigger] placed(
                records,
                order,
                id,
            )[i] < n,
    decreases order.len(),
{
    if order.len() > 0 && !claimed_before(records, order.last(), id) {
        lemma_placed_in_range(records, order.drop_last(), id, n);
        assert(0 <= order[order.len() - 1] < n);
    }
}

pub proof fn lemma_due_in_range(records: Seq<RecordView>, now: SystemTime, n: nat)
    requires
        n <= records.len(),
    ensures
        due_order(records, now, n).len() <= n,
        forall|i: int|
            0 <= i < due_order(records, now, n).len() ==> 0 <= #[trigger] due_order(
                records,
                now,
                n,
            )[i] < n,
    decreases n,
{
    if n > 0 {
        lemma_due_in_range(records, now, (n - 1) as nat);
        let before = due_order(records, now, (n - 1) as nat);
        if records[n - 1].is_due(now) {
            lemma_placed_in_range(records, before, n - 1, n as int);
        }
    }
}

/// In-memory store. Production applications keep their records in a durable
/// database and follow the same rules.
#[derive(Clone, Debug)]
pub struct InMemoryOutboxStore {
    pub records: Vec<InMemoryRecord>,
    pub last_token: u64,
    pub fail_next_complete: bool,
}

impl InMemoryOutboxStore {
    pub open spec fn view(&self) -> StoreView {
        StoreView {
            records: record_views(self.records@),
            last_token: self.last_token,
            fail_next_complete: self.fail_next_complete,
        }
    }

    pub fn new() -> (r: Self)
        ensures
            r@ == StoreView::empty(),
    {
        let r = InMemoryOutboxStore {
            records: Vec::new(),
            last_token: 0,
            fail_next_complete: false,
        };
        assert(r@.records =~= Seq::empty());
        r
    }

    /// Makes the next `complete` fail, leaving the record claimed until its
    /// lease expires. This models a crash or database outage after the
    /// remote side effect succeeded.
    pub fn fail_next_complete(&mut self) -> (r: Result<(), InMemoryOutboxError>)
        ensures
            r is Ok,
            final(self)@ == (StoreView { fail_next_complete: true, ..old(self)@ }),
    {
        self.fail_next_complete = true;
        Ok(())
    }

    pub fn get(&self, id: OutboxId) -> (r: Result<Option<OutboxSnapshot>, InMemoryOutboxError>)
        ensures
            r matches Ok(found) && self@.finds(id, found),
    {
        if id.value < self.records.len() as u64 {
            Ok(Some(snapshot(id, &self.records[id.value as usize])))
        } else {
            Ok(None)
        }
    }

    pub fn pending_count(&self) -> (r: Result<usize, InMemoryOutboxError>)
        ensures
            r matches Ok(n) && n == self@.pending(self@.records.len()),
    {
        let mut count: usize = 0;
        let mut i: usize = 0;
        while i < self.records.len()
            invariant
                i <= self.records.len(),
                count <= i,
                count == self@.pending(i as nat),
            decreases self.records.len() - i,
        {
            assert(self@.records[i as int] == self.records@[i as int]@);
            if let InMemoryStatus::Pending = self.records[i].status {
                count = count + 1;
            }
            i = i + 1;
        }
        Ok(count)
    }

    fn find_key(&self, key: &String) -> (r: Option<usize>)
        ensures
            r is Some <==> self@.has_key(key@),
            r matches Some(i) ==> i < self.records.len()
                && self@.records[i as int].request.idempotency_key == key@,
    {
        let mut i: usize = 0;
        while i < self.records.len()
            invariant
                i <= self.records.len(),
                forall|j: int|
                    0 <= j < i ==> (#[trigger] self@.records[j]).request.idempotency_key != key@,
            decreases self.records.len() - i,
        {
            assert(self@.records[i as int] == self.records@[i as int]@);
            if self.records[i].request.idempotency_key == *key {
                return Some(i);
            }
            i = i + 1;
        }
        None
    }

    /// Stores a request. The same work under the same key is stored once;
    /// different work under a key in use is refused.
    pub fn enqueue(&mut self, request: NewOutboxRequest) -> (r: Result<
        OutboxEnqueueResult,
        InMemoryOutboxError,
    >)
        requires
            old(self)@.inv(),
        ensures
            final(self)@ == old(self)@.enqueue(request@),
            final(self)@.inv(),
            r == old(self)@.enqueue_result(request@),
    {
        let ghost before = self@;
        match self.find_key(&request.idempotency_key) {
            Some(i) => {
                let id = OutboxId { value: i as u64 };
                proof {
                    let j = before.under_key(request.idempotency_key@);
                    assert(before.records[i as int].request.idempotency_key
                        == request.idempotency_key@);
                    assert(i == j) by {
                        if i < j {
                            assert(before.records[i as int].request.idempotency_key
                                != before.records[j].request.idempotency_key);
                        } else if j < i {
                            assert(before.records[j].request.idempotency_key
                                != before.records[i as int].request.idempotency_key);
                        }
                    }
                    assert(before.records[i as int] == self.records@[i as int]@);
                }
                if same_request(&self.records[i].request, &request) {
                    Ok(OutboxEnqueueResult::Existing(id))
                } else {
                    Err(InMemoryOutboxError::Conflict { id })
                }
            },
            None => {
                let id = OutboxId { value: self.records.len() as u64 };
                let ghost said = request@;
                self.records.push(
                    InMemoryRecord {
                        request,
                        attempt: 0,
                        claim_count: 0,
                        status: InMemoryStatus::Pending,
                        last_failure: None,
                    },
                );
                proof {
                    assert(self@.records =~= before.enqueue(said).records);
                    assert forall|i: int, j: int|
                        0 <= i < j < self@.records.len() implies (
                    #[trigger] self@.records[i]).request.idempotency_key != (
                    #[trigger] self@.records[j]).request.idempotency_key by {
                        assert(self@.records[i] == before.records[i]);
                        if j < before.records.len() {
                            assert(self@.records[j] == before.records[j]);
                        }
                    }
                }
                Ok(OutboxEnqueueResult::Inserted(id))
            },
        }
    }

    /// Why a change under a lease is refused.
    fn find_refusal(&self, id: OutboxId, lease: OutboxLease, now: SystemTime) -> (r: Option<
        InMemoryOutboxError,
    >)
        ensures
            r == self@.refusal(id, lease, now),
            r is None ==> id.value < self.records.len(),
    {
        if id.value >= self.records.len() as u64 {
            return Some(InMemoryOutboxError::NotFound { id });
        }
        assert(self@.records[id.value as int] == self.records@[id.value as int]@);
        if lease_is_current(&self.records[id.value as usize].status, lease, now) {
            None
        } else {
            Some(InMemoryOutboxError::LeaseMismatch { id })
        }
    }

    /// Extends a lease that is still valid at `now`. The owner and the
    /// fencing token stay; the returned lease carries the new expiry.
    pub fn renew_lease(
        &mut self,
        id: OutboxId,
        lease: OutboxLease,
        until: SystemTime,
        now: SystemTime,
    ) -> (r: Result<OutboxLease, InMemoryOutboxError>)
        requires
            old(self)@.inv(),
        ensures
            final(self)@ == old(self)@.renew(id, lease, until, now),
            final(self)@.inv(),
            r == match old(self)@.refusal(id, lease, now) {
                Some(error) => Err(error),
                None => Ok(OutboxLease { until, ..lease }),
            },
    {
        let ghost before = self@;
        match self.find_refusal(id, lease, now) {
            Some(error) => Err(error),
            None => {
                let i: usize = id.value as usize;
                let renewed = OutboxLease { worker: lease.worker, token: lease.token, until };
                self.records[i].status = InMemoryStatus::Claimed(renewed);
                proof {
                    assert(self@ =~= before.renew(id, lease, until, now));
                    lemma_put_keeps_inv(before, id, self@.records[i as int]);
                }
                Ok(renewed)
            },
        }
    }

    /// Counts a delivery attempt immediately before it is made. Claims never
    /// count one.
    pub fn begin_attempt(&mut self, id: OutboxId, lease: OutboxLease, now: SystemTime) -> (r: Result<
        OutboxAttemptStart,
        InMemoryOutboxError,
    >)
        requires
            old(self)@.inv(),
        ensures
            final(self)@ == old(self)@.begin(id, lease, now),
            final(self)@.inv(),
            r == match old(self)@.refusal(id, lease, now) {
                Some(error) => Err(error),
                None => Ok(
                    if old(self)@.is_exhausted(id) {
                        OutboxAttemptStart::Exhausted
                    } else {
                        OutboxAttemptStart::Started {
                            attempt: (old(self)@.records[id.value as int].attempt + 1) as u32,
                        }
                    },
                ),
            },
    {
        let ghost before = self@;
        match self.find_refusal(id, lease, now) {
            Some(error) => Err(error),
            None => {
                let i: usize = id.value as usize;
                assert(before.records[i as int] == self.records@[i as int]@);
                let attempt: u32 = self.records[i].attempt;
                if attempt >= self.records[i].request.max_attempts.get() {
                    return Ok(OutboxAttemptStart::Exhausted);
                }
                self.records[i].attempt = attempt + 1;
                proof {
                    assert(self@ =~= before.begin(id, lease, now));
                    lemma_put_keeps_inv(before, id, self@.records[i as int]);
                }
                Ok(OutboxAttemptStart::Started { attempt: attempt + 1 })
            },
        }
    }

    /// Marks a record as delivered.
    pub fn complete(
        &mut self,
        id: OutboxId,
        lease: OutboxLease,
        _completed_at: SystemTime,
        now: SystemTime,
    ) -> (r: Result<(), InMemoryOutboxError>)
        requires
            old(self)@.inv(),
        ensures
            final(self)@ == old(self)@.complete(id, lease, now),
            final(self)@.inv(),
            r == (if old(self)@.fail_next_complete {
                Err::<(), InMemoryOutboxError>(InMemoryOutboxError::InjectedFailure)
            } else {
                match old(self)@.refusal(id, lease, now) {
                    Some(error) => Err(error),
                    None => Ok(()),
                }
            }),
    {
        let ghost before = self@;
        if self.fail_next_complete {
            self.fail_next_complete = false;
            return Err(InMemoryOutboxError::InjectedFailure);
        }
        match self.find_refusal(id, lease, now) {
            Some(error) => Err(error),
            None => {
                let i: usize = id.value as usize;
                assert(before.records[i as int] == self.records@[i as int]@);
                self.records[i].status = InMemoryStatus::Completed;
                proof {
                    assert(self@ =~= before.complete(id, lease, now));
                    lemma_put_keeps_inv(before, id, self@.records[i as int]);
                }
                Ok(())
            },
        }
    }

    /// Makes a record available again later.
    pub fn reschedule(
        &mut self,
        id: OutboxId,
        lease: OutboxLease,
        retry: OutboxRetry,
        now: SystemTime,
    ) -> (r: Result<(), InMemoryOutboxError>)
        requires
            old(self)@.inv(),
        ensures
            final(self)@ == old(self)@.reschedule(id, lease, retry, now),
            final(self)@.inv(),
            r == match old(self)@.refusal(id, lease, now) {
                Some(error) => Err(error),
                None => Ok(()),
            },
    {
        let ghost before = self@;
        match self.find_refusal(id, lease, now) {
            Some(error) => Err(error),
            None => {
                let i: usize = id.value as usize;
                assert(before.records[i as int] == self.records@[i as int]@);
                self.records[i].request.available_at = retry.available_at;
                self.records[i].last_failure = Some(retry.failure.kind);
                self.records[i].status = InMemoryStatus::Pending;
                proof {
                    assert(self@ =~= before.reschedule(id, lease, retry, now));
                    lemma_put_keeps_inv(before, id, self@.records[i as int]);
                }
                Ok(())
            },
        }
    }

    /// Gives a record up.
    pub fn fail(
        &mut self,
        id: OutboxId,
        lease: OutboxLease,
        failure: OutboxFailure,
        now: SystemTime,
    ) -> (r: Result<(), InMemoryOutboxError>)
        requires
            old(self)@.inv(),
        ensures
            final(self)@ == old(self)@.fail(id, lease, failure, now),
            final(self)@.inv(),
            r == match old(self)@.refusal(id, lease, now) {
                Some(error) => Err(error),
                None => Ok(()),
            },
    {
        let ghost before = self@;
        match self.find_refusal(id, lease, now) {
            Some(error) => Err(error),
            None => {
                let i: usize = id.value as usize;
                assert(before.records[i as int] == self.records@[i as int]@);
                self.records[i].last_failure = Some(failure.kind);
                self.records[i].status = InMemoryStatus::Failed(failure.kind);
                proof {
                    assert(self@ =~= before.fail(id, lease, failure, now));
                    lemma_put_keeps_inv(before, id, self@.records[i as int]);
                }
                Ok(())
            },
        }
    }

    /// Ends every lease that has expired by `now`.
    fn end_expired(&mut self, now: SystemTime)
        ensures
            final(self)@ == old(self)@.expire(now),
    {
        let ghost before = self@;
        let mut i: usize = 0;
        while i < self.records.len()
            invariant
                i <= self.records.len(),
                self.records.len() == before.records.len(),
                self.last_token == before.last_token,
                self.fail_next_complete == before.fail_next_complete,
                forall|j: int|
                    0 <= j < i ==> (#[trigger] self.records@[j])@ == before.records[j].expired(now),
                forall|j: int|
                    i <= j < self.records.len() ==> (#[trigger] self.records@[j])@
                        == before.records[j],
            decreases self.records.len() - i,
        {
            if let InMemoryStatus::Claimed(lease) = self.records[i].status {
                if lease.until.nanos <= now.nanos {
                    self.records[i].status = InMemoryStatus::Pending;
                }
            }
            i = i + 1;
        }
        assert(self@ =~= before.expire(now));
    }

    /// The due records in the order in which they are claimed.
    fn due(&self, now: SystemTime) -> (r: Vec<usize>)
        ensures
            positions(r@) == due_order(self@.records, now, self@.records.len()),
    {
        let mut order: Vec<usize> = Vec::new();
        let mut i: usize = 0;
        assert(positions(order@) =~= Seq::empty());
        while i < self.records.len()
            invariant
                i <= self.records.len(),
                positions(order@) == due_order(self@.records, now, i as nat),
            decreases self.records.len() - i,
        {
            proof {
                lemma_due_in_range(self@.records, now, i as nat);
                assert forall|j: int| 0 <= j < order.len() implies #[trigger] order@[j] < i by {
                    assert(positions(order@)[j] == order@[j]);
                }
            }
            assert(self@.records[i as int] == self.records@[i as int]@);
            let due = match self.records[i].status {
                InMemoryStatus::Pending => self.records[i].request.available_at.nanos
                    <= now.nanos,
                _ => false,
            };
            if due {
                self.place(&mut order, i);
            }
            i = i + 1;
        }
        order
    }

    /// Puts a record at its place in the order.
    fn place(&self, order: &mut Vec<usize>, id: usize)
        requires
            id < self.records.len(),
            forall|j: int| 0 <= j < old(order).len() ==> #[trigger] old(order)@[j] < id,
        ensures
            positions(final(order)@) == placed(
                self@.records,
                positions(old(order)@),
                id as int,
            ),
        decreases old(order).len(),
    {
        let ghost before = order@;
        let n: usize = order.len();
        if n > 0 {
            let last: usize = order[n - 1];
            assert(self@.records[last as int] == self.records@[last as int]@);
            assert(self@.records[id as int] == self.records@[id as int]@);
            assert(positions(before).last() == last as int);
            let x: u64 = self.records[last].request.available_at.nanos;
            let y: u64 = self.records[id].request.available_at.nanos;
            if x < y || x == y && last < id {
                order.push(id);
                assert(positions(order@) =~= positions(before).push(id as int));
            } else {
                order.pop();
                assert(positions(order@) =~= positions(before).drop_last());
                assert forall|j: int| 0 <= j < order.len() implies #[trigger] order@[j] < id by {
                    assert(order@[j] == before[j]);
                }
                self.place(order, id);
                let ghost mid = order@;
                order.push(last);
                assert(positions(order@) =~= positions(mid).push(last as int));
            }
        } else {
            order.push(id);
            assert(positions(order@) =~= positions(before).push(id as int));
        }
    }

    /// Claims at most `limit` due records, those that became available first
    /// before others. Expired leases end first. A due record without an
    /// attempt left fails instead of being claimed.
    pub fn claim_due(
        &mut self,
        worker: OutboxWorkerId,
        now: SystemTime,
        lease_for: Duration,
        limit: usize,
    ) -> (r: Result<Vec<ClaimedOutboxRequest>, InMemoryOutboxError>)
        requires
            old(self)@.inv(),
            old(self)@.last_token + old(self)@.records.len() <= u64::MAX,
            forall|i: int|
                0 <= i < old(self)@.records.len() ==> (
                #[trigger] old(self)@.records[i]).claim_count < u32::MAX,
        ensures
            r is Ok,
            final(self)@ == old(self)@.claim(worker, now, lease_for, limit as nat).0,
            final(self)@.inv(),
            claim_views(r->Ok_0@) == old(self)@.claim(worker, now, lease_for, limit as nat).1,
    {
        let ghost start = self@;
        self.end_expired(now);
        let ghost expired = self@;
        proof {
            lemma_expire_keeps_inv(start, now);
            lemma_due_in_range(expired.records, now, expired.records.len());
        }
        let order = self.due(now);
        let until = now.plus_or_self(lease_for);
        let mut claimed: Vec<ClaimedOutboxRequest> = Vec::new();
        let mut k: usize = 0;
        let ghost whole = positions(order@);
        let ghost goal = expired.claim_all(whole, worker, until, limit as nat);
        proof {
            lemma_due_distinct(expired.records, now, expired.records.len());
            assert forall|j: int| 0 <= j < order.len() implies {
                &&& (#[trigger] order@[j]) < self.records.len()
                &&& expired.records[order@[j] as int].claim_count < u32::MAX
                &&& expired.records[order@[j] as int].status is Pending
            } by {
                assert(whole[j] == order@[j]);
                assert(expired.records[whole[j]].is_due(now));
                assert(start.records[whole[j]].claim_count < u32::MAX);
            }
            assert(whole.skip(0) =~= whole);
            assert(claim_views(claimed@) + goal.1 =~= goal.1);
        }
        while k < order.len() && claimed.len() < limit
            invariant
                k <= order.len(),
                claimed.len() <= limit,
                claimed.len() <= k,
                whole == positions(order@),
                whole.len() <= start.records.len(),
                distinct(whole),
                self@.inv(),
                self@.records.len() == start.records.len(),
                self.last_token == start.last_token + k,
                start.last_token + start.records.len() <= u64::MAX,
                forall|j: int|
                    0 <= j < order.len() ==> (#[trigger] order@[j]) < self.records.len(),
                forall|j: int|
                    k <= j < order.len() ==> self@.records[(
                    #[trigger] order@[j]) as int].claim_count < u32::MAX
                        && self@.records[order@[j] as int].status is Pending,
                goal.0 == self@.claim_all(
                    whole.skip(k as int),
                    worker,
                    until,
                    (limit - claimed.len()) as nat,
                ).0,
                goal.1 == claim_views(claimed@) + self@.claim_all(
                    whole.skip(k as int),
                    worker,
                    until,
                    (limit - claimed.len()) as nat,
                ).1,
            decreases order.len() - k,
        {
            let i: usize = order[k];
            let ghost before = self@;
            let ghost handed = claim_views(claimed@);
            let ghost rest = whole.skip(k as int);
            assert(rest[0] == i as int);
            assert(rest.drop_first() =~= whole.skip(k + 1));
            assert(before.records[i as int] == self.records@[i as int]@);
            let token: u64 = self.last_token + 1;
            self.last_token = token;
            if self.records[i].attempt >= self.records[i].request.max_attempts.get() {
                self.records[i].status = InMemoryStatus::Failed(OutboxFailureKind::Exhausted);
                proof {
                    assert(self@ =~= before.claim_one(i as int, worker, until));
                }
            } else {
                let count: u32 = self.records[i].claim_count + 1;
                let lease = OutboxLease { worker, token, until };
                self.records[i].claim_count = count;
                self.records[i].status = InMemoryStatus::Claimed(lease);
                let request = &self.records[i].request;
                let claim = ClaimedOutboxRequest {
                    id: OutboxId { value: i as u64 },
                    idempotency_key: request.idempotency_key.clone(),
                    payload: copy_bytes(&request.payload),
                    payload_version: request.payload_version,
                    metadata: request.metadata,
                    available_at: request.available_at,
                    attempt: self.records[i].attempt,
                    claim_count: count,
                    max_attempts: request.max_attempts,
                    lease,
                };
                let ghost said = claim@;
                claimed.push(claim);
                proof {
                    assert(self@ =~= before.claim_one(i as int, worker, until));
                    assert(said =~= before.claim_of(i as int, worker, until));
                    let tail = self@.claim_all(
                        rest.drop_first(),
                        worker,
                        until,
                        (limit - claimed.len()) as nat,
                    );
                    assert(before.claim_all(
                        rest,
                        worker,
                        until,
                        (limit - claimed.len() + 1) as nat,
                    ) == (tail.0, seq![said] + tail.1));
                    assert(claim_views(claimed@) =~= handed.push(said));
                    assert(claim_views(claimed@) + tail.1 =~= handed + (seq![said] + tail.1));
                }
            }
            proof {
                lemma_claim_one_keeps_inv(before, i as int, worker, until);
                assert forall|j: int| k + 1 <= j < order.len() implies self@.records[(
                #[trigger] order@[j]) as int].claim_count < u32::MAX
                    && self@.records[order@[j] as int].status is Pending by {
                    assert(whole[j] != whole[k as int]);
                    assert(self@.records[order@[j] as int] == before.records[order@[j] as int]);
                }
            }
            k = k + 1;
        }
        Ok(claimed)
    }
}

/// Whether no position is listed twice.
pub open spec fn distinct(order: Seq<int>) -> bool {
    forall|i: int, j: int| 0 <= i < j < order.len() ==> #[trigger] order[i] != #[trigger] order[j]
}

proof fn lemma_placed_members(records: Seq<RecordView>, order: Seq<int>, id: int)
    requires
        distinct(order),
        !order.contains(id),
    ensures
        distinct(placed(records, order, id)),
        forall|x: int| #[trigger]
            placed(records, order, id).contains(x) <==> x == id || order.contains(x),
    decreases order.len(),
{
    let after = placed(records, order, id);
    if order.len() == 0 || claimed_before(records, order.last(), id) {
        assert(after == order.push(id));
        assert forall|x: int| #[trigger] after.contains(x) <==> x == id || order.contains(x) by {
            if x == id {
                assert(after[order.len() as int] == x);
            }
            if order.contains(x) {
                let i = choose|i: int| 0 <= i < order.len() && order[i] == x;
                assert(after[i] == x);
            }
        }
        assert forall|i: int, j: int| 0 <= i < j < after.len() implies #[trigger] after[i]
            != #[trigger] after[j] by {
            assert(after[i] == order[i]);
            if j < order.len() {
                assert(after[j] == order[j]);
            } else {
                assert(order.contains(order[i]));
            }
        }
    } else {
        let front = order.drop_last();
        let last = order.last();
        assert(!front.contains(id)) by {
            if front.contains(id) {
                let i = choose|i: int| 0 <= i < front.len() && front[i] == id;
                assert(order[i] == id);
            }
        }
        lemma_placed_members(records, front, id);
        let mid = placed(records, front, id);
        assert(after == mid.push(last));
        assert(order[order.len() - 1] == last);
        assert(!front.contains(last)) by {
            if front.contains(last) {
                let i = choose|i: int| 0 <= i < front.len() && front[i] == last;
                assert(order[i] == order[order.len() - 1]);
            }
        }
        assert forall|x: int| #[trigger] after.contains(x) <==> x == id || order.contains(x) by {
            if after.contains(x) {
                let i = choose|i: int| 0 <= i < after.len() && after[i] == x;
                if i < mid.len() {
                    assert(mid[i] == x);
                    assert(mid.contains(x));
                    if x != id {
                        let j = choose|j: int| 0 <= j < front.len() && front[j] == x;
                        assert(order[j] == x);
                    }
                }
            }
            if order.contains(x) {
                let i = choose|i: int| 0 <= i < order.len() && order[i] == x;
                if i < front.len() {
                    assert(front[i] == x);
                    assert(mid.contains(x));
                    let j = choose|j: int| 0 <= j < mid.len() && mid[j] == x;
                    assert(after[j] == x);
                } else {
                    assert(after[mid.len() as int] == x);
                }
            }
            if x == id {
                assert(mid.contains(x));
                let j = choose|j: int| 0 <= j < mid.len() && mid[j] == x;
                assert(after[j] == x);
            }
        }
        assert forall|i: int, j: int| 0 <= i < j < after.len() implies #[trigger] after[i]
            != #[trigger] after[j] by {
            assert(after[i] == mid[i]);
            assert(mid.contains(mid[i]));
            if j < mid.len() {
                assert(after[j] == mid[j]);
            } else {
                assert(last != id) by {
                    assert(order.contains(last));
                }
            }
        }
    }
}

/// The due records are listed once each.
pub proof fn lemma_due_distinct(records: Seq<RecordView>, now: SystemTime, n: nat)
    requires
        n <= records.len(),
    ensures
        distinct(due_order(records, now, n)),
        forall|x: int| #[trigger]
            due_order(records, now, n).contains(x) <==> 0 <= x < n && records[x].is_due(now),
        forall|i: int|
            0 <= i < due_order(records, now, n).len() ==> records[#[trigger] due_order(
                records,
                now,
                n,
            )[i]].is_due(now),
    decreases n,
{
    if n > 0 {
        let before = due_order(records, now, (n - 1) as nat);
        lemma_due_distinct(records, now, (n - 1) as nat);
        if records[n - 1].is_due(now) {
            assert(!before.contains(n - 1));
            lemma_placed_members(records, before, n - 1);
        }
    }
    let order = due_order(records, now, n);
    assert forall|i: int| 0 <= i < order.len() implies records[#[trigger] order[i]].is_due(
        now,
    ) by {
        assert(order.contains(order[i]));
    }
}

/// Changing a record under its own lease, or ending the claim, keeps the
/// store in order.
pub proof fn lemma_put_keeps_inv(s: StoreView, id: OutboxId, record: RecordView)
    requires
        s.inv(),
        id.value < s.records.len(),
        record.request.idempotency_key == s.records[id.value as int].request.idempotency_key,
        record.attempt <= record.request.max_attempts@,
        record.status matches InMemoryStatus::Claimed(lease) ==> (
        s.records[id.value as int].status matches InMemoryStatus::Claimed(held) && held.token
            == lease.token),
    ensures
        s.put(id, record).inv(),
{
    let after = s.put(id, record);
    let k = id.value as int;
    assert(s.records[k].attempt <= s.records[k].request.max_attempts@);
    assert forall|i: int, j: int| 0 <= i < j < after.records.len() implies (
    #[trigger] after.records[i]).request.idempotency_key != (
    #[trigger] after.records[j]).request.idempotency_key by {
        assert(s.records[i].request.idempotency_key != s.records[j].request.idempotency_key);
    }
    assert forall|i: int| 0 <= i < after.records.len() implies {
        let r = #[trigger] after.records[i];
        &&& r.attempt <= r.request.max_attempts@
        &&& r.status matches InMemoryStatus::Claimed(lease) ==> lease.token <= after.last_token
    } by {
        assert(s.records[i].attempt <= s.records[i].request.max_attempts@);
    }
    assert forall|i: int, j: int| 0 <= i < j < after.records.len() implies {
        (#[trigger] after.records[i]).status matches InMemoryStatus::Claimed(a) ==> (
        #[trigger] after.records[j]).status matches InMemoryStatus::Claimed(b) ==> a.token
            != b.token
    } by {
        let x = s.records[i];
        let y = s.records[j];
    }
}

pub proof fn lemma_expire_keeps_inv(s: StoreView, now: SystemTime)
    requires
        s.inv(),
    ensures
        s.expire(now).inv(),
{
    let after = s.expire(now);
    assert forall|i: int, j: int| 0 <= i < j < after.records.len() implies (
    #[trigger] after.records[i]).request.idempotency_key != (
    #[trigger] after.records[j]).request.idempotency_key by {
        assert(s.records[i].request.idempotency_key != s.records[j].request.idempotency_key);
    }
    assert forall|i: int| 0 <= i < after.records.len() implies {
        let r = #[trigger] after.records[i];
        &&& r.attempt <= r.request.max_attempts@
        &&& r.status matches InMemoryStatus::Claimed(lease) ==> lease.token <= after.last_token
    } by {
        assert(s.records[i].attempt <= s.records[i].request.max_attempts@);
    }
    assert forall|i: int, j: int| 0 <= i < j < after.records.len() implies {
        (#[trigger] after.records[i]).status matches InMemoryStatus::Claimed(a) ==> (
        #[trigger] after.records[j]).status matches InMemoryStatus::Claimed(b) ==> a.token
            != b.token
    } by {
        let x = s.records[i];
        let y = s.records[j];
    }
}

pub proof fn lemma_claim_one_keeps_inv(
    s: StoreView,
    k: int,
    worker: OutboxWorkerId,
    until: SystemTime,
)
    requires
        s.inv(),
        0 <= k < s.records.len(),
        s.last_token < u64::MAX,
    ensures
        s.claim_one(k, worker, until).inv(),
{
    let after = s.claim_one(k, worker, until);
    assert forall|i: int, j: int| 0 <= i < j < after.records.len() implies (
    #[trigger] after.records[i]).request.idempotency_key != (
    #[trigger] after.records[j]).request.idempotency_key by {
        assert(s.records[i].request.idempotency_key != s.records[j].request.idempotency_key);
    }
    assert forall|i: int| 0 <= i < after.records.len() implies {
        let r = #[trigger] after.records[i];
        &&& r.attempt <= r.request.max_attempts@
        &&& r.status matches InMemoryStatus::Claimed(lease) ==> lease.token <= after.last_token
    } by {
        assert(s.records[i].attempt <= s.records[i].request.max_attempts@);
    }
    assert forall|i: int, j: int| 0 <= i < j < after.records.len() implies {
        (#[trigger] after.records[i]).status matches InMemoryStatus::Claimed(a) ==> (
        #[trigger] after.records[j]).status matches InMemoryStatus::Claimed(b) ==> a.token
            != b.token
    } by {
        let x = s.records[i];
        let y = s.records[j];
    }
}

/// Whether two byte strings are equal.
fn same_bytes(a: &Vec<u8>, b: &Vec<u8>) -> (r: bool)
    ensures
        r == (a@ == b@),
{
    if a.len() != b.len() {
        return false;
    }
    let mut i: usize = 0;
    while i < a.len()
        invariant
            i <= a.len(),
            a.len() == b.len(),
            forall|j: int| 0 <= j < i ==> a@[j] == b@[j],
        decreases a.len() - i,
    {
        if a[i] != b[i] {
            return false;
        }
        i = i + 1;
    }
    assert(a@ =~= b@);
    true
}

fn copy_bytes(a: &Vec<u8>) -> (r: Vec<u8>)
    ensures
        r@ == a@,
{
    let mut r: Vec<u8> = Vec::new();
    let mut i: usize = 0;
    while i < a.len()
        invariant
            i <= a.len(),
            r@ == a@.take(i as int),
        decreases a.len() - i,
    {
        r.push(a[i]);
        i = i + 1;
        assert(r@ =~= a@.take(i as int));
    }
    assert(r@ =~= a@);
    r
}

/// Whether two requests under one key are the same work.
fn same_request(left: &NewOutboxRequest, right: &NewOutboxRequest) -> (r: bool)
    ensures
        r == agree(left@, right@),
{
    same_bytes(&left.payload, &right.payload) && left.payload_version == right.payload_version
        && left.metadata == right.metadata && left.max_attempts.same(right.max_attempts)
}

/// Whether `lease` holds a record in this state at `now`.
pub fn lease_is_current(status: &InMemoryStatus, lease: OutboxLease, now: SystemTime) -> (r: bool)
    ensures
        r == holds(*status, lease, now),
{
    match status {
        InMemoryStatus::Claimed(current) => *current == lease && current.until.nanos > now.nanos,
        _ => false,
    }
}

/// What is shown of a record.
pub fn snapshot(id: OutboxId, record: &InMemoryRecord) -> (r: OutboxSnapshot)
    ensures
        shows(r, id, record@),
{
    let status = match record.status {
        InMemoryStatus::Pending => OutboxStatus::Pending,
        InMemoryStatus::Claimed(_) => OutboxStatus::Claimed,
        InMemoryStatus::Completed => OutboxStatus::Completed,
        InMemoryStatus::Failed(kind) => OutboxStatus::Failed(kind),
    };
    let lease = match record.status {
        InMemoryStatus::Claimed(lease) => Some(lease),
        _ => None,
    };
    OutboxSnapshot {
        id,
        idempotency_key: record.request.idempotency_key.clone(),
        status,
        attempt: record.attempt,
        claim_count: record.claim_count,
        max_attempts: record.request.max_attempts,
        available_at: record.request.available_at,
        payload_version: record.request.payload_version,
        metadata: record.request.metadata,
        lease,
        last_failure: record.last_failure,
    }
}

} // verus!
