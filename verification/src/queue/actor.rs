//! The actor: commands in, replies out.

use crate::idmap::IdMap;
use crate::scheduler::laws as scheduling;
use crate::scheduler::model;
use crate::scheduler::model::SchedulerView;
use crate::scheduler::state::SchedulerState;
use crate::time::{Duration, Instant};
use crate::types::{
    EnqueueError, Grant, JobId, OutboundCompletion, OutboundEnqueueMode, OutboundLaneKey,
    OutboundLimits, OutboundMeta, OutboundMetadata, OutboundQueueError, OutboundScope,
    OutboundSettings, OutboundSnapshot, SchedulerConfigError, SchedulerWakeup, WindowLimit,
};
use vstd::prelude::*;

verus! {

/// Maximum number of lifecycle commands handled in a row. Completions and
/// cancellations that have arrived go before new acquires; the bound keeps a
/// busy producer of them from starving acquires.
pub const LIFECYCLE_DRAIN_BATCH: usize = 64;

/// How far ahead the timer is parked when nothing time-based will change:
/// one year.
pub const PARKED_NANOS: u64 = 31_536_000_000_000_000;

/// A command to the actor.
#[derive(Debug, PartialEq, Eq)]
pub enum QueueCommand {
    Enqueue {
        metadata: OutboundMetadata,
        lane: Option<OutboundLaneKey>,
        mode: OutboundEnqueueMode,
    },
    /// The caller took the reply to its enqueue and waits for the grant.
    ReplyTaken { job_id: JobId },
    /// The caller was gone before the reply to its enqueue reached it.
    ReplyLost { job_id: JobId },
    Cancel { job_id: JobId },
    /// The request of a granted job starts.
    Start { job_id: JobId },
    Complete { job_id: JobId, outcome: OutboundCompletion },
    Penalize { scope: OutboundScope, duration: Duration },
    GetLimits,
    SetLimits { limits: OutboundLimits },
    GetSnapshot,
}

/// What the actor answers.
#[derive(Debug, PartialEq, Eq)]
pub enum QueueReply {
    /// The job is pending. The waiter of the job it replaced, if there is
    /// one, has to be told.
    Enqueued { job: JobId, superseded: Option<JobId> },
    Refused(OutboundQueueError),
    Done,
    Limits(OutboundLimits),
    LimitsSet(Result<(), SchedulerConfigError>),
    Snapshot(OutboundSnapshot),
}

/// A grant on its way: to its waiter, or back as cancelled if nobody waits.
#[derive(Clone, Copy, Debug, PartialEq, Eq, Structural)]
pub struct Delivered {
    pub job: JobId,
    pub waited: bool,
}

/// What the actor knows.
#[verifier::ext_equal]
pub struct QueueView {
    pub scheduler: SchedulerView,
    /// Jobs somebody waits for.
    pub waiters: Set<u64>,
    /// How many jobs may be pending.
    pub capacity: usize,
}

/// The metadata of a request of a lane.
pub open spec fn meta_of(
    metadata: OutboundMetadata,
    lane: Option<OutboundLaneKey>,
) -> OutboundMeta {
    OutboundMeta {
        scope: metadata.scope,
        lane,
        class: metadata.class,
        priority: metadata.priority,
        weight: metadata.weight,
    }
}

/// What a refused enqueue is told.
pub open spec fn queue_error_of(error: EnqueueError) -> OutboundQueueError {
    match error {
        EnqueueError::QueueFull => OutboundQueueError::QueueFull,
        EnqueueError::IncompatibleCoalesceMetadata =>
            OutboundQueueError::IncompatibleCoalesceMetadata,
        EnqueueError::WeightExceedsWindow { scope, weight, capacity } =>
            OutboundQueueError::WeightExceedsWindow { scope, weight, capacity },
    }
}

impl QueueView {
    /// The state is sound, and whoever waits waits for a pending job.
    pub open spec fn inv(self) -> bool {
        &&& self.scheduler.inv()
        &&& forall|k: u64| #[trigger]
            self.waiters.contains(k) ==> self.scheduler.jobs.contains_key(k)
    }

    /// Why an enqueue is refused. A replacement does not grow the backlog
    /// and is admitted at capacity.
    pub open spec fn enqueue_refusal(
        self,
        meta: OutboundMeta,
        mode: OutboundEnqueueMode,
    ) -> Option<EnqueueError> {
        match self.scheduler.refusal(meta, mode) {
            Some(error) => Some(error),
            None => if self.scheduler.jobs.dom().len() >= self.capacity
                && self.scheduler.replaced_by(meta, mode) is None {
                Some(EnqueueError::QueueFull)
            } else {
                None
            },
        }
    }

    /// The waiter a replacement leaves without a job.
    pub open spec fn superseded(self, meta: OutboundMeta, mode: OutboundEnqueueMode) -> Option<
        JobId,
    > {
        match self.scheduler.replaced_by(meta, mode) {
            Some(old) => if self.waiters.contains(old.value) {
                Some(old)
            } else {
                None
            },
            None => None,
        }
    }

    /// The state after a command.
    pub open spec fn handle(self, command: QueueCommand, now: Instant) -> QueueView {
        match command {
            QueueCommand::Enqueue { metadata, lane, mode } => {
                let meta = meta_of(metadata, lane);
                if self.enqueue_refusal(meta, mode) is Some {
                    self
                } else {
                    QueueView {
                        scheduler: self.scheduler.enqueue(meta, mode, None, now),
                        waiters: match self.superseded(meta, mode) {
                            Some(old) => self.waiters.remove(old.value),
                            None => self.waiters,
                        },
                        ..self
                    }
                }
            },
            QueueCommand::ReplyTaken { job_id } => if self.scheduler.jobs.contains_key(
                job_id.value,
            ) {
                QueueView { waiters: self.waiters.insert(job_id.value), ..self }
            } else {
                self
            },
            QueueCommand::ReplyLost { job_id } | QueueCommand::Cancel { job_id } => QueueView {
                scheduler: self.scheduler.cancel_at(job_id, now),
                waiters: self.waiters.remove(job_id.value),
                ..self
            },
            QueueCommand::Start { job_id } => QueueView {
                scheduler: self.scheduler.start(job_id, now),
                ..self
            },
            QueueCommand::Complete { job_id, outcome } => QueueView {
                scheduler: self.scheduler.complete(job_id, outcome, now),
                ..self
            },
            QueueCommand::Penalize { scope, duration } => if duration.nanos == 0 {
                self
            } else {
                QueueView {
                    scheduler: self.scheduler.penalize(scope, now.plus(duration)),
                    ..self
                }
            },
            QueueCommand::SetLimits { limits } => QueueView {
                scheduler: self.scheduler.set_limits(limits, now),
                ..self
            },
            QueueCommand::GetLimits => self,
            QueueCommand::GetSnapshot => self,
        }
    }

    /// Whether `reply` answers the command.
    pub open spec fn answers(self, command: QueueCommand, reply: QueueReply) -> bool {
        match command {
            QueueCommand::Enqueue { metadata, lane, mode } => {
                let meta = meta_of(metadata, lane);
                match self.enqueue_refusal(meta, mode) {
                    Some(error) => reply == QueueReply::Refused(queue_error_of(error)),
                    None => reply == (QueueReply::Enqueued {
                        job: JobId { value: self.scheduler.next_job_id },
                        superseded: self.superseded(meta, mode),
                    }),
                }
            },
            QueueCommand::GetLimits => reply matches QueueReply::Limits(limits) && limits.global@
                == self.scheduler.global_limits && limits.chat@ == self.scheduler.chat_limits,
            QueueCommand::SetLimits { limits } => reply matches QueueReply::LimitsSet(result)
                && match self.scheduler.limits_refusal(limits) {
                Some(error) => result == Err::<(), SchedulerConfigError>(error),
                None => result is Ok,
            },
            QueueCommand::GetSnapshot => reply matches QueueReply::Snapshot(s) && {
                &&& s.pending == self.scheduler.jobs.dom().len()
                &&& s.in_flight == self.scheduler.in_flight.dom().len()
                &&& s.blocked == self.scheduler.blocked_candidates()
                &&& s.delayed == self.scheduler.delayed_jobs().len()
                &&& s.candidates == self.scheduler.candidates.len()
                &&& s.reservations == self.scheduler.reservations.len()
            },
            _ => reply is Done,
        }
    }

    /// The state after an admission pass: whoever waited for a granted job
    /// waits no more.
    pub open spec fn admission_pass(self, now: Instant) -> QueueView {
        QueueView {
            scheduler: self.scheduler.grant_ready(now).trimmed(),
            waiters: self.waiters.filter(
                |k: u64| !scheduling::names(self.scheduler.grants(now), k),
            ),
            ..self
        }
    }

    /// Where the grants of an admission pass go.
    pub open spec fn deliveries(self, now: Instant) -> Seq<Delivered> {
        let grants = self.scheduler.grants(now);
        Seq::new(
            grants.len(),
            |i: int|
                Delivered {
                    job: grants[i].job,
                    waited: self.waiters.contains(grants[i].job.value),
                },
        )
    }
}

/// When the timer has to go off.
pub open spec fn timer_at(wakeup: SchedulerWakeup, now: Instant) -> Instant {
    match wakeup {
        SchedulerWakeup::At(at) => at,
        SchedulerWakeup::Immediate => now,
        SchedulerWakeup::ExternalEvent => now.plus(Duration { nanos: PARKED_NANOS }),
    }
}

/// When the timer has to go off.
pub fn timer_deadline(wakeup: SchedulerWakeup, now: Instant) -> (r: Instant)
    ensures
        r == timer_at(wakeup, now),
{
    match wakeup {
        SchedulerWakeup::At(at) => at,
        SchedulerWakeup::Immediate => now,
        SchedulerWakeup::ExternalEvent => now.plus(Duration { nanos: PARKED_NANOS }),
    }
}

fn copy_limits(limits: &Vec<WindowLimit>) -> (r: Vec<WindowLimit>)
    ensures
        r@ == limits@,
{
    let mut r: Vec<WindowLimit> = Vec::new();
    let mut i: usize = 0;
    while i < limits.len()
        invariant
            i <= limits.len(),
            r@ == limits@.take(i as int),
        decreases limits.len() - i,
    {
        r.push(limits[i]);
        i = i + 1;
        assert(r@ =~= limits@.take(i as int));
    }
    assert(r@ =~= limits@);
    r
}

/// The actor's state.
pub struct OutboundActor {
    pub scheduler: SchedulerState,
    pub waiters: IdMap<()>,
    pub queue_capacity: usize,
}

impl OutboundActor {
    pub open spec fn wf(&self) -> bool {
        self.scheduler.wf() && self@.inv()
    }

    pub open spec fn view(&self) -> QueueView {
        QueueView {
            scheduler: self.scheduler@,
            waiters: self.waiters@.dom(),
            capacity: self.queue_capacity,
        }
    }

    /// A queue nobody has used, unless the settings are faulty. A capacity
    /// of zero could admit nothing.
    pub fn new(settings: OutboundSettings) -> (r: Result<Self, SchedulerConfigError>)
        ensures
            match r {
                Ok(actor) => {
                    &&& settings.queue_capacity > 0
                    &&& model::config_fault(settings.limits, settings.aging) is None
                    &&& actor.wf()
                    &&& actor@ == (QueueView {
                        scheduler: SchedulerView::fresh(settings.limits, settings.aging),
                        waiters: Set::empty(),
                        capacity: settings.queue_capacity,
                    })
                },
                Err(error) => if settings.queue_capacity == 0 {
                    error == SchedulerConfigError::ZeroQueueCapacity
                } else {
                    model::config_fault(settings.limits, settings.aging) == Some(error)
                },
            },
    {
        if settings.queue_capacity == 0 {
            return Err(SchedulerConfigError::ZeroQueueCapacity);
        }
        let queue_capacity: usize = settings.queue_capacity;
        let ghost limits = settings.limits;
        match SchedulerState::new(settings.limits, settings.aging) {
            Ok(scheduler) => {
                proof {
                    scheduling::law_new_scheduler_is_sound(limits, settings.aging);
                }
                let actor = OutboundActor { scheduler, waiters: IdMap::new(), queue_capacity };
                assert(actor@.waiters =~= Set::empty());
                Ok(actor)
            },
            Err(error) => Err(error),
        }
    }

    /// Handles one command.
    pub fn handle_command(&mut self, command: QueueCommand, now: Instant) -> (r: QueueReply)
        requires
            old(self).wf(),
            old(self)@.scheduler.next_job_id < u64::MAX,
        ensures
            final(self).wf(),
            final(self)@ == old(self)@.handle(command, now),
            old(self)@.answers(command, r),
    {
        let ghost before = self@;
        match command {
            QueueCommand::Enqueue { metadata, lane, mode } => self.handle_enqueue(
                metadata,
                lane,
                mode,
                now,
            ),
            QueueCommand::ReplyTaken { job_id } => {
                if self.scheduler.jobs.contains(job_id.value) {
                    self.waiters.insert(job_id.value, ());
                }
                assert(self@ =~= before.handle(command, now));
                QueueReply::Done
            },
            QueueCommand::ReplyLost { job_id } => {
                self.forget(job_id, now);
                QueueReply::Done
            },
            QueueCommand::Cancel { job_id } => {
                self.forget(job_id, now);
                QueueReply::Done
            },
            QueueCommand::Start { job_id } => {
                self.scheduler.start(job_id, now);
                proof {
                    before.scheduler.lemma_start_inv(job_id, now);
                }
                QueueReply::Done
            },
            QueueCommand::Complete { job_id, outcome } => {
                self.scheduler.complete(job_id, outcome, now);
                proof {
                    before.scheduler.lemma_complete_inv(job_id, outcome, now);
                    scheduling::law_completion_refunds_and_retries_nothing(
                        before.scheduler,
                        job_id,
                        outcome,
                        now,
                    );
                }
                QueueReply::Done
            },
            QueueCommand::Penalize { scope, duration } => {
                if !duration.is_zero() {
                    proof {
                        before.scheduler.lemma_penalize_inv(scope, now.plus(duration));
                    }
                    self.scheduler.penalize(scope, now.plus(duration));
                }
                QueueReply::Done
            },
            QueueCommand::GetLimits => QueueReply::Limits(
                OutboundLimits {
                    global: copy_limits(self.scheduler.global_limits()),
                    chat: copy_limits(self.scheduler.chat_limits()),
                },
            ),
            QueueCommand::SetLimits { limits } => {
                proof {
                    before.scheduler.lemma_set_limits_inv(limits, now);
                    scheduling::law_new_limits_keep_requests_and_spending(
                        before.scheduler,
                        limits,
                        now,
                    );
                    assert forall|k: u64| #[trigger] before.waiters.contains(k) implies
                        before.scheduler.set_limits(limits, now).jobs.contains_key(k) by {
                        assert(before.scheduler.jobs.dom().contains(k));
                    }
                }
                let result = self.scheduler.set_limits(limits, now);
                QueueReply::LimitsSet(result)
            },
            QueueCommand::GetSnapshot => QueueReply::Snapshot(self.scheduler.snapshot()),
        }
    }

    /// Takes in a request, or says why not.
    fn handle_enqueue(
        &mut self,
        metadata: OutboundMetadata,
        lane: Option<OutboundLaneKey>,
        mode: OutboundEnqueueMode,
        now: Instant,
    ) -> (r: QueueReply)
        requires
            old(self).wf(),
            old(self)@.scheduler.next_job_id < u64::MAX,
        ensures
            final(self).wf(),
            final(self)@ == old(self)@.handle(
                (QueueCommand::Enqueue { metadata, lane, mode }),
                now,
            ),
            old(self)@.answers((QueueCommand::Enqueue { metadata, lane, mode }), r),
    {
        let ghost before = self@;
        let meta = OutboundMeta {
            scope: metadata.scope,
            lane,
            class: metadata.class,
            priority: metadata.priority,
            weight: metadata.weight,
        };
        match self.scheduler.enqueue_bounded(meta, mode, self.queue_capacity, None, now) {
            Ok(outcome) => {
                proof {
                    before.scheduler.lemma_accept_inv(meta, mode, None, now);
                    scheduling::law_other_jobs_go_on_waiting(
                        before.scheduler,
                        meta,
                        mode,
                        None,
                        now,
                    );
                }
                let mut told: Option<JobId> = None;
                if let Some(old_id) = outcome.superseded {
                    if self.waiters.remove(old_id.value).is_some() {
                        told = Some(old_id);
                    }
                }
                assert(self@.waiters =~= before.handle(
                    (QueueCommand::Enqueue { metadata, lane, mode }),
                    now,
                ).waiters);
                QueueReply::Enqueued { job: outcome.job, superseded: told }
            },
            Err(error) => match error {
                EnqueueError::QueueFull => QueueReply::Refused(OutboundQueueError::QueueFull),
                EnqueueError::IncompatibleCoalesceMetadata => QueueReply::Refused(
                    OutboundQueueError::IncompatibleCoalesceMetadata,
                ),
                EnqueueError::WeightExceedsWindow { scope, weight, capacity } =>
                    QueueReply::Refused(
                    OutboundQueueError::WeightExceedsWindow { scope, weight, capacity },
                ),
            },
        }
    }

    /// Takes a pending job out again.
    fn forget(&mut self, job_id: JobId, now: Instant)
        requires
            old(self).wf(),
        ensures
            final(self).wf(),
            final(self)@ == old(self)@.handle((QueueCommand::Cancel { job_id }), now),
    {
        let ghost before = self@;
        let _ = self.waiters.remove(job_id.value);
        self.scheduler.cancel_at(job_id, now);
        proof {
            assert(self@.waiters =~= before.waiters.remove(job_id.value));
            before.scheduler.lemma_cancel_at_inv(job_id, now);
            if before.scheduler.jobs.contains_key(job_id.value) {
                scheduling::law_cancelled_job_leaves_no_lock(before.scheduler, job_id, now);
            }
            assert forall|k: u64| #[trigger]
                self@.waiters.contains(k) implies self@.scheduler.jobs.contains_key(k) by {
                assert(before.waiters.contains(k));
                assert(before.scheduler.jobs.dom().contains(k));
                if before.scheduler.jobs.contains_key(job_id.value) {
                    assert(self@.scheduler.jobs.dom().contains(k));
                }
            }
        }
    }

    /// Runs one admission pass: where its grants go, and what to wait for
    /// afterwards.
    pub fn run_admission(&mut self, now: Instant) -> (r: (Vec<Delivered>, SchedulerWakeup))
        requires
            old(self).wf(),
        ensures
            final(self).wf(),
            final(self)@ == old(self)@.admission_pass(now),
            r.0@ == old(self)@.deliveries(now),
            r.1 == old(self)@.scheduler.grant_ready(now).wakeup(now),
    {
        let ghost before = self@;
        proof {
            before.scheduler.lemma_grant_ready_inv(now);
            before.scheduler.grant_ready(now).lemma_trimmed_inv();
            scheduling::law_grant_pass(before.scheduler, now);
        }
        let grants = self.scheduler.grant_ready(now);
        let delivered = self.deliver_grants(grants);
        let ghost mid = self@;
        let wakeup = self.scheduler.next_deadline(now);
        proof {
            assert(self@.waiters == mid.waiters);
            assert forall|k: u64| #[trigger]
                self@.waiters.contains(k) <==> before.admission_pass(now).waiters.contains(k) by {
                assert(mid.waiters.contains(k) <==> before.waiters.contains(k)
                    && !scheduling::names(before.scheduler.grants(now), k));
            }
            scheduling::lemma_trimmed_keeps_jobs(before.scheduler.grant_ready(now));
            assert(self@.waiters =~= before.admission_pass(now).waiters);
            assert forall|k: u64| #[trigger]
                self@.waiters.contains(k) implies self@.scheduler.jobs.contains_key(k) by {
                assert(before.waiters.contains(k));
                assert(before.scheduler.jobs.contains_key(k));
                assert(before.scheduler.grant_ready(now).jobs.contains_key(k));
            }
        }
        (delivered, wakeup)
    }

    /// Finds the waiter of each grant.
    fn deliver_grants(&mut self, grants: Vec<Grant>) -> (r: Vec<Delivered>)
        requires
            forall|i: int, j: int|
                0 <= i < j < grants.len() ==> (#[trigger] grants@[i]).job != (
                #[trigger] grants@[j]).job,
        ensures
            final(self).scheduler == old(self).scheduler,
            final(self).queue_capacity == old(self).queue_capacity,
            forall|k: u64| #[trigger]
                final(self)@.waiters.contains(k) <==> old(self)@.waiters.contains(k)
                    && !scheduling::names(grants@, k),
            r.len() == grants.len(),
            forall|i: int|
                0 <= i < r.len() ==> (#[trigger] r@[i]) == (Delivered {
                    job: grants@[i].job,
                    waited: old(self)@.waiters.contains(grants@[i].job.value),
                }),
    {
        let ghost before = self@.waiters;
        let mut delivered: Vec<Delivered> = Vec::new();
        let mut i: usize = 0;
        assert(grants@.take(0) =~= Seq::empty());
        while i < grants.len()
            invariant
                i <= grants.len(),
                self.scheduler == old(self).scheduler,
                self.queue_capacity == old(self).queue_capacity,
                before == old(self)@.waiters,
                delivered.len() == i,
                forall|a: int, b: int|
                    0 <= a < b < grants.len() ==> (#[trigger] grants@[a]).job != (
                    #[trigger] grants@[b]).job,
                forall|k: u64| #[trigger]
                    self@.waiters.contains(k) <==> before.contains(k) && !scheduling::names(
                        grants@.take(i as int),
                        k,
                    ),
                forall|j: int|
                    0 <= j < i ==> (#[trigger] delivered@[j]) == (Delivered {
                        job: grants@[j].job,
                        waited: before.contains(grants@[j].job.value),
                    }),
            decreases grants.len() - i,
        {
            let job = grants[i].job;
            let ghost front = grants@.take(i as int);
            let ghost held = self@.waiters;
            proof {
                let g = Grant { job: JobId { value: job.value } };
                assert(JobId { value: job.value } == job);
                if scheduling::names(front, job.value) {
                    let j = choose|j: int| 0 <= j < front.len() && front[j] == g;
                    assert(grants@[j].job == grants@[i as int].job);
                }
                assert(held.contains(job.value) <==> before.contains(job.value));
            }
            let waited = self.waiters.remove(job.value).is_some();
            delivered.push(Delivered { job, waited });
            proof {
                let all = grants@.take(i + 1);
                assert(all =~= front.push(grants@[i as int]));
                assert forall|k: u64| #[trigger]
                    self@.waiters.contains(k) <==> before.contains(k) && !scheduling::names(
                        all,
                        k,
                    ) by {
                    let g = Grant { job: JobId { value: k } };
                    assert(self@.waiters.contains(k) <==> held.contains(k) && k != job.value);
                    if k == job.value {
                        assert(all[i as int] == g);
                        assert(scheduling::names(all, k));
                    }
                    if scheduling::names(front, k) {
                        let j = choose|j: int| 0 <= j < front.len() && front[j] == g;
                        assert(all[j] == g);
                    }
                    if scheduling::names(all, k) && k != job.value {
                        let j = choose|j: int| 0 <= j < all.len() && all[j] == g;
                        assert(j != i);
                        assert(front[j] == g);
                    }
                }
            }
            i = i + 1;
        }
        assert(grants@.take(i as int) =~= grants@);
        delivered
    }

    /// Ends the queue: everybody who waits has to be told.
    pub fn shutdown_waiters(&mut self) -> (r: Vec<JobId>)
        requires
            old(self).wf(),
        ensures
            final(self).wf(),
            final(self)@ == (QueueView { waiters: Set::empty(), ..old(self)@ }),
            forall|k: u64| #[trigger]
                old(self)@.waiters.contains(k) <==> r@.contains(JobId { value: k }),
            r.len() == old(self)@.waiters.len(),
    {
        let ghost before = self@.waiters;
        let keys = self.waiters.keys();
        let mut told: Vec<JobId> = Vec::new();
        let mut i: usize = 0;
        while i < keys.len()
            invariant
                i <= keys.len(),
                told.len() == i,
                forall|j: int| 0 <= j < i ==> (#[trigger] told@[j]).value == keys@[j],
            decreases keys.len() - i,
        {
            told.push(JobId { value: keys[i] });
            i = i + 1;
        }
        self.waiters = IdMap::new();
        proof {
            assert(self@.waiters =~= Set::empty());
            assert forall|k: u64| #[trigger] before.contains(k) <==> told@.contains(
                JobId { value: k },
            ) by {
                if before.contains(k) {
                    assert(keys@.contains(k));
                    let j = choose|j: int| 0 <= j < keys@.len() && keys@[j] == k;
                    assert(told@[j] == (JobId { value: k }));
                }
                if told@.contains(JobId { value: k }) {
                    let j = choose|j: int| 0 <= j < told@.len() && told@[j] == (JobId { value: k });
                    assert(keys@[j] == k);
                    assert(keys@.contains(k));
                }
            }
        }
        told
    }
}

} // verus!
