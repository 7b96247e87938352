use crate::scheduler_pool::locks::TaskInQueue;
use crate::scheduler_pool::stage::ScheduleStage;
use crate::scheduler_pool::task_queue::ExecutionEnvironment;
use crate::types::{ExecuteTimings, ResultWithTimings, SanitizedTransaction, TransactionError};
use std::collections::VecDeque;
use std::sync::Arc;
use vstd::prelude::*;

verus! {

/// What the transactions of a session are scheduled for.
#[derive(Clone, Copy, Debug, PartialEq, Eq, Structural)]
pub enum SchedulingMode {
    BlockVerification,
    BlockProduction,
}

/// The bank that a session works on, and in which mode.
#[derive(Debug)]
pub struct SchedulingContext<B> {
    pub mode: SchedulingMode,
    pub bank: Arc<B>,
}

impl<B> SchedulingContext<B> {
    pub fn new(mode: SchedulingMode, bank: Arc<B>) -> (r: Self)
        ensures
            r.mode == mode,
            r.bank == bank,
    {
        Self { mode, bank }
    }

    pub fn bank(&self) -> (r: &Arc<B>)
        ensures
            *r == self.bank,
    {
        &self.bank
    }
}

impl<B> Clone for SchedulingContext<B> {
    fn clone(&self) -> (r: Self)
        ensures
            r == *self,
    {
        Self { mode: self.mode, bank: Arc::clone(&self.bank) }
    }
}

/// Why one waits for a scheduler: to have its last result, or for it to be through with what was
/// scheduled so far.
#[derive(Clone, Copy, Debug, PartialEq, Eq, Structural)]
pub enum WaitReason {
    TerminatedToFreeze,
    PausedForRecentBlockhash,
}

impl WaitReason {
    pub fn is_paused(&self) -> (r: bool)
        ensures
            r == (*self == WaitReason::PausedForRecentBlockhash),
    {
        *self == WaitReason::PausedForRecentBlockhash
    }
}

/// The tasks of a session that wait to be handed out, and how many are not through yet.
pub struct SchedulingStateMachine {
    pub queue: VecDeque<TaskInQueue>,
    pub task_count: usize,
}

impl SchedulingStateMachine {
    /// Every waiting task is counted.
    pub open spec fn wf(self) -> bool {
        self.queue@.len() <= self.task_count
    }

    pub fn new() -> (r: Self)
        ensures
            r.wf(),
            r.queue@ == Seq::<TaskInQueue>::empty(),
            r.task_count == 0,
    {
        Self { queue: VecDeque::new(), task_count: 0 }
    }

    pub fn is_empty(&self) -> (r: bool)
        ensures
            r == (self.task_count == 0),
    {
        self.task_count == 0
    }

    pub fn add_task(&mut self, task: TaskInQueue)
        requires
            old(self).wf(),
            old(self).task_count < usize::MAX,
        ensures
            final(self).wf(),
            final(self).queue@ == old(self).queue@.push(task),
            final(self).task_count == old(self).task_count + 1,
    {
        self.queue.push_back(task);
        self.task_count = self.task_count + 1;
    }

    /// Hands out the task that has waited longest. It stays counted.
    pub fn pop_scheduled_task(&mut self) -> (r: Option<Box<ExecutionEnvironment>>)
        requires
            old(self).wf(),
        ensures
            final(self).wf(),
            final(self).task_count == old(self).task_count,
            match r {
                Some(ee) => {
                    &&& old(self).queue@.len() > 0
                    &&& is_fresh(*ee, old(self).queue@[0])
                    &&& final(self).queue@ == old(self).queue@.skip(1)
                },
                None => old(self).queue@.len() == 0 && final(self).queue@ == old(self).queue@,
            },
    {
        match self.queue.pop_front() {
            Some(task) => Some(ScheduleStage::prepare_scheduled_execution(task, Vec::new())),
            None => None,
        }
    }

    pub fn decrement_task_count(&mut self)
        requires
            old(self).queue@.len() < old(self).task_count,
        ensures
            final(self).wf(),
            final(self).queue@ == old(self).queue@,
            final(self).task_count == old(self).task_count - 1,
    {
        self.task_count = self.task_count - 1;
    }
}

/// `ee` is the task as it is handed out: without locks, and with nothing known of its outcome.
pub open spec fn is_fresh(ee: ExecutionEnvironment, task: TaskInQueue) -> bool {
    &&& ee.task == task
    &&& ee.finalized_lock_attempts@.len() == 0
    &&& ee.execution_result is None
    &&& ee.result_with_timings.0 == Ok::<(), TransactionError>(())
    &&& ee.result_with_timings.1.execute_us == 0
}

/// What happens to the scheduler of a session.
pub enum SchedulerEvent<B> {
    /// A task that was handed out is through.
    HandledBlockedTransaction(Box<ExecutionEnvironment>),
    /// A new task came in.
    NewTransaction(TaskInQueue),
    /// A session begins.
    StartSession(SchedulingContext<B>),
    /// No task will come in for this session any more.
    EndSession,
    /// No task will come in at all any more.
    Disconnected,
    /// A task that was handed out to be done when there is time is through.
    HandledIdleTransaction(Box<ExecutionEnvironment>),
}

/// What the scheduler of a session is to do about an event, in this order.
pub struct SchedulerStep<B> {
    /// Tell every handler of the new session.
    pub start_session: Option<SchedulingContext<B>>,
    /// Hand a task to the handlers.
    pub scheduled: Option<Box<ExecutionEnvironment>>,
    /// Report the result of the session: `None` inside if no task came in.
    pub session_result: Option<Option<ResultWithTimings>>,
    /// End.
    pub thread_ends: bool,
}

/// The scheduler of a session.
pub struct SchedulerMainLoop {
    pub state_machine: SchedulingStateMachine,
    pub result_with_timings: Option<ResultWithTimings>,
    pub will_end_session: bool,
    pub will_end_thread: bool,
}

/// The result of a session after one more transaction is through: the last error counts, and the
/// time adds up.
pub open spec fn updated_result(
    session: ResultWithTimings,
    handled: ResultWithTimings,
) -> ResultWithTimings {
    (
        match handled.0 {
            Ok(()) => session.0,
            Err(e) => Err(e),
        },
        session.1.plus(handled.1),
    )
}

/// The session has failed.
pub open spec fn has_failed(result: Option<ResultWithTimings>) -> bool {
    match result {
        Some((Err(_), _)) => true,
        _ => false,
    }
}

/// The result of a session, which was `result`, after the event.
pub open spec fn result_with<B>(
    result: Option<ResultWithTimings>,
    event: SchedulerEvent<B>,
) -> Option<ResultWithTimings> {
    match event {
        SchedulerEvent::HandledBlockedTransaction(msg)
        | SchedulerEvent::HandledIdleTransaction(msg) => Some(
            updated_result(result->0, msg.result_with_timings),
        ),
        SchedulerEvent::NewTransaction(_) => match result {
            Some(result) => Some(result),
            None => Some((Ok::<(), TransactionError>(()), ExecuteTimings { execute_us: 0 })),
        },
        _ => result,
    }
}

impl SchedulerMainLoop {
    /// No task waits, and a session with tasks that are not through has a result to add to.
    pub open spec fn wf(self) -> bool {
        &&& self.state_machine.queue@.len() == 0
        &&& self.state_machine.task_count > 0 ==> self.result_with_timings is Some
    }

    /// Goes on with the session whose result so far is `session_result_with_timings`.
    pub fn new(session_result_with_timings: Option<ResultWithTimings>) -> (r: Self)
        ensures
            r.wf(),
            r.state_machine.task_count == 0,
            r.result_with_timings == session_result_with_timings,
            !r.will_end_session,
            !r.will_end_thread,
    {
        Self {
            state_machine: SchedulingStateMachine::new(),
            result_with_timings: session_result_with_timings,
            will_end_session: false,
            will_end_thread: false,
        }
    }

    pub fn update_result_with_timings(
        session: &mut ResultWithTimings,
        msg: &ExecutionEnvironment,
    )
        ensures
            *final(session) == updated_result(*old(session), msg.result_with_timings),
    {
        match msg.result_with_timings.0 {
            Ok(()) => {},
            Err(e) => {
                session.0 = Err(e);
            },
        }
        session.1.accumulate(&msg.result_with_timings.1);
    }

    /// Takes a new task in, unless the session has failed: then it is dropped.
    pub fn receive_new_transaction(&mut self, task: TaskInQueue)
        requires
            old(self).wf(),
            old(self).state_machine.task_count < usize::MAX,
        ensures
            final(self).will_end_session == old(self).will_end_session,
            final(self).will_end_thread == old(self).will_end_thread,
            has_failed(old(self).result_with_timings) ==> {
                &&& final(self).state_machine.queue@ == old(self).state_machine.queue@
                &&& final(self).state_machine.task_count == old(self).state_machine.task_count
                &&& final(self).result_with_timings == old(self).result_with_timings
            },
            !has_failed(old(self).result_with_timings) ==> {
                &&& final(self).state_machine.queue@ == seq![task]
                &&& final(self).state_machine.task_count == old(self).state_machine.task_count + 1
                &&& final(self).result_with_timings == Some(
                    match old(self).result_with_timings {
                        Some(result) => result,
                        None => (Ok::<(), TransactionError>(()), ExecuteTimings { execute_us: 0 }),
                    },
                )
            },
    {
        match self.result_with_timings {
            Some((Err(_), _)) => {
                return ;
            },
            Some(_) => {},
            None => {
                self.result_with_timings = Some((Ok(()), ExecuteTimings { execute_us: 0 }));
            },
        }
        self.state_machine.add_task(task);
        assert(self.state_machine.queue@ =~= seq![task]);
    }

    /// Counts a handed-out task as through.
    pub fn receive_handled_transaction(&mut self, msg: Box<ExecutionEnvironment>)
        requires
            old(self).wf(),
            old(self).state_machine.task_count > 0,
        ensures
            final(self).wf(),
            final(self).will_end_session == old(self).will_end_session,
            final(self).will_end_thread == old(self).will_end_thread,
            final(self).state_machine.task_count == old(self).state_machine.task_count - 1,
            final(self).result_with_timings == Some(
                updated_result(old(self).result_with_timings->0, msg.result_with_timings),
            ),
    {
        if let Some(mut session) = self.result_with_timings {
            Self::update_result_with_timings(&mut session, &msg);
            self.result_with_timings = Some(session);
        }
        self.state_machine.decrement_task_count();
    }

    /// The event can happen: only a task that was handed out can be through, and no more come in
    /// than can be counted.
    pub open spec fn accepts<B>(self, event: SchedulerEvent<B>) -> bool {
        match event {
            SchedulerEvent::HandledBlockedTransaction(_)
            | SchedulerEvent::HandledIdleTransaction(_) => self.state_machine.task_count > 0,
            SchedulerEvent::NewTransaction(_) => self.state_machine.task_count < usize::MAX,
            _ => true,
        }
    }

    /// How many tasks are not through after the event.
    pub open spec fn count_after<B>(self, event: SchedulerEvent<B>) -> int {
        match event {
            SchedulerEvent::HandledBlockedTransaction(_)
            | SchedulerEvent::HandledIdleTransaction(_) => self.state_machine.task_count - 1,
            SchedulerEvent::NewTransaction(_) => if has_failed(self.result_with_timings) {
                self.state_machine.task_count as int
            } else {
                self.state_machine.task_count + 1
            },
            _ => self.state_machine.task_count as int,
        }
    }

    /// The result of the session after the event.
    pub open spec fn result_after<B>(self, event: SchedulerEvent<B>) -> Option<ResultWithTimings> {
        result_with(self.result_with_timings, event)
    }

    /// One turn of the scheduler: takes an event in, and says what to do about it.
    pub fn turn<B>(&mut self, event: SchedulerEvent<B>) -> (step: SchedulerStep<B>)
        requires
            old(self).wf(),
            old(self).accepts(event),
        ensures
            final(self).wf(),
            final(self).state_machine.task_count == old(self).count_after(event),
            final(self).will_end_thread == (old(self).will_end_thread || event is Disconnected),
            step.start_session == (match event {
                SchedulerEvent::StartSession(context) => Some(context),
                _ => None,
            }),
            match event {
                SchedulerEvent::NewTransaction(task) => if has_failed(
                    old(self).result_with_timings,
                ) {
                    step.scheduled is None
                } else {
                    step.scheduled is Some && is_fresh(*step.scheduled->0, task)
                },
                _ => step.scheduled is None,
            },
            ({
                let ends_session = old(self).will_end_session || event is EndSession;
                let ends_thread = old(self).will_end_thread || event is Disconnected;
                let through = old(self).count_after(event) == 0;
                &&& step.thread_ends == (through && ends_thread)
                &&& if through && ends_session && !ends_thread {
                    &&& step.session_result == Some(old(self).result_after(event))
                    &&& final(self).result_with_timings is None
                    &&& !final(self).will_end_session
                } else {
                    &&& step.session_result is None
                    &&& final(self).result_with_timings == old(self).result_after(event)
                    &&& final(self).will_end_session == ends_session
                }
            }),
    {
        let mut start_session: Option<SchedulingContext<B>> = None;
        match event {
            SchedulerEvent::HandledBlockedTransaction(msg) => {
                self.receive_handled_transaction(msg);
            },
            SchedulerEvent::NewTransaction(task) => {
                self.receive_new_transaction(task);
            },
            SchedulerEvent::StartSession(context) => {
                start_session = Some(context);
            },
            SchedulerEvent::EndSession => {
                self.will_end_session = true;
            },
            SchedulerEvent::Disconnected => {
                self.will_end_thread = true;
            },
            SchedulerEvent::HandledIdleTransaction(msg) => {
                self.receive_handled_transaction(msg);
            },
        }
        let scheduled = self.state_machine.pop_scheduled_task();
        let mut session_result: Option<Option<ResultWithTimings>> = None;
        let mut thread_ends = false;
        if self.state_machine.is_empty() && (self.will_end_session || self.will_end_thread) {
            if self.will_end_thread {
                thread_ends = true;
            } else {
                session_result = Some(self.result_with_timings);
                self.result_with_timings = None;
                self.will_end_session = false;
            }
        }
        SchedulerStep { start_session, scheduled, session_result, thread_ends }
    }
}

/// The result that a session has after all the events of it so far.
pub open spec fn result_of<B>(events: Seq<SchedulerEvent<B>>) -> Option<ResultWithTimings>
    decreases events.len(),
{
    if events.len() == 0 {
        None
    } else {
        result_with(result_of(events.drop_last()), events.last())
    }
}

/// How the task ended that is through with the event.
pub open spec fn handled<B>(event: SchedulerEvent<B>) -> Option<Result<(), TransactionError>> {
    match event {
        SchedulerEvent::HandledBlockedTransaction(msg)
        | SchedulerEvent::HandledIdleTransaction(msg) => Some(msg.result_with_timings.0),
        _ => None,
    }
}

/// A task comes in with event `i`.
pub open spec fn task_at<B>(events: Seq<SchedulerEvent<B>>, i: int) -> bool {
    0 <= i < events.len() && events[i] is NewTransaction
}

/// The task that is through with event `i`, if any, ended like that.
pub open spec fn handled_at<B>(
    events: Seq<SchedulerEvent<B>>,
    i: int,
    outcome: Result<(), TransactionError>,
) -> bool {
    0 <= i < events.len() && handled(events[i]) == Some(outcome)
}

/// No task is through before any came in.
pub open spec fn in_order<B>(events: Seq<SchedulerEvent<B>>) -> bool {
    forall|i: int, outcome: Result<(), TransactionError>| #[trigger]
        handled_at(events, i, outcome) ==> exists|j: int| j < i && #[trigger] task_at(events, j)
}

/// What a session gives back of what came in. It has no result if no task came in. Otherwise it is
/// well exactly if all tasks that are through ended well, and an error that it gives is that of one
/// of its tasks.
pub proof fn law_what_a_session_gives_back<B>(events: Seq<SchedulerEvent<B>>)
    requires
        in_order(events),
    ensures
        result_of(events) is Some <==> exists|j: int| #[trigger] task_at(events, j),
        result_of(events) matches Some((Ok(()), _)) ==> forall|
            i: int,
            outcome: Result<(), TransactionError>,
        | #[trigger]
            handled_at(events, i, outcome) ==> outcome is Ok,
        result_of(events) matches Some((Err(e), _)) ==> exists|i: int| #[trigger]
            handled_at(events, i, Err(e)),
    decreases events.len(),
{
    if events.len() > 0 {
        let before = events.drop_last();
        let n = events.len() - 1;
        assert forall|i: int, outcome: Result<(), TransactionError>| #[trigger]
            handled_at(before, i, outcome) implies exists|j: int|
            j < i && #[trigger] task_at(before, j) by {
            assert(handled_at(events, i, outcome));
            let j = choose|j: int| j < i && #[trigger] task_at(events, j);
            assert(task_at(before, j));
        }
        law_what_a_session_gives_back(before);
        if let Some(outcome) = handled(events.last()) {
            assert(handled_at(events, n, outcome));
            let j = choose|j: int| j < n && #[trigger] task_at(events, j);
            assert(task_at(before, j));
        }
        if exists|j: int| #[trigger] task_at(before, j) {
            let j = choose|j: int| #[trigger] task_at(before, j);
            assert(task_at(events, j));
        }
        assert forall|j: int| #[trigger] task_at(events, j) implies task_at(before, j) || j == n by {}
        if events.last() is NewTransaction {
            assert(task_at(events, n));
        }
        assert forall|i: int, outcome: Result<(), TransactionError>| #[trigger]
            handled_at(events, i, outcome) implies handled_at(before, i, outcome) || i == n by {}
        assert forall|i: int, outcome: Result<(), TransactionError>| #[trigger]
            handled_at(before, i, outcome) implies handled_at(events, i, outcome) by {}
    }
}

/// A session that has failed stays failed until it ends, whatever else happens, and its count of
/// tasks only goes down: what still comes in is not handed out.
pub proof fn law_failed_session_stays_failed<B>(
    scheduler: SchedulerMainLoop,
    event: SchedulerEvent<B>,
)
    requires
        scheduler.wf(),
        scheduler.accepts(event),
        has_failed(scheduler.result_with_timings),
    ensures
        has_failed(scheduler.result_after(event)),
        scheduler.count_after(event) <= scheduler.state_machine.task_count,
{
}

/// A task that fails makes its session fail.
pub proof fn law_failed_task_fails_session<B>(
    scheduler: SchedulerMainLoop,
    msg: Box<ExecutionEnvironment>,
)
    requires
        scheduler.wf(),
        scheduler.state_machine.task_count > 0,
        msg.result_with_timings.0 is Err,
    ensures
        has_failed(
            scheduler.result_after(SchedulerEvent::<B>::HandledBlockedTransaction(msg)),
        ),
        has_failed(scheduler.result_after(SchedulerEvent::<B>::HandledIdleTransaction(msg))),
{
}

/// The time that the task took that is through with the event.
pub open spec fn time_of<B>(event: SchedulerEvent<B>) -> nat {
    match event {
        SchedulerEvent::HandledBlockedTransaction(msg) => msg.result_with_timings.1.execute_us as nat,
        SchedulerEvent::HandledIdleTransaction(msg) => msg.result_with_timings.1.execute_us as nat,
        _ => 0,
    }
}

/// The time that all tasks took that are through with the events.
pub open spec fn total_time<B>(events: Seq<SchedulerEvent<B>>) -> nat
    decreases events.len(),
{
    if events.len() == 0 {
        0
    } else {
        total_time(events.drop_last()) + time_of(events.last())
    }
}

/// The time of a session is that of all its tasks together, as far as it can be counted.
pub proof fn law_times_of_a_session_add_up<B>(events: Seq<SchedulerEvent<B>>)
    requires
        in_order(events),
    ensures
        result_of(events) matches Some((_, timings)) ==> timings.execute_us == (if total_time(
            events,
        ) <= u64::MAX {
            total_time(events)
        } else {
            u64::MAX as nat
        }),
        result_of(events) is None ==> total_time(events) == 0,
    decreases events.len(),
{
    if events.len() > 0 {
        let before = events.drop_last();
        let n = events.len() - 1;
        assert forall|i: int, outcome: Result<(), TransactionError>| #[trigger]
            handled_at(before, i, outcome) implies exists|j: int|
            j < i && #[trigger] task_at(before, j) by {
            assert(handled_at(events, i, outcome));
            let j = choose|j: int| j < i && #[trigger] task_at(events, j);
            assert(task_at(before, j));
        }
        law_times_of_a_session_add_up(before);
        law_what_a_session_gives_back(before);
        if let Some(outcome) = handled(events.last()) {
            assert(handled_at(events, n, outcome));
            let j = choose|j: int| j < n && #[trigger] task_at(events, j);
            assert(task_at(before, j));
        }
    }
}

/// A task that is through adds its time to that of its session, and its error, if it has one, becomes
/// that of the session; without an error the outcome of the session stays.
pub proof fn law_each_task_adds_to_its_session(
    session: &mut ResultWithTimings,
    msg: &ExecutionEnvironment,
)
    requires
        call_ensures(SchedulerMainLoop::update_result_with_timings, (session, msg), ()),
    ensures
        old(session).1.execute_us + msg.result_with_timings.1.execute_us <= u64::MAX ==> final(session).1.execute_us == old(session).1.execute_us + msg.result_with_timings.1.execute_us,
        old(session).1.execute_us + msg.result_with_timings.1.execute_us > u64::MAX ==> final(session).1.execute_us == u64::MAX,
        msg.result_with_timings.0 is Err ==> final(session).0 == msg.result_with_timings.0,
        msg.result_with_timings.0 is Ok ==> final(session).0 == old(session).0,
{
}

/// What a turn of the scheduler does with a task that is through: its session goes on with the time
/// of the task added, or, where it was the last of a session that is to end, gives that back.
pub proof fn law_a_handled_task_reaches_its_session<B>(
    scheduler: &mut SchedulerMainLoop,
    msg: Box<ExecutionEnvironment>,
    so_far: ResultWithTimings,
    step: SchedulerStep<B>,
    idle: bool,
)
    requires
        old(scheduler).state_machine.task_count > 0,
        old(scheduler).result_with_timings == Some(so_far),
        call_ensures(
            SchedulerMainLoop::turn::<B>,
            (
                scheduler,
                if idle {
                    SchedulerEvent::HandledIdleTransaction(msg)
                } else {
                    SchedulerEvent::HandledBlockedTransaction(msg)
                },
            ),
            step,
        ),
    ensures
        ({
            let ends = old(scheduler).will_end_session && !old(scheduler).will_end_thread && old(
                scheduler,
            ).state_machine.task_count == 1;
            let result = if ends {
                step.session_result->0
            } else {
                final(scheduler).result_with_timings
            };
            &&& step.session_result is Some <==> ends
            &&& step.scheduled is None
            &&& step.start_session is None
            &&& final(scheduler).state_machine.task_count == old(scheduler).state_machine.task_count
                - 1
            &&& result is Some
            &&& so_far.1.execute_us + msg.result_with_timings.1.execute_us <= u64::MAX
                ==> (result->0).1.execute_us == so_far.1.execute_us
                + msg.result_with_timings.1.execute_us
            &&& (result->0).0 == (if msg.result_with_timings.0 is Err {
                msg.result_with_timings.0
            } else {
                so_far.0
            })
        }),
{
}

/// A task that comes into a session which has not failed is handed out at once, as one more that is
/// not through; after a failure no more tasks are handed out.
pub proof fn law_a_new_task_is_handed_out<B>(
    scheduler: &mut SchedulerMainLoop,
    task: TaskInQueue,
    step: SchedulerStep<B>,
)
    requires
        call_ensures(
            SchedulerMainLoop::turn::<B>,
            (scheduler, SchedulerEvent::<B>::NewTransaction(task)),
            step,
        ),
    ensures
        ({
            let failed = match old(scheduler).result_with_timings {
                Some((outcome, _)) => outcome is Err,
                None => false,
            };
            &&& step.scheduled is Some <==> !failed
            &&& !failed ==> step.scheduled->0.task == task
            &&& !failed ==> step.scheduled->0.result_with_timings.0 is Ok
            &&& !failed ==> final(scheduler).state_machine.task_count == old(
                scheduler,
            ).state_machine.task_count + 1
            &&& failed ==> final(scheduler).state_machine.task_count == old(
                scheduler,
            ).state_machine.task_count
        }),
{
}

/// A session whose tasks are all through gives its result back when it is told to end, and the next
/// one begins without any; one whose tasks are not all through does not end yet.
pub proof fn law_a_session_ends_with_its_tasks<B>(
    scheduler: &mut SchedulerMainLoop,
    step: SchedulerStep<B>,
)
    requires
        !old(scheduler).will_end_thread,
        call_ensures(
            SchedulerMainLoop::turn::<B>,
            (scheduler, SchedulerEvent::<B>::EndSession),
            step,
        ),
    ensures
        old(scheduler).state_machine.task_count == 0 ==> {
            &&& step.session_result == Some(old(scheduler).result_with_timings)
            &&& final(scheduler).result_with_timings is None
            &&& !final(scheduler).will_end_session
        },
        old(scheduler).state_machine.task_count > 0 ==> {
            &&& step.session_result is None
            &&& final(scheduler).result_with_timings == old(scheduler).result_with_timings
            &&& final(scheduler).will_end_session
        },
        !step.thread_ends,
        step.scheduled is None,
{
}

/// The thread ends once no task will come in any more and all are through, not before.
pub proof fn law_a_thread_ends_with_its_tasks<B>(
    scheduler: &mut SchedulerMainLoop,
    step: SchedulerStep<B>,
)
    requires
        call_ensures(
            SchedulerMainLoop::turn::<B>,
            (scheduler, SchedulerEvent::<B>::Disconnected),
            step,
        ),
    ensures
        step.thread_ends <==> old(scheduler).state_machine.task_count == 0,
        final(scheduler).will_end_thread,
        final(scheduler).result_with_timings == old(scheduler).result_with_timings,
        step.session_result is None,
{
}

} // verus!
