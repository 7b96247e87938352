use crate::collections::last_key_u128;
use crate::scheduler_pool::locks::{LockAttempt, TaskInQueue, UniqueWeight};
use crate::types::{ResultWithTimings, TransactionError};
use std::collections::{BTreeMap, VecDeque};
use vstd::prelude::*;

verus! {

/// A task under execution with the locks it holds, and how the execution came out.
#[derive(Debug)]
pub struct ExecutionEnvironment {
    pub task: TaskInQueue,
    pub finalized_lock_attempts: Vec<LockAttempt>,
    pub execution_result: Option<Result<(), TransactionError>>,
    pub result_with_timings: ResultWithTimings,
}

/// A message of a channel that can be flushed.
#[derive(Debug)]
pub enum Flushable<T> {
    Payload(T),
    Flush,
}

pub struct SchedulablePayload(pub Flushable<TaskInQueue>);

pub struct ExecutablePayload(pub Flushable<Box<ExecutionEnvironment>>);

pub struct UnlockablePayload<T>(pub Box<ExecutionEnvironment>, pub T);

pub struct ExaminablePayload<T>(pub Flushable<(Box<ExecutionEnvironment>, T)>);

/// Tasks ordered by weight.
#[derive(Debug, Clone)]
pub struct TaskQueue {
    pub tasks: BTreeMap<UniqueWeight, usize>,
}

impl TaskQueue {
    pub fn add_to_schedule(&mut self, unique_weight: UniqueWeight, task: TaskInQueue)
        requires
            !old(self).tasks@.dom().contains(unique_weight),
        ensures
            final(self).tasks@ == old(self).tasks@.insert(unique_weight, task.0),
    {
        self.tasks.insert(unique_weight, task.0);
    }

    /// Takes the heaviest task out.
    pub fn heaviest_entry_to_execute(&mut self) -> (r: Option<TaskInQueue>)
        ensures
            match r {
                Some(task) => exists|k: UniqueWeight|
                    {
                        &&& #[trigger] old(self).tasks@.dom().contains(k)
                        &&& old(self).tasks@[k] == task.0
                        &&& forall|j: UniqueWeight| #[trigger]
                            old(self).tasks@.dom().contains(j) ==> j <= k
                        &&& final(self).tasks@ == old(self).tasks@.remove(k)
                    },
                None => old(self).tasks@.dom() == Set::<UniqueWeight>::empty()
                    && final(self).tasks@ == old(self).tasks@,
            },
    {
        match last_key_u128(&self.tasks) {
            Some(k) => {
                assert(old(self).tasks@.dom().contains(k));
                assert(old(self).tasks@.contains_key(k));
                match self.tasks.remove(&k) {
                    Some(task) => Some(TaskInQueue(task)),
                    None => None,
                }
            },
            None => None,
        }
    }

    pub fn task_count_hint(&self) -> (r: usize)
        ensures
            r == self.tasks@.len(),
    {
        self.tasks.len()
    }

    pub fn has_no_task_hint(&self) -> (r: bool)
        ensures
            r == (self.tasks@.dom() == Set::<UniqueWeight>::empty()),
    {
        self.tasks.is_empty()
    }
}

/// Tasks in the order in which they came in, with room for one that was taken out and put back.
pub struct ChannelBackedTaskQueue {
    pub channel: VecDeque<SchedulablePayload>,
    pub buffered_task: Option<TaskInQueue>,
}

impl ChannelBackedTaskQueue {
    /// How many messages the queue holds.
    pub open spec fn count(self) -> nat {
        self.channel@.len() + if self.buffered_task is Some { 1nat } else { 0nat }
    }

    pub fn new(channel: VecDeque<SchedulablePayload>) -> (r: Self)
        ensures
            r.channel == channel,
            r.buffered_task is None,
    {
        Self { channel, buffered_task: None }
    }

    pub fn buffer(&mut self, task: TaskInQueue)
        requires
            old(self).buffered_task is None,
        ensures
            final(self).channel == old(self).channel,
            final(self).buffered_task == Some(task),
    {
        self.buffered_task = Some(task);
    }

    pub fn add_to_schedule(&mut self, _unique_weight: UniqueWeight, task: TaskInQueue)
        requires
            old(self).buffered_task is None,
        ensures
            final(self).channel == old(self).channel,
            final(self).buffered_task == Some(task),
    {
        self.buffer(task)
    }

    pub fn task_count_hint(&self) -> (r: usize)
        requires
            self.count() <= usize::MAX,
        ensures
            r == self.count(),
    {
        let buffered: usize = match self.buffered_task {
            None => 0,
            Some(_) => 1,
        };
        self.channel.len() + buffered
    }

    pub fn has_no_task_hint(&self) -> (r: bool)
        requires
            self.count() <= usize::MAX,
        ensures
            r == (self.count() == 0),
    {
        self.task_count_hint() == 0
    }

    /// Takes the task that was put back, or else the next message; a flush is no task.
    pub fn heaviest_entry_to_execute(&mut self) -> (r: Option<TaskInQueue>)
        requires
            old(self).count() > 0,
        ensures
            final(self).buffered_task is None,
            match old(self).buffered_task {
                Some(task) => r == Some(task) && final(self).channel@ == old(self).channel@,
                None => final(self).channel@ == old(self).channel@.skip(1) && r == (match old(self).channel@[0].0 {
                    Flushable::Payload(task) => Some(task),
                    Flushable::Flush => None,
                }),
            },
    {
        match self.buffered_task {
            Some(task) => {
                self.buffered_task = None;
                Some(task)
            },
            None => match self.channel.pop_front() {
                Some(SchedulablePayload(Flushable::Payload(task))) => Some(task),
                Some(SchedulablePayload(Flushable::Flush)) => None,
                None => None,
            },
        }
    }
}

/// The queue of new tasks, as the mode of scheduling has it.
pub enum ModeSpecificTaskQueue {
    BlockVerification(ChannelBackedTaskQueue),
}

impl ModeSpecificTaskQueue {
    /// The queue behind the mode.
    pub open spec fn queue(self) -> ChannelBackedTaskQueue {
        match self {
            ModeSpecificTaskQueue::BlockVerification(queue) => queue,
        }
    }

    pub fn add_to_schedule(&mut self, unique_weight: UniqueWeight, task: TaskInQueue)
        requires
            old(self).queue().buffered_task is None,
        ensures
            final(self).queue().channel == old(self).queue().channel,
            final(self).queue().buffered_task == Some(task),
    {
        match self {
            ModeSpecificTaskQueue::BlockVerification(queue) => queue.add_to_schedule(
                unique_weight,
                task,
            ),
        }
    }

    pub fn heaviest_entry_to_execute(&mut self) -> (r: Option<TaskInQueue>)
        requires
            old(self).queue().count() > 0,
        ensures
            final(self).queue().buffered_task is None,
            match old(self).queue().buffered_task {
                Some(task) => r == Some(task) && final(self).queue().channel@
                    == old(self).queue().channel@,
                None => final(self).queue().channel@ == old(self).queue().channel@.skip(1) && r == (
                match old(self).queue().channel@[0].0 {
                    Flushable::Payload(task) => Some(task),
                    Flushable::Flush => None,
                }),
            },
    {
        match self {
            ModeSpecificTaskQueue::BlockVerification(queue) => queue.heaviest_entry_to_execute(),
        }
    }

    pub fn task_count_hint(&self) -> (r: usize)
        requires
            self.queue().count() <= usize::MAX,
        ensures
            r == self.queue().count(),
    {
        match self {
            ModeSpecificTaskQueue::BlockVerification(queue) => queue.task_count_hint(),
        }
    }

    pub fn has_no_task_hint(&self) -> (r: bool)
        requires
            self.queue().count() <= usize::MAX,
        ensures
            r == (self.queue().count() == 0),
    {
        match self {
            ModeSpecificTaskQueue::BlockVerification(queue) => queue.has_no_task_hint(),
        }
    }
}

/// The heaviest task is taken first, and leaves the queue; the others stay.
pub proof fn law_the_heaviest_is_taken(
    queue: &mut TaskQueue,
    weight: UniqueWeight,
    r: Option<TaskInQueue>,
)
    requires
        call_ensures(TaskQueue::heaviest_entry_to_execute, (queue,), r),
        old(queue).tasks@.dom().contains(weight),
        forall|j: UniqueWeight| #[trigger] old(queue).tasks@.dom().contains(j) ==> j <= weight,
    ensures
        r == Some(TaskInQueue(old(queue).tasks@[weight])),
        final(queue).tasks@ == old(queue).tasks@.remove(weight),
{
    let tasks = old(queue).tasks@;
    assert(tasks.dom().contains(weight));
    let task = r->Some_0;
    let k = choose|k: UniqueWeight|
        {
            &&& #[trigger] tasks.dom().contains(k)
            &&& tasks[k] == task.0
            &&& forall|j: UniqueWeight| #[trigger] tasks.dom().contains(j) ==> j <= k
            &&& final(queue).tasks@ == tasks.remove(k)
        };
    assert(tasks.dom().contains(k) && k <= weight);
}

/// A task that was put back comes next, before all that wait in the channel, which stay in their order;
/// without one the first of the channel comes next.
pub proof fn law_tasks_come_in_order(
    queue: &mut ModeSpecificTaskQueue,
    weight: UniqueWeight,
    task: TaskInQueue,
    later: &mut ModeSpecificTaskQueue,
    last: &mut ModeSpecificTaskQueue,
    first: Option<TaskInQueue>,
    second: Option<TaskInQueue>,
)
    requires
        old(queue).queue().channel@.len() > 0,
        call_ensures(ModeSpecificTaskQueue::add_to_schedule, (queue, weight, task), ()),
        *old(later) == *final(queue),
        call_ensures(ModeSpecificTaskQueue::heaviest_entry_to_execute, (later,), first),
        *old(last) == *final(later),
        call_ensures(ModeSpecificTaskQueue::heaviest_entry_to_execute, (last,), second),
    ensures
        first == Some(task),
        old(queue).queue().channel@[0].0 matches Flushable::Payload(next) ==> second == Some(next),
        old(queue).queue().channel@[0].0 is Flush ==> second is None,
        final(last).queue().channel@ == old(queue).queue().channel@.skip(1),
        final(last).queue().buffered_task is None,
{
}

/// The hint counts what is there.
pub proof fn law_the_hint_counts(queue: &ModeSpecificTaskQueue, n: usize, none: bool)
    requires
        call_ensures(ModeSpecificTaskQueue::task_count_hint, (queue,), n),
        call_ensures(ModeSpecificTaskQueue::has_no_task_hint, (queue,), none),
    ensures
        queue.queue().buffered_task is Some ==> n == queue.queue().channel@.len() + 1,
        queue.queue().buffered_task is None ==> n == queue.queue().channel@.len(),
        none <==> n == 0,
{
}

} // verus!
