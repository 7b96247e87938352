use crate::scheduler::usage::RequestedUsage;
use crate::scheduler_pool::address_book::{AddressBook, Preloader, ShownAddressBook};
use crate::scheduler_pool::locks::{LockAttempt, Task, TaskInQueue, UniqueWeight};
use crate::scheduler_pool::session::{SchedulerMainLoop, SchedulingContext, WaitReason};
use crate::scheduler_pool::task_queue::ExecutionEnvironment;
use crate::types::{
    ExecuteTimings, Pubkey, ResultWithTimings, SanitizedTransaction, TransactionError,
};
use rand::Rng;
use std::sync::Arc;
use vstd::prelude::*;

verus! {

pub type SchedulerId = u64;

/// How many handlers a scheduler has.
pub const HANDLER_COUNT: usize = 10;

/// Executes the transactions that a scheduler hands out.
pub trait Handler<B>: Sized {
    /// Executing `transaction`, with so many bytes of log messages at most, can turn the one result
    /// into the other. What it says is up to the handler.
    spec fn handles(
        &self,
        bank: &Arc<B>,
        transaction: &SanitizedTransaction,
        index: usize,
        log_messages_bytes_limit: Option<usize>,
        before: ResultWithTimings,
        after: ResultWithTimings,
    ) -> bool;

    /// A handler for the schedulers of a pool with that limit.
    fn create(log_messages_bytes_limit: Option<usize>) -> Self;

    fn handle(
        &self,
        result: &mut Result<(), TransactionError>,
        timings: &mut ExecuteTimings,
        bank: &Arc<B>,
        transaction: &SanitizedTransaction,
        index: usize,
        log_messages_bytes_limit: Option<usize>,
    )
        ensures
            self.handles(
                bank,
                transaction,
                index,
                log_messages_bytes_limit,
                (*old(result), *old(timings)),
                (*final(result), *final(timings)),
            ),
    ;
}

/// A transaction that goes to a bank on its own, with its index in the block.
pub struct TransactionBatchWithIndexes<'a> {
    pub batch: &'a SanitizedTransaction,
    pub transaction_indexes: Vec<usize>,
}

/// The handler that executes each transaction as a batch of its own.
#[derive(Debug, Clone)]
pub struct DefaultTransactionHandler;

impl DefaultTransactionHandler {
    /// The batch of one transaction. It takes no locks: whoever has it executed has to see to it
    /// that no two transactions that conflict are executed at once.
    pub fn batch_of_one<'a>(transaction: &'a SanitizedTransaction, index: usize) -> (r:
        TransactionBatchWithIndexes<'a>)
        ensures
            *r.batch == *transaction,
            r.transaction_indexes@ == seq![index],
    {
        let mut transaction_indexes: Vec<usize> = Vec::new();
        transaction_indexes.push(index);
        assert(transaction_indexes@ =~= seq![index]);
        TransactionBatchWithIndexes { batch: transaction, transaction_indexes }
    }
}

/// What happens to a handler.
pub enum HandlerEvent<B> {
    BlockedTransaction(Box<ExecutionEnvironment>),
    StartSession(SchedulingContext<B>),
    BlockedDisconnected,
    IdleTransaction(Box<ExecutionEnvironment>),
    IdleDisconnected,
}

/// What a handler is to do about an event.
pub enum HandlerStep {
    /// Execute the task and report it among the blocked ones.
    HandleBlocked(Box<ExecutionEnvironment>),
    /// Execute the task and report it among the idle ones.
    HandleIdle(Box<ExecutionEnvironment>),
    /// Wait for the next event.
    Continue,
    /// End.
    Break,
}

/// A handler: the bank of its session, how many bytes of log messages a transaction may leave, and
/// whether tasks can still come in to be done when there is time.
pub struct HandlerMainLoop<B> {
    pub bank: Arc<B>,
    pub log_messages_bytes_limit: Option<usize>,
    pub idle_open: bool,
}

impl<B> HandlerMainLoop<B> {
    pub fn new(context: &SchedulingContext<B>, log_messages_bytes_limit: Option<usize>) -> (r: Self)
        ensures
            r.bank == context.bank,
            r.log_messages_bytes_limit == log_messages_bytes_limit,
            r.idle_open,
    {
        Self { bank: Arc::clone(&context.bank), log_messages_bytes_limit, idle_open: true }
    }

    /// One turn of a handler.
    pub fn turn(&mut self, event: HandlerEvent<B>) -> (step: HandlerStep)
        ensures
            final(self).bank == (match event {
                HandlerEvent::StartSession(context) => context.bank,
                _ => old(self).bank,
            }),
            final(self).log_messages_bytes_limit == old(self).log_messages_bytes_limit,
            final(self).idle_open == (old(self).idle_open && !(event is IdleDisconnected)),
            step == (match event {
                HandlerEvent::BlockedTransaction(ee) => HandlerStep::HandleBlocked(ee),
                HandlerEvent::IdleTransaction(ee) => HandlerStep::HandleIdle(ee),
                HandlerEvent::BlockedDisconnected => HandlerStep::Break,
                HandlerEvent::StartSession(_) => HandlerStep::Continue,
                HandlerEvent::IdleDisconnected => HandlerStep::Continue,
            }),
    {
        match event {
            HandlerEvent::BlockedTransaction(ee) => HandlerStep::HandleBlocked(ee),
            HandlerEvent::StartSession(context) => {
                self.bank = context.bank;
                HandlerStep::Continue
            },
            HandlerEvent::BlockedDisconnected => HandlerStep::Break,
            HandlerEvent::IdleTransaction(ee) => HandlerStep::HandleIdle(ee),
            HandlerEvent::IdleDisconnected => {
                self.idle_open = false;
                HandlerStep::Continue
            },
        }
    }
}

/// The index in the block of the transaction of a task: the heavier the task, the earlier.
pub fn transaction_index(task: &Task) -> (r: usize)
    requires
        u128::MAX - task.unique_weight <= usize::MAX,
    ensures
        r == u128::MAX - task.unique_weight,
{
    (u128::MAX - task.unique_weight) as usize
}

/// `msg` is `before` with another outcome.
pub open spec fn same_but_for_result(before: ExecutionEnvironment, after: ExecutionEnvironment) -> bool {
    &&& after.task == before.task
    &&& after.finalized_lock_attempts == before.finalized_lock_attempts
    &&& after.execution_result == before.execution_result
}

/// Has the handler execute the transaction of a task; the outcome is what the handler makes it.
pub fn receive_scheduled_transaction<B, TH: Handler<B>>(
    handler: &TH,
    bank: &Arc<B>,
    msg: &mut ExecutionEnvironment,
    tasks: &Vec<Task>,
    log_messages_bytes_limit: Option<usize>,
)
    requires
        old(msg).task.0 < tasks@.len(),
        u128::MAX - tasks@[old(msg).task.0 as int].unique_weight <= usize::MAX,
    ensures
        same_but_for_result(*old(msg), *final(msg)),
        handler.handles(
            bank,
            &tasks@[old(msg).task.0 as int].tx,
            (u128::MAX - tasks@[old(msg).task.0 as int].unique_weight) as usize,
            log_messages_bytes_limit,
            old(msg).result_with_timings,
            final(msg).result_with_timings,
        ),
{
    let task = &tasks[msg.task.0];
    let index: usize = transaction_index(task);
    let mut result = msg.result_with_timings.0;
    let mut timings = msg.result_with_timings.1;
    handler.handle(
        &mut result,
        &mut timings,
        bank,
        &task.tx,
        index,
        log_messages_bytes_limit,
    );
    msg.result_with_timings = (result, timings);
}

/// A book with more pages: those that were there stay as they are, under their addresses.
pub open spec fn grown(before: AddressBook, after: AddressBook) -> bool {
    &&& after.held@ == before.held@
    &&& after.retryable_task_queue == before.retryable_task_queue
    &&& after.pages@.len() >= before.pages@.len()
    &&& after.pages@.take(before.pages@.len() as int) == before.pages@
    &&& forall|a: [u8; 32]| #[trigger]
        before.entries().dom().contains(a) ==> after.entries().dom().contains(a)
            && after.entries()[a] == before.entries()[a]
}

/// The attempts are for the pages of the addresses, in their order, all for the same usage.
pub open spec fn attempts_for(
    book: AddressBook,
    addresses: Seq<Pubkey>,
    usage: RequestedUsage,
    attempts: Seq<LockAttempt>,
) -> bool {
    &&& attempts.len() == addresses.len()
    &&& forall|i: int|
        0 <= i < addresses.len() ==> {
            &&& book.entries().dom().contains((#[trigger] addresses[i]).0)
            &&& attempts[i].page.0 == book.entries()[addresses[i].0]
            &&& attempts[i].requested_usage == usage
            &&& attempts[i].status == crate::scheduler_pool::locks::LockStatus::Succeded
        }
}

/// Attempts stay what they are when the book grows.
proof fn lemma_attempts_for_grown(
    before: AddressBook,
    after: AddressBook,
    addresses: Seq<Pubkey>,
    usage: RequestedUsage,
    attempts: Seq<LockAttempt>,
)
    requires
        attempts_for(before, addresses, usage, attempts),
        grown(before, after),
    ensures
        attempts_for(after, addresses, usage, attempts),
{
    assert forall|i: int| 0 <= i < addresses.len() implies {
        &&& after.entries().dom().contains((#[trigger] addresses[i]).0)
        &&& after.entries()[addresses[i].0] == before.entries()[addresses[i].0]
    } by {
        assert(before.entries().dom().contains(addresses[i].0));
    }
}

/// One more attempt for one more address.
proof fn lemma_attempts_for_push(
    book: AddressBook,
    addresses: Seq<Pubkey>,
    usage: RequestedUsage,
    attempts: Seq<LockAttempt>,
    address: Pubkey,
    attempt: LockAttempt,
)
    requires
        attempts_for(book, addresses, usage, attempts),
        book.entries().dom().contains(address.0),
        attempt.page.0 == book.entries()[address.0],
        attempt.requested_usage == usage,
        attempt.status == crate::scheduler_pool::locks::LockStatus::Succeded,
    ensures
        attempts_for(book, addresses.push(address), usage, attempts.push(attempt)),
{
    let more = addresses.push(address);
    let made = attempts.push(attempt);
    assert forall|i: int| 0 <= i < more.len() implies {
        &&& book.entries().dom().contains((#[trigger] more[i]).0)
        &&& made[i].page.0 == book.entries()[more[i].0]
        &&& made[i].requested_usage == usage
        &&& made[i].status == crate::scheduler_pool::locks::LockStatus::Succeded
    } by {
        if i < addresses.len() {
            assert(more[i] == addresses[i]);
        }
    }
}

/// The pages of the new addresses are those that were asked for.
pub open spec fn only_new(before: AddressBook, after: AddressBook, addresses: Set<Pubkey>) -> bool {
    forall|a: Pubkey| #[trigger]
        after.entries().dom().contains(a.0) && !before.entries().dom().contains(a.0)
            ==> addresses.contains(a)
}

/// Adds an attempt for each address to `lock_attempts`, with pages for the addresses that have
/// none yet.
fn load_locks(
    preloader: &mut Preloader<'_>,
    addresses: &Vec<Pubkey>,
    usage: RequestedUsage,
    lock_attempts: &mut Vec<LockAttempt>,
)
    requires
        old(preloader).book.wf(),
    ensures
        *final(final(preloader).book) == *final(old(preloader).book),
        final(preloader).book.wf(),
        grown(*old(preloader).book, *final(preloader).book),
        only_new(*old(preloader).book, *final(preloader).book, addresses@.to_set()),
        final(lock_attempts)@.len() == old(lock_attempts)@.len() + addresses@.len(),
        final(lock_attempts)@.take(old(lock_attempts)@.len() as int) == old(lock_attempts)@,
        attempts_for(
            *final(preloader).book,
            addresses@,
            usage,
            final(lock_attempts)@.skip(old(lock_attempts)@.len() as int),
        ),
{
    let ghost n = lock_attempts@.len();
    let mut i: usize = 0;
    let ghost before = *preloader.book;
    assert(before.pages@.take(before.pages@.len() as int) =~= before.pages@);
    assert(lock_attempts@.take(n as int) =~= lock_attempts@);
    while i < addresses.len()
        invariant
            *final(preloader.book) == *final(old(preloader).book),
            i <= addresses@.len(),
            n == old(lock_attempts)@.len(),
            before == *old(preloader).book,
            preloader.book.wf(),
            grown(before, *preloader.book),
            only_new(before, *preloader.book, addresses@.to_set()),
            lock_attempts@.len() == n + i,
            lock_attempts@.take(n as int) == old(lock_attempts)@,
            attempts_for(
                *preloader.book,
                addresses@.take(i as int),
                usage,
                lock_attempts@.skip(n as int),
            ),
        decreases addresses@.len() - i,
    {
        let ghost book0 = *preloader.book;
        let ghost attempts0 = lock_attempts@;
        let page = preloader.load(addresses[i]);
        lock_attempts.push(LockAttempt::new(page, usage));
        proof {
            let book = *preloader.book;
            let done = addresses@.take(i + 1);
            let made = lock_attempts@.skip(n as int);
            assert(lock_attempts@.take(n as int) =~= old(lock_attempts)@);
            assert(book.pages@.take(before.pages@.len() as int) =~= before.pages@) by {
                assert forall|p: int| 0 <= p < before.pages@.len() implies book.pages@[p]
                    == before.pages@[p] by {
                    assert(before.pages@[p] == book0.pages@.take(
                        before.pages@.len() as int,
                    )[p]);
                    if book.pages@.len() > book0.pages@.len() {
                        assert(book.pages@.drop_last()[p] == book0.pages@[p]);
                    }
                }
            }
            assert(book.pages@.take(book0.pages@.len() as int) =~= book0.pages@) by {
                if book.pages@.len() > book0.pages@.len() {
                    assert(book.pages@.drop_last() =~= book.pages@.take(
                        book0.pages@.len() as int,
                    ));
                }
            }
            assert(grown(book0, book));
            let done0 = addresses@.take(i as int);
            let made0 = attempts0.skip(n as int);
            lemma_attempts_for_grown(book0, book, done0, usage, made0);
            assert(done =~= done0.push(addresses@[i as int]));
            assert(made =~= made0.push(lock_attempts@.last()));
            lemma_attempts_for_push(book, done0, usage, made0, done.last(), made.last());
            assert forall|a: Pubkey| #[trigger]
                book.entries().dom().contains(a.0) && !before.entries().dom().contains(
                    a.0,
                ) implies addresses@.to_set().contains(a) by {
                if !book0.entries().dom().contains(a.0) {
                    assert(a == addresses@[i as int]);
                    assert(addresses@.contains(a));
                }
            }
        }
        i = i + 1;
    }
    assert(addresses@.take(addresses@.len() as int) =~= addresses@);
}

/// The threads of a scheduler: whether they run, what they work on, and what they keep between two
/// runs.
pub struct ThreadManager<B, TH> {
    pub log_messages_bytes_limit: Option<usize>,
    pub context: SchedulingContext<B>,
    pub handler: TH,
    pub handler_count: usize,
    pub active: bool,
    /// How many handlers run.
    pub handler_threads: usize,
    pub session_result_with_timings: Option<ResultWithTimings>,
    pub address_book: AddressBook,
    pub tasks: Vec<Task>,
}

impl<B, TH> ThreadManager<B, TH> {
    /// All handlers run beside an active scheduler, and none without it.
    pub open spec fn threads_wf(self) -> bool {
        self.handler_threads == (if self.active {
            self.handler_count
        } else {
            0
        })
    }

    pub fn new(
        log_messages_bytes_limit: Option<usize>,
        initial_context: SchedulingContext<B>,
        handler: TH,
        handler_count: usize,
    ) -> (r: Self)
        ensures
            r.log_messages_bytes_limit == log_messages_bytes_limit,
            r.context == initial_context,
            r.handler == handler,
            r.handler_count == handler_count,
            !r.active,
            r.threads_wf(),
            r.session_result_with_timings is None,
            r.address_book.wf(),
            r.address_book.is_blank(),
            r.tasks@.len() == 0,
    {
        Self {
            log_messages_bytes_limit,
            context: initial_context,
            handler,
            handler_count,
            active: false,
            handler_threads: 0,
            session_result_with_timings: None,
            address_book: AddressBook::default(),
            tasks: Vec::new(),
        }
    }

    pub fn is_active(&self) -> (r: bool)
        ensures
            r == self.active,
    {
        self.active
    }

    /// The threads as they are shown.
    pub fn shown(&self) -> (r: ShownThreadManager<'_, B, TH>)
        ensures
            r.shows(*self),
    {
        ShownThreadManager {
            log_messages_bytes_limit: self.log_messages_bytes_limit,
            context: &self.context,
            handler: &self.handler,
            handler_count: self.handler_count,
            active: self.active,
            handler_threads: self.handler_threads,
            session_result_with_timings: self.session_result_with_timings,
            address_book: self.address_book.shown(),
            tasks: &self.tasks,
        }
    }

    /// The loops of the threads to start: one scheduler, and one handler for each of the handler
    /// count. There is nothing to start where they run already.
    pub fn start_threads(&mut self) -> (r: Option<(SchedulerMainLoop, Vec<HandlerMainLoop<B>>)>)
        ensures
            final(self).active,
            old(self).threads_wf() ==> final(self).threads_wf(),
            final(self).log_messages_bytes_limit == old(self).log_messages_bytes_limit,
            final(self).context == old(self).context,
            final(self).handler == old(self).handler,
            final(self).handler_count == old(self).handler_count,
            final(self).address_book == old(self).address_book,
            final(self).tasks == old(self).tasks,
            match r {
                None => old(self).active && *final(self) == *old(self),
                Some((scheduler, handlers)) => {
                    &&& !old(self).active
                    &&& final(self).handler_threads == old(self).handler_count
                    &&& final(self).session_result_with_timings is None
                    &&& scheduler.wf()
                    &&& scheduler.state_machine.task_count == 0
                    &&& scheduler.result_with_timings == old(self).session_result_with_timings
                    &&& !scheduler.will_end_session
                    &&& !scheduler.will_end_thread
                    &&& handlers@.len() == old(self).handler_count
                    &&& forall|i: int|
                        0 <= i < handlers@.len() ==> {
                            &&& (#[trigger] handlers@[i]).bank == old(self).context.bank
                            &&& handlers@[i].log_messages_bytes_limit
                                == old(self).log_messages_bytes_limit
                            &&& handlers@[i].idle_open
                        }
                },
            },
    {
        if self.is_active() {
            return None;
        }
        let scheduler = SchedulerMainLoop::new(self.session_result_with_timings);
        self.session_result_with_timings = None;
        let mut handlers: Vec<HandlerMainLoop<B>> = Vec::new();
        let mut i: usize = 0;
        while i < self.handler_count
            invariant
                i <= self.handler_count,
                handlers@.len() == i,
                forall|j: int|
                    0 <= j < i ==> {
                        &&& (#[trigger] handlers@[j]).bank == self.context.bank
                        &&& handlers@[j].log_messages_bytes_limit == self.log_messages_bytes_limit
                        &&& handlers@[j].idle_open
                    },
            decreases self.handler_count - i,
        {
            handlers.push(HandlerMainLoop::new(&self.context, self.log_messages_bytes_limit));
            i = i + 1;
        }
        self.active = true;
        self.handler_threads = self.handler_count;
        Some((scheduler, handlers))
    }

    /// Keeps what the scheduler thread left when it ended.
    pub fn stop_threads(&mut self, result_with_timings: Option<ResultWithTimings>)
        ensures
            !old(self).active ==> *final(self) == *old(self),
            old(self).active ==> *final(self) == (ThreadManager {
                active: false,
                handler_threads: 0,
                session_result_with_timings: result_with_timings,
                ..*old(self)
            }),
    {
        if !self.is_active() {
            return ;
        }
        self.active = false;
        self.handler_threads = 0;
        self.session_result_with_timings = result_with_timings;
    }

    /// Makes a transaction a task: it locks the accounts that it writes, then those that it reads,
    /// and is the lighter the higher its index. The task is to be sent to the scheduler thread.
    pub fn new_task(&mut self, transaction: SanitizedTransaction, index: usize) -> (r: TaskInQueue)
        requires
            old(self).address_book.wf(),
        ensures
            final(self).address_book.wf(),
            grown(old(self).address_book, final(self).address_book),
            only_new(
                old(self).address_book,
                final(self).address_book,
                transaction.account_locks.writable@.to_set().union(
                    transaction.account_locks.readonly@.to_set(),
                ),
            ),
            final(self).log_messages_bytes_limit == old(self).log_messages_bytes_limit,
            final(self).context == old(self).context,
            final(self).handler == old(self).handler,
            final(self).handler_count == old(self).handler_count,
            final(self).active == old(self).active,
            final(self).handler_threads == old(self).handler_threads,
            final(self).session_result_with_timings == old(self).session_result_with_timings,
            r.0 == old(self).tasks@.len(),
            final(self).tasks@.len() == old(self).tasks@.len() + 1,
            final(self).tasks@.drop_last() == old(self).tasks@,
            is_task_of(
                final(self).address_book,
                transaction,
                index,
                final(self).tasks@.last(),
            ),
    {
        let mut lock_attempts: Vec<LockAttempt> = Vec::new();
        let ghost book0 = self.address_book;
        let mut preloader = self.address_book.preloader();
        load_locks(
            &mut preloader,
            &transaction.account_locks.writable,
            RequestedUsage::Writable,
            &mut lock_attempts,
        );
        let ghost book1 = *preloader.book;
        let ghost attempts1 = lock_attempts@;
        load_locks(
            &mut preloader,
            &transaction.account_locks.readonly,
            RequestedUsage::Readonly,
            &mut lock_attempts,
        );
        proof {
            let book2 = self.address_book;
            let n = transaction.account_locks.writable@.len() as int;
            let writable = transaction.account_locks.writable@;
            let made = lock_attempts@.take(n);
            assert(attempts1.skip(0) =~= attempts1);
            assert(made =~= attempts1);
            lemma_attempts_for_grown(book1, book2, writable, RequestedUsage::Writable, made);
            assert(book2.pages@.take(book0.pages@.len() as int) =~= book0.pages@) by {
                assert forall|p: int| 0 <= p < book0.pages@.len() implies book2.pages@[p]
                    == book0.pages@[p] by {
                    assert(book1.pages@.take(book0.pages@.len() as int)[p] == book0.pages@[p]);
                    assert(book2.pages@.take(book1.pages@.len() as int)[p] == book1.pages@[p]);
                }
            }
            assert forall|a: Pubkey| #[trigger]
                book2.entries().dom().contains(a.0) && !book0.entries().dom().contains(
                    a.0,
                ) implies writable.to_set().union(
                transaction.account_locks.readonly@.to_set(),
            ).contains(a) by {
                if book1.entries().dom().contains(a.0) {
                    assert(writable.to_set().contains(a));
                }
            }
        }
        let uw: UniqueWeight = u128::MAX - index as u128;
        let task: usize = self.tasks.len();
        let new_task = Task::new_for_queue(uw, (transaction, lock_attempts));
        self.tasks.push(new_task);
        assert(self.tasks@.drop_last() =~= old(self).tasks@);
        TaskInQueue(task)
    }
}

/// The task of a transaction.
pub open spec fn is_task_of(
    book: AddressBook,
    transaction: SanitizedTransaction,
    index: usize,
    task: Task,
) -> bool {
    let n = transaction.account_locks.writable@.len() as int;
    &&& task.unique_weight == u128::MAX - index
    &&& task.tx == transaction
    &&& task.lock_attempts@.len() == n + transaction.account_locks.readonly@.len()
    &&& task.contention_count == 0
    &&& task.uncontended == crate::scheduler_pool::locks::Contention::Fresh
    &&& attempts_for(
        book,
        transaction.account_locks.writable@,
        RequestedUsage::Writable,
        task.lock_attempts@.take(n),
    )
    &&& attempts_for(
        book,
        transaction.account_locks.readonly@,
        RequestedUsage::Readonly,
        task.lock_attempts@.skip(n),
    )
}

/// A scheduler that a pool can hand out again: it can be told of a new context.
pub trait InstallableScheduler<B>: Sized {
    spec fn id_view(&self) -> SchedulerId;

    spec fn context_view(&self) -> Option<SchedulingContext<B>>;

    /// The scheduler after it was told of a new context.
    spec fn with_context(self, context: SchedulingContext<B>) -> Self;

    fn id(&self) -> (r: SchedulerId)
        ensures
            r == self.id_view(),
    ;

    fn has_context(&self) -> (r: bool)
        ensures
            r == (self.context_view() is Some),
    ;

    fn replace_context(&mut self, context: SchedulingContext<B>)
        ensures
            *final(self) == old(self).with_context(context),
            final(self).id_view() == old(self).id_view(),
            final(self).context_view() == Some(context),
    ;
}

/// A scheduler that a pool can make.
pub trait SpawnableScheduler<B, TH: Handler<B>>: InstallableScheduler<B> {
    fn spawn(
        log_messages_bytes_limit: Option<usize>,
        initial_context: SchedulingContext<B>,
        handler: TH,
    ) -> (r: Self)
        ensures
            r.context_view() == Some(initial_context),
    ;
}

/// A scheduler with its threads, and the result of the session that ended last, until someone has
/// it.
pub struct PooledScheduler<B, TH> {
    pub id: SchedulerId,
    pub completed_result_with_timings: Option<ResultWithTimings>,
    /// A context was given and its session has not ended.
    pub in_context: bool,
    pub thread_manager: ThreadManager<B, TH>,
}

/// `rand::Rng::gen` on the generator of the thread: any number.
#[verifier::external_body]
fn random_scheduler_id() -> (r: SchedulerId) {
    rand::thread_rng().gen::<SchedulerId>()
}

impl<B, TH: Handler<B>> PooledScheduler<B, TH> {
    /// The scheduler is new: it has the context and the handler, no task came in, nothing has a
    /// result yet, and its threads are not started.
    pub open spec fn is_new(
        self,
        log_messages_bytes_limit: Option<usize>,
        initial_context: SchedulingContext<B>,
        handler: TH,
    ) -> bool {
        &&& self.completed_result_with_timings is None
        &&& self.in_context
        &&& self.thread_manager.log_messages_bytes_limit == log_messages_bytes_limit
        &&& self.thread_manager.context == initial_context
        &&& self.thread_manager.handler == handler
        &&& self.thread_manager.handler_count == HANDLER_COUNT
        &&& !self.thread_manager.active
        &&& self.thread_manager.threads_wf()
        &&& self.thread_manager.session_result_with_timings is None
        &&& self.thread_manager.address_book.wf()
        &&& self.thread_manager.address_book.is_blank()
        &&& self.thread_manager.tasks@.len() == 0
    }

    /// A new scheduler, whose threads are not started yet.
    pub fn do_spawn(
        log_messages_bytes_limit: Option<usize>,
        initial_context: SchedulingContext<B>,
        handler: TH,
    ) -> (r: Self)
        ensures
            r.is_new(log_messages_bytes_limit, initial_context, handler),
    {
        let id: SchedulerId = random_scheduler_id();
        Self::with_id(id, log_messages_bytes_limit, initial_context, handler)
    }

    /// The new scheduler of a given id.
    pub fn with_id(
        id: SchedulerId,
        log_messages_bytes_limit: Option<usize>,
        initial_context: SchedulingContext<B>,
        handler: TH,
    ) -> (r: Self)
        ensures
            r.id == id,
            r.is_new(log_messages_bytes_limit, initial_context, handler),
    {
        Self {
            id,
            completed_result_with_timings: None,
            in_context: true,
            thread_manager: ThreadManager::new(
                log_messages_bytes_limit,
                initial_context,
                handler,
                HANDLER_COUNT,
            ),
        }
    }

    /// The context of the session, or of the last one where it has ended.
    pub fn context(&self) -> (r: SchedulingContext<B>)
        ensures
            r == self.thread_manager.context,
    {
        self.thread_manager.context.clone()
    }

    /// Whether a wait has to end the session first: it has, unless an earlier wait did.
    pub fn must_end_session(&self) -> (r: bool)
        ensures
            r == (self.completed_result_with_timings is None),
    {
        self.completed_result_with_timings.is_none()
    }

    /// The outcome of a wait, where `session_result` is what the session, if it had to be ended,
    /// came to. A pause keeps the result for the wait that terminates, which ends the session:
    /// the scheduler has no context until it is given another.
    pub fn wait_for_termination(
        &mut self,
        wait_reason: &WaitReason,
        session_result: Option<ResultWithTimings>,
    ) -> (r: Option<ResultWithTimings>)
        ensures
            final(self).id == old(self).id,
            final(self).thread_manager == old(self).thread_manager,
            ({
                let completed = match old(self).completed_result_with_timings {
                    Some(result) => Some(result),
                    None => session_result,
                };
                if *wait_reason == WaitReason::PausedForRecentBlockhash {
                    &&& r is None
                    &&& final(self).completed_result_with_timings == completed
                    &&& final(self).in_context == old(self).in_context
                } else {
                    &&& r == completed
                    &&& final(self).completed_result_with_timings is None
                    &&& !final(self).in_context
                }
            }),
    {
        if self.completed_result_with_timings.is_none() {
            self.completed_result_with_timings = session_result;
        }
        if wait_reason.is_paused() {
            None
        } else {
            let result = self.completed_result_with_timings;
            self.completed_result_with_timings = None;
            self.in_context = false;
            result
        }
    }

    /// The scheduler as it is shown, with all its parts.
    pub fn shown(&self) -> (r: ShownScheduler<'_, B, TH>)
        ensures
            r.id == self.id,
            r.completed_result_with_timings == self.completed_result_with_timings,
            r.in_context == self.in_context,
            r.thread_manager.shows(self.thread_manager),
    {
        ShownScheduler {
            id: self.id,
            completed_result_with_timings: self.completed_result_with_timings,
            in_context: self.in_context,
            thread_manager: self.thread_manager.shown(),
        }
    }

    /// Makes a transaction a task; see `ThreadManager::new_task`.
    pub fn schedule_execution(&mut self, transaction: SanitizedTransaction, index: usize) -> (r:
        TaskInQueue)
        requires
            old(self).thread_manager.address_book.wf(),
        ensures
            final(self).id == old(self).id,
            final(self).in_context == old(self).in_context,
            final(self).completed_result_with_timings == old(self).completed_result_with_timings,
            final(self).thread_manager.address_book.wf(),
            grown(old(self).thread_manager.address_book, final(self).thread_manager.address_book),
            only_new(
                old(self).thread_manager.address_book,
                final(self).thread_manager.address_book,
                transaction.account_locks.writable@.to_set().union(
                    transaction.account_locks.readonly@.to_set(),
                ),
            ),
            final(self).thread_manager.handler_count == old(self).thread_manager.handler_count,
            final(self).thread_manager.session_result_with_timings
                == old(self).thread_manager.session_result_with_timings,
            final(self).thread_manager.log_messages_bytes_limit
                == old(self).thread_manager.log_messages_bytes_limit,
            final(self).thread_manager.context == old(self).thread_manager.context,
            final(self).thread_manager.handler == old(self).thread_manager.handler,
            final(self).thread_manager.active == old(self).thread_manager.active,
            final(self).thread_manager.handler_threads == old(self).thread_manager.handler_threads,
            r.0 == old(self).thread_manager.tasks@.len(),
            final(self).thread_manager.tasks@.len() == old(self).thread_manager.tasks@.len() + 1,
            final(self).thread_manager.tasks@.drop_last() == old(self).thread_manager.tasks@,
            is_task_of(
                final(self).thread_manager.address_book,
                transaction,
                index,
                final(self).thread_manager.tasks@.last(),
            ),
    {
        self.thread_manager.new_task(transaction, index)
    }
}

/// What there is to show of the threads of a scheduler.
#[derive(Debug)]
pub struct ShownThreadManager<'a, B, TH> {
    pub log_messages_bytes_limit: Option<usize>,
    pub context: &'a SchedulingContext<B>,
    pub handler: &'a TH,
    pub handler_count: usize,
    pub active: bool,
    pub handler_threads: usize,
    pub session_result_with_timings: Option<ResultWithTimings>,
    pub address_book: ShownAddressBook<'a>,
    pub tasks: &'a Vec<Task>,
}

impl<'a, B, TH> ShownThreadManager<'a, B, TH> {
    /// It shows `manager`, and leaves nothing of it out.
    pub open spec fn shows(self, manager: ThreadManager<B, TH>) -> bool {
        &&& self.log_messages_bytes_limit == manager.log_messages_bytes_limit
        &&& *self.context == manager.context
        &&& *self.handler == manager.handler
        &&& self.handler_count == manager.handler_count
        &&& self.active == manager.active
        &&& self.handler_threads == manager.handler_threads
        &&& self.session_result_with_timings == manager.session_result_with_timings
        &&& *self.address_book.book == manager.address_book.book
        &&& *self.address_book.pages == manager.address_book.pages
        &&& *self.address_book.retryable_task_queue == manager.address_book.retryable_task_queue
        &&& *self.tasks == manager.tasks
    }
}

/// What there is to show of a scheduler.
#[derive(Debug)]
pub struct ShownScheduler<'a, B, TH> {
    pub id: SchedulerId,
    pub completed_result_with_timings: Option<ResultWithTimings>,
    pub in_context: bool,
    pub thread_manager: ShownThreadManager<'a, B, TH>,
}

impl<B, TH: Handler<B>> InstallableScheduler<B> for PooledScheduler<B, TH> {
    open spec fn id_view(&self) -> SchedulerId {
        self.id
    }

    open spec fn context_view(&self) -> Option<SchedulingContext<B>> {
        if self.in_context {
            Some(self.thread_manager.context)
        } else {
            None
        }
    }

    open spec fn with_context(self, context: SchedulingContext<B>) -> Self {
        PooledScheduler {
            in_context: true,
            thread_manager: ThreadManager { context, ..self.thread_manager },
            ..self
        }
    }

    fn id(&self) -> (r: SchedulerId) {
        self.id
    }

    fn has_context(&self) -> (r: bool) {
        self.in_context
    }

    fn replace_context(&mut self, context: SchedulingContext<B>) {
        self.thread_manager.context = context;
        self.in_context = true;
    }
}

impl<B, TH: Handler<B>> SpawnableScheduler<B, TH> for PooledScheduler<B, TH> {
    fn spawn(
        log_messages_bytes_limit: Option<usize>,
        initial_context: SchedulingContext<B>,
        handler: TH,
    ) -> (r: Self)
        ensures
            r.is_new(log_messages_bytes_limit, initial_context, handler),
    {
        Self::do_spawn(log_messages_bytes_limit, initial_context, handler)
    }
}

/// Schedulers that wait to be taken again.
#[derive(Debug)]
pub struct SchedulerPool<T> {
    pub schedulers: Vec<T>,
    pub log_messages_bytes_limit: Option<usize>,
}

impl<T> SchedulerPool<T> {
    pub fn new(log_messages_bytes_limit: Option<usize>) -> (r: Self)
        ensures
            r.schedulers@ == Seq::<T>::empty(),
            r.log_messages_bytes_limit == log_messages_bytes_limit,
    {
        Self { schedulers: Vec::new(), log_messages_bytes_limit }
    }

    pub fn return_scheduler(&mut self, scheduler: T)
        ensures
            final(self).schedulers@ == old(self).schedulers@.push(scheduler),
            final(self).log_messages_bytes_limit == old(self).log_messages_bytes_limit,
    {
        self.schedulers.push(scheduler);
    }

    /// Takes the scheduler that was returned last, which is warm from use, into a new context: it is
    /// as it was returned but for that. An empty pool makes a new one, with a new handler.
    pub fn do_take_scheduler<B, TH: Handler<B>>(&mut self, context: SchedulingContext<B>) -> (r: T)
        where T: SpawnableScheduler<B, TH>
        ensures
            final(self).log_messages_bytes_limit == old(self).log_messages_bytes_limit,
            r.context_view() == Some(context),
            old(self).schedulers@.len() > 0 ==> {
                &&& final(self).schedulers@ == old(self).schedulers@.drop_last()
                &&& r == old(self).schedulers@.last().with_context(context)
                &&& r.id_view() == old(self).schedulers@.last().id_view()
            },
            old(self).schedulers@.len() == 0 ==> {
                &&& final(self).schedulers@ == old(self).schedulers@
                &&& exists|handler: TH|
                    {
                        &&& #[trigger] call_ensures(
                            <TH as Handler<B>>::create,
                            (old(self).log_messages_bytes_limit,),
                            handler,
                        )
                        &&& call_ensures(
                            <T as SpawnableScheduler<B, TH>>::spawn,
                            (old(self).log_messages_bytes_limit, context, handler),
                            r,
                        )
                    }
            },
    {
        match self.schedulers.pop() {
            Some(mut scheduler) => {
                scheduler.replace_context(context);
                scheduler
            },
            None => {
                let handler = <TH as Handler<B>>::create(self.log_messages_bytes_limit);
                T::spawn(self.log_messages_bytes_limit, context, handler)
            },
        }
    }
}

/// Schedulers are taken in the reverse of the order in which they were returned.
pub proof fn law_last_returned_is_taken_first<T>(pool: Seq<T>, first: T, second: T)
    ensures
        ({
            let returned = pool.push(first).push(second);
            &&& returned.last() == second
            &&& returned.drop_last().last() == first
            &&& returned.drop_last().drop_last() == pool
        }),
{
    assert(pool.push(first).push(second).drop_last() =~= pool.push(first));
    assert(pool.push(first).drop_last() =~= pool);
}

/// A task locks what its transaction names, and nothing else: each account that the transaction writes
/// is locked to be written and each that it reads to be read, by the page of its address. The
/// earlier the transaction, the heavier the task.
pub proof fn law_a_task_locks_what_its_transaction_names<B, TH>(
    manager: &mut ThreadManager<B, TH>,
    transaction: SanitizedTransaction,
    index: usize,
    r: TaskInQueue,
    i: int,
)
    requires
        old(manager).address_book.wf(),
        call_ensures(ThreadManager::<B, TH>::new_task, (manager, transaction, index), r),
    ensures
        ({
            let task = final(manager).tasks@[r.0 as int];
            let pages = final(manager).address_book.pages@;
            let writable = transaction.account_locks.writable@;
            let readonly = transaction.account_locks.readonly@;
            &&& task.unique_weight == u128::MAX - index
            &&& task.tx == transaction
            &&& task.uncontended == crate::scheduler_pool::locks::Contention::Fresh
            &&& task.contention_count == 0
            &&& task.lock_attempts@.len() == writable.len() + readonly.len()
            &&& 0 <= i < writable.len() ==> {
                &&& task.lock_attempts@[i].requested_usage == RequestedUsage::Writable
                &&& pages[task.lock_attempts@[i].page.0 as int].address == writable[i]
            }
            &&& 0 <= i < readonly.len() ==> {
                &&& task.lock_attempts@[writable.len() + i].requested_usage
                    == RequestedUsage::Readonly
                &&& pages[task.lock_attempts@[writable.len() + i].page.0 as int].address
                    == readonly[i]
            }
        }),
        final(manager).tasks@.len() == old(manager).tasks@.len() + 1,
        r.0 == old(manager).tasks@.len(),
        0 <= i < old(manager).tasks@.len() ==> final(manager).tasks@[i] == old(manager).tasks@[i],
        0 <= i < old(manager).address_book.pages@.len() ==> final(manager).address_book.pages@[i]
            == old(manager).address_book.pages@[i],
{
    let book = final(manager).address_book;
    let task = final(manager).tasks@.last();
    let writable = transaction.account_locks.writable@;
    let readonly = transaction.account_locks.readonly@;
    let n = writable.len() as int;
    let first = task.lock_attempts@.take(n);
    let rest = task.lock_attempts@.skip(n);
    assert(first.len() == n);
    assert(rest.len() == readonly.len());
    if 0 <= i < n {
        assert(book.entries().dom().contains(writable[i].0));
        assert(first[i] == task.lock_attempts@[i]);
        assert(book.pages@[book.entries()[writable[i].0] as int].address.0 == writable[i].0);
    }
    if 0 <= i < readonly.len() {
        assert(book.entries().dom().contains(readonly[i].0));
        assert(rest[i] == task.lock_attempts@[n + i]);
        assert(book.pages@[book.entries()[readonly[i].0] as int].address.0 == readonly[i].0);
    }
    if 0 <= i < old(manager).tasks@.len() {
        assert(final(manager).tasks@.drop_last()[i] == final(manager).tasks@[i]);
    }
    if 0 <= i < old(manager).address_book.pages@.len() {
        assert(book.pages@.take(old(manager).address_book.pages@.len() as int)[i] == book.pages@[i]);
    }
}

/// A task is executed on the bank of its session, as the transaction that it stands for, under the
/// index that it came in with.
pub proof fn law_a_task_keeps_its_index<B, TH>(
    manager: &mut ThreadManager<B, TH>,
    transaction: SanitizedTransaction,
    index: usize,
    r: TaskInQueue,
    found: usize,
)
    requires
        call_ensures(ThreadManager::<B, TH>::new_task, (manager, transaction, index), r),
        call_ensures(transaction_index, (&final(manager).tasks@[r.0 as int],), found),
    ensures
        found == index,
{
}

/// What a wait gives: a pause gives nothing and keeps the result for later, a termination gives the
/// result, which is then gone, and takes the context away. A result that was kept is not overwritten.
pub proof fn law_a_result_is_given_once<B, TH: Handler<B>>(
    scheduler: &mut PooledScheduler<B, TH>,
    session_result: Option<ResultWithTimings>,
    paused: Option<ResultWithTimings>,
    later: &mut PooledScheduler<B, TH>,
    later_result: Option<ResultWithTimings>,
    r: Option<ResultWithTimings>,
)
    requires
        old(scheduler).completed_result_with_timings is None,
        call_ensures(
            PooledScheduler::<B, TH>::wait_for_termination,
            (scheduler, &WaitReason::PausedForRecentBlockhash, session_result),
            paused,
        ),
        *old(later) == *final(scheduler),
        call_ensures(
            PooledScheduler::<B, TH>::wait_for_termination,
            (later, &WaitReason::TerminatedToFreeze, later_result),
            r,
        ),
    ensures
        paused is None,
        final(scheduler).in_context == old(scheduler).in_context,
        session_result is Some ==> r == session_result,
        session_result is None ==> r == later_result,
        final(later).completed_result_with_timings is None,
        !final(later).in_context,
        final(later).id == old(scheduler).id,
{
}

/// A started scheduler has one loop for its tasks and one handler for each of the count, all on the
/// bank of its context; starting it again starts nothing.
pub proof fn law_threads_are_started_once<B, TH>(
    manager: &mut ThreadManager<B, TH>,
    again: &mut ThreadManager<B, TH>,
    r: Option<(SchedulerMainLoop, Vec<HandlerMainLoop<B>>)>,
    second: Option<(SchedulerMainLoop, Vec<HandlerMainLoop<B>>)>,
    i: int,
)
    requires
        call_ensures(ThreadManager::<B, TH>::start_threads, (manager,), r),
        *old(again) == *final(manager),
        call_ensures(ThreadManager::<B, TH>::start_threads, (again,), second),
    ensures
        r is Some <==> !old(manager).active,
        second is None,
        *final(again) == *final(manager),
        final(manager).active,
        r matches Some((scheduler, handlers)) ==> {
            &&& handlers@.len() == old(manager).handler_count
            &&& scheduler.result_with_timings == old(manager).session_result_with_timings
            &&& scheduler.state_machine.task_count == 0
            &&& 0 <= i < handlers@.len() ==> handlers@[i].bank == old(manager).context.bank
            &&& 0 <= i < handlers@.len() ==> handlers@[i].log_messages_bytes_limit == old(
                manager,
            ).log_messages_bytes_limit
        },
{
}

/// What the threads leave when they are stopped is what they go on with when they are started again.
pub proof fn law_threads_go_on_where_they_stopped<B, TH>(
    manager: &mut ThreadManager<B, TH>,
    result: Option<ResultWithTimings>,
    again: &mut ThreadManager<B, TH>,
    r: Option<(SchedulerMainLoop, Vec<HandlerMainLoop<B>>)>,
)
    requires
        old(manager).active,
        call_ensures(ThreadManager::<B, TH>::stop_threads, (manager, result), ()),
        *old(again) == *final(manager),
        call_ensures(ThreadManager::<B, TH>::start_threads, (again,), r),
    ensures
        !final(manager).active,
        final(manager).handler_threads == 0,
        r matches Some((scheduler, _)) && scheduler.result_with_timings == result,
        final(manager).tasks == old(manager).tasks,
        final(manager).address_book == old(manager).address_book,
{
}

/// A handler hands on every task that it is given, on the bank of the session that began last, and
/// ends when no task will come in for sessions any more.
pub proof fn law_a_handler_hands_on_its_tasks<B>(
    handler: &mut HandlerMainLoop<B>,
    event: HandlerEvent<B>,
    step: HandlerStep,
)
    requires
        call_ensures(HandlerMainLoop::<B>::turn, (handler, event), step),
    ensures
        event matches HandlerEvent::BlockedTransaction(ee) ==> step == HandlerStep::HandleBlocked(ee),
        event matches HandlerEvent::IdleTransaction(ee) ==> step == HandlerStep::HandleIdle(ee),
        event matches HandlerEvent::StartSession(context) ==> final(handler).bank == context.bank,
        !(event is StartSession) ==> final(handler).bank == old(handler).bank,
        step is Break <==> event is BlockedDisconnected,
        final(handler).log_messages_bytes_limit == old(handler).log_messages_bytes_limit,
{
}

/// A pool hands out the scheduler that was returned to it last, in the new context and otherwise as it
/// was returned, and keeps the others.
pub proof fn law_a_returned_scheduler_is_taken<B, T: SpawnableScheduler<B, TH>, TH: Handler<B>>(
    pool: &mut SchedulerPool<T>,
    scheduler: T,
    later: &mut SchedulerPool<T>,
    context: SchedulingContext<B>,
    r: T,
)
    requires
        call_ensures(SchedulerPool::<T>::return_scheduler, (pool, scheduler), ()),
        *old(later) == *final(pool),
        call_ensures(SchedulerPool::<T>::do_take_scheduler::<B, TH>, (later, context), r),
    ensures
        r == scheduler.with_context(context),
        r.context_view() == Some(context),
        final(later).schedulers@ == old(pool).schedulers@,
        final(later).log_messages_bytes_limit == old(pool).log_messages_bytes_limit,
{
    assert(final(later).schedulers@ =~= old(pool).schedulers@);
}

} // verus!
