use solana_validator::scheduler_pool::address_book::AddressBook;
use solana_validator::scheduler_pool::pool::{
    receive_scheduled_transaction, transaction_index, DefaultTransactionHandler, Handler,
    HandlerEvent, HandlerMainLoop, HandlerStep, InstallableScheduler, PooledScheduler, SchedulerId,
    SchedulerPool, SpawnableScheduler,
};
use solana_validator::scheduler_pool::session::{
    SchedulerEvent, SchedulerMainLoop, SchedulingContext, SchedulingMode, WaitReason,
};
use solana_validator::scheduler_pool::task_queue::{
    ChannelBackedTaskQueue, ExecutionEnvironment, Flushable, SchedulablePayload,
};
use solana_validator::scheduler_pool::locks::TaskInQueue;
use solana_validator::types::{
    ExecuteTimings, Pubkey, ResultWithTimings, SanitizedTransaction,
    TransactionAccountLocks, TransactionError,
};
use std::collections::{HashSet, VecDeque};
use std::sync::atomic::{AtomicU64, Ordering};
use std::sync::{Arc, Mutex};

/// A bank that knows which accounts have tokens, and which blockhashes are too old.
#[derive(Debug, Default)]
struct Bank {
    transaction_count: AtomicU64,
    funded: HashSet<[u8; 32]>,
    blockhash_is_last_valid: bool,
    blockhash_expired: Mutex<bool>,
    log_limit: Mutex<Option<usize>>,
}

impl Bank {
    fn transaction_count(&self) -> u64 {
        self.transaction_count.load(Ordering::Relaxed)
    }

    fn register_recent_blockhash(&self) {
        if self.blockhash_is_last_valid {
            *self.blockhash_expired.lock().unwrap() = true;
        }
    }
}

#[derive(Debug)]
struct TestHandler;

impl Handler<Bank> for TestHandler {
    fn handles(
        &self,
        _bank: &Arc<Bank>,
        _transaction: &SanitizedTransaction,
        _index: usize,
        _log_messages_bytes_limit: Option<usize>,
        _before: ResultWithTimings,
        _after: ResultWithTimings,
    ) -> bool {
        true
    }

    fn create(_log_messages_bytes_limit: Option<usize>) -> Self {
        TestHandler
    }

    fn handle(
        &self,
        result: &mut Result<(), TransactionError>,
        timings: &mut ExecuteTimings,
        bank: &Arc<Bank>,
        transaction: &SanitizedTransaction,
        _index: usize,
        log_messages_bytes_limit: Option<usize>,
    ) {
        timings.execute_us += 1;
        *bank.log_limit.lock().unwrap() = log_messages_bytes_limit;
        if *bank.blockhash_expired.lock().unwrap() {
            *result = Err(TransactionError::BlockhashNotFound);
        } else if !bank.funded.contains(&transaction.account_locks.writable[0].0) {
            *result = Err(TransactionError::AccountNotFound);
        } else {
            bank.transaction_count.fetch_add(1, Ordering::Relaxed);
        }
    }
}

type TestScheduler = PooledScheduler<Bank, TestHandler>;

fn transfer(from: u8, to: u8) -> SanitizedTransaction {
    SanitizedTransaction {
        message_hash: solana_validator::types::Hash([from ^ to; 32]),
        account_locks: TransactionAccountLocks {
            writable: vec![Pubkey([from; 32]), Pubkey([to; 32])],
            readonly: vec![Pubkey([0; 32])],
        },
    }
}

fn bank_with_mint(mint: u8) -> Bank {
    let mut bank = Bank::default();
    bank.funded.insert([mint; 32]);
    bank
}

fn verification_of(bank: &Arc<Bank>) -> SchedulingContext<Bank> {
    SchedulingContext::new(SchedulingMode::BlockVerification, bank.clone())
}

/// Runs the threads of a scheduler one after the other.
struct Runner {
    main_loop: SchedulerMainLoop,
    handlers: Vec<HandlerMainLoop<Bank>>,
}

impl Runner {
    fn start(scheduler: &mut TestScheduler) -> Self {
        let (main_loop, handlers) = scheduler.thread_manager.start_threads().unwrap();
        Self { main_loop, handlers }
    }

    fn schedule(&mut self, scheduler: &mut TestScheduler, tx: &SanitizedTransaction, index: usize) {
        let task = scheduler.schedule_execution(tx.clone(), index);
        let step = self.main_loop.turn::<Bank>(SchedulerEvent::NewTransaction(task));
        if let Some(ee) = step.scheduled {
            let handler = &mut self.handlers[0];
            let mut ee = match handler.turn(HandlerEvent::BlockedTransaction(ee)) {
                HandlerStep::HandleBlocked(ee) => ee,
                _ => panic!("not handled"),
            };
            receive_scheduled_transaction(
                &TestHandler,
                &handler.bank,
                &mut ee,
                &scheduler.thread_manager.tasks,
                handler.log_messages_bytes_limit,
            );
            let step = self
                .main_loop
                .turn::<Bank>(SchedulerEvent::HandledBlockedTransaction(ee));
            assert!(step.scheduled.is_none());
        }
    }

    fn end_session(&mut self) -> Option<ResultWithTimings> {
        self.main_loop
            .turn::<Bank>(SchedulerEvent::EndSession)
            .session_result
            .unwrap()
    }
}

/// Ends the session if that is still to be done, and waits.
fn wait(
    scheduler: &mut TestScheduler,
    runner: Option<&mut Runner>,
    reason: WaitReason,
) -> Option<ResultWithTimings> {
    let session_result = if scheduler.must_end_session() {
        runner.and_then(|runner| runner.end_session())
    } else {
        None
    };
    scheduler.wait_for_termination(&reason, session_result)
}

#[test]
fn test_scheduler_spawn() {
    let mut pool = SchedulerPool::<TestScheduler>::new(None);
    let bank = Arc::new(Bank::default());
    let context = verification_of(&bank);
    let scheduler = pool.do_take_scheduler::<Bank, TestHandler>(context);

    let debug = format!("{:#?}", scheduler.shown());
    assert!(!debug.is_empty());
    assert!(debug.contains(&format!("id: {}", scheduler.id())));
    for part in [
        "completed_result_with_timings: None",
        "in_context: true",
        "mode: BlockVerification",
        "transaction_count: 0",
        "handler: TestHandler",
        "handler_count: 10",
        "active: false",
        "handler_threads: 0",
        "session_result_with_timings: None",
        "address_book: ",
        "retryable_task_queue: {}",
        "tasks: []",
    ] {
        assert!(debug.contains(part), "{part} is not shown");
    }
}

#[test]
fn test_scheduler_pool_filo() {
    let mut pool = SchedulerPool::<TestScheduler>::new(None);
    let bank = Arc::new(Bank::default());
    let context = &verification_of(&bank);

    let mut scheduler1 = pool.do_take_scheduler::<Bank, TestHandler>(context.clone());
    let scheduler_id1 = scheduler1.id();
    let mut scheduler2 = pool.do_take_scheduler::<Bank, TestHandler>(context.clone());
    let scheduler_id2 = scheduler2.id();
    assert_ne!(scheduler_id1, scheduler_id2);

    assert!(wait(&mut scheduler1, None, WaitReason::TerminatedToFreeze).is_none());
    pool.return_scheduler(scheduler1);
    assert!(wait(&mut scheduler2, None, WaitReason::TerminatedToFreeze).is_none());
    pool.return_scheduler(scheduler2);

    let scheduler3 = pool.do_take_scheduler::<Bank, TestHandler>(context.clone());
    assert_eq!(scheduler_id2, scheduler3.id());
    let scheduler4 = pool.do_take_scheduler::<Bank, TestHandler>(context.clone());
    assert_eq!(scheduler_id1, scheduler4.id());
}

#[test]
fn test_scheduler_pool_context_drop_unless_reinitialized() {
    let mut pool = SchedulerPool::<TestScheduler>::new(None);
    let bank = Arc::new(Bank::default());
    let context = &verification_of(&bank);

    let mut scheduler = pool.do_take_scheduler::<Bank, TestHandler>(context.clone());
    let mut runner = Runner::start(&mut scheduler);

    assert!(scheduler.has_context());
    assert!(wait(&mut scheduler, Some(&mut runner), WaitReason::PausedForRecentBlockhash).is_none());
    assert!(scheduler.has_context());
    assert!(wait(&mut scheduler, Some(&mut runner), WaitReason::TerminatedToFreeze).is_none());
    assert!(!scheduler.has_context());
}

#[test]
fn test_scheduler_pool_context_replace() {
    let mut pool = SchedulerPool::<TestScheduler>::new(None);
    let old_bank = &Arc::new(Bank::default());
    let new_bank = &Arc::new(Bank::default());
    assert!(!Arc::ptr_eq(old_bank, new_bank));

    let old_context = &verification_of(old_bank);
    let new_context = &verification_of(new_bank);

    let mut scheduler = pool.do_take_scheduler::<Bank, TestHandler>(old_context.clone());
    let scheduler_id = scheduler.id();
    assert!(wait(&mut scheduler, None, WaitReason::TerminatedToFreeze).is_none());
    pool.return_scheduler(scheduler);

    let scheduler = pool.do_take_scheduler::<Bank, TestHandler>(new_context.clone());
    assert_eq!(scheduler_id, scheduler.id());
    assert!(Arc::ptr_eq(scheduler.context().bank(), new_bank));
}

#[test]
fn test_scheduler_schedule_execution_success() {
    let tx0 = &transfer(1, 2);
    let bank = Arc::new(bank_with_mint(1));
    let mut pool = SchedulerPool::<TestScheduler>::new(None);
    let context = verification_of(&bank);

    assert_eq!(bank.transaction_count(), 0);
    let mut scheduler = pool.do_take_scheduler::<Bank, TestHandler>(context);
    let mut runner = Runner::start(&mut scheduler);
    runner.schedule(&mut scheduler, tx0, 0);
    let result = wait(&mut scheduler, Some(&mut runner), WaitReason::TerminatedToFreeze);
    assert!(matches!(result, Some((Ok(()), _))));
    assert_eq!(bank.transaction_count(), 1);
}

#[test]
fn test_scheduler_schedule_execution_failure() {
    let tx0 = &transfer(9, 2);
    let bank = Arc::new(bank_with_mint(1));
    let mut pool = SchedulerPool::<TestScheduler>::new(None);
    let context = verification_of(&bank);

    assert_eq!(bank.transaction_count(), 0);
    let mut scheduler = pool.do_take_scheduler::<Bank, TestHandler>(context);
    let mut runner = Runner::start(&mut scheduler);
    runner.schedule(&mut scheduler, tx0, 0);
    assert_eq!(bank.transaction_count(), 0);

    let tx1 = &transfer(1, 3);
    assert!(bank.funded.contains(&tx1.account_locks.writable[0].0));
    runner.schedule(&mut scheduler, tx1, 0);
    // transaction_count should remain same as scheduler should be bailing out.
    assert_eq!(bank.transaction_count(), 0);

    let result = wait(&mut scheduler, Some(&mut runner), WaitReason::TerminatedToFreeze);
    assert!(matches!(
        result,
        Some((Err(TransactionError::AccountNotFound), _))
    ));
}

/// A scheduler that executes nothing before it is waited for.
struct AsyncScheduler<const TRIGGER_RACE_CONDITION: bool>(
    TestScheduler,
    Vec<(SanitizedTransaction, usize)>,
);

impl<const TRIGGER_RACE_CONDITION: bool> InstallableScheduler<Bank>
    for AsyncScheduler<TRIGGER_RACE_CONDITION>
{
    fn id_view(&self) -> SchedulerId {
        self.0.id
    }

    fn context_view(&self) -> Option<SchedulingContext<Bank>> {
        self.0.has_context().then(|| self.0.context())
    }

    fn with_context(mut self, context: SchedulingContext<Bank>) -> Self {
        self.replace_context(context);
        self
    }

    fn id(&self) -> SchedulerId {
        self.0.id()
    }

    fn has_context(&self) -> bool {
        self.0.has_context()
    }

    fn replace_context(&mut self, context: SchedulingContext<Bank>) {
        self.0.replace_context(context)
    }
}

impl<const TRIGGER_RACE_CONDITION: bool> SpawnableScheduler<Bank, TestHandler>
    for AsyncScheduler<TRIGGER_RACE_CONDITION>
{
    fn spawn(
        log_messages_bytes_limit: Option<usize>,
        initial_context: SchedulingContext<Bank>,
        handler: TestHandler,
    ) -> Self {
        Self(PooledScheduler::spawn(log_messages_bytes_limit, initial_context, handler), vec![])
    }
}

impl<const TRIGGER_RACE_CONDITION: bool> AsyncScheduler<TRIGGER_RACE_CONDITION> {
    fn wait_for_termination(&mut self, reason: &WaitReason) -> Option<ResultWithTimings> {
        if TRIGGER_RACE_CONDITION && reason.is_paused() {
            // this is equivalent to NOT calling wait_for_paused_scheduler() in
            // register_recent_blockhash().
            return None;
        }
        let mut overall: Option<ResultWithTimings> = None;
        if self.0.must_end_session() {
            let mut session = (Ok(()), ExecuteTimings::default());
            let context = self.0.context();
            for (transaction, index) in self.1.drain(..) {
                let mut result = Ok(());
                let mut timings = ExecuteTimings::default();
                TestHandler.handle(
                    &mut result,
                    &mut timings,
                    context.bank(),
                    &transaction,
                    index,
                    None,
                );
                let task = self.0.schedule_execution(transaction, index);
                let msg = ExecutionEnvironment {
                    task,
                    finalized_lock_attempts: vec![],
                    execution_result: None,
                    result_with_timings: (result, timings),
                };
                SchedulerMainLoop::update_result_with_timings(&mut session, &msg);
            }
            overall = Some(session);
        }
        self.0.wait_for_termination(reason, overall)
    }
}

fn do_test_scheduler_schedule_execution_recent_blockhash_edge_case<
    const TRIGGER_RACE_CONDITION: bool,
>() {
    let very_old_valid_tx = transfer(1, 2);
    let mut bank = bank_with_mint(1);
    bank.blockhash_is_last_valid = true;
    let bank = Arc::new(bank);
    let context = verification_of(&bank);

    let mut pool = SchedulerPool::<AsyncScheduler<TRIGGER_RACE_CONDITION>>::new(None);
    let mut scheduler = pool.do_take_scheduler::<Bank, TestHandler>(context);
    assert_eq!(bank.transaction_count(), 0);

    // schedule but not immediately execute transaction
    scheduler.1.push((very_old_valid_tx, 0));
    // the bank waits for the scheduler before it registers a blockhash
    assert!(scheduler
        .wait_for_termination(&WaitReason::PausedForRecentBlockhash)
        .is_none());
    bank.register_recent_blockhash();

    let result = scheduler.wait_for_termination(&WaitReason::TerminatedToFreeze);
    if TRIGGER_RACE_CONDITION {
        // very_old_valid_tx is wrongly handled as expired!
        assert!(matches!(
            result,
            Some((Err(TransactionError::BlockhashNotFound), _))
        ));
        assert_eq!(bank.transaction_count(), 0);
    } else {
        assert!(matches!(result, Some((Ok(()), _))));
        assert_eq!(bank.transaction_count(), 1);
    }
}

#[test]
fn test_scheduler_schedule_execution_recent_blockhash_edge_case_with_race() {
    do_test_scheduler_schedule_execution_recent_blockhash_edge_case::<true>();
}

#[test]
fn test_scheduler_schedule_execution_recent_blockhash_edge_case_without_race() {
    do_test_scheduler_schedule_execution_recent_blockhash_edge_case::<false>();
}

#[test]
fn a_wait_that_pauses_keeps_the_result() {
    let bank = Arc::new(bank_with_mint(1));
    let mut scheduler = TestScheduler::with_id(7, None, verification_of(&bank), TestHandler);
    let mut runner = Runner::start(&mut scheduler);
    assert!(scheduler.thread_manager.is_active());
    assert_eq!(scheduler.thread_manager.handler_threads, 10);
    assert!(scheduler.thread_manager.start_threads().is_none());
    assert!(scheduler.thread_manager.is_active());
    assert_eq!(scheduler.thread_manager.handler_threads, 10);
    runner.schedule(&mut scheduler, &transfer(1, 2), 0);
    assert!(wait(&mut scheduler, Some(&mut runner), WaitReason::PausedForRecentBlockhash).is_none());
    assert!(!scheduler.must_end_session());
    let result = wait(&mut scheduler, Some(&mut runner), WaitReason::TerminatedToFreeze);
    assert_eq!(result, Some((Ok(()), ExecuteTimings { execute_us: 1 })));
    assert_eq!(scheduler.id(), 7);
}

#[test]
fn a_scheduler_ends_when_its_source_is_gone_and_all_is_through() {
    let mut main_loop = SchedulerMainLoop::new(None);
    let step = main_loop.turn::<Bank>(SchedulerEvent::NewTransaction(TaskInQueue(0)));
    let ee = step.scheduled.unwrap();
    assert_eq!(ee.task, TaskInQueue(0));
    let step = main_loop.turn::<Bank>(SchedulerEvent::Disconnected);
    assert!(!step.thread_ends);
    let step = main_loop.turn::<Bank>(SchedulerEvent::HandledIdleTransaction(ee));
    assert!(step.thread_ends);
    assert!(step.session_result.is_none());
}

#[test]
fn a_session_begins_for_every_handler() {
    let bank = Arc::new(Bank::default());
    let next = Arc::new(Bank::default());
    let mut main_loop = SchedulerMainLoop::new(None);
    let step = main_loop.turn(SchedulerEvent::StartSession(verification_of(&next)));
    let mut handler = HandlerMainLoop::new(&verification_of(&bank), None);
    assert!(matches!(
        handler.turn(HandlerEvent::StartSession(step.start_session.unwrap())),
        HandlerStep::Continue
    ));
    assert!(Arc::ptr_eq(&handler.bank, &next));
    assert!(matches!(handler.turn(HandlerEvent::IdleDisconnected), HandlerStep::Continue));
    assert!(!handler.idle_open);
    assert!(matches!(handler.turn(HandlerEvent::BlockedDisconnected), HandlerStep::Break));
}

#[test]
fn stopped_threads_leave_their_result() {
    let bank = Arc::new(Bank::default());
    let mut scheduler = TestScheduler::with_id(1, None, verification_of(&bank), TestHandler);
    scheduler.thread_manager.stop_threads(Some((Ok(()), ExecuteTimings::default())));
    assert!(scheduler.thread_manager.session_result_with_timings.is_none());
    let (_, handlers) = scheduler.thread_manager.start_threads().unwrap();
    assert_eq!(handlers.len(), 10);
    scheduler.thread_manager.stop_threads(Some((Ok(()), ExecuteTimings { execute_us: 3 })));
    assert!(!scheduler.thread_manager.is_active());
    assert_eq!(scheduler.thread_manager.handler_threads, 0);
    // Threads can be started without a session too.
    scheduler.wait_for_termination(&WaitReason::TerminatedToFreeze, None);
    assert!(!scheduler.has_context());
    assert!(Arc::ptr_eq(scheduler.context().bank(), &bank));
    let (main_loop, handlers) = scheduler.thread_manager.start_threads().unwrap();
    assert_eq!(handlers.len(), 10);
    assert_eq!(
        main_loop.result_with_timings,
        Some((Ok(()), ExecuteTimings { execute_us: 3 }))
    );
}

#[test]
fn a_task_locks_what_its_transaction_names() {
    let bank = Arc::new(Bank::default());
    let mut scheduler = TestScheduler::with_id(1, None, verification_of(&bank), TestHandler);
    let task = scheduler.schedule_execution(transfer(1, 2), 5);
    assert_eq!(task, TaskInQueue(0));
    let task = &scheduler.thread_manager.tasks[0];
    assert_eq!(task.unique_weight, u128::MAX - 5);
    assert_eq!(transaction_index(task), 5);
    let pages: Vec<usize> = task.lock_attempts.iter().map(|a| a.page.0).collect();
    assert_eq!(pages, vec![0, 1, 2]);
    scheduler.schedule_execution(transfer(2, 3), 6);
    let pages: Vec<usize> = scheduler.thread_manager.tasks[1]
        .lock_attempts
        .iter()
        .map(|a| a.page.0)
        .collect();
    assert_eq!(pages, vec![1, 3, 2]);
}

#[test]
fn a_batch_is_of_one_transaction() {
    let tx = transfer(1, 2);
    let batch = DefaultTransactionHandler::batch_of_one(&tx, 4);
    assert_eq!(batch.transaction_indexes, vec![4]);
    assert_eq!(batch.batch.message_hash, tx.message_hash);
}

#[test]
fn a_buffered_task_comes_first() {
    let mut channel = VecDeque::new();
    channel.push_back(SchedulablePayload(Flushable::Payload(TaskInQueue(1))));
    channel.push_back(SchedulablePayload(Flushable::Flush));
    let mut queue = ChannelBackedTaskQueue::new(channel);
    assert_eq!(queue.task_count_hint(), 2);
    queue.add_to_schedule(0, TaskInQueue(9));
    assert_eq!(queue.task_count_hint(), 3);
    assert_eq!(queue.heaviest_entry_to_execute(), Some(TaskInQueue(9)));
    assert_eq!(queue.heaviest_entry_to_execute(), Some(TaskInQueue(1)));
    assert_eq!(queue.heaviest_entry_to_execute(), None);
    assert!(queue.has_no_task_hint());
}

#[test]
fn a_failed_session_stays_failed_and_hands_nothing_out() {
    let mut main_loop = SchedulerMainLoop::new(None);
    let turn = |main_loop: &mut SchedulerMainLoop, event| main_loop.turn::<Bank>(event);
    let mut bad =
        turn(&mut main_loop, SchedulerEvent::NewTransaction(TaskInQueue(0))).scheduled.unwrap();
    let good =
        turn(&mut main_loop, SchedulerEvent::NewTransaction(TaskInQueue(1))).scheduled.unwrap();
    bad.result_with_timings.0 = Err(TransactionError::AccountNotFound);
    turn(&mut main_loop, SchedulerEvent::HandledBlockedTransaction(bad));
    assert!(turn(&mut main_loop, SchedulerEvent::NewTransaction(TaskInQueue(2))).scheduled.is_none());
    turn(&mut main_loop, SchedulerEvent::HandledBlockedTransaction(good));
    let result = turn(&mut main_loop, SchedulerEvent::EndSession).session_result.unwrap().unwrap();
    assert_eq!(result.0, Err(TransactionError::AccountNotFound));
    // The next session begins anew.
    assert!(turn(&mut main_loop, SchedulerEvent::NewTransaction(TaskInQueue(3))).scheduled.is_some());
}

#[test]
fn a_preloader_of_the_pool_loads_into_its_book() {
    let mut book = AddressBook::default();
    let mut preloader = book.preloader();
    let one = preloader.load(Pubkey([1; 32]));
    let two = preloader.load(Pubkey([2; 32]));
    assert_eq!(preloader.load(Pubkey([1; 32])), one);
    assert_eq!(book.preloader().load(Pubkey([2; 32])), two);
    assert_eq!(book.pages.len(), 2);
    assert_eq!(book.pages[one.0].address, Pubkey([1; 32]));
    assert_eq!(book.pages[two.0].address, Pubkey([2; 32]));
}

#[test]
fn a_pool_hands_schedulers_out_as_they_were_returned() {
    let mut pool = SchedulerPool::<TestScheduler>::new(Some(99));
    let bank = Arc::new(bank_with_mint(1));
    let mut scheduler = pool.do_take_scheduler::<Bank, TestHandler>(verification_of(&bank));
    let id = scheduler.id();
    assert_eq!(scheduler.thread_manager.log_messages_bytes_limit, Some(99));
    let mut runner = Runner::start(&mut scheduler);
    assert!(wait(&mut scheduler, Some(&mut runner), WaitReason::TerminatedToFreeze).is_none());
    pool.return_scheduler(scheduler);

    let mut scheduler = pool.do_take_scheduler::<Bank, TestHandler>(verification_of(&bank));
    assert_eq!(scheduler.id(), id);
    assert!(scheduler.thread_manager.is_active());
    runner.schedule(&mut scheduler, &transfer(1, 2), 0);
    assert_eq!(
        wait(&mut scheduler, Some(&mut runner), WaitReason::TerminatedToFreeze),
        Some((Ok(()), ExecuteTimings { execute_us: 1 }))
    );
    assert_eq!(bank.transaction_count(), 1);
    assert_eq!(*bank.log_limit.lock().unwrap(), Some(99));
    pool.return_scheduler(scheduler);

    let mut scheduler = pool.do_take_scheduler::<Bank, TestHandler>(verification_of(&bank));
    assert_eq!(scheduler.thread_manager.tasks.len(), 1);
    assert!(wait(&mut scheduler, Some(&mut runner), WaitReason::TerminatedToFreeze).is_none());
}
