use solana_validator::scheduler::address_book::{AddressBook, ProvisioningTracker};
use solana_validator::scheduler::contended::ExecutionEnvironment;
use solana_validator::scheduler::locking::{
    attempt_lock_for_execution, reset_lock_for_failed_execution,
};
use solana_validator::scheduler::run::{
    Round, RoundAction, RoundPhase, RoundStep, SchedulerRun,
};
use solana_validator::scheduler::task::{
    Contention, LockAttempt, LockStatus, NotAtScheduleThread, Task, TaskIds, TaskInQueue, TaskQueue,
};
use solana_validator::scheduler::usage::{RequestedUsage, Usage};
use solana_validator::types::{
    Pubkey, SanitizedTransaction, TransactionAccountLocks, TransactionError,
};

#[derive(Clone, Copy)]
struct AnyThread;
impl NotAtScheduleThread for AnyThread {}

fn transaction(writable: &[u8], readonly: &[u8]) -> SanitizedTransaction {
    SanitizedTransaction {
        message_hash: solana_validator::types::Hash([0; 32]),
        account_locks: TransactionAccountLocks {
            writable: writable.iter().map(|a| Pubkey([*a; 32])).collect(),
            readonly: readonly.iter().map(|a| Pubkey([*a; 32])).collect(),
        },
    }
}

fn register(run: &mut SchedulerRun, writable: &[u8], readonly: &[u8]) {
    let mut attempts = vec![];
    for a in writable {
        let page = run.load(Pubkey([*a; 32]));
        attempts.push(LockAttempt::new(page, RequestedUsage::Writable));
    }
    for a in readonly {
        let page = run.load(Pubkey([*a; 32]));
        attempts.push(LockAttempt::new(page, RequestedUsage::Readonly));
    }
    let weight = u64::MAX - run.tasks.len() as u64;
    let task = Task::new_for_queue(AnyThread, weight, (transaction(writable, readonly), attempts));
    assert!(run.can_register(&task));
    run.register(task);
}

fn commit(run: &mut SchedulerRun, mut ee: Box<ExecutionEnvironment>) -> Box<ExecutionEnvironment> {
    ee.execution_result = Some(Ok(()));
    assert!(run.can_commit(&ee));
    let (cu, unique_weight) = (ee.cu, ee.unique_weight);
    let locks: Vec<_> = ee.finalized_lock_attempts.iter().map(|l| (l.target, l.status)).collect();
    run.commit(&mut ee);
    assert!(!run.can_commit(&ee));
    assert_eq!((ee.cu, ee.unique_weight), (cu, unique_weight));
    let kept: Vec<_> = ee.finalized_lock_attempts.iter().map(|l| (l.target, l.status)).collect();
    assert_eq!(kept, locks);
    ee
}

#[test]
fn conflicting_tasks_run_one_after_the_other_in_order() {
    let mut run = SchedulerRun::new(10);
    register(&mut run, &[1], &[]);
    register(&mut run, &[1], &[2]);
    register(&mut run, &[3], &[2]);
    let first = run.schedule(true).unwrap();
    assert_eq!(first.task, TaskInQueue(0));
    // The second writes what the first writes.
    assert!(run.schedule(true).is_none());
    assert_eq!(run.tasks[1].uncontended, Contention::Contended);
    // The third reads what the second reads, and conflicts with nothing that runs.
    let third = run.schedule(true).unwrap();
    assert_eq!(third.task, TaskInQueue(2));
    assert_eq!(run.executing_queue_count, 2);
    let first = commit(&mut run, first);
    assert!(first.is_reindexed());
    let second = run.schedule(false).unwrap();
    assert_eq!(second.task, TaskInQueue(1));
    commit(&mut run, second);
    commit(&mut run, third);
    assert_eq!(run.processed_count, 3);
    assert!(!run.is_done());
    run.disconnect();
    assert!(run.is_done());
    assert!(run.tasks.iter().all(|task| task.already_finished()));
}

#[test]
fn no_more_tasks_run_than_there_is_room_for() {
    let mut run = SchedulerRun::new(2);
    for a in 1..5 {
        register(&mut run, &[a], &[]);
    }
    let first = run.schedule(true).unwrap();
    let second = run.schedule(true).unwrap();
    assert!(run.schedule(true).is_none());
    assert_eq!(run.runnable_queue.task_count(), 2);
    commit(&mut run, second);
    assert_eq!(run.schedule(true).unwrap().task, TaskInQueue(2));
    assert!(run.must_wait());
    run.disconnect();
    assert!(run.must_wait());
    assert!(!run.is_done());
    commit(&mut run, first);
    assert!(run.disconnect_exec());
    assert!(run.is_done());
}

#[test]
fn readers_share_a_page() {
    let mut run = SchedulerRun::new(10);
    register(&mut run, &[], &[1]);
    register(&mut run, &[], &[1]);
    register(&mut run, &[1], &[]);
    let a = run.schedule(true).unwrap();
    let b = run.schedule(true).unwrap();
    assert_eq!(run.address_book.pages[0].current_usage, Usage::Readonly(2));
    assert!(run.schedule(true).is_none());
    commit(&mut run, a);
    assert!(run.schedule(false).is_none());
    commit(&mut run, b);
    assert_eq!(run.schedule(false).unwrap().task, TaskInQueue(2));
    assert_eq!(run.address_book.pages[0].current_usage, Usage::Writable);
}

#[test]
fn the_cost_of_an_execution_is_drawn_and_charged_to_its_pages() {
    let mut run = SchedulerRun::new(1);
    register(&mut run, &[1], &[]);
    let ee = run.schedule(true).unwrap();
    assert!((3..1000).contains(&ee.cu));
    let cu = ee.cu;
    commit(&mut run, ee);
    assert_eq!(run.address_book.pages[0].cu, cu);
}

#[test]
fn what_a_preloader_loads_is_in_its_book() {
    let mut book = AddressBook::default();
    let one = book.preloader().load(Pubkey([1; 32]));
    let mut preloader = book.preloader();
    let two = preloader.load(Pubkey([2; 32]));
    assert_eq!(preloader.load(Pubkey([1; 32])), one);
    assert_eq!(book.pages.len(), 2);
    assert_eq!(book.pages[one.0].address, Pubkey([1; 32]));
    assert_eq!(book.pages[two.0].address, Pubkey([2; 32]));
    assert_eq!(book.pages[two.0].current_usage, Usage::Unused);
}

#[test]
fn failed_attempts_are_undone() {
    let mut book = AddressBook::default();
    let mut preloader = book.preloader();
    let one = preloader.load(Pubkey([1; 32]));
    let two = preloader.load(Pubkey([2; 32]));
    assert_eq!(preloader.load(Pubkey([1; 32])), one);
    let mut first = vec![LockAttempt::new(two, RequestedUsage::Writable)];
    let weight = u64::MAX;
    attempt_lock_for_execution(true, false, &mut book, weight, &mut first);
    assert_eq!(first[0].status, LockStatus::Succeded);
    let mut second = vec![
        LockAttempt::new(one, RequestedUsage::Writable),
        LockAttempt::new(two, RequestedUsage::Readonly),
    ];
    attempt_lock_for_execution(true, false, &mut book, weight - 1, &mut second);
    assert_eq!(second[0].status, LockStatus::Succeded);
    assert_eq!(second[1].status, LockStatus::Failed);
    assert_eq!(book.pages[0].current_usage, Usage::Writable);
    reset_lock_for_failed_execution(&mut book, &second);
    assert_eq!(book.pages[0].current_usage, Usage::Unused);
    assert_eq!(book.pages[1].current_usage, Usage::Writable);
}

#[test]
fn aborted_executions_are_those_that_failed() {
    let mut ee = ExecutionEnvironment {
        cu: 1,
        unique_weight: 1,
        task: TaskInQueue(0),
        finalized_lock_attempts: vec![],
        is_reindexed: false,
        execution_result: None,
    };
    assert!(!ee.is_aborted());
    ee.execution_result = Some(Ok(()));
    assert!(!ee.is_aborted());
    ee.execution_result = Some(Err(TransactionError::AccountNotFound));
    assert!(ee.is_aborted());
    assert!(!ee.is_reindexed());
}

#[test]
fn the_times_of_a_task_are_shown() {
    let mut task = Task::new_for_queue(AnyThread, 0xabc, (transaction(&[1], &[]), vec![]));
    assert_eq!(task.transaction_index_in_entries_for_replay(), u64::MAX - 0xabc);
    task.sequence_time = 1;
    task.sequence_end_time = 4;
    task.queue_time = 10;
    task.queue_end_time = 30;
    task.execute_time = 100;
    task.commit_time = 105;
    assert_eq!(task.queue_time_label(), "queue: [10qT..30qT; 20qD]");
    assert_eq!(
        task.trace_timestamps("a"),
        "a: 0000000000000abc seq: [1sT..4sT; 3sD], queue: [10qT..30qT; 20qD] exec: [100eT..105eT; 5eD]"
    );
    let copy = task.clone_for_test(AnyThread);
    assert_eq!(copy.unique_weight, 0xabc);
    assert_eq!(copy.queue_time(), usize::MAX);
    task.update_busiest_page_cu(7);
    assert_eq!(task.stuck_task_id(), (7, u64::MAX - 0xabc));
}

#[test]
fn the_heaviest_task_is_found() {
    let mut ids = TaskIds::new();
    assert!(ids.heaviest_task_cursor().is_none());
    ids.insert_task(5, TaskInQueue(50));
    ids.insert_task(9, TaskInQueue(90));
    ids.insert_task(7, TaskInQueue(70));
    assert_eq!(ids.heaviest_task_cursor(), Some((9, TaskInQueue(90))));
    ids.remove_task(9);
    assert_eq!(ids.heaviest_task_cursor(), Some((7, TaskInQueue(70))));
    let mut queue = TaskQueue::new();
    assert_eq!(queue.heaviest_entry_to_execute(), None);
    queue.add_to_schedule(3, TaskInQueue(0));
    queue.add_to_schedule(4, TaskInQueue(1));
    assert_eq!(queue.heaviest_entry_to_execute(), Some(4));
    assert_eq!(queue.task_count(), 2);
}

#[test]
fn a_tracker_counts_down() {
    let mut tracker = ProvisioningTracker::new(2, TaskInQueue(3));
    assert!(!tracker.is_fulfilled());
    tracker.progress();
    assert_eq!(tracker.count(), 1);
    assert_eq!(tracker.prev_count(), 2);
    tracker.progress();
    assert!(tracker.is_fulfilled());
}

#[test]
fn a_round_takes_what_was_seen_before_it_looks_again() {
    let mut round = Round::new();
    assert_eq!(round.plan(2, 0), RoundStep { take_exec: false, take_task: true });
    // One more task is left of the two that were seen, though ten are there now.
    assert_eq!(round.plan(10, 1), RoundStep { take_exec: true, take_task: true });
    assert_eq!(round, Round::new());
    assert_eq!(round.plan(0, 0), RoundStep { take_exec: false, take_task: false });
}

#[test]
fn what_does_not_fit_a_run_is_told_apart() {
    let mut run = SchedulerRun::new(10);
    let page = run.load(Pubkey([1; 32]));
    let attempt = LockAttempt::new(page, RequestedUsage::Writable);
    let task = |weight: u64, attempts: Vec<LockAttempt>| {
        Task::new_for_queue(AnyThread, weight, (transaction(&[1], &[]), attempts))
    };
    assert!(run.can_register(&task(u64::MAX, vec![attempt])));
    // Not the next weight, the same page twice, a page of no book, and a task with a history.
    assert!(!run.can_register(&task(u64::MAX - 1, vec![attempt])));
    assert!(!run.can_register(&task(u64::MAX, vec![attempt, attempt])));
    assert!(!SchedulerRun::new(10).can_register(&task(u64::MAX, vec![attempt])));
    let mut contended = task(u64::MAX, vec![attempt]);
    contended.mark_as_contended();
    assert!(!run.can_register(&contended));

    run.register(task(u64::MAX, vec![attempt]));
    assert!(run.can_schedule());
    let mut ee = run.schedule(true).unwrap();
    assert!(run.can_commit(&ee));
    // Of another run, of another task, without its locks, and too expensive.
    assert!(!SchedulerRun::new(10).can_commit(&ee));
    ee.task = TaskInQueue(1);
    assert!(!run.can_commit(&ee));
    ee.task = TaskInQueue(0);
    let locks = std::mem::take(&mut ee.finalized_lock_attempts);
    assert!(!run.can_commit(&ee));
    ee.finalized_lock_attempts = locks;
    let cu = ee.cu;
    run.address_book.pages[0].cu = u64::MAX;
    assert!(!run.can_commit(&ee));
    run.address_book.pages[0].cu = u64::MAX - cu;
    assert!(run.can_commit(&ee));

    run.tasks[0].contention_count = usize::MAX;
    assert!(!run.can_schedule());
}

/// Takes a turn, and says which task it scheduled, if it did.
fn scheduled(round: &mut Round, run: &mut SchedulerRun, exec_len: usize) -> Option<usize> {
    match round.turn(run, 0, exec_len) {
        RoundAction::Scheduled(ee) => ee.map(|ee| ee.task.0),
        RoundAction::Take(_) => unreachable!(),
    }
}

fn taken(round: &mut Round, run: &mut SchedulerRun, len: usize, exec_len: usize) -> RoundStep {
    match round.turn(run, len, exec_len) {
        RoundAction::Scheduled(_) => unreachable!(),
        RoundAction::Take(step) => step,
    }
}

#[test]
fn a_round_schedules_before_it_takes_messages() {
    let mut run = SchedulerRun::new(10);
    for a in 1..5 {
        register(&mut run, &[a], &[]);
    }
    let mut round = Round::new();
    // Nothing is worth another try, then new tasks come one by one.
    assert_eq!(scheduled(&mut round, &mut run, 0), None);
    assert_eq!(round.phase, RoundPhase::New);
    // An execution that came back does not keep the first of them waiting, but the others.
    assert_eq!(scheduled(&mut round, &mut run, 1), Some(0));
    assert_eq!(scheduled(&mut round, &mut run, 0), Some(1));
    assert_eq!(
        taken(&mut round, &mut run, 0, 1),
        RoundStep { take_exec: true, take_task: false }
    );
    assert_eq!(round.phase, RoundPhase::Retry);
    // All over again, until no new task is left.
    assert_eq!(scheduled(&mut round, &mut run, 0), None);
    assert_eq!(scheduled(&mut round, &mut run, 0), Some(2));
    assert_eq!(scheduled(&mut round, &mut run, 0), Some(3));
    assert_eq!(scheduled(&mut round, &mut run, 0), None);
    assert_eq!(round.phase, RoundPhase::Take);
    assert_eq!(
        taken(&mut round, &mut run, 0, 0),
        RoundStep { take_exec: false, take_task: false }
    );
}

#[test]
fn a_run_is_never_stuck() {
    let mut run = SchedulerRun::new(3);
    let mut seed: u32 = 7;
    let mut draw = |bound: u32| {
        seed = seed.wrapping_mul(1_103_515_245).wrapping_add(12_345);
        (seed >> 16) % bound
    };
    for _ in 0..60 {
        let first = draw(6) as u8;
        let second = 6 + draw(6) as u8;
        match draw(3) {
            0 => register(&mut run, &[first], &[second]),
            1 => register(&mut run, &[first, second], &[]),
            _ => register(&mut run, &[], &[first, second]),
        }
    }
    run.disconnect();
    let mut in_flight = vec![];
    while !run.is_done() {
        if in_flight.is_empty() {
            // Nothing is under execution, so something can be.
            let waiting = run.counters.contended_count > 0;
            in_flight.push(run.schedule(!waiting).unwrap());
        }
        while let Some(ee) = run.schedule(true) {
            in_flight.push(ee);
        }
        if let Some(ee) = run.schedule(false) {
            in_flight.push(ee);
        }
        assert!(in_flight.len() <= 3);
        let next = draw(in_flight.len() as u32) as usize;
        commit(&mut run, in_flight.swap_remove(next));
    }
    assert_eq!(run.processed_count, 60);
    assert!(run.tasks.iter().all(|task| task.already_finished()));
}
