use sigsched::{
    CapacityExceeded, Executor, Id, RouteCapacityExceeded, Router, SignalRegister, Step, Task,
};

fn id(n: u8) -> Id {
    Id::new(n).expect("identifier within register width")
}

/// A task that counts its resumptions and always parks on the same signal.
struct CountingTask {
    signal: Id,
    resumed: u32,
}

impl CountingTask {
    fn new(signal: Id) -> Self {
        CountingTask { signal, resumed: 0 }
    }
}

impl Task for CountingTask {
    fn resume(&mut self) -> Step {
        self.resumed += 1;
        Step::Park(self.signal)
    }
}

fn resumed(exec: &Executor<CountingTask>, index: usize) -> u32 {
    exec.get_task(index).expect("task index in table").resumed
}

#[test]
fn wake_without_route_returns_nothing() {
    let mut router = Router::new();
    assert_eq!(router.wake(id(9)), None);
    assert_eq!(router.wake(id(9)), None);
}

#[test]
fn wake_returns_the_routed_continuation_exactly_once() {
    let mut router = Router::new();
    assert_eq!(router.pending(id(9)), None);
    router.route(id(9), 7).unwrap();
    assert_eq!(router.pending(id(9)), Some(7));
    assert_eq!(router.wake(id(9)), Some(7));
    assert_eq!(router.pending(id(9)), None);
    assert_eq!(router.wake(id(9)), None);
}

#[test]
fn last_route_wins() {
    let mut router = Router::new();
    router.route(id(6), 1).unwrap();
    router.route(id(6), 2).unwrap();
    assert_eq!(router.wake(id(6)), Some(2));
    assert_eq!(router.wake(id(6)), None);
}

#[test]
fn routing_a_ninth_signal_is_rejected() {
    let mut router = Router::new();
    for n in 0..8 {
        assert_eq!(router.route(id(n), n), Ok(()));
    }
    assert_eq!(router.route(id(8), 8), Err(RouteCapacityExceeded));
    // re-routing an already-registered signal still succeeds on a full table
    assert_eq!(router.route(id(3), 42), Ok(()));
    assert_eq!(router.wake(id(3)), Some(42));
}

#[test]
fn spawning_beyond_capacity_fails_and_keeps_the_first_eight() {
    let mut exec: Executor<CountingTask> = Executor::new();
    for n in 0..8 {
        assert_eq!(exec.spawn(CountingTask::new(id(n))), Ok(()));
    }
    assert_eq!(exec.spawn(CountingTask::new(id(8))), Err(CapacityExceeded));
    assert_eq!(exec.task_count(), 8);
    assert!(exec.get_task(8).is_none());
    for n in 0..8 {
        let task = exec.get_task(n).expect("spawned task kept");
        assert_eq!(u8::from(task.signal), n as u8);
        assert_eq!(task.resumed, 0);
    }
    // the ready queue still holds all eight spawned tasks, in spawn order
    assert_eq!(exec.ready_len(), 8);
}

#[test]
fn one_signal_wakes_only_the_task_parked_on_it() {
    let signal_a = id(0);
    let signal_b = id(1);
    let mut reg = SignalRegister::new();
    let mut exec: Executor<CountingTask> = Executor::new();
    exec.spawn(CountingTask::new(signal_a)).unwrap();
    exec.spawn(CountingTask::new(signal_b)).unwrap();

    // first iteration: both tasks run their first step and park
    reg.set(signal_a);
    assert!(exec.step(&mut reg));
    assert_eq!(resumed(&exec, 0), 1);
    assert_eq!(resumed(&exec, 1), 1);
    // task 0 was woken by signal A and is queued again; task 1 stays parked
    assert_eq!(exec.ready_len(), 1);
    assert_eq!(exec.parked(signal_a), None);
    assert_eq!(exec.parked(signal_b), Some(1));

    // second iteration: only task 0 is resumed; no signal fires
    assert!(!exec.step(&mut reg));
    assert_eq!(resumed(&exec, 0), 2);
    assert_eq!(resumed(&exec, 1), 1);
    assert_eq!(exec.ready_len(), 0);
    assert_eq!(exec.parked(signal_a), Some(0));
    assert_eq!(exec.parked(signal_b), Some(1));
}

#[test]
fn two_signals_wake_both_tasks_in_the_same_iteration() {
    let signal_a = id(0);
    let signal_b = id(1);
    let mut reg = SignalRegister::new();
    let mut exec: Executor<CountingTask> = Executor::new();
    exec.spawn(CountingTask::new(signal_a)).unwrap();
    exec.spawn(CountingTask::new(signal_b)).unwrap();

    // park both tasks; nothing fired yet
    assert!(!exec.step(&mut reg));
    assert_eq!(resumed(&exec, 0), 1);
    assert_eq!(resumed(&exec, 1), 1);

    // both signals fire before the next iteration: both tasks are queued
    // within that iteration, before any waiting would happen
    reg.set(signal_a);
    reg.set(signal_b);
    assert!(exec.step(&mut reg));
    assert_eq!(exec.ready_len(), 2);
    assert_eq!(exec.parked(signal_a), None);
    assert_eq!(exec.parked(signal_b), None);

    // and the following iteration resumes both
    assert!(!exec.step(&mut reg));
    assert_eq!(resumed(&exec, 0), 2);
    assert_eq!(resumed(&exec, 1), 2);
}

/// A task that parks on a sequence of signals, one per resumption, and
/// reports no interest once the sequence is exhausted.
struct ScriptedTask {
    script: Vec<Id>,
    at: usize,
}

impl Task for ScriptedTask {
    fn resume(&mut self) -> Step {
        if self.at < self.script.len() {
            let s = self.script[self.at];
            self.at += 1;
            Step::Park(s)
        } else {
            Step::Pending
        }
    }
}

#[test]
fn a_task_reporting_no_interest_is_not_requeued() {
    let mut reg = SignalRegister::new();
    let mut exec: Executor<ScriptedTask> = Executor::new();
    exec.spawn(ScriptedTask { script: vec![id(2)], at: 0 }).unwrap();

    // first step: the task parks on signal 2
    reg.set(id(2));
    assert!(exec.step(&mut reg));
    assert_eq!(exec.ready_len(), 1);

    // second step: the script is exhausted, the task neither parks nor is
    // queued again
    assert!(!exec.step(&mut reg));
    assert_eq!(exec.ready_len(), 0);
    assert_eq!(exec.parked(id(2)), None);
    assert_eq!(exec.get_task(0).unwrap().at, 1);
}

#[test]
fn tasks_are_resumed_in_fifo_order_of_their_wakeups() {
    // two tasks park on distinct signals; when both signals appear in one
    // snapshot the higher identifier is drained first, so the task parked
    // on it is queued, and later resumed, first
    let mut reg = SignalRegister::new();
    let mut exec: Executor<ScriptedTask> = Executor::new();
    exec.spawn(ScriptedTask { script: vec![id(3), id(7)], at: 0 }).unwrap();
    exec.spawn(ScriptedTask { script: vec![id(5), id(6)], at: 0 }).unwrap();

    // park task 0 on signal 3 and task 1 on signal 5
    assert!(!exec.step(&mut reg));
    reg.set(id(3));
    reg.set(id(5));
    assert!(exec.step(&mut reg));
    // signal 5 is drained before signal 3, so task 1 is queued first and
    // the next drain resumes it first: it parks on 6 before task 0 parks
    // on 7
    assert!(!exec.step(&mut reg));
    assert_eq!(exec.parked(id(6)), Some(1));
    assert_eq!(exec.parked(id(7)), Some(0));
}
