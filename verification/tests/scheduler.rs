use keypad_core::scheduler::{ConfigError, LockError, Scheduler, TaskSpec};

fn task(priority: u8, capacity: usize, resources: &[usize]) -> TaskSpec {
    TaskSpec { priority, capacity, resources: resources.to_vec() }
}

/// Tasks 0 (priority 1) and 2 (priority 5) share resource 0; task 1
/// (priority 3) and task 3 (priority 8) use resource 1 resp. nothing.
fn table() -> Vec<TaskSpec> {
    vec![task(1, 2, &[0]), task(3, 1, &[1]), task(5, 1, &[0]), task(8, 1, &[])]
}

fn sched() -> Scheduler<u32> {
    Scheduler::new(table(), 2, 3).ok().unwrap()
}

#[test]
fn new_scheduler_is_idle_and_empty() {
    let s = sched();
    assert_eq!(s.level(), 0);
    assert_eq!(s.dropped(), 0);
    assert_eq!(s.running(), None);
    assert_eq!(s.next_fire(), None);
    for t in 0..4 {
        assert_eq!(s.pending(t), 0);
    }
    assert_eq!(s.pending(4), 0);
}

#[test]
fn ceilings_are_the_highest_user_priority() {
    let s = sched();
    assert_eq!(s.ceiling(0), Some(5));
    assert_eq!(s.ceiling(1), Some(3));
    assert_eq!(s.ceiling(2), None);
    let unused: Scheduler<u32> = Scheduler::new(vec![task(4, 1, &[])], 1, 0).ok().unwrap();
    assert_eq!(unused.ceiling(0), Some(0));
}

#[test]
fn faulty_tables_are_refused() {
    let no_priority = vec![task(1, 1, &[]), task(0, 1, &[])];
    assert_eq!(Scheduler::<u32>::new(no_priority, 0, 0).err(), Some(ConfigError::NoPriority(1)));
    let no_capacity = vec![task(1, 0, &[]), task(0, 1, &[])];
    assert_eq!(Scheduler::<u32>::new(no_capacity, 0, 0).err(), Some(ConfigError::NoCapacity(0)));
    let unknown = vec![task(1, 1, &[0, 1]), task(2, 1, &[2])];
    assert_eq!(
        Scheduler::<u32>::new(unknown, 2, 0).err(),
        Some(ConfigError::UnknownResource(1))
    );
    let both = vec![task(0, 0, &[7])];
    assert_eq!(Scheduler::<u32>::new(both, 1, 0).err(), Some(ConfigError::NoPriority(0)));
    assert!(Scheduler::<u32>::new(Vec::new(), 0, 0).is_ok());
}

#[test]
fn spawn_fills_the_queue_and_then_drops() {
    let mut s = sched();
    assert_eq!(s.spawn(0, 10), Ok(()));
    assert_eq!(s.spawn(0, 11), Ok(()));
    assert_eq!(s.pending(0), 2);
    assert_eq!(s.spawn(0, 12), Err(12));
    assert_eq!(s.pending(0), 2);
    assert_eq!(s.dropped(), 1);
    assert_eq!(s.spawn(9, 13), Err(13));
    assert_eq!(s.dropped(), 2);
}

#[test]
fn dispatch_takes_the_highest_priority_and_keeps_fifo_order() {
    let mut s = sched();
    s.spawn(0, 10).unwrap();
    s.spawn(0, 11).unwrap();
    s.spawn(2, 20).unwrap();
    s.spawn(1, 30).unwrap();
    assert_eq!(s.dispatch(), Some((2, 20)));
    assert_eq!(s.level(), 5);
    assert_eq!(s.running(), Some(2));
    assert_eq!(s.dispatch(), None);
    assert_eq!(s.complete(), Some(2));
    assert_eq!(s.dispatch(), Some((1, 30)));
    assert_eq!(s.complete(), Some(1));
    assert_eq!(s.dispatch(), Some((0, 10)));
    assert_eq!(s.complete(), Some(0));
    assert_eq!(s.dispatch(), Some((0, 11)));
    assert_eq!(s.complete(), Some(0));
    assert_eq!(s.dispatch(), None);
    assert_eq!(s.complete(), None);
    assert_eq!(s.level(), 0);
}

#[test]
fn equal_priorities_go_by_table_order() {
    let tasks = vec![task(2, 1, &[]), task(2, 1, &[])];
    let mut s: Scheduler<u32> = Scheduler::new(tasks, 0, 0).ok().unwrap();
    s.spawn(1, 1).unwrap();
    s.spawn(0, 0).unwrap();
    assert_eq!(s.dispatch(), Some((0, 0)));
    assert_eq!(s.dispatch(), None);
    s.complete();
    assert_eq!(s.dispatch(), Some((1, 1)));
}

#[test]
fn a_higher_task_preempts_a_running_one() {
    let mut s = sched();
    s.spawn(0, 1).unwrap();
    assert_eq!(s.dispatch(), Some((0, 1)));
    s.spawn(1, 2).unwrap();
    assert_eq!(s.dispatch(), Some((1, 2)));
    assert_eq!(s.running(), Some(1));
    assert_eq!(s.complete(), Some(1));
    assert_eq!(s.running(), Some(0));
    assert_eq!(s.level(), 1);
}

#[test]
fn a_lock_holds_off_tasks_up_to_its_ceiling() {
    let mut s = sched();
    s.spawn(0, 1).unwrap();
    assert_eq!(s.dispatch(), Some((0, 1)));
    assert_eq!(s.lock(0), Ok(()));
    assert_eq!(s.level(), 5);
    s.spawn(1, 2).unwrap();
    s.spawn(2, 3).unwrap();
    assert_eq!(s.dispatch(), None);
    s.spawn(3, 4).unwrap();
    assert_eq!(s.dispatch(), Some((3, 4)));
    assert_eq!(s.lock(0), Err(LockError::NotDeclared));
    assert_eq!(s.complete(), Some(3));
    assert_eq!(s.level(), 5);
    assert_eq!(s.unlock(), Some(0));
    assert_eq!(s.level(), 1);
    assert_eq!(s.dispatch(), Some((2, 3)));
    assert_eq!(s.lock(0), Ok(()));
    assert_eq!(s.unlock(), Some(0));
    assert_eq!(s.complete(), Some(2));
    assert_eq!(s.dispatch(), Some((1, 2)));
}

#[test]
fn locks_are_refused_with_a_reason() {
    let mut s = sched();
    assert_eq!(s.lock(0), Err(LockError::Idle));
    assert_eq!(s.unlock(), None);
    s.spawn(1, 1).unwrap();
    s.dispatch();
    assert_eq!(s.lock(0), Err(LockError::NotDeclared));
    assert_eq!(s.lock(5), Err(LockError::NotDeclared));
    assert_eq!(s.unlock(), None);
    assert_eq!(s.lock(1), Ok(()));
    assert_eq!(s.lock(1), Err(LockError::Nested));
    assert_eq!(s.level(), 3);
}

#[test]
fn complete_releases_a_held_lock() {
    let mut s = sched();
    s.spawn(0, 1).unwrap();
    s.dispatch();
    s.lock(0).unwrap();
    assert_eq!(s.complete(), Some(0));
    assert_eq!(s.level(), 0);
    s.spawn(2, 2).unwrap();
    assert_eq!(s.dispatch(), Some((2, 2)));
    assert_eq!(s.lock(0), Ok(()));
}

#[test]
fn a_deferred_task_fires_at_its_cycle_and_not_before() {
    const T0: u64 = 1_000;
    const PERIOD: u64 = 16_000_000;
    let mut s = sched();
    assert_eq!(s.schedule(0, T0 + PERIOD, 7), Ok(()));
    assert_eq!(s.next_fire(), Some(T0 + PERIOD));
    assert_eq!(s.tick(T0), 0);
    assert_eq!(s.tick(T0 + PERIOD - 1), 0);
    assert_eq!(s.dispatch(), None);
    assert_eq!(s.tick(T0 + PERIOD), 1);
    assert_eq!(s.next_fire(), None);
    assert_eq!(s.dispatch(), Some((0, 7)));
    let fire = T0 + PERIOD;
    assert_eq!(s.schedule(0, fire + PERIOD, 8), Ok(()));
    s.complete();
    assert_eq!(s.tick(fire + PERIOD + 5), 1);
    assert_eq!(s.dispatch(), Some((0, 8)));
}

#[test]
fn deferred_activations_are_kept_in_cycle_order() {
    let mut s = sched();
    s.schedule(0, 300, 3).unwrap();
    s.schedule(1, 100, 1).unwrap();
    s.schedule(0, 300, 4).unwrap();
    assert_eq!(s.next_fire(), Some(100));
    assert_eq!(s.schedule(2, 50, 0), Err(0));
    assert_eq!(s.dropped(), 1);
    assert_eq!(s.schedule(7, 50, 0), Err(0));
    assert_eq!(s.dropped(), 2);
    assert_eq!(s.tick(99), 0);
    assert_eq!(s.tick(100), 1);
    assert_eq!(s.pending(1), 1);
    assert_eq!(s.next_fire(), Some(300));
    assert_eq!(s.tick(1_000), 2);
    assert_eq!(s.dispatch(), Some((1, 1)));
    s.complete();
    assert_eq!(s.dispatch(), Some((0, 3)));
    s.complete();
    assert_eq!(s.dispatch(), Some((0, 4)));
}

#[test]
fn a_due_activation_that_finds_its_queue_full_is_dropped() {
    let mut s = sched();
    s.spawn(1, 1).unwrap();
    s.schedule(1, 10, 2).unwrap();
    assert_eq!(s.tick(10), 1);
    assert_eq!(s.pending(1), 1);
    assert_eq!(s.dropped(), 1);
    assert_eq!(s.dispatch(), Some((1, 1)));
}
