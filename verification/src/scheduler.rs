//! Priority scheduling with ceiling locks and deferred activation.
//!
//! The tasks and the resources each may lock form a table that is fixed when
//! the scheduler is made.  A task is made ready at once (`spawn`) or at a
//! cycle to come (`schedule`); both give up, and count the loss, when the
//! bounded queue is full.  At a preemption point `dispatch` starts the ready
//! task of highest priority, if that priority lies above the level at which
//! the processor runs.  Taking a resource raises that level to the
//! resource's ceiling, the highest priority among the tasks that may lock
//! it, so that no other task that may lock it can start before the release.
//!
//! The scheduler decides; the caller runs what it is handed and reports back
//! with `complete`.

use vstd::prelude::*;

verus! {

/// One row of the task table.
pub struct TaskSpec {
    /// Priority; a higher number preempts a lower one.  At least 1.
    pub priority: u8,
    /// Number of activations that may wait at once.  At least 1.
    pub capacity: usize,
    /// The resources that the task may lock.
    pub resources: Vec<usize>,
}

/// A task that has started and not yet completed.
#[derive(Clone, Copy, Debug, PartialEq, Eq)]
pub struct Frame {
    pub task: usize,
    /// The resource that the task holds, if any.
    pub held: Option<usize>,
}

/// An activation that waits for its cycle.
pub struct DeferredEntry<P> {
    pub task: usize,
    pub fire: u64,
    pub payload: P,
}

/// A task table that cannot be scheduled; the number is the task's index.
#[derive(Clone, Copy, Debug, PartialEq, Eq)]
pub enum ConfigError {
    /// The task has priority 0, the level of the idle processor.
    NoPriority(usize),
    /// The task has no room for a waiting activation.
    NoCapacity(usize),
    /// The task names a resource that does not exist.
    UnknownResource(usize),
}

/// Why a lock was refused.
#[derive(Clone, Copy, Debug, PartialEq, Eq)]
pub enum LockError {
    /// No task is running.
    Idle,
    /// The running task holds a resource already.
    Nested,
    /// The running task did not declare the resource.
    NotDeclared,
}

/// Mathematical value of a scheduler.
pub struct Schedule<P> {
    pub tasks: Seq<TaskSpec>,
    /// Ceiling of each resource.
    pub ceilings: Seq<u8>,
    /// Waiting payloads of each task, oldest first.
    pub ready: Seq<Seq<P>>,
    /// Deferred activations, earliest first.
    pub deferred: Seq<DeferredEntry<P>>,
    pub deferred_capacity: usize,
    /// Number of activations that were lost to a full queue.
    pub dropped: u64,
    /// The started tasks, the running one last.
    pub stack: Seq<Frame>,
}

/// The task may lock resource `r`.
pub open spec fn declares(task: TaskSpec, r: usize) -> bool {
    task.resources@.contains(r)
}

/// The highest priority among the tasks that may lock `r`; 0 if none may.
pub open spec fn ceiling_of(tasks: Seq<TaskSpec>, r: usize) -> u8
    decreases tasks.len(),
{
    if tasks.len() == 0 {
        0
    } else {
        let below = ceiling_of(tasks.drop_last(), r);
        if declares(tasks.last(), r) && tasks.last().priority > below {
            tasks.last().priority
        } else {
            below
        }
    }
}

/// What is wrong with the task at `index`, if anything.
pub open spec fn fault_of(task: TaskSpec, index: int, resources: usize) -> Option<ConfigError> {
    if task.priority == 0 {
        Some(ConfigError::NoPriority(index as usize))
    } else if task.capacity == 0 {
        Some(ConfigError::NoCapacity(index as usize))
    } else if exists|i: int| 0 <= i < task.resources@.len() && task.resources@[i] >= resources {
        Some(ConfigError::UnknownResource(index as usize))
    } else {
        None
    }
}

/// The fault of the first faulty task of the table, if there is one.
pub open spec fn first_fault(tasks: Seq<TaskSpec>, resources: usize) -> Option<ConfigError>
    decreases tasks.len(),
{
    if tasks.len() == 0 {
        None
    } else {
        match first_fault(tasks.drop_last(), resources) {
            Some(e) => Some(e),
            None => fault_of(tasks.last(), tasks.len() - 1, resources),
        }
    }
}

/// Deferred activations in the order of their cycles.
pub open spec fn sorted<P>(deferred: Seq<DeferredEntry<P>>) -> bool {
    forall|i: int, j: int| 0 <= i <= j < deferred.len() ==> deferred[i].fire <= deferred[j].fire
}

/// The level at which the processor runs while `frame` is on top.
pub open spec fn frame_level<P>(s: Schedule<P>, frame: Frame) -> u8 {
    match frame.held {
        Some(r) => s.ceilings[r as int],
        None => s.tasks[frame.task as int].priority,
    }
}

/// The level at which the processor runs: 0 when idle.
pub open spec fn level<P>(s: Schedule<P>) -> u8 {
    if s.stack.len() == 0 {
        0
    } else {
        frame_level(s, s.stack.last())
    }
}

/// The state is consistent.
#[verifier::opaque]
pub open spec fn wf<P>(s: Schedule<P>) -> bool {
    &&& forall|t: int|
        0 <= t < s.tasks.len() ==> fault_of(#[trigger] s.tasks[t], t, s.ceilings.len() as usize)
            is None
    &&& forall|r: int|
        0 <= r < s.ceilings.len() ==> #[trigger] s.ceilings[r] == ceiling_of(s.tasks, r as usize)
    &&& s.ready.len() == s.tasks.len()
    &&& forall|t: int| 0 <= t < s.tasks.len() ==> (#[trigger] s.ready[t]).len() <= s.tasks[t].capacity
    &&& s.deferred.len() <= s.deferred_capacity
    &&& sorted(s.deferred)
    &&& forall|i: int| 0 <= i < s.deferred.len() ==> (#[trigger] s.deferred[i]).task < s.tasks.len()
    &&& forall|i: int|
        0 <= i < s.stack.len() ==> {
            &&& (#[trigger] s.stack[i]).task < s.tasks.len()
            &&& s.stack[i].held is Some ==> declares(
                s.tasks[s.stack[i].task as int],
                s.stack[i].held->0,
            )
        }
    &&& forall|i: int|
        0 <= i < s.stack.len() - 1 ==> frame_level(s, #[trigger] s.stack[i]) < s.tasks[s.stack[i
            + 1].task as int].priority
}

/// A lost activation more, up to the counter's range.
pub open spec fn bump(dropped: u64) -> u64 {
    if dropped < u64::MAX {
        (dropped + 1) as u64
    } else {
        dropped
    }
}

/// The task exists and has room for one more waiting activation.
pub open spec fn accepts<P>(s: Schedule<P>, task: usize) -> bool {
    task < s.tasks.len() && s.ready[task as int].len() < s.tasks[task as int].capacity
}

/// The state after `spawn`.
pub open spec fn spawned<P>(s: Schedule<P>, task: usize, payload: P) -> Schedule<P> {
    if accepts(s, task) {
        Schedule { ready: s.ready.update(task as int, s.ready[task as int].push(payload)), ..s }
    } else {
        Schedule { dropped: bump(s.dropped), ..s }
    }
}

/// Number of activations at the front of `deferred` whose cycle has come at
/// `now`.
pub open spec fn due_count<P>(deferred: Seq<DeferredEntry<P>>, now: u64) -> nat
    decreases deferred.len(),
{
    if deferred.len() == 0 || deferred[0].fire > now {
        0
    } else {
        1 + due_count(deferred.drop_first(), now)
    }
}

/// The task exists and the deferred queue has room.
pub open spec fn defers<P>(s: Schedule<P>, task: usize) -> bool {
    task < s.tasks.len() && s.deferred.len() < s.deferred_capacity
}

/// The state after `schedule`: the activation stands behind all that fire no
/// later than it.
pub open spec fn scheduled<P>(s: Schedule<P>, task: usize, fire: u64, payload: P) -> Schedule<P> {
    if defers(s, task) {
        Schedule {
            deferred: s.deferred.insert(
                due_count(s.deferred, fire) as int,
                DeferredEntry { task, fire, payload },
            ),
            ..s
        }
    } else {
        Schedule { dropped: bump(s.dropped), ..s }
    }
}

/// The state after the activations of `entries` were spawned, first to last.
pub open spec fn released<P>(s: Schedule<P>, entries: Seq<DeferredEntry<P>>) -> Schedule<P>
    decreases entries.len(),
{
    if entries.len() == 0 {
        s
    } else {
        spawned(released(s, entries.drop_last()), entries.last().task, entries.last().payload)
    }
}

/// The state after `tick`: every deferred activation whose cycle has come is
/// spawned, the earliest first; the others wait on.
pub open spec fn ticked<P>(s: Schedule<P>, now: u64) -> Schedule<P> {
    let due = due_count(s.deferred, now) as int;
    Schedule { deferred: s.deferred.skip(due), ..released(s, s.deferred.take(due)) }
}

/// A task that waits and whose priority lies above the running level.
pub open spec fn eligible<P>(s: Schedule<P>, t: int) -> bool {
    &&& 0 <= t < s.tasks.len()
    &&& s.ready[t].len() > 0
    &&& s.tasks[t].priority > level(s)
}

/// The eligible task of highest priority among the first `n` tasks; among
/// equals the one that stands first in the table.
pub open spec fn best<P>(s: Schedule<P>, n: int) -> Option<int>
    decreases n,
{
    if n <= 0 {
        None
    } else {
        let before = best(s, n - 1);
        if eligible(s, n - 1) && (before is None || s.tasks[n - 1].priority
            > s.tasks[before->0].priority) {
            Some(n - 1)
        } else {
            before
        }
    }
}

/// The task that `dispatch` starts, if any.
pub open spec fn candidate<P>(s: Schedule<P>) -> Option<int> {
    best(s, s.tasks.len() as int)
}

/// The state after `dispatch`.
pub open spec fn dispatched<P>(s: Schedule<P>) -> Schedule<P> {
    match candidate(s) {
        Some(t) => Schedule {
            ready: s.ready.update(t, s.ready[t].drop_first()),
            stack: s.stack.push(Frame { task: t as usize, held: None }),
            ..s
        },
        None => s,
    }
}

/// The state after `complete`: the running task leaves, and with it the
/// resource it may still hold.
pub open spec fn completed<P>(s: Schedule<P>) -> Schedule<P> {
    if s.stack.len() == 0 {
        s
    } else {
        Schedule { stack: s.stack.drop_last(), ..s }
    }
}

/// Why the running task cannot lock `r`, if it cannot.
pub open spec fn lock_refusal<P>(s: Schedule<P>, r: usize) -> Option<LockError> {
    if s.stack.len() == 0 {
        Some(LockError::Idle)
    } else if s.stack.last().held is Some {
        Some(LockError::Nested)
    } else if !declares(s.tasks[s.stack.last().task as int], r) {
        Some(LockError::NotDeclared)
    } else {
        None
    }
}

/// The state after `lock`.
pub open spec fn locked<P>(s: Schedule<P>, r: usize) -> Schedule<P> {
    if lock_refusal(s, r) is None {
        Schedule {
            stack: s.stack.update(
                s.stack.len() - 1,
                Frame { task: s.stack.last().task, held: Some(r) },
            ),
            ..s
        }
    } else {
        s
    }
}

/// The state after `unlock`.
pub open spec fn unlocked<P>(s: Schedule<P>) -> Schedule<P> {
    if s.stack.len() > 0 && s.stack.last().held is Some {
        Schedule {
            stack: s.stack.update(
                s.stack.len() - 1,
                Frame { task: s.stack.last().task, held: None },
            ),
            ..s
        }
    } else {
        s
    }
}

/// A fault found among the first tasks of a table is the table's fault.
pub proof fn lemma_first_fault_prefix(tasks: Seq<TaskSpec>, resources: usize, k: int)
    requires
        0 <= k <= tasks.len(),
        first_fault(tasks.take(k), resources) is Some,
    ensures
        first_fault(tasks, resources) == first_fault(tasks.take(k), resources),
    decreases tasks.len() - k,
{
    if k < tasks.len() {
        assert(tasks.take(k + 1).drop_last() =~= tasks.take(k));
        lemma_first_fault_prefix(tasks, resources, k + 1);
    } else {
        assert(tasks.take(k) =~= tasks);
    }
}

/// A table without a fault has no faulty task.
pub proof fn lemma_no_fault(tasks: Seq<TaskSpec>, resources: usize, t: int)
    requires
        first_fault(tasks, resources) is None,
        0 <= t < tasks.len(),
    ensures
        fault_of(tasks[t], t, resources) is None,
    decreases tasks.len(),
{
    if t < tasks.len() - 1 {
        lemma_no_fault(tasks.drop_last(), resources, t);
    }
}

/// No task that may lock a resource has a priority above its ceiling.
pub proof fn lemma_ceiling_bounds_users(tasks: Seq<TaskSpec>, r: usize, t: int)
    requires
        0 <= t < tasks.len(),
        declares(tasks[t], r),
    ensures
        tasks[t].priority <= ceiling_of(tasks, r),
    decreases tasks.len(),
{
    if t < tasks.len() - 1 {
        lemma_ceiling_bounds_users(tasks.drop_last(), r, t);
    }
}

/// A ceiling above 0 is the priority of a task that may lock the resource.
pub proof fn lemma_ceiling_attained(tasks: Seq<TaskSpec>, r: usize) -> (t: int)
    requires
        ceiling_of(tasks, r) > 0,
    ensures
        0 <= t < tasks.len(),
        declares(tasks[t], r),
        tasks[t].priority == ceiling_of(tasks, r),
    decreases tasks.len(),
{
    let below = ceiling_of(tasks.drop_last(), r);
    if declares(tasks.last(), r) && tasks.last().priority > below {
        tasks.len() - 1
    } else {
        lemma_ceiling_attained(tasks.drop_last(), r)
    }
}

/// No more activations are due than wait.
pub proof fn lemma_due_count_bound<P>(deferred: Seq<DeferredEntry<P>>, now: u64)
    ensures
        due_count(deferred, now) <= deferred.len(),
    decreases deferred.len(),
{
    if !(deferred.len() == 0 || deferred[0].fire > now) {
        lemma_due_count_bound(deferred.drop_first(), now);
    }
}

/// In a sorted queue the activations that are due are exactly the first
/// `due_count`.
pub proof fn lemma_due_count<P>(deferred: Seq<DeferredEntry<P>>, now: u64)
    requires
        sorted(deferred),
    ensures
        due_count(deferred, now) <= deferred.len(),
        forall|i: int| 0 <= i < due_count(deferred, now) ==> (#[trigger] deferred[i]).fire <= now,
        forall|i: int|
            due_count(deferred, now) <= i < deferred.len() ==> (#[trigger] deferred[i]).fire > now,
    decreases deferred.len(),
{
    if deferred.len() == 0 || deferred[0].fire > now {
    } else {
        let tail = deferred.drop_first();
        assert(sorted(tail)) by {
            assert forall|i: int, j: int| 0 <= i <= j < tail.len() implies tail[i].fire
                <= tail[j].fire by {
                assert(deferred[i + 1].fire <= deferred[j + 1].fire);
            }
        }
        lemma_due_count(tail, now);
        assert forall|i: int| 0 <= i < due_count(deferred, now) implies (#[trigger] deferred[i]).fire
            <= now by {
            if i > 0 {
                assert(tail[i - 1].fire <= now);
            }
        }
        assert forall|i: int| due_count(deferred, now) <= i < deferred.len() implies (
        #[trigger] deferred[i]).fire > now by {
            assert(tail[i - 1].fire > now);
        }
    }
}

/// The first `k` activations are due and the next one is not: then `k` is
/// the number of due activations.
pub proof fn lemma_due_count_is<P>(deferred: Seq<DeferredEntry<P>>, now: u64, k: int)
    requires
        0 <= k <= deferred.len(),
        forall|i: int| 0 <= i < k ==> (#[trigger] deferred[i]).fire <= now,
        k < deferred.len() ==> deferred[k].fire > now,
    ensures
        due_count(deferred, now) == k,
    decreases k,
{
    if k > 0 {
        let tail = deferred.drop_first();
        assert(deferred[0].fire <= now);
        assert forall|i: int| 0 <= i < k - 1 implies (#[trigger] tail[i]).fire <= now by {
            assert(deferred[i + 1].fire <= now);
        }
        lemma_due_count_is(tail, now, k - 1);
    }
}

/// Spawning the next due activation extends what was released by one.
proof fn lemma_release_step<P>(start: Schedule<P>, before: Schedule<P>, after: Schedule<P>, due: int)
    requires
        0 <= due < start.deferred.len(),
        before == (Schedule {
            deferred: start.deferred.skip(due),
            ..released(start, start.deferred.take(due))
        }),
        after == (Schedule {
            deferred: before.deferred.drop_first(),
            ..spawned(before, before.deferred[0].task, before.deferred[0].payload)
        }),
    ensures
        after == (Schedule {
            deferred: start.deferred.skip(due + 1),
            ..released(start, start.deferred.take(due + 1))
        }),
        before.deferred[0] == start.deferred[due],
{
    let entry = start.deferred[due];
    assert(before.deferred[0] == entry);
    assert(start.deferred.skip(due).drop_first() =~= start.deferred.skip(due + 1));
    assert(start.deferred.take(due + 1).drop_last() =~= start.deferred.take(due));
    assert(start.deferred.take(due + 1).last() == entry);
}

/// A table in which no task is faulty has no fault.
pub proof fn lemma_faultless(tasks: Seq<TaskSpec>, resources: usize)
    requires
        forall|t: int| 0 <= t < tasks.len() ==> fault_of(#[trigger] tasks[t], t, resources) is None,
    ensures
        first_fault(tasks, resources) is None,
    decreases tasks.len(),
{
    if tasks.len() > 0 {
        let front = tasks.drop_last();
        assert forall|t: int| 0 <= t < front.len() implies fault_of(
            #[trigger] front[t],
            t,
            resources,
        ) is None by {
            assert(front[t] == tasks[t]);
        }
        lemma_faultless(front, resources);
        assert(tasks.last() == tasks[tasks.len() - 1]);
    }
}

/// Spawning changes only the queues and the count of losses.
pub proof fn lemma_released_keeps<P>(s: Schedule<P>, entries: Seq<DeferredEntry<P>>)
    ensures
        released(s, entries).tasks == s.tasks,
        released(s, entries).ceilings == s.ceilings,
        released(s, entries).deferred == s.deferred,
        released(s, entries).deferred_capacity == s.deferred_capacity,
        released(s, entries).stack == s.stack,
    decreases entries.len(),
{
    if entries.len() > 0 {
        lemma_released_keeps(s, entries.drop_last());
    }
}

/// A resource that a task declares has a ceiling, and the ceiling is no
/// lower than the task's priority.
pub proof fn lemma_declared_in_range<P>(s: Schedule<P>, t: int, r: usize)
    requires
        wf(s),
        0 <= t < s.tasks.len(),
        declares(s.tasks[t], r),
    ensures
        r < s.ceilings.len(),
        s.ceilings[r as int] == ceiling_of(s.tasks, r),
        s.tasks[t].priority <= s.ceilings[r as int],
{
    reveal(wf);
    assert(fault_of(s.tasks[t], t, s.ceilings.len() as usize) is None);
    let i = choose|i: int| 0 <= i < s.tasks[t].resources@.len() && s.tasks[t].resources@[i] == r;
    assert(s.tasks[t].resources@[i] < s.ceilings.len());
    lemma_ceiling_bounds_users(s.tasks, r, t);
}

/// What `best` picks: an eligible task that no eligible task outranks, the
/// first such in the table; and nothing only when no task is eligible.
pub proof fn lemma_best<P>(s: Schedule<P>, n: int)
    requires
        0 <= n <= s.tasks.len(),
    ensures
        best(s, n) is Some ==> {
            let b = best(s, n)->0;
            &&& 0 <= b < n
            &&& eligible(s, b)
            &&& forall|u: int|
                0 <= u < n && eligible(s, u) ==> {
                    &&& s.tasks[u].priority <= s.tasks[b].priority
                    &&& s.tasks[u].priority == s.tasks[b].priority ==> b <= u
                }
        },
        best(s, n) is None ==> forall|u: int| 0 <= u < n ==> !eligible(s, u),
    decreases n,
{
    if n > 0 {
        lemma_best(s, n - 1);
    }
}

/// A started task outranks the level of every frame below it.
pub proof fn lemma_stack_rises<P>(s: Schedule<P>, i: int, j: int)
    requires
        wf(s),
        0 <= i < j < s.stack.len(),
    ensures
        frame_level(s, s.stack[i]) < s.tasks[s.stack[j].task as int].priority,
        s.tasks[s.stack[j].task as int].priority <= frame_level(s, s.stack[j]),
    decreases j - i,
{
    reveal(wf);
    let top = s.stack[j];
    if top.held is Some {
        lemma_declared_in_range(s, top.task as int, top.held->0);
    }
    if i + 1 < j {
        lemma_stack_rises(s, i, j - 1);
        assert(frame_level(s, s.stack[j - 1]) < s.tasks[s.stack[j - 1 + 1].task as int].priority);
    }
}

/// While a resource is held, no task started later may lock it: a lock is
/// never asked for while another task holds it, so no task ever waits for
/// one.
pub proof fn lemma_holder_excludes_users<P>(s: Schedule<P>, i: int, j: int)
    requires
        wf(s),
        0 <= i < j < s.stack.len(),
        s.stack[i].held is Some,
    ensures
        !declares(s.tasks[s.stack[j].task as int], s.stack[i].held->0),
        s.stack[j].held != s.stack[i].held,
{
    reveal(wf);
    let r = s.stack[i].held->0;
    lemma_stack_rises(s, i, j);
    lemma_declared_in_range(s, s.stack[i].task as int, r);
    if declares(s.tasks[s.stack[j].task as int], r) {
        lemma_declared_in_range(s, s.stack[j].task as int, r);
    }
}

/// `dispatch` starts a task only if its priority lies above the running
/// level, and starts one whenever such a task waits: the one of highest
/// priority.
pub proof fn lemma_dispatch_choice<P>(s: Schedule<P>, t: int)
    requires
        0 <= t < s.tasks.len(),
    ensures
        candidate(s) == Some(t) ==> s.ready[t].len() > 0 && s.tasks[t].priority > level(s),
        s.ready[t].len() > 0 && s.tasks[t].priority > level(s) ==> candidate(s) is Some
            && s.tasks[candidate(s)->0].priority >= s.tasks[t].priority,
{
    lemma_best(s, s.tasks.len() as int);
    if s.ready[t].len() > 0 && s.tasks[t].priority > level(s) {
        assert(eligible(s, t));
    }
}

/// The critical section of the running task on the resource `a` it holds:
/// the processor runs at the ceiling of `a`; no task whose priority is at or
/// below that ceiling is started; a waiting task above the ceiling does get
/// the processor (it, or one that outranks it); and whatever is started does
/// not lock `a`.
pub proof fn lemma_critical_section<P>(s: Schedule<P>, a: usize, t: int)
    requires
        wf(s),
        s.stack.len() > 0,
        s.stack.last().held == Some(a),
        0 <= t < s.tasks.len(),
    ensures
        level(s) == ceiling_of(s.tasks, a),
        s.tasks[t].priority <= ceiling_of(s.tasks, a) ==> candidate(s) != Some(t),
        s.tasks[t].priority > ceiling_of(s.tasks, a) ==> !declares(s.tasks[t], a),
        s.tasks[t].priority > ceiling_of(s.tasks, a) && s.ready[t].len() > 0 ==> {
            &&& candidate(s) is Some
            &&& s.tasks[candidate(s)->0].priority >= s.tasks[t].priority
            &&& !declares(s.tasks[candidate(s)->0], a)
        },
{
    reveal(wf);
    let top = s.stack.last();
    lemma_declared_in_range(s, top.task as int, a);
    lemma_dispatch_choice(s, t);
    lemma_best(s, s.tasks.len() as int);
    if declares(s.tasks[t], a) {
        lemma_ceiling_bounds_users(s.tasks, a, t);
    }
    if candidate(s) is Some {
        let c = candidate(s)->0;
        if declares(s.tasks[c], a) {
            lemma_ceiling_bounds_users(s.tasks, a, c);
        }
    }
}

/// A critical section leaves the scheduler as it found it: taking a
/// resource and releasing it again changes nothing.
pub proof fn lemma_lock_then_unlock<P>(s: Schedule<P>, r: usize)
    requires
        s.stack.len() > 0 ==> s.stack.last().held is None,
    ensures
        unlocked(locked(s, r)) == s,
{
    if lock_refusal(s, r) is None {
        assert(unlocked(locked(s, r)).stack =~= s.stack);
    }
}

/// After `tick` no activation is ready before its cycle: what was spawned
/// was due, and what still waits is not.
pub proof fn lemma_tick_on_time<P>(s: Schedule<P>, now: u64)
    requires
        wf(s),
    ensures
        forall|i: int|
            0 <= i < due_count(s.deferred, now) ==> (#[trigger] s.deferred[i]).fire <= now,
        forall|i: int|
            0 <= i < ticked(s, now).deferred.len() ==> (#[trigger] ticked(s, now).deferred[i]).fire
                > now,
        ticked(s, now).deferred.len() == s.deferred.len() - due_count(s.deferred, now),
{
    reveal(wf);
    lemma_due_count(s.deferred, now);
    let due = due_count(s.deferred, now) as int;
    assert forall|i: int| 0 <= i < ticked(s, now).deferred.len() implies (#[trigger] ticked(
        s,
        now,
    ).deferred[i]).fire > now by {
        assert(s.deferred[i + due].fire > now);
    }
}

/// The scheduler.
pub struct Scheduler<P> {
    tasks: Vec<TaskSpec>,
    ceilings: Vec<u8>,
    ready: Vec<Vec<P>>,
    deferred: Vec<DeferredEntry<P>>,
    deferred_capacity: usize,
    dropped: u64,
    stack: Vec<Frame>,
}

impl<P> View for Scheduler<P> {
    type V = Schedule<P>;

    closed spec fn view(&self) -> Schedule<P> {
        Schedule {
            tasks: self.tasks@,
            ceilings: self.ceilings@,
            ready: Seq::new(self.ready@.len(), |t: int| self.ready@[t]@),
            deferred: self.deferred@,
            deferred_capacity: self.deferred_capacity,
            dropped: self.dropped,
            stack: self.stack@,
        }
    }
}

fn task_declares(task: &TaskSpec, r: usize) -> (found: bool)
    ensures
        found == declares(*task, r),
{
    let mut i: usize = 0;
    while i < task.resources.len()
        invariant
            0 <= i <= task.resources.len(),
            forall|j: int| 0 <= j < i ==> task.resources@[j] != r,
        decreases task.resources.len() - i,
    {
        if task.resources[i] == r {
            return true;
        }
        i = i + 1;
    }
    false
}

fn task_fault(task: &TaskSpec, index: usize, resources: usize) -> (fault: Option<ConfigError>)
    ensures
        fault == fault_of(*task, index as int, resources),
{
    if task.priority == 0 {
        return Some(ConfigError::NoPriority(index));
    }
    if task.capacity == 0 {
        return Some(ConfigError::NoCapacity(index));
    }
    let mut i: usize = 0;
    while i < task.resources.len()
        invariant
            0 <= i <= task.resources.len(),
            task.priority != 0,
            task.capacity != 0,
            forall|j: int| 0 <= j < i ==> task.resources@[j] < resources,
        decreases task.resources.len() - i,
    {
        if task.resources[i] >= resources {
            proof {
                let j = i as int;
                assert(0 <= j < task.resources@.len() && task.resources@[j] >= resources);
            }
            return Some(ConfigError::UnknownResource(index));
        }
        i = i + 1;
    }
    None
}

fn ceiling(tasks: &Vec<TaskSpec>, r: usize) -> (c: u8)
    ensures
        c == ceiling_of(tasks@, r),
{
    let mut c: u8 = 0;
    let mut t: usize = 0;
    while t < tasks.len()
        invariant
            0 <= t <= tasks.len(),
            c == ceiling_of(tasks@.take(t as int), r),
        decreases tasks.len() - t,
    {
        proof {
            assert(tasks@.take(t + 1).drop_last() =~= tasks@.take(t as int));
            assert(tasks@.take(t + 1).last() == tasks@[t as int]);
        }
        if task_declares(&tasks[t], r) && tasks[t].priority > c {
            c = tasks[t].priority;
        }
        t = t + 1;
    }
    proof {
        assert(tasks@.take(t as int) =~= tasks@);
    }
    c
}

impl<P> Scheduler<P> {
    /// A scheduler for the given task table, with `resources` resources and
    /// room for `deferred_capacity` deferred activations.  Nothing waits and
    /// nothing runs.  A faulty table is refused with its first fault.
    pub fn new(tasks: Vec<TaskSpec>, resources: usize, deferred_capacity: usize) -> (r: Result<
        Self,
        ConfigError,
    >)
        ensures
            match r {
                Ok(s) => {
                    &&& first_fault(tasks@, resources) is None
                    &&& wf(s@)
                    &&& s@.tasks == tasks@
                    &&& s@.ceilings.len() == resources
                    &&& s@.ready == Seq::new(tasks@.len(), |t: int| Seq::<P>::empty())
                    &&& s@.deferred == Seq::<DeferredEntry<P>>::empty()
                    &&& s@.deferred_capacity == deferred_capacity
                    &&& s@.dropped == 0
                    &&& s@.stack == Seq::<Frame>::empty()
                },
                Err(e) => first_fault(tasks@, resources) == Some(e),
            },
    {
        let mut t: usize = 0;
        while t < tasks.len()
            invariant
                0 <= t <= tasks.len(),
                first_fault(tasks@.take(t as int), resources) is None,
            decreases tasks.len() - t,
        {
            proof {
                assert(tasks@.take(t + 1).drop_last() =~= tasks@.take(t as int));
                assert(tasks@.take(t + 1).last() == tasks@[t as int]);
            }
            match task_fault(&tasks[t], t, resources) {
                Some(e) => {
                    proof {
                        lemma_first_fault_prefix(tasks@, resources, t + 1);
                    }
                    return Err(e);
                },
                None => {},
            }
            t = t + 1;
        }
        proof {
            assert(tasks@.take(t as int) =~= tasks@);
        }
        let mut ceilings: Vec<u8> = Vec::new();
        let mut r: usize = 0;
        while r < resources
            invariant
                0 <= r <= resources,
                ceilings@.len() == r,
                forall|q: int| 0 <= q < r ==> #[trigger] ceilings@[q] == ceiling_of(tasks@, q as usize),
            decreases resources - r,
        {
            let c = ceiling(&tasks, r);
            ceilings.push(c);
            r = r + 1;
        }
        let mut ready: Vec<Vec<P>> = Vec::new();
        let mut n: usize = 0;
        while n < tasks.len()
            invariant
                0 <= n <= tasks.len(),
                ready@.len() == n,
                forall|q: int| 0 <= q < n ==> (#[trigger] ready@[q])@ == Seq::<P>::empty(),
            decreases tasks.len() - n,
        {
            ready.push(Vec::new());
            n = n + 1;
        }
        let s = Scheduler {
            tasks,
            ceilings,
            ready,
            deferred: Vec::new(),
            deferred_capacity,
            dropped: 0,
            stack: Vec::new(),
        };
        proof {
            reveal(wf);
            assert(s@.ready =~= Seq::new(tasks@.len(), |t: int| Seq::<P>::empty()));
            assert forall|t: int| 0 <= t < s@.tasks.len() implies fault_of(
                #[trigger] s@.tasks[t],
                t,
                s@.ceilings.len() as usize,
            ) is None by {
                lemma_no_fault(tasks@, resources, t);
            }
        }
        Ok(s)
    }

    /// Makes `task` ready with `payload`.  When the task's queue is full, or
    /// there is no such task, the activation is lost and counted, and the
    /// payload comes back.
    pub fn spawn(&mut self, task: usize, payload: P) -> (r: Result<(), P>)
        requires
            wf(old(self)@),
        ensures
            wf(final(self)@),
            final(self)@ == spawned(old(self)@, task, payload),
            r is Ok <==> accepts(old(self)@, task),
            r is Err ==> r->Err_0 == payload,
    {
        proof {
            reveal(wf);
        }
        if task < self.tasks.len() && self.ready[task].len() < self.tasks[task].capacity {
            self.ready[task].push(payload);
            proof {
                assert(self@.ready =~= old(self)@.ready.update(
                    task as int,
                    old(self)@.ready[task as int].push(payload),
                ));
            }
            Ok(())
        } else {
            self.count_drop();
            Err(payload)
        }
    }

    fn pop_deferred(&mut self) -> (entry: DeferredEntry<P>)
        requires
            wf(old(self)@),
            old(self)@.deferred.len() > 0,
        ensures
            wf(final(self)@),
            final(self)@ == (Schedule {
                deferred: old(self)@.deferred.drop_first(),
                ..old(self)@
            }),
            entry == old(self)@.deferred[0],
    {
        let ghost before = self@;
        let entry = self.deferred.remove(0);
        proof {
            reveal(wf);
            assert(self@.deferred =~= before.deferred.drop_first());
            assert(self@.ready =~= before.ready);
            assert forall|i: int, j: int| 0 <= i <= j < self@.deferred.len() implies self@.deferred[i].fire
                <= self@.deferred[j].fire by {
                assert(before.deferred[i + 1].fire <= before.deferred[j + 1].fire);
            }
            assert forall|i: int| 0 <= i < self@.deferred.len() implies (
            #[trigger] self@.deferred[i]).task < self@.tasks.len() by {
                assert(before.deferred[i + 1].task < before.tasks.len());
            }
        }
        entry
    }

    fn release_front(&mut self)
        requires
            wf(old(self)@),
            old(self)@.deferred.len() > 0,
        ensures
            wf(final(self)@),
            final(self)@ == (Schedule {
                deferred: old(self)@.deferred.drop_first(),
                ..spawned(
                    old(self)@,
                    old(self)@.deferred[0].task,
                    old(self)@.deferred[0].payload,
                )
            }),
    {
        let entry = self.pop_deferred();
        let _ = self.spawn(entry.task, entry.payload);
    }

    fn count_drop(&mut self)
        ensures
            final(self)@ == (Schedule { dropped: bump(old(self)@.dropped), ..old(self)@ }),
            wf(old(self)@) ==> wf(final(self)@),
    {
        proof {
            reveal(wf);
        }
        if self.dropped < u64::MAX {
            self.dropped = self.dropped + 1;
        }
    }

    /// Defers an activation of `task` to the cycle `fire`.  When the deferred
    /// queue is full, or there is no such task, the activation is lost and
    /// counted, and the payload comes back.
    pub fn schedule(&mut self, task: usize, fire: u64, payload: P) -> (r: Result<(), P>)
        requires
            wf(old(self)@),
        ensures
            wf(final(self)@),
            final(self)@ == scheduled(old(self)@, task, fire, payload),
            r is Ok <==> defers(old(self)@, task),
            r is Err ==> r->Err_0 == payload,
    {
        proof {
            reveal(wf);
        }
        if task < self.tasks.len() && self.deferred.len() < self.deferred_capacity {
            let mut at: usize = 0;
            while at < self.deferred.len() && self.deferred[at].fire <= fire
                invariant
                    0 <= at <= self.deferred.len(),
                    forall|i: int| 0 <= i < at ==> (#[trigger] self.deferred@[i]).fire <= fire,
                decreases self.deferred.len() - at,
            {
                at = at + 1;
            }
            proof {
                lemma_due_count_is(self.deferred@, fire, at as int);
            }
            let ghost before = self.deferred@;
            self.deferred.insert(at, DeferredEntry { task, fire, payload });
            proof {
                let after = self.deferred@;
                assert forall|i: int, j: int| 0 <= i <= j < after.len() implies after[i].fire
                    <= after[j].fire by {
                    if i < at && j > at {
                        assert(before[i].fire <= before[j - 1].fire);
                    } else if i > at {
                        assert(before[i - 1].fire <= before[j - 1].fire);
                    } else if j < at {
                        assert(before[i].fire <= before[j].fire);
                    } else if i == at && j > at {
                        assert(before[j - 1].fire > fire);
                    }
                }
                assert(self@.ready =~= old(self)@.ready);
            }
            Ok(())
        } else {
            self.count_drop();
            Err(payload)
        }
    }

    /// Tells the scheduler the cycle count.  Every deferred activation whose
    /// cycle has come is spawned, the earliest first; none is spawned before
    /// its cycle.  Returns how many were due.
    pub fn tick(&mut self, now: u64) -> (due: usize)
        requires
            wf(old(self)@),
        ensures
            wf(final(self)@),
            final(self)@ == ticked(old(self)@, now),
            due == due_count(old(self)@.deferred, now),
    {
        let ghost start = self@;
        let mut due: usize = 0;
        let waiting = self.deferred.len();
        proof {
            assert(start.deferred.len() == waiting);
            assert(start.deferred.skip(0) =~= start.deferred);
            assert(released(start, start.deferred.take(0)) == start);
        }
        while self.deferred.len() > 0 && self.deferred[0].fire <= now
            invariant
                wf(self@),
                due <= start.deferred.len() <= usize::MAX,
                forall|i: int| 0 <= i < due ==> (#[trigger] start.deferred[i]).fire <= now,
                self@ == (Schedule {
                    deferred: start.deferred.skip(due as int),
                    ..released(start, start.deferred.take(due as int))
                }),
            decreases self.deferred.len(),
        {
            let ghost before = self@;
            self.release_front();
            proof {
                lemma_release_step(start, before, self@, due as int);
            }
            due = due + 1;
        }
        proof {
            assert(self@.deferred.len() > 0 ==> self@.deferred[0] == start.deferred[due as int]);
            lemma_due_count_is(start.deferred, now, due as int);
        }
        due
    }
}

impl<P> Scheduler<P> {
    /// The level at which the processor runs.
    pub fn level(&self) -> (l: u8)
        requires
            wf(self@),
        ensures
            l == level(self@),
    {
        let n = self.stack.len();
        if n == 0 {
            0
        } else {
            let top = self.stack[n - 1];
            proof {
                reveal(wf);
                assert(self@.stack[n - 1] == top);
                if top.held is Some {
                    lemma_declared_in_range(self@, top.task as int, top.held->0);
                }
            }
            match top.held {
                Some(r) => self.ceilings[r],
                None => self.tasks[top.task].priority,
            }
        }
    }

    fn choose_task(&self) -> (found: Option<usize>)
        requires
            wf(self@),
        ensures
            found is Some <==> candidate(self@) is Some,
            found is Some ==> found->0 == candidate(self@)->0 && found->0 < self@.tasks.len()
                && self@.ready[found->0 as int].len() > 0,
    {
        let floor = self.level();
        let mut found: Option<usize> = None;
        let mut t: usize = 0;
        proof {
            reveal(wf);
        }
        while t < self.tasks.len()
            invariant
                0 <= t <= self.tasks.len(),
                self.ready@.len() == self.tasks@.len(),
                floor == level(self@),
                found is Some <==> best(self@, t as int) is Some,
                found is Some ==> found->0 == best(self@, t as int)->0 && found->0 < t,
            decreases self.tasks.len() - t,
        {
            if self.ready[t].len() > 0 && self.tasks[t].priority > floor {
                let better = match found {
                    None => true,
                    Some(b) => self.tasks[t].priority > self.tasks[b].priority,
                };
                if better {
                    found = Some(t);
                }
            }
            t = t + 1;
        }
        proof {
            lemma_best(self@, self@.tasks.len() as int);
        }
        found
    }

    /// Starts the waiting task of highest priority, if its priority lies
    /// above the running level, and hands out its oldest payload.
    pub fn dispatch(&mut self) -> (r: Option<(usize, P)>)
        requires
            wf(old(self)@),
        ensures
            wf(final(self)@),
            final(self)@ == dispatched(old(self)@),
            match candidate(old(self)@) {
                Some(t) => r == Some((t as usize, old(self)@.ready[t][0])),
                None => r is None,
            },
    {
        match self.choose_task() {
            None => None,
            Some(t) => {
                let ghost before = self@;
                proof {
                    reveal(wf);
                    assert(before.ready[t as int] == self.ready@[t as int]@);
                }
                let payload = self.ready[t].remove(0);
                self.stack.push(Frame { task: t, held: None });
                proof {
                    reveal(wf);
                    lemma_best(before, before.tasks.len() as int);
                    assert(self@.ready =~= before.ready.update(
                        t as int,
                        before.ready[t as int].drop_first(),
                    ));
                    assert(self@.stack =~= before.stack.push(Frame { task: t, held: None }));
                    assert forall|i: int| 0 <= i < self@.stack.len() - 1 implies frame_level(
                        self@,
                        #[trigger] self@.stack[i],
                    ) < self@.tasks[self@.stack[i + 1].task as int].priority by {
                        if i < before.stack.len() - 1 {
                            assert(frame_level(before, before.stack[i])
                                < before.tasks[before.stack[i + 1].task as int].priority);
                        }
                    }
                }
                Some((t, payload))
            },
        }
    }

    /// Ends the running task; a resource it still holds is released with it.
    /// Returns the task, or `None` when the processor was idle.
    pub fn complete(&mut self) -> (done: Option<usize>)
        requires
            wf(old(self)@),
        ensures
            wf(final(self)@),
            final(self)@ == completed(old(self)@),
            done == (if old(self)@.stack.len() == 0 {
                None
            } else {
                Some(old(self)@.stack.last().task)
            }),
    {
        let ghost before = self@;
        match self.stack.pop() {
            Some(frame) => {
                proof {
                    reveal(wf);
                    assert(self@.ready =~= before.ready);
                    assert(self@.stack =~= before.stack.drop_last());
                    assert forall|i: int| 0 <= i < self@.stack.len() - 1 implies frame_level(
                        self@,
                        #[trigger] self@.stack[i],
                    ) < self@.tasks[self@.stack[i + 1].task as int].priority by {
                        assert(frame_level(before, before.stack[i])
                            < before.tasks[before.stack[i + 1].task as int].priority);
                    }
                }
                Some(frame.task)
            },
            None => {
                proof {
                    assert(self@.ready =~= before.ready);
                    assert(self@.stack =~= before.stack);
                }
                None
            },
        }
    }

    /// Takes resource `r` for the running task and raises the running level
    /// to the ceiling of `r`.  The lock is granted whenever a task runs that
    /// declared `r` and holds nothing; it never has to wait.
    pub fn lock(&mut self, r: usize) -> (res: Result<(), LockError>)
        requires
            wf(old(self)@),
        ensures
            wf(final(self)@),
            final(self)@ == locked(old(self)@, r),
            match lock_refusal(old(self)@, r) {
                Some(e) => res == Err::<(), LockError>(e),
                None => res is Ok,
            },
    {
        let n = self.stack.len();
        if n == 0 {
            return Err(LockError::Idle);
        }
        let top = self.stack[n - 1];
        proof {
            reveal(wf);
            assert(self@.stack[n - 1] == top);
        }
        if top.held.is_some() {
            return Err(LockError::Nested);
        }
        if !task_declares(&self.tasks[top.task], r) {
            return Err(LockError::NotDeclared);
        }
        let ghost before = self@;
        self.stack.set(n - 1, Frame { task: top.task, held: Some(r) });
        proof {
            assert(self@.ready =~= before.ready);
            assert forall|i: int| 0 <= i < self@.stack.len() - 1 implies frame_level(
                self@,
                #[trigger] self@.stack[i],
            ) < self@.tasks[self@.stack[i + 1].task as int].priority by {
                assert(frame_level(before, before.stack[i]) < before.tasks[before.stack[i
                    + 1].task as int].priority);
            }
        }
        Ok(())
    }

    /// Releases the resource that the running task holds and lowers the
    /// running level to the task's priority.  Returns the resource, or `None`
    /// when nothing was held.
    pub fn unlock(&mut self) -> (released: Option<usize>)
        requires
            wf(old(self)@),
        ensures
            wf(final(self)@),
            final(self)@ == unlocked(old(self)@),
            released == (if old(self)@.stack.len() > 0 {
                old(self)@.stack.last().held
            } else {
                None
            }),
    {
        let n = self.stack.len();
        if n == 0 {
            return None;
        }
        let top = self.stack[n - 1];
        proof {
            reveal(wf);
            assert(self@.stack[n - 1] == top);
        }
        if top.held.is_none() {
            return None;
        }
        let ghost before = self@;
        self.stack.set(n - 1, Frame { task: top.task, held: None });
        proof {
            assert(self@.ready =~= before.ready);
            assert forall|i: int| 0 <= i < self@.stack.len() - 1 implies frame_level(
                self@,
                #[trigger] self@.stack[i],
            ) < self@.tasks[self@.stack[i + 1].task as int].priority by {
                assert(frame_level(before, before.stack[i]) < before.tasks[before.stack[i
                    + 1].task as int].priority);
            }
        }
        top.held
    }

    /// Number of activations lost so far.
    pub fn dropped(&self) -> (n: u64)
        ensures
            n == self@.dropped,
    {
        self.dropped
    }

    /// Number of activations of `task` that wait; 0 for a task that does not
    /// exist.
    pub fn pending(&self, task: usize) -> (n: usize)
        requires
            wf(self@),
        ensures
            n == (if task < self@.tasks.len() {
                self@.ready[task as int].len()
            } else {
                0
            }),
    {
        proof {
            reveal(wf);
        }
        if task < self.tasks.len() {
            self.ready[task].len()
        } else {
            0
        }
    }

    /// The task that runs, if any.
    pub fn running(&self) -> (task: Option<usize>)
        ensures
            task == (if self@.stack.len() > 0 {
                Some(self@.stack.last().task)
            } else {
                None
            }),
    {
        let n = self.stack.len();
        if n == 0 {
            None
        } else {
            Some(self.stack[n - 1].task)
        }
    }

    /// The ceiling of resource `r`, if there is such a resource.
    pub fn ceiling(&self, r: usize) -> (c: Option<u8>)
        requires
            wf(self@),
        ensures
            c == (if r < self@.ceilings.len() {
                Some(ceiling_of(self@.tasks, r))
            } else {
                None
            }),
    {
        proof {
            reveal(wf);
        }
        if r < self.ceilings.len() {
            Some(self.ceilings[r])
        } else {
            None
        }
    }

    /// The cycle of the earliest deferred activation, if one waits.
    pub fn next_fire(&self) -> (fire: Option<u64>)
        ensures
            fire == (if self@.deferred.len() > 0 {
                Some(self@.deferred[0].fire)
            } else {
                None
            }),
    {
        if self.deferred.len() > 0 {
            Some(self.deferred[0].fire)
        } else {
            None
        }
    }
}

} // verus!
