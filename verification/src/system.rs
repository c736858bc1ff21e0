//! The control core: the task table and what each task does.
//!
//! The core owns the scheduler, the button lines, the report and the
//! terminal.  Interrupt handlers tell it what happened (`edge`,
//! `usb_interrupt`, `tick`); `step` then runs the ready task of highest
//! priority to completion and returns what the hardware has to do for it.
//! The core touches no hardware itself.

use crate::buttons::edged;
use crate::buttons::poll_event;
use crate::buttons::polled;
use crate::buttons::slot_of;
use crate::buttons::ButtonController;
use crate::buttons::ButtonEvent;
use crate::buttons::ButtonLine;
use crate::dispatcher::button;
use crate::dispatcher::label_for;
use crate::dispatcher::mutation_for;
use crate::report::apply;
use crate::report::rest;
use crate::report::wire;
use crate::report::KeyboardReport2;
use crate::report::Report;
use crate::scheduler::candidate;
use crate::scheduler::ceiling_of;
use crate::scheduler::lemma_ceiling_attained;
use crate::scheduler::lemma_ceiling_bounds_users;
use crate::scheduler::completed;
use crate::scheduler::declares;
use crate::scheduler::dispatched;
use crate::scheduler::fault_of;
use crate::scheduler::first_fault;
use crate::scheduler::defers;
use crate::scheduler::due_count;
use crate::scheduler::lemma_best;
use crate::scheduler::lemma_due_count_bound;
use crate::scheduler::lemma_faultless;
use crate::scheduler::lemma_released_keeps;
use crate::scheduler::locked;
use crate::scheduler::unlocked;
use crate::scheduler::scheduled;
use crate::scheduler::spawned;
use crate::scheduler::ticked;
use crate::scheduler::wf;
use crate::scheduler::DeferredEntry;
use crate::scheduler::Frame;
use crate::scheduler::Schedule;
use crate::scheduler::Scheduler;
use crate::scheduler::TaskSpec;
use crate::strings::fixed_as_str;
use crate::strings::fixed_text;
use crate::strings::FixedText;
use crate::terminal::board_geometry;
use crate::terminal::cursor_after;
use crate::terminal::start_ops;
use crate::terminal::text_ops;
use crate::terminal::Cursor;
use crate::terminal::DisplayOp;
use crate::terminal::Geometry;
use crate::terminal::Terminal;
use vstd::pervasive::unreached;
use vstd::prelude::*;

verus! {

/// The task that polls the USB device.
pub const TASK_USB: usize = 0;

/// The task that drives the backlight.
pub const TASK_PWM: usize = 1;

/// The task that looks at a button line once its settle window has passed.
pub const TASK_SETTLE: usize = 2;

/// The task that handles button events.
pub const TASK_BUTTON: usize = 3;

/// The task that writes text to the terminal.
pub const TASK_PRINT: usize = 4;

/// The task that blinks the LED.
pub const TASK_BLINKY: usize = 5;

/// Number of tasks.
pub const TASK_COUNT: usize = 6;

/// The HID endpoint, shared by the USB task and the button task.
pub const RES_HID: usize = 0;

/// Number of resources.
pub const RESOURCE_COUNT: usize = 1;

/// Room for deferred activations.
pub const DEFERRED_CAPACITY: usize = 16;

/// Settle window of the button lines in cycles: 5 ms at 120 MHz.
pub const SETTLE_WINDOW: u64 = 600_000;

/// Cycles between two toggles of the LED.
pub const BLINK_PERIOD: u32 = 16_000_000;

/// Cycles for which the backlight is driven high in each period.
pub const PWM_ON: u32 = 20 * 1024;

/// Cycles for which the backlight is driven low in each period.
pub const PWM_OFF: u32 = 120 * 1024 - 20 * 1024;

/// What travels with an activation.
pub enum Payload {
    /// Nothing.
    Unit,
    /// The cycle for which the activation was scheduled.
    At(u64),
    /// The line to look at, and the cycle for which the look was scheduled.
    Settle(u8, u64),
    /// A button event.
    Event(ButtonEvent),
    /// A text message.
    Text(FixedText),
}

/// What the hardware has to do.
#[derive(Clone, Copy, Debug, PartialEq, Eq)]
pub enum Effect {
    /// Perform a display operation.
    Display(DisplayOp),
    /// Send the report bytes to the host.
    SendReport([u8; 11]),
    /// Poll the USB device.
    PollUsb,
    /// Toggle the LED.
    ToggleLed,
    /// Drive the backlight pin high (`true`) or low.
    Backlight(bool),
}

/// Mathematical value of the core.
pub struct CoreState {
    pub sched: Schedule<Payload>,
    pub lines: Seq<ButtonLine>,
    pub window: u64,
    pub report: Report,
    pub geometry: Geometry,
    pub cursor: Cursor,
    /// The flag of the backlight task: when set, the task drives the pin low
    /// and waits out the dark part of the period.
    pub backlight_state: bool,
}

/// Priority of each task.
pub open spec fn priority_of(task: int) -> u8 {
    if task == TASK_USB {
        10
    } else if task == TASK_PWM {
        9
    } else if task == TASK_SETTLE {
        3
    } else if task == TASK_BUTTON {
        2
    } else {
        1
    }
}

/// The resources that each task may lock.
pub open spec fn resources_of(task: int) -> Seq<usize> {
    if task == TASK_USB || task == TASK_BUTTON {
        seq![RES_HID]
    } else {
        Seq::empty()
    }
}

/// Room of each task for waiting activations.
pub open spec fn capacity_of(task: int) -> usize {
    if task == TASK_SETTLE {
        7
    } else {
        1
    }
}

/// The table is the core's task table.
pub open spec fn table_ok(tasks: Seq<TaskSpec>) -> bool {
    &&& tasks.len() == TASK_COUNT
    &&& forall|t: int|
        0 <= t < TASK_COUNT ==> {
            &&& (#[trigger] tasks[t]).priority == priority_of(t)
            &&& tasks[t].capacity == capacity_of(t)
            &&& tasks[t].resources@ == resources_of(t)
        }
}

/// Cycles until the backlight task runs again.
pub open spec fn pwm_wait(backlight_state: bool) -> u32 {
    if backlight_state {
        PWM_OFF
    } else {
        PWM_ON
    }
}

/// The greeting, line by line.
pub open spec fn greeting() -> Seq<Seq<char>> {
    seq![
        "Hello! Send text to me over the USB serial port, and I'll display it!"@,
        "\n"@,
        "On linux:\n"@,
        "  sudo stty -F /dev/ttyACM0 115200 raw -echo\n"@,
        "  sudo bash -c \"echo 'Hi' > /dev/ttyACM0\"\n"@,
    ]
}

/// The cursor after the strings of `texts` were written, first to last.
pub open spec fn cursor_after_all(g: Geometry, cur: Cursor, texts: Seq<Seq<char>>) -> Cursor
    decreases texts.len(),
{
    if texts.len() == 0 {
        cur
    } else {
        cursor_after(g, cursor_after_all(g, cur, texts.drop_last()), texts.last())
    }
}

/// The operations that writing the strings of `texts` asks for.
pub open spec fn ops_of_all(g: Geometry, cur: Cursor, texts: Seq<Seq<char>>) -> Seq<DisplayOp>
    decreases texts.len(),
{
    if texts.len() == 0 {
        Seq::empty()
    } else {
        ops_of_all(g, cur, texts.drop_last()) + text_ops(
            g,
            cursor_after_all(g, cur, texts.drop_last()),
            texts.last(),
        )
    }
}

/// Display operations as effects.
pub open spec fn shown(ops: Seq<DisplayOp>) -> Seq<Effect> {
    Seq::new(ops.len(), |i: int| Effect::Display(ops[i]))
}

/// The scheduler after a task asked to run again `cycles` after the cycle
/// `at` for which it was scheduled.  Beyond the counter's range it does not
/// run again.
pub open spec fn rearmed(
    s: Schedule<Payload>,
    task: usize,
    at: u64,
    cycles: u32,
) -> Schedule<Payload> {
    if at + cycles <= u64::MAX {
        scheduled(s, task, (at + cycles) as u64, Payload::At((at + cycles) as u64))
    } else {
        s
    }
}

/// The scheduler with a button event handed to the button task, if there is
/// an event.
pub open spec fn emitted(s: Schedule<Payload>, event: Option<ButtonEvent>) -> Schedule<Payload> {
    match event {
        Some(e) => spawned(s, TASK_BUTTON, Payload::Event(e)),
        None => s,
    }
}

/// The state before anything happened, at cycle `start`: the greeting is on
/// the screen, the LED task waits for its first period to pass, and the
/// backlight task is ready.
pub open spec fn booted(tasks: Seq<TaskSpec>, ceilings: Seq<u8>, start: u64, window: u64) -> CoreState {
    let empty = Schedule::<Payload> {
        tasks,
        ceilings,
        ready: Seq::new(tasks.len(), |t: int| Seq::<Payload>::empty()),
        deferred: Seq::<DeferredEntry<Payload>>::empty(),
        deferred_capacity: DEFERRED_CAPACITY,
        dropped: 0,
        stack: Seq::<Frame>::empty(),
    };
    CoreState {
        sched: spawned(rearmed(empty, TASK_BLINKY, start, BLINK_PERIOD), TASK_PWM, Payload::At(start)),
        lines: Seq::new(7, |i: int| crate::buttons::fresh(crate::buttons::button_at(i))),
        window,
        report: rest(),
        geometry: board_geometry(),
        cursor: cursor_after_all(board_geometry(), Cursor { x: 0, y: 0 }, greeting()),
        backlight_state: true,
    }
}

/// The state after an edge on line `id` that read `level` at `now`: the line
/// takes the edge, an event it emits goes to the button task, and a look at
/// the line is scheduled for the end of the new settle window.
pub open spec fn after_edge(s: CoreState, id: u8, now: u64, level: bool) -> CoreState {
    match slot_of(id) {
        None => s,
        Some(i) => {
            let sched = emitted(s.sched, poll_event(s.lines[i], now, s.window));
            CoreState {
                lines: s.lines.update(i, edged(s.lines[i], now, level, s.window)),
                sched: if now + s.window <= u64::MAX {
                    scheduled(
                        sched,
                        TASK_SETTLE,
                        (now + s.window) as u64,
                        Payload::Settle(id, (now + s.window) as u64),
                    )
                } else {
                    sched
                },
                ..s
            }
        },
    }
}

/// The state and the effects after `task` ran with `payload`.  `text` is the
/// message that the button task makes for the print task.
pub open spec fn ran(s: CoreState, task: int, payload: Payload, text: FixedText) -> (
    CoreState,
    Seq<Effect>,
) {
    if task == TASK_USB {
        (s, seq![Effect::PollUsb])
    } else if task == TASK_PWM && payload is At {
        (
            CoreState {
                backlight_state: !s.backlight_state,
                sched: rearmed(
                    s.sched,
                    TASK_PWM,
                    payload->At_0,
                    pwm_wait(s.backlight_state),
                ),
                ..s
            },
            seq![Effect::Backlight(!s.backlight_state)],
        )
    } else if task == TASK_BLINKY && payload is At {
        (
            CoreState { sched: rearmed(s.sched, TASK_BLINKY, payload->At_0, BLINK_PERIOD), ..s },
            seq![Effect::ToggleLed],
        )
    } else if task == TASK_SETTLE && payload is Settle && slot_of(payload->Settle_0) is Some {
        let i = slot_of(payload->Settle_0)->0;
        (
            CoreState {
                lines: s.lines.update(i, polled(s.lines[i], payload->Settle_1, s.window)),
                sched: emitted(s.sched, poll_event(s.lines[i], payload->Settle_1, s.window)),
                ..s
            },
            Seq::empty(),
        )
    } else if task == TASK_BUTTON && payload is Event && mutation_for(payload->Event_0) is Some {
        let report = apply(s.report, mutation_for(payload->Event_0)->0);
        (
            CoreState { report, sched: spawned(s.sched, TASK_PRINT, Payload::Text(text)), ..s },
            seq![Effect::SendReport(wire_array(report))],
        )
    } else if task == TASK_PRINT && payload is Text {
        (
            CoreState { cursor: cursor_after(s.geometry, s.cursor, fixed_text(payload->Text_0)), ..s },
            shown(text_ops(s.geometry, s.cursor, fixed_text(payload->Text_0))),
        )
    } else {
        (s, Seq::empty())
    }
}

/// The wire bytes of a report as an array.
pub open spec fn wire_array(r: Report) -> [u8; 11] {
    choose|a: [u8; 11]| a@ == wire(r)
}

/// The message that the button task makes for `payload` is the label of the
/// event.
pub open spec fn text_fits(task: int, payload: Payload, text: FixedText) -> bool {
    task == TASK_BUTTON && payload is Event && mutation_for(payload->Event_0) is Some
        ==> fixed_text(text) == label_for(payload->Event_0)->0
}

/// The state and the effects after `step`: the task that `dispatch` picks
/// runs to completion; with no task to pick, nothing happens.
pub open spec fn after_step(s: CoreState, text: FixedText) -> (CoreState, Option<Seq<Effect>>) {
    match candidate(s.sched) {
        None => (s, None),
        Some(t) => {
            let started = CoreState { sched: dispatched(s.sched), ..s };
            let (done, effects) = ran(started, t, s.sched.ready[t][0], text);
            (CoreState { sched: completed(done.sched), ..done }, Some(effects))
        },
    }
}

/// `after` and `effects` are what `step` leaves of `before`, where `text` is
/// the message that the button task made, if it ran.
pub open spec fn stepped(
    before: CoreState,
    after: CoreState,
    effects: Option<Seq<Effect>>,
    text: FixedText,
) -> bool {
    let t = candidate(before.sched);
    &&& t is Some ==> text_fits(t->0, before.sched.ready[t->0][0], text)
    &&& (after, effects) == after_step(before, text)
}

/// The effects that `step` returned, as a sequence.
pub open spec fn effects_view(effects: Option<Vec<Effect>>) -> Option<Seq<Effect>> {
    match effects {
        Some(e) => Some(e@),
        None => None,
    }
}

/// The HID endpoint has the priority of the USB task as its ceiling: while
/// the button task holds it, no task of the table can start.
pub proof fn lemma_hid_ceiling(tasks: Seq<TaskSpec>)
    requires
        table_ok(tasks),
    ensures
        ceiling_of(tasks, RES_HID) == priority_of(TASK_USB as int),
        forall|t: int| 0 <= t < TASK_COUNT ==> priority_of(t) <= ceiling_of(tasks, RES_HID),
{
    assert(tasks[TASK_USB as int].resources@ == resources_of(TASK_USB as int));
    assert(resources_of(TASK_USB as int)[0] == RES_HID);
    assert(declares(tasks[TASK_USB as int], RES_HID));
    lemma_ceiling_bounds_users(tasks, RES_HID, TASK_USB as int);
    let t = lemma_ceiling_attained(tasks, RES_HID);
    assert(tasks[t].priority == priority_of(t));
}

/// A periodic task that asks to run again is scheduled for exactly `cycles`
/// after the cycle for which it was scheduled, however late it ran: the
/// period does not drift.  This holds whenever the deferred queue has room
/// and the cycle is within the counter's range.
pub proof fn lemma_rearmed_on_schedule(s: Schedule<Payload>, task: usize, at: u64, cycles: u32)
    requires
        defers(s, task),
        at + cycles <= u64::MAX,
    ensures
        ({
            let fire = (at + cycles) as u64;
            let after = rearmed(s, task, at, cycles);
            let k = due_count(s.deferred, fire) as int;
            &&& 0 <= k <= s.deferred.len()
            &&& after.deferred.len() == s.deferred.len() + 1
            &&& after.deferred[k] == (DeferredEntry { task, fire, payload: Payload::At(fire) })
            &&& after.ready == s.ready
            &&& after.dropped == s.dropped
        }),
{
    lemma_due_count_bound(s.deferred, (at + cycles) as u64);
}

/// The strings of `lines` as sequences of characters.
pub open spec fn texts_of(lines: Seq<&'static str>) -> Seq<Seq<char>> {
    Seq::new(lines.len(), |i: int| lines[i]@)
}

/// The core's task table.
pub fn task_table() -> (tasks: Vec<TaskSpec>)
    ensures
        table_ok(tasks@),
{
    let mut tasks: Vec<TaskSpec> = Vec::new();
    let mut hid: Vec<usize> = Vec::new();
    hid.push(RES_HID);
    let mut hid_too: Vec<usize> = Vec::new();
    hid_too.push(RES_HID);
    tasks.push(TaskSpec { priority: 10, capacity: 1, resources: hid });
    tasks.push(TaskSpec { priority: 9, capacity: 1, resources: Vec::new() });
    tasks.push(TaskSpec { priority: 3, capacity: 7, resources: Vec::new() });
    tasks.push(TaskSpec { priority: 2, capacity: 1, resources: hid_too });
    tasks.push(TaskSpec { priority: 1, capacity: 1, resources: Vec::new() });
    tasks.push(TaskSpec { priority: 1, capacity: 1, resources: Vec::new() });
    proof {
        assert forall|t: int| 0 <= t < TASK_COUNT implies {
            &&& (#[trigger] tasks@[t]).priority == priority_of(t)
            &&& tasks@[t].capacity == capacity_of(t)
            &&& tasks@[t].resources@ == resources_of(t)
        } by {
            assert(tasks@[t].resources@ =~= resources_of(t));
        }
    }
    tasks
}

/// The core's task table has no fault.
pub proof fn lemma_table_faultless(tasks: Seq<TaskSpec>)
    requires
        table_ok(tasks),
    ensures
        first_fault(tasks, RESOURCE_COUNT) is None,
{
    assert forall|t: int| 0 <= t < tasks.len() implies fault_of(
        #[trigger] tasks[t],
        t,
        RESOURCE_COUNT,
    ) is None by {
        assert(tasks[t].resources@ == resources_of(t));
    }
    lemma_faultless(tasks, RESOURCE_COUNT);
}

fn greeting_lines() -> (lines: Vec<&'static str>)
    ensures
        texts_of(lines@) == greeting(),
{
    let mut lines: Vec<&'static str> = Vec::new();
    lines.push("Hello! Send text to me over the USB serial port, and I'll display it!");
    lines.push("\n");
    lines.push("On linux:\n");
    lines.push("  sudo stty -F /dev/ttyACM0 115200 raw -echo\n");
    lines.push("  sudo bash -c \"echo 'Hi' > /dev/ttyACM0\"\n");
    proof {
        assert(texts_of(lines@) =~= greeting());
    }
    lines
}

fn show(ops: Vec<DisplayOp>) -> (effects: Vec<Effect>)
    ensures
        effects@ == shown(ops@),
{
    let mut effects: Vec<Effect> = Vec::new();
    let mut i: usize = 0;
    while i < ops.len()
        invariant
            0 <= i <= ops.len(),
            effects@ == shown(ops@.take(i as int)),
        decreases ops.len() - i,
    {
        effects.push(Effect::Display(ops[i]));
        proof {
            assert(effects@ =~= shown(ops@.take(i + 1)));
        }
        i = i + 1;
    }
    proof {
        assert(ops@.take(i as int) =~= ops@);
    }
    effects
}

fn write_all(terminal: &mut Terminal, lines: &Vec<&'static str>) -> (ops: Vec<DisplayOp>)
    requires
        old(terminal).wf(),
    ensures
        final(terminal).wf(),
        final(terminal).geometry() == old(terminal).geometry(),
        final(terminal).cursor() == cursor_after_all(
            old(terminal).geometry(),
            old(terminal).cursor(),
            texts_of(lines@),
        ),
        ops@ == ops_of_all(old(terminal).geometry(), old(terminal).cursor(), texts_of(lines@)),
{
    let ghost g = terminal.geometry();
    let ghost start = terminal.cursor();
    let ghost texts = texts_of(lines@);
    let mut ops: Vec<DisplayOp> = Vec::new();
    let mut i: usize = 0;
    while i < lines.len()
        invariant
            0 <= i <= lines.len(),
            texts == texts_of(lines@),
            terminal.wf(),
            terminal.geometry() == g,
            terminal.cursor() == cursor_after_all(g, start, texts.take(i as int)),
            ops@ == ops_of_all(g, start, texts.take(i as int)),
        decreases lines.len() - i,
    {
        proof {
            assert(texts.take(i + 1).drop_last() =~= texts.take(i as int));
            assert(texts.take(i + 1).last() == lines@[i as int]@);
        }
        let mut more = terminal.write_str(lines[i]);
        ops.append(&mut more);
        i = i + 1;
    }
    proof {
        assert(texts.take(i as int) =~= texts);
    }
    ops
}

/// One activation of the backlight task: returns the level to drive the pin
/// to and the cycles to wait until the next activation, and flips the flag.
/// With the flag set the pin goes low for the dark part of the period,
/// otherwise high for the bright part.
pub fn pwm(backlight_state: &mut bool) -> (r: (bool, u32))
    ensures
        *final(backlight_state) == !*old(backlight_state),
        r.0 == !*old(backlight_state),
        r.1 == pwm_wait(*old(backlight_state)),
{
    let cycles = if *backlight_state {
        PWM_OFF
    } else {
        PWM_ON
    };
    let high = !*backlight_state;
    *backlight_state = high;
    (high, cycles)
}

/// The control core.
pub struct Core {
    scheduler: Scheduler<Payload>,
    buttons: ButtonController,
    report: KeyboardReport2,
    terminal: Terminal,
    backlight_state: bool,
}

impl View for Core {
    type V = CoreState;

    closed spec fn view(&self) -> CoreState {
        CoreState {
            sched: self.scheduler@,
            lines: self.buttons.lines(),
            window: self.buttons.window(),
            report: self.report@,
            geometry: self.terminal.geometry(),
            cursor: self.terminal.cursor(),
            backlight_state: self.backlight_state,
        }
    }
}

impl Core {
    /// The parts are consistent and no task is running.
    pub closed spec fn wf(&self) -> bool {
        &&& self.parts_ok()
        &&& self.scheduler@.stack.len() == 0
    }

    spec fn parts_ok(&self) -> bool {
        &&& wf(self.scheduler@)
        &&& table_ok(self.scheduler@.tasks)
        &&& self.scheduler@.ceilings.len() == RESOURCE_COUNT
        &&& self.buttons.wf()
        &&& self.terminal.wf()
    }

    /// The core as it starts at cycle `start`, with the given settle window,
    /// and what has to be shown: a blank screen with the greeting on it.
    pub fn init(start: u64, window: u64) -> (r: (Self, Vec<Effect>))
        ensures
            r.0.wf(),
            table_ok(r.0@.sched.tasks),
            r.0@.sched.ceilings.len() == RESOURCE_COUNT,
            r.0@ == booted(r.0@.sched.tasks, r.0@.sched.ceilings, start, window),
            r.1@ == shown(
                start_ops() + ops_of_all(board_geometry(), Cursor { x: 0, y: 0 }, greeting()),
            ),
    {
        let (mut terminal, mut ops) = Terminal::new();
        let lines = greeting_lines();
        let mut more = write_all(&mut terminal, &lines);
        ops.append(&mut more);
        let tasks = task_table();
        proof {
            lemma_table_faultless(tasks@);
        }
        let mut scheduler = match Scheduler::<Payload>::new(
            tasks,
            RESOURCE_COUNT,
            DEFERRED_CAPACITY,
        ) {
            Ok(s) => s,
            Err(_) => unreached(),
        };
        if start <= u64::MAX - BLINK_PERIOD as u64 {
            let at = start + BLINK_PERIOD as u64;
            let _ = scheduler.schedule(TASK_BLINKY, at, Payload::At(at));
        }
        let _ = scheduler.spawn(TASK_PWM, Payload::At(start));
        let core = Core {
            scheduler,
            buttons: ButtonController::new(window),
            report: KeyboardReport2::new(),
            terminal,
            backlight_state: true,
        };
        proof {
            assert(core@.lines =~= Seq::new(
                7,
                |i: int| crate::buttons::fresh(crate::buttons::button_at(i)),
            ));
        }
        (core, show(ops))
    }

    /// Handles the edge interrupt of button line `id`, which read `level` at
    /// `now`.
    pub fn edge(&mut self, id: u8, now: u64, level: bool)
        requires
            old(self).wf(),
        ensures
            final(self).wf(),
            final(self)@ == after_edge(old(self)@, id, now, level),
    {
        let known = self.buttons.line(id).is_some();
        let window = self.buttons.settle_window();
        match self.buttons.interrupt(id, now, level) {
            Some(event) => {
                let _ = self.scheduler.spawn(TASK_BUTTON, Payload::Event(event));
            },
            None => {},
        }
        if known && now <= u64::MAX - window {
            let at = now + window;
            let _ = self.scheduler.schedule(TASK_SETTLE, at, Payload::Settle(id, at));
        }
    }

    /// Handles an interrupt of the USB device: the USB task is made ready.
    pub fn usb_interrupt(&mut self)
        requires
            old(self).wf(),
        ensures
            final(self).wf(),
            final(self)@ == (CoreState {
                sched: spawned(old(self)@.sched, TASK_USB, Payload::Unit),
                ..old(self)@
            }),
    {
        let _ = self.scheduler.spawn(TASK_USB, Payload::Unit);
    }

    /// Tells the core the cycle count: deferred activations whose cycle has
    /// come become ready.  Returns how many were due.
    pub fn tick(&mut self, now: u64) -> (due: usize)
        requires
            old(self).wf(),
        ensures
            final(self).wf(),
            final(self)@ == (CoreState { sched: ticked(old(self)@.sched, now), ..old(self)@ }),
            due == due_count(old(self)@.sched.deferred, now),
    {
        proof {
            let s = self@.sched;
            lemma_released_keeps(
                s,
                s.deferred.take(due_count(s.deferred, now) as int),
            );
        }
        self.scheduler.tick(now)
    }

    fn rearm(&mut self, task: usize, at: u64, cycles: u32)
        requires
            old(self).parts_ok(),
        ensures
            final(self).parts_ok(),
            final(self)@ == (CoreState {
                sched: rearmed(old(self)@.sched, task, at, cycles),
                ..old(self)@
            }),
            final(self)@.sched.stack == old(self)@.sched.stack,
    {
        if at <= u64::MAX - cycles as u64 {
            let fire = at + cycles as u64;
            let _ = self.scheduler.schedule(task, fire, Payload::At(fire));
        }
    }

    fn emit(&mut self, event: Option<ButtonEvent>)
        requires
            old(self).parts_ok(),
        ensures
            final(self).parts_ok(),
            final(self)@ == (CoreState { sched: emitted(old(self)@.sched, event), ..old(self)@ }),
            final(self)@.sched.stack == old(self)@.sched.stack,
    {
        match event {
            Some(e) => {
                let _ = self.scheduler.spawn(TASK_BUTTON, Payload::Event(e));
            },
            None => {},
        }
    }

    fn enter(&mut self)
        requires
            old(self).parts_ok(),
            old(self)@.sched.stack.len() == 1,
            old(self)@.sched.stack[0].held is None,
            old(self)@.sched.stack[0].task == TASK_USB || old(self)@.sched.stack[0].task
                == TASK_BUTTON,
        ensures
            final(self).parts_ok(),
            final(self)@ == (CoreState { sched: locked(old(self)@.sched, RES_HID), ..old(self)@ }),
            crate::scheduler::lock_refusal(old(self)@.sched, RES_HID) is None,
    {
        proof {
            let task = self@.sched.stack[0].task as int;
            assert(self@.sched.tasks[task].resources@ == resources_of(task));
            assert(resources_of(task)[0] == RES_HID);
            assert(declares(self@.sched.tasks[task], RES_HID));
        }
        let _ = self.scheduler.lock(RES_HID);
    }

    fn leave(&mut self)
        requires
            old(self).parts_ok(),
        ensures
            final(self).parts_ok(),
            final(self)@ == (CoreState { sched: unlocked(old(self)@.sched), ..old(self)@ }),
    {
        let _ = self.scheduler.unlock();
    }

    fn run(&mut self, task: usize, payload: Payload) -> (r: (Vec<Effect>, Ghost<FixedText>))
        requires
            old(self).parts_ok(),
            task < TASK_COUNT,
            old(self)@.sched.stack == seq![Frame { task, held: None }],
        ensures
            final(self).parts_ok(),
            final(self)@.sched.stack == old(self)@.sched.stack,
            text_fits(task as int, payload, r.1@),
            (final(self)@, r.0@) == ran(old(self)@, task as int, payload, r.1@),
    {
        let ghost before = self@;
        let mut effects: Vec<Effect> = Vec::new();
        let ghost mut text: FixedText = arbitrary();
        if task == TASK_USB {
            self.enter();
            effects.push(Effect::PollUsb);
            self.leave();
            proof {
                assert(self@.sched.stack =~= before.sched.stack);
                assert(self@.sched == before.sched);
                assert(effects@ =~= seq![Effect::PollUsb]);
            }
        } else {
            match payload {
                Payload::At(at) => {
                    if task == TASK_PWM {
                        let (high, wait) = pwm(&mut self.backlight_state);
                        effects.push(Effect::Backlight(high));
                        self.rearm(TASK_PWM, at, wait);
                        proof {
                            assert(effects@ =~= seq![Effect::Backlight(!before.backlight_state)]);
                        }
                    } else if task == TASK_BLINKY {
                        effects.push(Effect::ToggleLed);
                        self.rearm(TASK_BLINKY, at, BLINK_PERIOD);
                        proof {
                            assert(effects@ =~= seq![Effect::ToggleLed]);
                        }
                    }
                },
                Payload::Settle(id, at) => {
                    if task == TASK_SETTLE {
                        let event = self.buttons.poll(id, at);
                        self.emit(event);
                    }
                },
                Payload::Event(event) => {
                    if task == TASK_BUTTON {
                        self.enter();
                        let out = button(&mut self.report, event);
                        self.leave();
                        proof {
                            assert(self@.sched.stack =~= before.sched.stack);
                            assert(self@.sched == before.sched);
                        }
                        match out {
                            Some(d) => {
                                proof {
                                    text = d.text;
                                    assert(d.report =~= wire_array(self@.report));
                                }
                                effects.push(Effect::SendReport(d.report));
                                let _ = self.scheduler.spawn(TASK_PRINT, Payload::Text(d.text));
                                proof {
                                    assert(effects@ =~= seq![
                                        Effect::SendReport(wire_array(self@.report)),
                                    ]);
                                }
                            },
                            None => {},
                        }
                    }
                },
                Payload::Text(message) => {
                    if task == TASK_PRINT {
                        let ops = self.terminal.write_str(fixed_as_str(&message));
                        effects = show(ops);
                    }
                },
                Payload::Unit => {},
            }
        }
        (effects, Ghost(text))
    }

    /// Runs the ready task of highest priority to completion and returns
    /// what the hardware has to do for it, in order.  With no task ready it
    /// returns `None`.
    pub fn step(&mut self) -> (effects: Option<Vec<Effect>>)
        requires
            old(self).wf(),
        ensures
            final(self).wf(),
            exists|text: FixedText| #[trigger]
                stepped(old(self)@, final(self)@, effects_view(effects), text),
    {
        let ghost before = self@;
        proof {
            lemma_best(before.sched, before.sched.tasks.len() as int);
        }
        match self.scheduler.dispatch() {
            None => {
                proof {
                    let text: FixedText = arbitrary();
                    assert(stepped(before, self@, None, text));
                }
                None
            },
            Some((task, payload)) => {
                proof {
                    assert(self@.sched.stack =~= seq![Frame { task, held: None }]);
                }
                let (effects, text) = self.run(task, payload);
                let _ = self.scheduler.complete();
                proof {
                    assert(self@.sched.stack =~= Seq::<Frame>::empty());
                    assert(self@ == after_step(before, text@).0);
                    assert(after_step(before, text@).1 == Some(effects@));
                    assert(stepped(before, self@, Some(effects@), text@));
                }
                Some(effects)
            },
        }
    }

    /// The report as it stands.
    pub fn report(&self) -> (r: KeyboardReport2)
        ensures
            r@ == self@.report,
    {
        self.report
    }

    /// Where the terminal's cursor stands.
    pub fn position(&self) -> (cur: Cursor)
        ensures
            cur == self@.cursor,
    {
        self.terminal.position()
    }

    /// Number of activations lost to full queues so far.
    pub fn dropped(&self) -> (n: u64)
        ensures
            n == self@.sched.dropped,
    {
        self.scheduler.dropped()
    }

    /// Number of activations of `task` that wait.
    pub fn pending(&self, task: usize) -> (n: usize)
        requires
            self.wf(),
        ensures
            n == (if task < self@.sched.tasks.len() {
                self@.sched.ready[task as int].len()
            } else {
                0
            }),
    {
        self.scheduler.pending(task)
    }

    /// The cycle of the earliest deferred activation, if one waits: the
    /// cycle at which the timer has to wake the core.
    pub fn next_fire(&self) -> (fire: Option<u64>)
        ensures
            fire == (if self@.sched.deferred.len() > 0 {
                Some(self@.sched.deferred[0].fire)
            } else {
                None
            }),
    {
        self.scheduler.next_fire()
    }
}

} // verus!
