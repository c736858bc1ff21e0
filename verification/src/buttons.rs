//! Debouncing of the button lines.
//!
//! Every physical button has one interrupt line.  An edge on a line starts a
//! settle window; an edge inside the window starts it again.  Once a window
//! has passed without a further edge the level read at the last edge counts
//! as stable, and if it differs from the level reported last, the line emits
//! one event.  A burst of bounces therefore yields at most one event, and the
//! events of a line alternate between pressed and released.
//!
//! A stable level is noticed either by `poll`, which a timer calls once the
//! window has passed, or by the next edge on the line, whichever comes first.

use vstd::prelude::*;

verus! {

/// The buttons of the board.
#[derive(Clone, Copy, Debug, PartialEq, Eq, Structural)]
pub enum Button {
    TopLeft,
    TopMiddle,
    Down,
    Up,
    Left,
    Right,
    Click,
}

/// A stable transition of one button.
#[derive(Clone, Copy, Debug, PartialEq, Eq, Structural)]
pub struct ButtonEvent {
    pub button: Button,
    pub down: bool,
}

/// Where a line stands in its debounce cycle.
#[derive(Clone, Copy, Debug, PartialEq, Eq, Structural)]
pub enum LineState {
    /// No edge was seen yet.
    Idle,
    /// An edge was seen and its settle window is running.
    Bouncing,
    /// The last window ended with the button down.
    SettledPressed,
    /// The last window ended with the button up.
    SettledReleased,
}

/// Debounce state of one line.
#[derive(Clone, Copy, Debug, PartialEq, Eq, Structural)]
pub struct ButtonLine {
    /// The button wired to this line.
    pub button: Button,
    pub state: LineState,
    /// Cycle of the last edge.
    pub stamp: u64,
    /// Level read at the last edge; `true` is pressed.
    pub level: bool,
    /// Level reported last; `true` is pressed.
    pub down: bool,
}

/// One edge on a line: the cycle at which it came and the level read then.
#[derive(Clone, Copy, Debug, PartialEq, Eq, Structural)]
pub struct Edge {
    pub at: u64,
    pub level: bool,
}

/// Number of button lines.
pub const LINE_COUNT: usize = 7;

/// A line on which no edge was seen, with its button up.
pub open spec fn fresh(button: Button) -> ButtonLine {
    ButtonLine { button, state: LineState::Idle, stamp: 0, level: false, down: false }
}

/// At `now`, at least `window` cycles have passed since `stamp`.
pub open spec fn elapsed(stamp: u64, now: u64, window: u64) -> bool {
    now >= stamp && now - stamp >= window
}

/// The settled state for a stable level.
pub open spec fn settled(level: bool) -> LineState {
    if level {
        LineState::SettledPressed
    } else {
        LineState::SettledReleased
    }
}

/// The line has a window running that has passed at `now`.
pub open spec fn ripe(line: ButtonLine, now: u64, window: u64) -> bool {
    line.state == LineState::Bouncing && elapsed(line.stamp, now, window)
}

/// The line after a look at the clock at `now`.
pub open spec fn polled(line: ButtonLine, now: u64, window: u64) -> ButtonLine {
    if ripe(line, now, window) {
        ButtonLine { state: settled(line.level), down: line.level, ..line }
    } else {
        line
    }
}

/// The event that a look at the clock at `now` emits.
pub open spec fn poll_event(line: ButtonLine, now: u64, window: u64) -> Option<ButtonEvent> {
    if ripe(line, now, window) && line.level != line.down {
        Some(ButtonEvent { button: line.button, down: line.level })
    } else {
        None
    }
}

/// The line after an edge at `now` that read `level`.
pub open spec fn edged(line: ButtonLine, now: u64, level: bool, window: u64) -> ButtonLine {
    ButtonLine { state: LineState::Bouncing, stamp: now, level, ..polled(line, now, window) }
}

/// Events with one more appended, if there is one.
pub open spec fn with_event(events: Seq<ButtonEvent>, event: Option<ButtonEvent>) -> Seq<
    ButtonEvent,
> {
    match event {
        Some(e) => events.push(e),
        None => events,
    }
}

/// The line after the edges of `edges`, first to last.
pub open spec fn line_after(line: ButtonLine, edges: Seq<Edge>, window: u64) -> ButtonLine
    decreases edges.len(),
{
    if edges.len() == 0 {
        line
    } else {
        edged(
            line_after(line, edges.drop_last(), window),
            edges.last().at,
            edges.last().level,
            window,
        )
    }
}

/// The events that the edges of `edges` emit, first to last.
pub open spec fn events_of(line: ButtonLine, edges: Seq<Edge>, window: u64) -> Seq<ButtonEvent>
    decreases edges.len(),
{
    if edges.len() == 0 {
        Seq::empty()
    } else {
        with_event(
            events_of(line, edges.drop_last(), window),
            poll_event(line_after(line, edges.drop_last(), window), edges.last().at, window),
        )
    }
}

/// The events that the edges of `edges` and a final look at the clock at
/// `end` emit.
pub open spec fn observed(line: ButtonLine, edges: Seq<Edge>, end: u64, window: u64) -> Seq<
    ButtonEvent,
> {
    with_event(
        events_of(line, edges, window),
        poll_event(line_after(line, edges, window), end, window),
    )
}

impl ButtonLine {
    /// A line for `button` on which no edge was seen.
    pub fn new(button: Button) -> (line: Self)
        ensures
            line == fresh(button),
    {
        ButtonLine { button, state: LineState::Idle, stamp: 0, level: false, down: false }
    }

    /// Looks at the clock.  If the settle window has passed, the level of the
    /// last edge becomes the settled level, and is reported if it is new.
    pub fn poll(&mut self, now: u64, window: u64) -> (event: Option<ButtonEvent>)
        ensures
            *final(self) == polled(*old(self), now, window),
            event == poll_event(*old(self), now, window),
    {
        if self.state == LineState::Bouncing && now >= self.stamp && now - self.stamp >= window {
            let changed = self.level != self.down;
            self.state = if self.level {
                LineState::SettledPressed
            } else {
                LineState::SettledReleased
            };
            self.down = self.level;
            if changed {
                Some(ButtonEvent { button: self.button, down: self.level })
            } else {
                None
            }
        } else {
            None
        }
    }

    /// Takes an edge that read `level` at `now`.  A window that has passed is
    /// settled first; then a new window starts.
    pub fn edge(&mut self, now: u64, level: bool, window: u64) -> (event: Option<ButtonEvent>)
        ensures
            *final(self) == edged(*old(self), now, level, window),
            event == poll_event(*old(self), now, window),
    {
        let event = self.poll(now, window);
        self.state = LineState::Bouncing;
        self.stamp = now;
        self.level = level;
        event
    }

    /// The cycle at which the running window will have passed: `None` when no
    /// window is running or the cycle is beyond the counter's range.
    pub fn deadline(&self, window: u64) -> (at: Option<u64>)
        ensures
            at is Some <==> self.state == LineState::Bouncing && self.stamp + window <= u64::MAX,
            at is Some ==> at->0 == self.stamp + window,
    {
        if self.state == LineState::Bouncing && window <= u64::MAX - self.stamp {
            Some(self.stamp + window)
        } else {
            None
        }
    }

    /// Takes the edges of `edges` in order and returns the events they emit.
    pub fn replay(&mut self, edges: &Vec<Edge>, window: u64) -> (events: Vec<ButtonEvent>)
        ensures
            *final(self) == line_after(*old(self), edges@, window),
            events@ == events_of(*old(self), edges@, window),
    {
        let mut events: Vec<ButtonEvent> = Vec::new();
        let mut i: usize = 0;
        while i < edges.len()
            invariant
                0 <= i <= edges.len(),
                *self == line_after(*old(self), edges@.take(i as int), window),
                events@ == events_of(*old(self), edges@.take(i as int), window),
            decreases edges.len() - i,
        {
            let e = edges[i];
            proof {
                assert(edges@.take(i + 1).drop_last() =~= edges@.take(i as int));
                assert(edges@.take(i + 1).last() == e);
            }
            match self.edge(e.at, e.level, window) {
                Some(event) => events.push(event),
                None => {},
            }
            i = i + 1;
        }
        proof {
            assert(edges@.take(i as int) =~= edges@);
        }
        events
    }
}

/// Index in the controller's table of the line with interrupt number `id`.
pub open spec fn slot_of(id: u8) -> Option<int> {
    if id == 3 {
        Some(0)
    } else if id == 4 {
        Some(1)
    } else if id == 5 {
        Some(2)
    } else if id == 7 {
        Some(3)
    } else if id == 10 {
        Some(4)
    } else if id == 11 {
        Some(5)
    } else if id == 12 {
        Some(6)
    } else {
        None
    }
}

/// The button wired to the line at index `slot` of the controller's table.
pub open spec fn button_at(slot: int) -> Button {
    if slot == 0 {
        Button::Down
    } else if slot == 1 {
        Button::Right
    } else if slot == 2 {
        Button::Click
    } else if slot == 3 {
        Button::Left
    } else if slot == 4 {
        Button::Up
    } else if slot == 5 {
        Button::TopMiddle
    } else {
        Button::TopLeft
    }
}

/// The debounce state of all lines, with one handler for every line.
pub struct ButtonController {
    lines: Vec<ButtonLine>,
    window: u64,
}

impl ButtonController {
    /// The lines, by index in the table.
    pub closed spec fn lines(&self) -> Seq<ButtonLine> {
        self.lines@
    }

    /// The settle window, in cycles.
    pub closed spec fn window(&self) -> u64 {
        self.window
    }

    /// The table holds one line for each button, in its place.
    pub open spec fn wf(&self) -> bool {
        &&& self.lines().len() == LINE_COUNT
        &&& forall|i: int| 0 <= i < LINE_COUNT ==> (#[trigger] self.lines()[i]).button == button_at(i)
    }

    fn slot(id: u8) -> (slot: Option<usize>)
        ensures
            slot is Some <==> slot_of(id) is Some,
            slot is Some ==> slot->0 == slot_of(id)->0 && slot->0 < LINE_COUNT,
    {
        match id {
            3 => Some(0),
            4 => Some(1),
            5 => Some(2),
            7 => Some(3),
            10 => Some(4),
            11 => Some(5),
            12 => Some(6),
            _ => None,
        }
    }

    /// A controller whose lines have seen no edge, with the given settle
    /// window in cycles.
    pub fn new(window: u64) -> (ctl: Self)
        ensures
            ctl.wf(),
            ctl.window() == window,
            forall|i: int| 0 <= i < LINE_COUNT ==> ctl.lines()[i] == fresh(button_at(i)),
    {
        let mut lines: Vec<ButtonLine> = Vec::new();
        lines.push(ButtonLine::new(Button::Down));
        lines.push(ButtonLine::new(Button::Right));
        lines.push(ButtonLine::new(Button::Click));
        lines.push(ButtonLine::new(Button::Left));
        lines.push(ButtonLine::new(Button::Up));
        lines.push(ButtonLine::new(Button::TopMiddle));
        lines.push(ButtonLine::new(Button::TopLeft));
        ButtonController { lines, window }
    }

    /// Handles the edge interrupt of line `id`, which read `level` at `now`.
    /// An interrupt number that belongs to no line changes nothing.
    pub fn interrupt(&mut self, id: u8, now: u64, level: bool) -> (event: Option<ButtonEvent>)
        requires
            old(self).wf(),
        ensures
            final(self).wf(),
            final(self).window() == old(self).window(),
            slot_of(id) is None ==> final(self).lines() == old(self).lines() && event is None,
            slot_of(id) is Some ==> {
                let i = slot_of(id)->0;
                let line = old(self).lines()[i];
                &&& final(self).lines() == old(self).lines().update(
                    i,
                    edged(line, now, level, old(self).window()),
                )
                &&& event == poll_event(line, now, old(self).window())
            },
    {
        match Self::slot(id) {
            None => None,
            Some(i) => {
                let mut line = self.lines[i];
                let event = line.edge(now, level, self.window);
                self.lines.set(i, line);
                event
            },
        }
    }

    /// Looks at the clock for line `id`.  An interrupt number that belongs to
    /// no line changes nothing.
    pub fn poll(&mut self, id: u8, now: u64) -> (event: Option<ButtonEvent>)
        requires
            old(self).wf(),
        ensures
            final(self).wf(),
            final(self).window() == old(self).window(),
            slot_of(id) is None ==> final(self).lines() == old(self).lines() && event is None,
            slot_of(id) is Some ==> {
                let i = slot_of(id)->0;
                let line = old(self).lines()[i];
                &&& final(self).lines() == old(self).lines().update(
                    i,
                    polled(line, now, old(self).window()),
                )
                &&& event == poll_event(line, now, old(self).window())
            },
    {
        match Self::slot(id) {
            None => None,
            Some(i) => {
                let mut line = self.lines[i];
                let event = line.poll(now, self.window);
                self.lines.set(i, line);
                event
            },
        }
    }

    /// The cycle at which line `id` wants its next look at the clock.
    pub fn deadline(&self, id: u8) -> (at: Option<u64>)
        requires
            self.wf(),
        ensures
            at is Some <==> slot_of(id) is Some && {
                let line = self.lines()[slot_of(id)->0];
                line.state == LineState::Bouncing && line.stamp + self.window() <= u64::MAX
            },
            at is Some ==> at->0 == self.lines()[slot_of(id)->0].stamp + self.window(),
    {
        match Self::slot(id) {
            None => None,
            Some(i) => self.lines[i].deadline(self.window),
        }
    }

    /// The state of line `id`.
    pub fn line(&self, id: u8) -> (line: Option<ButtonLine>)
        requires
            self.wf(),
        ensures
            line is Some <==> slot_of(id) is Some,
            line is Some ==> line->0 == self.lines()[slot_of(id)->0],
    {
        match Self::slot(id) {
            None => None,
            Some(i) => Some(self.lines[i]),
        }
    }

    /// The settle window, in cycles.
    pub fn settle_window(&self) -> (window: u64)
        ensures
            window == self.window(),
    {
        self.window
    }
}

/// Events of one button whose levels alternate, beginning with `first`.
pub open spec fn alternating(events: Seq<ButtonEvent>, button: Button, first: bool) -> bool {
    forall|i: int|
        0 <= i < events.len() ==> (#[trigger] events[i]).button == button && events[i].down == (if i
            % 2 == 0 {
            first
        } else {
            !first
        })
}

/// Neighbouring edges are at least `window` cycles apart.
pub open spec fn spaced(edges: Seq<Edge>, window: u64) -> bool {
    forall|i: int|
        0 <= i < edges.len() - 1 ==> elapsed((#[trigger] edges[i]).at, edges[i + 1].at, window)
}

/// Neighbouring edges are less than `window` cycles apart.
pub open spec fn burst(edges: Seq<Edge>, window: u64) -> bool {
    forall|i: int|
        0 <= i < edges.len() - 1 ==> !elapsed((#[trigger] edges[i]).at, edges[i + 1].at, window)
}

/// Every edge changes the level, beginning from the level `down`.
pub open spec fn toggling(edges: Seq<Edge>, down: bool) -> bool {
    forall|i: int|
        0 <= i < edges.len() ==> (#[trigger] edges[i]).level == (if i % 2 == 0 {
            !down
        } else {
            down
        })
}

/// The event that reports the level of an edge.
pub open spec fn event_for(button: Button, edge: Edge) -> ButtonEvent {
    ButtonEvent { button, down: edge.level }
}

/// Whatever the edges and their timing, the events of a line alternate
/// between pressed and released, beginning with the opposite of the level
/// reported last, and the line keeps track of the level it reported.
pub proof fn lemma_events_alternate(line: ButtonLine, edges: Seq<Edge>, window: u64)
    ensures
        alternating(events_of(line, edges, window), line.button, !line.down),
        line_after(line, edges, window).button == line.button,
        line_after(line, edges, window).down == (if events_of(line, edges, window).len() % 2 == 0 {
            line.down
        } else {
            !line.down
        }),
    decreases edges.len(),
{
    if edges.len() > 0 {
        lemma_events_alternate(line, edges.drop_last(), window);
    }
}

/// The same holds when a final look at the clock is counted in.
pub proof fn lemma_observed_alternate(line: ButtonLine, edges: Seq<Edge>, end: u64, window: u64)
    ensures
        alternating(observed(line, edges, end, window), line.button, !line.down),
{
    lemma_events_alternate(line, edges, window);
}

/// After edges that are at least a settle window apart and each change the
/// level, the line waits on the last edge and has reported every edge before
/// it.
proof fn lemma_spaced_prefix(line: ButtonLine, edges: Seq<Edge>, window: u64)
    requires
        line.state != LineState::Bouncing,
        spaced(edges, window),
        toggling(edges, line.down),
        edges.len() > 0,
    ensures
        line_after(line, edges, window) == (ButtonLine {
            state: LineState::Bouncing,
            stamp: edges.last().at,
            level: edges.last().level,
            down: !edges.last().level,
            button: line.button,
        }),
        events_of(line, edges, window) == Seq::new(
            (edges.len() - 1) as nat,
            |i: int| event_for(line.button, edges[i]),
        ),
    decreases edges.len(),
{
    let front = edges.drop_last();
    let want = Seq::new((edges.len() - 1) as nat, |i: int| event_for(line.button, edges[i]));
    if front.len() == 0 {
        assert(edges[0].level == !line.down);
        assert(line_after(line, front, window) == line);
        assert(events_of(line, front, window) =~= Seq::<ButtonEvent>::empty());
        assert(events_of(line, edges, window) =~= want);
    } else {
        assert(spaced(front, window)) by {
            assert forall|i: int| 0 <= i < front.len() - 1 implies elapsed(
                (#[trigger] front[i]).at,
                front[i + 1].at,
                window,
            ) by {
                assert(elapsed(edges[i].at, edges[i + 1].at, window));
            }
        }
        assert(toggling(front, line.down)) by {
            assert forall|i: int| 0 <= i < front.len() implies (#[trigger] front[i]).level == (if i
                % 2 == 0 {
                !line.down
            } else {
                line.down
            }) by {
                assert(edges[i].level == (if i % 2 == 0 {
                    !line.down
                } else {
                    line.down
                }));
            }
        }
        lemma_spaced_prefix(line, front, window);
        let n = edges.len() - 1;
        assert(front.last() == edges[n - 1]);
        assert(elapsed(edges[n - 1].at, edges[n - 1 + 1].at, window));
        assert(edges[n].level == !edges[n - 1].level);
        assert(edges.last() == edges[n]);
        let before = line_after(line, front, window);
        assert(ripe(before, edges[n].at, window));
        assert(poll_event(before, edges[n].at, window) == Some(
            event_for(line.button, edges[n - 1]),
        ));
        let head = events_of(line, front, window);
        assert(head.len() == n - 1);
        assert(events_of(line, edges, window) == head.push(event_for(line.button, edges[n - 1])));
        assert forall|i: int| 0 <= i < n implies (#[trigger] events_of(line, edges, window)[i])
            == want[i] by {
            if i < n - 1 {
                assert(head[i] == event_for(line.button, front[i]));
            }
        }
        assert(events_of(line, edges, window) =~= want);
    }
}

/// On a line with no window running, edges that are at least a settle window
/// apart and each change the level are reported one for one and in order,
/// once the window of the last edge has passed.
pub proof fn lemma_spaced_edges_each_reported(
    line: ButtonLine,
    edges: Seq<Edge>,
    end: u64,
    window: u64,
)
    requires
        line.state != LineState::Bouncing,
        spaced(edges, window),
        toggling(edges, line.down),
        edges.len() > 0 ==> elapsed(edges.last().at, end, window),
    ensures
        observed(line, edges, end, window) == Seq::new(
            edges.len(),
            |i: int| event_for(line.button, edges[i]),
        ),
        alternating(observed(line, edges, end, window), line.button, !line.down),
{
    let want = Seq::new(edges.len(), |i: int| event_for(line.button, edges[i]));
    if edges.len() > 0 {
        lemma_spaced_prefix(line, edges, window);
    }
    assert(observed(line, edges, end, window) =~= want);
    lemma_observed_alternate(line, edges, end, window);
}

/// On a line with no window running, edges that are less than a settle
/// window apart emit nothing and leave the line waiting on the last of them.
/// A look at the clock reports the level of the last edge once its window
/// has passed, if that level is new, and reports nothing before.
pub proof fn lemma_burst_coalesces(line: ButtonLine, edges: Seq<Edge>, end: u64, window: u64)
    requires
        line.state != LineState::Bouncing,
        burst(edges, window),
        edges.len() > 0,
    ensures
        events_of(line, edges, window) == Seq::<ButtonEvent>::empty(),
        line_after(line, edges, window) == (ButtonLine {
            state: LineState::Bouncing,
            stamp: edges.last().at,
            level: edges.last().level,
            ..line
        }),
        !elapsed(edges.last().at, end, window) ==> observed(line, edges, end, window)
            == Seq::<ButtonEvent>::empty(),
        elapsed(edges.last().at, end, window) ==> observed(line, edges, end, window) == (
        if edges.last().level != line.down {
            seq![event_for(line.button, edges.last())]
        } else {
            Seq::<ButtonEvent>::empty()
        }),
    decreases edges.len(),
{
    let front = edges.drop_last();
    if front.len() > 0 {
        assert(burst(front, window)) by {
            assert forall|i: int| 0 <= i < front.len() - 1 implies !elapsed(
                (#[trigger] front[i]).at,
                front[i + 1].at,
                window,
            ) by {
                assert(!elapsed(edges[i].at, edges[i + 1].at, window));
            }
        }
        lemma_burst_coalesces(line, front, end, window);
        let n = edges.len() - 1;
        assert(front.last() == edges[n - 1]);
        assert(!elapsed(edges[n - 1].at, edges[n - 1 + 1].at, window));
    }
    let before = line_after(line, front, window);
    if front.len() == 0 {
        assert(before == line);
        assert(events_of(line, front, window) =~= Seq::<ButtonEvent>::empty());
    }
    assert(!ripe(before, edges.last().at, window));
    assert(events_of(line, edges, window) =~= Seq::<ButtonEvent>::empty());
    let after = line_after(line, edges, window);
    assert(after == edged(before, edges.last().at, edges.last().level, window));
    assert(after.down == line.down && after.button == line.button);
    assert(observed(line, edges, end, window) =~= (if elapsed(edges.last().at, end, window)
        && edges.last().level != line.down {
        seq![event_for(line.button, edges.last())]
    } else {
        Seq::<ButtonEvent>::empty()
    }));
}

/// The level that a line has settled on before its last edge: the level of
/// the edge before, or `down` when there is none.
pub open spec fn level_before_last(down: bool, edges: Seq<Edge>) -> bool {
    if edges.len() < 2 {
        down
    } else {
        edges[edges.len() - 2].level
    }
}

/// One event for every edge that changes the level, in order, where the
/// level before the first edge is `down`.
pub open spec fn transitions(button: Button, down: bool, edges: Seq<Edge>) -> Seq<ButtonEvent>
    decreases edges.len(),
{
    if edges.len() == 0 {
        Seq::empty()
    } else {
        with_event(
            transitions(button, down, edges.drop_last()),
            if edges.last().level != level_before_last(down, edges) {
                Some(event_for(button, edges.last()))
            } else {
                None
            },
        )
    }
}

/// After edges that are at least a settle window apart, the line waits on
/// the last edge and has reported every change of level before it.
proof fn lemma_spaced_front(line: ButtonLine, edges: Seq<Edge>, window: u64)
    requires
        line.state != LineState::Bouncing,
        spaced(edges, window),
        edges.len() > 0,
    ensures
        line_after(line, edges, window) == (ButtonLine {
            state: LineState::Bouncing,
            stamp: edges.last().at,
            level: edges.last().level,
            down: level_before_last(line.down, edges),
            button: line.button,
        }),
        events_of(line, edges, window) == transitions(line.button, line.down, edges.drop_last()),
    decreases edges.len(),
{
    let front = edges.drop_last();
    if front.len() == 0 {
        assert(line_after(line, front, window) == line);
        assert(events_of(line, front, window) =~= Seq::<ButtonEvent>::empty());
    } else {
        assert(spaced(front, window)) by {
            assert forall|i: int| 0 <= i < front.len() - 1 implies elapsed(
                (#[trigger] front[i]).at,
                front[i + 1].at,
                window,
            ) by {
                assert(elapsed(edges[i].at, edges[i + 1].at, window));
            }
        }
        lemma_spaced_front(line, front, window);
        let n = edges.len() - 1;
        assert(front.last() == edges[n - 1]);
        assert(elapsed(edges[n - 1].at, edges[n - 1 + 1].at, window));
        assert(edges.last() == edges[n]);
        assert(ripe(line_after(line, front, window), edges[n].at, window));
        assert(level_before_last(line.down, front) == (if front.len() < 2 {
            line.down
        } else {
            front[front.len() - 2].level
        }));
    }
}

/// On a line with no window running, edges that are at least a settle
/// window apart are reported one for one wherever they change the level, in
/// order, once the window of the last edge has passed.
pub proof fn lemma_spaced_edges_report_transitions(
    line: ButtonLine,
    edges: Seq<Edge>,
    end: u64,
    window: u64,
)
    requires
        line.state != LineState::Bouncing,
        spaced(edges, window),
        edges.len() > 0 ==> elapsed(edges.last().at, end, window),
    ensures
        observed(line, edges, end, window) == transitions(line.button, line.down, edges),
        alternating(observed(line, edges, end, window), line.button, !line.down),
{
    if edges.len() > 0 {
        lemma_spaced_front(line, edges, window);
    }
    lemma_observed_alternate(line, edges, end, window);
}

/// A settled or idle line stands at the level it reported last; an idle line
/// has its button up.
pub open spec fn consistent(line: ButtonLine) -> bool {
    &&& line.state == LineState::SettledPressed ==> line.down
    &&& line.state == LineState::SettledReleased ==> !line.down
    &&& line.state == LineState::Idle ==> !line.down
}

/// A fresh line is consistent, and edges and looks at the clock keep a line
/// so.
pub proof fn lemma_consistent(line: ButtonLine, now: u64, level: bool, window: u64)
    ensures
        consistent(fresh(line.button)),
        consistent(line) ==> consistent(polled(line, now, window)),
        consistent(line) ==> consistent(edged(line, now, level, window)),
{
}

} // verus!
