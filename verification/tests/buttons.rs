use keypad_core::buttons::{Button, ButtonController, ButtonEvent, ButtonLine, Edge, LineState};

const WINDOW: u64 = 1000;

fn ev(button: Button, down: bool) -> ButtonEvent {
    ButtonEvent { button, down }
}

#[test]
fn fresh_line_is_idle_and_up() {
    let line = ButtonLine::new(Button::Click);
    assert_eq!(line.state, LineState::Idle);
    assert_eq!(line.button, Button::Click);
    assert!(!line.down);
    assert_eq!(line.deadline(WINDOW), None);
}

#[test]
fn first_edge_starts_the_window_without_an_event() {
    let mut line = ButtonLine::new(Button::Up);
    assert_eq!(line.edge(50, true, WINDOW), None);
    assert_eq!(line.state, LineState::Bouncing);
    assert_eq!(line.stamp, 50);
    assert_eq!(line.deadline(WINDOW), Some(1050));
}

#[test]
fn poll_reports_once_the_window_has_passed() {
    let mut line = ButtonLine::new(Button::Up);
    line.edge(50, true, WINDOW);
    assert_eq!(line.poll(1049, WINDOW), None);
    assert_eq!(line.state, LineState::Bouncing);
    assert_eq!(line.poll(1050, WINDOW), Some(ev(Button::Up, true)));
    assert_eq!(line.state, LineState::SettledPressed);
    assert_eq!(line.poll(5000, WINDOW), None);
    assert_eq!(line.deadline(WINDOW), None);
}

#[test]
fn spaced_edges_are_reported_one_for_one() {
    let mut line = ButtonLine::new(Button::TopLeft);
    let edges = vec![
        Edge { at: 0, level: true },
        Edge { at: 1000, level: false },
        Edge { at: 2500, level: true },
        Edge { at: 9000, level: false },
    ];
    let mut events = line.replay(&edges, WINDOW);
    assert_eq!(
        events,
        vec![
            ev(Button::TopLeft, true),
            ev(Button::TopLeft, false),
            ev(Button::TopLeft, true),
        ]
    );
    events.extend(line.poll(10_000, WINDOW));
    assert_eq!(events.len(), 4);
    assert_eq!(events[3], ev(Button::TopLeft, false));
    assert_eq!(line.state, LineState::SettledReleased);
}

#[test]
fn a_burst_emits_nothing_until_it_is_quiet() {
    let mut line = ButtonLine::new(Button::Left);
    let edges = vec![
        Edge { at: 100, level: true },
        Edge { at: 300, level: false },
        Edge { at: 900, level: true },
        Edge { at: 1899, level: false },
        Edge { at: 2000, level: true },
    ];
    assert_eq!(line.replay(&edges, WINDOW), vec![]);
    assert_eq!(line.state, LineState::Bouncing);
    assert_eq!(line.stamp, 2000);
    assert_eq!(line.poll(2999, WINDOW), None);
    assert_eq!(line.poll(3000, WINDOW), Some(ev(Button::Left, true)));
}

#[test]
fn a_glitch_that_ends_where_it_began_is_not_reported() {
    let mut line = ButtonLine::new(Button::Left);
    let edges = vec![Edge { at: 100, level: true }, Edge { at: 150, level: false }];
    assert_eq!(line.replay(&edges, WINDOW), vec![]);
    assert_eq!(line.poll(5000, WINDOW), None);
    assert_eq!(line.state, LineState::SettledReleased);
    assert!(!line.down);
}

#[test]
fn an_edge_before_the_clock_goes_backwards_restarts_the_window() {
    let mut line = ButtonLine::new(Button::Down);
    line.edge(5000, true, WINDOW);
    assert_eq!(line.edge(10, true, WINDOW), None);
    assert_eq!(line.stamp, 10);
    assert_eq!(line.poll(1010, WINDOW), Some(ev(Button::Down, true)));
}

#[test]
fn deadline_beyond_the_counter_is_none() {
    let mut line = ButtonLine::new(Button::Down);
    line.edge(u64::MAX - 5, true, WINDOW);
    assert_eq!(line.deadline(WINDOW), None);
    assert_eq!(line.deadline(5), Some(u64::MAX));
}

#[test]
fn controller_maps_interrupt_numbers_to_buttons() {
    let ctl = ButtonController::new(WINDOW);
    assert_eq!(ctl.settle_window(), WINDOW);
    let expect = [
        (3u8, Button::Down),
        (4, Button::Right),
        (5, Button::Click),
        (7, Button::Left),
        (10, Button::Up),
        (11, Button::TopMiddle),
        (12, Button::TopLeft),
    ];
    for (id, button) in expect {
        assert_eq!(ctl.line(id).unwrap().button, button);
    }
    for id in [0u8, 1, 2, 6, 8, 9, 13, 255] {
        assert_eq!(ctl.line(id), None);
    }
}

#[test]
fn controller_lines_are_independent() {
    let mut ctl = ButtonController::new(WINDOW);
    assert_eq!(ctl.interrupt(12, 0, true), None);
    assert_eq!(ctl.interrupt(4, 10, true), None);
    assert_eq!(ctl.deadline(12), Some(1000));
    assert_eq!(ctl.deadline(4), Some(1010));
    assert_eq!(ctl.deadline(3), None);
    assert_eq!(ctl.poll(4, 1005), None);
    assert_eq!(ctl.poll(12, 1005), Some(ev(Button::TopLeft, true)));
    assert_eq!(ctl.poll(4, 1010), Some(ev(Button::Right, true)));
    assert_eq!(ctl.interrupt(12, 3000, false), None);
    assert_eq!(ctl.interrupt(4, 5000, false), None);
    assert_eq!(ctl.interrupt(12, 4000, true), Some(ev(Button::TopLeft, false)));
}

#[test]
fn controller_ignores_unknown_interrupts() {
    let mut ctl = ButtonController::new(WINDOW);
    assert_eq!(ctl.interrupt(6, 0, true), None);
    assert_eq!(ctl.poll(6, 5000), None);
    assert_eq!(ctl.deadline(6), None);
    for id in [3u8, 4, 5, 7, 10, 11, 12] {
        assert_eq!(ctl.line(id).unwrap().state, LineState::Idle);
    }
}
