use keypad_core::system::{
    Core, Effect, BLINK_PERIOD, PWM_OFF, PWM_ON, TASK_BLINKY, TASK_BUTTON, TASK_PRINT, TASK_PWM,
    TASK_SETTLE, TASK_USB,
};
use keypad_core::terminal::{Cursor, DisplayOp, Terminal};

const START: u64 = 5_000;
const WINDOW: u64 = 1_000;
const PERIOD: u64 = BLINK_PERIOD as u64;

/// Runs every ready task and returns the effects in order.
fn drain(core: &mut Core) -> Vec<Effect> {
    let mut all = Vec::new();
    while let Some(effects) = core.step() {
        all.extend(effects);
    }
    all
}

fn toggles(effects: &[Effect]) -> usize {
    effects.iter().filter(|e| **e == Effect::ToggleLed).count()
}

fn reports(effects: &[Effect]) -> Vec<[u8; 11]> {
    let mut out = Vec::new();
    for e in effects {
        if let Effect::SendReport(bytes) = e {
            out.push(*bytes);
        }
    }
    out
}

fn glyphs(effects: &[Effect]) -> String {
    let mut out = String::new();
    for e in effects {
        if let Effect::Display(DisplayOp::Glyph { c, .. }) = e {
            out.push(*c);
        }
    }
    out
}

#[test]
fn constants_of_the_periodic_tasks() {
    assert_eq!(BLINK_PERIOD, 16_000_000);
    assert_eq!(PWM_ON, 20_480);
    assert_eq!(PWM_OFF, 102_400);
    assert_eq!(
        [TASK_USB, TASK_PWM, TASK_SETTLE, TASK_BUTTON, TASK_PRINT, TASK_BLINKY],
        [0, 1, 2, 3, 4, 5]
    );
}

#[test]
fn init_shows_the_greeting() {
    let (core, effects) = Core::init(START, WINDOW);
    let (mut term, mut ops) = Terminal::new();
    ops.extend(term.write_str("Hello! Send text to me over the USB serial port, and I'll display it!"));
    ops.extend(term.write_str("\n"));
    ops.extend(term.write_str("On linux:\n"));
    ops.extend(term.write_str("  sudo stty -F /dev/ttyACM0 115200 raw -echo\n"));
    ops.extend(term.write_str("  sudo bash -c \"echo 'Hi' > /dev/ttyACM0\"\n"));
    let want: Vec<Effect> = ops.into_iter().map(Effect::Display).collect();
    assert_eq!(effects, want);
    assert_eq!(effects[0], Effect::Display(DisplayOp::Fill { x0: 0, y0: 0, x1: 320, y1: 320 }));
    assert_eq!(effects[1], Effect::Display(DisplayOp::ConfigureScroll { top: 0, bottom: 0 }));
    assert_eq!(effects[2], Effect::Display(DisplayOp::Glyph { x: 0, y: 0, c: 'H' }));
    assert_eq!(core.position(), Cursor { x: 0, y: 60 });
    assert_eq!(core.position(), term.position());
}

#[test]
fn init_arms_the_led_and_readies_the_backlight() {
    let (core, _) = Core::init(START, WINDOW);
    assert_eq!(core.pending(TASK_PWM), 1);
    assert_eq!(core.pending(TASK_BLINKY), 0);
    assert_eq!(core.next_fire(), Some(START + PERIOD));
    assert_eq!(core.dropped(), 0);
    assert_eq!(core.report().encode(), [0u8; 11]);
}

#[test]
fn init_near_the_end_of_the_counter_leaves_the_led_unarmed() {
    let (core, _) = Core::init(u64::MAX - 10, WINDOW);
    assert_eq!(core.next_fire(), None);
    assert_eq!(core.pending(TASK_PWM), 1);
}

#[test]
fn the_backlight_alternates_with_its_two_waits() {
    let (mut core, _) = Core::init(START, WINDOW);
    assert_eq!(core.step(), Some(vec![Effect::Backlight(false)]));
    assert_eq!(core.next_fire(), Some(START + PWM_OFF as u64));
    assert_eq!(core.step(), None);
    assert_eq!(core.tick(START + PWM_OFF as u64 - 1), 0);
    assert_eq!(core.tick(START + PWM_OFF as u64), 1);
    assert_eq!(core.step(), Some(vec![Effect::Backlight(true)]));
    assert_eq!(core.next_fire(), Some(START + PWM_OFF as u64 + PWM_ON as u64));
    assert_eq!(core.tick(START + 200_000), 1);
    assert_eq!(core.step(), Some(vec![Effect::Backlight(false)]));
    assert_eq!(core.next_fire(), Some(START + 2 * PWM_OFF as u64 + PWM_ON as u64));
}

#[test]
fn the_led_toggles_on_its_period_without_drift() {
    let (mut core, _) = Core::init(START, WINDOW);
    core.tick(START + PERIOD - 1);
    assert_eq!(toggles(&drain(&mut core)), 0);
    core.tick(START + PERIOD);
    assert_eq!(toggles(&drain(&mut core)), 1);
    core.tick(START + 2 * PERIOD - 1);
    assert_eq!(toggles(&drain(&mut core)), 0);
    core.tick(START + 2 * PERIOD + 123_456);
    assert_eq!(toggles(&drain(&mut core)), 1);
    core.tick(START + 3 * PERIOD - 1);
    assert_eq!(toggles(&drain(&mut core)), 0);
    core.tick(START + 3 * PERIOD);
    assert_eq!(toggles(&drain(&mut core)), 1);
}

#[test]
fn top_left_pressed_and_released_through_the_core() {
    let (mut core, _) = Core::init(START, WINDOW);
    drain(&mut core);
    core.edge(12, 10_000, true);
    assert_eq!(core.next_fire(), Some(11_000));
    assert_eq!(drain(&mut core), vec![]);
    core.tick(10_999);
    assert_eq!(drain(&mut core), vec![]);
    core.tick(11_000);
    let effects = drain(&mut core);
    assert_eq!(reports(&effects), vec![[0, 0, 0x04, 0, 0, 0, 0, 0, 0, 0, 0]]);
    assert_eq!(glyphs(&effects), "TopLeft Down");
    assert_eq!(effects[1], Effect::Display(DisplayOp::Glyph { x: 0, y: 60, c: 'T' }));
    assert_eq!(core.position(), Cursor { x: 0, y: 72 });
    assert_eq!(core.report().keycodes, [0x04, 0, 0, 0, 0, 0]);

    core.edge(12, 50_000, false);
    core.tick(51_000);
    let effects = drain(&mut core);
    assert_eq!(reports(&effects), vec![[0u8; 11]]);
    assert_eq!(glyphs(&effects), "TopLeft Up");
    assert_eq!(core.report().keycodes, [0; 6]);
}

#[test]
fn right_pressed_and_released_through_the_core() {
    let (mut core, _) = Core::init(START, WINDOW);
    drain(&mut core);
    core.edge(4, 10_000, true);
    core.tick(11_000);
    let effects = drain(&mut core);
    assert_eq!(reports(&effects), vec![[0, 0, 0x4f, 0, 0, 0, 0, 0, 0, 0, 0]]);
    assert_eq!(glyphs(&effects), "Right Up");
    core.edge(4, 20_000, false);
    core.tick(21_000);
    let effects = drain(&mut core);
    assert_eq!(reports(&effects), vec![[0u8; 11]]);
    assert_eq!(glyphs(&effects), "Right Down");
}

#[test]
fn bounces_are_reported_once() {
    let (mut core, _) = Core::init(START, WINDOW);
    drain(&mut core);
    for (at, level) in [(10_000, true), (10_100, false), (10_250, true), (10_900, true)] {
        core.edge(12, at, level);
        assert_eq!(reports(&drain(&mut core)), Vec::<[u8; 11]>::new());
    }
    core.tick(11_899);
    assert_eq!(reports(&drain(&mut core)), Vec::<[u8; 11]>::new());
    core.tick(11_900);
    assert_eq!(reports(&drain(&mut core)).len(), 1);
    assert_eq!(core.pending(TASK_SETTLE), 0);
    assert_eq!(core.dropped(), 0);
}

#[test]
fn buttons_without_a_mapping_send_nothing() {
    let (mut core, _) = Core::init(START, WINDOW);
    drain(&mut core);
    for id in [3u8, 5, 7, 10, 11] {
        core.edge(id, 10_000, true);
    }
    core.tick(11_000);
    assert_eq!(drain(&mut core), vec![]);
    assert_eq!(core.report().encode(), [0u8; 11]);
}

#[test]
fn an_unknown_line_changes_nothing() {
    let (mut core, _) = Core::init(START, WINDOW);
    drain(&mut core);
    let before = core.next_fire();
    core.edge(6, 10_000, true);
    assert_eq!(core.next_fire(), before);
    assert_eq!(core.pending(TASK_SETTLE), 0);
    assert_eq!(core.pending(TASK_BUTTON), 0);
}

#[test]
fn a_usb_interrupt_polls_the_device_first() {
    let (mut core, _) = Core::init(START, WINDOW);
    core.usb_interrupt();
    assert_eq!(core.pending(TASK_USB), 1);
    core.usb_interrupt();
    assert_eq!(core.pending(TASK_USB), 1);
    assert_eq!(core.dropped(), 1);
    assert_eq!(core.step(), Some(vec![Effect::PollUsb]));
    assert_eq!(core.step(), Some(vec![Effect::Backlight(false)]));
    assert_eq!(core.step(), None);
}

#[test]
fn the_next_edge_settles_a_line_whose_look_was_lost() {
    let (mut core, _) = Core::init(START, WINDOW);
    drain(&mut core);
    core.edge(12, u64::MAX - 5_000, true);
    core.edge(12, u64::MAX - 10, false);
    assert_eq!(core.pending(TASK_BUTTON), 1);
    let effects = drain(&mut core);
    assert_eq!(reports(&effects), vec![[0, 0, 0x04, 0, 0, 0, 0, 0, 0, 0, 0]]);
}

#[test]
fn the_backlight_task_flips_its_flag() {
    let mut flag = true;
    assert_eq!(keypad_core::system::pwm(&mut flag), (false, PWM_OFF));
    assert!(!flag);
    assert_eq!(keypad_core::system::pwm(&mut flag), (true, PWM_ON));
    assert!(flag);
}
