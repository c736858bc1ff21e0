use keypad_core::buttons::{Button, ButtonEvent};
use keypad_core::dispatcher::{button, KEY_A, KEY_RIGHT};
use keypad_core::report::KeyboardReport2;
use keypad_core::strings::fixed_text_of;

#[test]
fn top_left_pressed_and_released() {
    let mut report = KeyboardReport2::new();
    let out = button(&mut report, ButtonEvent { button: Button::TopLeft, down: true }).unwrap();
    assert_eq!(out.report, [0, 0, 0x04, 0, 0, 0, 0, 0, 0, 0, 0]);
    assert_eq!(report.keycodes, [0x04, 0, 0, 0, 0, 0]);
    assert_eq!(fixed_text_of(&out.text), "TopLeft Down\n");
    let out = button(&mut report, ButtonEvent { button: Button::TopLeft, down: false }).unwrap();
    assert_eq!(out.report, [0u8; 11]);
    assert_eq!(report.keycodes, [0; 6]);
    assert_eq!(fixed_text_of(&out.text), "TopLeft Up\n");
}

#[test]
fn right_pressed_and_released() {
    let mut report = KeyboardReport2::new();
    let out = button(&mut report, ButtonEvent { button: Button::Right, down: true }).unwrap();
    assert_eq!(out.report, [0, 0, 0x4f, 0, 0, 0, 0, 0, 0, 0, 0]);
    assert_eq!(fixed_text_of(&out.text), "Right Up\n");
    let out = button(&mut report, ButtonEvent { button: Button::Right, down: false }).unwrap();
    assert_eq!(out.report, [0u8; 11]);
    assert_eq!(fixed_text_of(&out.text), "Right Down\n");
}

#[test]
fn both_keys_held_together() {
    let mut report = KeyboardReport2::new();
    button(&mut report, ButtonEvent { button: Button::Right, down: true });
    let out = button(&mut report, ButtonEvent { button: Button::TopLeft, down: true }).unwrap();
    assert_eq!(out.report, [0, 0, KEY_RIGHT, KEY_A, 0, 0, 0, 0, 0, 0, 0]);
    let out = button(&mut report, ButtonEvent { button: Button::Right, down: false }).unwrap();
    assert_eq!(out.report, [0, 0, 0, KEY_A, 0, 0, 0, 0, 0, 0, 0]);
}

#[test]
fn other_buttons_do_nothing() {
    for b in [Button::TopMiddle, Button::Down, Button::Up, Button::Left, Button::Click] {
        for down in [true, false] {
            let mut report = KeyboardReport2::new().apply(keypad_core::report::Mutation::KeyDown(9));
            let before = report;
            assert!(button(&mut report, ButtonEvent { button: b, down }).is_none());
            assert_eq!(report, before);
        }
    }
}
