use keypad_core::report::{KeyboardReport2, Mutation, REPORT_LEN};

fn rest() -> KeyboardReport2 {
    KeyboardReport2 { modifier: 0, leds: 0, keycodes: [0; 6], buttons: 0, x: 0, y: 0 }
}

#[test]
fn new_report_is_at_rest() {
    assert_eq!(KeyboardReport2::new(), rest());
    assert_eq!(KeyboardReport2::new().encode(), [0u8; 11]);
}

#[test]
fn key_down_takes_the_first_free_slot() {
    let r = KeyboardReport2::new().apply(Mutation::KeyDown(0x04));
    assert_eq!(r.keycodes, [0x04, 0, 0, 0, 0, 0]);
    let r = r.apply(Mutation::KeyDown(0x4f));
    assert_eq!(r.keycodes, [0x04, 0x4f, 0, 0, 0, 0]);
}

#[test]
fn key_down_twice_is_held_once() {
    let r = KeyboardReport2::new().apply(Mutation::KeyDown(0x04)).apply(Mutation::KeyDown(0x04));
    assert_eq!(r.keycodes, [0x04, 0, 0, 0, 0, 0]);
}

#[test]
fn key_zero_is_no_key() {
    let r = KeyboardReport2::new().apply(Mutation::KeyDown(0));
    assert_eq!(r, rest());
    let r = r.apply(Mutation::KeyDown(9)).apply(Mutation::KeyUp(0));
    assert_eq!(r.keycodes, [9, 0, 0, 0, 0, 0]);
}

#[test]
fn seventh_key_is_dropped() {
    let mut r = KeyboardReport2::new();
    for k in 10u8..16 {
        r = r.apply(Mutation::KeyDown(k));
    }
    assert_eq!(r.keycodes, [10, 11, 12, 13, 14, 15]);
    let full = r;
    r = r.apply(Mutation::KeyDown(99));
    assert_eq!(r, full);
}

#[test]
fn key_up_clears_only_its_slot_and_the_slot_is_used_again() {
    let mut r = KeyboardReport2::new();
    for k in [5u8, 6, 7] {
        r = r.apply(Mutation::KeyDown(k));
    }
    r = r.apply(Mutation::KeyUp(6));
    assert_eq!(r.keycodes, [5, 0, 7, 0, 0, 0]);
    r = r.apply(Mutation::KeyDown(8));
    assert_eq!(r.keycodes, [5, 8, 7, 0, 0, 0]);
    r = r.apply(Mutation::KeyUp(42));
    assert_eq!(r.keycodes, [5, 8, 7, 0, 0, 0]);
}

#[test]
fn six_keys_down_then_up_in_another_order_is_rest() {
    let keys = [4u8, 5, 6, 7, 8, 9];
    let mut r = KeyboardReport2::new();
    for k in keys {
        r = r.apply(Mutation::KeyDown(k));
    }
    for k in [9u8, 4, 7, 5, 8, 6] {
        r = r.apply(Mutation::KeyUp(k));
    }
    assert_eq!(r, rest());
}

#[test]
fn pointer_buttons_use_three_bits() {
    let r = KeyboardReport2::new().apply(Mutation::PointerDown(0xff));
    assert_eq!(r.buttons, 0x07);
    let r = r.apply(Mutation::PointerUp(0x02));
    assert_eq!(r.buttons, 0x05);
    let r = r.apply(Mutation::PointerDown(0x02)).apply(Mutation::PointerUp(0x05));
    assert_eq!(r.buttons, 0x02);
}

#[test]
fn move_sets_the_relative_movement() {
    let r = KeyboardReport2::new().apply(Mutation::Move(-3, 7));
    assert_eq!((r.x, r.y), (-3, 7));
    assert_eq!(r.keycodes, [0; 6]);
}

#[test]
fn encode_lays_the_fields_out_in_order() {
    let r = KeyboardReport2 {
        modifier: 0x81,
        leds: 0x15,
        keycodes: [1, 2, 3, 4, 5, 6],
        buttons: 0x05,
        x: -1,
        y: 127,
    };
    assert_eq!(r.encode(), [0x81, 0x15, 1, 2, 3, 4, 5, 6, 0x05, 0xff, 0x7f]);
    assert_eq!(r.encode().len(), REPORT_LEN);
}

#[test]
fn encode_clears_the_padding_bits() {
    let r = KeyboardReport2 {
        modifier: 0,
        leds: 0xff,
        keycodes: [0; 6],
        buttons: 0xff,
        x: -128,
        y: 0,
    };
    assert_eq!(r.encode(), [0, 0x1f, 0, 0, 0, 0, 0, 0, 0x07, 0x80, 0]);
}

#[test]
fn decode_reads_what_encode_wrote() {
    let r = KeyboardReport2 {
        modifier: 2,
        leds: 3,
        keycodes: [0x04, 0, 0x4f, 0, 0, 9],
        buttons: 4,
        x: -100,
        y: 100,
    };
    assert_eq!(KeyboardReport2::decode(&r.encode()), Some(r));
}

#[test]
fn encode_gives_back_the_decoded_bytes() {
    let bytes = [0xa5u8, 0x1f, 9, 8, 7, 6, 5, 4, 0x07, 0x80, 0x7f];
    let r = KeyboardReport2::decode(&bytes).unwrap();
    assert_eq!(r.x, -128);
    assert_eq!(r.y, 127);
    assert_eq!(r.encode(), bytes);
}

#[test]
fn decode_ignores_the_padding_bits() {
    let bytes = [0u8, 0xe1, 0, 0, 0, 0, 0, 0, 0xfa, 0, 0];
    let r = KeyboardReport2::decode(&bytes).unwrap();
    assert_eq!(r.leds, 0x01);
    assert_eq!(r.buttons, 0x02);
}

#[test]
fn decode_wants_eleven_bytes() {
    assert_eq!(KeyboardReport2::decode(&[0u8; 10]), None);
    assert_eq!(KeyboardReport2::decode(&[0u8; 12]), None);
    assert_eq!(KeyboardReport2::decode(&[]), None);
    assert_eq!(KeyboardReport2::decode(&[0u8; 11]), Some(rest()));
}
