use keypad_core::strings::{fixed_text_of, str_to_fixed, TEXT_CAPACITY};

#[test]
fn str_to_fixed_keeps_the_text() {
    let msg = str_to_fixed("TopLeft Down\n");
    assert_eq!(fixed_text_of(&msg), "TopLeft Down\n");
}

#[test]
fn str_to_fixed_takes_the_empty_string() {
    assert_eq!(fixed_text_of(&str_to_fixed("")), "");
}

#[test]
fn str_to_fixed_takes_a_full_buffer() {
    let text = "0123456789abcdef0123456789abcdef";
    assert_eq!(text.len(), TEXT_CAPACITY);
    assert_eq!(fixed_text_of(&str_to_fixed(text)), text);
}

#[test]
fn str_to_fixed_counts_bytes_not_characters() {
    let text = "äöüßäöüßäöüßäöüß";
    assert_eq!(text.len(), 32);
    assert_eq!(fixed_text_of(&str_to_fixed(text)), text);
}
