use keypad_core::terminal::{Cursor, DisplayOp, Geometry, Mode, Terminal};

fn glyph(x: i32, y: i32, c: char) -> DisplayOp {
    DisplayOp::Glyph { x, y, c }
}

fn sweep() -> Vec<DisplayOp> {
    let mut ops = Vec::new();
    let mut x = 0;
    while x < 320 {
        ops.push(DisplayOp::Scroll(6));
        ops.push(DisplayOp::Fill { x0: x, y0: 0, x1: x + 6, y1: 240 });
        ops.push(DisplayOp::Delay(1000));
        x += 6;
    }
    ops
}

#[test]
fn new_terminal_blanks_the_screen() {
    let (term, ops) = Terminal::new();
    assert_eq!(
        ops,
        vec![
            DisplayOp::Fill { x0: 0, y0: 0, x1: 320, y1: 320 },
            DisplayOp::ConfigureScroll { top: 0, bottom: 0 },
        ]
    );
    assert_eq!(term.position(), Cursor { x: 0, y: 0 });
    assert_eq!(
        term.sizes(),
        Geometry { width: 320, height: 240, glyph_width: 6, line_height: 12, advance: 6 }
    );
}

#[test]
fn a_character_is_drawn_at_the_cursor() {
    let (mut term, _) = Terminal::new();
    assert_eq!(term.write_character('H'), vec![glyph(0, 0, 'H')]);
    assert_eq!(term.write_character('i'), vec![glyph(6, 0, 'i')]);
    assert_eq!(term.position(), Cursor { x: 12, y: 0 });
}

#[test]
fn a_newline_moves_down_and_draws_nothing() {
    let (mut term, _) = Terminal::new();
    term.write_str("ab");
    assert_eq!(term.write_character('\n'), vec![]);
    assert_eq!(term.position(), Cursor { x: 0, y: 12 });
    assert_eq!(term.write_character('c'), vec![glyph(0, 12, 'c')]);
}

#[test]
fn a_long_string_wraps_at_the_right_edge() {
    let (mut term, _) = Terminal::new();
    let text: String = std::iter::repeat('x').take(56).collect();
    let ops = term.write_str(&text);
    assert_eq!(ops.len(), 56);
    assert_eq!(ops[0], glyph(0, 0, 'x'));
    assert_eq!(ops[53], glyph(318, 0, 'x'));
    assert_eq!(ops[54], glyph(0, 12, 'x'));
    assert_eq!(ops[55], glyph(6, 12, 'x'));
    assert_eq!(term.position(), Cursor { x: 12, y: 12 });
}

#[test]
fn running_off_the_bottom_clears_and_starts_at_the_origin() {
    let (mut term, _) = Terminal::new();
    for _ in 0..19 {
        assert_eq!(term.write_str("row\n").len(), 3);
    }
    assert_eq!(term.position(), Cursor { x: 0, y: 228 });
    assert_eq!(term.mode_for('z'), Mode::Writing);
    assert_eq!(term.mode_for('\n'), Mode::Clearing);
    assert_eq!(term.write_str("last"), vec![
        glyph(0, 228, 'l'),
        glyph(6, 228, 'a'),
        glyph(12, 228, 's'),
        glyph(18, 228, 't'),
    ]);
    let ops = term.write_character('\n');
    assert_eq!(ops, sweep());
    assert_eq!(ops.len(), 162);
    assert_eq!(term.position(), Cursor { x: 0, y: 0 });
    assert_eq!(term.mode_for('z'), Mode::Writing);
}

#[test]
fn a_character_that_wraps_off_the_bottom_is_drawn_after_the_sweep() {
    let (mut term, _) = Terminal::new();
    for _ in 0..19 {
        term.write_character('\n');
    }
    let full: String = std::iter::repeat('-').take(54).collect();
    term.write_str(&full);
    assert_eq!(term.position(), Cursor { x: 324, y: 228 });
    assert_eq!(term.mode_for('!'), Mode::Clearing);
    let ops = term.write_character('!');
    let mut want = sweep();
    want.push(glyph(0, 0, '!'));
    assert_eq!(ops, want);
    assert_eq!(term.position(), Cursor { x: 6, y: 0 });
}

#[test]
fn a_segment_is_cut_at_its_count() {
    let (mut term, _) = Terminal::new();
    let mut buf = [b'.'; 32];
    buf[0] = b'o';
    buf[1] = b'k';
    assert_eq!(term.write((buf, 2)), vec![glyph(0, 0, 'o'), glyph(6, 0, 'k')]);
    assert_eq!(term.write((buf, 0)), vec![]);
}

#[test]
fn a_segment_count_beyond_the_buffer_is_cut_to_the_buffer() {
    let (mut term, _) = Terminal::new();
    let buf = [b'#'; 32];
    let ops = term.write((buf, 1000));
    assert_eq!(ops.len(), 32);
    assert_eq!(ops[31], glyph(186, 0, '#'));
    assert_eq!(term.position(), Cursor { x: 192, y: 0 });
}

#[test]
fn segment_bytes_are_characters_of_their_own() {
    let (mut term, _) = Terminal::new();
    let mut buf = [0u8; 32];
    buf[0] = 0xe9;
    buf[1] = b'\n';
    buf[2] = b'a';
    assert_eq!(term.write((buf, 3)), vec![glyph(0, 0, '\u{e9}'), glyph(0, 12, 'a')]);
}
