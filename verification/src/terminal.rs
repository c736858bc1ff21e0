//! The scrolling text terminal.
//!
//! The terminal keeps a cursor in pixel units on a screen of fixed size and
//! turns characters into display operations: a glyph to draw, or, when the
//! text has run off the bottom of the screen, the sweep that clears it.
//! While it writes the terminal is in mode `Writing`; a character that finds
//! the cursor at or below the bottom puts it in mode `Clearing` for the
//! length of the sweep, after which the cursor is back at the origin and the
//! terminal writes again.
//!
//! The terminal draws nothing itself: the caller performs the operations it
//! is handed, in order.  The glyph cell is that of the 6x12 font of
//! `embedded-graphics`.

use embedded_graphics::fonts::Font;
use embedded_graphics::fonts::Font6x12;
use vstd::prelude::*;

verus! {

/// Width of the screen in pixels.
pub const SCREEN_WIDTH: i32 = 320;

/// Height of the screen in pixels.
pub const SCREEN_HEIGHT: i32 = 240;

/// Side of the square that is blanked when the terminal starts.
pub const BACKDROP_SIDE: i32 = 320;

/// Cycles to wait after each column of the clearing sweep.
pub const SWEEP_DELAY: u32 = 1000;

/// Number of bytes in a text segment.
pub const SEGMENT_LEN: usize = 32;

/// A buffer of bytes and the number of them that count.
pub type TextSegment = ([u8; 32], usize);

/// One request to the display.
#[derive(Clone, Copy, Debug, PartialEq, Eq)]
pub enum DisplayOp {
    /// Blank the rectangle with corners `(x0, y0)` and `(x1, y1)`.
    Fill { x0: i32, y0: i32, x1: i32, y1: i32 },
    /// Set up scrolling with the given fixed areas at top and bottom.
    ConfigureScroll { top: u16, bottom: u16 },
    /// Scroll by the given number of lines.
    Scroll(u16),
    /// Draw the glyph of `c` with its top left corner at `(x, y)`.
    Glyph { x: i32, y: i32, c: char },
    /// Wait for the given number of cycles.
    Delay(u32),
}

/// What the terminal is doing.
#[derive(Clone, Copy, Debug, PartialEq, Eq, Structural)]
pub enum Mode {
    Writing,
    Clearing,
}

/// A position on the screen, in pixels.
#[derive(Clone, Copy, Debug, PartialEq, Eq, Structural)]
pub struct Cursor {
    pub x: i32,
    pub y: i32,
}

/// The sizes that the terminal works with, in pixels.
#[derive(Clone, Copy, Debug, PartialEq, Eq, Structural)]
pub struct Geometry {
    pub width: i32,
    pub height: i32,
    /// Width of a glyph.
    pub glyph_width: i32,
    /// Height of a line of text.
    pub line_height: i32,
    /// Distance from one glyph to the next.
    pub advance: i32,
}

/// Sizes that the terminal can work with.
pub open spec fn geometry_ok(g: Geometry) -> bool {
    &&& 0 < g.width
    &&& 0 < g.height
    &&& 0 < g.glyph_width <= u16::MAX
    &&& 0 < g.line_height
    &&& 0 < g.advance
    &&& g.width + g.advance + g.glyph_width <= i32::MAX
    &&& g.height + g.line_height <= i32::MAX
}

/// A cursor where the terminal may leave it.
pub open spec fn cursor_ok(g: Geometry, cur: Cursor) -> bool {
    &&& 0 <= cur.x < g.width + g.advance
    &&& 0 <= cur.y < g.height
}

/// The cursor after the line break that `c` causes, if it causes one: a
/// newline does, and so does any character that finds the cursor at or
/// beyond the right edge.
pub open spec fn wrapped(g: Geometry, cur: Cursor, c: char) -> Cursor {
    if cur.x >= g.width || c == '\n' {
        Cursor { x: 0, y: (cur.y + g.line_height) as i32 }
    } else {
        cur
    }
}

/// Writing `c` finds the cursor at or below the bottom edge.
pub open spec fn overflows(g: Geometry, cur: Cursor, c: char) -> bool {
    wrapped(g, cur, c).y >= g.height
}

/// The mode in which `c` is handled.
pub open spec fn mode_for(g: Geometry, cur: Cursor, c: char) -> Mode {
    if overflows(g, cur, c) {
        Mode::Clearing
    } else {
        Mode::Writing
    }
}

/// Where the glyph of `c` goes: the origin after a sweep.
pub open spec fn glyph_place(g: Geometry, cur: Cursor, c: char) -> Cursor {
    if overflows(g, cur, c) {
        Cursor { x: 0, y: 0 }
    } else {
        wrapped(g, cur, c)
    }
}

/// The cursor after `c` was written.
pub open spec fn advanced(g: Geometry, cur: Cursor, c: char) -> Cursor {
    let at = glyph_place(g, cur, c);
    if c == '\n' {
        at
    } else {
        Cursor { x: (at.x + g.advance) as i32, y: at.y }
    }
}

/// The operations of one column of the sweep, which begins at `x`.
pub open spec fn sweep_column(g: Geometry, x: int) -> Seq<DisplayOp> {
    seq![
        DisplayOp::Scroll(g.glyph_width as u16),
        DisplayOp::Fill { x0: x as i32, y0: 0, x1: (x + g.glyph_width) as i32, y1: g.height },
        DisplayOp::Delay(SWEEP_DELAY),
    ]
}

/// Width of the part of the screen at and to the right of `x`.
pub open spec fn width_left(g: Geometry, x: int) -> nat {
    if x < g.width {
        (g.width - x) as nat
    } else {
        0
    }
}

/// The operations of the sweep from the column at `x` to the right edge.
pub open spec fn sweep_from(g: Geometry, x: int) -> Seq<DisplayOp>
    decreases width_left(g, x),
{
    if x >= g.width || g.glyph_width <= 0 {
        Seq::empty()
    } else {
        sweep_column(g, x) + sweep_from(g, x + g.glyph_width)
    }
}

/// The operations of the whole sweep: column by column from the left edge,
/// scroll by a glyph's width, blank the column, wait.
pub open spec fn sweep(g: Geometry) -> Seq<DisplayOp> {
    sweep_from(g, 0)
}

/// The operations that writing `c` asks for.
pub open spec fn char_ops(g: Geometry, cur: Cursor, c: char) -> Seq<DisplayOp> {
    let at = glyph_place(g, cur, c);
    let clear = if overflows(g, cur, c) {
        sweep(g)
    } else {
        Seq::empty()
    };
    if c == '\n' {
        clear
    } else {
        clear.push(DisplayOp::Glyph { x: at.x, y: at.y, c })
    }
}

/// The cursor after the characters of `text` were written, first to last.
pub open spec fn cursor_after(g: Geometry, cur: Cursor, text: Seq<char>) -> Cursor
    decreases text.len(),
{
    if text.len() == 0 {
        cur
    } else {
        advanced(g, cursor_after(g, cur, text.drop_last()), text.last())
    }
}

/// The operations that writing the characters of `text` asks for.
pub open spec fn text_ops(g: Geometry, cur: Cursor, text: Seq<char>) -> Seq<DisplayOp>
    decreases text.len(),
{
    if text.len() == 0 {
        Seq::empty()
    } else {
        text_ops(g, cur, text.drop_last()) + char_ops(
            g,
            cursor_after(g, cur, text.drop_last()),
            text.last(),
        )
    }
}

/// The characters of a segment: its first `count` bytes, or all of them when
/// `count` is larger than the buffer.
pub open spec fn segment_text(buf: Seq<u8>, count: usize) -> Seq<char> {
    Seq::new(
        if count < buf.len() {
            count as nat
        } else {
            buf.len()
        },
        |i: int| buf[i] as char,
    )
}

/// The operations that set up a blank screen.
pub open spec fn start_ops() -> Seq<DisplayOp> {
    seq![
        DisplayOp::Fill { x0: 0, y0: 0, x1: BACKDROP_SIDE, y1: BACKDROP_SIDE },
        DisplayOp::ConfigureScroll { top: 0, bottom: 0 },
    ]
}

/// The sizes of the board's screen with the 6x12 font.
pub open spec fn board_geometry() -> Geometry {
    Geometry {
        width: SCREEN_WIDTH,
        height: SCREEN_HEIGHT,
        glyph_width: 6,
        line_height: 12,
        advance: 6,
    }
}

/// `Font6x12::CHARACTER_SIZE` of `embedded-graphics`: the glyph cell of the
/// font is 6 pixels wide and 12 pixels high.
#[verifier::external_body]
fn glyph_cell() -> (cell: (u32, u32))
    ensures
        cell.0 == 6,
        cell.1 == 12,
{
    let size = Font6x12::CHARACTER_SIZE;
    (size.width, size.height)
}

/// `Font6x12::CHARACTER_SPACING` of `embedded-graphics`: the font leaves no
/// pixels between one glyph and the next.
#[verifier::external_body]
fn glyph_spacing() -> (spacing: u32)
    ensures
        spacing == 0,
{
    Font6x12::CHARACTER_SPACING
}

/// The terminal.
pub struct Terminal {
    geometry: Geometry,
    cursor: Cursor,
}

impl Terminal {
    /// The sizes that the terminal works with.
    pub closed spec fn geometry(&self) -> Geometry {
        self.geometry
    }

    /// Where the next glyph would go, before any line break.
    pub closed spec fn cursor(&self) -> Cursor {
        self.cursor
    }

    /// The sizes are usable and the cursor is on the screen.
    pub open spec fn wf(&self) -> bool {
        geometry_ok(self.geometry()) && cursor_ok(self.geometry(), self.cursor())
    }

    /// A terminal for the board's screen with the cursor at the origin, and
    /// the operations that blank the screen and set up scrolling.
    pub fn new() -> (r: (Self, Vec<DisplayOp>))
        ensures
            r.0.wf(),
            r.0.geometry() == board_geometry(),
            r.0.cursor() == (Cursor { x: 0, y: 0 }),
            r.1@ == start_ops(),
    {
        let cell = glyph_cell();
        let spacing = glyph_spacing();
        let geometry = Geometry {
            width: SCREEN_WIDTH,
            height: SCREEN_HEIGHT,
            glyph_width: cell.0 as i32,
            line_height: cell.1 as i32,
            advance: (cell.0 + spacing) as i32,
        };
        let mut ops: Vec<DisplayOp> = Vec::new();
        ops.push(DisplayOp::Fill { x0: 0, y0: 0, x1: BACKDROP_SIDE, y1: BACKDROP_SIDE });
        ops.push(DisplayOp::ConfigureScroll { top: 0, bottom: 0 });
        proof {
            assert(ops@ =~= start_ops());
        }
        (Terminal { geometry, cursor: Cursor { x: 0, y: 0 } }, ops)
    }

    /// The operations of the clearing sweep.
    fn animate_clear(&self) -> (ops: Vec<DisplayOp>)
        requires
            geometry_ok(self.geometry()),
        ensures
            ops@ == sweep(self.geometry()),
    {
        let g = self.geometry;
        let mut ops: Vec<DisplayOp> = Vec::new();
        let mut x: i32 = 0;
        proof {
            assert(ops@ + sweep_from(g, 0) =~= sweep(g));
        }
        while x < g.width
            invariant
                geometry_ok(g),
                0 <= x < g.width + g.glyph_width,
                ops@ + sweep_from(g, x as int) == sweep(g),
            decreases g.width + g.glyph_width - x,
        {
            let ghost before = ops@;
            ops.push(DisplayOp::Scroll(g.glyph_width as u16));
            ops.push(DisplayOp::Fill { x0: x, y0: 0, x1: x + g.glyph_width, y1: g.height });
            ops.push(DisplayOp::Delay(SWEEP_DELAY));
            proof {
                assert(ops@ =~= before + sweep_column(g, x as int));
                assert(ops@ + sweep_from(g, x + g.glyph_width) =~= before + sweep_from(
                    g,
                    x as int,
                ));
            }
            x = x + g.glyph_width;
        }
        proof {
            assert(ops@ + sweep_from(g, x as int) =~= ops@);
        }
        ops
    }

    /// The mode in which `c` would be handled now.
    pub fn mode_for(&self, c: char) -> (mode: Mode)
        requires
            self.wf(),
        ensures
            mode == mode_for(self.geometry(), self.cursor(), c),
    {
        let y = if self.cursor.x >= self.geometry.width || c == '\n' {
            self.cursor.y + self.geometry.line_height
        } else {
            self.cursor.y
        };
        if y >= self.geometry.height {
            Mode::Clearing
        } else {
            Mode::Writing
        }
    }

    /// Writes one character and returns the operations that show it.
    pub fn write_character(&mut self, c: char) -> (ops: Vec<DisplayOp>)
        requires
            old(self).wf(),
        ensures
            final(self).wf(),
            final(self).geometry() == old(self).geometry(),
            final(self).cursor() == advanced(old(self).geometry(), old(self).cursor(), c),
            ops@ == char_ops(old(self).geometry(), old(self).cursor(), c),
    {
        let g = self.geometry;
        let mut ops: Vec<DisplayOp> = Vec::new();
        if self.cursor.x >= g.width || c == '\n' {
            self.cursor = Cursor { x: 0, y: self.cursor.y + g.line_height };
        }
        if self.cursor.y >= g.height {
            ops = self.animate_clear();
            self.cursor = Cursor { x: 0, y: 0 };
        }
        if c != '\n' {
            ops.push(DisplayOp::Glyph { x: self.cursor.x, y: self.cursor.y, c });
            self.cursor = Cursor { x: self.cursor.x + g.advance, y: self.cursor.y };
        }
        ops
    }

    /// Writes the characters of `text` and returns the operations that show
    /// them.
    pub fn write_str(&mut self, text: &str) -> (ops: Vec<DisplayOp>)
        requires
            old(self).wf(),
        ensures
            final(self).wf(),
            final(self).geometry() == old(self).geometry(),
            final(self).cursor() == cursor_after(old(self).geometry(), old(self).cursor(), text@),
            ops@ == text_ops(old(self).geometry(), old(self).cursor(), text@),
    {
        let ghost g = self.geometry();
        let ghost start = self.cursor();
        let mut ops: Vec<DisplayOp> = Vec::new();
        let n = text.unicode_len();
        let mut i: usize = 0;
        while i < n
            invariant
                0 <= i <= n,
                n == text@.len(),
                self.wf(),
                self.geometry() == g,
                self.cursor() == cursor_after(g, start, text@.take(i as int)),
                ops@ == text_ops(g, start, text@.take(i as int)),
            decreases n - i,
        {
            let c = text.get_char(i);
            proof {
                assert(text@.take(i + 1).drop_last() =~= text@.take(i as int));
                assert(text@.take(i + 1).last() == c);
            }
            let mut more = self.write_character(c);
            ops.append(&mut more);
            i = i + 1;
        }
        proof {
            assert(text@.take(i as int) =~= text@);
        }
        ops
    }

    /// Writes the bytes of a segment that count, each as one character, and
    /// returns the operations that show them.  A count beyond the buffer is
    /// cut to the buffer's length.
    pub fn write(&mut self, segment: TextSegment) -> (ops: Vec<DisplayOp>)
        requires
            old(self).wf(),
        ensures
            final(self).wf(),
            final(self).geometry() == old(self).geometry(),
            final(self).cursor() == cursor_after(
                old(self).geometry(),
                old(self).cursor(),
                segment_text(segment.0@, segment.1),
            ),
            ops@ == text_ops(
                old(self).geometry(),
                old(self).cursor(),
                segment_text(segment.0@, segment.1),
            ),
    {
        let (buf, count) = segment;
        let ghost g = self.geometry();
        let ghost start = self.cursor();
        let ghost text = segment_text(buf@, count);
        let mut ops: Vec<DisplayOp> = Vec::new();
        let mut i: usize = 0;
        while i < SEGMENT_LEN && i < count
            invariant
                0 <= i <= text.len(),
                text == segment_text(buf@, count),
                self.wf(),
                self.geometry() == g,
                self.cursor() == cursor_after(g, start, text.take(i as int)),
                ops@ == text_ops(g, start, text.take(i as int)),
            decreases text.len() - i,
        {
            let c = buf[i] as char;
            proof {
                assert(text.take(i + 1).drop_last() =~= text.take(i as int));
                assert(text.take(i + 1).last() == c);
            }
            let mut more = self.write_character(c);
            ops.append(&mut more);
            i = i + 1;
        }
        proof {
            assert(text.take(i as int) =~= text);
        }
        ops
    }

    /// Where the next glyph would go, before any line break.
    pub fn position(&self) -> (cur: Cursor)
        ensures
            cur == self.cursor(),
    {
        self.cursor
    }

    /// The sizes that the terminal works with.
    pub fn sizes(&self) -> (g: Geometry)
        ensures
            g == self.geometry(),
    {
        self.geometry
    }
}

/// A glyph lies on the screen; other operations are not placed.
pub open spec fn on_screen(g: Geometry, op: DisplayOp) -> bool {
    match op {
        DisplayOp::Glyph { x, y, c } => 0 <= x < g.width && 0 <= y < g.height,
        _ => true,
    }
}

/// The sweep draws no glyph.
pub proof fn lemma_sweep_draws_no_glyph(g: Geometry, x: int)
    ensures
        forall|i: int|
            0 <= i < sweep_from(g, x).len() ==> !(#[trigger] sweep_from(g, x)[i] is Glyph),
    decreases width_left(g, x),
{
    if !(x >= g.width || g.glyph_width <= 0) {
        lemma_sweep_draws_no_glyph(g, x + g.glyph_width);
    }
}

/// Writing a character leaves the cursor where the terminal may leave it and
/// draws its glyph on the screen.
pub proof fn lemma_char_on_screen(g: Geometry, cur: Cursor, c: char)
    requires
        geometry_ok(g),
        cursor_ok(g, cur),
    ensures
        cursor_ok(g, advanced(g, cur, c)),
        forall|i: int|
            0 <= i < char_ops(g, cur, c).len() ==> on_screen(g, #[trigger] char_ops(g, cur, c)[i]),
{
    lemma_sweep_draws_no_glyph(g, 0);
}

/// Writing any text leaves the cursor where the terminal may leave it and
/// draws every glyph on the screen.
pub proof fn lemma_text_on_screen(g: Geometry, cur: Cursor, text: Seq<char>)
    requires
        geometry_ok(g),
        cursor_ok(g, cur),
    ensures
        cursor_ok(g, cursor_after(g, cur, text)),
        forall|i: int|
            0 <= i < text_ops(g, cur, text).len() ==> on_screen(g, #[trigger] text_ops(g, cur, text)[i]),
    decreases text.len(),
{
    if text.len() > 0 {
        let front = text_ops(g, cur, text.drop_last());
        let last = char_ops(g, cursor_after(g, cur, text.drop_last()), text.last());
        lemma_text_on_screen(g, cur, text.drop_last());
        lemma_char_on_screen(g, cursor_after(g, cur, text.drop_last()), text.last());
        assert forall|i: int| 0 <= i < text_ops(g, cur, text).len() implies on_screen(
            g,
            #[trigger] text_ops(g, cur, text)[i],
        ) by {
            if i < front.len() {
                assert(text_ops(g, cur, text)[i] == front[i]);
            } else {
                assert(text_ops(g, cur, text)[i] == last[i - front.len()]);
            }
        }
    }
}

/// A character that finds the cursor at or beyond the right edge, with a
/// line left below, goes to the start of the next line.
pub proof fn lemma_wraps_at_right_edge(g: Geometry, cur: Cursor, c: char)
    requires
        geometry_ok(g),
        cursor_ok(g, cur),
        cur.x >= g.width,
        c != '\n',
        cur.y + g.line_height < g.height,
    ensures
        mode_for(g, cur, c) == Mode::Writing,
        char_ops(g, cur, c) == seq![
            DisplayOp::Glyph { x: 0, y: (cur.y + g.line_height) as i32, c },
        ],
        advanced(g, cur, c) == (Cursor { x: g.advance, y: (cur.y + g.line_height) as i32 }),
{
    assert(char_ops(g, cur, c) =~= seq![
        DisplayOp::Glyph { x: 0, y: (cur.y + g.line_height) as i32, c },
    ]);
}

/// A line break on the last line puts the terminal in mode `Clearing`: the
/// sweep runs, and writing goes on from the origin.
pub proof fn lemma_clears_at_bottom(g: Geometry, cur: Cursor, c: char)
    requires
        geometry_ok(g),
        cursor_ok(g, cur),
    ensures
        overflows(g, cur, c) <==> (cur.x >= g.width || c == '\n') && cur.y + g.line_height
            >= g.height,
        overflows(g, cur, c) ==> {
            &&& mode_for(g, cur, c) == Mode::Clearing
            &&& glyph_place(g, cur, c) == (Cursor { x: 0, y: 0 })
            &&& char_ops(g, cur, c) == (if c == '\n' {
                sweep(g)
            } else {
                sweep(g).push(DisplayOp::Glyph { x: 0, y: 0, c })
            })
            &&& advanced(g, cur, c) == (if c == '\n' {
                Cursor { x: 0, y: 0 }
            } else {
                Cursor { x: g.advance, y: 0 }
            })
        },
        !overflows(g, cur, c) ==> mode_for(g, cur, c) == Mode::Writing,
{
}

/// A character other than a newline that finds the cursor left of the right
/// edge is drawn at the cursor, and the cursor moves on by one advance.
pub proof fn lemma_writes_in_place(g: Geometry, cur: Cursor, c: char)
    requires
        geometry_ok(g),
        cursor_ok(g, cur),
        cur.x < g.width,
        c != '\n',
    ensures
        mode_for(g, cur, c) == Mode::Writing,
        char_ops(g, cur, c) == seq![DisplayOp::Glyph { x: cur.x, y: cur.y, c }],
        char_ops(g, cur, c).len() == 1,
        char_ops(g, cur, c)[0] == (DisplayOp::Glyph { x: cur.x, y: cur.y, c }),
        advanced(g, cur, c) == (Cursor { x: (cur.x + g.advance) as i32, y: cur.y }),
{
    assert(char_ops(g, cur, c) =~= seq![DisplayOp::Glyph { x: cur.x, y: cur.y, c }]);
}

/// The width of `count` glyphs that stand `advance` pixels apart.
#[verifier::opaque]
pub open spec fn span(count: int, advance: int) -> int {
    count * advance
}

/// `span` grows by one advance with each glyph.
pub proof fn lemma_span(count: int, advance: int)
    ensures
        span(0, advance) == 0,
        span(count + 1, advance) == span(count, advance) + advance,
        count >= 0 && advance >= 0 ==> span(count, advance) >= 0,
{
    reveal(span);
    assert(0 * advance == 0) by (nonlinear_arith);
    assert((count + 1) * advance == count * advance + advance) by (nonlinear_arith);
    assert(count >= 0 && advance >= 0 ==> count * advance >= 0) by (nonlinear_arith);
}

/// Text without a line break that fits between the cursor and the right
/// edge is drawn glyph by glyph on the cursor's line, one advance apart.
pub proof fn lemma_row(g: Geometry, cur: Cursor, text: Seq<char>)
    requires
        geometry_ok(g),
        cursor_ok(g, cur),
        forall|i: int| 0 <= i < text.len() ==> text[i] != '\n',
        text.len() > 0 ==> cur.x + span(text.len() - 1, g.advance as int) < g.width,
    ensures
        cursor_after(g, cur, text) == (Cursor {
            x: (cur.x + span(text.len() as int, g.advance as int)) as i32,
            y: cur.y,
        }),
        text_ops(g, cur, text).len() == text.len(),
        forall|i: int|
            0 <= i < text.len() ==> #[trigger] text_ops(g, cur, text)[i] == (DisplayOp::Glyph {
                x: (cur.x + span(i, g.advance as int)) as i32,
                y: cur.y,
                c: text[i],
            }),
    decreases text.len(),
{
    let a = g.advance as int;
    let n = text.len() as int;
    lemma_span(n - 1, a);
    lemma_span(n - 2, a);
    if n > 0 {
        let front = text.drop_last();
        lemma_row(g, cur, front);
        let mid = cursor_after(g, cur, front);
        let head = text_ops(g, cur, front);
        assert(mid.x == cur.x + span(n - 1, a));
        assert(mid.y == cur.y);
        assert(text.last() == text[n - 1]);
        assert(text.last() != '\n');
        let tail = char_ops(g, mid, text.last());
        lemma_writes_in_place(g, mid, text.last());
        assert(tail.len() == 1);
        assert(head.len() == n - 1);
        assert(text_ops(g, cur, text) == head + tail);
        assert forall|i: int| 0 <= i < n implies #[trigger] text_ops(g, cur, text)[i] == (
        DisplayOp::Glyph {
            x: (cur.x + span(i, g.advance as int)) as i32,
            y: cur.y,
            c: text[i],
        }) by {
            if i < n - 1 {
                assert(front[i] == text[i]);
                assert(text_ops(g, cur, text)[i] == head[i]);
            } else {
                assert(text_ops(g, cur, text)[i] == tail[0]);
                assert(tail[0] == DisplayOp::Glyph { x: mid.x, y: mid.y, c: text.last() });
            }
        }
    }
}

} // verus!
