//! The control core of a small keypad with a screen.
//!
//! Button edges and timer ticks come in; report bytes for a USB keyboard and
//! display operations for a scrolling text terminal go out.  The crate holds
//! the rules: how bouncing contacts become button events, which task runs
//! next and what a lock holds off, how a report changes and how it looks on
//! the wire, where the next glyph goes.  It touches no hardware; the caller
//! performs what it is handed.

pub mod buttons;
pub mod clock;
pub mod delay;
pub mod dispatcher;
pub mod report;
pub mod scheduler;
pub mod strings;
pub mod system;
pub mod terminal;
