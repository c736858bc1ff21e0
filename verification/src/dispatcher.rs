//! From button events to report mutations and display text.
//!
//! The mapping is a fixed table.  Two buttons act: the top left button is
//! the key `a`, the joystick pushed right is the right-arrow key.  Every
//! other button does nothing.

use crate::buttons::Button;
use crate::buttons::ButtonEvent;
use crate::report::apply;
use crate::report::apply_all;
use crate::report::key_downs;
use crate::report::key_ups;
use crate::report::lemma_first_free;
use crate::report::lemma_press_release_rest;
use crate::report::no_keys;
use crate::report::wire;
use crate::report::Report;
use crate::report::KeyboardReport2;
use crate::report::Mutation;
use crate::strings::fixed_text;
use crate::strings::str_to_fixed;
use crate::strings::FixedText;
use vstd::prelude::*;
use vstd::string::is_ascii;
use vstd::string::is_ascii_spec_bytes;

verus! {

/// Usage code of the key `a`.
pub const KEY_A: u8 = 0x04;

/// Usage code of the right-arrow key.
pub const KEY_RIGHT: u8 = 0x4f;

/// What the dispatcher hands on for one event.
pub struct Dispatch {
    /// The wire bytes of the report after the event.
    pub report: [u8; 11],
    /// The text to show.
    pub text: FixedText,
}

/// The report mutation for an event, if the event's button acts.
pub open spec fn mutation_for(event: ButtonEvent) -> Option<Mutation> {
    match event.button {
        Button::TopLeft => Some(
            if event.down {
                Mutation::KeyDown(KEY_A)
            } else {
                Mutation::KeyUp(KEY_A)
            },
        ),
        Button::Right => Some(
            if event.down {
                Mutation::KeyDown(KEY_RIGHT)
            } else {
                Mutation::KeyUp(KEY_RIGHT)
            },
        ),
        _ => None,
    }
}

/// The text for an event, if the event's button acts.
pub open spec fn label_for(event: ButtonEvent) -> Option<Seq<char>> {
    match event.button {
        Button::TopLeft => Some(
            if event.down {
                "TopLeft Down\n"@
            } else {
                "TopLeft Up\n"@
            },
        ),
        Button::Right => Some(
            if event.down {
                "Right Up\n"@
            } else {
                "Right Down\n"@
            },
        ),
        _ => None,
    }
}

fn mutation_of(event: ButtonEvent) -> (m: Option<Mutation>)
    ensures
        m == mutation_for(event),
{
    match event.button {
        Button::TopLeft => Some(
            if event.down {
                Mutation::KeyDown(KEY_A)
            } else {
                Mutation::KeyUp(KEY_A)
            },
        ),
        Button::Right => Some(
            if event.down {
                Mutation::KeyDown(KEY_RIGHT)
            } else {
                Mutation::KeyUp(KEY_RIGHT)
            },
        ),
        _ => None,
    }
}

fn label_of(event: ButtonEvent) -> (label: Option<&'static str>)
    ensures
        label is Some <==> label_for(event) is Some,
        label is Some ==> label->0@ == label_for(event)->0 && is_ascii(label->0) && label->0@.len()
            <= 32,
{
    proof {
        reveal_strlit("TopLeft Down\n");
        reveal_strlit("TopLeft Up\n");
        reveal_strlit("Right Up\n");
        reveal_strlit("Right Down\n");
    }
    match event.button {
        Button::TopLeft => Some(
            if event.down {
                "TopLeft Down\n"
            } else {
                "TopLeft Up\n"
            },
        ),
        Button::Right => Some(
            if event.down {
                "Right Up\n"
            } else {
                "Right Down\n"
            },
        ),
        _ => None,
    }
}

/// Handles one button event: applies the event's mutation to the report and
/// returns the report's wire bytes together with the text to show.  An event
/// of a button that does not act changes nothing and returns nothing.
pub fn button(report: &mut KeyboardReport2, event: ButtonEvent) -> (out: Option<Dispatch>)
    ensures
        mutation_for(event) is None ==> out is None && *final(report) == *old(report),
        mutation_for(event) is Some ==> {
            &&& out is Some
            &&& final(report)@ == apply(old(report)@, mutation_for(event)->0)
            &&& out->0.report@ == wire(final(report)@)
            &&& fixed_text(out->0.text) == label_for(event)->0
        },
{
    match (mutation_of(event), label_of(event)) {
        (Some(m), Some(label)) => {
            *report = report.apply(m);
            proof {
                is_ascii_spec_bytes(label);
            }
            Some(Dispatch { report: report.encode(), text: str_to_fixed(label) })
        },
        _ => None,
    }
}

/// The key that a button stands for, if the button acts.
pub open spec fn key_for(button: Button) -> Option<u8> {
    match button {
        Button::TopLeft => Some(KEY_A),
        Button::Right => Some(KEY_RIGHT),
        _ => None,
    }
}

/// On a report with no key down, pressing a button that acts puts its key in
/// the first slot and leaves the others empty, and releasing it gives the
/// report back as it was.
pub proof fn lemma_press_then_release(r: Report, button: Button)
    requires
        r.keys == no_keys(),
        key_for(button) is Some,
    ensures
        ({
            let down = mutation_for(ButtonEvent { button, down: true });
            let up = mutation_for(ButtonEvent { button, down: false });
            &&& down is Some && up is Some
            &&& apply(r, down->0).keys == no_keys().update(0, key_for(button)->0)
            &&& apply(apply(r, down->0), up->0) == r
        }),
{
    let key = key_for(button)->0;
    let keys = seq![key];
    let pressed = apply(r, key_downs(keys)[0]);
    lemma_first_free(r.keys, 0);
    assert(r.keys[0] == 0);
    assert(!r.keys.contains(key));
    lemma_press_release_rest(r, keys, keys);
    assert(key_downs(keys).drop_first() =~= Seq::<Mutation>::empty());
    assert(key_ups(keys).drop_first() =~= Seq::<Mutation>::empty());
    assert(apply_all(r, key_downs(keys)) == pressed) by {
        assert(apply_all(pressed, key_downs(keys).drop_first()) == pressed);
    }
    let released = apply(pressed, key_ups(keys)[0]);
    assert(apply_all(pressed, key_ups(keys)) == released) by {
        assert(apply_all(released, key_ups(keys).drop_first()) == released);
    }
}

} // verus!
