//! The composite keyboard-and-pointer input report and its wire codec.
//!
//! A report is a fixed record: one modifier byte, one LED byte, six key
//! slots, one pointer-button byte and two signed relative movements.  On the
//! wire it is eleven bytes, in that order.  Five bits of the LED byte and
//! three bits of the pointer-button byte carry data; the rest is padding and
//! is sent as zero.

use vstd::prelude::*;

verus! {

/// Number of key slots in a report.
pub const KEY_SLOTS: usize = 6;

/// Length in bytes of an encoded report.
pub const REPORT_LEN: usize = 11;

/// Bits of the LED byte that carry data.
pub const LED_MASK: u8 = 0x1f;

/// Bits of the pointer-button byte that carry data.
pub const BUTTON_MASK: u8 = 0x07;

/// The composite report as it is held in memory.
#[derive(Clone, Copy, Debug, PartialEq, Eq)]
pub struct KeyboardReport2 {
    pub modifier: u8,
    pub leds: u8,
    pub keycodes: [u8; 6],
    pub buttons: u8,
    pub x: i8,
    pub y: i8,
}

/// A request to change the report.
#[derive(Clone, Copy, Debug, PartialEq, Eq)]
pub enum Mutation {
    /// A key went down; `0` names no key.
    KeyDown(u8),
    /// A key went up; `0` names no key.
    KeyUp(u8),
    /// The pointer buttons in the mask went down.
    PointerDown(u8),
    /// The pointer buttons in the mask went up.
    PointerUp(u8),
    /// The pointer moved by `(dx, dy)`.
    Move(i8, i8),
}

/// Mathematical value of a report: the key slots as a sequence.
pub struct Report {
    pub modifier: u8,
    pub leds: u8,
    pub keys: Seq<u8>,
    pub buttons: u8,
    pub x: i8,
    pub y: i8,
}

impl View for KeyboardReport2 {
    type V = Report;

    open spec fn view(&self) -> Report {
        Report {
            modifier: self.modifier,
            leds: self.leds,
            keys: self.keycodes@,
            buttons: self.buttons,
            x: self.x,
            y: self.y,
        }
    }
}

/// Six empty key slots.
pub open spec fn no_keys() -> Seq<u8> {
    Seq::new(6, |i: int| 0u8)
}

/// The report at rest: nothing pressed, nothing lit, no movement.
pub open spec fn rest() -> Report {
    Report { modifier: 0, leds: 0, keys: no_keys(), buttons: 0, x: 0, y: 0 }
}

/// A report whose padding bits are clear.
pub open spec fn valid(r: Report) -> bool {
    &&& r.keys.len() == 6
    &&& r.leds <= LED_MASK
    &&& r.buttons <= BUTTON_MASK
}

/// Index of the first empty slot at or after `from`, or `keys.len()` when
/// every slot from there on is taken.
pub open spec fn first_free_from(keys: Seq<u8>, from: int) -> int
    decreases keys.len() - from,
{
    if from < 0 || from >= keys.len() {
        keys.len() as int
    } else if keys[from] == 0 {
        from
    } else {
        first_free_from(keys, from + 1)
    }
}

/// Index of the first empty slot, or `keys.len()` when all are taken.
pub open spec fn first_free(keys: Seq<u8>) -> int {
    first_free_from(keys, 0)
}

/// Key slots after `key` goes down: a key that is already down, the key `0`
/// and a key that finds every slot taken change nothing; any other key takes
/// the first empty slot.
pub open spec fn press(keys: Seq<u8>, key: u8) -> Seq<u8> {
    if key == 0 || keys.contains(key) || first_free(keys) >= keys.len() {
        keys
    } else {
        keys.update(first_free(keys), key)
    }
}

/// Key slots after `key` goes up: every slot that holds it is emptied.
pub open spec fn release(keys: Seq<u8>, key: u8) -> Seq<u8> {
    Seq::new(keys.len(), |i: int| if keys[i] == key { 0u8 } else { keys[i] })
}

/// The report that follows `r` under mutation `m`.
pub open spec fn apply(r: Report, m: Mutation) -> Report {
    match m {
        Mutation::KeyDown(k) => Report { keys: press(r.keys, k), ..r },
        Mutation::KeyUp(k) => Report { keys: release(r.keys, k), ..r },
        Mutation::PointerDown(mask) => Report { buttons: r.buttons | (mask & BUTTON_MASK), ..r },
        Mutation::PointerUp(mask) => Report { buttons: r.buttons & !mask, ..r },
        Mutation::Move(dx, dy) => Report { x: dx, y: dy, ..r },
    }
}

/// The report that follows `r` under the mutations of `ms`, first to last.
pub open spec fn apply_all(r: Report, ms: Seq<Mutation>) -> Report
    decreases ms.len(),
{
    if ms.len() == 0 {
        r
    } else {
        apply_all(apply(r, ms[0]), ms.drop_first())
    }
}

/// Two's-complement byte of a signed movement.
pub open spec fn to_wire(v: i8) -> u8 {
    if v >= 0 {
        v as u8
    } else {
        (v + 256) as u8
    }
}

/// Signed movement held by a two's-complement byte.
pub open spec fn from_wire(b: u8) -> i8 {
    if b < 128 {
        b as i8
    } else {
        (b - 256) as i8
    }
}

/// The eleven wire bytes of a report.
pub open spec fn wire(r: Report) -> Seq<u8> {
    seq![r.modifier, r.leds & LED_MASK] + r.keys + seq![
        r.buttons & BUTTON_MASK,
        to_wire(r.x),
        to_wire(r.y),
    ]
}

/// The report held by eleven wire bytes; padding bits are ignored.
pub open spec fn parse(bytes: Seq<u8>) -> Report {
    Report {
        modifier: bytes[0],
        leds: bytes[1] & LED_MASK,
        keys: bytes.subrange(2, 8),
        buttons: bytes[8] & BUTTON_MASK,
        x: from_wire(bytes[9]),
        y: from_wire(bytes[10]),
    }
}

/// Eleven bytes whose padding bits are clear.
pub open spec fn canonical(bytes: Seq<u8>) -> bool {
    &&& bytes.len() == REPORT_LEN
    &&& bytes[1] <= LED_MASK
    &&& bytes[8] <= BUTTON_MASK
}

fn byte_of(v: i8) -> (b: u8)
    ensures
        b == to_wire(v),
{
    if v >= 0 {
        v as u8
    } else {
        (v as i16 + 256) as u8
    }
}

fn signed_of(b: u8) -> (v: i8)
    ensures
        v == from_wire(b),
{
    if b < 128 {
        b as i8
    } else {
        (b as i16 - 256) as i8
    }
}

/// Masking keeps a byte within the mask.
pub proof fn lemma_masked(v: u8, mask: u8)
    ensures
        v & mask <= mask,
{
    assert(v & mask <= mask) by (bit_vector);
}

/// A byte without padding bits is left as it is by its mask.
pub proof fn lemma_mask_keeps(v: u8)
    ensures
        v <= LED_MASK ==> v & LED_MASK == v,
        v <= BUTTON_MASK ==> v & BUTTON_MASK == v,
{
    assert(v <= 0x1f ==> v & 0x1f == v) by (bit_vector);
    assert(v <= 0x07 ==> v & 0x07 == v) by (bit_vector);
}

/// `first_free_from` finds an empty slot and skips only taken ones.
pub proof fn lemma_first_free(keys: Seq<u8>, from: int)
    requires
        0 <= from <= keys.len(),
    ensures
        from <= first_free_from(keys, from) <= keys.len(),
        first_free_from(keys, from) < keys.len() ==> keys[first_free_from(keys, from)] == 0,
        forall|j: int| from <= j < first_free_from(keys, from) ==> keys[j] != 0,
    decreases keys.len() - from,
{
    if from < keys.len() && keys[from] != 0 {
        lemma_first_free(keys, from + 1);
    }
}

impl KeyboardReport2 {
    /// The report at rest.
    pub fn new() -> (r: Self)
        ensures
            r@ == rest(),
    {
        let r = KeyboardReport2 { modifier: 0, leds: 0, keycodes: [0u8; 6], buttons: 0, x: 0, y: 0 };
        assert(r.keycodes@ =~= no_keys());
        r
    }

    fn pressed(keys: [u8; 6], key: u8) -> (out: [u8; 6])
        ensures
            out@ == press(keys@, key),
    {
        if key == 0 {
            return keys;
        }
        let mut free: usize = 6;
        let mut i: usize = 6;
        while i > 0
            invariant
                0 <= i <= 6,
                free <= 6,
                free == first_free_from(keys@, i as int),
                forall|j: int| i <= j < 6 ==> keys@[j] != key,
            decreases i,
        {
            i = i - 1;
            if keys[i] == key {
                assert(keys@.contains(key));
                return keys;
            }
            if keys[i] == 0 {
                free = i;
            }
        }
        assert(!keys@.contains(key));
        if free < 6 {
            let mut out = keys;
            out[free] = key;
            out
        } else {
            keys
        }
    }

    fn released(keys: [u8; 6], key: u8) -> (out: [u8; 6])
        ensures
            out@ == release(keys@, key),
    {
        let mut out = keys;
        let mut i: usize = 0;
        while i < 6
            invariant
                0 <= i <= 6,
                forall|j: int| 0 <= j < i ==> out@[j] == release(keys@, key)[j],
                forall|j: int| i <= j < 6 ==> out@[j] == keys@[j],
            decreases 6 - i,
        {
            if out[i] == key {
                out[i] = 0;
            }
            i = i + 1;
        }
        assert(out@ =~= release(keys@, key));
        out
    }

    /// The report that follows this one under `m`.
    pub fn apply(&self, m: Mutation) -> (next: Self)
        ensures
            next@ == apply(self@, m),
    {
        match m {
            Mutation::KeyDown(k) => KeyboardReport2 {
                modifier: self.modifier,
                leds: self.leds,
                keycodes: Self::pressed(self.keycodes, k),
                buttons: self.buttons,
                x: self.x,
                y: self.y,
            },
            Mutation::KeyUp(k) => KeyboardReport2 {
                modifier: self.modifier,
                leds: self.leds,
                keycodes: Self::released(self.keycodes, k),
                buttons: self.buttons,
                x: self.x,
                y: self.y,
            },
            Mutation::PointerDown(mask) => KeyboardReport2 {
                modifier: self.modifier,
                leds: self.leds,
                keycodes: self.keycodes,
                buttons: self.buttons | (mask & BUTTON_MASK),
                x: self.x,
                y: self.y,
            },
            Mutation::PointerUp(mask) => KeyboardReport2 {
                modifier: self.modifier,
                leds: self.leds,
                keycodes: self.keycodes,
                buttons: self.buttons & !mask,
                x: self.x,
                y: self.y,
            },
            Mutation::Move(dx, dy) => KeyboardReport2 {
                modifier: self.modifier,
                leds: self.leds,
                keycodes: self.keycodes,
                buttons: self.buttons,
                x: dx,
                y: dy,
            },
        }
    }

    /// The wire bytes of this report.
    pub fn encode(&self) -> (bytes: [u8; 11])
        ensures
            bytes@ == wire(self@),
            canonical(bytes@),
    {
        let leds = self.leds & LED_MASK;
        let buttons = self.buttons & BUTTON_MASK;
        proof {
            lemma_masked(self.leds, LED_MASK);
            lemma_masked(self.buttons, BUTTON_MASK);
        }
        let bytes = [
            self.modifier,
            leds,
            self.keycodes[0],
            self.keycodes[1],
            self.keycodes[2],
            self.keycodes[3],
            self.keycodes[4],
            self.keycodes[5],
            buttons,
            byte_of(self.x),
            byte_of(self.y),
        ];
        assert(bytes@ =~= wire(self@));
        bytes
    }

    /// Reads a report from wire bytes.  A buffer of any length other than
    /// eleven holds no report.
    pub fn decode(bytes: &[u8]) -> (r: Option<Self>)
        ensures
            r is Some <==> bytes@.len() == REPORT_LEN,
            r is Some ==> r->0@ == parse(bytes@) && valid(r->0@),
    {
        if bytes.len() != REPORT_LEN {
            return None;
        }
        let leds = bytes[1] & LED_MASK;
        let buttons = bytes[8] & BUTTON_MASK;
        proof {
            lemma_masked(bytes[1], LED_MASK);
            lemma_masked(bytes[8], BUTTON_MASK);
        }
        let r = KeyboardReport2 {
            modifier: bytes[0],
            leds,
            keycodes: [bytes[2], bytes[3], bytes[4], bytes[5], bytes[6], bytes[7]],
            buttons,
            x: signed_of(bytes[9]),
            y: signed_of(bytes[10]),
        };
        assert(r.keycodes@ =~= bytes@.subrange(2, 8));
        Some(r)
    }
}

/// The key-down mutations for `keys`, in order.
pub open spec fn key_downs(keys: Seq<u8>) -> Seq<Mutation> {
    Seq::new(keys.len(), |i: int| Mutation::KeyDown(keys[i]))
}

/// The key-up mutations for `keys`, in order.
pub open spec fn key_ups(keys: Seq<u8>) -> Seq<Mutation> {
    Seq::new(keys.len(), |i: int| Mutation::KeyUp(keys[i]))
}

/// Six slots that hold `keys` from the front and are empty behind them.
pub open spec fn filled(keys: Seq<u8>) -> Seq<u8> {
    Seq::new(6, |i: int| if i < keys.len() { keys[i] } else { 0u8 })
}

/// Distinct keys, none of them `0`.
pub open spec fn distinct_keys(keys: Seq<u8>) -> bool {
    &&& keys.no_duplicates()
    &&& forall|i: int| 0 <= i < keys.len() ==> keys[i] != 0
}

/// Encoding what was decoded gives the bytes back, for every buffer of eleven
/// bytes whose padding bits are clear.
pub proof fn lemma_encode_decode(bytes: Seq<u8>)
    requires
        canonical(bytes),
    ensures
        wire(parse(bytes)) == bytes,
{
    lemma_mask_keeps(bytes[1]);
    lemma_mask_keeps(bytes[8]);
    assert(wire(parse(bytes)) =~= bytes);
}

/// Decoding what was encoded gives the report back, for every valid report.
pub proof fn lemma_decode_encode(r: Report)
    requires
        valid(r),
    ensures
        canonical(wire(r)),
        parse(wire(r)) == r,
{
    lemma_mask_keeps(r.leds);
    lemma_mask_keeps(r.buttons);
    assert(wire(r).subrange(2, 8) =~= r.keys);
}

/// Every mutation leaves a valid report valid.
pub proof fn lemma_apply_valid(r: Report, m: Mutation)
    requires
        valid(r),
    ensures
        valid(apply(r, m)),
{
    match m {
        Mutation::PointerDown(mask) => {
            let b = r.buttons;
            assert(b <= 0x07 ==> (b | (mask & 0x07)) <= 0x07) by (bit_vector);
        },
        Mutation::PointerUp(mask) => {
            let b = r.buttons;
            assert((b & !mask) <= b) by (bit_vector);
        },
        Mutation::KeyDown(_) => {
            lemma_first_free(r.keys, 0);
        },
        _ => {},
    }
}

/// Pressing distinct keys one after another, with room for all of them,
/// fills the slots from the front in the order of the presses.
pub proof fn lemma_press_fills(r: Report, held: Seq<u8>, downs: Seq<u8>)
    requires
        r.keys == filled(held),
        distinct_keys(held + downs),
        held.len() + downs.len() <= 6,
    ensures
        apply_all(r, key_downs(downs)) == (Report { keys: filled(held + downs), ..r }),
    decreases downs.len(),
{
    if downs.len() == 0 {
        assert(held + downs =~= held);
    } else {
        let k = downs[0];
        let all = held + downs;
        assert(all[held.len() as int] == k);
        assert(k != 0);
        assert(!r.keys.contains(k)) by {
            if r.keys.contains(k) {
                let i = choose|i: int| 0 <= i < r.keys.len() && r.keys[i] == k;
                assert(all[i] == k);
            }
        }
        lemma_first_free(r.keys, 0);
        let f = first_free(r.keys);
        assert(r.keys[held.len() as int] == 0);
        assert(f == held.len()) by {
            if f < held.len() {
                assert(all[f] == 0);
            }
        }
        let next = apply(r, key_downs(downs)[0]);
        assert(next.keys =~= filled(held.push(k)));
        assert(held.push(k) + downs.drop_first() =~= all);
        assert(key_downs(downs).drop_first() =~= key_downs(downs.drop_first()));
        lemma_press_fills(next, held.push(k), downs.drop_first());
    }
}

/// Releasing keys one after another empties exactly the slots that hold one
/// of them.
pub proof fn lemma_release_clears(r: Report, ups: Seq<u8>)
    ensures
        apply_all(r, key_ups(ups)) == (Report {
            keys: Seq::new(
                r.keys.len(),
                |i: int| if ups.contains(r.keys[i]) { 0u8 } else { r.keys[i] },
            ),
            ..r
        }),
    decreases ups.len(),
{
    let want = Seq::new(
        r.keys.len(),
        |i: int| if ups.contains(r.keys[i]) { 0u8 } else { r.keys[i] },
    );
    if ups.len() == 0 {
        assert(want =~= r.keys);
    } else {
        let u = ups[0];
        let rest_ups = ups.drop_first();
        let next = apply(r, key_ups(ups)[0]);
        assert(key_ups(ups).drop_first() =~= key_ups(rest_ups));
        lemma_release_clears(next, rest_ups);
        let got = apply_all(next, key_ups(rest_ups)).keys;
        assert forall|i: int| 0 <= i < r.keys.len() implies got[i] == want[i] by {
            let s = r.keys[i];
            if s == u {
                assert(ups.contains(s));
            } else {
                if rest_ups.contains(s) {
                    let j = choose|j: int| 0 <= j < rest_ups.len() && rest_ups[j] == s;
                    assert(ups[j + 1] == s);
                }
                if ups.contains(s) {
                    let j = choose|j: int| 0 <= j < ups.len() && ups[j] == s;
                    assert(rest_ups[j - 1] == s);
                }
            }
        }
        assert(got =~= want);
    }
}

/// Pressing up to six distinct keys on a report with no key down and then
/// releasing every one of them, in any order, leaves no key down and the
/// rest of the report as it was.
pub proof fn lemma_press_release_rest(r: Report, downs: Seq<u8>, ups: Seq<u8>)
    requires
        r.keys == no_keys(),
        distinct_keys(downs),
        downs.len() <= 6,
        forall|i: int| 0 <= i < downs.len() ==> ups.contains(downs[i]),
    ensures
        apply_all(apply_all(r, key_downs(downs)), key_ups(ups)) == r,
{
    let none = Seq::<u8>::empty();
    assert(filled(none) =~= no_keys());
    assert(none + downs =~= downs);
    lemma_press_fills(r, none, downs);
    let mid = apply_all(r, key_downs(downs));
    lemma_release_clears(mid, ups);
    assert(apply_all(mid, key_ups(ups)).keys =~= no_keys());
}

} // verus!
