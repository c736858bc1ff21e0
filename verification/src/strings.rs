//! Fixed-capacity text messages.
//!
//! Text travels between tasks as an `arrayvec::ArrayString` of 32 bytes, so a
//! queued message never needs the heap.  The string type itself comes from
//! `arrayvec`; this module states what the library relies on.

use arrayvec::ArrayString;
use vstd::prelude::*;
use vstd::string::StringExecFns;
use vstd::string::StringSliceAdditionalSpecFns;
use vstd::utf8::encode_utf8;

verus! {

/// Capacity, in bytes of UTF-8, of one text message.
pub const TEXT_CAPACITY: usize = 32;

/// One text message: an `ArrayString` over 32 bytes.  The verifier does not
/// look inside; `fixed_text` names the characters it holds.
#[verifier::external_body]
pub struct FixedText {
    inner: ArrayString<[u8; 32]>,
}

/// The characters held by a message.
pub uninterp spec fn fixed_text(s: FixedText) -> Seq<char>;

/// `ArrayString::new`: a message that holds no characters.
#[verifier::external_body]
fn fixed_new() -> (buf: FixedText)
    ensures
        fixed_text(buf) == Seq::<char>::empty(),
{
    FixedText { inner: ArrayString::new() }
}

/// `ArrayString::try_push_str`: appends `s` when its UTF-8 bytes fit in the
/// room that is left, and otherwise leaves the message as it was.  The result
/// tells which of the two happened.
#[verifier::external_body]
fn fixed_try_push_str(buf: &mut FixedText, s: &str) -> (fits: bool)
    ensures
        fits == (s.spec_bytes().len() <= 32 - encode_utf8(fixed_text(*old(buf))).len()),
        fits ==> fixed_text(*final(buf)) == fixed_text(*old(buf)) + s@,
        !fits ==> fixed_text(*final(buf)) == fixed_text(*old(buf)),
{
    buf.inner.try_push_str(s).is_ok()
}

/// `ArrayString::as_str`: the message as a string slice.
#[verifier::external_body]
pub(crate) fn fixed_as_str(buf: &FixedText) -> (s: &str)
    ensures
        s@ == fixed_text(*buf),
{
    buf.inner.as_str()
}

/// The text of a message, as an owned string.
pub fn fixed_text_of(buf: &FixedText) -> (s: String)
    ensures
        s@ == fixed_text(*buf),
{
    String::from_str(fixed_as_str(buf))
}

/// Copies `s` into a fresh fixed-capacity message.
pub fn str_to_fixed(s: &str) -> (buf: FixedText)
    requires
        s.spec_bytes().len() <= TEXT_CAPACITY,
    ensures
        fixed_text(buf) == s@,
{
    let mut buf = fixed_new();
    let fits = fixed_try_push_str(&mut buf, s);
    assert(fits);
    assert(Seq::<char>::empty() + s@ =~= s@);
    buf
}

} // verus!
