//! The fixed-capacity strings of `heapless` that the library fills.
//!
//! `heapless::String<N>` keeps its contents as UTF-8 bytes in a buffer of `N` bytes.
//! Each capacity used here has a name for the characters that a string holds,
//! and a wrapper for each method that the library calls.
use vstd::prelude::*;
use vstd::utf8::encode_utf8;
use vstd::string::StringSliceAdditionalSpecFns;

verus! {

#[verifier::external_type_specification]
#[verifier::external_body]
pub struct ExHeaplessString<const N: usize>(heapless::String<N>);

/// The characters that a `heapless::String<40>` holds.
pub uninterp spec fn hex_text(s: heapless::String<40>) -> Seq<char>;

/// The characters that a `heapless::String<28>` holds.
pub uninterp spec fn base64_text(s: heapless::String<28>) -> Seq<char>;

/// The characters that a `heapless::String<64>` holds.
pub uninterp spec fn key_text(s: heapless::String<64>) -> Seq<char>;

/// The characters that a `heapless::String<142>` holds.
pub uninterp spec fn response_text(s: heapless::String<142>) -> Seq<char>;

/// The characters that a `heapless::String<1024>` holds.
pub uninterp spec fn buffer_text(s: heapless::String<1024>) -> Seq<char>;

/// `heapless::String::<40>::new`: an empty string.
#[verifier::external_body]
pub(crate) fn hex_text_new() -> (s: heapless::String<40>)
    ensures
        hex_text(s) == Seq::<char>::empty(),
{
    heapless::String::new()
}

/// `heapless::String::<40>::push`: appends `c` when its UTF-8 encoding fits in the
/// 40 bytes beside those already held, and otherwise returns `Err` and leaves the
/// string as it was.
#[verifier::external_body]
pub(crate) fn hex_text_push(s: &mut heapless::String<40>, c: char) -> (r: Result<(), ()>)
    ensures
        r is Ok <==> encode_utf8(hex_text(*old(s))).len() + encode_utf8(seq![c]).len() <= 40,
        r is Ok ==> hex_text(*final(s)) == hex_text(*old(s)).push(c),
        r is Err ==> hex_text(*final(s)) == hex_text(*old(s)),
{
    s.push(c)
}

/// `heapless::String::<40>::as_str`: the string slice of the characters held.
#[verifier::external_body]
pub(crate) fn hex_text_as_str(s: &heapless::String<40>) -> (r: &str)
    ensures
        r@ == hex_text(*s),
{
    s.as_str()
}

/// `heapless::String::<28>::new`: an empty string.
#[verifier::external_body]
pub(crate) fn base64_text_new() -> (s: heapless::String<28>)
    ensures
        base64_text(s) == Seq::<char>::empty(),
{
    heapless::String::new()
}

/// `heapless::String::<28>::push`: appends `c` when its UTF-8 encoding fits in the
/// 28 bytes beside those already held, and otherwise returns `Err` and leaves the
/// string as it was.
#[verifier::external_body]
pub(crate) fn base64_text_push(s: &mut heapless::String<28>, c: char) -> (r: Result<(), ()>)
    ensures
        r is Ok <==> encode_utf8(base64_text(*old(s))).len() + encode_utf8(seq![c]).len() <= 28,
        r is Ok ==> base64_text(*final(s)) == base64_text(*old(s)).push(c),
        r is Err ==> base64_text(*final(s)) == base64_text(*old(s)),
{
    s.push(c)
}

/// `<heapless::String<28> as Deref>::deref`: the string slice of the characters held.
#[verifier::external_body]
pub(crate) fn base64_text_as_str(s: &heapless::String<28>) -> (r: &str)
    ensures
        r@ == base64_text(*s),
{
    s
}

/// `heapless::String::<64>::new`: an empty string.
#[verifier::external_body]
pub(crate) fn key_text_new() -> (s: heapless::String<64>)
    ensures
        key_text(s) == Seq::<char>::empty(),
{
    heapless::String::new()
}

/// `heapless::String::<64>::push_str`: appends `t` when its UTF-8 bytes fit in the 64
/// bytes beside those already held, and otherwise returns `Err` and leaves the string
/// as it was.
#[verifier::external_body]
pub(crate) fn key_text_push_str(s: &mut heapless::String<64>, t: &str) -> (r: Result<(), ()>)
    ensures
        r is Ok <==> encode_utf8(key_text(*old(s))).len() + t.spec_bytes().len() <= 64,
        r is Ok ==> key_text(*final(s)) == key_text(*old(s)) + t@,
        r is Err ==> key_text(*final(s)) == key_text(*old(s)),
{
    s.push_str(t)
}

/// `str::as_bytes` on a `heapless::String<64>`: the UTF-8 bytes of the characters held.
#[verifier::external_body]
pub(crate) fn key_text_as_bytes(s: &heapless::String<64>) -> (r: &[u8])
    ensures
        r@ == encode_utf8(key_text(*s)),
{
    s.as_bytes()
}

/// `heapless::String::<142>::new`: an empty string.
#[verifier::external_body]
pub(crate) fn response_text_new() -> (s: heapless::String<142>)
    ensures
        response_text(s) == Seq::<char>::empty(),
{
    heapless::String::new()
}

/// `heapless::String::<142>::push_str`: appends `t` when its UTF-8 bytes fit in the 142
/// bytes beside those already held, and otherwise returns `Err` and leaves the string
/// as it was.
#[verifier::external_body]
pub(crate) fn response_text_push_str(s: &mut heapless::String<142>, t: &str) -> (r: Result<(), ()>)
    ensures
        r is Ok <==> encode_utf8(response_text(*old(s))).len() + t.spec_bytes().len() <= 142,
        r is Ok ==> response_text(*final(s)) == response_text(*old(s)) + t@,
        r is Err ==> response_text(*final(s)) == response_text(*old(s)),
{
    s.push_str(t)
}

/// `heapless::String::<1024>::new`: an empty string.
#[verifier::external_body]
pub(crate) fn buffer_text_new() -> (s: heapless::String<1024>)
    ensures
        buffer_text(s) == Seq::<char>::empty(),
{
    heapless::String::new()
}

/// `heapless::String::<1024>::push_str`: appends `t` when its UTF-8 bytes fit in the
/// 1024 bytes beside those already held, and otherwise returns `Err` and leaves the
/// string as it was.
#[verifier::external_body]
pub(crate) fn buffer_text_push_str(s: &mut heapless::String<1024>, t: &str) -> (r: Result<(), ()>)
    ensures
        r is Ok <==> encode_utf8(buffer_text(*old(s))).len() + t.spec_bytes().len() <= 1024,
        r is Ok ==> buffer_text(*final(s)) == buffer_text(*old(s)) + t@,
        r is Err ==> buffer_text(*final(s)) == buffer_text(*old(s)),
{
    s.push_str(t)
}

/// `heapless::String::<1024>::as_str`: the string slice of the characters held.
#[verifier::external_body]
pub(crate) fn buffer_text_as_str(s: &heapless::String<1024>) -> (r: &str)
    ensures
        r@ == buffer_text(*s),
{
    s.as_str()
}

} // verus!
