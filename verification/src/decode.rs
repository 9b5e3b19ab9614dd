//! Percent-decoding of header values.
//!
//! Header values arrive percent-encoded on the wire (`%20` for a space and so
//! on). The decoding itself is done by the `urldecode` crate; this module
//! gives it an exact specification ([`pdecode`]), guards it with a verified
//! well-formedness check ([`can_decode`]), and exposes a total decoding
//! function ([`decode_value`]) that leaves a value unchanged when it is not
//! safe to hand to the decoder.

use vstd::prelude::*;
use vstd::utf8::is_ascii_chars;

verus! {

/// The hexadecimal digit characters accepted inside a percent escape.
pub open spec fn is_hex_digit(c: char) -> bool {
    (48 <= c as u32 && c as u32 <= 57)  // '0'..='9'
    || (97 <= c as u32 && c as u32 <= 102)  // 'a'..='f'
    || (65 <= c as u32 && c as u32 <= 70)  // 'A'..='F'
}

/// Numeric value of a hexadecimal digit character.
pub open spec fn hex_val(c: char) -> u8
    recommends
        is_hex_digit(c),
{
    if 48 <= c as u32 && c as u32 <= 57 {
        (c as u32 - 48) as u8
    } else if 97 <= c as u32 && c as u32 <= 102 {
        (c as u32 - 87) as u8
    } else {
        (c as u32 - 55) as u8
    }
}

/// Every `%` starts a complete escape: two hexadecimal digits follow it.
/// The scan steps over the two digits of an escape, so a `%` inside the hex
/// part of an earlier escape does not itself start one.
pub open spec fn wf_escapes(s: Seq<char>) -> bool
    decreases s.len(),
{
    if s.len() == 0 {
        true
    } else if s[0] == '%' {
        s.len() >= 3 && is_hex_digit(s[1]) && is_hex_digit(s[2]) && wf_escapes(s.skip(3))
    } else {
        wf_escapes(s.skip(1))
    }
}

/// Percent-decoding of a well-formed value: each `%XY` escape becomes the
/// character with code `0xXY`; every other character is copied unchanged.
pub open spec fn pdecode(s: Seq<char>) -> Seq<char>
    decreases s.len(),
{
    if s.len() == 0 {
        Seq::empty()
    } else if s[0] == '%' && s.len() >= 3 && is_hex_digit(s[1]) && is_hex_digit(s[2]) {
        seq![(((hex_val(s[1]) as u32) * 16 + (hex_val(s[2]) as u32)) as u8) as char]
            + pdecode(s.skip(3))
    } else {
        seq![s[0]] + pdecode(s.skip(1))
    }
}

/// What parsing stores for a raw header value: the percent-decoded text when
/// the value is ASCII with well-formed escapes, the value itself otherwise.
pub open spec fn decode_header_value(s: Seq<char>) -> Seq<char> {
    if is_ascii_chars(s) && wf_escapes(s) {
        pdecode(s)
    } else {
        s
    }
}

/// True when `c` is one of the hexadecimal digit characters.
fn hex_digit_exec(c: char) -> (r: bool)
    ensures
        r == is_hex_digit(c),
{
    let u = c as u32;
    (48 <= u && u <= 57) || (97 <= u && u <= 102) || (65 <= u && u <= 70)
}

/// Checks that `s` is ASCII and every `%` starts a complete two-digit escape,
/// i.e. that `s` may be handed to the percent decoder.
pub fn can_decode(s: &str) -> (r: bool)
    ensures
        r == (is_ascii_chars(s@) && wf_escapes(s@)),
{
    let n = s.unicode_len();
    let mut i: usize = 0;
    while i < n
        invariant
            i <= n,
            n == s@.len(),
            forall|j: int| 0 <= j < i ==> '\0' <= #[trigger] s@[j] <= '\u{7f}',
        decreases n - i,
    {
        let c = s.get_char(i);
        if c as u32 > 127 {
            return false;
        }
        assert('\0' <= c <= '\u{7f}');
        i = i + 1;
    }
    assert(is_ascii_chars(s@));
    let mut k: usize = 0;
    assert(s@.skip(0) =~= s@);
    while k < n
        invariant
            k <= n,
            n == s@.len(),
            wf_escapes(s@) == wf_escapes(s@.skip(k as int)),
        decreases n - k,
    {
        let ghost pre = s@.skip(k as int);
        assert(pre[0] == s@[k as int]);
        if s.get_char(k) == '%' {
            if n - k < 3 {
                assert(pre.len() < 3);
                assert(!wf_escapes(pre));
                return false;
            }
            let d1 = s.get_char(k + 1);
            let d2 = s.get_char(k + 2);
            assert(pre[1] == s@[k + 1]);
            assert(pre[2] == s@[k + 2]);
            if !(hex_digit_exec(d1) && hex_digit_exec(d2)) {
                assert(!wf_escapes(pre));
                return false;
            }
            assert(pre.skip(3) =~= s@.skip(k + 3));
            k = k + 3;
        } else {
            assert(pre.skip(1) =~= s@.skip(k + 1));
            k = k + 1;
        }
    }
    assert(s@.skip(n as int) =~= Seq::<char>::empty());
    true
}

/// Relies on `urldecode::decode`: for an ASCII input in which every `%` is
/// followed by two hexadecimal digits, it replaces each `%XY` escape by the
/// character with code `0xXY` and copies every other character. On any other
/// input it may panic, so such inputs are excluded here and filtered out by
/// [`can_decode`] before the call.
#[verifier::external_body]
fn urldecode_exec(s: &String) -> (r: String)
    requires
        is_ascii_chars(s@),
        wf_escapes(s@),
    ensures
        r@ == pdecode(s@),
{
    urldecode::decode(s.clone())
}

/// Percent-decodes a header value when it is safe to do so, and returns the
/// value unchanged otherwise.
pub fn decode_value(s: String) -> (r: String)
    ensures
        r@ == decode_header_value(s@),
{
    if can_decode(s.as_str()) {
        urldecode_exec(&s)
    } else {
        s
    }
}

} // verus!
