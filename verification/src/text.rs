//! Character-level helpers: UTF-8 decoding of raw input, conversions between
//! `String` and character vectors, and the UTF-16 code-unit order that RFC 8785
//! uses to sort object member names.

use vstd::prelude::*;
use vstd::utf8::*;

verus! {

broadcast use vstd::utf8::group_utf8_lib;

/// The characters of `s`, in order.
pub fn chars_of(s: &str) -> (r: Vec<char>)
    ensures
        r@ == s@,
{
    broadcast use vstd::string::axiom_spec_iter;

    let mut out: Vec<char> = Vec::new();
    for c in it: s.chars()
        invariant
            it.seq() == s@,
            out@ == it.seq().take(it.index() as int),
    {
        out.push(c);
    }
    out
}

/// A `String` holding exactly the characters `cs`.
///
/// Trusted: wraps `String`'s `FromIterator<&char>`; std documents that collecting
/// characters into a `String` appends them in order.
#[verifier::external_body]
pub fn string_from_chars(cs: &[char]) -> (r: String)
    ensures
        r@ == cs@,
{
    cs.iter().collect()
}

/// The `char` whose scalar value is `v`, or `None` when `v` is not a Unicode
/// scalar value.
///
/// Trusted: wraps `char::from_u32`, which std documents to return `None` exactly
/// for surrogates and values above `0x10FFFF`.
#[verifier::external_body]
pub fn char_from_u32(v: u32) -> (r: Option<char>)
    ensures
        r is Some <==> is_scalar(v),
        r matches Some(c) ==> c as u32 == v,
{
    char::from_u32(v)
}

/// Decode `bytes` as UTF-8: `None` exactly when the bytes are not valid UTF-8.
pub fn decode_utf8_chars(bytes: &[u8]) -> (r: Option<Vec<char>>)
    ensures
        r is Some <==> valid_utf8(bytes@),
        r matches Some(cs) ==> cs@ == decode_utf8(bytes@),
{
    let n = bytes.len();
    let mut out: Vec<char> = Vec::new();
    let mut i: usize = 0;
    assert(bytes@.subrange(0, n as int) =~= bytes@);
    while i < n
        invariant
            i <= n,
            n == bytes@.len(),
            valid_utf8(bytes@) <==> valid_utf8(bytes@.subrange(i as int, n as int)),
            valid_utf8(bytes@) ==> decode_utf8(bytes@) == out@ + decode_utf8(
                bytes@.subrange(i as int, n as int),
            ),
        decreases n - i,
    {
        let ghost rest = bytes@.subrange(i as int, n as int);
        let b0 = bytes[i];
        let mut cp: u32 = 0;
        let mut len: usize = 0;
        if b0 <= 0x7f {
            cp = (b0 & 0x7F) as u32;
            assert((b0 & 0x7F) as u32 <= 0x7f) by (bit_vector);
            len = 1;
        } else if 0xc0 <= b0 && b0 <= 0xdf {
            if n - i > 1 && 0x80 <= bytes[i + 1] && bytes[i + 1] <= 0xbf {
                let b1 = bytes[i + 1];
                cp = (((b0 & 0x1F) as u32) << 6) | ((b1 & 0x3f) as u32);
                assert((((b0 & 0x1F) as u32) << 6) | ((b1 & 0x3f) as u32) <= 0x7ff)
                    by (bit_vector);
                if 0x80 <= cp {
                    len = 2;
                }
            }
        } else if 0xe0 <= b0 && b0 <= 0xef {
            if n - i > 2 && 0x80 <= bytes[i + 1] && bytes[i + 1] <= 0xbf && 0x80 <= bytes[i + 2]
                && bytes[i + 2] <= 0xbf {
                let b1 = bytes[i + 1];
                let b2 = bytes[i + 2];
                cp = (((b0 & 0x0F) as u32) << 12) | (((b1 & 0x3f) as u32) << 6) | ((b2
                    & 0x3f) as u32);
                assert((((b0 & 0x0F) as u32) << 12) | (((b1 & 0x3f) as u32) << 6) | ((b2
                    & 0x3f) as u32) <= 0xffff) by (bit_vector);
                if 0x800 <= cp && !(0xD800 <= cp && cp <= 0xDFFF) {
                    len = 3;
                }
            }
        } else if 0xf0 <= b0 && b0 <= 0xf7 {
            if n - i > 3 && 0x80 <= bytes[i + 1] && bytes[i + 1] <= 0xbf && 0x80 <= bytes[i + 2]
                && bytes[i + 2] <= 0xbf && 0x80 <= bytes[i + 3] && bytes[i + 3] <= 0xbf {
                let b1 = bytes[i + 1];
                let b2 = bytes[i + 2];
                let b3 = bytes[i + 3];
                cp = (((b0 & 0x07) as u32) << 18) | (((b1 & 0x3f) as u32) << 12) | (((b2
                    & 0x3f) as u32) << 6) | ((b3 & 0x3f) as u32);
                if 0x10000 <= cp && cp <= 0x10ffff {
                    len = 4;
                }
            }
        }
        if len == 0 {
            assert(!valid_first_scalar(rest));
            return None;
        }
        assert(valid_first_scalar(rest));
        assert(decode_first_scalar(rest) == cp);
        assert(length_of_first_scalar(rest) == len);
        assert(is_scalar(cp));
        let c = match char_from_u32(cp) {
            Some(c) => c,
            None => { return None; },
        };
        assert(pop_first_scalar(rest) =~= bytes@.subrange((i + len) as int, n as int));
        proof { char_u32_cast(c, cp); }
        out.push(c);
        i = i + len;
    }
    assert(decode_utf8(bytes@.subrange(n as int, n as int)) =~= Seq::<char>::empty());
    assert(out@ + Seq::<char>::empty() =~= out@);
    Some(out)
}

/// Whether `s` holds exactly the characters `expected`.
pub fn same_chars(s: &str, expected: &[char]) -> (r: bool)
    ensures
        r == (s@ == expected@),
{
    let cs = chars_of(s);
    if cs.len() != expected.len() {
        return false;
    }
    let mut i: usize = 0;
    while i < cs.len()
        invariant
            i <= cs@.len(),
            cs@ == s@,
            cs@.len() == expected@.len(),
            forall|j: int| 0 <= j < i ==> cs@[j] == expected@[j],
        decreases cs@.len() - i,
    {
        if cs[i] != expected[i] {
            return false;
        }
        i = i + 1;
    }
    assert(cs@ =~= expected@);
    true
}

} // verus!
