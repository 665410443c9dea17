//! A fail-closed JSON parser over characters, and the grammar it implements.
//!
//! The grammar is written as spec functions over a character sequence and a
//! position; each returns the parsed value and the position just after it, or
//! `None` when the text at that position is not in the JCS domain (malformed
//! JSON, a duplicate member name, an unpaired surrogate, a raw control
//! character in a string, a number outside the finite double range, or
//! nesting deeper than [`MAX_PARSE_DEPTH`]).

use vstd::prelude::*;
use vstd::utf8::*;
use crate::IntegrityError;
use crate::canonical::{is_canon_fail, Json, JcsValue, model, model_members, model_items, canon_fail, lemma_model_members};
use crate::number::{is_digit, number_end, number_text, number_token_end, canonical_number, push_range};
use crate::text::{chars_of, string_from_chars, char_from_u32, decode_utf8_chars};

verus! {

/// Maximum container-nesting depth accepted by the parser and the serializer.
pub const MAX_PARSE_DEPTH: usize = 128;

pub open spec fn is_ws(c: char) -> bool {
    c == ' ' || c == '\t' || c == '\n' || c == '\r'
}

/// The first position at or after `i` that is not insignificant whitespace.
pub open spec fn skip_ws(s: Seq<char>, i: int) -> int
    decreases s.len() - i,
{
    if 0 <= i < s.len() && is_ws(s[i]) {
        skip_ws(s, i + 1)
    } else {
        i
    }
}

pub proof fn lemma_skip_ws(s: Seq<char>, i: int)
    requires
        0 <= i <= s.len(),
    ensures
        i <= skip_ws(s, i) <= s.len(),
        skip_ws(s, i) < s.len() ==> !is_ws(s[skip_ws(s, i)]),
    decreases s.len() - i,
{
    if i < s.len() && is_ws(s[i]) {
        lemma_skip_ws(s, i + 1);
    }
}

pub open spec fn hex_value(c: char) -> Option<u32> {
    if '0' <= c && c <= '9' {
        Some((c as u32 - '0' as u32) as u32)
    } else if 'a' <= c && c <= 'f' {
        Some((c as u32 - 'a' as u32 + 10) as u32)
    } else if 'A' <= c && c <= 'F' {
        Some((c as u32 - 'A' as u32 + 10) as u32)
    } else {
        None
    }
}

/// The value of the four hexadecimal digits at `i`.
pub open spec fn hex4_at(s: Seq<char>, i: int) -> Option<u32> {
    if 0 <= i && i + 4 <= s.len() {
        match (hex_value(s[i]), hex_value(s[i + 1]), hex_value(s[i + 2]), hex_value(s[i + 3])) {
            (Some(a), Some(b), Some(c), Some(d)) => Some(
                (((a as int * 16 + b as int) * 16 + c as int) * 16 + d as int) as u32,
            ),
            _ => None,
        }
    } else {
        None
    }
}

/// The character written by the `\uXXXX` escape whose hex digits start at `i`
/// (a high surrogate must be followed by a `\uXXXX` low surrogate; a lone low
/// surrogate is rejected), and the position after it.
pub open spec fn unicode_escape_at(s: Seq<char>, i: int) -> Option<(char, int)> {
    match hex4_at(s, i) {
        None => None,
        Some(first) => if 0xD800 <= first && first <= 0xDBFF {
            if i + 6 <= s.len() && s[i + 4] == '\\' && s[i + 5] == 'u' {
                match hex4_at(s, i + 6) {
                    None => None,
                    Some(second) => if 0xDC00 <= second && second <= 0xDFFF {
                        Some(
                            (
                                (0x10000 + (first - 0xD800) * 1024 + (second - 0xDC00)) as u32 as char,
                                i + 10,
                            ),
                        )
                    } else {
                        None
                    },
                }
            } else {
                None
            }
        } else if 0xDC00 <= first && first <= 0xDFFF {
            None
        } else {
            Some((first as char, i + 4))
        },
    }
}

/// The character written by the escape sequence whose letter is at `i`
/// (just after the backslash), and the position after the escape.
pub open spec fn escape_at(s: Seq<char>, i: int) -> Option<(char, int)> {
    if !(0 <= i < s.len()) {
        None
    } else {
        let e = s[i];
        if e == '"' {
            Some(('"', i + 1))
        } else if e == '\\' {
            Some(('\\', i + 1))
        } else if e == '/' {
            Some(('/', i + 1))
        } else if e == 'b' {
            Some(('\u{0008}', i + 1))
        } else if e == 'f' {
            Some(('\u{000C}', i + 1))
        } else if e == 'n' {
            Some(('\n', i + 1))
        } else if e == 'r' {
            Some(('\r', i + 1))
        } else if e == 't' {
            Some(('\t', i + 1))
        } else if e == 'u' {
            unicode_escape_at(s, i + 1)
        } else {
            None
        }
    }
}

/// The rest of a string literal from `i` (after the opening quote) through the
/// closing quote: its characters and the position after the closing quote.
pub open spec fn string_body_at(s: Seq<char>, i: int) -> Option<(Seq<char>, int)>
    decreases s.len() - i,
{
    if !(0 <= i < s.len()) {
        None
    } else if s[i] == '"' {
        Some((Seq::empty(), i + 1))
    } else if s[i] == '\\' {
        match escape_at(s, i + 1) {
            None => None,
            Some((c, j)) => if i < j <= s.len() {
                match string_body_at(s, j) {
                    Some((rest, e)) => Some((seq![c] + rest, e)),
                    None => None,
                }
            } else {
                None
            },
        }
    } else if s[i] as u32 <= 0x1F {
        None
    } else {
        match string_body_at(s, i + 1) {
            Some((rest, e)) => Some((seq![s[i]] + rest, e)),
            None => None,
        }
    }
}

/// The string literal at `i`.
pub open spec fn string_at(s: Seq<char>, i: int) -> Option<(Seq<char>, int)> {
    if 0 <= i < s.len() && s[i] == '"' {
        string_body_at(s, i + 1)
    } else {
        None
    }
}

pub open spec fn has_duplicate_keys(ms: Seq<(Seq<char>, Json)>) -> bool {
    exists|a: int, b: int| 0 <= a < b < ms.len() && #[trigger] ms[a].0 == #[trigger] ms[b].0
}

/// The JSON value at `i`, parsed at container depth `depth`.
pub open spec fn value_at(s: Seq<char>, i: int, depth: nat) -> Option<(Json, int)>
    decreases s.len() - i, 3int,
{
    if !(0 <= i < s.len()) {
        None
    } else {
        let c = s[i];
        if c == '{' {
            if depth >= MAX_PARSE_DEPTH {
                None
            } else {
                object_at(s, i, depth + 1)
            }
        } else if c == '[' {
            if depth >= MAX_PARSE_DEPTH {
                None
            } else {
                array_at(s, i, depth + 1)
            }
        } else if c == '"' {
            match string_at(s, i) {
                Some((t, j)) => Some((Json::Str(t), j)),
                None => None,
            }
        } else if c == 't' {
            if i + 4 <= s.len() && s[i + 1] == 'r' && s[i + 2] == 'u' && s[i + 3] == 'e' {
                Some((Json::Bool(true), i + 4))
            } else {
                None
            }
        } else if c == 'f' {
            if i + 5 <= s.len() && s[i + 1] == 'a' && s[i + 2] == 'l' && s[i + 3] == 's' && s[i
                + 4] == 'e' {
                Some((Json::Bool(false), i + 5))
            } else {
                None
            }
        } else if c == 'n' {
            if i + 4 <= s.len() && s[i + 1] == 'u' && s[i + 2] == 'l' && s[i + 3] == 'l' {
                Some((Json::Null, i + 4))
            } else {
                None
            }
        } else if c == '-' || is_digit(c) {
            number_at(s, i)
        } else {
            None
        }
    }
}

/// The number literal at `i` with the position after it: `None` when no number
/// literal starts there (a leading `+` included) or when it lies outside the
/// finite double domain.
pub open spec fn number_at(s: Seq<char>, i: int) -> Option<(Json, int)> {
    match number_end(s, i) {
        Some(j) => if number_text(s.subrange(i, j)) is Some {
            Some((Json::Number(s.subrange(i, j)), j))
        } else {
            None
        },
        None => None,
    }
}

/// The object whose `{` is at `i`; its members are parsed at `depth`.
pub open spec fn object_at(s: Seq<char>, i: int, depth: nat) -> Option<(Json, int)>
    decreases s.len() - i, 2int,
{
    if !(0 <= i < s.len()) {
        None
    } else {
        proof {
            lemma_skip_ws(s, i + 1);
        }
        let j = skip_ws(s, i + 1);
        if j < s.len() && s[j] == '}' {
            Some((Json::Object(Seq::empty()), j + 1))
        } else {
            match members_at(s, j, depth) {
                Some((ms, e)) => if has_duplicate_keys(ms) {
                    None
                } else {
                    Some((Json::Object(ms), e))
                },
                None => None,
            }
        }
    }
}

/// The members of an object from `i` through its closing `}`.
pub open spec fn members_at(s: Seq<char>, i: int, depth: nat) -> Option<
    (Seq<(Seq<char>, Json)>, int),
>
    decreases s.len() - i, 4int,
{
    if !(0 <= i <= s.len()) {
        None
    } else {
        proof {
            lemma_skip_ws(s, i);
        }
        let j = skip_ws(s, i);
        match string_at(s, j) {
            None => None,
            Some((key, k)) => if !(j < k <= s.len()) {
                None
            } else {
                proof {
                    lemma_skip_ws(s, k);
                }
                let k1 = skip_ws(s, k);
                if !(k1 < s.len() && s[k1] == ':') {
                    None
                } else {
                    proof {
                        lemma_skip_ws(s, k1 + 1);
                    }
                    let k2 = skip_ws(s, k1 + 1);
                    match value_at(s, k2, depth) {
                        None => None,
                        Some((v, m)) => if !(k2 < m <= s.len()) {
                            None
                        } else {
                            proof {
                                lemma_skip_ws(s, m);
                            }
                            let m1 = skip_ws(s, m);
                            if m1 < s.len() && s[m1] == ',' {
                                match members_at(s, m1 + 1, depth) {
                                    Some((rest, e)) => Some((seq![(key, v)] + rest, e)),
                                    None => None,
                                }
                            } else if m1 < s.len() && s[m1] == '}' {
                                Some((seq![(key, v)], m1 + 1))
                            } else {
                                None
                            }
                        },
                    }
                }
            },
        }
    }
}

/// The array whose `[` is at `i`; its items are parsed at `depth`.
pub open spec fn array_at(s: Seq<char>, i: int, depth: nat) -> Option<(Json, int)>
    decreases s.len() - i, 2int,
{
    if !(0 <= i < s.len()) {
        None
    } else {
        proof {
            lemma_skip_ws(s, i + 1);
        }
        let j = skip_ws(s, i + 1);
        if j < s.len() && s[j] == ']' {
            Some((Json::Array(Seq::empty()), j + 1))
        } else {
            match items_at(s, j, depth) {
                Some((vs, e)) => Some((Json::Array(vs), e)),
                None => None,
            }
        }
    }
}

/// The items of an array from `i` through its closing `]`.
pub open spec fn items_at(s: Seq<char>, i: int, depth: nat) -> Option<(Seq<Json>, int)>
    decreases s.len() - i, 4int,
{
    if !(0 <= i <= s.len()) {
        None
    } else {
        proof {
            lemma_skip_ws(s, i);
        }
        let j = skip_ws(s, i);
        match value_at(s, j, depth) {
            None => None,
            Some((v, m)) => if !(j < m <= s.len()) {
                None
            } else {
                proof {
                    lemma_skip_ws(s, m);
                }
                let m1 = skip_ws(s, m);
                if m1 < s.len() && s[m1] == ',' {
                    match items_at(s, m1 + 1, depth) {
                        Some((rest, e)) => Some((seq![v] + rest, e)),
                        None => None,
                    }
                } else if m1 < s.len() && s[m1] == ']' {
                    Some((seq![v], m1 + 1))
                } else {
                    None
                }
            },
        }
    }
}

/// The JSON text `s`: one value surrounded by optional whitespace.
pub open spec fn document(s: Seq<char>) -> Option<Json> {
    match value_at(s, skip_ws(s, 0), 0) {
        Some((v, j)) => if skip_ws(s, j) == s.len() {
            Some(v)
        } else {
            None
        },
        None => None,
    }
}

/// The JSON value encoded in the bytes `input`, when they are valid UTF-8 and a
/// JSON text in the JCS domain.
pub open spec fn parse_spec(input: Seq<u8>) -> Option<Json> {
    if valid_utf8(input) {
        document(decode_utf8(input))
    } else {
        None
    }
}

/// A character-level JSON parser over already-validated characters.
pub struct Parser {
    chars: Vec<char>,
    pos: usize,
    depth: usize,
}

impl Parser {
    pub closed spec fn text(&self) -> Seq<char> {
        self.chars@
    }

    pub closed spec fn position(&self) -> int {
        self.pos as int
    }

    fn new(chars: Vec<char>) -> (p: Parser)
        ensures
            p.chars@ == chars@,
            p.pos == 0,
            p.depth == 0,
    {
        Parser { chars, pos: 0, depth: 0 }
    }

    fn at_end(&self) -> (r: bool)
        ensures
            r == (self.pos >= self.chars.len()),
    {
        self.pos >= self.chars.len()
    }

    fn peek(&self) -> (r: Option<char>)
        ensures
            r == (if self.pos < self.chars.len() {
                Some(self.chars@[self.pos as int])
            } else {
                None
            }),
    {
        if self.pos < self.chars.len() {
            Some(self.chars[self.pos])
        } else {
            None
        }
    }

    fn bump(&mut self) -> (r: Option<char>)
        requires
            old(self).pos <= old(self).chars.len(),
        ensures
            final(self).chars@ == old(self).chars@,
            final(self).depth == old(self).depth,
            old(self).pos < old(self).chars.len() ==> r == Some(
                old(self).chars@[old(self).pos as int],
            ) && final(self).pos == old(self).pos + 1,
            old(self).pos >= old(self).chars.len() ==> r is None && final(self).pos == old(
                self,
            ).pos,
    {
        if self.pos < self.chars.len() {
            let c = self.chars[self.pos];
            self.pos = self.pos + 1;
            Some(c)
        } else {
            None
        }
    }

    fn skip_ws(&mut self)
        requires
            old(self).pos <= old(self).chars.len(),
        ensures
            final(self).chars@ == old(self).chars@,
            final(self).depth == old(self).depth,
            final(self).pos == skip_ws(old(self).chars@, old(self).pos as int),
            old(self).pos <= final(self).pos <= final(self).chars.len(),
    {
        proof {
            lemma_skip_ws(self.chars@, self.pos as int);
        }
        while self.pos < self.chars.len() && (self.chars[self.pos] == ' ' || self.chars[self.pos]
            == '\t' || self.chars[self.pos] == '\n' || self.chars[self.pos] == '\r')
            invariant
                self.chars@ == old(self).chars@,
                self.depth == old(self).depth,
                old(self).pos <= self.pos <= self.chars.len(),
                skip_ws(self.chars@, self.pos as int) == skip_ws(
                    old(self).chars@,
                    old(self).pos as int,
                ),
            decreases self.chars.len() - self.pos,
        {
            self.pos = self.pos + 1;
        }
    }

    /// Consume `expected`, or fail closed.
    fn expect(&mut self, expected: char) -> (r: Result<(), IntegrityError>)
        requires
            old(self).pos <= old(self).chars.len(),
        ensures
            final(self).chars@ == old(self).chars@,
            final(self).depth == old(self).depth,
            final(self).pos <= final(self).chars.len(),
            match r {
                Ok(_) => old(self).pos < old(self).chars.len() && old(self).chars@[old(
                    self,
                ).pos as int] == expected && final(self).pos == old(self).pos + 1,
                Err(e) => !(old(self).pos < old(self).chars.len() && old(self).chars@[old(
                    self,
                ).pos as int] == expected) && is_canon_fail(e),
            },
    {
        match self.bump() {
            Some(c) => {
                if c == expected {
                    Ok(())
                } else {
                    Err(canon_fail())
                }
            },
            None => Err(canon_fail()),
        }
    }

    fn read_hex4(&mut self) -> (r: Result<u32, IntegrityError>)
        requires
            old(self).pos <= old(self).chars.len(),
        ensures
            final(self).chars@ == old(self).chars@,
            final(self).depth == old(self).depth,
            final(self).pos <= final(self).chars.len(),
            match r {
                Ok(v) => hex4_at(old(self).chars@, old(self).pos as int) == Some(v)
                    && final(self).pos == old(self).pos + 4,
                Err(e) => hex4_at(old(self).chars@, old(self).pos as int) is None
                    && is_canon_fail(e),
            },
    {
        if self.chars.len() - self.pos < 4 {
            return Err(canon_fail());
        }
        let d0 = hex_digit(self.chars[self.pos]);
        let d1 = hex_digit(self.chars[self.pos + 1]);
        let d2 = hex_digit(self.chars[self.pos + 2]);
        let d3 = hex_digit(self.chars[self.pos + 3]);
        match (d0, d1, d2, d3) {
            (Some(a), Some(b), Some(c), Some(d)) => {
                self.pos = self.pos + 4;
                Ok(((a * 16 + b) * 16 + c) * 16 + d)
            },
            _ => Err(canon_fail()),
        }
    }

    fn parse_unicode_escape(&mut self) -> (r: Result<char, IntegrityError>)
        requires
            old(self).pos <= old(self).chars.len(),
        ensures
            final(self).chars@ == old(self).chars@,
            final(self).depth == old(self).depth,
            final(self).pos <= final(self).chars.len(),
            match r {
                Ok(c) => unicode_escape_at(old(self).chars@, old(self).pos as int) == Some(
                    (c, final(self).pos as int),
                ),
                Err(e) => unicode_escape_at(old(self).chars@, old(self).pos as int) is None
                    && is_canon_fail(e),
            },
    {
        let first = self.read_hex4()?;
        if 0xD800 <= first && first <= 0xDBFF {
            if self.bump() != Some('\\') {
                return Err(canon_fail());
            }
            if self.bump() != Some('u') {
                return Err(canon_fail());
            }
            let second = self.read_hex4()?;
            if !(0xDC00 <= second && second <= 0xDFFF) {
                return Err(canon_fail());
            }
            let hi: u32 = first - 0xD800;
            assert((hi << 10) == hi * 1024) by (bit_vector)
                requires
                    hi <= 0x3FF,
            ;
            let combined = 0x10000 + (hi << 10) + (second - 0xDC00);
            match char_from_u32(combined) {
                Some(c) => {
                    proof {
                        vstd::utf8::char_u32_cast(c, combined);
                    }
                    Ok(c)
                },
                None => Err(canon_fail()),
            }
        } else if 0xDC00 <= first && first <= 0xDFFF {
            Err(canon_fail())
        } else {
            match char_from_u32(first) {
                Some(c) => {
                    proof {
                        vstd::utf8::char_u32_cast(c, first);
                    }
                    Ok(c)
                },
                None => Err(canon_fail()),
            }
        }
    }

    fn parse_string(&mut self) -> (r: Result<String, IntegrityError>)
        requires
            old(self).pos <= old(self).chars.len(),
        ensures
            final(self).chars@ == old(self).chars@,
            final(self).depth == old(self).depth,
            final(self).pos <= final(self).chars.len(),
            match r {
                Ok(t) => string_at(old(self).chars@, old(self).pos as int) == Some(
                    (t@, final(self).pos as int),
                ) && old(self).pos < final(self).pos,
                Err(e) => string_at(old(self).chars@, old(self).pos as int) is None
                    && is_canon_fail(e),
            },
    {
        let ghost s = self.chars@;
        match self.bump() {
            Some(c) => {
                if c != '"' {
                    return Err(canon_fail());
                }
            },
            None => {
                return Err(canon_fail());
            },
        }
        let ghost start = self.pos as int;
        let mut out: Vec<char> = Vec::new();
        loop
            invariant
                self.chars@ == s,
                s == old(self).chars@,
                self.depth == old(self).depth,
                start <= self.pos <= s.len(),
                start == old(self).pos + 1,
                string_at(s, old(self).pos as int) == string_body_at(s, start),
                string_body_at(s, start) == match string_body_at(s, self.pos as int) {
                    Some((rest, e)) => Some((out@ + rest, e)),
                    None => None,
                },
            decreases s.len() - self.pos,
        {
            let ghost p = self.pos as int;
            match self.bump() {
                None => {
                    return Err(canon_fail());
                },
                Some(c) => {
                    if c == '"' {
                        assert(out@ + Seq::<char>::empty() =~= out@);
                        return Ok(string_from_chars(out.as_slice()));
                    } else if c == '\\' {
                        let esc = match self.bump() {
                            Some(e) => e,
                            None => {
                                return Err(canon_fail());
                            },
                        };
                        let decoded: char;
                        if esc == '"' {
                            decoded = '"';
                        } else if esc == '\\' {
                            decoded = '\\';
                        } else if esc == '/' {
                            decoded = '/';
                        } else if esc == 'b' {
                            decoded = '\u{0008}';
                        } else if esc == 'f' {
                            decoded = '\u{000C}';
                        } else if esc == 'n' {
                            decoded = '\n';
                        } else if esc == 'r' {
                            decoded = '\r';
                        } else if esc == 't' {
                            decoded = '\t';
                        } else if esc == 'u' {
                            decoded = self.parse_unicode_escape()?;
                        } else {
                            return Err(canon_fail());
                        }
                        assert(escape_at(s, p + 1) == Some((decoded, self.pos as int)));
                        assert(seq![decoded] + (out@.push(decoded).subrange(0, 0)) =~= seq![decoded]);
                        out.push(decoded);
                        assert forall|rest: Seq<char>| #![auto] (out@ + rest) =~= (out@.drop_last()
                            + (seq![decoded] + rest)) by {}
                    } else {
                        if c as u32 <= 0x1F {
                            return Err(canon_fail());
                        }
                        out.push(c);
                        assert forall|rest: Seq<char>| #![auto] (out@ + rest) =~= (out@.drop_last()
                            + (seq![c] + rest)) by {}
                    }
                },
            }
        }
    }

    fn parse_literal(&mut self, literal: &str) -> (r: Result<(), IntegrityError>)
        requires
            old(self).pos <= old(self).chars.len(),
        ensures
            final(self).chars@ == old(self).chars@,
            final(self).depth == old(self).depth,
            final(self).pos <= final(self).chars.len(),
            match r {
                Ok(_) => old(self).pos + literal@.len() <= old(self).chars@.len()
                    && old(self).chars@.subrange(
                    old(self).pos as int,
                    old(self).pos + literal@.len(),
                ) == literal@ && final(self).pos == old(self).pos + literal@.len(),
                Err(e) => !(old(self).pos + literal@.len() <= old(self).chars@.len()
                    && old(self).chars@.subrange(
                    old(self).pos as int,
                    old(self).pos + literal@.len(),
                ) == literal@) && is_canon_fail(e),
            },
    {
        let ghost s = self.chars@;
        let ghost i = self.pos as int;
        let expected = chars_of(literal);
        let mut k: usize = 0;
        while k < expected.len()
            invariant
                self.chars@ == s,
                s == old(self).chars@,
                i == old(self).pos,
                self.depth == old(self).depth,
                expected@ == literal@,
                k <= expected.len(),
                self.pos == i + k,
                self.pos <= s.len(),
                s.subrange(i, i + k) =~= expected@.subrange(0, k as int),
            decreases expected.len() - k,
        {
            match self.expect(expected[k]) {
                Ok(_) => {},
                Err(e) => {
                    proof {
                        if i + expected@.len() <= s.len() {
                            assert(s.subrange(i, i + expected@.len())[k as int] == s[i + k]);
                        }
                    }
                    return Err(e);
                },
            }
            k = k + 1;
            assert(s.subrange(i, i + k) =~= expected@.subrange(0, k as int));
        }
        assert(expected@.subrange(0, k as int) =~= expected@);
        Ok(())
    }

    fn parse_bool(&mut self) -> (r: Result<JcsValue, IntegrityError>)
        requires
            old(self).pos < old(self).chars.len(),
            old(self).chars@[old(self).pos as int] == 't' || old(self).chars@[old(self).pos as int]
                == 'f',
        ensures
            final(self).chars@ == old(self).chars@,
            final(self).depth == old(self).depth,
            final(self).pos <= final(self).chars.len(),
            match r {
                Ok(v) => value_at(old(self).chars@, old(self).pos as int, old(self).depth as nat)
                    == Some((model(v), final(self).pos as int)) && old(self).pos < final(self).pos,
                Err(e) => value_at(old(self).chars@, old(self).pos as int, old(self).depth as nat)
                    is None && is_canon_fail(e),
            },
    {
        let ghost s = self.chars@;
        let ghost i = self.pos as int;
        if self.chars[self.pos] == 't' {
            proof {
                reveal_strlit("true");
            }
            let res = self.parse_literal("true");
            match res {
                Ok(_) => {
                    assert(s.subrange(i, i + 4)[1] == 'r' && s.subrange(i, i + 4)[2] == 'u'
                        && s.subrange(i, i + 4)[3] == 'e');
                    assert(s[i + 1] == 'r' && s[i + 2] == 'u' && s[i + 3] == 'e');
                    assert(value_at(s, i, self.depth as nat) == Some((Json::Bool(true), i + 4)));
                    Ok(JcsValue::Bool(true))
                },
                Err(e) => {
                    proof {
                        if i + 4 <= s.len() && s[i + 1] == 'r' && s[i + 2] == 'u' && s[i + 3]
                            == 'e' {
                            assert(s.subrange(i, i + 4) =~= seq!['t', 'r', 'u', 'e']);
                            assert("true"@ =~= seq!['t', 'r', 'u', 'e']);
                        }
                    }
                    Err(e)
                },
            }
        } else {
            proof {
                reveal_strlit("false");
            }
            let res = self.parse_literal("false");
            match res {
                Ok(_) => {
                    assert(s.subrange(i, i + 5)[1] == 'a' && s.subrange(i, i + 5)[2] == 'l'
                        && s.subrange(i, i + 5)[3] == 's' && s.subrange(i, i + 5)[4] == 'e');
                    assert(s[i + 1] == 'a' && s[i + 2] == 'l' && s[i + 3] == 's' && s[i + 4] == 'e');
                    assert(value_at(s, i, self.depth as nat) == Some((Json::Bool(false), i + 5)));
                    Ok(JcsValue::Bool(false))
                },
                Err(e) => {
                    proof {
                        if i + 5 <= s.len() && s[i + 1] == 'a' && s[i + 2] == 'l' && s[i + 3]
                            == 's' && s[i + 4] == 'e' {
                            assert(s.subrange(i, i + 5) =~= seq!['f', 'a', 'l', 's', 'e']);
                            assert("false"@ =~= seq!['f', 'a', 'l', 's', 'e']);
                        }
                    }
                    Err(e)
                },
            }
        }
    }

    fn parse_null(&mut self) -> (r: Result<JcsValue, IntegrityError>)
        requires
            old(self).pos < old(self).chars.len(),
            old(self).chars@[old(self).pos as int] == 'n',
        ensures
            final(self).chars@ == old(self).chars@,
            final(self).depth == old(self).depth,
            final(self).pos <= final(self).chars.len(),
            match r {
                Ok(v) => value_at(old(self).chars@, old(self).pos as int, old(self).depth as nat)
                    == Some((model(v), final(self).pos as int)) && old(self).pos < final(self).pos,
                Err(e) => value_at(old(self).chars@, old(self).pos as int, old(self).depth as nat)
                    is None && is_canon_fail(e),
            },
    {
        let ghost s = self.chars@;
        let ghost i = self.pos as int;
        proof {
            reveal_strlit("null");
        }
        let res = self.parse_literal("null");
        match res {
            Ok(_) => {
                assert(s.subrange(i, i + 4)[1] == 'u' && s.subrange(i, i + 4)[2] == 'l'
                    && s.subrange(i, i + 4)[3] == 'l');
                assert(s[i + 1] == 'u' && s[i + 2] == 'l' && s[i + 3] == 'l');
                Ok(JcsValue::Null)
            },
            Err(e) => {
                proof {
                    if i + 4 <= s.len() && s[i + 1] == 'u' && s[i + 2] == 'l' && s[i + 3] == 'l' {
                        assert(s.subrange(i, i + 4) =~= seq!['n', 'u', 'l', 'l']);
                        assert("null"@ =~= seq!['n', 'u', 'l', 'l']);
                    }
                }
                Err(e)
            },
        }
    }

    fn parse_number(&mut self) -> (r: Result<JcsValue, IntegrityError>)
        requires
            old(self).pos <= old(self).chars.len(),
        ensures
            final(self).chars@ == old(self).chars@,
            final(self).depth == old(self).depth,
            final(self).pos <= final(self).chars.len(),
            match r {
                Ok(v) => number_at(old(self).chars@, old(self).pos as int) == Some(
                    (model(v), final(self).pos as int),
                ) && old(self).pos < final(self).pos,
                Err(e) => number_at(old(self).chars@, old(self).pos as int) is None && is_canon_fail(
                    e,
                ),
            },
    {
        let start = self.pos;
        let end = match number_token_end(self.chars.as_slice(), start) {
            Some(e) => e,
            None => {
                return Err(canon_fail());
            },
        };
        let mut tok: Vec<char> = Vec::new();
        push_range(self.chars.as_slice(), start, end, &mut tok);
        let token = string_from_chars(tok.as_slice());
        match canonical_number(token.as_str()) {
            Some(_) => {
                self.pos = end;
                Ok(JcsValue::Number(token))
            },
            None => Err(canon_fail()),
        }
    }

    fn parse_value(&mut self) -> (r: Result<JcsValue, IntegrityError>)
        requires
            old(self).pos <= old(self).chars.len(),
            old(self).depth <= MAX_PARSE_DEPTH,
        ensures
            final(self).chars@ == old(self).chars@,
            final(self).depth == old(self).depth,
            final(self).pos <= final(self).chars.len(),
            match r {
                Ok(v) => value_at(old(self).chars@, old(self).pos as int, old(self).depth as nat)
                    == Some((model(v), final(self).pos as int)) && old(self).pos < final(self).pos,
                Err(e) => value_at(old(self).chars@, old(self).pos as int, old(self).depth as nat)
                    is None && is_canon_fail(e),
            },
        decreases old(self).chars.len() - old(self).pos, 3int,
    {
        match self.peek() {
            None => Err(canon_fail()),
            Some(c) => {
                if c == '{' || c == '[' {
                    if self.depth >= MAX_PARSE_DEPTH {
                        return Err(canon_fail());
                    }
                    self.depth = self.depth + 1;
                    let result = if c == '{' {
                        self.parse_object()
                    } else {
                        self.parse_array()
                    };
                    self.depth = self.depth - 1;
                    result
                } else if c == '"' {
                    match self.parse_string() {
                        Ok(t) => Ok(JcsValue::String(t)),
                        Err(e) => Err(e),
                    }
                } else if c == 't' || c == 'f' {
                    self.parse_bool()
                } else if c == 'n' {
                    self.parse_null()
                } else if c == '-' || ('0' <= c && c <= '9') {
                    self.parse_number()
                } else {
                    Err(canon_fail())
                }
            },
        }
    }

    fn parse_object(&mut self) -> (r: Result<JcsValue, IntegrityError>)
        requires
            old(self).pos < old(self).chars.len(),
            old(self).chars@[old(self).pos as int] == '{',
            1 <= old(self).depth <= MAX_PARSE_DEPTH,
        ensures
            final(self).chars@ == old(self).chars@,
            final(self).depth == old(self).depth,
            final(self).pos <= final(self).chars.len(),
            match r {
                Ok(v) => object_at(old(self).chars@, old(self).pos as int, old(self).depth as nat)
                    == Some((model(v), final(self).pos as int)) && old(self).pos < final(self).pos,
                Err(e) => object_at(old(self).chars@, old(self).pos as int, old(self).depth as nat)
                    is None && is_canon_fail(e),
            },
        decreases old(self).chars.len() - old(self).pos, 2int,
    {
        let ghost s = self.chars@;
        let ghost i0 = self.pos as int;
        let ghost d = self.depth as nat;
        self.bump();
        self.skip_ws();
        let mut members: Vec<(String, JcsValue)> = Vec::new();
        match self.peek() {
            Some(c) => {
                if c == '}' {
                    self.bump();
                    return Ok(JcsValue::Object(members));
                }
            },
            None => {},
        }
        let ghost j0 = self.pos as int;
        assert(model_members(members@) + Seq::<(Seq<char>, Json)>::empty() =~= model_members(members@));
        loop
            invariant
                self.chars@ == s,
                s == old(self).chars@,
                i0 == old(self).pos,
                d == old(self).depth,
                self.depth == d,
                1 <= d <= MAX_PARSE_DEPTH,
                i0 < j0 <= self.pos <= s.len(),
                j0 == skip_ws(s, i0 + 1),
                !(j0 < s.len() && s[j0] == '}'),
                members_at(s, j0, d) == match members_at(s, self.pos as int, d) {
                    Some((rest, e)) => Some((model_members(members@) + rest, e)),
                    None => None,
                },
                !has_duplicate_keys(model_members(members@)),
            decreases s.len() - self.pos,
        {
            let ghost p = self.pos as int;
            proof {
                lemma_skip_ws(s, p);
            }
            self.skip_ws();
            let key = match self.parse_string() {
                Ok(k) => k,
                Err(e) => {
                    return Err(e);
                },
            };
            let ghost k_end = self.pos as int;
            if contains_key(&members, &key) {
                proof {
                    lemma_model_members(members@);
                    if let Some((rest, e)) = members_at(s, p, d) {
                        assert(rest[0].0 == key@);
                        let k = choose|k: int| 0 <= k < members@.len() && members@[k].0@ == key@;
                        let all = model_members(members@) + rest;
                        assert(all[k].0 == all[members@.len() as int].0);
                    }
                }
                return Err(canon_fail());
            }
            self.skip_ws();
            match self.expect(':') {
                Ok(_) => {},
                Err(e) => {
                    return Err(e);
                },
            }
            proof {
                lemma_skip_ws(s, self.pos as int);
            }
            self.skip_ws();
            let value = match self.parse_value() {
                Ok(v) => v,
                Err(e) => {
                    return Err(e);
                },
            };
            let ghost entry = (key@, model(value));
            let ghost old_members = members@;
            members.push((key, value));
            assert(members@.subrange(0, members@.len() - 1) =~= old_members);
            assert(model_members(members@) == model_members(old_members).push(entry));
            proof {
                lemma_model_members(old_members);
                lemma_model_members(members@);
                assert forall|a: int, b: int|
                    0 <= a < b < model_members(members@).len() implies #[trigger] model_members(
                    members@,
                )[a].0 != #[trigger] model_members(members@)[b].0 by {
                    if b < old_members.len() {
                        assert(model_members(old_members)[a] == model_members(members@)[a]);
                        assert(model_members(old_members)[b] == model_members(members@)[b]);
                    } else {
                        assert(members@[a].0@ != key@);
                    }
                }
            }
            self.skip_ws();
            match self.bump() {
                Some(c) => {
                    if c == ',' {
                        proof {
                            assert forall|rest: Seq<(Seq<char>, Json)>| #![auto]
                                model_members(old_members) + (seq![entry] + rest)
                                    =~= model_members(members@) + rest by {}
                        }
                    } else if c == '}' {
                        assert(model_members(old_members) + seq![entry] =~= model_members(members@));
                        return Ok(JcsValue::Object(members));
                    } else {
                        return Err(canon_fail());
                    }
                },
                None => {
                    return Err(canon_fail());
                },
            }
        }
    }

    fn parse_array(&mut self) -> (r: Result<JcsValue, IntegrityError>)
        requires
            old(self).pos < old(self).chars.len(),
            old(self).chars@[old(self).pos as int] == '[',
            1 <= old(self).depth <= MAX_PARSE_DEPTH,
        ensures
            final(self).chars@ == old(self).chars@,
            final(self).depth == old(self).depth,
            final(self).pos <= final(self).chars.len(),
            match r {
                Ok(v) => array_at(old(self).chars@, old(self).pos as int, old(self).depth as nat)
                    == Some((model(v), final(self).pos as int)) && old(self).pos < final(self).pos,
                Err(e) => array_at(old(self).chars@, old(self).pos as int, old(self).depth as nat)
                    is None && is_canon_fail(e),
            },
        decreases old(self).chars.len() - old(self).pos, 2int,
    {
        let ghost s = self.chars@;
        let ghost i0 = self.pos as int;
        let ghost d = self.depth as nat;
        self.bump();
        self.skip_ws();
        let mut items: Vec<JcsValue> = Vec::new();
        match self.peek() {
            Some(c) => {
                if c == ']' {
                    self.bump();
                    return Ok(JcsValue::Array(items));
                }
            },
            None => {},
        }
        let ghost j0 = self.pos as int;
        assert(model_items(items@) + Seq::<Json>::empty() =~= model_items(items@));
        loop
            invariant
                self.chars@ == s,
                s == old(self).chars@,
                i0 == old(self).pos,
                d == old(self).depth,
                self.depth == d,
                1 <= d <= MAX_PARSE_DEPTH,
                i0 < j0 <= self.pos <= s.len(),
                j0 == skip_ws(s, i0 + 1),
                !(j0 < s.len() && s[j0] == ']'),
                items_at(s, j0, d) == match items_at(s, self.pos as int, d) {
                    Some((rest, e)) => Some((model_items(items@) + rest, e)),
                    None => None,
                },
            decreases s.len() - self.pos,
        {
            proof {
                lemma_skip_ws(s, self.pos as int);
            }
            self.skip_ws();
            let value = match self.parse_value() {
                Ok(v) => v,
                Err(e) => {
                    return Err(e);
                },
            };
            let ghost entry = model(value);
            let ghost old_items = items@;
            items.push(value);
            assert(items@.subrange(0, items@.len() - 1) =~= old_items);
            assert(model_items(items@) == model_items(old_items).push(entry));
            self.skip_ws();
            match self.bump() {
                Some(c) => {
                    if c == ',' {
                        proof {
                            assert forall|rest: Seq<Json>| #![auto]
                                model_items(old_items) + (seq![entry] + rest)
                                    =~= model_items(items@) + rest by {}
                        }
                    } else if c == ']' {
                        assert(model_items(old_items) + seq![entry] =~= model_items(items@));
                        return Ok(JcsValue::Array(items));
                    } else {
                        return Err(canon_fail());
                    }
                },
                None => {
                    return Err(canon_fail());
                },
            }
        }
    }
}

/// Parse raw JSON bytes into a validated [`JcsValue`] tree, enforcing the full
/// JCS-safe domain (invalid UTF-8, malformed JSON, duplicate member names,
/// unpaired surrogates, raw control characters in strings, out-of-range
/// numbers, nesting beyond [`MAX_PARSE_DEPTH`] and trailing content all fail).
pub fn parse(input: &[u8]) -> (r: Result<JcsValue, IntegrityError>)
    ensures
        match r {
            Ok(v) => parse_spec(input@) == Some(model(v)),
            Err(e) => parse_spec(input@) is None && is_canon_fail(e),
        },
{
    let chars = match decode_utf8_chars(input) {
        Some(c) => c,
        None => {
            return Err(canon_fail());
        },
    };
    let mut parser = Parser::new(chars);
    parser.skip_ws();
    let value = match parser.parse_value() {
        Ok(v) => v,
        Err(e) => {
            return Err(e);
        },
    };
    parser.skip_ws();
    if !parser.at_end() {
        return Err(canon_fail());
    }
    Ok(value)
}

/// Whether some member of `members` is named `key`.
///
/// A linear scan of the members read so far takes the place of a set of seen
/// names: `vstd` gives no specification through which a `String`-keyed set's
/// lookups could be proved, and the scan is proved against
/// [`has_duplicate_keys`] directly.
fn contains_key(members: &Vec<(String, JcsValue)>, key: &String) -> (r: bool)
    ensures
        r == exists|k: int| 0 <= k < members@.len() && members@[k].0@ == key@,
{
    let mut k: usize = 0;
    while k < members.len()
        invariant
            k <= members.len(),
            forall|j: int| 0 <= j < k ==> members@[j].0@ != key@,
        decreases members.len() - k,
    {
        if members[k].0 == *key {
            return true;
        }
        k = k + 1;
    }
    false
}

/// The hexadecimal value of `c`, if it is a hex digit.
fn hex_digit(c: char) -> (r: Option<u32>)
    ensures
        r == hex_value(c),
        r matches Some(v) ==> v < 16,
{
    if '0' <= c && c <= '9' {
        Some(c as u32 - '0' as u32)
    } else if 'a' <= c && c <= 'f' {
        Some(c as u32 - 'a' as u32 + 10)
    } else if 'A' <= c && c <= 'F' {
        Some(c as u32 - 'A' as u32 + 10)
    } else {
        None
    }
}

/// `\u` escapes read hexadecimal digits case-insensitively: each of the
/// letters `a`–`f` and its capital are both digits, worth the same (10 to 15
/// in order).
pub proof fn lemma_hex_digit_case_insensitive(c: char, upper: char)
    requires
        'a' <= c <= 'f',
        upper as u32 == c as u32 - 32,
    ensures
        hex_value(c) == Some((c as u32 - 'a' as u32 + 10) as u32),
        hex_value(upper) == hex_value(c),
{
}

} // verus!
