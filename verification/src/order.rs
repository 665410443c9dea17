//! The RFC 8785 member-name order: names compare by their UTF-16 code units,
//! lexicographically.

use vstd::prelude::*;
use vstd::relations::*;
use std::cmp::Ordering;
use vstd::utf8::*;
use crate::text::chars_of;

verus! {

/// The UTF-16 code units of one character.
pub open spec fn char_units(c: char) -> Seq<int> {
    let v = c as u32 as int;
    if v < 0x10000 {
        seq![v]
    } else {
        seq![0xD800 + (v - 0x10000) / 1024, 0xDC00 + (v - 0x10000) % 1024]
    }
}

/// The UTF-16 encoding of a character sequence.
pub open spec fn utf16_units(s: Seq<char>) -> Seq<int>
    decreases s.len(),
{
    if s.len() == 0 {
        Seq::empty()
    } else {
        utf16_units(s.drop_last()) + char_units(s.last())
    }
}

/// Strict lexicographic order on integer sequences (a proper prefix is
/// smaller).
pub open spec fn lex_less(a: Seq<int>, b: Seq<int>) -> bool
    decreases a.len(),
{
    if a.len() == 0 {
        b.len() > 0
    } else if b.len() == 0 {
        false
    } else if a[0] < b[0] {
        true
    } else if a[0] > b[0] {
        false
    } else {
        lex_less(a.drop_first(), b.drop_first())
    }
}

/// Member-name order of RFC 8785 §3.2.3: by UTF-16 code units.
pub open spec fn key_less(a: Seq<char>, b: Seq<char>) -> bool {
    lex_less(utf16_units(a), utf16_units(b))
}

pub open spec fn char_codes(s: Seq<char>) -> Seq<int> {
    Seq::new(s.len(), |i: int| s[i] as u32 as int)
}

/// Order of serialized object entries `(name, text)`: by name, and (only to
/// make the relation total) by text among equal names.
pub open spec fn entry_leq(a: (Seq<char>, Seq<char>), b: (Seq<char>, Seq<char>)) -> bool {
    key_less(a.0, b.0) || (a.0 == b.0 && (a.1 == b.1 || lex_less(char_codes(a.1), char_codes(b.1))))
}

pub proof fn lemma_lex_irreflexive(a: Seq<int>)
    ensures
        !lex_less(a, a),
    decreases a.len(),
{
    if a.len() > 0 {
        lemma_lex_irreflexive(a.drop_first());
    }
}

pub proof fn lemma_lex_asymmetric(a: Seq<int>, b: Seq<int>)
    ensures
        lex_less(a, b) ==> !lex_less(b, a),
    decreases a.len(),
{
    if a.len() > 0 && b.len() > 0 && a[0] == b[0] {
        lemma_lex_asymmetric(a.drop_first(), b.drop_first());
    }
}

pub proof fn lemma_lex_transitive(a: Seq<int>, b: Seq<int>, c: Seq<int>)
    ensures
        lex_less(a, b) && lex_less(b, c) ==> lex_less(a, c),
    decreases a.len(),
{
    if a.len() > 0 && b.len() > 0 && c.len() > 0 {
        lemma_lex_transitive(a.drop_first(), b.drop_first(), c.drop_first());
    }
}

pub proof fn lemma_lex_connected(a: Seq<int>, b: Seq<int>)
    ensures
        a != b ==> lex_less(a, b) || lex_less(b, a),
    decreases a.len(),
{
    if a.len() > 0 && b.len() > 0 {
        lemma_lex_connected(a.drop_first(), b.drop_first());
        if a[0] == b[0] && a.drop_first() == b.drop_first() {
            assert(a =~= seq![a[0]] + a.drop_first());
            assert(b =~= seq![b[0]] + b.drop_first());
        }
    } else if a.len() == 0 && b.len() == 0 {
        assert(a =~= b);
    }
}

proof fn lemma_char_units(c: char)
    ensures
        1 <= char_units(c).len() <= 2,
        char_units(c).len() == 1 <==> (c as u32) < 0x10000,
        char_units(c).len() == 1 ==> !(0xDC00 <= char_units(c).last() <= 0xDFFF),
        char_units(c).len() == 2 ==> 0xDC00 <= char_units(c).last() <= 0xDFFF,
{
    vstd::utf8::char_is_scalar(c);
}

proof fn lemma_char_units_injective(c: char, d: char)
    requires
        char_units(c) == char_units(d),
    ensures
        c == d,
{
    vstd::utf8::char_is_scalar(c);
    vstd::utf8::char_is_scalar(d);
    let v = c as u32 as int;
    let w = d as u32 as int;
    assert(char_units(c).len() == char_units(d).len());
    if v < 0x10000 {
        assert(w < 0x10000);
        assert(char_units(c)[0] == v);
        assert(char_units(d)[0] == w);
        assert(v == w);
    } else {
        assert(w >= 0x10000);
        let qv = (v - 0x10000) / 1024;
        let rv = (v - 0x10000) % 1024;
        let qw = (w - 0x10000) / 1024;
        let rw = (w - 0x10000) % 1024;
        assert(char_units(c)[0] == 0xD800 + qv);
        assert(char_units(d)[0] == 0xD800 + qw);
        assert(char_units(c)[1] == 0xDC00 + rv);
        assert(char_units(d)[1] == 0xDC00 + rw);
        assert(qv == qw && rv == rw);
        vstd::arithmetic::div_mod::lemma_fundamental_div_mod(v - 0x10000, 1024);
        vstd::arithmetic::div_mod::lemma_fundamental_div_mod(w - 0x10000, 1024);
        assert(v == w);
    }
    assert(c as u32 == d as u32);
    vstd::utf8::char_u32_cast(c, c as u32);
    vstd::utf8::char_u32_cast(d, d as u32);
}

/// Distinct character sequences have distinct UTF-16 encodings.
pub proof fn lemma_utf16_injective(a: Seq<char>, b: Seq<char>)
    requires
        utf16_units(a) == utf16_units(b),
    ensures
        a == b,
    decreases a.len(),
{
    if a.len() == 0 || b.len() == 0 {
        if a.len() > 0 {
            lemma_char_units(a.last());
            assert(utf16_units(a).len() > 0);
        }
        if b.len() > 0 {
            lemma_char_units(b.last());
            assert(utf16_units(b).len() > 0);
        }
        assert(a =~= b);
    } else {
        let ua = utf16_units(a);
        let pa = utf16_units(a.drop_last());
        let pb = utf16_units(b.drop_last());
        let ca = char_units(a.last());
        let cb = char_units(b.last());
        lemma_char_units(a.last());
        lemma_char_units(b.last());
        assert(ua.last() == ca.last());
        assert(utf16_units(b).last() == cb.last());
        assert(ca.len() == cb.len());
        assert(pa =~= ua.subrange(0, ua.len() - ca.len()));
        assert(pb =~= ua.subrange(0, ua.len() - cb.len()));
        assert(ca =~= ua.subrange(ua.len() - ca.len(), ua.len() as int));
        assert(cb =~= ua.subrange(ua.len() - cb.len(), ua.len() as int));
        lemma_char_units_injective(a.last(), b.last());
        lemma_utf16_injective(a.drop_last(), b.drop_last());
        assert(a =~= a.drop_last().push(a.last()));
        assert(b =~= b.drop_last().push(b.last()));
    }
}

proof fn lemma_char_codes_injective(a: Seq<char>, b: Seq<char>)
    requires
        char_codes(a) == char_codes(b),
    ensures
        a == b,
{
    assert(a.len() == char_codes(a).len());
    assert(b.len() == char_codes(b).len());
    assert forall|i: int| 0 <= i < a.len() implies a[i] == b[i] by {
        let x = a[i];
        let y = b[i];
        assert(char_codes(a)[i] == x as u32 as int);
        assert(char_codes(b)[i] == y as u32 as int);
        assert(x as u32 == y as u32);
        vstd::utf8::char_u32_cast(x, x as u32);
        vstd::utf8::char_u32_cast(y, y as u32);
    }
    assert(a =~= b);
}

/// `key_less` is a strict total order on member names.
pub proof fn lemma_key_less_strict_total()
    ensures
        forall|a: Seq<char>| !#[trigger] key_less(a, a),
        forall|a: Seq<char>, b: Seq<char>| #[trigger] key_less(a, b) ==> !key_less(b, a),
        forall|a: Seq<char>, b: Seq<char>, c: Seq<char>|
            #[trigger] key_less(a, b) && #[trigger] key_less(b, c) ==> key_less(a, c),
        forall|a: Seq<char>, b: Seq<char>|
            a != b ==> #[trigger] key_less(a, b) || #[trigger] key_less(b, a),
{
    assert forall|a: Seq<char>| !#[trigger] key_less(a, a) by {
        lemma_lex_irreflexive(utf16_units(a));
    }
    assert forall|a: Seq<char>, b: Seq<char>| #[trigger] key_less(a, b) implies !key_less(b, a) by {
        lemma_lex_asymmetric(utf16_units(a), utf16_units(b));
    }
    assert forall|a: Seq<char>, b: Seq<char>, c: Seq<char>|
        #[trigger] key_less(a, b) && #[trigger] key_less(b, c) implies key_less(a, c) by {
        lemma_lex_transitive(utf16_units(a), utf16_units(b), utf16_units(c));
    }
    assert forall|a: Seq<char>, b: Seq<char>| a != b implies #[trigger] key_less(a, b)
        || #[trigger] key_less(b, a) by {
        lemma_lex_connected(utf16_units(a), utf16_units(b));
        if utf16_units(a) == utf16_units(b) {
            lemma_utf16_injective(a, b);
        }
    }
}

pub open spec fn entry_order() -> spec_fn((Seq<char>, Seq<char>), (Seq<char>, Seq<char>)) -> bool {
    |a: (Seq<char>, Seq<char>), b: (Seq<char>, Seq<char>)| entry_leq(a, b)
}

/// `entry_leq` is a total order on serialized entries.
pub proof fn lemma_entry_leq_total()
    ensures
        total_ordering(entry_order()),
{
    lemma_key_less_strict_total();
    let leq = entry_order();
    assert forall|x: (Seq<char>, Seq<char>)| #[trigger] leq(x, x) by {}
    assert forall|x: (Seq<char>, Seq<char>), y: (Seq<char>, Seq<char>)|
        #[trigger] leq(x, y) && #[trigger] leq(y, x) implies x == y by {
        if x.0 == y.0 {
            if x.1 != y.1 {
                lemma_lex_asymmetric(char_codes(x.1), char_codes(y.1));
            }
        }
    }
    assert forall|x: (Seq<char>, Seq<char>), y: (Seq<char>, Seq<char>), z: (Seq<char>, Seq<char>)|
        #[trigger] leq(x, y) && #[trigger] leq(y, z) implies leq(x, z) by {
        lemma_lex_transitive(char_codes(x.1), char_codes(y.1), char_codes(z.1));
    }
    assert forall|x: (Seq<char>, Seq<char>), y: (Seq<char>, Seq<char>)|
        #[trigger] leq(x, y) || #[trigger] leq(y, x) by {
        if x.0 == y.0 && x.1 != y.1 {
            lemma_lex_connected(char_codes(x.1), char_codes(y.1));
            if char_codes(x.1) == char_codes(y.1) {
                lemma_char_codes_injective(x.1, y.1);
            }
        }
    }
}

/// Integer values of a sequence of UTF-16 code units.
pub open spec fn unit_values(v: Seq<u16>) -> Seq<int> {
    Seq::new(v.len(), |i: int| v[i] as int)
}

proof fn lemma_lex_skip(a: Seq<int>, b: Seq<int>, i: int)
    requires
        0 <= i <= a.len(),
        i <= b.len(),
        forall|j: int| 0 <= j < i ==> a[j] == b[j],
    ensures
        lex_less(a, b) == lex_less(a.subrange(i, a.len() as int), b.subrange(i, b.len() as int)),
    decreases i,
{
    if i > 0 {
        lemma_lex_skip(a.drop_first(), b.drop_first(), i - 1);
        assert(a.drop_first().subrange(i - 1, a.len() - 1) =~= a.subrange(i, a.len() as int));
        assert(b.drop_first().subrange(i - 1, b.len() - 1) =~= b.subrange(i, b.len() as int));
    } else {
        assert(a.subrange(0, a.len() as int) =~= a);
        assert(b.subrange(0, b.len() as int) =~= b);
    }
}

/// The UTF-16 code units of `s`, in order.
pub fn utf16_code_units(s: &str) -> (r: Vec<u16>)
    ensures
        unit_values(r@) == utf16_units(s@),
{
    let cs = chars_of(s);
    let mut out: Vec<u16> = Vec::new();
    let mut i: usize = 0;
    while i < cs.len()
        invariant
            i <= cs.len(),
            cs@ == s@,
            unit_values(out@) == utf16_units(cs@.take(i as int)),
        decreases cs.len() - i,
    {
        let c = cs[i];
        let v = c as u32;
        let ghost before = out@;
        proof {
            vstd::utf8::char_is_scalar(c);
            assert(cs@.take(i as int + 1).drop_last() =~= cs@.take(i as int));
        }
        if v < 0x10000 {
            out.push(v as u16);
        } else {
            let w = v - 0x10000;
            out.push((0xD800 + w / 1024) as u16);
            out.push((0xDC00 + w % 1024) as u16);
        }
        assert(unit_values(out@) =~= unit_values(before) + char_units(c));
        i = i + 1;
    }
    assert(cs@.take(cs.len() as int) =~= cs@);
    out
}

/// Three-way comparison of two strings by their UTF-16 code units: negative,
/// zero or positive as `a` sorts before, equal to, or after `b`.
pub fn utf16_order(a: &str, b: &str) -> (r: i8)
    ensures
        (r < 0) == key_less(a@, b@),
        (r == 0) == (a@ == b@),
        (r > 0) == key_less(b@, a@),
{
    let ua = utf16_code_units(a);
    let ub = utf16_code_units(b);
    let ghost x = utf16_units(a@);
    let ghost y = utf16_units(b@);
    proof {
        lemma_key_less_strict_total();
    }
    let mut i: usize = 0;
    while i < ua.len() && i < ub.len()
        invariant
            i <= ua.len(),
            i <= ub.len(),
            x == utf16_units(a@),
            y == utf16_units(b@),
            unit_values(ua@) == x,
            unit_values(ub@) == y,
            forall|j: int| 0 <= j < i ==> x[j] == y[j],
        decreases ua.len() - i,
    {
        assert(x[i as int] == ua@[i as int] as int);
        assert(y[i as int] == ub@[i as int] as int);
        if ua[i] != ub[i] {
            proof {
                lemma_lex_skip(x, y, i as int);
                lemma_lex_skip(y, x, i as int);
                let xs = x.subrange(i as int, x.len() as int);
                let ys = y.subrange(i as int, y.len() as int);
                assert(x.len() == ua.len() && y.len() == ub.len());
                assert(xs.len() > 0 && ys.len() > 0);
                assert(xs[0] == x[i as int]);
                assert(ys[0] == y[i as int]);
                assert(lex_less(xs, ys) == (xs[0] < ys[0]));
                assert(lex_less(ys, xs) == (ys[0] < xs[0]));
            }
            if ua[i] < ub[i] {
                return -1;
            } else {
                return 1;
            }
        }
        assert(x[i as int] == y[i as int]);
        i = i + 1;
    }
    proof {
        lemma_lex_skip(x, y, i as int);
        lemma_lex_skip(y, x, i as int);
        if a@ == b@ {
            assert(x.len() == y.len());
        }
    }
    if ua.len() < ub.len() {
        -1
    } else if ua.len() > ub.len() {
        1
    } else {
        proof {
            assert(x =~= y);
            lemma_utf16_injective(a@, b@);
        }
        0
    }
}

/// Compare two strings by their UTF-16 code units (RFC 8785 member order).
pub fn cmp_utf16(a: &str, b: &str) -> (r: Ordering)
    ensures
        (r == Ordering::Less) == key_less(a@, b@),
        (r == Ordering::Equal) == (a@ == b@),
        (r == Ordering::Greater) == key_less(b@, a@),
{
    let c = utf16_order(a, b);
    if c < 0 {
        Ordering::Less
    } else if c == 0 {
        Ordering::Equal
    } else {
        Ordering::Greater
    }
}

/// Integer values of a byte sequence.
pub open spec fn byte_codes(b: Seq<u8>) -> Seq<int> {
    Seq::new(b.len(), |i: int| b[i] as int)
}

/// The order of Rust's `String`: lexicographic on the UTF-8 bytes (which is
/// also code-point order).
pub open spec fn text_leq(a: Seq<char>, b: Seq<char>) -> bool {
    a == b || lex_less(byte_codes(encode_utf8(a)), byte_codes(encode_utf8(b)))
}

pub open spec fn text_order() -> spec_fn(Seq<char>, Seq<char>) -> bool {
    |a: Seq<char>, b: Seq<char>| text_leq(a, b)
}

pub open spec fn strings_view(v: Seq<String>) -> Seq<Seq<char>> {
    v.map_values(|s: String| s@)
}

proof fn lemma_text_distinct_codes(a: Seq<char>, b: Seq<char>)
    requires
        a != b,
    ensures
        byte_codes(encode_utf8(a)) != byte_codes(encode_utf8(b)),
{
    broadcast use encode_utf8_decode_utf8;

    let x = encode_utf8(a);
    let y = encode_utf8(b);
    if byte_codes(x) == byte_codes(y) {
        assert(x.len() == byte_codes(x).len());
        assert(y.len() == byte_codes(y).len());
        assert forall|i: int| 0 <= i < x.len() implies x[i] == y[i] by {
            assert(byte_codes(x)[i] == byte_codes(y)[i]);
        }
        assert(x =~= y);
        assert(decode_utf8(x) == a);
        assert(decode_utf8(y) == b);
    }
}

/// `text_leq` is a total order.
pub proof fn lemma_text_leq_total()
    ensures
        total_ordering(text_order()),
{
    let leq = text_order();
    assert forall|x: Seq<char>| #[trigger] leq(x, x) by {}
    assert forall|x: Seq<char>, y: Seq<char>| #[trigger] leq(x, y) && #[trigger] leq(y, x) implies x
        == y by {
        if x != y {
            lemma_lex_asymmetric(byte_codes(encode_utf8(x)), byte_codes(encode_utf8(y)));
        }
    }
    assert forall|x: Seq<char>, y: Seq<char>, z: Seq<char>|
        #[trigger] leq(x, y) && #[trigger] leq(y, z) implies leq(x, z) by {
        lemma_lex_transitive(
            byte_codes(encode_utf8(x)),
            byte_codes(encode_utf8(y)),
            byte_codes(encode_utf8(z)),
        );
    }
    assert forall|x: Seq<char>, y: Seq<char>| #[trigger] leq(x, y) || #[trigger] leq(y, x) by {
        if x != y {
            lemma_text_distinct_codes(x, y);
            lemma_lex_connected(byte_codes(encode_utf8(x)), byte_codes(encode_utf8(y)));
        }
    }
}

/// Whether `a` sorts strictly before `b` as a Rust `String` does.
pub fn text_less(a: &str, b: &str) -> (r: bool)
    ensures
        r == (a@ != b@ && text_leq(a@, b@)),
{
    let x = a.as_bytes();
    let y = b.as_bytes();
    let ghost cx = byte_codes(x@);
    let ghost cy = byte_codes(y@);
    let mut i: usize = 0;
    while i < x.len() && i < y.len()
        invariant
            i <= x@.len(),
            i <= y@.len(),
            x@ == encode_utf8(a@),
            y@ == encode_utf8(b@),
            cx == byte_codes(x@),
            cy == byte_codes(y@),
            forall|j: int| 0 <= j < i ==> cx[j] == cy[j],
        decreases x@.len() - i,
    {
        assert(cx[i as int] == x@[i as int] as int);
        assert(cy[i as int] == y@[i as int] as int);
        if x[i] != y[i] {
            proof {
                lemma_lex_skip(cx, cy, i as int);
                lemma_lex_skip(cy, cx, i as int);
                let xs = cx.subrange(i as int, cx.len() as int);
                let ys = cy.subrange(i as int, cy.len() as int);
                assert(xs[0] == cx[i as int]);
                assert(ys[0] == cy[i as int]);
                if a@ == b@ {
                    assert(x@ == y@);
                }
            }
            return x[i] < y[i];
        }
        i = i + 1;
    }
    proof {
        lemma_lex_skip(cx, cy, i as int);
        if a@ == b@ {
            assert(x@ == y@);
        }
        if x@.len() == y@.len() {
            assert(cx =~= cy);
            if a@ != b@ {
                lemma_text_distinct_codes(a@, b@);
            }
        }
    }
    x.len() < y.len()
}

proof fn lemma_strings_view_insert(v: Seq<String>, p: int, x: String)
    requires
        0 <= p <= v.len(),
    ensures
        strings_view(v.insert(p, x)) == strings_view(v).insert(p, x@),
{
    assert(strings_view(v.insert(p, x)) =~= strings_view(v).insert(p, x@));
}

/// The strings of `v` in ascending `String` order (a stable insertion sort).
pub fn sort_strings(v: &Vec<String>) -> (r: Vec<String>)
    ensures
        strings_view(r@) == strings_view(v@).sort_by(text_order()),
{
    broadcast use vstd::seq_lib::group_to_multiset_ensures;

    let mut out: Vec<String> = Vec::new();
    let mut i: usize = 0;
    proof {
        lemma_text_leq_total();
        assert(strings_view(out@) =~= strings_view(v@).take(0));
    }
    while i < v.len()
        invariant
            i <= v@.len(),
            total_ordering(text_order()),
            sorted_by(strings_view(out@), text_order()),
            strings_view(out@).to_multiset() == strings_view(v@).take(i as int).to_multiset(),
        decreases v@.len() - i,
    {
        let x = &v[i];
        let ghost sv = strings_view(out@);
        let mut p: usize = 0;
        while p < out.len() && !text_less(x.as_str(), out[p].as_str())
            invariant
                p <= out@.len(),
                sv == strings_view(out@),
                forall|j: int| 0 <= j < p ==> text_leq(#[trigger] sv[j], x@),
            decreases out@.len() - p,
        {
            assert(sv[p as int] == out@[p as int]@);
            proof {
                lemma_text_leq_total();
                assert(text_order()(sv[p as int], x@) || text_order()(x@, sv[p as int]));
            }
            p = p + 1;
        }
        proof {
            if p < out@.len() {
                assert(sv[p as int] == out@[p as int]@);
                assert(text_leq(x@, sv[p as int]));
            }
        }
        let c = x.clone();
        let ghost before = out@;
        out.insert(p, c);
        proof {
            let w = strings_view(v@);
            lemma_strings_view_insert(before, p as int, c);
            assert(strings_view(out@) == sv.insert(p as int, x@));
            vstd::seq_lib::to_multiset_insert(sv, p as int, x@);
            assert(w.take(i as int + 1) =~= w.take(i as int).push(x@));
            vstd::seq_lib::to_multiset_build(w.take(i as int), x@);
            let nv = sv.insert(p as int, x@);
            assert forall|a: int, b: int| 0 <= a < b < nv.len() implies #[trigger] text_leq(nv[a], nv[b]) by {
                if b < p {
                    assert(text_order()(sv[a], sv[b]));
                } else if b == p {
                } else if a < p {
                    assert(text_order()(sv[a], sv[b - 1]));
                } else if a == p {
                    if b - 1 > p {
                        assert(text_order()(x@, sv[p as int]));
                        assert(text_order()(sv[p as int], sv[b - 1]));
                    }
                } else {
                    assert(text_order()(sv[a - 1], sv[b - 1]));
                }
            }
            assert(sorted_by(nv, text_order()));
        }
        i = i + 1;
    }
    proof {
        let w = strings_view(v@);
        assert(w.take(w.len() as int) =~= w);
        w.lemma_sort_by_ensures(text_order());
        vstd::seq_lib::lemma_sorted_unique(strings_view(out@), w.sort_by(text_order()), text_order());
    }
    out
}

} // verus!
