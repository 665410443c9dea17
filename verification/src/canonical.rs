//! The JSON value model, and RFC 8785 (JCS) canonicalization with a
//! fail-closed value domain.
//!
//! [`canonicalize`] parses raw bytes with the fail-closed parser of
//! [`crate::parser`] and serializes the value with the canonical writer of
//! [`crate::writer`]: object members sorted by the UTF-16 code units of their
//! names, numbers in the ECMAScript form of their nearest double, minimal
//! string escaping, and no insignificant whitespace. Every violation of the JCS
//! domain yields [`IntegrityError::Canonicalization`]; there is no best-effort
//! fallback.

use vstd::prelude::*;
use vstd::utf8::*;
use crate::IntegrityError;
use crate::parser::{parse_spec, value_at, members_at, items_at, skip_ws, lemma_skip_ws};
use crate::writer::{canonical_text, item_texts, member_entries, write_value, same_up_to_order, lemma_same_up_to_order_text};
use crate::text::string_from_chars;

pub use crate::parser::{parse, MAX_PARSE_DEPTH};

verus! {

/// A JSON value in the JCS domain.
#[derive(Debug, PartialEq)]
pub enum JcsValue {
    Null,
    Bool(bool),
    Number(String),
    String(String),
    Array(Vec<JcsValue>),
    Object(Vec<(String, JcsValue)>),
}

/// The message of every canonicalization failure.
pub open spec fn canon_fail_message() -> Seq<char> {
    seq![
        'v', 'a', 'l', 'u', 'e', ' ', 'o', 'u', 't', 's', 'i', 'd', 'e', ' ', 't', 'h', 'e', ' ',
        'J', 'C', 'S', ' ', 'd', 'o', 'm', 'a', 'i', 'n', ' ', '(', 'R', 'F', 'C', ' ', '8', '7',
        '8', '5', ')',
    ]
}

/// `e` is the uniform canonicalization failure.
pub open spec fn is_canon_fail(e: IntegrityError) -> bool {
    &&& e is Canonicalization
    &&& e->Canonicalization_0@ == canon_fail_message()
}

/// The single, uniform canonicalization failure raised by every JCS-domain
/// violation: canonicalization never falls back to best-effort output.
pub fn canon_fail() -> (e: IntegrityError)
    ensures
        is_canon_fail(e),
{
    let text = "value outside the JCS domain (RFC 8785)";
    proof {
        reveal_strlit("value outside the JCS domain (RFC 8785)");
        assert(text@ =~= canon_fail_message());
    }
    IntegrityError::Canonicalization(text.to_owned())
}

/// Mathematical model of a JSON value.
pub enum Json {
    Null,
    Bool(bool),
    Number(Seq<char>),
    Str(Seq<char>),
    Array(Seq<Json>),
    Object(Seq<(Seq<char>, Json)>),
}

/// The mathematical value of a [`JcsValue`].
pub open spec fn model(v: JcsValue) -> Json
    decreases v, 0int,
{
    match v {
        JcsValue::Null => Json::Null,
        JcsValue::Bool(b) => Json::Bool(b),
        JcsValue::Number(t) => Json::Number(t@),
        JcsValue::String(s) => Json::Str(s@),
        JcsValue::Array(items) => Json::Array(model_items(items@)),
        JcsValue::Object(members) => Json::Object(model_members(members@)),
    }
}

pub open spec fn model_items(s: Seq<JcsValue>) -> Seq<Json>
    decreases s, 1int,
{
    if s.len() == 0 {
        Seq::empty()
    } else {
        model_items(s.subrange(0, s.len() - 1)).push(model(s[s.len() - 1]))
    }
}

pub open spec fn model_members(s: Seq<(String, JcsValue)>) -> Seq<(Seq<char>, Json)>
    decreases s, 1int,
{
    if s.len() == 0 {
        Seq::empty()
    } else {
        model_members(s.subrange(0, s.len() - 1)).push(
            (s[s.len() - 1].0@, model(s[s.len() - 1].1)),
        )
    }
}

pub proof fn lemma_model_items(s: Seq<JcsValue>)
    ensures
        model_items(s).len() == s.len(),
        forall|i: int| 0 <= i < s.len() ==> #[trigger] model_items(s)[i] == model(s[i]),
    decreases s.len(),
{
    if s.len() > 0 {
        lemma_model_items(s.subrange(0, s.len() - 1));
    }
}

pub proof fn lemma_model_members(s: Seq<(String, JcsValue)>)
    ensures
        model_members(s).len() == s.len(),
        forall|i: int|
            0 <= i < s.len() ==> #[trigger] model_members(s)[i] == (s[i].0@, model(s[i].1)),
    decreases s.len(),
{
    if s.len() > 0 {
        lemma_model_members(s.subrange(0, s.len() - 1));
    }
}

/// The RFC 8785 canonical UTF-8 bytes of `v`, or `None` when `v` is outside
/// the JCS domain.
pub open spec fn canonical_bytes(v: Json) -> Option<Seq<u8>> {
    match canonical_text(v, 0) {
        Some(t) => Some(encode_utf8(t)),
        None => None,
    }
}

/// The canonical form of the raw JSON bytes `input`.
pub open spec fn canonical_form(input: Seq<u8>) -> Option<Seq<u8>> {
    match parse_spec(input) {
        Some(v) => canonical_bytes(v),
        None => None,
    }
}

/// Emit RFC 8785 canonical UTF-8 bytes for a value tree. A hand-built tree
/// fails closed where the parser would have refused it: containers nested
/// [`MAX_PARSE_DEPTH`] deep, objects with a repeated member name, and number
/// texts that are not finite JSON numbers. The bytes it returns canonicalize
/// to themselves.
pub fn canonicalize_value(value: &JcsValue) -> (r: Result<Vec<u8>, IntegrityError>)
    ensures
        match r {
            Ok(b) => canonical_bytes(model(*value)) == Some(b@),
            Err(e) => canonical_bytes(model(*value)) is None && is_canon_fail(e),
        },
        r matches Ok(b) ==> canonical_form(b@) == Some(b@),
{
    let mut out: Vec<char> = Vec::new();
    match write_value(value, 0, &mut out) {
        Ok(_) => {},
        Err(e) => {
            return Err(e);
        },
    }
    assert(out@ =~= Seq::<char>::empty() + out@);
    proof {
        crate::roundtrip::lemma_canonical_bytes_fixpoint(model(*value));
    }
    let text = string_from_chars(out.as_slice());
    Ok(vstd::slice::slice_to_vec(text.as_str().as_bytes()))
}

/// Parse raw JSON bytes, validate them against the JCS domain and emit their
/// RFC 8785 canonical UTF-8 bytes. Fails exactly when [`parse`] fails: every
/// value the parser accepts can be canonicalized. Canonicalization is
/// idempotent: the bytes it returns canonicalize to themselves.
pub fn canonicalize(input: &[u8]) -> (r: Result<Vec<u8>, IntegrityError>)
    ensures
        r is Ok <==> parse_spec(input@) is Some,
        match r {
            Ok(b) => canonical_form(input@) == Some(b@),
            Err(e) => canonical_form(input@) is None && is_canon_fail(e),
        },
        r matches Ok(b) ==> canonical_form(b@) == Some(b@),
{
    let value = match parse(input) {
        Ok(v) => v,
        Err(e) => {
            return Err(e);
        },
    };
    proof {
        lemma_parsed_is_canonicalizable(input@);
    }
    canonicalize_value(&value)
}

proof fn lemma_item_texts_all(xs: Seq<Json>, depth: nat)
    requires
        forall|k: int| 0 <= k < xs.len() ==> (#[trigger] canonical_text(xs[k], depth)) is Some,
    ensures
        item_texts(xs, depth) is Some,
    decreases xs.len(),
{
    if xs.len() > 0 {
        lemma_item_texts_all(xs.subrange(0, xs.len() - 1), depth);
        assert(canonical_text(xs[xs.len() - 1], depth) is Some);
    }
}

proof fn lemma_member_entries_all(ms: Seq<(Seq<char>, Json)>, depth: nat)
    requires
        forall|k: int| 0 <= k < ms.len() ==> (#[trigger] canonical_text(ms[k].1, depth)) is Some,
    ensures
        member_entries(ms, depth) is Some,
    decreases ms.len(),
{
    if ms.len() > 0 {
        lemma_member_entries_all(ms.subrange(0, ms.len() - 1), depth);
        assert(canonical_text(ms[ms.len() - 1].1, depth) is Some);
    }
}

proof fn lemma_value_at_canonical(s: Seq<char>, i: int, depth: nat)
    requires
        value_at(s, i, depth) is Some,
    ensures
        canonical_text(value_at(s, i, depth).unwrap().0, depth) is Some,
    decreases s.len() - i, 3int,
{
    let c = s[i];
    if c == '{' {
        lemma_skip_ws(s, i + 1);
        let j = skip_ws(s, i + 1);
        if !(j < s.len() && s[j] == '}') {
            lemma_members_at_canonical(s, j, depth + 1);
            let ms = members_at(s, j, depth + 1).unwrap().0;
            lemma_member_entries_all(ms, depth + 1);
        }
    } else if c == '[' {
        lemma_skip_ws(s, i + 1);
        let j = skip_ws(s, i + 1);
        if !(j < s.len() && s[j] == ']') {
            lemma_items_at_canonical(s, j, depth + 1);
            let vs = items_at(s, j, depth + 1).unwrap().0;
            lemma_item_texts_all(vs, depth + 1);
        }
    }
}

proof fn lemma_members_at_canonical(s: Seq<char>, i: int, depth: nat)
    requires
        members_at(s, i, depth) is Some,
    ensures
        forall|k: int|
            0 <= k < members_at(s, i, depth).unwrap().0.len() ==> (#[trigger] canonical_text(
                members_at(s, i, depth).unwrap().0[k].1,
                depth,
            )) is Some,
    decreases s.len() - i, 4int,
{
    lemma_skip_ws(s, i);
    let j = skip_ws(s, i);
    let (key, k) = crate::parser::string_at(s, j).unwrap();
    lemma_skip_ws(s, k);
    let k1 = skip_ws(s, k);
    lemma_skip_ws(s, k1 + 1);
    let k2 = skip_ws(s, k1 + 1);
    lemma_value_at_canonical(s, k2, depth);
    let (v, m) = value_at(s, k2, depth).unwrap();
    lemma_skip_ws(s, m);
    let m1 = skip_ws(s, m);
    let ms = members_at(s, i, depth).unwrap().0;
    if m1 < s.len() && s[m1] == ',' {
        lemma_members_at_canonical(s, m1 + 1, depth);
        let rest = members_at(s, m1 + 1, depth).unwrap().0;
        assert(ms == seq![(key, v)] + rest);
        assert forall|q: int| 0 <= q < ms.len() implies (#[trigger] canonical_text(ms[q].1, depth)) is Some by {
            if q > 0 {
                assert(ms[q] == rest[q - 1]);
            }
        }
    }
}

proof fn lemma_items_at_canonical(s: Seq<char>, i: int, depth: nat)
    requires
        items_at(s, i, depth) is Some,
    ensures
        forall|k: int|
            0 <= k < items_at(s, i, depth).unwrap().0.len() ==> (#[trigger] canonical_text(
                items_at(s, i, depth).unwrap().0[k],
                depth,
            )) is Some,
    decreases s.len() - i, 4int,
{
    lemma_skip_ws(s, i);
    let j = skip_ws(s, i);
    lemma_value_at_canonical(s, j, depth);
    let (v, m) = value_at(s, j, depth).unwrap();
    lemma_skip_ws(s, m);
    let m1 = skip_ws(s, m);
    let vs = items_at(s, i, depth).unwrap().0;
    if m1 < s.len() && s[m1] == ',' {
        lemma_items_at_canonical(s, m1 + 1, depth);
        let rest = items_at(s, m1 + 1, depth).unwrap().0;
        assert(vs == seq![v] + rest);
        assert forall|q: int| 0 <= q < vs.len() implies (#[trigger] canonical_text(vs[q], depth)) is Some by {
            if q > 0 {
                assert(vs[q] == rest[q - 1]);
            }
        }
    }
}

/// Every JSON text the parser accepts lies in the JCS domain: its value can
/// always be canonicalized.
pub proof fn lemma_parsed_is_canonicalizable(input: Seq<u8>)
    requires
        parse_spec(input) is Some,
    ensures
        canonical_bytes(parse_spec(input).unwrap()) is Some,
        canonical_form(input) is Some,
{
    let s = decode_utf8(input);
    lemma_skip_ws(s, 0);
    lemma_value_at_canonical(s, skip_ws(s, 0), 0);
}

pub proof fn lemma_model_items_push(s: Seq<JcsValue>, x: JcsValue)
    ensures
        model_items(s.push(x)) == model_items(s).push(model(x)),
{
    assert(s.push(x).subrange(0, s.len() as int) =~= s);
}

pub proof fn lemma_model_members_push(s: Seq<(String, JcsValue)>, x: (String, JcsValue))
    ensures
        model_members(s.push(x)) == model_members(s).push((x.0@, model(x.1))),
{
    assert(s.push(x).subrange(0, s.len() as int) =~= s);
}

/// A deep copy of `v`.
pub fn clone_value(v: &JcsValue) -> (r: JcsValue)
    ensures
        model(r) == model(*v),
    decreases v,
{
    match v {
        JcsValue::Null => JcsValue::Null,
        JcsValue::Bool(b) => JcsValue::Bool(*b),
        JcsValue::Number(t) => JcsValue::Number(t.clone()),
        JcsValue::String(s) => JcsValue::String(s.clone()),
        JcsValue::Array(items) => {
            let mut out: Vec<JcsValue> = Vec::new();
            let mut i: usize = 0;
            assert(items@.take(0) =~= out@);
            while i < items.len()
                invariant
                    i <= items@.len(),
                    v is Array,
                    v->Array_0 == *items,
                    model_items(out@) == model_items(items@.take(i as int)),
                decreases items@.len() - i,
            {
                proof {
                    assert(decreases_to!(*v => v->Array_0));
                    assert(decreases_to!(*items => items@));
                    assert(decreases_to!(items@ => items@[i as int]));
                }
                let c = clone_value(&items[i]);
                proof {
                    lemma_model_items_push(out@, c);
                    lemma_model_items_push(items@.take(i as int), items@[i as int]);
                    assert(items@.take(i as int + 1) =~= items@.take(i as int).push(items@[i as int]));
                }
                out.push(c);
                i = i + 1;
            }
            assert(items@.take(items@.len() as int) =~= items@);
            JcsValue::Array(out)
        },
        JcsValue::Object(members) => {
            let mut out: Vec<(String, JcsValue)> = Vec::new();
            let mut i: usize = 0;
            assert(members@.take(0) =~= out@);
            while i < members.len()
                invariant
                    i <= members@.len(),
                    v is Object,
                    v->Object_0 == *members,
                    model_members(out@) == model_members(members@.take(i as int)),
                decreases members@.len() - i,
            {
                proof {
                    assert(decreases_to!(*v => v->Object_0));
                    assert(decreases_to!(*members => members@));
                    assert(decreases_to!(members@ => members@[i as int]));
                    assert(decreases_to!(members@[i as int] => members@[i as int].1));
                }
                let k = members[i].0.clone();
                let c = clone_value(&members[i].1);
                proof {
                    lemma_model_members_push(out@, (k, c));
                    lemma_model_members_push(members@.take(i as int), members@[i as int]);
                    assert(members@.take(i as int + 1) =~= members@.take(i as int).push(members@[i as int]));
                }
                out.push((k, c));
                i = i + 1;
            }
            assert(members@.take(members@.len() as int) =~= members@);
            JcsValue::Object(out)
        },
    }
}

/// Canonical output is stable across serialization differences: two JSON
/// texts that differ only in insignificant whitespace between tokens and in
/// the order in which objects (at any depth) list their members have the same
/// canonical form (and so the same hash).
pub proof fn lemma_canonical_form_ignores_layout(b1: Seq<u8>, b2: Seq<u8>)
    requires
        parse_spec(b1) is Some,
        parse_spec(b2) is Some,
        same_up_to_order(parse_spec(b1).unwrap(), parse_spec(b2).unwrap()),
    ensures
        canonical_form(b1) == canonical_form(b2),
{
    lemma_same_up_to_order_text(parse_spec(b1).unwrap(), parse_spec(b2).unwrap(), 0);
}

} // verus!
