//! RFC 8785 canonical serialization of a JSON value.
//!
//! Object members are sorted by the UTF-16 code units of their names, strings
//! escape only `"`, `\` and the control characters U+0000–U+001F, numbers take
//! the ECMAScript form of their nearest double, and there is no insignificant
//! whitespace. Containers nested [`MAX_PARSE_DEPTH`] deep, objects with a
//! duplicate member name and numbers outside the double domain fail closed.

use vstd::prelude::*;
use vstd::relations::sorted_by;
use vstd::seq_lib::*;
use crate::IntegrityError;
use crate::canonical::{is_canon_fail, Json, JcsValue, model, model_items, model_members, canon_fail, lemma_model_items, lemma_model_members};
use crate::number::{number_text, canonical_number, push_range};
use crate::order::{utf16_order, key_less, entry_order, lemma_entry_leq_total, lemma_key_less_strict_total};
use crate::parser::{MAX_PARSE_DEPTH, has_duplicate_keys};
use crate::text::chars_of;
use crate::manifest::find_member;
use crate::roundtrip::stable_numbers;

verus! {

pub open spec fn hex_lower() -> Seq<char> {
    seq!['0', '1', '2', '3', '4', '5', '6', '7', '8', '9', 'a', 'b', 'c', 'd', 'e', 'f']
}

/// The canonical escape of one string character.
pub open spec fn escape_char(c: char) -> Seq<char> {
    if c == '"' {
        seq!['\\', '"']
    } else if c == '\\' {
        seq!['\\', '\\']
    } else if c == '\u{0008}' {
        seq!['\\', 'b']
    } else if c == '\t' {
        seq!['\\', 't']
    } else if c == '\n' {
        seq!['\\', 'n']
    } else if c == '\u{000C}' {
        seq!['\\', 'f']
    } else if c == '\r' {
        seq!['\\', 'r']
    } else if (c as u32) <= 0x1F {
        seq!['\\', 'u', '0', '0', hex_lower()[(c as u32 / 16) as int], hex_lower()[(c as u32 % 16) as int]]
    } else {
        seq![c]
    }
}

pub open spec fn escaped(s: Seq<char>) -> Seq<char>
    decreases s.len(),
{
    if s.len() == 0 {
        Seq::empty()
    } else {
        escaped(s.drop_last()) + escape_char(s.last())
    }
}

/// A canonical string literal.
pub open spec fn quoted(s: Seq<char>) -> Seq<char> {
    seq!['"'] + escaped(s) + seq!['"']
}

/// `parts` separated by commas.
pub open spec fn join(parts: Seq<Seq<char>>) -> Seq<char>
    decreases parts.len(),
{
    if parts.len() == 0 {
        Seq::empty()
    } else if parts.len() == 1 {
        parts[0]
    } else {
        join(parts.drop_last()) + seq![','] + parts.last()
    }
}

pub open spec fn entry_texts(es: Seq<(Seq<char>, Seq<char>)>) -> Seq<Seq<char>> {
    es.map_values(|e: (Seq<char>, Seq<char>)| e.1)
}

/// The RFC 8785 canonical text of `v` at container depth `depth`, or `None`
/// when `v` (or a value inside it) is outside the JCS domain.
pub open spec fn canonical_text(v: Json, depth: nat) -> Option<Seq<char>>
    decreases v, 0int,
{
    match v {
        Json::Null => Some(seq!['n', 'u', 'l', 'l']),
        Json::Bool(b) => if b {
            Some(seq!['t', 'r', 'u', 'e'])
        } else {
            Some(seq!['f', 'a', 'l', 's', 'e'])
        },
        Json::Number(t) => number_text(t),
        Json::Str(s) => Some(quoted(s)),
        Json::Array(items) => if depth >= MAX_PARSE_DEPTH {
            None
        } else {
            match item_texts(items, depth + 1) {
                Some(ts) => Some(seq!['['] + join(ts) + seq![']']),
                None => None,
            }
        },
        Json::Object(ms) => if depth >= MAX_PARSE_DEPTH || has_duplicate_keys(ms) {
            None
        } else {
            match member_entries(ms, depth + 1) {
                Some(es) => Some(
                    seq!['{'] + join(entry_texts(es.sort_by(entry_order()))) + seq!['}'],
                ),
                None => None,
            }
        },
    }
}

/// Canonical texts of array items, in order.
pub open spec fn item_texts(items: Seq<Json>, depth: nat) -> Option<Seq<Seq<char>>>
    decreases items, 1int,
{
    if items.len() == 0 {
        Some(Seq::empty())
    } else {
        match item_texts(items.subrange(0, items.len() - 1), depth) {
            Some(ts) => match canonical_text(items[items.len() - 1], depth) {
                Some(t) => Some(ts.push(t)),
                None => None,
            },
            None => None,
        }
    }
}

/// For each member, its name and its canonical `"name":value` text, in order.
pub open spec fn member_entries(ms: Seq<(Seq<char>, Json)>, depth: nat) -> Option<
    Seq<(Seq<char>, Seq<char>)>,
>
    decreases ms, 1int,
{
    if ms.len() == 0 {
        Some(Seq::empty())
    } else {
        match member_entries(ms.subrange(0, ms.len() - 1), depth) {
            Some(es) => match canonical_text(ms[ms.len() - 1].1, depth) {
                Some(t) => Some(
                    es.push(
                        (ms[ms.len() - 1].0, quoted(ms[ms.len() - 1].0) + seq![':'] + t),
                    ),
                ),
                None => None,
            },
            None => None,
        }
    }
}

proof fn lemma_escaped_push(s: Seq<char>, c: char)
    ensures
        escaped(s.push(c)) == escaped(s) + escape_char(c),
{
    assert(s.push(c).drop_last() =~= s);
}

/// The lowercase hexadecimal digit of `v`.
fn hex_char(v: u32) -> (c: char)
    requires
        v < 16,
    ensures
        c == hex_lower()[v as int],
{
    if v < 8 {
        if v < 4 {
            if v == 0 { '0' } else if v == 1 { '1' } else if v == 2 { '2' } else { '3' }
        } else {
            if v == 4 { '4' } else if v == 5 { '5' } else if v == 6 { '6' } else { '7' }
        }
    } else {
        if v < 12 {
            if v == 8 { '8' } else if v == 9 { '9' } else if v == 10 { 'a' } else { 'b' }
        } else {
            if v == 12 { 'c' } else if v == 13 { 'd' } else if v == 14 { 'e' } else { 'f' }
        }
    }
}

/// Append the canonical escape of one string character.
fn push_escaped_char(c: char, out: &mut Vec<char>)
    ensures
        final(out)@ == old(out)@ + escape_char(c),
{
    let ghost start = out@;
    if c == '"' {
        out.push('\\');
        out.push('"');
    } else if c == '\\' {
        out.push('\\');
        out.push('\\');
    } else if c == '\u{0008}' {
        out.push('\\');
        out.push('b');
    } else if c == '\t' {
        out.push('\\');
        out.push('t');
    } else if c == '\n' {
        out.push('\\');
        out.push('n');
    } else if c == '\u{000C}' {
        out.push('\\');
        out.push('f');
    } else if c == '\r' {
        out.push('\\');
        out.push('r');
    } else if (c as u32) <= 0x1F {
        let v = c as u32;
        out.push('\\');
        out.push('u');
        out.push('0');
        out.push('0');
        out.push(hex_char(v / 16));
        out.push(hex_char(v % 16));
    } else {
        out.push(c);
    }
    assert(out@ =~= start + escape_char(c));
}

/// Append the RFC 8785 string literal of `s`: only `"`, `\` and U+0000–U+001F
/// are escaped (short forms where they exist, else `\u00xx` in lowercase hex);
/// every other character is written as itself.
pub fn write_string(s: &str, out: &mut Vec<char>)
    ensures
        final(out)@ == old(out)@ + quoted(s@),
{
    let cs = chars_of(s);
    let ghost start = out@;
    out.push('"');
    let mut i: usize = 0;
    while i < cs.len()
        invariant
            i <= cs.len(),
            cs@ == s@,
            out@ == start + seq!['"'] + escaped(cs@.take(i as int)),
        decreases cs.len() - i,
    {
        proof {
            assert(cs@.take(i as int + 1) =~= cs@.take(i as int).push(cs@[i as int]));
            lemma_escaped_push(cs@.take(i as int), cs@[i as int]);
        }
        push_escaped_char(cs[i], out);
        i = i + 1;
    }
    out.push('"');
    assert(cs@.take(cs.len() as int) =~= cs@);
    assert(out@ =~= start + quoted(s@));
}

pub open spec fn entries_view(v: Seq<(String, Vec<char>)>) -> Seq<(Seq<char>, Seq<char>)> {
    v.map_values(|e: (String, Vec<char>)| (e.0@, e.1@))
}

/// Entry names strictly increase in UTF-16 order.
pub open spec fn keys_increasing(v: Seq<(Seq<char>, Seq<char>)>) -> bool {
    forall|i: int, j: int| 0 <= i < j < v.len() ==> #[trigger] key_less(v[i].0, v[j].0)
}

pub open spec fn keys_distinct(v: Seq<(Seq<char>, Seq<char>)>) -> bool {
    forall|i: int, j: int| 0 <= i < j < v.len() ==> #[trigger] v[i].0 != #[trigger] v[j].0
}

proof fn lemma_join_push(ts: Seq<Seq<char>>, t: Seq<char>)
    ensures
        join(ts.push(t)) == if ts.len() == 0 {
            t
        } else {
            join(ts) + seq![','] + t
        },
{
    assert(ts.push(t).drop_last() =~= ts);
    if ts.len() == 0 {
        assert(ts.push(t) =~= seq![t]);
    }
}

proof fn lemma_model_items_take(items: Seq<JcsValue>, i: int)
    requires
        0 <= i < items.len(),
    ensures
        model_items(items.take(i + 1)) == model_items(items.take(i)).push(model(items[i])),
{
    assert(items.take(i + 1).subrange(0, i) =~= items.take(i));
}

proof fn lemma_model_items_prefix(items: Seq<JcsValue>, n: int)
    requires
        0 <= n <= items.len(),
    ensures
        model_items(items.take(n)) == model_items(items).take(n),
{
    lemma_model_items(items);
    lemma_model_items(items.take(n));
    assert(model_items(items.take(n)) =~= model_items(items).take(n));
}

proof fn lemma_model_members_prefix(ms: Seq<(String, JcsValue)>, n: int)
    requires
        0 <= n <= ms.len(),
    ensures
        model_members(ms.take(n)) == model_members(ms).take(n),
{
    lemma_model_members(ms);
    lemma_model_members(ms.take(n));
    assert(model_members(ms.take(n)) =~= model_members(ms).take(n));
}

proof fn lemma_model_members_take(ms: Seq<(String, JcsValue)>, i: int)
    requires
        0 <= i < ms.len(),
    ensures
        model_members(ms.take(i + 1)) == model_members(ms.take(i)).push(
            (ms[i].0@, model(ms[i].1)),
        ),
{
    assert(ms.take(i + 1).subrange(0, i) =~= ms.take(i));
}

proof fn lemma_item_texts_push(xs: Seq<Json>, x: Json, depth: nat)
    ensures
        item_texts(xs.push(x), depth) == match item_texts(xs, depth) {
            Some(ts) => match canonical_text(x, depth) {
                Some(t) => Some(ts.push(t)),
                None => None,
            },
            None => None,
        },
{
    assert(xs.push(x).subrange(0, xs.len() as int) =~= xs);
}

proof fn lemma_member_entries_push(ms: Seq<(Seq<char>, Json)>, m: (Seq<char>, Json), depth: nat)
    ensures
        member_entries(ms.push(m), depth) == match member_entries(ms, depth) {
            Some(es) => match canonical_text(m.1, depth) {
                Some(t) => Some(es.push((m.0, quoted(m.0) + seq![':'] + t))),
                None => None,
            },
            None => None,
        },
{
    assert(ms.push(m).subrange(0, ms.len() as int) =~= ms);
}

/// A failing prefix makes the whole item list fail.
proof fn lemma_item_texts_prefix_none(xs: Seq<Json>, n: int, depth: nat)
    requires
        0 <= n <= xs.len(),
        item_texts(xs.take(n), depth) is None,
    ensures
        item_texts(xs, depth) is None,
    decreases xs.len(),
{
    if n == xs.len() {
        assert(xs.take(n) =~= xs);
    } else {
        let p = xs.subrange(0, xs.len() - 1);
        assert(p.take(n) =~= xs.take(n));
        lemma_item_texts_prefix_none(p, n, depth);
    }
}

proof fn lemma_member_entries_prefix_none(ms: Seq<(Seq<char>, Json)>, n: int, depth: nat)
    requires
        0 <= n <= ms.len(),
        member_entries(ms.take(n), depth) is None,
    ensures
        member_entries(ms, depth) is None,
    decreases ms.len(),
{
    if n == ms.len() {
        assert(ms.take(n) =~= ms);
    } else {
        let p = ms.subrange(0, ms.len() - 1);
        assert(p.take(n) =~= ms.take(n));
        lemma_member_entries_prefix_none(p, n, depth);
    }
}

/// Each entry carries the name of its member.
proof fn lemma_member_entries_names(ms: Seq<(Seq<char>, Json)>, depth: nat)
    requires
        member_entries(ms, depth) is Some,
    ensures
        member_entries(ms, depth).unwrap().len() == ms.len(),
        forall|a: int|
            0 <= a < ms.len() ==> #[trigger] member_entries(ms, depth).unwrap()[a].0 == ms[a].0,
    decreases ms.len(),
{
    if ms.len() > 0 {
        lemma_member_entries_names(ms.subrange(0, ms.len() - 1), depth);
    }
}

/// Where `key` belongs among entries whose names strictly increase: `None`
/// when an entry already carries that name.
fn insertion_point(sorted: &Vec<(String, Vec<char>)>, key: &String) -> (r: Option<usize>)
    requires
        keys_increasing(entries_view(sorted@)),
    ensures
        match r {
            Some(p) => p <= sorted@.len() && (forall|j: int|
                0 <= j < p ==> key_less(#[trigger] sorted@[j].0@, key@)) && (forall|j: int|
                p <= j < sorted@.len() ==> key_less(key@, #[trigger] sorted@[j].0@)),
            None => exists|j: int| 0 <= j < sorted@.len() && #[trigger] sorted@[j].0@ == key@,
        },
{
    let ghost v = entries_view(sorted@);
    proof {
        lemma_key_less_strict_total();
    }
    let mut j: usize = 0;
    while j < sorted.len()
        invariant
            j <= sorted@.len(),
            v == entries_view(sorted@),
            keys_increasing(v),
            forall|q: int| 0 <= q < j ==> key_less(#[trigger] sorted@[q].0@, key@),
        decreases sorted.len() - j,
    {
        let c = utf16_order(sorted[j].0.as_str(), key.as_str());
        assert(v[j as int].0 == sorted@[j as int].0@);
        if c == 0 {
            return None;
        }
        if c > 0 {
            proof {
                lemma_key_less_strict_total();
            }
            assert forall|q: int| j <= q < sorted@.len() implies key_less(
                key@,
                #[trigger] sorted@[q].0@,
            ) by {
                if q > j {
                    assert(v[q].0 == sorted@[q].0@);
                    assert(key_less(v[j as int].0, v[q].0));
                }
            }
            return Some(j);
        }
        j = j + 1;
    }
    Some(j)
}

/// Append the canonical text of `value` (at container depth `depth`), or fail
/// closed when it is outside the JCS domain.
pub(crate) fn write_value(value: &JcsValue, depth: usize, out: &mut Vec<char>) -> (r: Result<(), IntegrityError>)
    ensures
        match r {
            Ok(_) => canonical_text(model(*value), depth as nat) matches Some(t) && final(out)@
                == old(out)@ + t && stable_numbers(model(*value)),
            Err(e) => canonical_text(model(*value), depth as nat) is None && is_canon_fail(e),
        },
    decreases value,
{
    match value {
        JcsValue::Null => {
            let ghost start = out@;
            out.push('n');
            out.push('u');
            out.push('l');
            out.push('l');
            assert(out@ =~= start + seq!['n', 'u', 'l', 'l']);
            Ok(())
        },
        JcsValue::Bool(b) => {
            let ghost start = out@;
            if *b {
                out.push('t');
                out.push('r');
                out.push('u');
                out.push('e');
                assert(out@ =~= start + seq!['t', 'r', 'u', 'e']);
            } else {
                out.push('f');
                out.push('a');
                out.push('l');
                out.push('s');
                out.push('e');
                assert(out@ =~= start + seq!['f', 'a', 'l', 's', 'e']);
            }
            Ok(())
        },
        JcsValue::Number(t) => {
            match canonical_number(t.as_str()) {
                Some(text) => {
                    let cs = chars_of(text.as_str());
                    push_range(cs.as_slice(), 0, cs.len(), out);
                    assert(cs@.subrange(0, cs@.len() as int) =~= cs@);
                    Ok(())
                },
                None => Err(canon_fail()),
            }
        },
        JcsValue::String(s) => {
            write_string(s.as_str(), out);
            Ok(())
        },
        JcsValue::Array(items) => {
            if depth >= MAX_PARSE_DEPTH {
                return Err(canon_fail());
            }
            let ghost start = out@;
            let ghost xs = model_items(items@);
            out.push('[');
            let mut idx: usize = 0;
            while idx < items.len()
                invariant
                    idx <= items@.len(),
                    depth < MAX_PARSE_DEPTH,
                    value is Array,
                    value->Array_0 == *items,
                    item_texts(model_items(items@.take(idx as int)), depth as nat + 1) matches Some(
                        ts,
                    ) && out@ == start + seq!['['] + join(ts),
                    forall|q: int| 0 <= q < idx ==> stable_numbers(model(#[trigger] items@[q])),
                decreases items@.len() - idx,
            {
                let ghost before = out@;
                let ghost ts = item_texts(model_items(items@.take(idx as int)), depth as nat + 1).unwrap();
                proof {
                    lemma_model_items_take(items@, idx as int);
                    lemma_item_texts_push(model_items(items@.take(idx as int)), model(items@[idx as int]), depth as nat + 1);
                }
                if idx > 0 {
                    out.push(',');
                }
                proof {
                    assert(decreases_to!(*value => value->Array_0));
                    assert(decreases_to!(*items => items@));
                    assert(decreases_to!(items@ => items@[idx as int]));
                }
                match write_value(&items[idx], depth + 1, out) {
                    Ok(_) => {},
                    Err(e) => {
                        proof {
                            lemma_model_items_prefix(items@, idx as int + 1);
                            lemma_model_items(items@);
                            lemma_item_texts_prefix_none(model_items(items@), idx as int + 1, depth as nat + 1);
                        }
                        return Err(e);
                    },
                }
                proof {
                    let t = canonical_text(model(items@[idx as int]), depth as nat + 1).unwrap();
                    lemma_join_push(ts, t);
                    assert(out@ =~= start + seq!['['] + join(ts.push(t)));
                }
                idx = idx + 1;
            }
            out.push(']');
            assert(items@.take(items@.len() as int) =~= items@);
            proof {
                lemma_model_items(items@);
                assert forall|q: int| 0 <= q < model_items(items@).len() implies stable_numbers(
                    #[trigger] model_items(items@)[q],
                ) by {
                    assert(stable_numbers(model(items@[q])));
                }
            }
            assert(out@ =~= start + canonical_text(model(*value), depth as nat).unwrap());
            Ok(())
        },
        JcsValue::Object(members) => {
            if depth >= MAX_PARSE_DEPTH {
                return Err(canon_fail());
            }
            let ghost d1 = depth as nat + 1;
            let mut sorted: Vec<(String, Vec<char>)> = Vec::new();
            let ghost mut es: Seq<(Seq<char>, Seq<char>)> = Seq::empty();
            proof {
                broadcast use vstd::seq_lib::group_to_multiset_ensures;
                assert(entries_view(sorted@) =~= es);
                assert(members@.take(0) =~= Seq::<(String, JcsValue)>::empty());
            }
            let mut idx: usize = 0;
            while idx < members.len()
                invariant
                    idx <= members@.len(),
                    depth < MAX_PARSE_DEPTH,
                    d1 == depth as nat + 1,
                    value is Object,
                    value->Object_0 == *members,
                    member_entries(model_members(members@.take(idx as int)), d1) == Some(es),
                    entries_view(sorted@).to_multiset() == es.to_multiset(),
                    keys_increasing(entries_view(sorted@)),
                    keys_distinct(es),
                    forall|q: int| 0 <= q < idx ==> stable_numbers(model(#[trigger] members@[q].1)),
                decreases members@.len() - idx,
            {
                let ghost prefix = model_members(members@.take(idx as int));
                let ghost m = (members@[idx as int].0@, model(members@[idx as int].1));
                proof {
                    lemma_model_members_take(members@, idx as int);
                    lemma_member_entries_push(prefix, m, d1);
                    assert(decreases_to!(*value => value->Object_0));
                    assert(decreases_to!(*members => members@));
                    assert(decreases_to!(members@ => members@[idx as int]));
                    assert(decreases_to!(members@[idx as int] => members@[idx as int].1));
                }
                let key = &members[idx].0;
                let mut text: Vec<char> = Vec::new();
                write_string(key.as_str(), &mut text);
                text.push(':');
                let ghost head = text@;
                match write_value(&members[idx].1, depth + 1, &mut text) {
                    Ok(_) => {},
                    Err(e) => {
                        proof {
                            lemma_model_members_prefix(members@, idx as int + 1);
                            lemma_model_members(members@);
                            lemma_member_entries_prefix_none(model_members(members@), idx as int + 1, d1);
                        }
                        return Err(e);
                    },
                }
                let ghost entry = (key@, text@);
                assert(entry == (m.0, quoted(m.0) + seq![':'] + canonical_text(m.1, d1).unwrap()));
                let ghost old_view = entries_view(sorted@);
                let p = match insertion_point(&sorted, key) {
                    Some(p) => p,
                    None => {
                        proof {
                            let j = choose|j: int| 0 <= j < sorted@.len() && #[trigger] sorted@[j].0@ == key@;
                            assert(old_view[j].0 == key@);
                            assert(old_view.contains(old_view[j]));
                            vstd::seq_lib::to_multiset_contains(old_view, old_view[j]);
                            vstd::seq_lib::to_multiset_contains(es, old_view[j]);
                            let a = choose|a: int| 0 <= a < es.len() && es[a] == old_view[j];
                            lemma_member_entries_names(prefix, d1);
                            lemma_model_members(members@);
                            lemma_model_members_prefix(members@, idx as int);
                            let all = model_members(members@);
                            assert(all[a].0 == prefix[a].0);
                            assert(all[a].0 == key@);
                            assert(all[idx as int].0 == key@);
                            assert(has_duplicate_keys(all));
                        }
                        return Err(canon_fail());
                    },
                };
                proof {
                    lemma_key_less_strict_total();
                    lemma_member_entries_names(prefix, d1);
                    assert forall|a: int| 0 <= a < es.len() implies es[a].0 != key@ by {
                        assert(es.contains(es[a]));
                        vstd::seq_lib::to_multiset_contains(es, es[a]);
                        vstd::seq_lib::to_multiset_contains(old_view, es[a]);
                        let j = choose|j: int| 0 <= j < old_view.len() && old_view[j] == es[a];
                        assert(old_view[j].0 == sorted@[j].0@);
                        if j < p {
                            assert(key_less(sorted@[j].0@, key@));
                        } else {
                            assert(key_less(key@, sorted@[j].0@));
                        }
                    }
                }
                sorted.insert(p, (key.clone(), text));
                proof {
                    let new_view = entries_view(sorted@);
                    assert(new_view =~= old_view.insert(p as int, entry));
                    vstd::seq_lib::to_multiset_insert(old_view, p as int, entry);
                    vstd::seq_lib::to_multiset_build(es, entry);
                    assert forall|i: int, j: int| 0 <= i < j < new_view.len() implies #[trigger] key_less(
                        new_view[i].0,
                        new_view[j].0,
                    ) by {
                        if j < p {
                        } else if j == p {
                            assert(key_less(sorted@[i].0@, key@));
                        } else if i < p {
                            assert(key_less(old_view[i].0, old_view[j - 1].0));
                        } else if i == p {
                            assert(old_view[j - 1].0 == sorted@[j].0@);
                        } else {
                            assert(key_less(old_view[i - 1].0, old_view[j - 1].0));
                        }
                    }
                    es = es.push(entry);
                }
                idx = idx + 1;
            }
            let ghost all = model_members(members@);
            let ghost sv = entries_view(sorted@);
            proof {
                lemma_model_members(members@);
                assert forall|q: int| 0 <= q < all.len() implies stable_numbers(#[trigger] all[q].1) by {
                    assert(stable_numbers(model(members@[q].1)));
                }
                assert(members@.take(members@.len() as int) =~= members@);
                lemma_member_entries_names(all, d1);
                assert forall|a: int, b: int| 0 <= a < b < all.len() implies all[a].0 != all[b].0 by {
                    assert(es[a].0 == all[a].0);
                    assert(es[b].0 == all[b].0);
                }
                assert(!has_duplicate_keys(all));
                lemma_entry_leq_total();
                es.lemma_sort_by_ensures(entry_order());
                assert(sorted_by(sv, entry_order()));
                vstd::seq_lib::lemma_sorted_unique(sv, es.sort_by(entry_order()), entry_order());
            }
            let ghost start = out@;
            out.push('{');
            let mut k: usize = 0;
            while k < sorted.len()
                invariant
                    k <= sorted@.len(),
                    sv == entries_view(sorted@),
                    out@ == start + seq!['{'] + join(entry_texts(sv.take(k as int))),
                decreases sorted@.len() - k,
            {
                proof {
                    assert(entry_texts(sv.take(k as int + 1)) =~= entry_texts(sv.take(k as int)).push(sorted@[k as int].1@));
                    lemma_join_push(entry_texts(sv.take(k as int)), sorted@[k as int].1@);
                }
                if k > 0 {
                    out.push(',');
                }
                push_range(sorted[k].1.as_slice(), 0, sorted[k].1.len(), out);
                assert(sorted@[k as int].1@.subrange(0, sorted@[k as int].1@.len() as int) =~= sorted@[k as int].1@);
                k = k + 1;
            }
            out.push('}');
            assert(sv.take(sv.len() as int) =~= sv);
            assert(out@ =~= start + canonical_text(model(*value), depth as nat).unwrap());
            Ok(())
        },
    }
}

/// Mapping two sequences with the same elements gives sequences with the
/// same elements.
pub proof fn lemma_map_values_multiset<A, B>(s1: Seq<A>, s2: Seq<A>, f: spec_fn(A) -> B)
    requires
        s1.to_multiset() == s2.to_multiset(),
    ensures
        s1.map_values(f).to_multiset() == s2.map_values(f).to_multiset(),
    decreases s1.len(),
{
    broadcast use vstd::seq_lib::group_to_multiset_ensures;
    broadcast use vstd::multiset::group_multiset_axioms;

    if s1.len() == 0 {
        vstd::seq_lib::to_multiset_len(s1);
        vstd::seq_lib::to_multiset_len(s2);
        assert(s2.len() == 0);
        assert(s1.map_values(f) =~= s2.map_values(f));
    } else {
        let x = s1.last();
        let p1 = s1.drop_last();
        assert(s1 =~= p1.push(x));
        assert(s2.to_multiset().count(x) > 0);
        assert(s2.contains(x));
        let j = choose|j: int| 0 <= j < s2.len() && s2[j] == x;
        let p2 = s2.remove(j);
        assert(p1.to_multiset() =~= s1.to_multiset().remove(x));
        assert(p2.to_multiset() =~= s2.to_multiset().remove(x));
        lemma_map_values_multiset(p1, p2, f);
        let m1 = s1.map_values(f);
        let m2 = s2.map_values(f);
        assert(m1 =~= p1.map_values(f).push(f(x)));
        assert(p2.map_values(f) =~= m2.remove(j));
        assert(m2[j] == f(x));
        assert(m1.to_multiset() =~= p1.map_values(f).to_multiset().insert(f(x)));
        assert(m2.remove(j).to_multiset() =~= m2.to_multiset().remove(f(x)));
        assert(m2.to_multiset().count(f(x)) > 0) by {
            assert(m2.contains(f(x)));
        }
        assert(m2.to_multiset() =~= m2.to_multiset().remove(f(x)).insert(f(x)));
    }
}

/// The serialized entry of one member at `depth`.
pub open spec fn member_entry(m: (Seq<char>, Json), depth: nat) -> (Seq<char>, Seq<char>) {
    (m.0, quoted(m.0) + seq![':'] + canonical_text(m.1, depth).unwrap())
}

pub open spec fn member_entry_fn(depth: nat) -> spec_fn((Seq<char>, Json)) -> (Seq<char>, Seq<char>) {
    |m: (Seq<char>, Json)| member_entry(m, depth)
}

pub open spec fn members_canonical(ms: Seq<(Seq<char>, Json)>, depth: nat) -> bool {
    forall|i: int| 0 <= i < ms.len() ==> (#[trigger] canonical_text(ms[i].1, depth)) is Some
}

pub proof fn lemma_member_entries_map(ms: Seq<(Seq<char>, Json)>, depth: nat)
    ensures
        member_entries(ms, depth) == if members_canonical(ms, depth) {
            Some(ms.map_values(member_entry_fn(depth)))
        } else {
            None::<Seq<(Seq<char>, Seq<char>)>>
        },
    decreases ms.len(),
{
    if ms.len() > 0 {
        let p = ms.subrange(0, ms.len() - 1);
        lemma_member_entries_map(p, depth);
        assert(members_canonical(ms, depth) == (members_canonical(p, depth) && canonical_text(
            ms[ms.len() - 1].1,
            depth,
        ) is Some)) by {
            if members_canonical(p, depth) && canonical_text(ms[ms.len() - 1].1, depth) is Some {
                assert forall|i: int| 0 <= i < ms.len() implies (#[trigger] canonical_text(
                    ms[i].1,
                    depth,
                )) is Some by {
                    if i < ms.len() - 1 {
                        assert(ms[i] == p[i]);
                    }
                }
            }
            if members_canonical(ms, depth) {
                assert forall|i: int| 0 <= i < p.len() implies (#[trigger] canonical_text(
                    p[i].1,
                    depth,
                )) is Some by {
                    assert(ms[i] == p[i]);
                }
            }
        }
        if members_canonical(ms, depth) {
            assert(ms.map_values(member_entry_fn(depth)) =~= p.map_values(member_entry_fn(depth)).push(
                member_entry(ms[ms.len() - 1], depth),
            ));
        }
    }
}

proof fn lemma_members_canonical_perm(ms1: Seq<(Seq<char>, Json)>, ms2: Seq<(Seq<char>, Json)>, depth: nat)
    requires
        ms1.to_multiset() == ms2.to_multiset(),
        members_canonical(ms1, depth),
    ensures
        members_canonical(ms2, depth),
{
    broadcast use vstd::seq_lib::group_to_multiset_ensures;

    assert forall|i: int| 0 <= i < ms2.len() implies (#[trigger] canonical_text(ms2[i].1, depth)) is Some by {
        assert(ms2.contains(ms2[i]));
        assert(ms1.to_multiset().count(ms2[i]) > 0);
        assert(ms1.contains(ms2[i]));
    }
}

pub open spec fn member_names(ms: Seq<(Seq<char>, Json)>) -> Seq<Seq<char>> {
    ms.map_values(|m: (Seq<char>, Json)| m.0)
}

pub proof fn lemma_duplicates_by_names(ms: Seq<(Seq<char>, Json)>)
    ensures
        has_duplicate_keys(ms) == !member_names(ms).no_duplicates(),
{
    let names = member_names(ms);
    if has_duplicate_keys(ms) {
        let (a, b) = choose|a: int, b: int| 0 <= a < b < ms.len() && #[trigger] ms[a].0 == #[trigger] ms[b].0;
        assert(names[a] == names[b]);
    }
    if !names.no_duplicates() {
        let (a, b) = choose|a: int, b: int| 0 <= a < names.len() && 0 <= b < names.len() && a != b && names[a] == names[b];
        if a < b {
            assert(ms[a].0 == ms[b].0);
        } else {
            assert(ms[b].0 == ms[a].0);
        }
    }
}

pub proof fn lemma_no_duplicates_perm<A>(s1: Seq<A>, s2: Seq<A>)
    requires
        s1.to_multiset() == s2.to_multiset(),
        s1.no_duplicates(),
    ensures
        s2.no_duplicates(),
{
    broadcast use vstd::seq_lib::group_to_multiset_ensures;

    s1.lemma_multiset_has_no_duplicates();
    assert forall|x: A| s2.to_multiset().contains(x) implies s2.to_multiset().count(x) == 1 by {
        assert(s1.to_multiset().contains(x));
    }
    s2.lemma_multiset_has_no_duplicates_conv();
}

/// Reordering the members of an object does not change its canonical text:
/// the canonical form, and so the descriptor hash, does not depend on the
/// order in which an object lists its members.
pub proof fn lemma_member_order_irrelevant(ms1: Seq<(Seq<char>, Json)>, ms2: Seq<(Seq<char>, Json)>, depth: nat)
    requires
        ms1.to_multiset() == ms2.to_multiset(),
    ensures
        canonical_text(Json::Object(ms1), depth) == canonical_text(Json::Object(ms2), depth),
{
    let f = |m: (Seq<char>, Json)| m.0;
    lemma_map_values_multiset(ms1, ms2, f);
    assert(member_names(ms1) == ms1.map_values(f));
    assert(member_names(ms2) == ms2.map_values(f));
    lemma_duplicates_by_names(ms1);
    lemma_duplicates_by_names(ms2);
    if member_names(ms1).no_duplicates() {
        lemma_no_duplicates_perm(member_names(ms1), member_names(ms2));
    }
    if member_names(ms2).no_duplicates() {
        lemma_no_duplicates_perm(member_names(ms2), member_names(ms1));
    }
    lemma_member_entries_map(ms1, depth + 1);
    lemma_member_entries_map(ms2, depth + 1);
    if members_canonical(ms1, depth + 1) {
        lemma_members_canonical_perm(ms1, ms2, depth + 1);
    }
    if members_canonical(ms2, depth + 1) {
        lemma_members_canonical_perm(ms2, ms1, depth + 1);
    }
    if members_canonical(ms1, depth + 1) {
        let e1 = ms1.map_values(member_entry_fn(depth + 1));
        let e2 = ms2.map_values(member_entry_fn(depth + 1));
        lemma_map_values_multiset(ms1, ms2, member_entry_fn(depth + 1));
        lemma_entry_leq_total();
        e1.lemma_sort_by_ensures(entry_order());
        e2.lemma_sort_by_ensures(entry_order());
        vstd::seq_lib::lemma_sorted_unique(e1.sort_by(entry_order()), e2.sort_by(entry_order()), entry_order());
    }
}

/// `a` and `b` are the same JSON value up to the order in which their objects
/// (at any depth) list their members: arrays agree item by item, and objects
/// have the same member names, none repeated, each naming agreeing values.
pub open spec fn same_up_to_order(a: Json, b: Json) -> bool
    decreases a,
{
    match a {
        Json::Array(xs) => match b {
            Json::Array(ys) => xs.len() == ys.len() && forall|i: int|
                0 <= i < xs.len() ==> same_up_to_order(#[trigger] xs[i], ys[i]),
            _ => false,
        },
        Json::Object(ms) => match b {
            Json::Object(ns) => {
                &&& ms.len() == ns.len()
                &&& member_names(ms).no_duplicates()
                &&& member_names(ns).no_duplicates()
                &&& forall|i: int|
                    0 <= i < ms.len() ==> find_member(ns, #[trigger] ms[i].0) is Some && same_up_to_order(
                        ms[i].1,
                        find_member(ns, ms[i].0).unwrap(),
                    )
            },
            _ => false,
        },
        _ => a == b,
    }
}

proof fn lemma_find_member_contains(ns: Seq<(Seq<char>, Json)>, k: Seq<char>)
    requires
        find_member(ns, k) is Some,
    ensures
        ns.contains((k, find_member(ns, k).unwrap())),
    decreases ns.len(),
{
    if ns[0].0 == k {
        assert(ns[0] == (k, find_member(ns, k).unwrap()));
    } else {
        lemma_find_member_contains(ns.drop_first(), k);
        let j = choose|j: int| 0 <= j < ns.drop_first().len() && ns.drop_first()[j] == (k, find_member(ns, k).unwrap());
        assert(ns[j + 1] == ns.drop_first()[j]);
    }
}

/// A duplicate-free sequence whose items all occur in a duplicate-free
/// sequence of the same length lists the same items.
proof fn lemma_same_items<A>(ps: Seq<A>, ns: Seq<A>)
    requires
        ps.len() == ns.len(),
        ps.no_duplicates(),
        ns.no_duplicates(),
        forall|i: int| 0 <= i < ps.len() ==> ns.contains(#[trigger] ps[i]),
    ensures
        ps.to_multiset() == ns.to_multiset(),
{
    broadcast use vstd::multiset::group_multiset_axioms;
    ps.unique_seq_to_set();
    ns.unique_seq_to_set();
    assert(ps.to_set().subset_of(ns.to_set())) by {
        assert forall|x: A| ps.to_set().contains(x) implies ns.to_set().contains(x) by {
            let i = choose|i: int| 0 <= i < ps.len() && ps[i] == x;
            assert(ns.contains(ps[i]));
        }
    }
    vstd::set_lib::lemma_subset_equality(ps.to_set(), ns.to_set());
    ps.lemma_multiset_has_no_duplicates();
    ns.lemma_multiset_has_no_duplicates();
    ps.to_multiset_ensures();
    ns.to_multiset_ensures();
    assert forall|x: A| ps.to_multiset().count(x) == ns.to_multiset().count(x) by {
        assert(ps.contains(x) == ps.to_set().contains(x));
        assert(ns.contains(x) == ns.to_set().contains(x));
        if ps.contains(x) {
            assert(ps.to_multiset().contains(x));
            assert(ns.to_multiset().contains(x));
        }
    }
    assert(ps.to_multiset() =~= ns.to_multiset());
}

proof fn lemma_item_texts_pointwise(xs: Seq<Json>, ys: Seq<Json>, depth: nat)
    requires
        xs.len() == ys.len(),
        forall|i: int| 0 <= i < xs.len() ==> canonical_text(#[trigger] xs[i], depth) == canonical_text(ys[i], depth),
    ensures
        item_texts(xs, depth) == item_texts(ys, depth),
    decreases xs.len(),
{
    if xs.len() > 0 {
        let n = xs.len() - 1;
        lemma_item_texts_pointwise(xs.subrange(0, n), ys.subrange(0, n), depth);
        assert(canonical_text(xs[n], depth) == canonical_text(ys[n], depth));
    }
}

proof fn lemma_member_entries_pointwise(ms: Seq<(Seq<char>, Json)>, ps: Seq<(Seq<char>, Json)>, depth: nat)
    requires
        ms.len() == ps.len(),
        forall|i: int| 0 <= i < ms.len() ==> #[trigger] ms[i].0 == ps[i].0 && canonical_text(ms[i].1, depth)
            == canonical_text(ps[i].1, depth),
    ensures
        member_entries(ms, depth) == member_entries(ps, depth),
    decreases ms.len(),
{
    if ms.len() > 0 {
        let n = ms.len() - 1;
        lemma_member_entries_pointwise(ms.subrange(0, n), ps.subrange(0, n), depth);
        assert(ms[n].0 == ps[n].0);
    }
}

/// Values that agree up to member order have the same canonical text.
pub proof fn lemma_same_up_to_order_text(a: Json, b: Json, depth: nat)
    requires
        same_up_to_order(a, b),
    ensures
        canonical_text(a, depth) == canonical_text(b, depth),
    decreases a,
{
    match a {
        Json::Array(xs) => {
            let ys = b->Array_0;
            assert forall|i: int| 0 <= i < xs.len() implies canonical_text(#[trigger] xs[i], depth + 1)
                == canonical_text(ys[i], depth + 1) by {
                lemma_same_up_to_order_text(xs[i], ys[i], depth + 1);
            }
            lemma_item_texts_pointwise(xs, ys, depth + 1);
        },
        Json::Object(ms) => {
            let ns = b->Object_0;
            let ps = Seq::new(ms.len(), |i: int| (ms[i].0, find_member(ns, ms[i].0).unwrap()));
            assert forall|i: int| 0 <= i < ms.len() implies #[trigger] ms[i].0 == ps[i].0 && canonical_text(
                ms[i].1,
                depth + 1,
            ) == canonical_text(ps[i].1, depth + 1) by {
                lemma_same_up_to_order_text(ms[i].1, ps[i].1, depth + 1);
            }
            lemma_member_entries_pointwise(ms, ps, depth + 1);
            assert(member_names(ms) =~= member_names(ps));
            lemma_duplicates_by_names(ms);
            lemma_duplicates_by_names(ps);
            assert(canonical_text(Json::Object(ms), depth) == canonical_text(Json::Object(ps), depth));
            assert forall|i: int| 0 <= i < ps.len() implies ns.contains(#[trigger] ps[i]) by {
                lemma_find_member_contains(ns, ms[i].0);
            }
            assert(ps.no_duplicates()) by {
                assert forall|i: int, j: int| 0 <= i < ps.len() && 0 <= j < ps.len() && i != j implies ps[i]
                    != ps[j] by {
                    assert(member_names(ms)[i] == ms[i].0 && member_names(ms)[j] == ms[j].0);
                }
            }
            assert(ns.no_duplicates()) by {
                assert forall|i: int, j: int| 0 <= i < ns.len() && 0 <= j < ns.len() && i != j implies ns[i]
                    != ns[j] by {
                    assert(member_names(ns)[i] == ns[i].0 && member_names(ns)[j] == ns[j].0);
                }
            }
            lemma_same_items(ps, ns);
            lemma_member_order_irrelevant(ps, ns, depth);
        },
        _ => {},
    }
}

} // verus!
