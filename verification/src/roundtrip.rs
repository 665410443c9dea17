//! Canonical text reads back: the parser accepts every canonical text the
//! writer produces and finds a value with that same canonical text, so
//! canonicalization is idempotent.

use vstd::prelude::*;
use crate::canonical::{Json, canonical_form, canonical_bytes};
use crate::parser::parse_spec;
use crate::number::{digits_end, number_end, number_text, valid_number_token, is_digit};
use crate::parser::{escape_at, string_body_at, string_at, hex4_at, hex_value, unicode_escape_at, is_ws, skip_ws, value_at};
use crate::writer::{escape_char, escaped, quoted, hex_lower, canonical_text, item_texts, member_entries, join, entry_texts, member_entry, member_entry_fn, members_canonical, member_names, lemma_member_entries_map, lemma_duplicates_by_names, lemma_no_duplicates_perm, lemma_map_values_multiset};
use crate::parser::{items_at, members_at, has_duplicate_keys, document};
use crate::order::{entry_order, lemma_entry_leq_total};
use vstd::relations::sorted_by;

verus! {

proof fn lemma_escaped_cons(c: char, s: Seq<char>)
    ensures
        escaped(seq![c] + s) == escape_char(c) + escaped(s),
    decreases s.len(),
{
    let cs = seq![c] + s;
    if s.len() == 0 {
        assert(cs.drop_last() =~= Seq::<char>::empty());
        assert(cs.last() == c);
        assert(escaped(cs) == escaped(cs.drop_last()) + escape_char(cs.last()));
        assert(escaped(Seq::<char>::empty()) == Seq::<char>::empty());
        assert(escaped(cs) =~= escape_char(c));
        assert(escape_char(c) + escaped(s) =~= escape_char(c));
    } else {
        let p = s.drop_last();
        lemma_escaped_cons(c, p);
        assert(cs.drop_last() =~= seq![c] + p);
        assert(cs.last() == s.last());
        assert(escaped(cs) == escaped(cs.drop_last()) + escape_char(cs.last()));
        assert(escaped(s) == escaped(p) + escape_char(s.last()));
        assert(escaped(cs) =~= escape_char(c) + escaped(s));
    }
}

proof fn lemma_hex_lower_value(k: int)
    requires
        0 <= k < 16,
    ensures
        hex_value(hex_lower()[k]) == Some(k as u32),
{
    let h = hex_lower();
    if k == 0 { assert(h[0] == '0'); } else if k == 1 { assert(h[1] == '1'); }
    else if k == 2 { assert(h[2] == '2'); } else if k == 3 { assert(h[3] == '3'); }
    else if k == 4 { assert(h[4] == '4'); } else if k == 5 { assert(h[5] == '5'); }
    else if k == 6 { assert(h[6] == '6'); } else if k == 7 { assert(h[7] == '7'); }
    else if k == 8 { assert(h[8] == '8'); } else if k == 9 { assert(h[9] == '9'); }
    else if k == 10 { assert(h[10] == 'a'); } else if k == 11 { assert(h[11] == 'b'); }
    else if k == 12 { assert(h[12] == 'c'); } else if k == 13 { assert(h[13] == 'd'); }
    else if k == 14 { assert(h[14] == 'e'); } else { assert(h[15] == 'f'); }
}

/// The escape of one character reads back as that character.
proof fn lemma_escape_char_reads_back(x: Seq<char>, i: int, c: char)
    requires
        0 <= i,
        i + escape_char(c).len() <= x.len(),
        x.subrange(i, i + escape_char(c).len()) == escape_char(c),
    ensures
        escape_char(c).len() >= 1,
        escape_char(c)[0] == '\\' ==> escape_at(x, i + 1) == Some((c, i + escape_char(c).len())),
        escape_char(c)[0] != '\\' ==> escape_char(c) == seq![c] && c != '"' && c != '\\' && !(
        c as u32 <= 0x1F),
{
    let e = escape_char(c);
    assert(x[i] == e[0]);
    if e.len() >= 2 {
        assert(x[i + 1] == e[1]);
    }
    if c == '"' || c == '\\' || c == '\u{0008}' || c == '\t' || c == '\n' || c == '\u{000C}' || c
        == '\r' {
    } else if (c as u32) <= 0x1F {
        let v = c as u32;
        let hi = (v / 16) as int;
        let lo = (v % 16) as int;
        assert(x[i + 2] == e[2] && x[i + 3] == e[3] && x[i + 4] == e[4] && x[i + 5] == e[5]);
        lemma_hex_lower_value(0);
        lemma_hex_lower_value(hi);
        lemma_hex_lower_value(lo);
        assert(hex4_at(x, i + 2) == Some(v));
        vstd::utf8::char_u32_cast(c, v);
        assert(unicode_escape_at(x, i + 2) == Some((c, i + 6)));
    } else {
    }
}

/// A canonical string literal body reads back as its characters.
proof fn lemma_string_body_reads_back(x: Seq<char>, i: int, s: Seq<char>)
    requires
        0 <= i,
        i + escaped(s).len() < x.len(),
        x.subrange(i, i + escaped(s).len()) == escaped(s),
        x[i + escaped(s).len()] == '"',
    ensures
        string_body_at(x, i) == Some((s, i + escaped(s).len() + 1)),
    decreases s.len(),
{
    if s.len() == 0 {
        assert(escaped(s).len() == 0);
    } else {
        let c = s[0];
        let r = s.drop_first();
        assert(s =~= seq![c] + r);
        lemma_escaped_cons(c, r);
        let k = escape_char(c).len() as int;
        let n = escaped(s).len() as int;
        assert(x.subrange(i, i + k) =~= escaped(s).subrange(0, k));
        assert(escaped(s).subrange(0, k) =~= escape_char(c));
        assert(escaped(s).subrange(k, n) =~= escaped(r));
        assert(x.subrange(i + k, i + n) =~= x.subrange(i, i + n).subrange(k, n));
        assert(x.subrange(i + k, i + n) =~= escaped(r));
        lemma_escape_char_reads_back(x, i, c);
        lemma_string_body_reads_back(x, i + k, r);
        assert(x[i] == escape_char(c)[0]);
        if escape_char(c)[0] == '\\' {
        } else {
            assert(x[i] == c);
        }
        assert(seq![c] + r =~= s);
    }
}

/// A canonical string literal reads back as its characters.
pub proof fn lemma_quoted_reads_back(x: Seq<char>, i: int, s: Seq<char>)
    requires
        0 <= i,
        i + quoted(s).len() <= x.len(),
        x.subrange(i, i + quoted(s).len()) == quoted(s),
    ensures
        string_at(x, i) == Some((s, i + quoted(s).len())),
{
    let n = escaped(s).len() as int;
    assert(quoted(s).len() == n + 2);
    assert(x[i] == quoted(s)[0]);
    assert(x.subrange(i + 1, i + 1 + n) =~= quoted(s).subrange(1, 1 + n));
    assert(quoted(s).subrange(1, 1 + n) =~= escaped(s));
    assert(x[i + 1 + n] == quoted(s)[1 + n]);
    lemma_string_body_reads_back(x, i + 1, s);
}

/// A character that may follow a value in canonical text (or the end).
pub open spec fn stopper_at(x: Seq<char>, e: int) -> bool {
    e == x.len() || (0 <= e < x.len() && (x[e] == ',' || x[e] == ']' || x[e] == '}'))
}

/// `x` holds `t` at `i`.
pub open spec fn holds_at(x: Seq<char>, i: int, t: Seq<char>) -> bool {
    0 <= i && i + t.len() <= x.len() && x.subrange(i, i + t.len()) == t
}

proof fn lemma_digits_end_local(x: Seq<char>, i: int, n: Seq<char>, j: int)
    requires
        holds_at(x, i, n),
        stopper_at(x, i + n.len()),
        0 <= j <= n.len(),
    ensures
        digits_end(x, i + j) == i + digits_end(n, j),
    decreases n.len() - j,
{
    if j < n.len() {
        assert(x[i + j] == n[j]);
        if is_digit(n[j]) {
            lemma_digits_end_local(x, i, n, j + 1);
        }
    }
}

/// A number literal followed by a stopper ends where the literal ends.
proof fn lemma_number_end_local(x: Seq<char>, i: int, n: Seq<char>)
    requires
        valid_number_token(n),
        holds_at(x, i, n),
        stopper_at(x, i + n.len()),
    ensures
        number_end(x, i) == Some(i + n.len()),
        n.len() > 0,
        n[0] == '-' || is_digit(n[0]),
{
    let len = n.len() as int;
    assert forall|j: int| 0 <= j < len implies x[i + j] == n[j] by {
        assert(x.subrange(i, i + len)[j] == x[i + j]);
    }
    let an: int = if 0 < len && n[0] == '-' { 1 } else { 0 };
    assert(an < len && is_digit(n[an]));
    let bn = if n[an] == '0' { an + 1 } else { digits_end(n, an + 1) };
    lemma_digits_end_local(x, i, n, an + 1);
    crate::number::lemma_digits_end_props(n, an + 1);
    let fn_ = bn < len && n[bn] == '.';
    if bn < len {
        assert(x[i + bn] == n[bn]);
    }
    let cn = if fn_ { digits_end(n, bn + 1) } else { bn };
    if fn_ {
        lemma_digits_end_local(x, i, n, bn + 1);
        crate::number::lemma_digits_end_props(n, bn + 1);
    }
    if cn < len {
        assert(x[i + cn] == n[cn]);
    }
    if cn < len && (n[cn] == 'e' || n[cn] == 'E') {
        if cn + 1 < len {
            assert(x[i + cn + 1] == n[cn + 1]);
        }
        let dn = if cn + 1 < len && (n[cn + 1] == '+' || n[cn + 1] == '-') { cn + 2 } else { cn + 1 };
        lemma_digits_end_local(x, i, n, dn);
    }
}

/// Canonical text never starts with whitespace or a closing bracket.
proof fn lemma_text_first(v: Json, d: nat)
    requires
        canonical_text(v, d) is Some,
        stable_numbers(v),
    ensures
        canonical_text(v, d).unwrap().len() > 0,
        !is_ws(canonical_text(v, d).unwrap()[0]),
        canonical_text(v, d).unwrap()[0] != ']',
        canonical_text(v, d).unwrap()[0] != '}',
        canonical_text(v, d).unwrap()[0] != ',',
{
    match v {
        Json::Number(tok) => {
            let n = number_text(tok).unwrap();
            assert(number_text(n) == Some(n));
            assert(valid_number_token(n));
            let x = n;
            assert(holds_at(x, 0, n)) by {
                assert(x.subrange(0, n.len() as int) =~= n);
            }
            lemma_number_end_local(x, 0, n);
        },
        _ => {},
    }
}

/// Every number literal in the value has a canonical form that is its own
/// canonical form.
pub open spec fn stable_numbers(v: Json) -> bool
    decreases v,
{
    match v {
        Json::Number(t) => match number_text(t) {
            Some(n) => number_text(n) == Some(n),
            None => true,
        },
        Json::Array(items) => forall|k: int| 0 <= k < items.len() ==> stable_numbers(#[trigger] items[k]),
        Json::Object(ms) => forall|k: int| 0 <= k < ms.len() ==> stable_numbers(#[trigger] ms[k].1),
        _ => true,
    }
}

proof fn lemma_join_cons(a: Seq<char>, rest: Seq<Seq<char>>)
    ensures
        join(seq![a] + rest) == if rest.len() == 0 {
            a
        } else {
            a + seq![','] + join(rest)
        },
    decreases rest.len(),
{
    let all = seq![a] + rest;
    if rest.len() == 0 {
        assert(all =~= seq![a]);
    } else if rest.len() == 1 {
        assert(all.drop_last() =~= seq![a]);
        assert(join(seq![a]) == a);
        assert(join(rest) == rest[0]);
    } else {
        let p = rest.drop_last();
        lemma_join_cons(a, p);
        assert(all.drop_last() =~= seq![a] + p);
        assert(all.last() == rest.last());
        assert(join(rest) == join(p) + seq![','] + rest.last());
        assert(join(all) =~= a + seq![','] + join(rest));
    }
}

proof fn lemma_skip_ws_stays(x: Seq<char>, p: int)
    requires
        0 <= p,
        p >= x.len() || !is_ws(x[p]),
    ensures
        skip_ws(x, p) == p,
{
}

proof fn lemma_holds_prefix(x: Seq<char>, i: int, a: Seq<char>, b: Seq<char>)
    requires
        holds_at(x, i, a + b),
    ensures
        holds_at(x, i, a),
        holds_at(x, i + a.len(), b),
{
    let ab = a + b;
    assert forall|q: int| 0 <= q < ab.len() implies x[i + q] == ab[q] by {
        assert(x.subrange(i, i + ab.len())[q] == x[i + q]);
    }
    assert forall|q: int| 0 <= q < a.len() implies x.subrange(i, i + a.len())[q] == a[q] by {
        assert(ab[q] == a[q]);
    }
    assert(x.subrange(i, i + a.len()) =~= a);
    assert forall|q: int| 0 <= q < b.len() implies x.subrange(i + a.len(), i + a.len() + b.len())[q]
        == b[q] by {
        assert(ab[a.len() + q] == b[q]);
    }
    assert(x.subrange(i + a.len(), i + a.len() + b.len()) =~= b);
}

proof fn lemma_char_at(x: Seq<char>, i: int, t: Seq<char>, q: int)
    requires
        holds_at(x, i, t),
        0 <= q < t.len(),
    ensures
        x[i + q] == t[q],
{
    assert(x.subrange(i, i + t.len())[q] == x[i + q]);
}

/// The texts of `all[k0..]` at `d`.
pub open spec fn texts_from(all: Seq<Json>, k0: int, d: nat) -> Seq<Seq<char>> {
    Seq::new((all.len() - k0) as nat, |q: int| canonical_text(all[k0 + q], d).unwrap())
}

proof fn lemma_item_texts_elements(items: Seq<Json>, d: nat)
    requires
        item_texts(items, d) is Some,
    ensures
        item_texts(items, d).unwrap().len() == items.len(),
        forall|k: int| 0 <= k < items.len() ==> canonical_text(#[trigger] items[k], d) == Some(
            item_texts(items, d).unwrap()[k],
        ),
    decreases items.len(),
{
    if items.len() > 0 {
        let p = items.subrange(0, items.len() - 1);
        lemma_item_texts_elements(p, d);
        assert forall|k: int| 0 <= k < items.len() implies canonical_text(#[trigger] items[k], d) == Some(
            item_texts(items, d).unwrap()[k],
        ) by {
            if k < items.len() - 1 {
                assert(items[k] == p[k]);
            }
        }
    }
}

proof fn lemma_item_texts_from_elements(items: Seq<Json>, ts: Seq<Seq<char>>, d: nat)
    requires
        ts.len() == items.len(),
        forall|k: int| 0 <= k < items.len() ==> canonical_text(#[trigger] items[k], d) == Some(ts[k]),
    ensures
        item_texts(items, d) == Some(ts),
    decreases items.len(),
{
    if items.len() > 0 {
        let p = items.subrange(0, items.len() - 1);
        let tp = ts.subrange(0, ts.len() - 1);
        assert forall|k: int| 0 <= k < p.len() implies canonical_text(#[trigger] p[k], d) == Some(tp[k]) by {
            assert(p[k] == items[k]);
        }
        lemma_item_texts_from_elements(p, tp, d);
        assert(canonical_text(items[items.len() - 1], d) == Some(ts[ts.len() - 1]));
        assert(tp.push(ts[ts.len() - 1]) =~= ts);
    }
}

proof fn lemma_sort_sorted(ss: Seq<(Seq<char>, Seq<char>)>)
    requires
        sorted_by(ss, entry_order()),
    ensures
        ss.sort_by(entry_order()) == ss,
{
    lemma_entry_leq_total();
    ss.lemma_sort_by_ensures(entry_order());
    vstd::seq_lib::lemma_sorted_unique(ss, ss.sort_by(entry_order()), entry_order());
}

/// A canonical value text, followed by a stopper, parses back to a value with
/// the same canonical text.
#[verifier::spinoff_prover]
#[verifier::rlimit(60)]
proof fn lemma_value_reads_back(x: Seq<char>, i: int, v: Json, d: nat)
    requires
        canonical_text(v, d) is Some,
        stable_numbers(v),
        holds_at(x, i, canonical_text(v, d).unwrap()),
        stopper_at(x, i + canonical_text(v, d).unwrap().len()),
    ensures
        value_at(x, i, d) is Some,
        value_at(x, i, d).unwrap().1 == i + canonical_text(v, d).unwrap().len(),
        canonical_text(value_at(x, i, d).unwrap().0, d) == canonical_text(v, d),
    decreases v, 0int, 0int,
{
    let t = canonical_text(v, d).unwrap();
    lemma_text_first(v, d);
    lemma_char_at(x, i, t, 0);
    match v {
        Json::Null => {
            lemma_char_at(x, i, t, 1);
            lemma_char_at(x, i, t, 2);
            lemma_char_at(x, i, t, 3);
        },
        Json::Bool(b) => {
            lemma_char_at(x, i, t, 1);
            lemma_char_at(x, i, t, 2);
            lemma_char_at(x, i, t, 3);
            if !b {
                lemma_char_at(x, i, t, 4);
            }
        },
        Json::Number(tok) => {
            let n = number_text(tok).unwrap();
            assert(number_text(n) == Some(n));
            lemma_number_end_local(x, i, n);
        },
        Json::Str(s) => {
            lemma_quoted_reads_back(x, i, s);
        },
        Json::Array(items) => {
            assert(decreases_to!(v => items));
            lemma_array_reads_back(x, i, items, d);
        },
        Json::Object(ms) => {
            assert(decreases_to!(v => ms));
            lemma_object_reads_back(x, i, ms, d);
        },
    }
}

#[verifier::spinoff_prover]
#[verifier::rlimit(60)]
proof fn lemma_array_reads_back(x: Seq<char>, i: int, items: Seq<Json>, d: nat)
    requires
        canonical_text(Json::Array(items), d) is Some,
        stable_numbers(Json::Array(items)),
        holds_at(x, i, canonical_text(Json::Array(items), d).unwrap()),
        stopper_at(x, i + canonical_text(Json::Array(items), d).unwrap().len()),
    ensures
        value_at(x, i, d) == Some(
            (
                value_at(x, i, d).unwrap().0,
                i + canonical_text(Json::Array(items), d).unwrap().len(),
            ),
        ),
        canonical_text(value_at(x, i, d).unwrap().0, d) == canonical_text(Json::Array(items), d),
    decreases items, 2int, 0int,
{
    let t = canonical_text(Json::Array(items), d).unwrap();
    let ts = item_texts(items, d + 1).unwrap();
    assert(t == seq!['['] + join(ts) + seq![']']);
    lemma_holds_prefix(x, i, seq!['['] + join(ts), seq![']']);
    lemma_holds_prefix(x, i, seq!['['], join(ts));
    lemma_char_at(x, i, t, 0);
    lemma_char_at(x, i, t, t.len() - 1);
    let j = i + 1;
    if items.len() == 0 {
        assert(ts.len() == 0);
        assert(join(ts).len() == 0);
        lemma_char_at(x, i, t, 1);
        lemma_skip_ws_stays(x, j);
        assert(items =~= Seq::<Json>::empty());
    } else {
        lemma_item_texts_elements(items, d + 1);
        assert(ts =~= texts_from(items, 0, d + 1));
        assert(stable_numbers(items[0]));
        lemma_text_first(items[0], d + 1);
        lemma_join_cons(ts[0], ts.drop_first());
        assert(seq![ts[0]] + ts.drop_first() =~= ts);
        lemma_char_at(x, j, join(ts), 0);
        lemma_skip_ws_stays(x, j);
        assert forall|k: int| 0 <= k < items.len() implies stable_numbers(#[trigger] items[k]) by {}
        lemma_items_reads_back(x, j, items, 0, d + 1);
        let ws = items_at(x, j, d + 1).unwrap().0;
        lemma_item_texts_from_elements(ws, ts, d + 1);
    }
}

#[verifier::spinoff_prover]
#[verifier::rlimit(60)]
proof fn lemma_object_reads_back(x: Seq<char>, i: int, ms: Seq<(Seq<char>, Json)>, d: nat)
    requires
        canonical_text(Json::Object(ms), d) is Some,
        stable_numbers(Json::Object(ms)),
        holds_at(x, i, canonical_text(Json::Object(ms), d).unwrap()),
        stopper_at(x, i + canonical_text(Json::Object(ms), d).unwrap().len()),
    ensures
        value_at(x, i, d) == Some(
            (
                value_at(x, i, d).unwrap().0,
                i + canonical_text(Json::Object(ms), d).unwrap().len(),
            ),
        ),
        canonical_text(value_at(x, i, d).unwrap().0, d) == canonical_text(Json::Object(ms), d),
    decreases ms, 2int, 0int,
{
    let t = canonical_text(Json::Object(ms), d).unwrap();
    let es = member_entries(ms, d + 1).unwrap();
    let ss = es.sort_by(entry_order());
    let ets = entry_texts(ss);
    assert(t == seq!['{'] + join(ets) + seq!['}']);
    lemma_holds_prefix(x, i, seq!['{'] + join(ets), seq!['}']);
    lemma_holds_prefix(x, i, seq!['{'], join(ets));
    lemma_char_at(x, i, t, 0);
    lemma_char_at(x, i, t, t.len() - 1);
    let j = i + 1;
    lemma_member_entries_map(ms, d + 1);
    lemma_entry_leq_total();
    es.lemma_sort_by_ensures(entry_order());
    vstd::seq_lib::to_multiset_len(es);
    vstd::seq_lib::to_multiset_len(ss);
    if ms.len() == 0 {
        assert(ets.len() == 0);
        assert(join(ets).len() == 0);
        lemma_char_at(x, i, t, 1);
        lemma_skip_ws_stays(x, j);
        assert(ms =~= Seq::<(Seq<char>, Json)>::empty());
        assert(ss =~= Seq::<(Seq<char>, Seq<char>)>::empty());
    } else {
        lemma_sorted_entries_come_from_members(ms, d + 1, es, ss);
        assert(from_member(ms, d + 1, ss[0]));
        assert(ets[0] == ss[0].1);
        assert(ets[0][0] == '"');
        lemma_join_cons(ets[0], ets.drop_first());
        assert(seq![ets[0]] + ets.drop_first() =~= ets);
        lemma_char_at(x, j, join(ets), 0);
        lemma_skip_ws_stays(x, j);
        assert forall|p: int| 0 <= p < ms.len() implies stable_numbers(#[trigger] ms[p].1) by {}
        assert(ets.subrange(0, ets.len() as int) =~= ets);
        lemma_members_reads_back(x, j, ms, ss, 0, d + 1);
        let mws = members_at(x, j, d + 1).unwrap().0;
        lemma_parsed_members_distinct(ms, d + 1, es, ss, mws);
        lemma_member_entries_map(mws, d + 1);
        assert(mws.map_values(member_entry_fn(d + 1)) =~= ss);
        lemma_sort_sorted(ss);
    }
}

/// `e` is the serialized entry of some member of `ms`.
pub open spec fn from_member(ms: Seq<(Seq<char>, Json)>, d: nat, e: (Seq<char>, Seq<char>)) -> bool {
    exists|p: int| 0 <= p < ms.len() && #[trigger] member_entry(ms[p], d) == e
}

proof fn lemma_sorted_entries_come_from_members(
    ms: Seq<(Seq<char>, Json)>,
    d: nat,
    es: Seq<(Seq<char>, Seq<char>)>,
    ss: Seq<(Seq<char>, Seq<char>)>,
)
    requires
        es == ms.map_values(member_entry_fn(d)),
        ss.to_multiset() == es.to_multiset(),
    ensures
        forall|q: int|
            0 <= q < ss.len() ==> from_member(ms, d, #[trigger] ss[q]),
{
    assert forall|q: int| 0 <= q < ss.len() implies from_member(ms, d, #[trigger] ss[q]) by {
        let x = ss[q];
        assert(ss.contains(x));
        vstd::seq_lib::to_multiset_contains(ss, x);
        vstd::seq_lib::to_multiset_contains(es, x);
        assert(es.contains(x));
        let p = choose|p: int| 0 <= p < es.len() && es[p] == x;
        assert(es[p] == member_entry_fn(d)(ms[p]));
        assert(member_entry(ms[p], d) == ss[q]);
    }
}

proof fn lemma_parsed_members_distinct(
    ms: Seq<(Seq<char>, Json)>,
    d: nat,
    es: Seq<(Seq<char>, Seq<char>)>,
    ss: Seq<(Seq<char>, Seq<char>)>,
    mws: Seq<(Seq<char>, Json)>,
)
    requires
        !has_duplicate_keys(ms),
        es == ms.map_values(member_entry_fn(d)),
        ss.to_multiset() == es.to_multiset(),
        mws.len() == ss.len(),
        forall|q: int| 0 <= q < ss.len() ==> #[trigger] member_entry(mws[q], d) == ss[q],
    ensures
        !has_duplicate_keys(mws),
{
    let f = |e: (Seq<char>, Seq<char>)| e.0;
    let keys_ss = ss.map_values(f);
    let keys_es = es.map_values(f);
    lemma_map_values_multiset(es, ss, f);
    lemma_duplicates_by_names(ms);
    assert(keys_es =~= member_names(ms));
    lemma_no_duplicates_perm(keys_es, keys_ss);
    assert forall|q: int| 0 <= q < mws.len() implies member_names(mws)[q] == keys_ss[q] by {
        assert(member_entry(mws[q], d) == ss[q]);
    }
    assert(member_names(mws) =~= keys_ss);
    lemma_duplicates_by_names(mws);
}

/// The items of a canonical array text parse back.
#[verifier::spinoff_prover]
#[verifier::rlimit(60)]
proof fn lemma_items_reads_back(x: Seq<char>, j: int, all: Seq<Json>, k0: int, d: nat)
    requires
        0 <= k0 < all.len(),
        forall|k: int| k0 <= k < all.len() ==> (#[trigger] canonical_text(all[k], d)) is Some,
        forall|k: int| k0 <= k < all.len() ==> stable_numbers(#[trigger] all[k]),
        holds_at(x, j, join(texts_from(all, k0, d))),
        j + join(texts_from(all, k0, d)).len() < x.len(),
        x[j + join(texts_from(all, k0, d)).len()] == ']',
    ensures
        items_at(x, j, d) is Some,
        items_at(x, j, d).unwrap().1 == j + join(texts_from(all, k0, d)).len() + 1,
        items_at(x, j, d).unwrap().0.len() == all.len() - k0,
        forall|q: int|
            0 <= q < all.len() - k0 ==> canonical_text(#[trigger] items_at(x, j, d).unwrap().0[q], d)
                == Some(texts_from(all, k0, d)[q]),
    decreases all, 1int, all.len() - k0,
{
    let ts = texts_from(all, k0, d);
    let t0 = ts[0];
    let rest = ts.drop_first();
    assert(rest =~= texts_from(all, k0 + 1, d));
    lemma_join_cons(t0, rest);
    assert(seq![t0] + rest =~= ts);
    lemma_text_first(all[k0], d);
    let m = j + t0.len();
    assert(decreases_to!(all => all[k0]));
    if rest.len() == 0 {
        assert(join(ts) == t0);
        lemma_char_at(x, j, t0, 0);
        lemma_skip_ws_stays(x, j);
        lemma_value_reads_back(x, j, all[k0], d);
        lemma_skip_ws_stays(x, m);
    } else {
        assert(join(ts) == t0 + seq![','] + join(rest));
        lemma_holds_prefix(x, j, t0 + seq![','], join(rest));
        lemma_holds_prefix(x, j, t0, seq![',']);
        lemma_char_at(x, m, seq![','], 0);
        lemma_char_at(x, j, t0, 0);
        lemma_skip_ws_stays(x, j);
        lemma_value_reads_back(x, j, all[k0], d);
        lemma_skip_ws_stays(x, m);
        lemma_items_reads_back(x, m + 1, all, k0 + 1, d);
        let w = value_at(x, j, d).unwrap().0;
        let rs = items_at(x, m + 1, d).unwrap().0;
        assert(items_at(x, j, d) == Some((seq![w] + rs, j + join(ts).len() + 1)));
        assert forall|q: int| 0 <= q < all.len() - k0 implies canonical_text(
            #[trigger] items_at(x, j, d).unwrap().0[q],
            d,
        ) == Some(ts[q]) by {
            if q > 0 {
                assert((seq![w] + rs)[q] == rs[q - 1]);
                assert(texts_from(all, k0 + 1, d)[q - 1] == ts[q]);
            }
        }
    }
}

/// One member text `"key":value` followed by `after`.
proof fn lemma_member_split(
    x: Seq<char>,
    j: int,
    key: Seq<char>,
    vt: Seq<char>,
    after: Seq<char>,
)
    requires
        holds_at(x, j, quoted(key) + seq![':'] + vt + after),
        after.len() > 0,
    ensures
        holds_at(x, j, quoted(key)),
        x[j + quoted(key).len()] == ':',
        holds_at(x, j + quoted(key).len() + 1, vt),
        x[j + quoted(key).len() + 1 + vt.len()] == after[0],
        x[j] == '"',
{
    lemma_holds_prefix(x, j, quoted(key) + seq![':'] + vt, after);
    lemma_holds_prefix(x, j, quoted(key) + seq![':'], vt);
    lemma_holds_prefix(x, j, quoted(key), seq![':']);
    lemma_char_at(x, j + quoted(key).len(), seq![':'], 0);
    lemma_char_at(x, j + quoted(key).len() + 1 + vt.len(), after, 0);
    lemma_char_at(x, j, quoted(key), 0);
}

/// Where the parts of `"key":value` (followed by more members or the
/// closing brace) sit in `x`.
proof fn lemma_member_layout(
    x: Seq<char>,
    j: int,
    key: Seq<char>,
    vt: Seq<char>,
    ts: Seq<Seq<char>>,
)
    requires
        ts.len() > 0,
        ts[0] == quoted(key) + seq![':'] + vt,
        holds_at(x, j, join(ts)),
        j + join(ts).len() < x.len(),
        x[j + join(ts).len()] == '}',
    ensures
        holds_at(x, j, quoted(key)),
        x[j] == '"',
        x[j + quoted(key).len()] == ':',
        holds_at(x, j + quoted(key).len() + 1, vt),
        ts.len() == 1 ==> x[j + quoted(key).len() + 1 + vt.len()] == '}' && j + join(ts).len() == j
            + quoted(key).len() + 1 + vt.len(),
        ts.len() > 1 ==> {
            let m = j + quoted(key).len() + 1 + vt.len();
            &&& x[m] == ','
            &&& holds_at(x, m + 1, join(ts.drop_first()))
            &&& m + 1 + join(ts.drop_first()).len() == j + join(ts).len()
        },
{
    let rest = ts.drop_first();
    lemma_join_cons(ts[0], rest);
    assert(seq![ts[0]] + rest =~= ts);
    let end = j + join(ts).len();
    let after: Seq<char> = if rest.len() == 0 { seq!['}'] } else { seq![','] + join(rest) + seq!['}'] };
    assert(holds_at(x, j, join(ts) + seq!['}'])) by {
        assert forall|q: int| 0 <= q < join(ts).len() + 1 implies x.subrange(j, end + 1)[q] == (join(ts)
            + seq!['}'])[q] by {
            if q < join(ts).len() {
                lemma_char_at(x, j, join(ts), q);
            }
        }
        assert(x.subrange(j, end + 1) =~= join(ts) + seq!['}']);
    }
    assert(join(ts) + seq!['}'] =~= quoted(key) + seq![':'] + vt + after) by {
        if rest.len() > 0 {
            assert(join(ts) == ts[0] + seq![','] + join(rest));
        }
    }
    lemma_member_split(x, j, key, vt, after);
    if rest.len() > 0 {
        assert(join(ts) == ts[0] + seq![','] + join(rest));
        lemma_holds_prefix(x, j, ts[0] + seq![','], join(rest));
    }
}

/// The members of a canonical object text parse back, in order.
#[verifier::spinoff_prover]
#[verifier::rlimit(60)]
proof fn lemma_members_reads_back(
    x: Seq<char>,
    j: int,
    ms: Seq<(Seq<char>, Json)>,
    ss: Seq<(Seq<char>, Seq<char>)>,
    q0: int,
    d: nat,
)
    requires
        0 <= q0 < ss.len(),
        members_canonical(ms, d),
        forall|p: int| 0 <= p < ms.len() ==> stable_numbers(#[trigger] ms[p].1),
        forall|q: int| 0 <= q < ss.len() ==> from_member(ms, d, #[trigger] ss[q]),
        holds_at(x, j, join(entry_texts(ss).subrange(q0, ss.len() as int))),
        j + join(entry_texts(ss).subrange(q0, ss.len() as int)).len() < x.len(),
        x[j + join(entry_texts(ss).subrange(q0, ss.len() as int)).len()] == '}',
    ensures
        members_at(x, j, d) is Some,
        members_at(x, j, d).unwrap().1 == j + join(entry_texts(ss).subrange(q0, ss.len() as int)).len()
            + 1,
        members_at(x, j, d).unwrap().0.len() == ss.len() - q0,
        forall|q: int|
            0 <= q < ss.len() - q0 ==> (#[trigger] canonical_text(members_at(x, j, d).unwrap().0[q].1, d)) is Some
                && member_entry(members_at(x, j, d).unwrap().0[q], d) == ss[q0 + q],
    decreases ms, 1int, ss.len() - q0,
{
    let ts = entry_texts(ss).subrange(q0, ss.len() as int);
    assert(from_member(ms, d, ss[q0]));
    let p = choose|p: int| 0 <= p < ms.len() && #[trigger] member_entry(ms[p], d) == ss[q0];
    let key = ms[p].0;
    assert(canonical_text(ms[p].1, d) is Some);
    let vt = canonical_text(ms[p].1, d).unwrap();
    assert(ts[0] == quoted(key) + seq![':'] + vt);
    assert(ts.drop_first() =~= entry_texts(ss).subrange(q0 + 1, ss.len() as int));
    lemma_member_layout(x, j, key, vt, ts);
    let k = j + quoted(key).len();
    let m = k + 1 + vt.len();
    lemma_skip_ws_stays(x, j);
    lemma_quoted_reads_back(x, j, key);
    lemma_skip_ws_stays(x, k);
    assert(stable_numbers(ms[p].1));
    lemma_text_first(ms[p].1, d);
    lemma_char_at(x, k + 1, vt, 0);
    lemma_skip_ws_stays(x, k + 1);
    assert(decreases_to!(ms => ms[p]));
    assert(decreases_to!(ms[p] => ms[p].1));
    lemma_value_reads_back(x, k + 1, ms[p].1, d);
    lemma_skip_ws_stays(x, m);
    let w = value_at(x, k + 1, d).unwrap().0;
    if ts.len() == 1 {
        assert(members_at(x, j, d) == Some((seq![(key, w)], m + 1)));
    } else {
        lemma_members_reads_back(x, m + 1, ms, ss, q0 + 1, d);
        let rs = members_at(x, m + 1, d).unwrap().0;
        assert(members_at(x, j, d) == Some((seq![(key, w)] + rs, j + join(ts).len() + 1)));
        assert forall|q: int| 0 <= q < ss.len() - q0 implies (#[trigger] canonical_text(
            members_at(x, j, d).unwrap().0[q].1,
            d,
        )) is Some && member_entry(members_at(x, j, d).unwrap().0[q], d) == ss[q0 + q] by {
            if q > 0 {
                assert((seq![(key, w)] + rs)[q] == rs[q - 1]);
            }
        }
    }
}

/// Canonical text is a JSON text the parser accepts, and the value read back
/// from it has that same canonical text.
pub proof fn lemma_canonical_text_reads_back(v: Json)
    requires
        canonical_text(v, 0) is Some,
        stable_numbers(v),
    ensures
        document(canonical_text(v, 0).unwrap()) is Some,
        canonical_text(document(canonical_text(v, 0).unwrap()).unwrap(), 0) == canonical_text(v, 0),
{
    let t = canonical_text(v, 0).unwrap();
    lemma_text_first(v, 0);
    lemma_skip_ws_stays(t, 0);
    assert(holds_at(t, 0, t)) by {
        assert(t.subrange(0, t.len() as int) =~= t);
    }
    lemma_value_reads_back(t, 0, v, 0);
    lemma_skip_ws_stays(t, t.len() as int);
}

/// Canonical bytes whose numbers are their own canonical texts canonicalize to
/// themselves.
pub proof fn lemma_canonical_bytes_fixpoint(v: Json)
    requires
        canonical_text(v, 0) is Some,
        stable_numbers(v),
    ensures
        canonical_form(canonical_bytes(v).unwrap()) == canonical_bytes(v),
{
    let t = canonical_text(v, 0).unwrap();
    lemma_canonical_text_reads_back(v);
    vstd::utf8::encode_utf8_valid_utf8(t);
    vstd::utf8::encode_utf8_decode_utf8(t);
}

/// A string written by `write_string` reads back, as a JSON text of its own,
/// as that same string.
pub proof fn lemma_written_string_reads_back(s: Seq<char>)
    ensures
        parse_spec(vstd::utf8::encode_utf8(quoted(s))) == Some(Json::Str(s)),
{
    let q = quoted(s);
    assert(q.subrange(0, q.len() as int) =~= q);
    lemma_quoted_reads_back(q, 0, s);
    assert(q[0] == '"');
    lemma_skip_ws_stays(q, 0);
    lemma_skip_ws_stays(q, q.len() as int);
    vstd::utf8::encode_utf8_valid_utf8(q);
    vstd::utf8::encode_utf8_decode_utf8(q);
}

} // verus!
