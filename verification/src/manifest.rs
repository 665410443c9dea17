//! The tool descriptor / catalog data model.
//!
//! A [`ToolDescriptor`] is the descriptor object an MCP server advertises for a
//! single tool (a `tools/list` result entry): its `name`, `description`,
//! `inputSchema` and any annotations. A [`ToolCatalog`] is the set of those
//! descriptors observed at a point in time. Descriptors are kept as raw JSON so
//! that whatever the server advertised is hashed without lossy re-modeling.

use vstd::prelude::*;
use crate::canonical::{JcsValue, Json, model, model_items, model_members, clone_value, lemma_model_items, lemma_model_members};
use crate::text::same_chars;

verus! {

/// The value of the first member of `ms` named `key`.
pub open spec fn find_member(ms: Seq<(Seq<char>, Json)>, key: Seq<char>) -> Option<Json>
    decreases ms.len(),
{
    if ms.len() == 0 {
        None
    } else if ms[0].0 == key {
        Some(ms[0].1)
    } else {
        find_member(ms.drop_first(), key)
    }
}

/// The member `key` of an object (`None` for a value that is not an object,
/// or an object without that member).
pub open spec fn member_of(v: Json, key: Seq<char>) -> Option<Json> {
    match v {
        Json::Object(ms) => find_member(ms, key),
        _ => None,
    }
}

pub open spec fn name_key() -> Seq<char> {
    seq!['n', 'a', 'm', 'e']
}

pub open spec fn tools_key() -> Seq<char> {
    seq!['t', 'o', 'o', 'l', 's']
}

/// The string `name` of a descriptor, if it has one.
pub open spec fn descriptor_name(v: Json) -> Option<Seq<char>> {
    string_member(v, name_key())
}

/// The descriptor array of a `tools/list` result: the `tools` member of a
/// result object, or a bare array.
pub open spec fn tools_list_array(v: Json) -> Option<Seq<Json>> {
    match v {
        Json::Object(ms) => match find_member(ms, tools_key()) {
            Some(Json::Array(xs)) => Some(xs),
            _ => None,
        },
        Json::Array(xs) => Some(xs),
        _ => None,
    }
}

pub open spec fn opt_str_view(o: Option<&str>) -> Option<Seq<char>> {
    match o {
        Some(s) => Some(s@),
        None => None,
    }
}

/// The string member `key` of a value.
pub open spec fn string_member(v: Json, key: Seq<char>) -> Option<Seq<char>> {
    match member_of(v, key) {
        Some(Json::Str(s)) => Some(s),
        _ => None,
    }
}

pub(crate) fn name_chars() -> (r: Vec<char>)
    ensures
        r@ == name_key(),
{
    let mut r: Vec<char> = Vec::new();
    r.push('n');
    r.push('a');
    r.push('m');
    r.push('e');
    assert(r@ =~= name_key());
    r
}

pub(crate) fn tools_chars() -> (r: Vec<char>)
    ensures
        r@ == tools_key(),
{
    let mut r: Vec<char> = Vec::new();
    r.push('t');
    r.push('o');
    r.push('o');
    r.push('l');
    r.push('s');
    assert(r@ =~= tools_key());
    r
}

/// Index of the first member named `key`.
pub(crate) fn find_member_index(members: &Vec<(String, JcsValue)>, key: &Vec<char>) -> (r: Option<usize>)
    ensures
        match r {
            Some(i) => i < members@.len() && find_member(model_members(members@), key@) == Some(
                model(members@[i as int].1),
            ),
            None => find_member(model_members(members@), key@) is None,
        },
{
    let ghost ms = model_members(members@);
    proof {
        lemma_model_members(members@);
    }
    let mut i: usize = 0;
    assert(ms.subrange(0, ms.len() as int) =~= ms);
    while i < members.len()
        invariant
            i <= members@.len(),
            ms == model_members(members@),
            ms.len() == members@.len(),
            forall|q: int| 0 <= q < ms.len() ==> #[trigger] ms[q] == (members@[q].0@, model(members@[q].1)),
            find_member(ms, key@) == find_member(ms.subrange(i as int, ms.len() as int), key@),
        decreases members@.len() - i,
    {
        let ghost rest = ms.subrange(i as int, ms.len() as int);
        assert(rest[0] == ms[i as int]);
        if same_chars(members[i].0.as_str(), key.as_slice()) {
            return Some(i);
        }
        assert(rest.drop_first() =~= ms.subrange(i as int + 1, ms.len() as int));
        i = i + 1;
    }
    None
}

/// The string member `key` of `value`, if it is an object with such a member.
pub(crate) fn member_str<'a>(value: &'a JcsValue, key: &Vec<char>) -> (r: Option<&'a str>)
    ensures
        opt_str_view(r) == string_member(model(*value), key@),
{
    match value {
        JcsValue::Object(members) => match find_member_index(members, key) {
            Some(i) => match &members[i].1 {
                JcsValue::String(s) => Some(s.as_str()),
                _ => None,
            },
            None => None,
        },
        _ => None,
    }
}

/// The descriptor array of a `tools/list` result (see [`tools_list_array`]).
pub(crate) fn tools_array(result: &JcsValue) -> (r: Option<&Vec<JcsValue>>)
    ensures
        match r {
            Some(xs) => tools_list_array(model(*result)) == Some(model_items(xs@)),
            None => tools_list_array(model(*result)) is None,
        },
{
    match result {
        JcsValue::Object(members) => {
            let key = tools_chars();
            match find_member_index(members, &key) {
                Some(i) => match &members[i].1 {
                    JcsValue::Array(xs) => Some(xs),
                    _ => None,
                },
                None => None,
            }
        },
        JcsValue::Array(xs) => Some(xs),
        _ => None,
    }
}

/// One tool descriptor, retained as the raw JSON value the server advertised.
#[derive(Debug, PartialEq)]
pub struct ToolDescriptor {
    /// The full descriptor as advertised, including its `name` member.
    pub value: JcsValue,
}

impl ToolDescriptor {
    /// Wrap a raw descriptor value.
    pub fn new(value: JcsValue) -> (d: Self)
        ensures
            d.value == value,
    {
        ToolDescriptor { value }
    }

    /// The descriptor's `name`, if present as a JSON string. A descriptor with
    /// no string `name` cannot be identified or pinned.
    pub fn name(&self) -> (r: Option<&str>)
        ensures
            opt_str_view(r) == descriptor_name(model(self.value)),
    {
        let key = name_chars();
        member_str(&self.value, &key)
    }
}

/// The descriptor values of a catalog, in order.
pub open spec fn catalog_model(tools: Seq<ToolDescriptor>) -> Seq<Json> {
    tools.map_values(|d: ToolDescriptor| model(d.value))
}

/// A complete tool catalog: the descriptors as observed. Their order is not
/// significant to the integrity checks (the catalog hash sorts descriptor
/// hashes).
#[derive(Debug, PartialEq)]
pub struct ToolCatalog {
    pub tools: Vec<ToolDescriptor>,
}

impl ToolCatalog {
    /// Build a catalog from a sequence of descriptor values.
    pub fn from_values(values: Vec<JcsValue>) -> (c: Self)
        ensures
            catalog_model(c.tools@) == model_items(values@),
    {
        let mut tools: Vec<ToolDescriptor> = Vec::new();
        let mut rest = values;
        let ghost all = rest@;
        let n = rest.len();
        let mut k: usize = 0;
        proof {
            lemma_model_items(all);
        }
        while rest.len() > 0
            invariant
                all.len() == n,
                all.len() == k + rest@.len(),
                rest@ == all.subrange(k as int, all.len() as int),
                catalog_model(tools@) == model_items(all).take(k as int),
                model_items(all).len() == all.len(),
                forall|q: int| 0 <= q < all.len() ==> #[trigger] model_items(all)[q] == model(all[q]),
            decreases rest@.len(),
        {
            let v = rest.remove(0);
            let ghost before = tools@;
            tools.push(ToolDescriptor::new(v));
            proof {
                assert(catalog_model(tools@) =~= catalog_model(before).push(model(v)));
                assert(all[k as int] == v);
                assert(model_items(all).take(k as int + 1) =~= model_items(all).take(k as int).push(
                    model(v),
                ));
                assert(rest@ =~= all.subrange(k as int + 1, all.len() as int));
            }
            k = k + 1;
        }
        assert(model_items(all).take(k as int) =~= model_items(all));
        ToolCatalog { tools }
    }

    /// Parse a catalog from the `tools` array of a `tools/list` result.
    ///
    /// Accepts either the full result object (`{"tools": [...]}`) or a bare
    /// array (`[...]`).
    pub fn from_tools_list(result: &JcsValue) -> (r: Option<Self>)
        ensures
            match r {
                Some(c) => tools_list_array(model(*result)) == Some(catalog_model(c.tools@)),
                None => tools_list_array(model(*result)) is None,
            },
    {
        let items = match tools_array(result) {
            Some(xs) => xs,
            None => {
                return None;
            },
        };
        let mut tools: Vec<ToolDescriptor> = Vec::new();
        let mut k: usize = 0;
        proof {
            lemma_model_items(items@);
        }
        while k < items.len()
            invariant
                k <= items@.len(),
                model_items(items@).len() == items@.len(),
                forall|q: int| 0 <= q < items@.len() ==> #[trigger] model_items(items@)[q] == model(items@[q]),
                catalog_model(tools@) == model_items(items@).take(k as int),
            decreases items@.len() - k,
        {
            let v = clone_value(&items[k]);
            let ghost before = tools@;
            tools.push(ToolDescriptor::new(v));
            proof {
                assert(catalog_model(tools@) =~= catalog_model(before).push(model(v)));
                assert(model_items(items@).take(k as int + 1) =~= model_items(items@).take(k as int).push(
                    model(v),
                ));
            }
            k = k + 1;
        }
        assert(model_items(items@).take(k as int) =~= model_items(items@));
        Some(ToolCatalog { tools })
    }
}

proof fn lemma_find_member_unique(ms: Seq<(Seq<char>, Json)>, key: Seq<char>, i: int)
    requires
        0 <= i < ms.len(),
        ms[i].0 == key,
        forall|j: int| 0 <= j < ms.len() && j != i ==> #[trigger] ms[j].0 != key,
    ensures
        find_member(ms, key) == Some(ms[i].1),
    decreases ms.len(),
{
    if i > 0 {
        let rest = ms.drop_first();
        assert forall|j: int| 0 <= j < rest.len() && j != i - 1 implies #[trigger] rest[j].0 != key by {
            assert(rest[j] == ms[j + 1]);
        }
        lemma_find_member_unique(rest, key, i - 1);
    }
}

/// A `tools/list` result lists exactly the descriptors of its `tools` array,
/// whatever their number (an empty array is an empty catalog), and a bare
/// array lists itself.
pub proof fn lemma_tools_list_reads_tools_array(ms: Seq<(Seq<char>, Json)>, i: int, xs: Seq<Json>)
    requires
        0 <= i < ms.len(),
        ms[i] == (tools_key(), Json::Array(xs)),
        forall|j: int| 0 <= j < ms.len() && j != i ==> #[trigger] ms[j].0 != tools_key(),
    ensures
        tools_list_array(Json::Object(ms)) == Some(xs),
        tools_list_array(Json::Array(xs)) == Some(xs),
{
    lemma_find_member_unique(ms, tools_key(), i);
}

} // verus!
