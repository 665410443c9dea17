//! The durable, file-backed [`PinStore`].
//!
//! TOFU pins must survive a host restart, or a malicious server can replace the
//! catalog while the host is down and the host has no baseline to detect the
//! rug-pull against. [`FilePinStore`] keeps its pins sorted by name and reads
//! and writes them as one JSON document,
//! `{"catalog_hash": <string|null>, "pins": {name: hash, ...}}`.
//!
//! The [`PinStore`] mutators only change the store in memory; the host writes
//! the document back after a re-pin. Reading and writing the file itself is
//! the host's I/O; this module turns the parsed document into a store
//! ([`FilePinStore::from_document`]) and a store into its document
//! ([`FilePinStore::to_document`]), failing closed on a malformed document.

use vstd::prelude::*;
use vstd::relations::sorted_by;
use std::path::PathBuf;
use crate::canonical::{JcsValue, Json, model, model_members, lemma_model_members};
use crate::parser::{parse, parse_spec};
use crate::drift::{entries_map};
use crate::manifest::{find_member, member_of, find_member_index};
use crate::order::{text_leq, text_less, strings_view, lemma_text_leq_total};
use crate::pin_store::{PinStore, pin_names, pin_map, lemma_pin_map_at, lemma_pin_map_absent, lemma_pin_map_ext, opt_string_view};

verus! {

/// A filesystem path, carried through unchanged.
#[verifier::external_type_specification]
#[verifier::external_body]
pub struct ExPathBuf(PathBuf);

/// Why a pin document is malformed.
#[derive(Debug, Clone, Copy, PartialEq, Eq, Structural)]
pub enum PinFileError {
    /// The file's bytes are not a JSON document.
    NotJson,
    /// The document's top-level value is not an object.
    NotObject,
    /// A member of `pins` is not a string.
    PinNotString,
    /// `pins` is present but is neither an object nor `null`.
    PinsNotObject,
    /// `catalog_hash` is present but is neither a string nor `null`.
    CatalogHashNotString,
}

pub open spec fn pins_key() -> Seq<char> {
    seq!['p', 'i', 'n', 's']
}

pub open spec fn catalog_hash_key() -> Seq<char> {
    seq!['c', 'a', 't', 'a', 'l', 'o', 'g', '_', 'h', 'a', 's', 'h']
}

pub open spec fn all_strings(ms: Seq<(Seq<char>, Json)>) -> bool {
    forall|i: int| 0 <= i < ms.len() ==> #[trigger] ms[i].1 is Str
}

pub open spec fn pin_pairs(ms: Seq<(Seq<char>, Json)>) -> Seq<(Seq<char>, Seq<char>)> {
    ms.map_values(|m: (Seq<char>, Json)| (m.0, m.1->Str_0))
}

/// The pins a document holds: none when `pins` is absent or `null`; for an
/// object, each member's string value (a repeated name keeps its last value).
/// A document that is not an object is malformed.
pub open spec fn document_pins(v: Json) -> Result<Map<Seq<char>, Seq<char>>, PinFileError> {
    if !(v is Object) {
        Err(PinFileError::NotObject)
    } else {
        match member_of(v, pins_key()) {
        None => Ok(Map::empty()),
        Some(Json::Null) => Ok(Map::empty()),
        Some(Json::Object(ms)) => if all_strings(ms) {
            Ok(entries_map(pin_pairs(ms)))
        } else {
            Err(PinFileError::PinNotString)
        },
        Some(_) => Err(PinFileError::PinsNotObject),
        }
    }
}

/// The catalog hash a document holds.
pub open spec fn document_catalog_hash(v: Json) -> Result<Option<Seq<char>>, PinFileError> {
    if !(v is Object) {
        Err(PinFileError::NotObject)
    } else {
        match member_of(v, catalog_hash_key()) {
            None => Ok(None),
            Some(Json::Null) => Ok(None),
            Some(Json::Str(s)) => Ok(Some(s)),
            Some(_) => Err(PinFileError::CatalogHashNotString),
        }
    }
}

/// What `serde_json` writes back for the JSON document it reads from `bytes`:
/// `serde_json::from_slice` into a `serde_json::Value`, then
/// `serde_json::to_vec` of that value. `None` when `serde_json` rejects the
/// bytes.
pub uninterp spec fn serde_json_reencoded(bytes: Seq<u8>) -> Option<Seq<u8>>;

/// Reads the pin file's bytes as JSON the way `serde_json` does, and hands
/// back `serde_json`'s own encoding of the document it read.
///
/// Trusted: calls `serde_json::from_slice::<serde_json::Value>` and, on
/// success, `serde_json::to_vec` of the value. The contract only names the
/// result (see [`serde_json_reencoded`]), a function of the bytes alone
/// (`serde_json::Map` keeps its keys sorted).
#[verifier::external_body]
fn reencode_json(bytes: &[u8]) -> (r: Option<Vec<u8>>)
    ensures
        match r {
            Some(b) => serde_json_reencoded(bytes@) == Some(b@),
            None => serde_json_reencoded(bytes@) is None,
        },
{
    match serde_json::from_slice::<serde_json::Value>(bytes) {
        Ok(v) => serde_json::to_vec(&v).ok(),
        Err(_) => None,
    }
}

/// The document a pin file's bytes hold: `serde_json`'s reading of them, in
/// the library's JSON model.
pub open spec fn file_document(bytes: Seq<u8>) -> Option<Json> {
    match serde_json_reencoded(bytes) {
        None => None,
        Some(b) => parse_spec(b),
    }
}

/// The members of a document's `pins` object.
pub open spec fn pin_members(pins: Seq<(Seq<char>, Seq<char>)>) -> Seq<(Seq<char>, Json)> {
    pins.map_values(|p: (Seq<char>, Seq<char>)| (p.0, Json::Str(p.1)))
}

/// The document of a store holding the pins `pins` (in order) and the
/// catalog hash `hash`.
pub open spec fn document_of(pins: Seq<(Seq<char>, Seq<char>)>, hash: Option<Seq<char>>) -> Json {
    Json::Object(
        seq![
            (
                catalog_hash_key(),
                match hash {
                    Some(h) => Json::Str(h),
                    None => Json::Null,
                },
            ),
            (
                pins_key(),
                Json::Object(pin_members(pins)),
            ),
        ],
    )
}

pub open spec fn pair_views(v: Seq<(String, String)>) -> Seq<(Seq<char>, Seq<char>)> {
    v.map_values(|e: (String, String)| (e.0@, e.1@))
}

/// Pin names strictly ascend in `String` order.
pub open spec fn names_ascending(v: Seq<(String, String)>) -> bool {
    forall|i: int, j: int|
        0 <= i < j < v.len() ==> #[trigger] v[i].0@ != #[trigger] v[j].0@ && text_leq(v[i].0@, v[j].0@)
}

/// A [`PinStore`] persisted as one JSON document; its pins are kept sorted by
/// name so that the document is deterministic.
///
/// The pins are a list of `(name, hash)` pairs whose names strictly ascend
/// (the type invariant), standing for an ordered map: `vstd` specifies no
/// lookup on a `String`-keyed ordered map that a proof could rest on, and the
/// list is proved against its map view ([`PinStore::pin_view`]).
pub struct FilePinStore {
    path: PathBuf,
    pins: Vec<(String, String)>,
    catalog_hash: Option<String>,
}

impl FilePinStore {
    #[verifier::type_invariant]
    spec fn sorted(self) -> bool {
        names_ascending(self.pins@)
    }

    /// Where the store is persisted.
    pub closed spec fn path_view(&self) -> PathBuf {
        self.path
    }

    /// The pins, in ascending name order.
    pub closed spec fn pin_list(&self) -> Seq<(Seq<char>, Seq<char>)> {
        pair_views(self.pins@)
    }

    /// An empty store persisted at `path` (a store whose file does not exist
    /// yet starts empty).
    pub fn new(path: PathBuf) -> (s: Self)
        ensures
            s.path_view() == path,
            s.pin_view() == Map::<Seq<char>, Seq<char>>::empty(),
            s.catalog_hash_view() is None,
    {
        let s = FilePinStore { path, pins: Vec::new(), catalog_hash: None };
        assert(pin_map(s.pins@) =~= Map::<Seq<char>, Seq<char>>::empty());
        s
    }

    /// Where the store is persisted.
    pub fn path(&self) -> (r: &PathBuf)
        ensures
            *r == self.path_view(),
    {
        &self.path
    }

    /// The store a parsed pin document describes, persisted at `path`. A
    /// malformed document fails closed instead of starting over an empty
    /// baseline.
    pub fn from_document(path: PathBuf, value: &JcsValue) -> (r: Result<Self, PinFileError>)
        ensures
            match r {
                Ok(s) => {
                    &&& document_pins(model(*value)) == Ok::<_, PinFileError>(s.pin_view())
                    &&& document_catalog_hash(model(*value)) == Ok::<_, PinFileError>(
                        s.catalog_hash_view(),
                    )
                    &&& s.path_view() == path
                },
                Err(e) => document_pins(model(*value)) == Err::<Map<Seq<char>, Seq<char>>, _>(e)
                    || (document_pins(model(*value)) is Ok && document_catalog_hash(model(*value))
                    == Err::<Option<Seq<char>>, _>(e)),
            },
    {
        let mut store = FilePinStore::new(path);
        match Self::parse_pins(value, &mut store) {
            Ok(_) => {},
            Err(e) => {
                return Err(e);
            },
        }
        match Self::parse_catalog_hash(value) {
            Ok(h) => {
                store.set_catalog_hash_opt(h);
                Ok(store)
            },
            Err(e) => Err(e),
        }
    }

    /// The store that the bytes of an existing pin file describe, persisted at
    /// `path`: the bytes are read as JSON by `serde_json` (see
    /// [`file_document`]); bytes that are not JSON, and a malformed document,
    /// fail closed.
    pub fn open_document(path: PathBuf, bytes: &[u8]) -> (r: Result<Self, PinFileError>)
        ensures
            match file_document(bytes@) {
                None => r == Err::<Self, _>(PinFileError::NotJson),
                Some(doc) => match r {
                    Ok(s) => {
                        &&& document_pins(doc) == Ok::<_, PinFileError>(s.pin_view())
                        &&& document_catalog_hash(doc) == Ok::<_, PinFileError>(
                            s.catalog_hash_view(),
                        )
                        &&& s.path_view() == path
                    },
                    Err(e) => document_pins(doc) == Err::<Map<Seq<char>, Seq<char>>, _>(e) || (
                    document_pins(doc) is Ok && document_catalog_hash(doc) == Err::<
                        Option<Seq<char>>,
                        _,
                    >(e)),
                },
            },
    {
        let reencoded = match reencode_json(bytes) {
            Some(b) => b,
            None => {
                return Err(PinFileError::NotJson);
            },
        };
        match parse(reencoded.as_slice()) {
            Ok(value) => Self::from_document(path, &value),
            Err(_) => Err(PinFileError::NotJson),
        }
    }

    /// Record an optional catalog hash.
    fn set_catalog_hash_opt(&mut self, h: Option<String>)
        ensures
            final(self).pin_view() == old(self).pin_view(),
            final(self).catalog_hash_view() == opt_string_view(h),
            final(self).path_view() == old(self).path_view(),
    {
        proof {
            use_type_invariant(&*self);
        }
        self.catalog_hash = h;
    }

    /// Pin every member of the document's `pins` object into `store`.
    fn parse_pins(value: &JcsValue, store: &mut FilePinStore) -> (r: Result<(), PinFileError>)
        requires
            old(store).pin_view() == Map::<Seq<char>, Seq<char>>::empty(),
        ensures
            final(store).path_view() == old(store).path_view(),
            final(store).catalog_hash_view() == old(store).catalog_hash_view(),
            match r {
                Ok(_) => document_pins(model(*value)) == Ok::<_, PinFileError>(final(store).pin_view()),
                Err(e) => document_pins(model(*value)) == Err::<Map<Seq<char>, Seq<char>>, _>(e),
            },
    {
        let members = match value {
            JcsValue::Object(members) => members,
            _ => {
                return Err(PinFileError::NotObject);
            },
        };
        let key = pins_chars();
        let i = match find_member_index(members, &key) {
            Some(i) => i,
            None => {
                return Ok(());
            },
        };
        let entries = match &members[i].1 {
            JcsValue::Null => {
                return Ok(());
            },
            JcsValue::Object(entries) => entries,
            _ => {
                return Err(PinFileError::PinsNotObject);
            },
        };
        let ghost ms = model_members(entries@);
        proof {
            lemma_model_members(entries@);
            assert(member_of(model(*value), pins_key()) == Some(Json::Object(ms)));
        }
        let mut k: usize = 0;
        while k < entries.len()
            invariant
                k <= entries@.len(),
                member_of(model(*value), pins_key()) == Some(Json::Object(ms)),
                ms == model_members(entries@),
                ms.len() == entries@.len(),
                forall|q: int| 0 <= q < ms.len() ==> #[trigger] ms[q] == (entries@[q].0@, model(entries@[q].1)),
                all_strings(ms.take(k as int)),
                store.pin_view() == entries_map(pin_pairs(ms.take(k as int))),
                store.path_view() == old(store).path_view(),
                store.catalog_hash_view() == old(store).catalog_hash_view(),
            decreases entries@.len() - k,
        {
            let name = &entries[k].0;
            let hash = match &entries[k].1 {
                JcsValue::String(h) => h,
                _ => {
                    proof {
                        assert(!(ms[k as int].1 is Str));
                        assert(!all_strings(ms));
                    }
                    return Err(PinFileError::PinNotString);
                },
            };
            store.set(name.as_str(), hash.as_str());
            proof {
                let pre = ms.take(k as int);
                assert(ms.take(k as int + 1) =~= pre.push(ms[k as int]));
                assert(pin_pairs(ms.take(k as int + 1)) =~= pin_pairs(pre).push((name@, hash@)));
                assert(pin_pairs(ms.take(k as int + 1)).drop_last() =~= pin_pairs(pre));
            }
            k = k + 1;
        }
        proof {
            assert(ms.take(k as int) =~= ms);
        }
        Ok(())
    }

    /// The catalog hash of a document.
    fn parse_catalog_hash(value: &JcsValue) -> (r: Result<Option<String>, PinFileError>)
        ensures
            match r {
                Ok(h) => document_catalog_hash(model(*value)) == Ok::<_, PinFileError>(opt_string_view(h)),
                Err(e) => document_catalog_hash(model(*value)) == Err::<Option<Seq<char>>, _>(e),
            },
    {
        let members = match value {
            JcsValue::Object(members) => members,
            _ => {
                return Err(PinFileError::NotObject);
            },
        };
        let key = catalog_hash_chars();
        match find_member_index(members, &key) {
            Some(i) => match &members[i].1 {
                JcsValue::Null => Ok(None),
                JcsValue::String(s) => Ok(Some(s.clone())),
                _ => Err(PinFileError::CatalogHashNotString),
            },
            None => Ok(None),
        }
    }

    /// The pin document of this store: `catalog_hash` (a string or `null`) and
    /// `pins` (name to hash, in name order). Reading it back with
    /// [`from_document`](Self::from_document) gives the same pins and catalog
    /// hash.
    pub fn to_document(&self) -> (r: JcsValue)
        ensures
            model(r) == document_of(self.pin_list(), self.catalog_hash_view()),
            document_pins(model(r)) == Ok::<_, PinFileError>(self.pin_view()),
            document_catalog_hash(model(r)) == Ok::<_, PinFileError>(self.catalog_hash_view()),
    {
        proof {
            use_type_invariant(self);
        }
        let mut members: Vec<(String, JcsValue)> = Vec::new();
        let mut k: usize = 0;
        while k < self.pins.len()
            invariant
                k <= self.pins@.len(),
                model_members(members@) == pin_members(pair_views(self.pins@).take(k as int)),
            decreases self.pins@.len() - k,
        {
            let ghost before = members@;
            let name = self.pins[k].0.clone();
            let hash = self.pins[k].1.clone();
            members.push((name, JcsValue::String(hash)));
            proof {
                let pv = pair_views(self.pins@);
                let x = (self.pins@[k as int].0@, self.pins@[k as int].1@);
                crate::canonical::lemma_model_members_push(before, (name, JcsValue::String(hash)));
                assert(model_members(members@) == model_members(before).push((name@, Json::Str(hash@))));
                assert(pv.take(k as int + 1) =~= pv.take(k as int).push(x));
                assert(pin_members(pv.take(k as int + 1)) =~= pin_members(pv.take(k as int)).push(
                    (x.0, Json::Str(x.1)),
                ));
            }
            k = k + 1;
        }
        let hash_value = match &self.catalog_hash {
            Some(h) => JcsValue::String(h.clone()),
            None => JcsValue::Null,
        };
        let mut doc: Vec<(String, JcsValue)> = Vec::new();
        doc.push((crate::text::string_from_chars(catalog_hash_chars().as_slice()), hash_value));
        doc.push((crate::text::string_from_chars(pins_chars().as_slice()), JcsValue::Object(members)));
        let r = JcsValue::Object(doc);
        proof {
            let expect = seq![
                (catalog_hash_key(), match self.catalog_hash_view() {
                    Some(h) => Json::Str(h),
                    None => Json::Null,
                }),
                (pins_key(), Json::Object(pin_members(pair_views(self.pins@)))),
            ];
            assert(pair_views(self.pins@).take(self.pins@.len() as int) =~= pair_views(self.pins@));
            lemma_model_members(doc@);
            assert(model_members(doc@) =~= expect);
            assert(document_of(pair_views(self.pins@), self.catalog_hash_view())->Object_0 =~= expect);
            lemma_ascending_unique(self.pins@);
            lemma_document_round_trip(self.pins@, self.catalog_hash_view());
        }
        r
    }
}

pub(crate) proof fn lemma_ascending_unique(v: Seq<(String, String)>)
    requires
        names_ascending(v),
    ensures
        pin_names(v).no_duplicates(),
{
    assert forall|i: int, j: int| 0 <= i < pin_names(v).len() && 0 <= j < pin_names(v).len() && i != j implies
        pin_names(v)[i] != pin_names(v)[j] by {
        if i < j {
            assert(v[i].0@ != v[j].0@);
        } else {
            assert(v[j].0@ != v[i].0@);
        }
    }
}

/// The first position whose name does not sort before `tool_name`.
pub(crate) fn pins_lower_bound(pins: &Vec<(String, String)>, tool_name: &str) -> (r: usize)
    ensures
        r <= pins@.len(),
        forall|j: int| 0 <= j < r ==> #[trigger] pins@[j].0@ != tool_name@ && text_leq(
            pins@[j].0@,
            tool_name@,
        ),
        r < pins@.len() ==> text_leq(tool_name@, pins@[r as int].0@),
{
    let mut i: usize = 0;
    while i < pins.len() && text_less(pins[i].0.as_str(), tool_name)
        invariant
            i <= pins@.len(),
            forall|j: int| 0 <= j < i ==> #[trigger] pins@[j].0@ != tool_name@ && text_leq(
                pins@[j].0@,
                tool_name@,
            ),
        decreases pins@.len() - i,
    {
        i = i + 1;
    }
    proof {
        lemma_text_leq_total();
        if i < pins@.len() {
            let a = pins@[i as int].0@;
            assert(crate::order::text_order()(a, tool_name@) || crate::order::text_order()(tool_name@, a));
        }
    }
    i
}

/// Index of the pin for `tool_name`.
pub(crate) fn pins_position(pins: &Vec<(String, String)>, tool_name: &str) -> (r: Option<usize>)
    ensures
        match r {
            Some(i) => i < pins@.len() && pins@[i as int].0@ == tool_name@,
            None => forall|j: int| 0 <= j < pins@.len() ==> #[trigger] pins@[j].0@ != tool_name@,
        },
{
    let mut i: usize = 0;
    while i < pins.len()
        invariant
            i <= pins@.len(),
            forall|j: int| 0 <= j < i ==> #[trigger] pins@[j].0@ != tool_name@,
        decreases pins@.len() - i,
    {
        if crate::text::same_chars(tool_name, crate::text::chars_of(pins[i].0.as_str()).as_slice()) {
            return Some(i);
        }
        i = i + 1;
    }
    None
}

/// Pin `tool_name` to `descriptor_hash` in a pin list kept in ascending name
/// order.
pub(crate) fn sorted_pins_set(pins: &mut Vec<(String, String)>, tool_name: &str, descriptor_hash: &str)
    requires
        names_ascending(old(pins)@),
    ensures
        names_ascending(final(pins)@),
        pin_map(final(pins)@) == pin_map(old(pins)@).insert(tool_name@, descriptor_hash@),
{
    proof {
        lemma_ascending_unique(pins@);
        lemma_text_leq_total();
    }
    let ghost old_pins = pins@;
    let ghost target = pin_map(old_pins).insert(tool_name@, descriptor_hash@);
    let entry = (tool_name.to_owned(), descriptor_hash.to_owned());
    let p = pins_lower_bound(pins, tool_name);
    let found = p < pins.len() && crate::text::same_chars(
        tool_name,
        crate::text::chars_of(pins[p].0.as_str()).as_slice(),
    );
    let ghost nv = if found {
        old_pins.update(p as int, entry)
    } else {
        old_pins.insert(p as int, entry)
    };
    proof {
        if found {
            assert(pin_names(nv) =~= pin_names(old_pins));
            assert forall|j: int| 0 <= j < nv.len() implies target[#[trigger] nv[j].0@] == nv[j].1@ by {
                if j != p {
                    lemma_pin_map_at(old_pins, j);
                    assert(pin_names(old_pins)[j] != pin_names(old_pins)[p as int]);
                }
            }
            assert forall|k: Seq<char>| target.contains_key(k) <==> pin_names(nv).contains(k) by {
                if k == tool_name@ {
                    assert(pin_names(nv)[p as int] == k);
                }
            }
            assert(names_ascending(nv));
        } else {
            assert forall|j: int| 0 <= j < old_pins.len() implies #[trigger] old_pins[j].0@ != tool_name@ by {
                if j >= p {
                    if j > p {
                        assert(text_leq(old_pins[p as int].0@, old_pins[j].0@));
                    }
                    if old_pins[j].0@ == tool_name@ && j > p {
                        assert(crate::order::text_order()(tool_name@, old_pins[p as int].0@));
                        assert(crate::order::text_order()(old_pins[p as int].0@, old_pins[j].0@));
                    }
                }
            }
            assert(pin_names(nv) =~= pin_names(old_pins).insert(p as int, tool_name@));
            assert forall|a: int, b: int| 0 <= a < b < nv.len() implies #[trigger] nv[a].0@ != #[trigger] nv[b].0@
                && text_leq(nv[a].0@, nv[b].0@) by {
                if b < p {
                } else if b == p {
                } else if a < p {
                    assert(old_pins[b - 1].0@ != tool_name@);
                    assert(crate::order::text_order()(old_pins[a].0@, tool_name@));
                    assert(crate::order::text_order()(tool_name@, old_pins[p as int].0@));
                    if b - 1 > p {
                        assert(crate::order::text_order()(old_pins[p as int].0@, old_pins[b - 1].0@));
                    }
                } else if a == p {
                    assert(old_pins[b - 1].0@ != tool_name@);
                    if b - 1 > p {
                        assert(crate::order::text_order()(tool_name@, old_pins[p as int].0@));
                        assert(crate::order::text_order()(old_pins[p as int].0@, old_pins[b - 1].0@));
                    }
                } else {
                    assert(nv[a] == old_pins[a - 1] && nv[b] == old_pins[b - 1]);
                }
            }
            assert forall|j: int| 0 <= j < nv.len() implies target[#[trigger] nv[j].0@] == nv[j].1@ by {
                if j < p {
                    lemma_pin_map_at(old_pins, j);
                } else if j > p {
                    assert(nv[j] == old_pins[j - 1]);
                    lemma_pin_map_at(old_pins, j - 1);
                }
            }
            assert forall|k: Seq<char>| target.contains_key(k) <==> pin_names(nv).contains(k) by {
                if k == tool_name@ {
                    assert(pin_names(nv)[p as int] == k);
                } else if pin_names(old_pins).contains(k) {
                    let j = choose|j: int| 0 <= j < old_pins.len() && pin_names(old_pins)[j] == k;
                    let j2 = if j < p { j } else { j + 1 };
                    assert(pin_names(nv)[j2] == k);
                } else if pin_names(nv).contains(k) {
                    let j = choose|j: int| 0 <= j < nv.len() && pin_names(nv)[j] == k;
                    let j2 = if j < p { j } else { j - 1 };
                    assert(pin_names(old_pins)[j2] == k);
                }
            }
        }
        lemma_ascending_unique(nv);
        lemma_pin_map_ext(nv, target);
    }
    if found {
        pins.set(p, entry);
    } else {
        pins.insert(p, entry);
    }
}

/// Drop the pin for `tool_name` from a pin list kept in ascending name order.
pub(crate) fn sorted_pins_remove(pins: &mut Vec<(String, String)>, tool_name: &str)
    requires
        names_ascending(old(pins)@),
    ensures
        names_ascending(final(pins)@),
        pin_map(final(pins)@) == pin_map(old(pins)@).remove(tool_name@),
{
    proof {
        lemma_ascending_unique(pins@);
    }
    let ghost old_pins = pins@;
    let ghost target = pin_map(old_pins).remove(tool_name@);
    match pins_position(pins, tool_name) {
        Some(i) => {
            proof {
                let nv = old_pins.remove(i as int);
                let on = pin_names(old_pins);
                assert(pin_names(nv) =~= on.remove(i as int));
                assert forall|a: int, b: int| 0 <= a < b < nv.len() implies #[trigger] nv[a].0@ != #[trigger] nv[b].0@
                    && text_leq(nv[a].0@, nv[b].0@) by {
                    let a2 = if a < i { a } else { a + 1 };
                    let b2 = if b < i { b } else { b + 1 };
                    assert(nv[a] == old_pins[a2] && nv[b] == old_pins[b2]);
                }
                lemma_ascending_unique(nv);
                assert forall|j: int| 0 <= j < nv.len() implies target[#[trigger] nv[j].0@] == nv[j].1@ by {
                    let j2 = if j < i { j } else { j + 1 };
                    assert(nv[j] == old_pins[j2]);
                    lemma_pin_map_at(old_pins, j2);
                    assert(on[j2] != on[i as int]);
                }
                assert forall|k: Seq<char>| target.contains_key(k) <==> pin_names(nv).contains(k) by {
                    if pin_names(nv).contains(k) {
                        let j = choose|j: int| 0 <= j < nv.len() && pin_names(nv)[j] == k;
                        let j2 = if j < i { j } else { j + 1 };
                        assert(on[j2] == k);
                        assert(on[j2] != on[i as int]);
                    }
                    if target.contains_key(k) {
                        let j2 = choose|j: int| 0 <= j < on.len() && on[j] == k;
                        assert(j2 != i);
                        let j = if j2 < i { j2 } else { j2 - 1 };
                        assert(pin_names(nv)[j] == k);
                    }
                }
                lemma_pin_map_ext(nv, target);
            }
            pins.remove(i);
                },
        None => {
            proof {
                lemma_pin_map_absent(old_pins, tool_name@);
                assert(target =~= pin_map(old_pins));
            }
        },
    }
}

impl PinStore for FilePinStore {
    closed spec fn pin_view(&self) -> Map<Seq<char>, Seq<char>> {
        pin_map(self.pins@)
    }

    closed spec fn catalog_hash_view(&self) -> Option<Seq<char>> {
        opt_string_view(self.catalog_hash)
    }

    fn get(&self, tool_name: &str) -> (r: Option<&str>) {
        proof {
            use_type_invariant(self);
            lemma_ascending_unique(self.pins@);
        }
        match pins_position(&self.pins, tool_name) {
            Some(i) => {
                proof {
                    lemma_pin_map_at(self.pins@, i as int);
                }
                Some(self.pins[i].1.as_str())
            },
            None => {
                proof {
                    lemma_pin_map_absent(self.pins@, tool_name@);
                }
                None
            },
        }
    }

    fn set(&mut self, tool_name: &str, descriptor_hash: &str)
        ensures
            final(self).path_view() == old(self).path_view(),
    {
        proof {
            use_type_invariant(&*self);
        }
        let mut pins: Vec<(String, String)> = Vec::new();
        std::mem::swap(&mut pins, &mut self.pins);
        sorted_pins_set(&mut pins, tool_name, descriptor_hash);
        self.pins = pins;
    }

    fn remove(&mut self, tool_name: &str)
        ensures
            final(self).path_view() == old(self).path_view(),
    {
        proof {
            use_type_invariant(&*self);
        }
        let mut pins: Vec<(String, String)> = Vec::new();
        std::mem::swap(&mut pins, &mut self.pins);
        sorted_pins_remove(&mut pins, tool_name);
        self.pins = pins;
    }

    fn pinned_names(&self) -> (r: Vec<String>)
        ensures
            sorted_by(strings_view(r@), crate::order::text_order()),
    {
        proof {
            use_type_invariant(self);
            lemma_ascending_unique(self.pins@);
        }
        let mut out: Vec<String> = Vec::new();
        let mut i: usize = 0;
        while i < self.pins.len()
            invariant
                i <= self.pins@.len(),
                strings_view(out@) == pin_names(self.pins@).take(i as int),
            decreases self.pins@.len() - i,
        {
            let ghost before = out@;
            out.push(self.pins[i].0.clone());
            assert(strings_view(out@) =~= strings_view(before).push(self.pins@[i as int].0@));
            assert(pin_names(self.pins@).take(i as int + 1) =~= pin_names(self.pins@).take(i as int).push(
                self.pins@[i as int].0@,
            ));
            i = i + 1;
        }
        assert(pin_names(self.pins@).take(i as int) =~= pin_names(self.pins@));
        assert(strings_view(out@).to_set() =~= pin_map(self.pins@).dom());
        assert forall|a: int, b: int| 0 <= a < b < strings_view(out@).len() implies #[trigger]
            crate::order::text_order()(strings_view(out@)[a], strings_view(out@)[b]) by {
            assert(strings_view(out@)[a] == self.pins@[a].0@);
            assert(strings_view(out@)[b] == self.pins@[b].0@);
        }
        out
    }

    fn catalog_hash(&self) -> (r: Option<&str>) {
        match &self.catalog_hash {
            Some(h) => Some(h.as_str()),
            None => None,
        }
    }

    fn set_catalog_hash(&mut self, catalog_hash: &str)
        ensures
            final(self).path_view() == old(self).path_view(),
    {
        proof {
            use_type_invariant(&*self);
        }
        self.catalog_hash = Some(catalog_hash.to_owned());
    }
}

fn pins_chars() -> (r: Vec<char>)
    ensures
        r@ == pins_key(),
{
    let mut r: Vec<char> = Vec::new();
    r.push('p');
    r.push('i');
    r.push('n');
    r.push('s');
    assert(r@ =~= pins_key());
    r
}

fn catalog_hash_chars() -> (r: Vec<char>)
    ensures
        r@ == catalog_hash_key(),
{
    let mut r: Vec<char> = Vec::new();
    r.push('c');
    r.push('a');
    r.push('t');
    r.push('a');
    r.push('l');
    r.push('o');
    r.push('g');
    r.push('_');
    r.push('h');
    r.push('a');
    r.push('s');
    r.push('h');
    assert(r@ =~= catalog_hash_key());
    r
}

/// With distinct names, pinning the pairs one by one gives the map of the
/// pairs.
proof fn lemma_entries_map_distinct(v: Seq<(String, String)>)
    requires
        pin_names(v).no_duplicates(),
    ensures
        entries_map(pair_views(v)) == pin_map(v),
    decreases v.len(),
{
    if v.len() > 0 {
        let p = v.drop_last();
        assert(pin_names(p) =~= pin_names(v).drop_last());
        assert(pin_names(p).no_duplicates());
        lemma_entries_map_distinct(p);
        assert(pair_views(v).drop_last() =~= pair_views(p));
        let last = v.last();
        let target = pin_map(p).insert(last.0@, last.1@);
        assert forall|k: Seq<char>| target.contains_key(k) <==> pin_names(v).contains(k) by {
            if pin_names(v).contains(k) {
                let j = choose|j: int| 0 <= j < v.len() && pin_names(v)[j] == k;
                if j < p.len() {
                    assert(pin_names(p)[j] == k);
                }
            }
            if pin_names(p).contains(k) {
                let j = choose|j: int| 0 <= j < p.len() && pin_names(p)[j] == k;
                assert(pin_names(v)[j] == k);
            }
            if k == last.0@ {
                assert(pin_names(v)[v.len() - 1] == k);
            }
        }
        assert forall|j: int| 0 <= j < v.len() implies target[#[trigger] v[j].0@] == v[j].1@ by {
            if j < p.len() {
                assert(pin_names(v)[j] != pin_names(v)[v.len() - 1]);
                assert(p[j] == v[j]);
                lemma_pin_map_at(p, j);
            }
        }
        lemma_pin_map_ext(v, target);
    }
}

/// Reading back the document of a store gives its pins and catalog hash:
/// persisted pins survive a restart unchanged.
pub proof fn lemma_document_round_trip(v: Seq<(String, String)>, hash: Option<Seq<char>>)
    requires
        pin_names(v).no_duplicates(),
    ensures
        document_pins(document_of(pair_views(v), hash)) == Ok::<_, PinFileError>(pin_map(v)),
        document_catalog_hash(document_of(pair_views(v), hash)) == Ok::<_, PinFileError>(hash),
{
    let doc = document_of(pair_views(v), hash);
    let ms = pin_members(pair_views(v));
    let top = seq![
        (catalog_hash_key(), match hash {
            Some(h) => Json::Str(h),
            None => Json::Null,
        }),
        (pins_key(), Json::Object(ms)),
    ];
    assert(top.drop_first() =~= seq![(pins_key(), Json::Object(ms))]);
    assert(catalog_hash_key() != pins_key()) by {
        assert(catalog_hash_key().len() != pins_key().len());
    }
    assert(doc == Json::Object(top));
    assert(find_member(top.drop_first(), pins_key()) == Some(Json::Object(ms)));
    assert(member_of(doc, pins_key()) == Some(Json::Object(ms)));
    assert(member_of(doc, catalog_hash_key()) == Some(top[0].1));
    assert(all_strings(ms));
    assert(pin_pairs(ms) =~= pair_views(v));
    lemma_entries_map_distinct(v);
}

} // verus!
