//! The host-side record of accepted descriptor hashes (trust-on-first-use).
//!
//! The library persists nothing itself. A host supplies durability by
//! implementing [`PinStore`]; [`InMemoryPinStore`] is the non-durable store used
//! by tests and by hosts that pin per session.

use vstd::prelude::*;
use vstd::relations::sorted_by;
use crate::manifest::opt_str_view;
use crate::order::strings_view;
use crate::file_pin_store::{names_ascending, pins_position, sorted_pins_set, sorted_pins_remove, lemma_ascending_unique};

verus! {

/// A store of the descriptor hash a host last accepted for each tool, plus the
/// last accepted catalog hash.
pub trait PinStore {
    /// The pinned descriptor hash of each tool name.
    spec fn pin_view(&self) -> Map<Seq<char>, Seq<char>>;

    /// The last accepted catalog hash.
    spec fn catalog_hash_view(&self) -> Option<Seq<char>>;

    /// The pinned descriptor hash for `tool_name`, if any.
    fn get(&self, tool_name: &str) -> (r: Option<&str>)
        ensures
            opt_str_view(r) == (if self.pin_view().contains_key(tool_name@) {
                Some(self.pin_view()[tool_name@])
            } else {
                None
            }),
    ;

    /// Pin (or re-pin) `tool_name` to `descriptor_hash`.
    fn set(&mut self, tool_name: &str, descriptor_hash: &str)
        ensures
            final(self).pin_view() == old(self).pin_view().insert(tool_name@, descriptor_hash@),
            final(self).catalog_hash_view() == old(self).catalog_hash_view(),
    ;

    /// Drop the pin for `tool_name` (e.g. after an approved removal).
    fn remove(&mut self, tool_name: &str)
        ensures
            final(self).pin_view() == old(self).pin_view().remove(tool_name@),
            final(self).catalog_hash_view() == old(self).catalog_hash_view(),
    ;

    /// The names of all currently pinned tools, each once.
    fn pinned_names(&self) -> (r: Vec<String>)
        ensures
            strings_view(r@).no_duplicates(),
            strings_view(r@).to_set() == self.pin_view().dom(),
    ;

    /// The last accepted catalog hash, if any.
    fn catalog_hash(&self) -> (r: Option<&str>)
        ensures
            opt_str_view(r) == self.catalog_hash_view(),
    ;

    /// Record the last accepted catalog hash.
    fn set_catalog_hash(&mut self, catalog_hash: &str)
        ensures
            final(self).pin_view() == old(self).pin_view(),
            final(self).catalog_hash_view() == Some(catalog_hash@),
    ;
}

/// A read gives back what a write wrote: after `set(name, hash)` the store
/// reads `hash` for `name` and the same as before for every other name; after
/// `remove(name)` it reads nothing for `name`; after `set_catalog_hash(h)` it
/// reads `h` as the catalog hash. (`m` is a store's [`PinStore::pin_view`];
/// `set`, `remove` and `get` are stated over it.)
pub proof fn lemma_pins_read_back(m: Map<Seq<char>, Seq<char>>, name: Seq<char>, hash: Seq<char>, other: Seq<char>)
    ensures
        m.insert(name, hash).contains_key(name),
        m.insert(name, hash)[name] == hash,
        other != name ==> (m.insert(name, hash).contains_key(other) == m.contains_key(other)),
        other != name && m.contains_key(other) ==> m.insert(name, hash)[other] == m[other],
        !m.remove(name).contains_key(name),
        other != name ==> (m.remove(name).contains_key(other) == m.contains_key(other)),
        other != name && m.contains_key(other) ==> m.remove(name)[other] == m[other],
{
}

/// The names of a list of `(name, hash)` pins.
pub open spec fn pin_names(v: Seq<(String, String)>) -> Seq<Seq<char>> {
    v.map_values(|e: (String, String)| e.0@)
}

/// The map from name to hash held by a list of pins with distinct names.
pub open spec fn pin_map(v: Seq<(String, String)>) -> Map<Seq<char>, Seq<char>> {
    Map::new(
        |k: Seq<char>| pin_names(v).contains(k),
        |k: Seq<char>| v[pin_names(v).index_of(k)].1@,
    )
}

pub proof fn lemma_pin_map_at(v: Seq<(String, String)>, i: int)
    requires
        pin_names(v).no_duplicates(),
        0 <= i < v.len(),
    ensures
        pin_map(v).contains_key(v[i].0@),
        pin_map(v)[v[i].0@] == v[i].1@,
{
    let names = pin_names(v);
    assert(names[i] == v[i].0@);
    assert(names.contains(v[i].0@));
    let j = names.index_of(v[i].0@);
    assert(names[j] == names[i]);
}

pub proof fn lemma_pin_map_absent(v: Seq<(String, String)>, k: Seq<char>)
    requires
        forall|j: int| 0 <= j < v.len() ==> #[trigger] v[j].0@ != k,
    ensures
        !pin_map(v).contains_key(k),
{
    let names = pin_names(v);
    if names.contains(k) {
        let j = choose|j: int| 0 <= j < names.len() && names[j] == k;
        assert(v[j].0@ == k);
    }
}

/// Map equality from agreement on every name.
pub proof fn lemma_pin_map_ext(v: Seq<(String, String)>, m: Map<Seq<char>, Seq<char>>)
    requires
        pin_names(v).no_duplicates(),
        forall|k: Seq<char>| m.contains_key(k) <==> pin_names(v).contains(k),
        forall|j: int| 0 <= j < v.len() ==> m[#[trigger] v[j].0@] == v[j].1@,
    ensures
        pin_map(v) == m,
{
    assert forall|k: Seq<char>| #[trigger] pin_map(v).contains_key(k) implies pin_map(v)[k] == m[k] by {
        let names = pin_names(v);
        let j = choose|j: int| 0 <= j < names.len() && names[j] == k;
        assert(v[j].0@ == k);
        lemma_pin_map_at(v, j);
    }
    assert(pin_map(v) =~= m);
}

/// In-memory, non-durable [`PinStore`].
///
/// The pins are a list of `(name, hash)` pairs whose names strictly ascend
/// (the type invariant), standing for a map from name to hash: `vstd`
/// specifies no lookup on a `String`-keyed hash map that a proof could rest on,
/// and the list is proved against its map view ([`PinStore::pin_view`]).
/// Being sorted, the list is determined by the pins, so `==` compares pins and
/// catalog hash whatever order the pins were set in.
#[derive(Debug, PartialEq, Eq)]
pub struct InMemoryPinStore {
    pins: Vec<(String, String)>,
    catalog_hash: Option<String>,
}

pub open spec fn opt_string_view(o: Option<String>) -> Option<Seq<char>> {
    match o {
        Some(s) => Some(s@),
        None => None,
    }
}

impl InMemoryPinStore {
    /// Names strictly ascend, so each tool is pinned at most once and two
    /// stores with the same pins hold the same list.
    #[verifier::type_invariant]
    spec fn names_sorted(self) -> bool {
        names_ascending(self.pins@)
    }

    /// An empty pin store.
    pub fn new() -> (s: Self)
        ensures
            s.pin_view() == Map::<Seq<char>, Seq<char>>::empty(),
            s.catalog_hash_view() is None,
    {
        let s = InMemoryPinStore { pins: Vec::new(), catalog_hash: None };
        assert(pin_map(s.pins@) =~= Map::<Seq<char>, Seq<char>>::empty());
        s
    }

    /// Number of pinned tools.
    pub fn len(&self) -> (r: usize)
        ensures
            r == self.pin_view().len(),
    {
        proof {
            use_type_invariant(self);
            let names = pin_names(self.pins@);
            names.unique_seq_to_set();
            assert(pin_map(self.pins@).dom() =~= names.to_set());
        }
        self.pins.len()
    }

    /// Whether no tools are pinned.
    pub fn is_empty(&self) -> (r: bool)
        ensures
            r == (self.pin_view().len() == 0),
    {
        self.len() == 0
    }
}

impl Default for InMemoryPinStore {
    fn default() -> (s: Self)
        ensures
            s.pin_view() == Map::<Seq<char>, Seq<char>>::empty(),
            s.catalog_hash_view() is None,
    {
        InMemoryPinStore::new()
    }
}

impl Clone for InMemoryPinStore {
    fn clone(&self) -> (s: Self)
        ensures
            s.pin_view() == self.pin_view(),
            s.catalog_hash_view() == self.catalog_hash_view(),
    {
        proof {
            use_type_invariant(self);
        }
        let mut pins: Vec<(String, String)> = Vec::new();
        let mut i: usize = 0;
        while i < self.pins.len()
            invariant
                i <= self.pins@.len(),
                pins@.len() == i,
                forall|j: int| 0 <= j < i ==> #[trigger] pins@[j].0@ == self.pins@[j].0@ && pins@[j].1@ == self.pins@[j].1@,
            decreases self.pins@.len() - i,
        {
            pins.push((self.pins[i].0.clone(), self.pins[i].1.clone()));
            i = i + 1;
        }
        let catalog_hash = match &self.catalog_hash {
            Some(h) => Some(h.clone()),
            None => None,
        };
        proof {
            assert(pin_names(pins@) =~= pin_names(self.pins@));
            assert(pin_map(pins@) =~= pin_map(self.pins@));
        }
        InMemoryPinStore { pins, catalog_hash }
    }
}

impl PinStore for InMemoryPinStore {
    closed spec fn pin_view(&self) -> Map<Seq<char>, Seq<char>> {
        pin_map(self.pins@)
    }

    closed spec fn catalog_hash_view(&self) -> Option<Seq<char>> {
        opt_string_view(self.catalog_hash)
    }

    fn get(&self, tool_name: &str) -> (r: Option<&str>) {
        proof {
            use_type_invariant(self);
        }
        match pins_position(&self.pins, tool_name) {
            Some(i) => {
                proof {
                    lemma_pin_map_at(self.pins@, i as int);
                }
                Some(self.pins[i].1.as_str())
            },
            None => {
                proof {
                    lemma_pin_map_absent(self.pins@, tool_name@);
                }
                None
            },
        }
    }

    fn set(&mut self, tool_name: &str, descriptor_hash: &str) {
        proof {
            use_type_invariant(&*self);
        }
        let mut pins: Vec<(String, String)> = Vec::new();
        std::mem::swap(&mut pins, &mut self.pins);
        sorted_pins_set(&mut pins, tool_name, descriptor_hash);
        self.pins = pins;
    }

    fn remove(&mut self, tool_name: &str) {
        proof {
            use_type_invariant(&*self);
        }
        let mut pins: Vec<(String, String)> = Vec::new();
        std::mem::swap(&mut pins, &mut self.pins);
        sorted_pins_remove(&mut pins, tool_name);
        self.pins = pins;
    }

    fn pinned_names(&self) -> (r: Vec<String>)
        ensures
            sorted_by(strings_view(r@), crate::order::text_order()),
    {
        proof {
            use_type_invariant(self);
            lemma_ascending_unique(self.pins@);
        }
        let mut out: Vec<String> = Vec::new();
        let mut i: usize = 0;
        while i < self.pins.len()
            invariant
                i <= self.pins@.len(),
                strings_view(out@) == pin_names(self.pins@).take(i as int),
            decreases self.pins@.len() - i,
        {
            let ghost before = out@;
            out.push(self.pins[i].0.clone());
            assert(strings_view(out@) =~= strings_view(before).push(self.pins@[i as int].0@));
            assert(pin_names(self.pins@).take(i as int + 1) =~= pin_names(self.pins@).take(i as int).push(
                self.pins@[i as int].0@,
            ));
            i = i + 1;
        }
        assert(pin_names(self.pins@).take(i as int) =~= pin_names(self.pins@));
        assert(strings_view(out@).to_set() =~= pin_map(self.pins@).dom());
        assert forall|a: int, b: int| 0 <= a < b < strings_view(out@).len() implies #[trigger]
            crate::order::text_order()(strings_view(out@)[a], strings_view(out@)[b]) by {
            assert(strings_view(out@)[a] == self.pins@[a].0@);
            assert(strings_view(out@)[b] == self.pins@[b].0@);
        }
        out
    }

    fn catalog_hash(&self) -> (r: Option<&str>) {
        match &self.catalog_hash {
            Some(h) => Some(h.as_str()),
            None => None,
        }
    }

    fn set_catalog_hash(&mut self, catalog_hash: &str) {
        proof {
            use_type_invariant(&*self);
        }
        self.catalog_hash = Some(catalog_hash.to_owned());
    }
}

} // verus!
