//! Compare an observed catalog against the pinned baseline and report drift.
//!
//! The verifier is fail-closed: every tool is classified as added, removed,
//! mutated or unchanged, and any of the first three is drift the host has not
//! approved (see [`DriftReport::has_drift`]). A descriptor with no string
//! `name` is rejected outright rather than skipped.

use vstd::prelude::*;
use vstd::relations::sorted_by;
use vstd::multiset::Multiset;
use crate::IntegrityError;
use crate::canonical::{is_canon_fail, Json, model};
use crate::descriptor_hash::{descriptor_hash, descriptor_hash_of, catalog_hash, catalog_hash_of};
use crate::manifest::{ToolCatalog, catalog_model, descriptor_name};
use crate::order::{text_order, strings_view, sort_strings, lemma_text_leq_total};
use crate::pin_store::PinStore;
use crate::text::{chars_of, same_chars};

verus! {

/// How one observed tool compares with the pins.
pub enum Verdict {
    Added,
    Mutated,
    Unchanged,
}

/// The verdict for an observed `(name, hash)` entry.
pub open spec fn verdict(pins: Map<Seq<char>, Seq<char>>, e: (Seq<char>, Seq<char>)) -> Verdict {
    if !pins.contains_key(e.0) {
        Verdict::Added
    } else if pins[e.0] == e.1 {
        Verdict::Unchanged
    } else {
        Verdict::Mutated
    }
}

/// The names of the entries with verdict `v`, in order.
pub open spec fn names_with(
    es: Seq<(Seq<char>, Seq<char>)>,
    pins: Map<Seq<char>, Seq<char>>,
    v: Verdict,
) -> Seq<Seq<char>>
    decreases es.len(),
{
    if es.len() == 0 {
        Seq::empty()
    } else {
        let rest = names_with(es.drop_last(), pins, v);
        if verdict(pins, es.last()) == v {
            rest.push(es.last().0)
        } else {
            rest
        }
    }
}

/// A descriptor can be verified: it has a string name and a descriptor hash.
pub open spec fn tool_ok(t: Json) -> bool {
    descriptor_name(t) is Some && descriptor_hash_of(t) is Some
}

pub open spec fn all_ok(tools: Seq<Json>) -> bool {
    forall|i: int| 0 <= i < tools.len() ==> #[trigger] tool_ok(tools[i])
}

/// `i` is the first descriptor that cannot be verified.
pub open spec fn first_bad(tools: Seq<Json>, i: int) -> bool {
    &&& 0 <= i < tools.len()
    &&& !tool_ok(tools[i])
    &&& forall|j: int| 0 <= j < i ==> #[trigger] tool_ok(tools[j])
}

/// The error reported for the descriptor `t` that cannot be verified: a
/// missing name is reported before a canonicalization failure.
pub open spec fn error_for(t: Json, e: IntegrityError) -> bool {
    if descriptor_name(t) is None {
        e is MissingName
    } else {
        is_canon_fail(e)
    }
}

/// The `(name, descriptor hash)` of each descriptor, in order.
pub open spec fn tool_entries(tools: Seq<Json>) -> Seq<(Seq<char>, Seq<char>)> {
    tools.map_values(|t: Json| (descriptor_name(t).unwrap(), descriptor_hash_of(t).unwrap()))
}

pub open spec fn entry_names(es: Seq<(Seq<char>, Seq<char>)>) -> Seq<Seq<char>> {
    es.map_values(|e: (Seq<char>, Seq<char>)| e.0)
}

pub open spec fn entry_hashes(es: Seq<(Seq<char>, Seq<char>)>) -> Seq<Seq<char>> {
    es.map_values(|e: (Seq<char>, Seq<char>)| e.1)
}

/// The members of `s` in ascending order, each once.
pub open spec fn is_sorted_listing(q: Seq<Seq<char>>, s: Set<Seq<char>>) -> bool {
    &&& q.no_duplicates()
    &&& q.to_set() == s
    &&& sorted_by(q, text_order())
}

pub open spec fn sorted_listing(s: Set<Seq<char>>) -> Seq<Seq<char>> {
    choose|q: Seq<Seq<char>>| is_sorted_listing(q, s)
}

/// The abstract content of a [`DriftReport`].
pub struct DriftView {
    pub added: Seq<Seq<char>>,
    pub removed: Seq<Seq<char>>,
    pub mutated: Seq<Seq<char>>,
    pub unchanged: Seq<Seq<char>>,
    pub observed_catalog_hash: Seq<char>,
}

/// The report of verifying the descriptors `tools` against `pins`: each list
/// sorted in `String` order, and the observed catalog hash.
pub open spec fn drift_of(tools: Seq<Json>, pins: Map<Seq<char>, Seq<char>>) -> DriftView {
    let es = tool_entries(tools);
    DriftView {
        added: names_with(es, pins, Verdict::Added).sort_by(text_order()),
        removed: sorted_listing(pins.dom().difference(entry_names(es).to_set())),
        mutated: names_with(es, pins, Verdict::Mutated).sort_by(text_order()),
        unchanged: names_with(es, pins, Verdict::Unchanged).sort_by(text_order()),
        observed_catalog_hash: catalog_hash_of(entry_hashes(es)),
    }
}

/// The result of verifying an observed catalog against a [`PinStore`].
#[derive(Debug, PartialEq, Eq)]
pub struct DriftReport {
    /// Tools present in the observation but not pinned.
    pub added: Vec<String>,
    /// Tools pinned but absent from the observation.
    pub removed: Vec<String>,
    /// Tools present in both whose descriptor hash differs from the pin.
    pub mutated: Vec<String>,
    /// Tools present in both with a matching descriptor hash.
    pub unchanged: Vec<String>,
    /// The catalog hash of the observed catalog.
    pub observed_catalog_hash: String,
}

pub open spec fn report_view(r: DriftReport) -> DriftView {
    DriftView {
        added: strings_view(r.added@),
        removed: strings_view(r.removed@),
        mutated: strings_view(r.mutated@),
        unchanged: strings_view(r.unchanged@),
        observed_catalog_hash: r.observed_catalog_hash@,
    }
}

/// Whether a report shows drift.
pub open spec fn shows_drift(d: DriftView) -> bool {
    d.added.len() > 0 || d.removed.len() > 0 || d.mutated.len() > 0
}

impl DriftReport {
    /// Whether the observation drifted from the pinned baseline in any way the
    /// host has not approved: a tool was added, removed or mutated.
    pub fn has_drift(&self) -> (r: bool)
        ensures
            r == shows_drift(report_view(*self)),
    {
        self.added.len() > 0 || self.removed.len() > 0 || self.mutated.len() > 0
    }
}

impl Default for DriftReport {
    fn default() -> (r: Self)
        ensures
            r.added@.len() == 0,
            r.removed@.len() == 0,
            r.mutated@.len() == 0,
            r.unchanged@.len() == 0,
            r.observed_catalog_hash@ == Seq::<char>::empty(),
    {
        DriftReport {
            added: Vec::new(),
            removed: Vec::new(),
            mutated: Vec::new(),
            unchanged: Vec::new(),
            observed_catalog_hash: String::new(),
        }
    }
}

/// Whether `a` and `b` hold the same characters.
fn str_eq(a: &str, b: &str) -> (r: bool)
    ensures
        r == (a@ == b@),
{
    let cs = chars_of(b);
    same_chars(a, cs.as_slice())
}

/// Whether `v` holds a string equal to `s`.
fn contains_str(v: &Vec<String>, s: &str) -> (r: bool)
    ensures
        r == strings_view(v@).contains(s@),
{
    let mut i: usize = 0;
    while i < v.len()
        invariant
            i <= v@.len(),
            forall|j: int| 0 <= j < i ==> #[trigger] v@[j]@ != s@,
        decreases v@.len() - i,
    {
        if str_eq(v[i].as_str(), s) {
            assert(strings_view(v@)[i as int] == s@);
            return true;
        }
        i = i + 1;
    }
    proof {
        if strings_view(v@).contains(s@) {
            let j = choose|j: int| 0 <= j < v@.len() && strings_view(v@)[j] == s@;
            assert(v@[j]@ == s@);
        }
    }
    false
}

proof fn lemma_tool_entries_take(tools: Seq<Json>, i: int)
    requires
        0 <= i < tools.len(),
    ensures
        tool_entries(tools.take(i + 1)) == tool_entries(tools.take(i)).push(
            (descriptor_name(tools[i]).unwrap(), descriptor_hash_of(tools[i]).unwrap()),
        ),
{
    assert(tool_entries(tools.take(i + 1)) =~= tool_entries(tools.take(i)).push(
        (descriptor_name(tools[i]).unwrap(), descriptor_hash_of(tools[i]).unwrap()),
    ));
}

proof fn lemma_names_with_push(
    es: Seq<(Seq<char>, Seq<char>)>,
    e: (Seq<char>, Seq<char>),
    pins: Map<Seq<char>, Seq<char>>,
    v: Verdict,
)
    ensures
        names_with(es.push(e), pins, v) == if verdict(pins, e) == v {
            names_with(es, pins, v).push(e.0)
        } else {
            names_with(es, pins, v)
        },
{
    assert(es.push(e).drop_last() =~= es);
}

/// Two sorted listings of one set are the same sequence.
proof fn lemma_sorted_listing_unique(q: Seq<Seq<char>>, s: Set<Seq<char>>)
    requires
        is_sorted_listing(q, s),
    ensures
        sorted_listing(s) == q,
{
    broadcast use vstd::seq_lib::group_to_multiset_ensures;

    let c = sorted_listing(s);
    assert(is_sorted_listing(c, s));
    q.lemma_multiset_has_no_duplicates();
    c.lemma_multiset_has_no_duplicates();
    assert forall|x: Seq<char>| #[trigger] q.to_multiset().count(x) == c.to_multiset().count(x) by {
        assert(q.contains(x) == q.to_set().contains(x));
        assert(c.contains(x) == c.to_set().contains(x));
    }
    assert(q.to_multiset() =~= c.to_multiset());
    lemma_text_leq_total();
    vstd::seq_lib::lemma_sorted_unique(q, c, text_order());
}

/// What verifying the descriptors `tools` against `pins` returns: the drift
/// report when every descriptor can be verified, else the error of the first
/// one that cannot.
pub open spec fn verify_outcome(
    tools: Seq<Json>,
    pins: Map<Seq<char>, Seq<char>>,
    r: Result<DriftReport, IntegrityError>,
) -> bool {
    match r {
        Ok(rep) => all_ok(tools) && report_view(rep) == drift_of(tools, pins),
        Err(e) => exists|i: int| first_bad(tools, i) && error_for(#[trigger] tools[i], e),
    }
}

/// Verify `catalog` against `pins`, classifying every tool and computing the
/// observed catalog hash. The pin store is only read; a host calls [`repin`]
/// to accept the observation.
pub fn verify<P: PinStore>(catalog: &ToolCatalog, pins: &P) -> (r: Result<DriftReport, IntegrityError>)
    ensures
        verify_outcome(catalog_model(catalog.tools@), pins.pin_view(), r),
{
    let ghost tools = catalog_model(catalog.tools@);
    let ghost pv = pins.pin_view();
    let mut added: Vec<String> = Vec::new();
    let mut mutated: Vec<String> = Vec::new();
    let mut unchanged: Vec<String> = Vec::new();
    let mut observed: Vec<String> = Vec::new();
    let mut hashes: Vec<String> = Vec::new();
    let mut i: usize = 0;
    while i < catalog.tools.len()
        invariant
            i <= catalog.tools@.len(),
            tools == catalog_model(catalog.tools@),
            pv == pins.pin_view(),
            forall|j: int| 0 <= j < i ==> #[trigger] tool_ok(tools[j]),
            strings_view(added@) == names_with(tool_entries(tools.take(i as int)), pv, Verdict::Added),
            strings_view(mutated@) == names_with(
                tool_entries(tools.take(i as int)),
                pv,
                Verdict::Mutated,
            ),
            strings_view(unchanged@) == names_with(
                tool_entries(tools.take(i as int)),
                pv,
                Verdict::Unchanged,
            ),
            strings_view(observed@) == entry_names(tool_entries(tools.take(i as int))),
            strings_view(hashes@) == entry_hashes(tool_entries(tools.take(i as int))),
        decreases catalog.tools@.len() - i,
    {
        let tool = &catalog.tools[i];
        assert(tools[i as int] == model(tool.value));
        let name = match tool.name() {
            Some(n) => n,
            None => {
                proof {
                    assert(first_bad(tools, i as int));
                }
                return Err(IntegrityError::MissingName);
            },
        };
        let hash = match descriptor_hash(&tool.value) {
            Ok(h) => h,
            Err(e) => {
                proof {
                    assert(first_bad(tools, i as int));
                }
                return Err(e);
            },
        };
        let ghost es = tool_entries(tools.take(i as int));
        let ghost e = (name@, hash@);
        proof {
            lemma_tool_entries_take(tools, i as int);
            lemma_names_with_push(es, e, pv, Verdict::Added);
            lemma_names_with_push(es, e, pv, Verdict::Mutated);
            lemma_names_with_push(es, e, pv, Verdict::Unchanged);
            assert(entry_names(es.push(e)) =~= entry_names(es).push(name@));
            assert(entry_hashes(es.push(e)) =~= entry_hashes(es).push(hash@));
        }
        let ghost (a0, m0, u0, o0, h0) = (added@, mutated@, unchanged@, observed@, hashes@);
        hashes.push(hash.clone());
        observed.push(name.to_owned());
        match pins.get(name) {
            None => {
                added.push(name.to_owned());
                assert(strings_view(added@) =~= strings_view(a0).push(name@));
            },
            Some(pinned) => {
                if str_eq(pinned, hash.as_str()) {
                    unchanged.push(name.to_owned());
                    assert(strings_view(unchanged@) =~= strings_view(u0).push(name@));
                } else {
                    mutated.push(name.to_owned());
                    assert(strings_view(mutated@) =~= strings_view(m0).push(name@));
                }
            },
        }
        assert(strings_view(observed@) =~= strings_view(o0).push(name@));
        assert(strings_view(hashes@) =~= strings_view(h0).push(hash@));
        i = i + 1;
    }
    let ghost es = tool_entries(tools);
    proof {
        assert(tools.take(i as int) =~= tools);
    }
    let pinned = pins.pinned_names();
    let mut removed: Vec<String> = Vec::new();
    let ghost gone = pv.dom().difference(entry_names(es).to_set());
    let mut k: usize = 0;
    while k < pinned.len()
        invariant
            k <= pinned@.len(),
            strings_view(pinned@).no_duplicates(),
            strings_view(pinned@).to_set() == pv.dom(),
            strings_view(observed@) == entry_names(es),
            gone == pv.dom().difference(entry_names(es).to_set()),
            strings_view(removed@).no_duplicates(),
            forall|x: Seq<char>| #[trigger] strings_view(removed@).contains(x) <==> (gone.contains(x)
                && strings_view(pinned@).take(k as int).contains(x)),
        decreases pinned@.len() - k,
    {
        let ghost r0 = removed@;
        let ghost pk = strings_view(pinned@)[k as int];
        assert(strings_view(pinned@).take(k as int + 1) =~= strings_view(pinned@).take(k as int).push(pk));
        if !contains_str(&observed, pinned[k].as_str()) {
            removed.push(pinned[k].clone());
            proof {
                assert(strings_view(removed@) =~= strings_view(r0).push(pk));
                assert(pv.dom().contains(pk));
                assert(!strings_view(pinned@).take(k as int).contains(pk)) by {
                    if strings_view(pinned@).take(k as int).contains(pk) {
                        let j = choose|j: int| 0 <= j < k && strings_view(pinned@).take(k as int)[j] == pk;
                        assert(strings_view(pinned@)[j] == strings_view(pinned@)[k as int]);
                    }
                }
                assert forall|a: int, b: int| 0 <= a < b < strings_view(removed@).len() implies
                    strings_view(removed@)[a] != strings_view(removed@)[b] by {
                    if b == strings_view(r0).len() {
                        assert(strings_view(r0).contains(strings_view(r0)[a]));
                    }
                }
                assert(!strings_view(observed@).contains(pk));
                assert(!entry_names(es).to_set().contains(pk));
                assert(gone.contains(pk));
                assert forall|x: Seq<char>| #[trigger] strings_view(removed@).contains(x) <==> (gone.contains(x)
                    && strings_view(pinned@).take(k as int + 1).contains(x)) by {
                    if x == pk {
                        assert(strings_view(removed@)[strings_view(r0).len() as int] == pk);
                        assert(strings_view(pinned@).take(k as int + 1)[k as int] == pk);
                    } else {
                        if strings_view(removed@).contains(x) {
                            let j = choose|j: int| 0 <= j < strings_view(removed@).len() && strings_view(removed@)[j] == x;
                            assert(strings_view(r0)[j] == x);
                        }
                        if strings_view(r0).contains(x) {
                            let j = choose|j: int| 0 <= j < strings_view(r0).len() && strings_view(r0)[j] == x;
                            assert(strings_view(removed@)[j] == x);
                        }
                        if strings_view(pinned@).take(k as int + 1).contains(x) {
                            let j = choose|j: int| 0 <= j < k + 1 && #[trigger] strings_view(pinned@).take(k as int + 1)[j] == x;
                            assert(strings_view(pinned@).take(k as int)[j] == x);
                        }
                        if strings_view(pinned@).take(k as int).contains(x) {
                            let j = choose|j: int| 0 <= j < k && #[trigger] strings_view(pinned@).take(k as int)[j] == x;
                            assert(strings_view(pinned@).take(k as int + 1)[j] == x);
                        }
                    }
                }
            }
        } else {
            proof {
                assert forall|x: Seq<char>| #[trigger] strings_view(removed@).contains(x) <==> (gone.contains(x)
                    && strings_view(pinned@).take(k as int + 1).contains(x)) by {
                    if x == pk {
                        assert(!gone.contains(x));
                    }
                }
            }
        }
        k = k + 1;
    }
    proof {
        assert(strings_view(pinned@).take(k as int) =~= strings_view(pinned@));
    }
    let added_sorted = sort_strings(&added);
    let removed_sorted = sort_strings(&removed);
    let mutated_sorted = sort_strings(&mutated);
    let unchanged_sorted = sort_strings(&unchanged);
    let observed_catalog_hash = catalog_hash(&hashes);
    proof {
        broadcast use vstd::seq_lib::group_to_multiset_ensures;

        let rv = strings_view(removed@);
        let rs = strings_view(removed_sorted@);
        lemma_text_leq_total();
        rv.lemma_sort_by_ensures(text_order());
        rv.lemma_multiset_has_no_duplicates();
        assert forall|x: Seq<char>| rs.to_multiset().contains(x) implies rs.to_multiset().count(x) == 1 by {
        }
        rs.lemma_multiset_has_no_duplicates_conv();
        assert forall|x: Seq<char>| rs.to_set().contains(x) == gone.contains(x) by {
            assert(rs.contains(x) == rs.to_multiset().contains(x));
            assert(rv.contains(x) == rv.to_multiset().contains(x));
        }
        assert(rs.to_set() =~= gone);
        lemma_sorted_listing_unique(rs, gone);
    }
    Ok(DriftReport {
        added: added_sorted,
        removed: removed_sorted,
        mutated: mutated_sorted,
        unchanged: unchanged_sorted,
        observed_catalog_hash,
    })
}

/// `m` after pinning each `(name, hash)` of `es` in order.
pub open spec fn pins_after(
    m: Map<Seq<char>, Seq<char>>,
    es: Seq<(Seq<char>, Seq<char>)>,
) -> Map<Seq<char>, Seq<char>>
    decreases es.len(),
{
    if es.len() == 0 {
        m
    } else {
        pins_after(m, es.drop_last()).insert(es.last().0, es.last().1)
    }
}

/// The pins of exactly the entries `es`; a name listed twice keeps its last
/// hash.
pub open spec fn entries_map(es: Seq<(Seq<char>, Seq<char>)>) -> Map<Seq<char>, Seq<char>> {
    pins_after(Map::empty(), es)
}

proof fn lemma_pins_after(m: Map<Seq<char>, Seq<char>>, es: Seq<(Seq<char>, Seq<char>)>)
    ensures
        forall|k: Seq<char>|
            #[trigger] pins_after(m, es).contains_key(k) <==> (m.contains_key(k) || entry_names(
                es,
            ).contains(k)),
        forall|k: Seq<char>|
            entry_names(es).contains(k) ==> #[trigger] pins_after(m, es)[k] == entries_map(es)[k],
        forall|k: Seq<char>|
            !entry_names(es).contains(k) && m.contains_key(k) ==> #[trigger] pins_after(m, es)[k]
                == m[k],
        forall|k: Seq<char>| #[trigger] entries_map(es).contains_key(k) <==> entry_names(es).contains(k),
    decreases es.len(),
{
    if es.len() == 0 {
        assert(entry_names(es).len() == 0);
    } else {
        let p = es.drop_last();
        let last = es.last();
        lemma_pins_after(m, p);
        lemma_pins_after(Map::empty(), p);
        assert(entry_names(es) =~= entry_names(p).push(last.0));
        assert forall|k: Seq<char>| entry_names(es).contains(k) <==> (entry_names(p).contains(k) || k
            == last.0) by {
            if entry_names(es).contains(k) && k != last.0 {
                let j = choose|j: int| 0 <= j < entry_names(es).len() && entry_names(es)[j] == k;
                assert(entry_names(p)[j] == k);
            }
            if entry_names(p).contains(k) {
                let j = choose|j: int| 0 <= j < entry_names(p).len() && entry_names(p)[j] == k;
                assert(entry_names(es)[j] == k);
            }
            if k == last.0 {
                assert(entry_names(es)[es.len() - 1] == k);
            }
        }
        assert forall|k: Seq<char>| #[trigger] pins_after(m, es).contains_key(k) <==> (m.contains_key(k)
            || entry_names(es).contains(k)) by {
            assert(pins_after(m, p).contains_key(k) <==> (m.contains_key(k) || entry_names(p).contains(k)));
        }
        assert forall|k: Seq<char>| entry_names(es).contains(k) implies #[trigger] pins_after(m, es)[k]
            == entries_map(es)[k] by {
            if k != last.0 {
                assert(pins_after(m, p)[k] == entries_map(p)[k]);
            }
        }
        assert forall|k: Seq<char>| !entry_names(es).contains(k) && m.contains_key(k) implies
            #[trigger] pins_after(m, es)[k] == m[k] by {
            assert(pins_after(m, p)[k] == m[k]);
        }
        assert forall|k: Seq<char>| #[trigger] entries_map(es).contains_key(k) <==> entry_names(es).contains(k) by {
            assert(entries_map(p).contains_key(k) <==> entry_names(p).contains(k));
        }
    }
}

/// What re-pinning the descriptors `tools` does to a store holding `pins`
/// and `hash`, ending with `pins2` and `hash2`: on success the store pins
/// exactly the observed tools and records the catalog hash; on failure the
/// descriptors before the first one that cannot be verified stay pinned and
/// the catalog hash is unchanged.
pub open spec fn repin_outcome(
    tools: Seq<Json>,
    pins: Map<Seq<char>, Seq<char>>,
    hash: Option<Seq<char>>,
    pins2: Map<Seq<char>, Seq<char>>,
    hash2: Option<Seq<char>>,
    r: Result<(), IntegrityError>,
) -> bool {
    match r {
        Ok(_) => all_ok(tools) && pins2 == entries_map(tool_entries(tools)) && hash2 == Some(
            catalog_hash_of(entry_hashes(tool_entries(tools))),
        ),
        Err(e) => exists|i: int|
            first_bad(tools, i) && error_for(#[trigger] tools[i], e) && pins2 == pins_after(
                pins,
                tool_entries(tools.take(i)),
            ) && hash2 == hash,
    }
}

/// Accept an observed catalog as the new baseline: pin every observed
/// descriptor hash, drop the pins of tools no longer present, and record the
/// catalog hash. This is the explicit, host-approved re-pin. When a
/// descriptor cannot be verified the earlier descriptors stay pinned and the
/// catalog hash is left as it was.
pub fn repin<P: PinStore>(catalog: &ToolCatalog, pins: &mut P) -> (r: Result<(), IntegrityError>)
    ensures
        repin_outcome(
            catalog_model(catalog.tools@),
            old(pins).pin_view(),
            old(pins).catalog_hash_view(),
            final(pins).pin_view(),
            final(pins).catalog_hash_view(),
            r,
        ),
{
    let ghost tools = catalog_model(catalog.tools@);
    let ghost start = pins.pin_view();
    let ghost start_hash = pins.catalog_hash_view();
    let mut observed: Vec<String> = Vec::new();
    let mut hashes: Vec<String> = Vec::new();
    let mut i: usize = 0;
    while i < catalog.tools.len()
        invariant
            i <= catalog.tools@.len(),
            tools == catalog_model(catalog.tools@),
            start == old(pins).pin_view(),
            start_hash == old(pins).catalog_hash_view(),
            forall|j: int| 0 <= j < i ==> #[trigger] tool_ok(tools[j]),
            pins.pin_view() == pins_after(start, tool_entries(tools.take(i as int))),
            pins.catalog_hash_view() == start_hash,
            strings_view(observed@) == entry_names(tool_entries(tools.take(i as int))),
            strings_view(hashes@) == entry_hashes(tool_entries(tools.take(i as int))),
        decreases catalog.tools@.len() - i,
    {
        let tool = &catalog.tools[i];
        assert(tools[i as int] == model(tool.value));
        let name = match tool.name() {
            Some(n) => n,
            None => {
                proof {
                    assert(first_bad(tools, i as int));
                }
                return Err(IntegrityError::MissingName);
            },
        };
        let hash = match descriptor_hash(&tool.value) {
            Ok(h) => h,
            Err(e) => {
                proof {
                    assert(first_bad(tools, i as int));
                }
                return Err(e);
            },
        };
        let ghost es = tool_entries(tools.take(i as int));
        let ghost e = (name@, hash@);
        proof {
            lemma_tool_entries_take(tools, i as int);
            assert(es.push(e).drop_last() =~= es);
            assert(entry_names(es.push(e)) =~= entry_names(es).push(name@));
            assert(entry_hashes(es.push(e)) =~= entry_hashes(es).push(hash@));
        }
        let ghost (o0, h0) = (observed@, hashes@);
        pins.set(name, hash.as_str());
        hashes.push(hash.clone());
        observed.push(name.to_owned());
        assert(strings_view(observed@) =~= strings_view(o0).push(name@));
        assert(strings_view(hashes@) =~= strings_view(h0).push(hash@));
        i = i + 1;
    }
    let ghost es = tool_entries(tools);
    let ghost full = pins.pin_view();
    proof {
        assert(tools.take(i as int) =~= tools);
        lemma_pins_after(start, es);
    }
    let pinned = pins.pinned_names();
    let mut k: usize = 0;
    while k < pinned.len()
        invariant
            k <= pinned@.len(),
            strings_view(pinned@).to_set() == full.dom(),
            strings_view(observed@) == entry_names(es),
            pins.catalog_hash_view() == start_hash,
            forall|x: Seq<char>| #[trigger] pins.pin_view().contains_key(x) <==> (full.contains_key(x) && !(
                strings_view(pinned@).take(k as int).contains(x) && !entry_names(es).contains(x))),
            forall|x: Seq<char>| #[trigger] pins.pin_view().contains_key(x) ==> pins.pin_view()[x] == full[x],
        decreases pinned@.len() - k,
    {
        let ghost pk = strings_view(pinned@)[k as int];
        let ghost before = pins.pin_view();
        proof {
            assert(strings_view(pinned@).take(k as int + 1) =~= strings_view(pinned@).take(k as int).push(pk));
            assert forall|x: Seq<char>| strings_view(pinned@).take(k as int + 1).contains(x) <==> (
                strings_view(pinned@).take(k as int).contains(x) || x == pk) by {
                if strings_view(pinned@).take(k as int + 1).contains(x) && x != pk {
                    let j = choose|j: int| 0 <= j < k + 1 && #[trigger] strings_view(pinned@).take(k as int + 1)[j] == x;
                    assert(strings_view(pinned@).take(k as int)[j] == x);
                }
                if strings_view(pinned@).take(k as int).contains(x) {
                    let j = choose|j: int| 0 <= j < k && #[trigger] strings_view(pinned@).take(k as int)[j] == x;
                    assert(strings_view(pinned@).take(k as int + 1)[j] == x);
                }
                if x == pk {
                    assert(strings_view(pinned@).take(k as int + 1)[k as int] == x);
                }
            }
        }
        assert(pinned@[k as int]@ == pk);
        let seen = contains_str(&observed, pinned[k].as_str());
        if !seen {
            pins.remove(pinned[k].as_str());
        }
        proof {
            assert forall|x: Seq<char>| #[trigger] pins.pin_view().contains_key(x) <==> (full.contains_key(x)
                && !(strings_view(pinned@).take(k as int + 1).contains(x) && !entry_names(es).contains(x))) by {
                assert(before.contains_key(x) <==> (full.contains_key(x) && !(strings_view(pinned@).take(
                    k as int,
                ).contains(x) && !entry_names(es).contains(x))));
            }
            assert forall|x: Seq<char>| #[trigger] pins.pin_view().contains_key(x) implies pins.pin_view()[x]
                == full[x] by {
                assert(before.contains_key(x));
            }
        }
        k = k + 1;
    }
    let observed_catalog_hash = catalog_hash(&hashes);
    pins.set_catalog_hash(observed_catalog_hash.as_str());
    proof {
        assert(strings_view(pinned@).take(k as int) =~= strings_view(pinned@));
        let target = entries_map(es);
        assert forall|x: Seq<char>| pins.pin_view().contains_key(x) <==> target.contains_key(x) by {
            if entry_names(es).contains(x) {
                assert(full.contains_key(x));
            }
            if full.contains_key(x) {
                assert(strings_view(pinned@).to_set().contains(x));
            }
        }
        assert(pins.pin_view() =~= target);
    }
    Ok(())
}

/// A tool name that occurs twice in `es` carries the same descriptor hash
/// both times.
pub open spec fn names_consistent(es: Seq<(Seq<char>, Seq<char>)>) -> bool {
    forall|a: int, b: int|
        0 <= a < es.len() && 0 <= b < es.len() && #[trigger] es[a].0 == #[trigger] es[b].0 ==> es[a].1
            == es[b].1
}

proof fn lemma_entries_map_value(es: Seq<(Seq<char>, Seq<char>)>, a: int)
    requires
        names_consistent(es),
        0 <= a < es.len(),
    ensures
        entries_map(es).contains_key(es[a].0),
        entries_map(es)[es[a].0] == es[a].1,
    decreases es.len(),
{
    let p = es.drop_last();
    if es.last().0 == es[a].0 {
        assert(es[es.len() - 1].0 == es[a].0);
    } else {
        assert(a < es.len() - 1);
        assert(names_consistent(p)) by {
            assert forall|x: int, y: int|
                0 <= x < p.len() && 0 <= y < p.len() && #[trigger] p[x].0 == #[trigger] p[y].0 implies p[x].1
                    == p[y].1 by {
                assert(es[x] == p[x] && es[y] == p[y]);
            }
        }
        assert(p[a] == es[a]);
        lemma_entries_map_value(p, a);
    }
}

proof fn lemma_all_unchanged(es: Seq<(Seq<char>, Seq<char>)>, pins: Map<Seq<char>, Seq<char>>)
    requires
        forall|a: int| 0 <= a < es.len() ==> verdict(pins, #[trigger] es[a]) == Verdict::Unchanged,
    ensures
        names_with(es, pins, Verdict::Unchanged) == entry_names(es),
        names_with(es, pins, Verdict::Added).len() == 0,
        names_with(es, pins, Verdict::Mutated).len() == 0,
    decreases es.len(),
{
    if es.len() > 0 {
        let p = es.drop_last();
        assert forall|a: int| 0 <= a < p.len() implies verdict(pins, #[trigger] p[a]) == Verdict::Unchanged by {
            assert(p[a] == es[a]);
        }
        lemma_all_unchanged(p, pins);
        assert(verdict(pins, es[es.len() - 1]) == Verdict::Unchanged);
        assert(entry_names(es) =~= entry_names(p).push(es.last().0));
    }
}

proof fn lemma_sort_empty(s: Seq<Seq<char>>)
    requires
        s.len() == 0,
    ensures
        s.sort_by(text_order()).len() == 0,
{
    broadcast use vstd::seq_lib::group_to_multiset_ensures;

    lemma_text_leq_total();
    s.lemma_sort_by_ensures(text_order());
    vstd::seq_lib::to_multiset_len(s);
    vstd::seq_lib::to_multiset_len(s.sort_by(text_order()));
}

/// Re-pinning a catalog and then verifying the same catalog shows no drift:
/// nothing is added, removed or mutated, every tool is unchanged, and the
/// observed catalog hash is the one the re-pin recorded. This holds whenever
/// the tools that share a name also share a descriptor hash (distinct names
/// are the usual case).
pub proof fn lemma_repinned_catalog_has_no_drift(tools: Seq<Json>)
    requires
        all_ok(tools),
        names_consistent(tool_entries(tools)),
    ensures
        ({
            let es = tool_entries(tools);
            let d = drift_of(tools, entries_map(es));
            &&& d.added.len() == 0
            &&& d.removed.len() == 0
            &&& d.mutated.len() == 0
            &&& d.unchanged == entry_names(es).sort_by(text_order())
            &&& d.observed_catalog_hash == catalog_hash_of(entry_hashes(es))
            &&& !shows_drift(d)
        }),
{
    let es = tool_entries(tools);
    let pins = entries_map(es);
    lemma_pins_after(Map::empty(), es);
    assert forall|a: int| 0 <= a < es.len() implies verdict(pins, #[trigger] es[a]) == Verdict::Unchanged by {
        lemma_entries_map_value(es, a);
    }
    lemma_all_unchanged(es, pins);
    lemma_sort_empty(names_with(es, pins, Verdict::Added));
    lemma_sort_empty(names_with(es, pins, Verdict::Mutated));
    let gone = pins.dom().difference(entry_names(es).to_set());
    assert(gone =~= Set::<Seq<char>>::empty());
    lemma_text_leq_total();
    assert(is_sorted_listing(Seq::<Seq<char>>::empty(), gone)) by {
        assert(Seq::<Seq<char>>::empty().to_set() =~= Set::<Seq<char>>::empty());
    }
    lemma_sorted_listing_unique(Seq::<Seq<char>>::empty(), gone);
}

/// Every observed tool is classified exactly once: the added, mutated and
/// unchanged names together are the observed names, each as often as it is
/// observed.
pub proof fn lemma_classification_partition(es: Seq<(Seq<char>, Seq<char>)>, pins: Map<Seq<char>, Seq<char>>)
    ensures
        names_with(es, pins, Verdict::Added).to_multiset().add(
            names_with(es, pins, Verdict::Mutated).to_multiset(),
        ).add(names_with(es, pins, Verdict::Unchanged).to_multiset()) == entry_names(es).to_multiset(),
    decreases es.len(),
{
    broadcast use vstd::seq_lib::group_to_multiset_ensures;
    broadcast use vstd::multiset::group_multiset_axioms;

    if es.len() == 0 {
        assert(entry_names(es) =~= Seq::<Seq<char>>::empty());
        assert(names_with(es, pins, Verdict::Added).to_multiset() =~= Multiset::empty());
        assert(names_with(es, pins, Verdict::Mutated).to_multiset() =~= Multiset::empty());
        assert(names_with(es, pins, Verdict::Unchanged).to_multiset() =~= Multiset::empty());
        assert(entry_names(es).to_multiset() =~= Multiset::empty());
    } else {
        let p = es.drop_last();
        let e = es.last();
        lemma_classification_partition(p, pins);
        assert(es =~= p.push(e));
        lemma_names_with_push(p, e, pins, Verdict::Added);
        lemma_names_with_push(p, e, pins, Verdict::Mutated);
        lemma_names_with_push(p, e, pins, Verdict::Unchanged);
        assert(entry_names(es) =~= entry_names(p).push(e.0));
        let a = names_with(p, pins, Verdict::Added).to_multiset();
        let m = names_with(p, pins, Verdict::Mutated).to_multiset();
        let u = names_with(p, pins, Verdict::Unchanged).to_multiset();
        let total = a.add(m).add(u);
        if verdict(pins, e) == Verdict::Added {
            assert(a.insert(e.0).add(m).add(u) =~= total.insert(e.0));
        } else if verdict(pins, e) == Verdict::Mutated {
            assert(a.add(m.insert(e.0)).add(u) =~= total.insert(e.0));
        } else {
            assert(a.add(m).add(u.insert(e.0)) =~= total.insert(e.0));
        }
    }
}

proof fn lemma_names_with_nonempty(es: Seq<(Seq<char>, Seq<char>)>, pins: Map<Seq<char>, Seq<char>>, v: Verdict)
    ensures
        names_with(es, pins, v).len() > 0 <==> exists|i: int| 0 <= i < es.len() && verdict(pins, #[trigger] es[i]) == v,
    decreases es.len(),
{
    if es.len() > 0 {
        let p = es.drop_last();
        lemma_names_with_nonempty(p, pins, v);
        if exists|i: int| 0 <= i < p.len() && verdict(pins, #[trigger] p[i]) == v {
            let i = choose|i: int| 0 <= i < p.len() && verdict(pins, #[trigger] p[i]) == v;
            assert(es[i] == p[i]);
        }
        if exists|i: int| 0 <= i < es.len() && verdict(pins, #[trigger] es[i]) == v {
            let i = choose|i: int| 0 <= i < es.len() && verdict(pins, #[trigger] es[i]) == v;
            if i < p.len() {
                assert(p[i] == es[i]);
            }
        }
    }
}

proof fn lemma_sorted_len(s: Seq<Seq<char>>)
    ensures
        s.sort_by(text_order()).len() == s.len(),
{
    broadcast use vstd::seq_lib::group_to_multiset_ensures;
    lemma_text_leq_total();
    s.lemma_sort_by_ensures(text_order());
    vstd::seq_lib::to_multiset_len(s);
    vstd::seq_lib::to_multiset_len(s.sort_by(text_order()));
}

proof fn lemma_to_seq_no_duplicates(s: Set<Seq<char>>)
    requires
        s.finite(),
    ensures
        s.to_seq().no_duplicates(),
    decreases s.len(),
{
    if s.len() > 0 {
        let x = s.choose();
        let r = s.remove(x);
        lemma_to_seq_no_duplicates(r);
        r.lemma_to_seq_to_set_id();
        assert(s.to_seq() == Seq::<Seq<char>>::empty().push(x) + r.to_seq());
        let q = s.to_seq();
        assert forall|i: int, j: int| 0 <= i < q.len() && 0 <= j < q.len() && i != j implies q[i] != q[j] by {
            if i == 0 {
                assert(r.to_seq().contains(q[j]));
                assert(r.to_seq().to_set().contains(q[j]));
            } else if j == 0 {
                assert(r.to_seq().contains(q[i]));
                assert(r.to_seq().to_set().contains(q[i]));
            } else {
                assert(q[i] == r.to_seq()[i - 1] && q[j] == r.to_seq()[j - 1]);
            }
        }
    }
}

/// The sorted listing of a finite set lists as many names as the set holds.
proof fn lemma_sorted_listing_len(s: Set<Seq<char>>)
    requires
        s.finite(),
    ensures
        sorted_listing(s).len() == s.len(),
{
    broadcast use vstd::seq_lib::group_to_multiset_ensures;
    lemma_text_leq_total();
    lemma_to_seq_no_duplicates(s);
    s.lemma_to_seq_to_set_id();
    let u = s.to_seq();
    u.lemma_sort_by_ensures(text_order());
    let q = u.sort_by(text_order());
    u.lemma_multiset_has_no_duplicates();
    assert forall|x: Seq<char>| q.to_multiset().contains(x) implies q.to_multiset().count(x) == 1 by {}
    q.lemma_multiset_has_no_duplicates_conv();
    assert(q.to_set() =~= s) by {
        assert forall|x: Seq<char>| q.to_set().contains(x) <==> s.contains(x) by {
            assert(q.contains(x) <==> q.to_multiset().count(x) > 0);
            assert(u.contains(x) <==> u.to_multiset().count(x) > 0);
            assert(u.to_set().contains(x) <==> u.contains(x));
        }
    }
    assert(is_sorted_listing(q, s));
    lemma_sorted_listing_unique(q, s);
    q.unique_seq_to_set();
}

/// A report shows drift exactly when the observed catalog is not the pinned
/// one: some observed tool is not pinned, or is pinned to another hash, or
/// some pinned tool is not observed. In particular a pinned tool that
/// disappears from the catalog is always drift.
pub proof fn lemma_drift_iff_catalog_differs(tools: Seq<Json>, pins: Map<Seq<char>, Seq<char>>)
    requires
        pins.dom().finite(),
    ensures
        ({
            let es = tool_entries(tools);
            shows_drift(drift_of(tools, pins)) <==> ((exists|i: int|
                0 <= i < es.len() && !(pins.contains_key(#[trigger] es[i].0) && pins[es[i].0] == es[i].1))
                || (exists|n: Seq<char>| #[trigger] pins.contains_key(n) && !entry_names(es).contains(n)))
        }),
{
    let es = tool_entries(tools);
    let d = drift_of(tools, pins);
    lemma_names_with_nonempty(es, pins, Verdict::Added);
    lemma_names_with_nonempty(es, pins, Verdict::Mutated);
    lemma_sorted_len(names_with(es, pins, Verdict::Added));
    lemma_sorted_len(names_with(es, pins, Verdict::Mutated));
    let gone = pins.dom().difference(entry_names(es).to_set());
    lemma_sorted_listing_len(gone);
    let changed = exists|i: int|
        0 <= i < es.len() && !(pins.contains_key(#[trigger] es[i].0) && pins[es[i].0] == es[i].1);
    let missing = exists|n: Seq<char>| #[trigger] pins.contains_key(n) && !entry_names(es).contains(n);
    if changed {
        let i = choose|i: int|
            0 <= i < es.len() && !(pins.contains_key(#[trigger] es[i].0) && pins[es[i].0] == es[i].1);
        if !pins.contains_key(es[i].0) {
            assert(verdict(pins, es[i]) == Verdict::Added);
        } else {
            assert(verdict(pins, es[i]) == Verdict::Mutated);
        }
    }
    if d.added.len() > 0 || d.mutated.len() > 0 {
        if d.added.len() > 0 {
            let i = choose|i: int| 0 <= i < es.len() && verdict(pins, #[trigger] es[i]) == Verdict::Added;
            assert(!pins.contains_key(es[i].0));
        } else {
            let i = choose|i: int| 0 <= i < es.len() && verdict(pins, #[trigger] es[i]) == Verdict::Mutated;
            assert(pins[es[i].0] != es[i].1);
        }
        assert(changed);
    }
    if missing {
        let n = choose|n: Seq<char>| #[trigger] pins.contains_key(n) && !entry_names(es).contains(n);
        assert(gone.contains(n));
        assert(gone.len() > 0);
    }
    if gone.len() > 0 {
        assert(gone != Set::<Seq<char>>::empty());
        let n = gone.choose();
        assert(gone.contains(n));
        assert(pins.contains_key(n) && !entry_names(es).contains(n));
        assert(missing);
    }
}

} // verus!
