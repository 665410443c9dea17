//! The catalog interposer: a thin layer between an MCP host and an MCP server
//! that watches the tool catalog the server advertises.
//!
//! On each `tools/list` result it observes, it computes catalog drift against
//! a host-supplied [`PinStore`] and applies a [`DriftPolicy`]. The transport is
//! left to the host, which hands [`Interposer::observe_bytes`] (or
//! [`Interposer::observe`]) the results it receives.
//!
//! The `*_bytes` methods validate the raw wire bytes with the fail-closed
//! RFC 8785 parser, so duplicate member names and every other JCS-domain
//! violation are rejected at the wire boundary.
//!
//! `tools/list` is paginated by `nextCursor`, and drift must be judged over
//! the complete catalog. [`CatalogAccumulator`] makes that explicit: the host
//! feeds it every page, then calls [`CatalogAccumulator::finish`].

use vstd::prelude::*;
use crate::IntegrityError;
use crate::canonical::{is_canon_fail, JcsValue, Json, model, model_items, clone_value, lemma_model_items, parse};
use crate::parser::parse_spec;
use crate::drift::{DriftReport, report_view, shows_drift, drift_of, verify, repin, verify_outcome, repin_outcome, names_consistent, tool_entries, first_bad, lemma_repinned_catalog_has_no_drift};
use crate::manifest::{ToolCatalog, catalog_model, tools_list_array, string_member, tools_array, member_str};
use crate::pin_store::opt_string_view;
use crate::pin_store::PinStore;

verus! {

/// How the interposer reacts when an observation drifts from the pinned
/// baseline.
#[derive(Debug, Clone, Copy, PartialEq, Eq, Structural)]
pub enum DriftPolicy {
    /// Report drift but do not treat it as an error (the host decides).
    Report,
    /// Treat any unapproved drift as a hard failure (fail closed).
    FailClosed,
}

impl Default for DriftPolicy {
    fn default() -> (p: Self)
        ensures
            p == DriftPolicy::FailClosed,
    {
        DriftPolicy::FailClosed
    }
}

/// The outcome of observing a catalog.
#[derive(Debug, PartialEq, Eq)]
pub enum Observation {
    /// The observed catalog matched the pinned baseline.
    Clean(DriftReport),
    /// The observed catalog drifted; under [`DriftPolicy::Report`] the host is
    /// handed the report to resolve.
    Drift(DriftReport),
}

/// Errors the interposer can surface.
#[derive(Debug)]
pub enum InterposerError {
    /// The `tools/list` payload was not a recognizable catalog.
    MalformedCatalog,
    /// The catalog could not be verified (e.g. a descriptor lacked a `name`).
    Integrity(IntegrityError),
    /// Under [`DriftPolicy::FailClosed`], the observed catalog drifted from the
    /// pinned baseline.
    Drift(DriftReport),
}

/// What applying `policy` to `report` yields: a clean observation without
/// drift; with drift, an observation under [`DriftPolicy::Report`] and an
/// error under [`DriftPolicy::FailClosed`].
pub open spec fn policy_outcome(
    policy: DriftPolicy,
    report: DriftReport,
    r: Result<Observation, InterposerError>,
) -> bool {
    if !shows_drift(report_view(report)) {
        r == Ok::<Observation, InterposerError>(Observation::Clean(report))
    } else if policy == DriftPolicy::Report {
        r == Ok::<Observation, InterposerError>(Observation::Drift(report))
    } else {
        r == Err::<Observation, InterposerError>(InterposerError::Drift(report))
    }
}

/// What observing the `tools/list` result `v` against `pins` under `policy`
/// returns.
pub open spec fn observe_outcome(
    v: Json,
    pins: Map<Seq<char>, Seq<char>>,
    policy: DriftPolicy,
    r: Result<Observation, InterposerError>,
) -> bool {
    match tools_list_array(v) {
        None => r matches Err(InterposerError::MalformedCatalog),
        Some(tools) => catalog_outcome(tools, pins, policy, r),
    }
}

/// What verifying the descriptors `tools` against `pins` under `policy`
/// returns.
pub open spec fn catalog_outcome(
    tools: Seq<Json>,
    pins: Map<Seq<char>, Seq<char>>,
    policy: DriftPolicy,
    r: Result<Observation, InterposerError>,
) -> bool {
    ||| exists|e: IntegrityError|
        verify_outcome(tools, pins, Err(e)) && r == Err::<Observation, InterposerError>(
            InterposerError::Integrity(e),
        )
    ||| exists|rep: DriftReport| verify_outcome(tools, pins, Ok(rep)) && policy_outcome(policy, rep, r)
}

/// Raw bytes that fail the RFC 8785 parser are rejected as an integrity
/// error.
pub open spec fn wire_rejected<T>(r: Result<T, InterposerError>) -> bool {
    r matches Err(InterposerError::Integrity(e)) && is_canon_fail(e)
}

/// Watches the tool catalog a server advertises, holding the host's pin store.
pub struct Interposer<P: PinStore> {
    pins: P,
    policy: DriftPolicy,
}

impl<P: PinStore> Interposer<P> {
    /// The pin store.
    pub closed spec fn pins(&self) -> P {
        self.pins
    }

    /// The drift policy.
    pub closed spec fn policy(&self) -> DriftPolicy {
        self.policy
    }

    /// Build an interposer over a pin store with the given policy.
    pub fn new(pins: P, policy: DriftPolicy) -> (s: Self)
        ensures
            s.pins() == pins,
            s.policy() == policy,
    {
        Interposer { pins, policy }
    }

    /// Observe a `tools/list` result: either the full result object
    /// (`{"tools": [...]}`) or a bare descriptor array.
    ///
    /// Under [`DriftPolicy::FailClosed`], drift returns
    /// [`InterposerError::Drift`]; under [`DriftPolicy::Report`], drift returns
    /// `Ok(Observation::Drift(..))` for the host to resolve.
    pub fn observe(&self, tools_list_result: &JcsValue) -> (r: Result<Observation, InterposerError>)
        ensures
            observe_outcome(model(*tools_list_result), self.pins().pin_view(), self.policy(), r),
    {
        let catalog = match ToolCatalog::from_tools_list(tools_list_result) {
            Some(c) => c,
            None => {
                return Err(InterposerError::MalformedCatalog);
            },
        };
        self.check(&catalog)
    }

    /// Verify an assembled catalog and apply the policy.
    fn check(&self, catalog: &ToolCatalog) -> (r: Result<Observation, InterposerError>)
        ensures
            catalog_outcome(catalog_model(catalog.tools@), self.pins().pin_view(), self.policy(), r),
    {
        let result = verify(catalog, &self.pins);
        match result {
            Ok(report) => {
                let ghost rep = report;
                let r = self.apply_policy(report);
                assert(verify_outcome(catalog_model(catalog.tools@), self.pins.pin_view(), Ok(rep)));
                r
            },
            Err(e) => {
                assert(verify_outcome(catalog_model(catalog.tools@), self.pins.pin_view(), Err(e)));
                Err(InterposerError::Integrity(e))
            },
        }
    }

    /// Observe a `tools/list` result from its raw wire bytes, validated with
    /// the full RFC 8785 parser first (duplicate member names and every other
    /// JCS-domain violation surface as [`InterposerError::Integrity`]).
    pub fn observe_bytes(&self, tools_list_result: &[u8]) -> (r: Result<Observation, InterposerError>)
        ensures
            match parse_spec(tools_list_result@) {
                None => wire_rejected(r),
                Some(v) => observe_outcome(v, self.pins().pin_view(), self.policy(), r),
            },
    {
        let v = match Self::parse_wire(tools_list_result) {
            Ok(v) => v,
            Err(e) => {
                return Err(e);
            },
        };
        self.observe(&v)
    }

    /// Accept a `tools/list` result (from raw wire bytes) as the new pinned
    /// baseline, validating the bytes with the full RFC 8785 parser first.
    pub fn repin_bytes(&mut self, tools_list_result: &[u8]) -> (r: Result<(), InterposerError>)
        ensures
            final(self).policy() == old(self).policy(),
            match parse_spec(tools_list_result@) {
                None => wire_rejected(r) && final(self).pins() == old(self).pins(),
                Some(v) => match tools_list_array(v) {
                    None => r matches Err(InterposerError::MalformedCatalog) && final(self).pins()
                        == old(self).pins(),
                    Some(tools) => repinned(tools, *old(self), *final(self), r),
                },
            },
    {
        let v = match Self::parse_wire(tools_list_result) {
            Ok(v) => v,
            Err(e) => {
                return Err(e);
            },
        };
        let catalog = match ToolCatalog::from_tools_list(&v) {
            Some(c) => c,
            None => {
                return Err(InterposerError::MalformedCatalog);
            },
        };
        self.repin_complete(&catalog)
    }

    /// Accept an already-assembled (e.g. paginated) catalog as the new pinned
    /// baseline, after the host approved the reported drift.
    pub fn repin_complete(&mut self, catalog: &ToolCatalog) -> (r: Result<(), InterposerError>)
        ensures
            final(self).policy() == old(self).policy(),
            repinned(catalog_model(catalog.tools@), *old(self), *final(self), r),
    {
        let ghost before = *self;
        let result = repin(catalog, &mut self.pins);
        proof {
            assert(before.pins() == before.pins);
            assert(self.pins() == self.pins);
        }
        match result {
            Ok(_) => Ok(()),
            Err(e) => {
                let r = Err(InterposerError::Integrity(e));
                assert(r == Err::<(), InterposerError>(InterposerError::Integrity(e)));
                r
            },
        }
    }

    /// Validate raw wire bytes with the full RFC 8785 parser.
    fn parse_wire(bytes: &[u8]) -> (r: Result<JcsValue, InterposerError>)
        ensures
            match r {
                Ok(v) => parse_spec(bytes@) == Some(model(v)),
                Err(_) => parse_spec(bytes@) is None && wire_rejected(r),
            },
    {
        match parse(bytes) {
            Ok(v) => Ok(v),
            Err(e) => Err(InterposerError::Integrity(e)),
        }
    }

    /// Apply the configured [`DriftPolicy`] to a [`DriftReport`].
    fn apply_policy(&self, report: DriftReport) -> (r: Result<Observation, InterposerError>)
        ensures
            policy_outcome(self.policy(), report, r),
    {
        if !report.has_drift() {
            return Ok(Observation::Clean(report));
        }
        match self.policy {
            DriftPolicy::Report => Ok(Observation::Drift(report)),
            DriftPolicy::FailClosed => Err(InterposerError::Drift(report)),
        }
    }

    /// Borrow the underlying pin store (e.g. to re-pin after approving drift).
    pub fn pins_mut(&mut self) -> (r: &mut P)
        ensures
            *r == old(self).pins(),
            final(self).pins() == *final(r),
            final(self).policy() == old(self).policy(),
    {
        &mut self.pins
    }

    /// Consume the interposer and return its pin store.
    pub fn into_pins(self) -> (r: P)
        ensures
            r == self.pins(),
    {
        self.pins
    }
}

/// Re-pinning `tools` took the interposer from `before` to `after`, returning
/// `r` (integrity errors wrapped in [`InterposerError::Integrity`]).
pub open spec fn repinned<P: PinStore>(
    tools: Seq<Json>,
    before: Interposer<P>,
    after: Interposer<P>,
    r: Result<(), InterposerError>,
) -> bool {
    ||| r is Ok && repin_outcome(
        tools,
        before.pins().pin_view(),
        before.pins().catalog_hash_view(),
        after.pins().pin_view(),
        after.pins().catalog_hash_view(),
        Ok(()),
    )
    ||| exists|e: IntegrityError|
        r == Err::<(), InterposerError>(InterposerError::Integrity(e)) && repin_outcome(
            tools,
            before.pins().pin_view(),
            before.pins().catalog_hash_view(),
            after.pins().pin_view(),
            after.pins().catalog_hash_view(),
            Err(e),
        )
}

pub open spec fn cursor_key() -> Seq<char> {
    seq!['n', 'e', 'x', 't', 'C', 'u', 'r', 's', 'o', 'r']
}

fn cursor_chars() -> (r: Vec<char>)
    ensures
        r@ == cursor_key(),
{
    let mut r: Vec<char> = Vec::new();
    r.push('n');
    r.push('e');
    r.push('x');
    r.push('t');
    r.push('C');
    r.push('u');
    r.push('r');
    r.push('s');
    r.push('o');
    r.push('r');
    assert(r@ =~= cursor_key());
    r
}

/// What ingesting the page `v` does to the descriptors assembled so far
/// (`ds`, then `ds2`) and returns: its descriptors are appended and its
/// `nextCursor` string (if any) is returned; a page that is not a catalog is
/// refused and changes nothing.
pub open spec fn page_outcome(
    v: Json,
    ds: Seq<Json>,
    ds2: Seq<Json>,
    r: Result<Option<String>, InterposerError>,
) -> bool {
    match tools_list_array(v) {
        None => {
            &&& r matches Err(InterposerError::MalformedCatalog)
            &&& ds2 == ds
        },
        Some(xs) => {
            &&& ds2 == ds + xs
            &&& r matches Ok(c) && opt_string_view(c) == string_member(v, cursor_key())
        },
    }
}

/// Explicit pagination state for assembling a complete `tools/list` catalog
/// across `nextCursor`-paginated pages before judging drift.
///
/// Drift is judged over the union of every page, never over a single page. The
/// host drives the fetch loop: for each page it calls
/// [`observe_page_bytes`](Self::observe_page_bytes), which appends the page's
/// descriptors and returns its `nextCursor`; once the cursor is exhausted it
/// calls [`finish`](Self::finish).
pub struct CatalogAccumulator<'a, P: PinStore> {
    interposer: &'a Interposer<P>,
    descriptors: Vec<JcsValue>,
}

impl<'a, P: PinStore> CatalogAccumulator<'a, P> {
    /// The interposer whose pins and policy judge the catalog.
    pub closed spec fn interposer(&self) -> Interposer<P> {
        *self.interposer
    }

    /// The descriptors assembled so far, in page order.
    pub closed spec fn descriptors(&self) -> Seq<Json> {
        model_items(self.descriptors@)
    }

    /// Start accumulating pages against `interposer`'s pins and policy.
    pub fn new(interposer: &'a Interposer<P>) -> (s: Self)
        ensures
            s.interposer() == *interposer,
            s.descriptors() == Seq::<Json>::empty(),
    {
        CatalogAccumulator { interposer, descriptors: Vec::new() }
    }

    /// Ingest one `tools/list` page from raw wire bytes (validated by the full
    /// RFC 8785 parser), append its descriptors, and return its `nextCursor`.
    pub fn observe_page_bytes(&mut self, page: &[u8]) -> (r: Result<Option<String>, InterposerError>)
        ensures
            final(self).interposer() == old(self).interposer(),
            match parse_spec(page@) {
                None => wire_rejected(r) && final(self).descriptors() == old(self).descriptors(),
                Some(v) => page_outcome(v, old(self).descriptors(), final(self).descriptors(), r),
            },
    {
        let v = match Interposer::<P>::parse_wire(page) {
            Ok(v) => v,
            Err(e) => {
                return Err(e);
            },
        };
        self.observe_page(&v)
    }

    /// Ingest one already-parsed `tools/list` page (the full page object
    /// `{"tools": [...], "nextCursor": ..}` or a bare descriptor array, which
    /// carries no cursor), append its descriptors, and return its
    /// `nextCursor`.
    pub fn observe_page(&mut self, page: &JcsValue) -> (r: Result<Option<String>, InterposerError>)
        ensures
            final(self).interposer() == old(self).interposer(),
            page_outcome(model(*page), old(self).descriptors(), final(self).descriptors(), r),
    {
        let tools = match tools_array(page) {
            Some(xs) => xs,
            None => {
                return Err(InterposerError::MalformedCatalog);
            },
        };
        let ghost start = self.descriptors@;
        proof {
            lemma_model_items(tools@);
            lemma_model_items(start);
        }
        let mut k: usize = 0;
        while k < tools.len()
            invariant
                k <= tools@.len(),
                self.interposer == old(self).interposer,
                self.descriptors@.len() == start.len() + k,
                forall|q: int| 0 <= q < start.len() ==> model(#[trigger] self.descriptors@[q]) == model(start[q]),
                forall|q: int| 0 <= q < k ==> model(#[trigger] self.descriptors@[start.len() + q]) == model(tools@[q]),
            decreases tools@.len() - k,
        {
            let c = clone_value(&tools[k]);
            self.descriptors.push(c);
            k = k + 1;
        }
        proof {
            lemma_model_items(self.descriptors@);
            lemma_model_items(start);
            lemma_model_items(tools@);
            let all = model_items(self.descriptors@);
            let want = model_items(start) + model_items(tools@);
            assert forall|q: int| 0 <= q < all.len() implies all[q] == want[q] by {
                if q < start.len() {
                    assert(model(self.descriptors@[q]) == model(start[q]));
                } else {
                    assert(model(self.descriptors@[start.len() + (q - start.len())]) == model(tools@[q - start.len()]));
                }
            }
            assert(all =~= want);
        }
        let key = cursor_chars();
        let cursor = match member_str(page, &key) {
            Some(c) => Some(c.to_owned()),
            None => None,
        };
        Ok(cursor)
    }

    /// The complete catalog assembled so far (a copy): capture it before
    /// [`finish`](Self::finish) to re-pin via [`Interposer::repin_complete`]
    /// after approving drift.
    pub fn catalog(&self) -> (c: ToolCatalog)
        ensures
            catalog_model(c.tools@) == self.descriptors(),
    {
        let mut copy: Vec<JcsValue> = Vec::new();
        let mut k: usize = 0;
        proof {
            lemma_model_items(self.descriptors@);
        }
        while k < self.descriptors.len()
            invariant
                k <= self.descriptors@.len(),
                copy@.len() == k,
                forall|q: int| 0 <= q < k ==> model(#[trigger] copy@[q]) == model(self.descriptors@[q]),
            decreases self.descriptors@.len() - k,
        {
            copy.push(clone_value(&self.descriptors[k]));
            k = k + 1;
        }
        proof {
            lemma_model_items(copy@);
            assert(model_items(copy@) =~= model_items(self.descriptors@));
        }
        ToolCatalog::from_values(copy)
    }

    /// Verify the complete assembled catalog against the interposer's pins and
    /// apply its policy.
    pub fn finish(self) -> (r: Result<Observation, InterposerError>)
        ensures
            catalog_outcome(
                self.descriptors(),
                self.interposer().pins().pin_view(),
                self.interposer().policy(),
                r,
            ),
    {
        let catalog = ToolCatalog::from_values(self.descriptors);
        self.interposer.check(&catalog)
    }
}

/// Under [`DriftPolicy::FailClosed`] drift is never handed back as an
/// observation, and under [`DriftPolicy::Report`] it is never an error: an
/// observation is clean exactly when its report shows no drift.
pub proof fn lemma_policy_decides_drift(policy: DriftPolicy, report: DriftReport, r: Result<Observation, InterposerError>)
    requires
        policy_outcome(policy, report, r),
    ensures
        r matches Ok(Observation::Clean(_)) <==> !shows_drift(report_view(report)),
        policy == DriftPolicy::FailClosed ==> !(r matches Ok(Observation::Drift(_))),
        policy == DriftPolicy::Report ==> !(r matches Err(InterposerError::Drift(_))),
{
}

/// After a successful re-pin of a catalog, observing that same catalog is
/// clean under either policy, and its report carries the catalog hash the
/// re-pin recorded (when tools that share a name share a descriptor hash).
pub proof fn lemma_observe_after_repin_is_clean(
    tools: Seq<Json>,
    pins: Map<Seq<char>, Seq<char>>,
    hash: Option<Seq<char>>,
    pins2: Map<Seq<char>, Seq<char>>,
    hash2: Option<Seq<char>>,
    policy: DriftPolicy,
    r: Result<Observation, InterposerError>,
)
    requires
        repin_outcome(tools, pins, hash, pins2, hash2, Ok(())),
        names_consistent(tool_entries(tools)),
        catalog_outcome(tools, pins2, policy, r),
    ensures
        r matches Ok(Observation::Clean(rep)) && Some(report_view(rep).observed_catalog_hash) == hash2,
{
    lemma_repinned_catalog_has_no_drift(tools);
    if exists|e: IntegrityError|
        verify_outcome(tools, pins2, Err(e)) && r == Err::<Observation, InterposerError>(
            InterposerError::Integrity(e),
        ) {
        let e = choose|e: IntegrityError|
            verify_outcome(tools, pins2, Err(e)) && r == Err::<Observation, InterposerError>(
                InterposerError::Integrity(e),
            );
        let i = choose|i: int| first_bad(tools, i) && crate::drift::error_for(#[trigger] tools[i], e);
        assert(crate::drift::tool_ok(tools[i]));
    }
    let rep = choose|rep: DriftReport| verify_outcome(tools, pins2, Ok(rep)) && policy_outcome(policy, rep, r);
    assert(report_view(rep) == drift_of(tools, pins2));
}

} // verus!
