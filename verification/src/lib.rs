//! MCP Tool Catalog Integrity: pin the tool catalog an MCP server advertises
//! and report drift from it.
//!
//! The library protects the integrity of MCP tool catalog descriptors only; it
//! defines no message signing, authorization, replay protection, host UX, tool
//! safety classification or invocation policy. It performs no I/O: a host
//! supplies persistence by implementing [`pin_store::PinStore`] (or by reading
//! and writing the document of a [`file_pin_store::FilePinStore`]).
//!
//! Pipeline:
//! 1. [`canonical`] — the fail-closed RFC 8785 (JCS) parser and canonical
//!    serializer ([`parser`], [`writer`], [`number`], [`order`], [`text`]).
//! 2. [`manifest`] — the tool descriptor / catalog data model.
//! 3. [`descriptor_hash`] — hash a descriptor's canonical bytes; hash a catalog.
//! 4. [`pin_store`] — the host-side record of accepted descriptor hashes (TOFU).
//! 5. [`drift`] — compare an observed catalog against the pins and report drift.
//! 6. [`interposer`] — observe `tools/list` results under a drift policy.

use vstd::prelude::*;

pub mod canonical;
pub mod text;
pub mod number;
pub mod parser;
pub mod order;
pub mod writer;
pub mod descriptor_hash;
pub mod manifest;
pub mod pin_store;
pub mod drift;
pub mod interposer;
pub mod file_pin_store;
pub mod roundtrip;

verus! {

/// The crate's fail-closed error taxonomy.
#[derive(Debug, PartialEq, Eq, Clone)]
pub enum IntegrityError {
    /// A descriptor (or sub-value) could not be reduced to its canonical form.
    Canonicalization(String),
    /// A tool descriptor lacked a string `name`.
    MissingName,
}

} // verus!

pub use descriptor_hash::{catalog_hash, descriptor_hash, hash_id};
pub use manifest::{ToolCatalog, ToolDescriptor};
pub use pin_store::{InMemoryPinStore, PinStore};
pub use drift::{repin, verify, DriftReport};
pub use interposer::{CatalogAccumulator, DriftPolicy, Interposer, InterposerError, Observation};
pub use file_pin_store::FilePinStore;
