//! Canonicalization and hashing of tool descriptors and catalogs.
//!
//! A descriptor hash is `"sha256:"` followed by the unpadded URL-safe base64 of
//! the SHA-256 digest of the descriptor's canonical bytes. The catalog hash is
//! computed over the *sorted* descriptor hashes, so it does not depend on the
//! order in which a server lists its tools.

use vstd::prelude::*;
use vstd::utf8::*;
use crate::IntegrityError;
use crate::canonical::{is_canon_fail, JcsValue, Json, model, canonical_bytes, canonicalize_value};
use crate::order::{text_order, strings_view, sort_strings, lemma_text_leq_total};
use crate::writer::lemma_member_order_irrelevant;
use crate::text::{chars_of, string_from_chars};

verus! {

/// The SHA-256 digest of `data` (FIPS 180-4).
pub uninterp spec fn sha256_digest(data: Seq<u8>) -> Seq<u8>;

/// The SHA-256 digest of `data`.
///
/// Trusted: wraps `sha2::Sha256::digest` (the `Digest` trait of `sha2` 0.10),
/// whose output is the 32-byte digest; the contract names that digest
/// [`sha256_digest`] of the input bytes and states its length.
#[verifier::external_body]
fn sha256(data: &[u8]) -> (r: Vec<u8>)
    ensures
        r@ == sha256_digest(data@),
        r@.len() == 32,
{
    <sha2::Sha256 as sha2::Digest>::digest(data).to_vec()
}

/// The character of the URL-safe base64 alphabet (RFC 4648 §5) for `v`.
pub open spec fn b64_char(v: int) -> char {
    if v < 26 {
        (65 + v) as char
    } else if v < 52 {
        (97 + v - 26) as char
    } else if v < 62 {
        (48 + v - 52) as char
    } else if v == 62 {
        '-'
    } else {
        '_'
    }
}

/// Unpadded URL-safe base64 of `b` (RFC 4648 §5, without `=` padding): every
/// three bytes become four characters; a final one or two bytes become two or
/// three characters.
pub open spec fn base64url(b: Seq<u8>) -> Seq<char>
    decreases b.len(),
{
    let x: int = if b.len() > 0 { b[0] as int } else { 0 };
    let y: int = if b.len() > 1 { b[1] as int } else { 0 };
    let z: int = if b.len() > 2 { b[2] as int } else { 0 };
    if b.len() == 0 {
        Seq::empty()
    } else if b.len() == 1 {
        seq![b64_char(x / 4), b64_char((x % 4) * 16)]
    } else if b.len() == 2 {
        seq![b64_char(x / 4), b64_char((x % 4) * 16 + y / 16), b64_char((y % 16) * 4)]
    } else {
        seq![
            b64_char(x / 4),
            b64_char((x % 4) * 16 + y / 16),
            b64_char((y % 16) * 4 + z / 64),
            b64_char(z % 64),
        ] + base64url(b.subrange(3, b.len() as int))
    }
}

/// Unpadded URL-safe base64 of `bytes`.
///
/// Trusted: wraps `base64::Engine::encode` with the
/// `base64::engine::general_purpose::URL_SAFE_NO_PAD` engine (base64 0.22),
/// which encodes with the RFC 4648 URL-safe alphabet and no padding, exactly as
/// [`base64url`] states. The engine panics only when the encoded length
/// overflows `usize`, which the `requires` rules out.
#[verifier::external_body]
fn base64url_nopad(bytes: &[u8]) -> (r: String)
    requires
        bytes@.len() < 0x4000_0000,
    ensures
        r@ == base64url(bytes@),
{
    base64::Engine::encode(&base64::engine::general_purpose::URL_SAFE_NO_PAD, bytes)
}

pub open spec fn sha256_prefix() -> Seq<char> {
    seq!['s', 'h', 'a', '2', '5', '6', ':']
}

/// The MTCI hash identifier of a digest: `"sha256:<base64url-nopad>"`.
pub open spec fn hash_text(digest: Seq<u8>) -> Seq<char> {
    sha256_prefix() + base64url(digest)
}

/// The MTCI hash identifier of `bytes`.
pub open spec fn hash_id_of(bytes: Seq<u8>) -> Seq<char> {
    hash_text(sha256_digest(bytes))
}

/// Length of unpadded base64.
pub proof fn lemma_base64url_len(b: Seq<u8>)
    ensures
        base64url(b).len() == 4 * (b.len() / 3) + (if b.len() % 3 == 0 {
            0int
        } else {
            (b.len() % 3 + 1) as int
        }),
    decreases b.len(),
{
    if b.len() >= 3 {
        lemma_base64url_len(b.subrange(3, b.len() as int));
    }
}

/// Render the SHA-256 digest of `bytes` as the MTCI hash identifier
/// `"sha256:<base64url-nopad>"`: always 7 + 43 characters.
pub fn hash_id(bytes: &[u8]) -> (r: String)
    ensures
        r@ == hash_id_of(bytes@),
        r@.len() == 50,
{
    let digest = sha256(bytes);
    let encoded = base64url_nopad(digest.as_slice());
    let mut out: Vec<char> = Vec::new();
    out.push('s');
    out.push('h');
    out.push('a');
    out.push('2');
    out.push('5');
    out.push('6');
    out.push(':');
    let enc = chars_of(encoded.as_str());
    crate::number::push_range(enc.as_slice(), 0, enc.len(), &mut out);
    proof {
        assert(enc@.subrange(0, enc@.len() as int) =~= enc@);
        assert(out@ =~= hash_id_of(bytes@));
        lemma_base64url_len(digest@);
    }
    string_from_chars(out.as_slice())
}

/// The descriptor hash of a value: the hash identifier of its canonical
/// bytes, or `None` when the value is outside the JCS domain.
pub open spec fn descriptor_hash_of(v: Json) -> Option<Seq<char>> {
    match canonical_bytes(v) {
        Some(b) => Some(hash_id_of(b)),
        None => None,
    }
}

/// Reduce a descriptor value to its RFC 8785 canonical bytes (fail closed).
pub fn canonicalize(value: &JcsValue) -> (r: Result<Vec<u8>, IntegrityError>)
    ensures
        match r {
            Ok(b) => canonical_bytes(model(*value)) == Some(b@),
            Err(e) => canonical_bytes(model(*value)) is None && is_canon_fail(e),
        },
{
    canonicalize_value(value)
}

/// The descriptor hash of a single descriptor value.
pub fn descriptor_hash(value: &JcsValue) -> (r: Result<String, IntegrityError>)
    ensures
        match r {
            Ok(h) => descriptor_hash_of(model(*value)) == Some(h@),
            Err(e) => descriptor_hash_of(model(*value)) is None && is_canon_fail(e),
        },
{
    match canonicalize(value) {
        Ok(bytes) => Ok(hash_id(bytes.as_slice())),
        Err(e) => Err(e),
    }
}

/// The bytes hashed for a catalog: each descriptor hash (in the given order)
/// as UTF-8, followed by a NUL separator.
pub open spec fn catalog_preimage(hashes: Seq<Seq<char>>) -> Seq<u8>
    decreases hashes.len(),
{
    if hashes.len() == 0 {
        Seq::empty()
    } else {
        catalog_preimage(hashes.drop_last()) + encode_utf8(hashes.last()) + seq![0u8]
    }
}

/// The catalog hash of a list of descriptor hashes: the hash identifier of the
/// preimage of the hashes sorted as strings.
pub open spec fn catalog_hash_of(hashes: Seq<Seq<char>>) -> Seq<char> {
    hash_id_of(catalog_preimage(hashes.sort_by(text_order())))
}

/// The catalog hash over a set of descriptor hashes.
///
/// The hashes are sorted ascending as byte strings and each is followed by a
/// NUL separator before hashing, so the result does not depend on catalog
/// order and is unambiguous across hash boundaries.
pub fn catalog_hash(descriptor_hashes: &Vec<String>) -> (r: String)
    ensures
        r@ == catalog_hash_of(strings_view(descriptor_hashes@)),
        r@.len() == 50,
{
    let sorted = sort_strings(descriptor_hashes);
    let ghost sv = strings_view(sorted@);
    let mut preimage: Vec<u8> = Vec::new();
    let mut i: usize = 0;
    while i < sorted.len()
        invariant
            i <= sorted@.len(),
            sv == strings_view(sorted@),
            preimage@ == catalog_preimage(sv.take(i as int)),
        decreases sorted@.len() - i,
    {
        let bytes = sorted[i].as_str().as_bytes();
        let mut k: usize = 0;
        let ghost before = preimage@;
        while k < bytes.len()
            invariant
                k <= bytes@.len(),
                preimage@ == before + bytes@.take(k as int),
            decreases bytes@.len() - k,
        {
            preimage.push(bytes[k]);
            assert(bytes@.take(k as int + 1) =~= bytes@.take(k as int).push(bytes@[k as int]));
            k = k + 1;
        }
        preimage.push(0u8);
        proof {
            assert(bytes@.take(bytes@.len() as int) =~= bytes@);
            assert(sv.take(i as int + 1).drop_last() =~= sv.take(i as int));
            assert(sv[i as int] == sorted@[i as int]@);
            assert(preimage@ =~= catalog_preimage(sv.take(i as int + 1)));
        }
        i = i + 1;
    }
    proof {
        assert(sv.take(sv.len() as int) =~= sv);
    }
    hash_id(preimage.as_slice())
}

/// The catalog hash depends only on which descriptor hashes are listed, each
/// with its multiplicity, and not on the order in which they are listed.
pub proof fn lemma_catalog_hash_order_independent(a: Seq<Seq<char>>, b: Seq<Seq<char>>)
    requires
        a.to_multiset() == b.to_multiset(),
    ensures
        catalog_hash_of(a) == catalog_hash_of(b),
{
    lemma_text_leq_total();
    a.lemma_sort_by_ensures(text_order());
    b.lemma_sort_by_ensures(text_order());
    vstd::seq_lib::lemma_sorted_unique(a.sort_by(text_order()), b.sort_by(text_order()), text_order());
}

/// Two descriptors that list the same members in different orders have the
/// same descriptor hash (or both fail).
pub proof fn lemma_descriptor_hash_member_order(ms1: Seq<(Seq<char>, Json)>, ms2: Seq<(Seq<char>, Json)>)
    requires
        ms1.to_multiset() == ms2.to_multiset(),
    ensures
        descriptor_hash_of(Json::Object(ms1)) == descriptor_hash_of(Json::Object(ms2)),
{
    lemma_member_order_irrelevant(ms1, ms2, 0);
}

/// The catalog preimage lists each hash in turn as its UTF-8 bytes followed by
/// a single NUL byte, whatever the hash's length: the preimage of one hash is
/// its bytes and a NUL, and the preimage of a concatenation is the
/// concatenation of the preimages.
pub proof fn lemma_catalog_preimage_nul_separated(a: Seq<Seq<char>>, b: Seq<Seq<char>>, h: Seq<char>)
    ensures
        catalog_preimage(seq![h]) == encode_utf8(h) + seq![0u8],
        catalog_preimage(a + b) == catalog_preimage(a) + catalog_preimage(b),
    decreases b.len(),
{
    assert(seq![h].drop_last() =~= Seq::<Seq<char>>::empty());
    assert(catalog_preimage(Seq::<Seq<char>>::empty()) =~= Seq::<u8>::empty());
    if b.len() == 0 {
        assert(a + b =~= a);
        assert(catalog_preimage(a) + catalog_preimage(b) =~= catalog_preimage(a));
    } else {
        lemma_catalog_preimage_nul_separated(a, b.drop_last(), h);
        assert((a + b).drop_last() =~= a + b.drop_last());
        assert((a + b).last() == b.last());
        assert(catalog_preimage(a + b) =~= catalog_preimage(a) + catalog_preimage(b));
    }
}

/// The catalog hash of a single descriptor hash is the hash identifier of that
/// hash's UTF-8 bytes followed by a NUL byte.
pub proof fn lemma_catalog_hash_of_one(h: Seq<char>)
    ensures
        catalog_hash_of(seq![h]) == hash_id_of(encode_utf8(h) + seq![0u8]),
{
    broadcast use vstd::seq_lib::group_to_multiset_ensures;
    lemma_text_leq_total();
    let s = seq![h];
    s.lemma_sort_by_ensures(text_order());
    let t = s.sort_by(text_order());
    vstd::seq_lib::to_multiset_len(s);
    vstd::seq_lib::to_multiset_len(t);
    assert(t.len() == 1);
    assert(t.to_multiset().contains(t[0]));
    assert(s.to_multiset().contains(t[0]));
    assert(s.contains(t[0]));
    assert(t =~= s);
    lemma_catalog_preimage_nul_separated(Seq::empty(), Seq::empty(), h);
}

} // verus!
