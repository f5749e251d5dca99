//! Hashes: SHA-256, the labeled hash of the certified tree, and the
//! conversions between 32-byte arrays and byte strings.
//!
//! The hash functions are those of the `sha2` and `ic_certified_map`
//! crates. They are not proved here: each is known by a name only, which
//! says that the same bytes always hash to the same digest.

use sha2::Digest;
use vstd::prelude::*;
use vstd::slice::slice_to_vec;

verus! {

/// The number of bytes of a hash and of a random seed.
pub const HASH_SIZE: usize = 32;

/// The SHA-256 digest of `data`.
pub uninterp spec fn sha256_of(data: Seq<u8>) -> Seq<u8>;

/// The hash that the certified tree gives to a branch with the label
/// `label` over a subtree whose hash is `content`.
pub uninterp spec fn labeled_digest(label: Seq<u8>, content: Seq<u8>) -> Seq<u8>;

/// What the text `text` stands for as hexadecimal digits, two for each
/// byte; `None` where it is no such text.
pub uninterp spec fn hex_decoded(text: Seq<char>) -> Option<Seq<u8>>;

/// `sha2::Sha256::digest`: the SHA-256 digest of `data`, 32 bytes.
#[verifier::external_body]
pub(crate) fn sha256(data: &[u8]) -> (digest: [u8; 32])
    ensures
        digest@ == sha256_of(data@),
{
    sha2::Sha256::digest(data).into()
}

/// `ic_certified_map::labeled_hash`: the hash of a labeled branch, which
/// is a SHA-256 digest over a fixed prefix, the label and the hash of the
/// subtree.
#[verifier::external_body]
pub(crate) fn labeled_hash(label: &[u8], content: &[u8; 32]) -> (digest: [u8; 32])
    ensures
        digest@ == labeled_digest(label@, content@),
{
    ic_certified_map::labeled_hash(label, content)
}

/// `hex::decode`: the bytes that a text of hexadecimal digits stands for,
/// or `None` where the function reports an error.
#[verifier::external_body]
pub(crate) fn hex_decode(text: &str) -> (bytes: Option<Vec<u8>>)
    ensures
        bytes is Some <==> hex_decoded(text@) is Some,
        bytes is Some ==> hex_decoded(text@) == Some(bytes->0@),
{
    hex::decode(text).ok()
}

/// The 32 bytes of `bytes` as an array, or `None` where `bytes` has another
/// length.
pub fn to_hash(bytes: &Vec<u8>) -> (hash: Option<[u8; 32]>)
    ensures
        hash is Some <==> bytes@.len() == HASH_SIZE,
        hash is Some ==> hash->0@ == bytes@,
{
    if bytes.len() != HASH_SIZE {
        return None;
    }
    let mut hash = [0u8; 32];
    let mut i: usize = 0;
    while i < HASH_SIZE
        invariant
            bytes@.len() == HASH_SIZE,
            i <= HASH_SIZE,
            forall|k: int| 0 <= k < i ==> hash@[k] == bytes@[k],
        decreases HASH_SIZE - i,
    {
        hash[i] = bytes[i];
        i += 1;
    }
    assert(hash@ =~= bytes@);
    Some(hash)
}

/// The bytes of a hash as a byte string.
pub fn hash_bytes(hash: &[u8; 32]) -> (bytes: Vec<u8>)
    ensures
        bytes@ == hash@,
{
    slice_to_vec(hash.as_slice())
}

/// The hash that an empty ledger starts from, given what decoding the
/// configured text gave: the decoded bytes where there are exactly 32 of
/// them, and 32 zero bytes otherwise.
pub open spec fn spec_genesis(decoded: Option<Seq<u8>>) -> Seq<u8> {
    match decoded {
        Some(bytes) if bytes.len() == HASH_SIZE => bytes,
        _ => Seq::new(HASH_SIZE as nat, |i: int| 0u8),
    }
}

/// The hash that an empty ledger starts from, given what decoding the
/// configured text gave.
pub fn genesis_from_decoded(decoded: &Option<Vec<u8>>) -> (genesis: [u8; 32])
    ensures
        genesis@ == spec_genesis(
            match decoded {
                Some(bytes) => Some(bytes@),
                None => None,
            },
        ),
{
    let zero = [0u8; 32];
    assert(zero@ =~= Seq::new(HASH_SIZE as nat, |i: int| 0u8));
    match decoded {
        Some(bytes) => match to_hash(bytes) {
            Some(hash) => hash,
            None => zero,
        },
        None => zero,
    }
}

/// The hash that an empty ledger starts from: what `previous_hash` stands
/// for as hexadecimal text where that is 32 bytes, and 32 zero bytes where
/// no text is given or the text is something else.
pub fn genesis_hash(previous_hash: &Option<String>) -> (genesis: [u8; 32])
    ensures
        genesis@ == spec_genesis(
            match previous_hash {
                Some(text) => hex_decoded(text@),
                None => None,
            },
        ),
{
    match previous_hash {
        Some(text) => {
            let decoded = hex_decode(text.as_str());
            genesis_from_decoded(&decoded)
        },
        None => genesis_from_decoded(&None),
    }
}

} // verus!
