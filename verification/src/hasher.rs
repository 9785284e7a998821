//! The digest that identifies a chunk by its content.

use crate::hex::{hex_encode, is_lower_hex, lemma_hex_encode_injective, lemma_hex_encode_shape, to_hex};
use vstd::prelude::*;

verus! {

/// Number of characters in the text form of a digest.
pub const DIGEST_CHARS: usize = 64;

/// The 32 bytes that `blake3::hash` computes for `input`.
pub uninterp spec fn blake3_digest(input: Seq<u8>) -> Seq<u8>;

/// Calls `blake3::hash` and hands out the bytes of the hash.
///
/// Taken on trust: the hash depends on the input alone. That it is 32
/// bytes long is the type of the result.
#[verifier::external_body]
fn blake3_hash(input: &[u8]) -> (digest: [u8; 32])
    ensures
        digest@ == blake3_digest(input@),
{
    blake3::hash(input).into()
}

/// The text that identifies a chunk: its BLAKE3 digest in lowercase
/// hexadecimal.
pub open spec fn chunk_digest(chunk: Seq<u8>) -> Seq<char> {
    hex_encode(blake3_digest(chunk))
}

/// Two chunks have the same text form of the digest exactly when they
/// have the same digest: writing the digest as text loses nothing of it.
pub proof fn lemma_digest_text_is_faithful(a: Seq<u8>, b: Seq<u8>)
    ensures
        chunk_digest(a) == chunk_digest(b) <==> blake3_digest(a) == blake3_digest(b),
{
    if chunk_digest(a) == chunk_digest(b) {
        lemma_hex_encode_injective(blake3_digest(a), blake3_digest(b));
    }
}

/// Computes the digest of a chunk. Equal chunks have equal digests; a
/// digest is 64 lowercase hexadecimal characters.
pub fn hash_chunk(chunk: &[u8]) -> (digest: String)
    ensures
        digest@ == chunk_digest(chunk@),
        digest@.len() == DIGEST_CHARS,
        forall|i: int| 0 <= i < digest@.len() ==> is_lower_hex(#[trigger] digest@[i]),
{
    let bytes: [u8; 32] = blake3_hash(chunk);
    proof {
        lemma_hex_encode_shape(bytes@);
    }
    to_hex(bytes.as_slice())
}

} // verus!
