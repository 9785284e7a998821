//! From the bytes of a file to its ordered chunk digests.

use crate::chunker::{
    chunk_spans, chunking, lemma_span_within, span_bytes, tiles, ChunkParams, ChunkSpan,
};
use crate::hasher::{chunk_digest, hash_chunk, DIGEST_CHARS};
use crate::hex::is_lower_hex;
use vstd::prelude::*;
use vstd::slice::*;

verus! {

/// The digests of the chunks of `data`, in the order of the bytes.
pub open spec fn file_digests(data: Seq<u8>, params: ChunkParams) -> Seq<Seq<char>> {
    chunking(data, params).map_values(|span: ChunkSpan| chunk_digest(span_bytes(data, span)))
}

/// Cuts the contents of a file into chunks and computes the digest of
/// each, in the order of the bytes.
///
/// The result is a function of the contents and the sizes. An empty file
/// has no digest, and a file of at most the minimum chunk size has one.
pub fn chunk_and_hash_file(data: &[u8], params: &ChunkParams) -> (digests: Vec<String>)
    ensures
        digests.deep_view() == file_digests(data@, *params),
        data@.len() == 0 ==> digests@.len() == 0,
        0 < data@.len() <= params.min() ==> digests.deep_view() == seq![chunk_digest(data@)],
        forall|k: int|
            0 <= k < digests@.len() ==> {
                &&& (#[trigger] digests@[k])@.len() == DIGEST_CHARS
                &&& forall|i: int| 0 <= i < digests@[k]@.len() ==> is_lower_hex(digests@[k]@[i])
            },
{
    let spans: Vec<ChunkSpan> = chunk_spans(data, params);
    let total: usize = data.len();
    let mut digests: Vec<String> = Vec::new();
    let mut k: usize = 0;
    while k < spans.len()
        invariant
            k <= spans@.len(),
            total == data@.len(),
            spans@ == chunking(data@, *params),
            tiles(spans@, data@.len() as int),
            digests@.len() == k,
            forall|j: int|
                0 <= j < k ==> (#[trigger] digests@[j])@ == chunk_digest(
                    span_bytes(data@, spans@[j]),
                ),
            forall|j: int|
                0 <= j < k ==> {
                    &&& (#[trigger] digests@[j])@.len() == DIGEST_CHARS
                    &&& forall|i: int|
                        0 <= i < digests@[j]@.len() ==> is_lower_hex(digests@[j]@[i])
                },
        decreases spans@.len() - k,
    {
        let span: ChunkSpan = spans[k];
        proof {
            lemma_span_within(spans@, data@.len() as int, k as int);
        }
        let chunk: &[u8] = slice_subrange(data, span.offset, span.offset + span.length);
        let digest: String = hash_chunk(chunk);
        digests.push(digest);
        k += 1;
    }
    proof {
        assert(digests.deep_view() =~= file_digests(data@, *params));
        if 0 < data@.len() <= params.min() {
            assert(span_bytes(data@, spans@[0]) =~= data@);
            assert(digests.deep_view() =~= seq![chunk_digest(data@)]);
        }
    }
    digests
}

} // verus!
