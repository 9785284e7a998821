//! Content-defined chunking: where a byte buffer is cut into chunks.
//!
//! The cut points come from the FastCDC rolling hash of the `fastcdc`
//! crate. The loop that walks the buffer from cut to cut is verified here:
//! whatever the rolling hash decides, the chunks follow one another from
//! the first byte to the last without gap or overlap.

use vstd::prelude::*;
use vstd::slice::*;

verus! {

/// Smallest minimum chunk size that the rolling hash accepts.
pub const MINIMUM_MIN: u32 = 64;

/// Largest minimum chunk size that the rolling hash accepts.
pub const MINIMUM_MAX: u32 = 1_048_576;

/// Smallest average chunk size that the rolling hash accepts.
pub const AVERAGE_MIN: u32 = 256;

/// Largest average chunk size that the rolling hash accepts.
pub const AVERAGE_MAX: u32 = 4_194_304;

/// Smallest maximum chunk size that the rolling hash accepts.
pub const MAXIMUM_MIN: u32 = 1024;

/// Largest maximum chunk size that the rolling hash accepts.
pub const MAXIMUM_MAX: u32 = 16_777_216;

/// Minimum chunk size used when nothing else is asked for.
pub const DEFAULT_MIN_SIZE: u32 = 4096;

/// Average chunk size used when nothing else is asked for.
pub const DEFAULT_AVG_SIZE: u32 = 16384;

/// Maximum chunk size used when nothing else is asked for.
pub const DEFAULT_MAX_SIZE: u32 = 65535;

/// The minimum, average and maximum chunk size of a chunker. A value of
/// this type always holds sizes that `ChunkParams::valid_sizes` accepts.
#[derive(Clone, Copy, Debug)]
pub struct ChunkParams {
    min_size: u32,
    avg_size: u32,
    max_size: u32,
}

impl ChunkParams {
    /// The minimum chunk size.
    pub closed spec fn min(self) -> u32 {
        self.min_size
    }

    /// The average chunk size.
    pub closed spec fn avg(self) -> u32 {
        self.avg_size
    }

    /// The maximum chunk size.
    pub closed spec fn max(self) -> u32 {
        self.max_size
    }

    /// The sizes that make a chunker: each within the bounds of the
    /// rolling hash, and in ascending order.
    pub open spec fn valid_sizes(min_size: u32, avg_size: u32, max_size: u32) -> bool {
        &&& MINIMUM_MIN <= min_size <= MINIMUM_MAX
        &&& AVERAGE_MIN <= avg_size <= AVERAGE_MAX
        &&& MAXIMUM_MIN <= max_size <= MAXIMUM_MAX
        &&& min_size <= avg_size <= max_size
    }

    /// Whether the three sizes are valid together.
    pub open spec fn wf(self) -> bool {
        Self::valid_sizes(self.min(), self.avg(), self.max())
    }

    #[verifier::type_invariant]
    spec fn sizes_are_valid(self) -> bool {
        Self::valid_sizes(self.min_size, self.avg_size, self.max_size)
    }

    /// The parameters with the given sizes, or `None` where the sizes are
    /// not valid.
    pub fn new(min_size: u32, avg_size: u32, max_size: u32) -> (params: Option<ChunkParams>)
        ensures
            params is Some <==> Self::valid_sizes(min_size, avg_size, max_size),
            params matches Some(p) ==> p.min() == min_size && p.avg() == avg_size && p.max()
                == max_size && p.wf(),
    {
        if MINIMUM_MIN <= min_size && min_size <= MINIMUM_MAX && AVERAGE_MIN <= avg_size
            && avg_size <= AVERAGE_MAX && MAXIMUM_MIN <= max_size && max_size <= MAXIMUM_MAX
            && min_size <= avg_size && avg_size <= max_size {
            Some(ChunkParams { min_size, avg_size, max_size })
        } else {
            None
        }
    }

    /// The minimum chunk size.
    pub fn min_size(&self) -> (size: u32)
        ensures
            size == self.min(),
    {
        self.min_size
    }

    /// The average chunk size.
    pub fn avg_size(&self) -> (size: u32)
        ensures
            size == self.avg(),
    {
        self.avg_size
    }

    /// The maximum chunk size.
    pub fn max_size(&self) -> (size: u32)
        ensures
            size == self.max(),
    {
        self.max_size
    }
}

impl Default for ChunkParams {
    /// Chunks of 4096 to 65535 bytes, 16384 on average.
    fn default() -> (params: ChunkParams)
        ensures
            params.min() == DEFAULT_MIN_SIZE,
            params.avg() == DEFAULT_AVG_SIZE,
            params.max() == DEFAULT_MAX_SIZE,
            params.wf(),
    {
        ChunkParams {
            min_size: DEFAULT_MIN_SIZE,
            avg_size: DEFAULT_AVG_SIZE,
            max_size: DEFAULT_MAX_SIZE,
        }
    }
}

/// One chunk of a buffer: `length` bytes that start at `offset`.
#[derive(Clone, Copy, Debug, PartialEq, Eq, Structural)]
pub struct ChunkSpan {
    pub offset: usize,
    pub length: usize,
}

/// The length that `fastcdc::v2020::FastCDC::cut` gives the chunk at the
/// start of `source`, for a chunker made with the three sizes at
/// normalization level 1 and the crate's own gear tables.
pub uninterp spec fn fastcdc_cut(
    source: Seq<u8>,
    min_size: u32,
    avg_size: u32,
    max_size: u32,
) -> usize;

/// Makes a `fastcdc::v2020::FastCDC` over `source` and asks its `cut` for
/// the end of the chunk that starts at the first byte.
///
/// Taken on trust from the crate's `cut_gear`: the result depends on the
/// bytes and the three sizes alone; a source of at most `min_size` bytes is
/// one chunk; a longer one is cut no earlier than `min_size` rounded down
/// to an even number, and no later than `max_size` or its own end.
#[verifier::external_body]
fn next_cut(source: &[u8], min_size: u32, avg_size: u32, max_size: u32) -> (length: usize)
    requires
        ChunkParams::valid_sizes(min_size, avg_size, max_size),
        source@.len() > 0,
    ensures
        length == fastcdc_cut(source@, min_size, avg_size, max_size),
        0 < length <= source@.len(),
        length <= max_size,
        source@.len() <= min_size ==> length == source@.len(),
        source@.len() > min_size ==> length >= min_size - min_size % 2,
{
    fastcdc::v2020::FastCDC::new(source, min_size, avg_size, max_size).cut(0, source.len()).1
}

/// The length of the first chunk of a buffer that is not empty: what the
/// rolling hash says, as long as that lies within the buffer.
pub open spec fn first_cut(data: Seq<u8>, params: ChunkParams) -> int {
    let length = fastcdc_cut(data, params.min(), params.avg(), params.max()) as int;
    if 0 < length <= data.len() {
        length
    } else {
        data.len() as int
    }
}

/// The lengths of the chunks of `data`, in the order of the bytes. Each
/// cut is decided by the bytes that follow the cut before it, and by
/// nothing else.
pub open spec fn cut_lengths(data: Seq<u8>, params: ChunkParams) -> Seq<usize>
    decreases data.len(),
{
    if data.len() == 0 {
        Seq::empty()
    } else {
        let length = first_cut(data, params);
        seq![length as usize] + cut_lengths(data.skip(length), params)
    }
}

/// The sum of the first `count` lengths: where the chunk after them
/// starts.
pub open spec fn offset_of(lengths: Seq<usize>, count: int) -> int
    decreases count,
{
    if count <= 0 {
        0
    } else {
        offset_of(lengths, count - 1) + lengths[count - 1]
    }
}

/// The chunks of the given lengths, laid one after the other from byte 0.
pub open spec fn laid_out(lengths: Seq<usize>) -> Seq<ChunkSpan> {
    Seq::new(
        lengths.len(),
        |i: int| ChunkSpan { offset: offset_of(lengths, i) as usize, length: lengths[i] },
    )
}

/// The chunks of `data`, in ascending order of offset.
pub open spec fn chunking(data: Seq<u8>, params: ChunkParams) -> Seq<ChunkSpan> {
    laid_out(cut_lengths(data, params))
}

/// Whether `spans` cut a buffer of `len` bytes into pieces: none is
/// empty, the first starts at byte 0, each next one starts where the one
/// before it ends, and the last ends at byte `len`.
pub open spec fn tiles(spans: Seq<ChunkSpan>, len: int) -> bool {
    &&& forall|i: int| 0 <= i < spans.len() ==> 0 < (#[trigger] spans[i]).length
    &&& spans.len() > 0 ==> spans[0].offset == 0
    &&& forall|i: int, j: int|
        0 <= i && j == i + 1 && j < spans.len() ==> (#[trigger] spans[i]).offset
            + spans[i].length == (#[trigger] spans[j]).offset
    &&& if spans.len() == 0 {
        len == 0
    } else {
        spans.last().offset + spans.last().length == len
    }
}

/// The bytes of `data` that `span` covers.
pub open spec fn span_bytes(data: Seq<u8>, span: ChunkSpan) -> Seq<u8> {
    data.subrange(span.offset as int, span.offset + span.length)
}

/// The bytes of all `spans`, one after the other.
pub open spec fn joined(data: Seq<u8>, spans: Seq<ChunkSpan>) -> Seq<u8>
    decreases spans.len(),
{
    if spans.len() == 0 {
        Seq::empty()
    } else {
        joined(data, spans.drop_last()) + span_bytes(data, spans.last())
    }
}

/// Each span of a tiling ends within the buffer.
pub proof fn lemma_span_within(spans: Seq<ChunkSpan>, len: int, i: int)
    requires
        tiles(spans, len),
        0 <= i < spans.len(),
    ensures
        spans[i].offset + spans[i].length <= len,
    decreases spans.len() - i,
{
    if i + 1 < spans.len() {
        lemma_span_within(spans, len, i + 1);
        assert(spans[i].offset + spans[i].length == spans[i + 1].offset);
        assert(0 < spans[i + 1].length);
    }
}

/// What the first `count` of the spans of a tiling cover, joined, is the
/// buffer up to the start of the next span.
proof fn lemma_joined_prefix(data: Seq<u8>, spans: Seq<ChunkSpan>, count: int)
    requires
        tiles(spans, data.len() as int),
        0 <= count <= spans.len(),
    ensures
        joined(data, spans.take(count)) == data.take(
            if count == spans.len() {
                data.len() as int
            } else {
                spans[count].offset as int
            },
        ),
    decreases count,
{
    if count == 0 {
        assert(joined(data, spans.take(0)) =~= data.take(0));
    } else {
        let before = count - 1;
        lemma_joined_prefix(data, spans, before);
        let head = spans.take(count);
        assert(head.drop_last() =~= spans.take(before));
        assert(head.last() == spans[before]);
        let stop: int = spans[before].offset + spans[before].length;
        assert(0 < spans[before].length);
        lemma_span_within(spans, data.len() as int, before);
        if count == spans.len() {
            assert(spans.last() == spans[before]);
            assert(stop == data.len());
        } else {
            assert(spans[before].offset + spans[before].length == spans[count].offset);
        }
        assert(joined(data, head) =~= data.take(stop));
    }
}

/// The chunks of a tiling, joined in order, are the buffer itself: no
/// byte is missing, none occurs twice, none has changed its place.
pub proof fn lemma_tiling_rebuilds(data: Seq<u8>, spans: Seq<ChunkSpan>)
    requires
        tiles(spans, data.len() as int),
    ensures
        joined(data, spans) == data,
{
    lemma_joined_prefix(data, spans, spans.len() as int);
    assert(spans.take(spans.len() as int) =~= spans);
    assert(data.take(data.len() as int) =~= data);
}

/// The sum of the first lengths depends on those lengths alone.
proof fn lemma_offset_of_prefix(first: Seq<usize>, second: Seq<usize>, count: int)
    requires
        0 <= count <= first.len(),
        count <= second.len(),
        forall|k: int| 0 <= k < count ==> first[k] == second[k],
    ensures
        offset_of(first, count) == offset_of(second, count),
    decreases count,
{
    if count > 0 {
        lemma_offset_of_prefix(first, second, count - 1);
    }
}

/// The offsets do not go down.
proof fn lemma_offsets_grow(lengths: Seq<usize>, i: int, j: int)
    requires
        0 <= i <= j <= lengths.len(),
    ensures
        0 <= offset_of(lengths, i) <= offset_of(lengths, j),
    decreases j,
{
    if i < j {
        lemma_offsets_grow(lengths, i, j - 1);
    } else if j > 0 {
        lemma_offsets_grow(lengths, i - 1, j - 1);
    }
}

/// Chunks that are laid out tile the bytes that they take up together,
/// as long as none of them is empty.
pub proof fn lemma_laid_out_tiles(lengths: Seq<usize>)
    requires
        forall|k: int| 0 <= k < lengths.len() ==> 0 < #[trigger] lengths[k],
        offset_of(lengths, lengths.len() as int) <= usize::MAX,
    ensures
        tiles(laid_out(lengths), offset_of(lengths, lengths.len() as int)),
{
    let spans = laid_out(lengths);
    let count = lengths.len() as int;
    assert forall|i: int| 0 <= i < spans.len() implies (#[trigger] spans[i]).offset == offset_of(
        lengths,
        i,
    ) && spans[i].length == lengths[i] by {
        lemma_offsets_grow(lengths, i, count);
    }
    assert forall|i: int, j: int| 0 <= i && j == i + 1 && j < spans.len() implies (
    #[trigger] spans[i]).offset + spans[i].length == (#[trigger] spans[j]).offset by {
        assert(spans[i].offset == offset_of(lengths, i));
        assert(spans[j].offset == offset_of(lengths, j));
    }
    if count > 0 {
        assert(spans[count - 1].offset == offset_of(lengths, count - 1));
    }
}

/// Lays chunks of the given lengths one after the other from byte 0, or
/// gives `None` where the lengths add up to more than a `usize` holds.
pub fn lay_out(lengths: &Vec<usize>) -> (spans: Option<Vec<ChunkSpan>>)
    ensures
        spans is Some <==> offset_of(lengths@, lengths@.len() as int) <= usize::MAX,
        spans matches Some(laid) ==> laid@ == laid_out(lengths@),
{
    let mut spans: Vec<ChunkSpan> = Vec::new();
    let mut offset: usize = 0;
    let mut i: usize = 0;
    while i < lengths.len()
        invariant
            i <= lengths@.len(),
            offset == offset_of(lengths@, i as int),
            spans@.len() == i,
            forall|k: int|
                0 <= k < i ==> (#[trigger] spans@[k]) == (ChunkSpan {
                    offset: offset_of(lengths@, k) as usize,
                    length: lengths@[k],
                }),
        decreases lengths@.len() - i,
    {
        let length: usize = lengths[i];
        spans.push(ChunkSpan { offset, length });
        match offset.checked_add(length) {
            Some(next) => {
                offset = next;
            },
            None => {
                proof {
                    lemma_offsets_grow(lengths@, i + 1, lengths@.len() as int);
                }
                return None;
            },
        }
        i += 1;
    }
    assert(spans@ =~= laid_out(lengths@));
    Some(spans)
}

/// Cuts `data` into content-defined chunks.
///
/// The result is a function of the bytes and the sizes, so the same
/// buffer is always cut at the same places. The chunks tile the buffer.
/// None is longer than the maximum size; a chunk that another one follows
/// is no shorter than the minimum size rounded down to an even number; a
/// buffer of at most the minimum size is one chunk, and an empty buffer
/// has none.
pub fn chunk_spans(data: &[u8], params: &ChunkParams) -> (spans: Vec<ChunkSpan>)
    ensures
        spans@ == chunking(data@, *params),
        tiles(spans@, data@.len() as int),
        forall|i: int| 0 <= i < spans@.len() ==> (#[trigger] spans@[i]).length <= params.max(),
        forall|i: int|
            0 <= i && i + 1 < spans@.len() ==> (#[trigger] spans@[i]).length >= params.min()
                - params.min() % 2,
        data@.len() == 0 ==> spans@.len() == 0,
        0 < data@.len() <= params.min() ==> spans@ == seq![
            ChunkSpan { offset: 0, length: data@.len() as usize },
        ],
{
    proof {
        use_type_invariant(params);
    }
    let min_size: u32 = params.min_size;
    let avg_size: u32 = params.avg_size;
    let max_size: u32 = params.max_size;
    let mut lengths: Vec<usize> = Vec::new();
    let mut start: usize = 0;
    assert(data@.skip(0) =~= data@);
    while start < data.len()
        invariant
            start <= data@.len(),
            min_size == params.min(),
            avg_size == params.avg(),
            max_size == params.max(),
            params.wf(),
            lengths@ + cut_lengths(data@.skip(start as int), *params) == cut_lengths(
                data@,
                *params,
            ),
            offset_of(lengths@, lengths@.len() as int) == start,
            forall|k: int| 0 <= k < lengths@.len() ==> 0 < #[trigger] lengths@[k] <= max_size,
            forall|k: int|
                0 <= k && k + 1 < lengths@.len() ==> #[trigger] lengths@[k] >= min_size - min_size
                    % 2,
            lengths@.len() > 0 && start < data@.len() ==> lengths@.last() >= min_size - min_size
                % 2,
            data@.len() <= min_size ==> lengths@.len() == 0 || (lengths@.len() == 1 && start
                == data@.len()),
        decreases data@.len() - start,
    {
        let rest: &[u8] = slice_subrange(data, start, data.len());
        let length: usize = next_cut(rest, min_size, avg_size, max_size);
        proof {
            let before = lengths@;
            let after = before.push(length);
            assert(rest@ =~= data@.skip(start as int));
            assert(first_cut(rest@, *params) == length);
            assert(rest@.skip(length as int) =~= data@.skip(start + length));
            assert(after + cut_lengths(data@.skip(start + length), *params) =~= before
                + cut_lengths(rest@, *params));
            lemma_offset_of_prefix(before, after, before.len() as int);
        }
        lengths.push(length);
        start = start + length;
    }
    proof {
        assert(lengths@ =~= cut_lengths(data@, *params));
        lemma_laid_out_tiles(lengths@);
    }
    let spans: Vec<ChunkSpan> = match lay_out(&lengths) {
        Some(laid) => laid,
        None => Vec::new(),
    };
    proof {
        if 0 < data@.len() <= min_size {
            assert(spans@ =~= seq![ChunkSpan { offset: 0, length: data@.len() as usize }]);
        }
    }
    spans
}

} // verus!
