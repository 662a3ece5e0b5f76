//! Building block posting lists.
use crate::block;
use crate::block::PostingBlock;
use crate::block::TERMINATED;
use crate::block_codec;
use crate::bounds;
use crate::codec;
use crate::codec::PostingCodec;
use crate::encode;
use crate::envelope::Point;
use crate::error::PostingError;
use crate::impact_builder;
use crate::impact_builder::ImpactBuilder;
use crate::impacts;
use crate::impacts::ImpactTable;
use crate::list;
use crate::list::BlockPostingList;
use crate::posting;
use crate::posting::Posting;
use crate::posting::PostingList;
use crate::ratio;
use vstd::prelude::*;

verus! {

/// Number of blocks for `n` postings.
pub open spec fn block_count(n: int) -> int {
    (n + 127) / 128
}

/// One past the last posting of block `i`.
pub open spec fn chunk_end(n: int, i: int) -> int {
    if 128 * i + 128 < n {
        128 * i + 128
    } else {
        n
    }
}

/// The postings of block `i`.
pub open spec fn chunk(s: Seq<Posting>, i: int) -> Seq<Posting> {
    s.subrange(128 * i, chunk_end(s.len() as int, i))
}

/// Scoring length of posting `k`: at most the limit, where there is one.
pub open spec fn length_at(lengths: Option<Seq<u32>>, limit: Option<u32>, k: int) -> u32 {
    match lengths {
        None => 1,
        Some(l) => match limit {
            Some(m) => if l[k] > m {
                m
            } else {
                l[k]
            },
            None => l[k],
        },
    }
}

/// Scoring length, but at least one.
pub open spec fn unit_length(lengths: Option<Seq<u32>>, limit: Option<u32>, k: int) -> u32 {
    if length_at(lengths, limit, k) == 0 {
        1
    } else {
        length_at(lengths, limit, k)
    }
}

/// Smallest unit length from posting `from` up to `to`.
pub open spec fn min_length(
    lengths: Option<Seq<u32>>,
    limit: Option<u32>,
    from: int,
    to: int,
) -> u32
    decreases to - from,
{
    if to <= from {
        u32::MAX
    } else if unit_length(lengths, limit, to - 1) < min_length(lengths, limit, from, to - 1) {
        unit_length(lengths, limit, to - 1)
    } else {
        min_length(lengths, limit, from, to - 1)
    }
}

/// Length-to-frequency ratios of the postings.
pub open spec fn posting_ratios(
    s: Seq<Posting>,
    lengths: Option<Seq<u32>>,
    limit: Option<u32>,
) -> Seq<u32> {
    Seq::new(
        s.len(),
        |k: int| ratio::lower_ratio(unit_length(lengths, limit, k), s[k].term_freq),
    )
}

/// Frequency and length of posting `k`; a posting without length counts its
/// own frequency.
pub open spec fn posting_point(
    s: Seq<Posting>,
    lengths: Option<Seq<u32>>,
    limit: Option<u32>,
    k: int,
) -> Point {
    let l = length_at(lengths, limit, k);
    (
        s[k].term_freq,
        if l == 0 {
            s[k].term_freq
        } else {
            l
        },
    )
}

/// The points of block `i`.
pub open spec fn chunk_points(
    s: Seq<Posting>,
    lengths: Option<Seq<u32>>,
    limit: Option<u32>,
    i: int,
) -> Seq<Point> {
    Seq::new(
        (chunk_end(s.len() as int, i) - 128 * i) as nat,
        |k: int| posting_point(s, lengths, limit, 128 * i + k),
    )
}

/// Sum of the first `n` term frequencies.
pub open spec fn tf_sum(s: Seq<Posting>, n: int) -> int
    decreases n,
{
    if n <= 0 {
        0
    } else {
        tf_sum(s, n - 1) + s[n - 1].term_freq
    }
}

/// Stream length of the first `i` blocks.
pub open spec fn built_upto(s: Seq<Posting>, codec: PostingCodec, i: int) -> int
    decreases i,
{
    if i <= 0 {
        0
    } else {
        built_upto(s, codec, i - 1) + 8 + built_payload(s, codec, i - 1)
    }
}

/// Payload length of block `i`.
pub open spec fn built_payload(s: Seq<Posting>, codec: PostingCodec, i: int) -> int {
    let docs = posting::doc_ids(chunk(s, i));
    let tfs = posting::term_freqs(chunk(s, i));
    let c = codec.for_count_spec(docs.len() as int);
    (block_codec::gap_array(c, block_codec::stored_gaps(c, docs)).len() + encode::encoded_array(
        c,
        tfs,
    ).len()) as int
}

/// Whether some block would start past the 32-bit offsets.
pub open spec fn too_long(s: Seq<Posting>, codec: PostingCodec) -> bool {
    exists|i: int|
        0 <= i < block_count(s.len() as int) && #[trigger] built_upto(s, codec, i) > u32::MAX
}

/// Whether `b` is block `i` of a list built from `s`.
pub open spec fn is_built_block(
    b: PostingBlock,
    s: Seq<Posting>,
    lengths: Option<Seq<u32>>,
    limit: Option<u32>,
    codec: PostingCodec,
    i: int,
) -> bool {
    let tfs = posting::term_freqs(chunk(s, i));
    &&& block_codec::is_encoding(b, codec, posting::doc_ids(chunk(s, i)), tfs)
    &&& b.bounds == bounds::pack_bounds_spec(
        encode::seq_max(tfs),
        min_length(lengths, limit, 128 * i, chunk_end(s.len() as int, i)),
    )
    &&& list::block_postings(b) == chunk(s, i)
}

/// Whether the position cursors are the frequency sums before each block.
pub open spec fn is_built_cursors(c: Seq<u64>, s: Seq<Posting>) -> bool {
    &&& c.len() == block_count(s.len() as int)
    &&& forall|i: int| 0 <= i < c.len() ==> #[trigger] c[i] == tf_sum(s, 128 * i)
}

/// The smallest ratio of each block.
pub open spec fn block_ratios(
    s: Seq<Posting>,
    lengths: Option<Seq<u32>>,
    limit: Option<u32>,
) -> Seq<u32> {
    Seq::new(
        block_count(s.len() as int) as nat,
        |i: int|
            ratio::min_ratio(
                posting_ratios(s, lengths, limit),
                128 * i,
                chunk_end(s.len() as int, i),
            ),
    )
}

/// Whether the records are the blocks' envelopes followed by the groups'.
pub open spec fn is_built_impacts(
    records: Seq<Seq<u8>>,
    s: Seq<Posting>,
    lengths: Option<Seq<u32>>,
    limit: Option<u32>,
) -> bool {
    let n = block_count(s.len() as int);
    &&& records.len() == n + bounds::group_count(n)
    &&& forall|i: int|
        0 <= i < n ==> impacts::is_record_of(
            #[trigger] records[i],
            chunk_points(s, lengths, limit, i),
        )
    &&& forall|g: int|
        0 <= g < bounds::group_count(n) ==> impact_builder::is_group_record(
            #[trigger] records[n + g],
            records.take(n),
            n,
            g,
            None,
        )
}

/// The lengths behind an optional slice.
pub open spec fn lengths_view(lengths: Option<&[u32]>) -> Option<Seq<u32>> {
    match lengths {
        Some(l) => Some(l@),
        None => None,
    }
}

/// Whether `r` is the list built from `s` with these options.
pub open spec fn is_built(
    r: BlockPostingList,
    s: Seq<Posting>,
    with_positions: bool,
    lengths: Option<Seq<u32>>,
    codec: PostingCodec,
    limit: Option<u32>,
    impact_bounds: bool,
) -> bool {
    let n = s.len() as int;
    &&& !r.compact_headers && !r.short_cursors && r.len_bounds
    &&& r.blocks@.len() == block_count(n)
    &&& forall|i: int|
        0 <= i < r.blocks@.len() ==> is_built_block(
            #[trigger] r.blocks@[i],
            s,
            lengths,
            limit,
            codec,
            i,
        )
    &&& r.l1_bounds@ == bounds::group_words(list::bound_words(r.blocks@))
    &&& r.doc_count == n
    &&& r.max_tf == encode::seq_max(posting::term_freqs(s))
    &&& r.min_len == (if n == 0 {
        1
    } else {
        min_length(lengths, limit, 0, n)
    })
    &&& r.total_positions == (if with_positions {
        tf_sum(s, n)
    } else {
        0
    })
    &&& match r.cursors {
        Some(c) => with_positions && is_built_cursors(c@, s),
        None => !with_positions,
    }
    &&& match r.ratios {
        Some(w) => limit is Some && lengths is Some && w@ == ratio::with_groups(
            block_ratios(s, lengths, limit),
        ),
        None => limit is None || lengths is None,
    }
    &&& match r.impacts {
        Some(t) => impact_bounds && limit is Some && lengths is Some && n > 128 && is_built_impacts(
            t@,
            s,
            lengths,
            limit,
        ),
        None => !impact_bounds || limit is None || lengths is None || n <= 128 || exists|
            records: Seq<Seq<u8>>,
        | #[trigger]
            is_built_impacts(records, s, lengths, limit) && forall|i: int|
                0 <= i < records.len() ==> (#[trigger] records[i]).len() == 0,
    }
}

/// Documents in order are no more than their numbers allow.
pub proof fn sorted_len(s: Seq<Posting>, i: int)
    requires
        posting::sorted(s),
        0 <= i < s.len(),
    ensures
        s[i].doc_id >= i,
        s.len() <= u32::MAX,
    decreases s.len() - i,
{
    sorted_at(s, i);
    sorted_at(s, s.len() - 1);
}

proof fn sorted_at(s: Seq<Posting>, i: int)
    requires
        posting::sorted(s),
        0 <= i < s.len(),
    ensures
        s[i].doc_id >= i,
    decreases i,
{
    if i > 0 {
        sorted_at(s, i - 1);
        assert(s[i - 1].doc_id < s[i].doc_id);
    }
}

proof fn tf_sum_bound(s: Seq<Posting>, i: int, j: int)
    requires
        0 <= i <= j <= s.len(),
    ensures
        0 <= tf_sum(s, i) <= tf_sum(s, j),
        tf_sum(s, j) <= 0xFFFF_FFFF * j,
    decreases j,
{
    if i < j {
        tf_sum_bound(s, i, j - 1);
    } else if i > 0 {
        tf_sum_bound(s, i - 1, j - 1);
    }
}

/// Scoring length of posting `k`.
fn length_of(lengths: Option<&[u32]>, limit: Option<u32>, k: usize) -> (r: u32)
    requires
        lengths matches Some(l) ==> k < l@.len(),
    ensures
        r == length_at(lengths_view(lengths), limit, k as int),
{
    match lengths {
        None => 1,
        Some(l) => match limit {
            Some(m) => if l[k] > m {
                m
            } else {
                l[k]
            },
            None => l[k],
        },
    }
}

/// Smallest unit length of a range of postings.
fn min_length_of(lengths: Option<&[u32]>, limit: Option<u32>, from: usize, to: usize) -> (r: u32)
    requires
        from <= to,
        lengths matches Some(l) ==> to <= l@.len(),
    ensures
        r == min_length(lengths_view(lengths), limit, from as int, to as int),
{
    let mut r: u32 = u32::MAX;
    let mut k: usize = from;
    while k < to
        invariant
            from <= k <= to,
            lengths matches Some(l) ==> to <= l@.len(),
            r == min_length(lengths_view(lengths), limit, from as int, k as int),
        decreases to - k,
    {
        let mut l: u32 = length_of(lengths, limit, k);
        if l == 0 {
            l = 1;
        }
        if l < r {
            r = l;
        }
        k += 1;
    }
    r
}

/// Smallest ratio of a range of postings.
fn min_ratio_of(
    s: &[Posting],
    lengths: Option<&[u32]>,
    limit: Option<u32>,
    from: usize,
    to: usize,
) -> (r: u32)
    requires
        from < to <= s@.len(),
        lengths matches Some(l) ==> s@.len() == l@.len(),
    ensures
        r == ratio::min_ratio(
            posting_ratios(s@, lengths_view(lengths), limit),
            from as int,
            to as int,
        ),
        ratio::ratio_ok(r),
{
    let ghost all = posting_ratios(s@, lengths_view(lengths), limit);
    let mut r: u32 = 0;
    let mut k: usize = from;
    while k < to
        invariant
            from <= k <= to <= s@.len(),
            lengths matches Some(l) ==> s@.len() == l@.len(),
            all == posting_ratios(s@, lengths_view(lengths), limit),
            k > from ==> r == ratio::min_ratio(all, from as int, k as int),
            ratio::ratio_ok(r),
        decreases to - k,
    {
        let mut l: u32 = length_of(lengths, limit, k);
        if l == 0 {
            l = 1;
        }
        let q: u32 = ratio::lower_length_ratio(l, s[k].term_freq);
        proof {
            assert(all[k as int] == q);
        }
        if k == from || q % 0x8000_0000 < r % 0x8000_0000 {
            r = q;
        }
        k += 1;
    }
    r
}

/// The points of block `i`.
fn points_of(
    s: &[Posting],
    lengths: Option<&[u32]>,
    limit: Option<u32>,
    i: usize,
    to: usize,
) -> (r: Vec<Point>)
    requires
        128 * i < s@.len(),
        to == chunk_end(s@.len() as int, i as int),
        lengths matches Some(l) ==> s@.len() == l@.len(),
    ensures
        r@ == chunk_points(s@, lengths_view(lengths), limit, i as int),
        r.len() <= 128,
{
    let from: usize = 128 * i;
    let mut r: Vec<Point> = Vec::new();
    let mut k: usize = from;
    while k < to
        invariant
            from == 128 * i,
            from <= k <= to <= s@.len(),
            lengths matches Some(l) ==> s@.len() == l@.len(),
            r.len() == k - from,
            forall|j: int|
                0 <= j < r.len() ==> #[trigger] r@[j] == posting_point(
                    s@,
                    lengths_view(lengths),
                    limit,
                    128 * i + j,
                ),
        decreases to - k,
    {
        let l: u32 = length_of(lengths, limit, k);
        let tf: u32 = s[k].term_freq;
        r.push(
            (
                tf,
                if l == 0 {
                    tf
                } else {
                    l
                },
            ),
        );
        k += 1;
    }
    proof {
        assert(r@ =~= chunk_points(s@, lengths_view(lengths), limit, i as int));
    }
    r
}

/// Encode block `i`.
fn build_block(
    s: &[Posting],
    lengths: Option<&[u32]>,
    limit: Option<u32>,
    codec: PostingCodec,
    i: usize,
    to: usize,
) -> (b: PostingBlock)
    requires
        posting::sorted(s@),
        128 * i < s@.len(),
        to == chunk_end(s@.len() as int, i as int),
        lengths matches Some(l) ==> s@.len() == l@.len(),
    ensures
        is_built_block(b, s@, lengths_view(lengths), limit, codec, i as int),
        b.wf(),
        b.sound(),
        b.payload@.len() == built_payload(s@, codec, i as int),
        b.first == s@[128 * i].doc_id,
        b.last == s@[to - 1].doc_id,
{
    let from: usize = 128 * i;
    let ghost part = chunk(s@, i as int);
    let mut docs: Vec<u32> = Vec::with_capacity(128);
    let mut tfs: Vec<u32> = Vec::with_capacity(128);
    let mut k: usize = from;
    while k < to
        invariant
            from == 128 * i,
            from <= k <= to <= s@.len(),
            docs.len() == k - from,
            tfs.len() == k - from,
            forall|j: int| 0 <= j < docs.len() ==> #[trigger] docs@[j] == s@[from + j].doc_id,
            forall|j: int| 0 <= j < tfs.len() ==> #[trigger] tfs@[j] == s@[from + j].term_freq,
        decreases to - k,
    {
        docs.push(s[k].doc_id);
        tfs.push(s[k].term_freq);
        k += 1;
    }
    proof {
        assert(docs@ =~= posting::doc_ids(part));
        assert(tfs@ =~= posting::term_freqs(part));
        assert(block::increasing(docs@)) by {
            assert forall|a: int, b: int| 0 <= a < b < docs.len() implies docs@[a] < docs@[b] by {
                assert(s@[from + a].doc_id < s@[from + b].doc_id);
            }
        }
        assert(docs@.last() != TERMINATED) by {
            if to < s@.len() {
                assert(s@[to - 1].doc_id < s@[s@.len() - 1].doc_id);
            }
        }
    }
    let word: u32 = bounds::pack_bounds(
        encode::max_of(tfs.as_slice()),
        min_length_of(lengths, limit, from, to),
    );
    let b = block_codec::encode_block(codec, docs.as_slice(), tfs.as_slice(), word);
    proof {
        reveal(block_codec::is_encoding);
        assert(list::block_postings(b) =~= part);
    }
    b
}

/// Whether the first `i` blocks of a list have been built.
spec fn built_prefix(
    blocks: Seq<PostingBlock>,
    s: Seq<Posting>,
    lengths: Option<Seq<u32>>,
    limit: Option<u32>,
    codec: PostingCodec,
) -> bool {
    let i = blocks.len() as int;
    &&& list::blocks_ok(blocks)
    &&& list::all_sound(blocks)
    &&& list::offsets_fit(blocks, false)
    &&& list::stream_upto(blocks, i, false) == built_upto(s, codec, i)
    &&& list::total_count(blocks, i) == (if 128 * i < s.len() {
        128 * i
    } else {
        s.len() as int
    })
    &&& list::flat(blocks, i) == s.take(list::total_count(blocks, i))
    &&& forall|k: int|
        0 <= k < i ==> is_built_block(#[trigger] blocks[k], s, lengths, limit, codec, k)
    &&& i > 0 ==> blocks[i - 1].last == s[list::total_count(blocks, i) - 1].doc_id
}

/// One more block on a built prefix.
proof fn built_push(
    blocks: Seq<PostingBlock>,
    b: PostingBlock,
    s: Seq<Posting>,
    lengths: Option<Seq<u32>>,
    limit: Option<u32>,
    codec: PostingCodec,
)
    requires
        posting::sorted(s),
        built_prefix(blocks, s, lengths, limit, codec),
        128 * blocks.len() < s.len(),
        built_upto(s, codec, blocks.len() as int) <= u32::MAX,
        is_built_block(b, s, lengths, limit, codec, blocks.len() as int),
        b.wf(),
        b.sound(),
        b.payload@.len() == built_payload(s, codec, blocks.len() as int),
        b.first == s[128 * (blocks.len() as int)].doc_id,
        b.last == s[chunk_end(s.len() as int, blocks.len() as int) - 1].doc_id,
    ensures
        built_prefix(blocks.push(b), s, lengths, limit, codec),
{
    let i = blocks.len() as int;
    let all = blocks.push(b);
    list::prefix_functions(blocks, all, i);
    assert forall|k: int| 0 <= k < all.len() implies (#[trigger] all[k]).wf() && all[k].sound()
        && is_built_block(all[k], s, lengths, limit, codec, k) by {
        if k < i {
            assert(all[k] == blocks[k]);
        }
    }
    assert forall|k: int| 0 <= k < all.len() implies #[trigger] list::stream_upto(all, k, false)
        <= u32::MAX by {
        list::prefix_functions(blocks, all, k);
        if k < i {
            assert(list::stream_upto(blocks, k, false) <= u32::MAX);
        }
    }
    assert forall|p: int, q: int| 0 <= p < q < all.len() implies all[p].last < all[q].first by {
        if q < i {
            assert(blocks[p].last < blocks[q].first);
        } else {
            if p < i - 1 {
                assert(blocks[p].last < blocks[i - 1].first);
                assert(blocks[i - 1].wf());
            }
            assert(s[128 * i - 1].doc_id < s[128 * i].doc_id);
        }
    }
    let c = list::block_postings(b);
    assert(c == chunk(s, i));
    assert(b.count == c.len());
    assert(list::flat(all, i + 1) =~= s.take(list::total_count(all, i + 1)));
}

impl BlockPostingList {
    /// Build a list with rounded blocks.
    pub fn from_posting_list(list: &PostingList) -> (r: Result<Self, PostingError>)
        requires
            posting::sorted(list@),
        ensures
            r is Err <==> too_long(list@, PostingCodec::Rounded),
            r matches Err(error) ==> error == PostingError::StreamTooLong,
            r matches Ok(l) ==> l.wf() && l.sound() && l@ == list@ && is_built(
                l,
                list@,
                false,
                None,
                PostingCodec::Rounded,
                None,
                false,
            ),
    {
        BlockPostingList::build(list, false, None, PostingCodec::Rounded, None, false)
    }

    /// Build a list with the given codec.
    pub fn from_posting_list_with_codec(list: &PostingList, codec: PostingCodec) -> (r: Result<
        Self,
        PostingError,
    >)
        requires
            posting::sorted(list@),
        ensures
            r is Err <==> too_long(list@, codec),
            r matches Err(error) ==> error == PostingError::StreamTooLong,
            r matches Ok(l) ==> l.wf() && l.sound() && l@ == list@ && is_built(
                l,
                list@,
                false,
                None,
                codec,
                None,
                false,
            ),
    {
        BlockPostingList::build(list, false, None, codec, None, false)
    }

    /// Build with position cursors on demand and, where scoring lengths are
    /// given, with the smallest length of each block and of the list.
    pub fn from_posting_list_with(
        list: &PostingList,
        with_positions: bool,
        lengths: Option<&[u32]>,
    ) -> (r: Result<Self, PostingError>)
        requires
            posting::sorted(list@),
            lengths matches Some(l) ==> l@.len() == list@.len(),
        ensures
            r is Err <==> too_long(list@, PostingCodec::Rounded),
            r matches Err(error) ==> error == PostingError::StreamTooLong,
            r matches Ok(l) ==> l.wf() && l.sound() && l@ == list@ && is_built(
                l,
                list@,
                with_positions,
                lengths_view(lengths),
                PostingCodec::Rounded,
                None,
                false,
            ),
    {
        BlockPostingList::build(list, with_positions, lengths, PostingCodec::Rounded, None, false)
    }

    /// Build with positions, lengths and codec.
    pub fn from_posting_list_with_options(
        list: &PostingList,
        with_positions: bool,
        lengths: Option<&[u32]>,
        codec: PostingCodec,
    ) -> (r: Result<Self, PostingError>)
        requires
            posting::sorted(list@),
            lengths matches Some(l) ==> l@.len() == list@.len(),
        ensures
            r is Err <==> too_long(list@, codec),
            r matches Err(error) ==> error == PostingError::StreamTooLong,
            r matches Ok(l) ==> l.wf() && l.sound() && l@ == list@ && is_built(
                l,
                list@,
                with_positions,
                lengths_view(lengths),
                codec,
                None,
                false,
            ),
    {
        BlockPostingList::build(list, with_positions, lengths, codec, None, false)
    }

    /// Build with length-to-frequency ratios. Lengths count for at most
    /// `max_length`, which is where stored lengths saturate.
    pub fn from_posting_list_with_ratio_bounds(
        list: &PostingList,
        with_positions: bool,
        lengths: Option<&[u32]>,
        codec: PostingCodec,
        max_length: u32,
    ) -> (r: Result<Self, PostingError>)
        requires
            posting::sorted(list@),
            lengths matches Some(l) ==> l@.len() == list@.len(),
        ensures
            r is Err <==> too_long(list@, codec),
            r matches Err(error) ==> error == PostingError::StreamTooLong,
            r matches Ok(l) ==> l.wf() && l.sound() && l@ == list@ && is_built(
                l,
                list@,
                with_positions,
                lengths_view(lengths),
                codec,
                Some(max_length),
                false,
            ),
    {
        BlockPostingList::build(list, with_positions, lengths, codec, Some(max_length), false)
    }

    /// Build with ratios and, for lists of several blocks, envelopes.
    pub fn from_posting_list_with_impact_bounds(
        list: &PostingList,
        with_positions: bool,
        lengths: Option<&[u32]>,
        codec: PostingCodec,
        max_length: u32,
    ) -> (r: Result<Self, PostingError>)
        requires
            posting::sorted(list@),
            lengths matches Some(l) ==> l@.len() == list@.len(),
        ensures
            r is Err <==> lengths is None || too_long(list@, codec),
            r matches Err(error) ==> error == (if lengths is None {
                PostingError::ImpactLengths
            } else {
                PostingError::StreamTooLong
            }),
            r matches Ok(l) ==> l.wf() && l.sound() && l@ == list@ && is_built(
                l,
                list@,
                with_positions,
                lengths_view(lengths),
                codec,
                Some(max_length),
                true,
            ),
    {
        if lengths.is_none() {
            return Err(PostingError::ImpactLengths);
        }
        BlockPostingList::build(list, with_positions, lengths, codec, Some(max_length), true)
    }

    /// Build a list: blocks of 128 postings, their bounds, and on demand
    /// position cursors, ratios and envelopes.
    pub fn build(
        list: &PostingList,
        with_positions: bool,
        lengths: Option<&[u32]>,
        codec: PostingCodec,
        limit: Option<u32>,
        impact_bounds: bool,
    ) -> (r: Result<Self, PostingError>)
        requires
            posting::sorted(list@),
            lengths matches Some(l) ==> l@.len() == list@.len(),
        ensures
            r is Err <==> too_long(list@, codec),
            r matches Err(error) ==> error == PostingError::StreamTooLong,
            r matches Ok(l) ==> l.wf() && l.sound() && l@ == list@ && is_built(
                l,
                list@,
                with_positions,
                lengths_view(lengths),
                codec,
                limit,
                impact_bounds,
            ),
    {
        let s = list.postings.as_slice();
        let total: usize = s.len();
        proof {
            if total > 0 {
                sorted_len(s@, 0);
            }
        }
        let blocks = match build_blocks(s, lengths, limit, codec) {
            Ok(blocks) => blocks,
            Err(error) => {
                return Err(error);
            },
        };
        let words = list::words_of(blocks.as_slice());
        let l1_bounds = bounds::group_bounds_from_l0(words.as_slice());
        let l1_docs = list::group_last_docs(blocks.as_slice());
        let (cursors, total_positions): (Option<Vec<u64>>, u64) = if with_positions {
            let (c, t): (Vec<u64>, u64) = build_cursors(s);
            (Some(c), t)
        } else {
            (None, 0)
        };
        let ratios: Option<Vec<u32>> = if limit.is_some() && lengths.is_some() {
            Some(build_ratios(s, lengths, limit))
        } else {
            None
        };
        let impacts: Option<ImpactTable> = if impact_bounds && limit.is_some() && lengths.is_some()
            && total > 128 {
            build_impacts(s, lengths, limit)
        } else {
            None
        };
        let min_len: u32 = if total == 0 {
            1
        } else {
            min_length_of(lengths, limit, 0, total)
        };
        let r = BlockPostingList {
            compact_headers: false,
            short_cursors: false,
            l1_docs,
            l1_bounds,
            ratios,
            impacts,
            doc_count: total as u32,
            max_tf: max_tf_of(s),
            cursors,
            total_positions,
            len_bounds: true,
            min_len,
            blocks,
        };
        proof {
            assert(s@.take(total as int) =~= s@);
            assert(list::first_gaps_ok(r.blocks@)) by {
                assert forall|k: int| 0 <= k < r.blocks@.len() implies (
                #[trigger] r.blocks@[k]).first_gap_is_zero() by {
                    assert(r.blocks@[k].sound());
                }
            }
        }
        Ok(r)
    }
}

/// Encode all blocks.
fn build_blocks(
    s: &[Posting],
    lengths: Option<&[u32]>,
    limit: Option<u32>,
    codec: PostingCodec,
) -> (r: Result<Vec<PostingBlock>, PostingError>)
    requires
        posting::sorted(s@),
        s@.len() <= u32::MAX,
        lengths matches Some(l) ==> l@.len() == s@.len(),
    ensures
        r is Err <==> too_long(s@, codec),
        r matches Err(error) ==> error == PostingError::StreamTooLong,
        r matches Ok(blocks) ==> blocks@.len() == block_count(s@.len() as int) && built_prefix(
            blocks@,
            s@,
            lengths_view(lengths),
            limit,
            codec,
        ),
{
    let total: usize = s.len();
    let ghost ls = lengths_view(lengths);
    let n: usize = total / 128 + if total % 128 == 0 {
        0
    } else {
        1
    };
    let mut blocks: Vec<PostingBlock> = Vec::new();
    let mut stream: u64 = 0;
    let mut i: usize = 0;
    proof {
        assert(list::flat(blocks@, 0) =~= s@.take(0));
    }
    while i < n
        invariant
            i <= n,
            total == s@.len(),
            total <= u32::MAX,
            n == block_count(total as int),
            ls == lengths_view(lengths),
            posting::sorted(s@),
            lengths matches Some(l) ==> s@.len() == l@.len(),
            blocks.len() == i,
            built_prefix(blocks@, s@, ls, limit, codec),
            stream == built_upto(s@, codec, i as int),
            stream <= i * 4008,
        decreases n - i,
    {
        if stream > 0xFFFF_FFFF {
            proof {
                assert(built_upto(s@, codec, i as int) > u32::MAX);
            }
            return Err(PostingError::StreamTooLong);
        }
        let from: usize = 128 * i;
        let to: usize = if total - from > 128 {
            from + 128
        } else {
            total
        };
        let b = build_block(s, lengths, limit, codec, i, to);
        proof {
            list::payload_bound(b);
            built_push(blocks@, b, s@, ls, limit, codec);
        }
        stream = stream + 8 + b.payload.len() as u64;
        blocks.push(b);
        i += 1;
    }
    proof {
        assert forall|k: int| 0 <= k < n implies #[trigger] built_upto(s@, codec, k)
            <= u32::MAX by {
            offsets_match(blocks@, s@, ls, limit, codec, k);
        }
    }
    Ok(blocks)
}

/// The position cursors and the number of positions.
fn build_cursors(s: &[Posting]) -> (r: (Vec<u64>, u64))
    requires
        s@.len() <= u32::MAX,
    ensures
        is_built_cursors(r.0@, s@),
        r.1 == tf_sum(s@, s@.len() as int),
        list::cursors_ok(r.0@, r.1),
{
    let mut cursors: Vec<u64> = Vec::new();
    let mut positions: u64 = 0;
    let mut k: usize = 0;
    while k < s.len()
        invariant
            k <= s@.len() <= u32::MAX,
            positions == tf_sum(s@, k as int),
            cursors.len() == block_count(k as int),
            forall|i: int| 0 <= i < cursors.len() ==> #[trigger] cursors@[i] == tf_sum(s@, 128 * i),
        decreases s.len() - k,
    {
        if k % 128 == 0 {
            cursors.push(positions);
        }
        proof {
            tf_sum_bound(s@, k as int, k + 1);
            assert(0xFFFF_FFFF * (k + 1) <= 0xFFFF_FFFF * 0xFFFF_FFFF) by (nonlinear_arith)
                requires
                    k + 1 <= 0xFFFF_FFFF,
            ;
        }
        positions = positions + s[k].term_freq as u64;
        k += 1;
    }
    proof {
        assert forall|a: int, b: int| 0 <= a <= b < cursors.len() implies cursors@[a]
            <= cursors@[b] by {
            tf_sum_bound(s@, 128 * a, 128 * b);
        }
        assert forall|a: int| 0 <= a < cursors.len() implies #[trigger] cursors@[a]
            <= positions by {
            tf_sum_bound(s@, 128 * a, s@.len() as int);
        }
    }
    (cursors, positions)
}

/// The ratios of the blocks and groups.
fn build_ratios(s: &[Posting], lengths: Option<&[u32]>, limit: Option<u32>) -> (r: Vec<u32>)
    requires
        s@.len() <= u32::MAX,
        lengths matches Some(l) ==> l@.len() == s@.len(),
    ensures
        r@ == ratio::with_groups(block_ratios(s@, lengths_view(lengths), limit)),
        forall|i: int| 0 <= i < r.len() ==> ratio::ratio_ok(#[trigger] r@[i]),
{
    let total: usize = s.len();
    let ghost want = block_ratios(s@, lengths_view(lengths), limit);
    let mut ratios: Vec<u32> = Vec::new();
    let mut from: usize = 0;
    while from < total
        invariant
            from <= total,
            total == s@.len(),
            total <= u32::MAX,
            from == total || from == 128 * ratios.len(),
            lengths matches Some(l) ==> l@.len() == s@.len(),
            want == block_ratios(s@, lengths_view(lengths), limit),
            ratios.len() == block_count(from as int),
            forall|k: int| 0 <= k < ratios.len() ==> #[trigger] ratios@[k] == want[k],
            forall|k: int| 0 <= k < ratios.len() ==> ratio::ratio_ok(#[trigger] ratios@[k]),
        decreases total - from,
    {
        let to: usize = if total - from > 128 {
            from + 128
        } else {
            total
        };
        ratios.push(min_ratio_of(s, lengths, limit, from, to));
        from = to;
    }
    proof {
        assert(ratios@ =~= want);
    }
    ratio::append_ratio_groups(&mut ratios);
    ratios
}

/// The envelopes of the blocks and groups.
fn build_impacts(s: &[Posting], lengths: Option<&[u32]>, limit: Option<u32>) -> (r: Option<
    ImpactTable,
>)
    requires
        0 < s@.len() <= u32::MAX,
        lengths matches Some(l) ==> l@.len() == s@.len(),
    ensures
        match r {
            Some(t) => is_built_impacts(t@, s@, lengths_view(lengths), limit) && t.wf() && 81
                * t@.len() <= u32::MAX,
            None => exists|records: Seq<Seq<u8>>| #[trigger]
                is_built_impacts(records, s@, lengths_view(lengths), limit) && forall|i: int|
                    0 <= i < records.len() ==> (#[trigger] records[i]).len() == 0,
        },
{
    let total: usize = s.len();
    let ghost ls = lengths_view(lengths);
    let n: usize = total / 128 + if total % 128 == 0 {
        0
    } else {
        1
    };
    let groups: usize = n / 8 + if n % 8 == 0 {
        0
    } else {
        1
    };
    let mut builder = ImpactBuilder { blocks: n + groups, records: Vec::new() };
    proof {
        assert(builder@ =~= Seq::<Seq<u8>>::empty());
    }
    let mut i: usize = 0;
    while i < n
        invariant
            i <= n,
            total == s@.len(),
            total <= u32::MAX,
            n == block_count(total as int),
            groups == bounds::group_count(n as int),
            ls == lengths_view(lengths),
            lengths matches Some(l) ==> s@.len() == l@.len(),
            builder.wf(),
            builder.blocks == n + groups,
            builder@.len() == i,
            forall|k: int|
                0 <= k < i ==> impacts::is_record_of(
                    #[trigger] builder@[k],
                    chunk_points(s@, ls, limit, k),
                ),
        decreases n - i,
    {
        let from: usize = 128 * i;
        let to: usize = if total - from > 128 {
            from + 128
        } else {
            total
        };
        let points = points_of(s, lengths, limit, i, to);
        let ghost before = builder@;
        let _ = builder.append_points(points.as_slice());
        proof {
            assert forall|k: int| 0 <= k < i + 1 implies impacts::is_record_of(
                #[trigger] builder@[k],
                chunk_points(s@, ls, limit, k),
            ) by {
                if k < i {
                    assert(builder@.drop_last()[k] == before[k]);
                }
            }
        }
        i += 1;
    }
    let ghost records = builder@;
    let mut copies: Vec<Option<Vec<u8>>> = Vec::new();
    let mut g: usize = 0;
    while g < groups
        invariant
            g <= groups,
            copies.len() == g,
            forall|k: int| 0 <= k < g ==> #[trigger] copies@[k] is None,
        decreases groups - g,
    {
        copies.push(None);
        g += 1;
    }
    let _ = builder.append_groups_with(n, &copies);
    proof {
        assert forall|k: int| 0 <= k < n implies impacts::is_record_of(
            #[trigger] builder@[k],
            chunk_points(s@, ls, limit, k),
        ) by {
            assert(builder@.take(n as int)[k] == records[k]);
        }
        assert forall|k: int| 0 <= k < groups implies impact_builder::is_group_record(
            #[trigger] builder@[n + k],
            builder@.take(n as int),
            n as int,
            k,
            None,
        ) by {
            assert(copies@[k] is None);
            assert(impact_builder::is_group_record(
                builder@[n + k],
                records,
                n as int,
                k,
                impact_builder::copy_view(copies@[k]),
            ));
        }
        assert(is_built_impacts(builder@, s@, ls, limit));
    }
    builder.finish()
}

/// Largest term frequency.
fn max_tf_of(s: &[Posting]) -> (r: u32)
    ensures
        r == encode::seq_max(posting::term_freqs(s@)),
{
    let ghost all = posting::term_freqs(s@);
    let mut r: u32 = 0;
    let mut k: usize = 0;
    while k < s.len()
        invariant
            k <= s.len(),
            all == posting::term_freqs(s@),
            r == encode::seq_max(all.take(k as int)),
        decreases s.len() - k,
    {
        proof {
            assert(all.take(k + 1).drop_last() =~= all.take(k as int));
        }
        if s[k].term_freq > r {
            r = s[k].term_freq;
        }
        k += 1;
    }
    proof {
        assert(all.take(all.len() as int) =~= all);
    }
    r
}

proof fn offsets_match(
    blocks: Seq<PostingBlock>,
    s: Seq<Posting>,
    lengths: Option<Seq<u32>>,
    limit: Option<u32>,
    codec: PostingCodec,
    k: int,
)
    requires
        built_prefix(blocks, s, lengths, limit, codec),
        0 <= k < blocks.len(),
    ensures
        built_upto(s, codec, k) == list::stream_upto(blocks, k, false),
        built_upto(s, codec, k) <= u32::MAX,
    decreases k,
{
    assert(list::stream_upto(blocks, k, false) <= u32::MAX);
    if k > 0 {
        offsets_match(blocks, s, lengths, limit, codec, k - 1);
        reveal(block_codec::is_encoding);
        assert(is_built_block(blocks[k - 1], s, lengths, limit, codec, k - 1));
    }
}

} // verus!
