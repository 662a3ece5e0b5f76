//! Posting lists in blocks, with a directory of blocks and groups of blocks.
use crate::block;
use crate::block::PostingBlock;
use crate::bounds;
use crate::codec::PostingCodec;
use crate::impacts::ImpactTable;
use crate::posting::Posting;
use crate::ratio;
use vstd::prelude::*;

verus! {

/// A posting list in blocks of up to 128 postings.
#[derive(Debug, Clone)]
pub struct BlockPostingList {
    /// Whether block headers are stored in the directory.
    pub compact_headers: bool,
    /// Whether position cursors are stored in four bytes.
    pub short_cursors: bool,
    /// The blocks, in document order.
    pub blocks: Vec<PostingBlock>,
    /// Last document of every group of eight blocks.
    pub l1_docs: Vec<u32>,
    /// Bounds word of every group; empty for older lists.
    pub l1_bounds: Vec<u32>,
    /// Length-to-frequency ratio bits of the blocks, then of the groups.
    pub ratios: Option<Vec<u32>>,
    /// Envelopes of the blocks, and of the groups where they are stored.
    pub impacts: Option<ImpactTable>,
    /// Number of postings.
    pub doc_count: u32,
    /// Largest term frequency.
    pub max_tf: u32,
    /// For every block, the number of positions before it.
    pub cursors: Option<Vec<u64>>,
    /// Number of positions.
    pub total_positions: u64,
    /// Whether bounds words are packed.
    pub len_bounds: bool,
    /// Smallest scoring length, where bounds words are packed.
    pub min_len: u32,
}

/// The postings of a block.
pub open spec fn block_postings(b: PostingBlock) -> Seq<Posting> {
    Seq::new(
        b.count as nat,
        |i: int| Posting { doc_id: b.docs()[i], term_freq: b.tfs()[i] },
    )
}

/// The postings of the first `n` blocks.
pub open spec fn flat(blocks: Seq<PostingBlock>, n: int) -> Seq<Posting>
    decreases n,
{
    if n <= 0 {
        Seq::empty()
    } else {
        flat(blocks, n - 1) + block_postings(blocks[n - 1])
    }
}

/// Number of postings in the first `n` blocks.
pub open spec fn total_count(blocks: Seq<PostingBlock>, n: int) -> int
    decreases n,
{
    if n <= 0 {
        0
    } else {
        total_count(blocks, n - 1) + blocks[n - 1].count
    }
}

/// Bytes of a block header in the stream.
pub open spec fn header_len(compact: bool) -> int {
    if compact {
        0
    } else {
        8
    }
}

/// Bytes of the first `n` blocks in the stream.
pub open spec fn stream_upto(blocks: Seq<PostingBlock>, n: int, compact: bool) -> int
    decreases n,
{
    if n <= 0 {
        0
    } else {
        stream_upto(blocks, n - 1, compact) + header_len(compact) + blocks[n - 1].payload@.len()
    }
}

/// Whether every block starts at a 32-bit offset.
pub open spec fn offsets_fit(blocks: Seq<PostingBlock>, compact: bool) -> bool {
    forall|i: int| 0 <= i < blocks.len() ==> #[trigger] stream_upto(blocks, i, compact) <= u32::MAX
}

/// Whether blocks are well formed and in document order.
pub open spec fn blocks_ok(blocks: Seq<PostingBlock>) -> bool {
    &&& forall|i: int| 0 <= i < blocks.len() ==> (#[trigger] blocks[i]).wf()
    &&& forall|i: int, j: int| 0 <= i < j < blocks.len() ==> blocks[i].last < blocks[j].first
}

/// Whether every block's content is sound.
pub open spec fn all_sound(blocks: Seq<PostingBlock>) -> bool {
    forall|i: int| 0 <= i < blocks.len() ==> (#[trigger] blocks[i]).sound()
}

/// Whether reserved first gaps are zero in all blocks.
pub open spec fn first_gaps_ok(blocks: Seq<PostingBlock>) -> bool {
    forall|i: int| 0 <= i < blocks.len() ==> (#[trigger] blocks[i]).first_gap_is_zero()
}

/// Whether no block holds patched arrays.
pub open spec fn no_pfor(blocks: Seq<PostingBlock>) -> bool {
    forall|i: int| 0 <= i < blocks.len() ==> (#[trigger] blocks[i]).codec() != PostingCodec::Pfor
}

/// The bounds words of the blocks.
pub open spec fn bound_words(blocks: Seq<PostingBlock>) -> Seq<u32> {
    Seq::new(blocks.len(), |i: int| blocks[i].bounds)
}

/// Last document of every group.
pub open spec fn group_docs(blocks: Seq<PostingBlock>) -> Seq<u32> {
    Seq::new(
        bounds::group_count(blocks.len() as int) as nat,
        |g: int| blocks[bounds::group_end(blocks.len() as int, g) - 1].last,
    )
}

/// Whether position cursors never run backwards and never pass the total.
pub open spec fn cursors_ok(cursors: Seq<u64>, total: u64) -> bool {
    &&& forall|i: int, j: int| 0 <= i <= j < cursors.len() ==> cursors[i] <= cursors[j]
    &&& forall|i: int| 0 <= i < cursors.len() ==> #[trigger] cursors[i] <= total
}

impl BlockPostingList {
    /// Number of blocks.
    pub open spec fn len(&self) -> int {
        self.blocks@.len() as int
    }

    /// Number of groups.
    pub open spec fn groups(&self) -> int {
        bounds::group_count(self.len())
    }

    /// Whether the directories agree with the blocks.
    pub open spec fn wf(&self) -> bool {
        &&& blocks_ok(self.blocks@)
        &&& self.compact_headers ==> no_pfor(self.blocks@)
        &&& offsets_fit(self.blocks@, self.compact_headers)
        &&& self.doc_count == total_count(self.blocks@, self.len())
        &&& self.l1_docs@ == group_docs(self.blocks@)
        &&& self.l1_bounds@.len() == 0 || self.l1_bounds@.len() == self.groups()
        &&& self.cursors matches Some(c) ==> c@.len() == self.len() && cursors_ok(
            c@,
            self.total_positions,
        )
        &&& self.short_cursors ==> self.cursors is Some && self.total_positions <= u32::MAX
        &&& self.ratios matches Some(r) ==> r@.len() == self.len() + self.groups() && forall|i: int|
            0 <= i < r@.len() ==> ratio::ratio_ok(#[trigger] r@[i])
        &&& self.impacts matches Some(t) ==> {
            &&& t.wf()
            &&& t@.len() == self.len() || t@.len() == self.len() + self.groups()
            &&& t@.len() > self.len() ==> self.l1_bounds@.len() > 0
            &&& 4 * (t@.len() + 1) <= usize::MAX
            &&& self.len_bounds
            &&& self.ratios is Some
        }
    }

    /// Whether every block decodes to what the directory says.
    pub open spec fn sound(&self) -> bool {
        all_sound(self.blocks@)
    }
}

impl View for BlockPostingList {
    type V = Seq<Posting>;

    /// The postings, where every block is sound.
    open spec fn view(&self) -> Seq<Posting> {
        flat(self.blocks@, self.blocks@.len() as int)
    }
}

/// Fewer postings stand in fewer blocks, and each block has one.
pub proof fn total_count_grows(blocks: Seq<PostingBlock>, i: int, j: int)
    requires
        0 <= i <= j <= blocks.len(),
        blocks_ok(blocks),
    ensures
        total_count(blocks, j) - total_count(blocks, i) >= j - i,
        total_count(blocks, j) - total_count(blocks, i) <= 128 * (j - i),
    decreases j,
{
    if i < j {
        total_count_grows(blocks, i, j - 1);
        assert(blocks[j - 1].wf());
    }
}

/// The flattened postings number as many as the blocks say.
pub proof fn flat_len(blocks: Seq<PostingBlock>, n: int)
    requires
        0 <= n <= blocks.len(),
    ensures
        flat(blocks, n).len() == total_count(blocks, n),
    decreases n,
{
    if n > 0 {
        flat_len(blocks, n - 1);
    }
}

pub proof fn stream_grows(blocks: Seq<PostingBlock>, i: int, j: int, compact: bool)
    requires
        0 <= i <= j <= blocks.len(),
    ensures
        0 <= stream_upto(blocks, i, compact),
        stream_upto(blocks, i, compact) <= stream_upto(blocks, j, compact),
        !compact ==> stream_upto(blocks, i, compact) + 8 * (j - i) <= stream_upto(
            blocks,
            j,
            compact,
        ),
    decreases j,
{
    if i < j {
        stream_grows(blocks, i, j - 1, compact);
    } else if i > 0 {
        stream_grows(blocks, i - 1, i - 1, compact);
    }
}

/// The functions of the first `n` blocks depend on those blocks alone.
pub proof fn prefix_functions(a: Seq<PostingBlock>, b: Seq<PostingBlock>, n: int)
    requires
        0 <= n <= a.len(),
        n <= b.len(),
        forall|i: int| 0 <= i < n ==> a[i] == b[i],
    ensures
        flat(a, n) == flat(b, n),
        total_count(a, n) == total_count(b, n),
        stream_upto(a, n, false) == stream_upto(b, n, false),
        stream_upto(a, n, true) == stream_upto(b, n, true),
    decreases n,
{
    if n > 0 {
        prefix_functions(a, b, n - 1);
    }
}

/// A block's payload has a bounded size.
pub proof fn payload_bound(b: PostingBlock)
    requires
        b.wf(),
    ensures
        b.payload@.len() <= 4000,
{
    let c = b.codec();
    let n = b.gap_count();
    let w = b.doc_width() as nat;
    let m = b.count as nat;
    let tw = b.tf_bits as nat;
    assert(n * w <= 128 * 32) by (nonlinear_arith)
        requires
            n <= 128,
            w <= 32,
    ;
    assert(m * tw <= 128 * 32) by (nonlinear_arith)
        requires
            m <= 128,
            tw <= 32,
    ;
    if c == PostingCodec::Pfor {
        if n > 0 {
            assert(b.payload@[0] <= 255);
        }
        assert(b.payload@.skip(b.gap_len())[0] <= 255);
    }
}

/// The list of last documents, one per group.
pub fn group_last_docs(blocks: &[PostingBlock]) -> (r: Vec<u32>)
    ensures
        r@ == group_docs(blocks@),
{
    let n: usize = blocks.len();
    let mut docs: Vec<u32> = Vec::new();
    let mut idx: usize = 0;
    while idx < n
        invariant
            idx <= n,
            n == blocks.len(),
            idx == n || idx == 8 * docs.len(),
            docs.len() == bounds::group_count(idx as int),
            forall|g: int|
                0 <= g < docs.len() ==> #[trigger] docs@[g] == blocks@[bounds::group_end(
                    n as int,
                    g,
                ) - 1].last,
        decreases n - idx,
    {
        let end: usize = if n - idx > 8 {
            idx + 8
        } else {
            n
        };
        proof {
            assert(end == bounds::group_end(n as int, docs.len() as int));
        }
        docs.push(blocks[end - 1].last);
        idx = end;
    }
    proof {
        assert(docs@ =~= group_docs(blocks@));
    }
    docs
}

/// The bounds words of the blocks.
pub fn words_of(blocks: &[PostingBlock]) -> (r: Vec<u32>)
    ensures
        r@ == bound_words(blocks@),
{
    let mut words: Vec<u32> = Vec::new();
    let mut i: usize = 0;
    while i < blocks.len()
        invariant
            i <= blocks.len(),
            words.len() == i,
            forall|k: int| 0 <= k < i ==> #[trigger] words@[k] == blocks@[k].bounds,
        decreases blocks.len() - i,
    {
        words.push(blocks[i].bounds);
        i += 1;
    }
    proof {
        assert(words@ =~= bound_words(blocks@));
    }
    words
}

/// One more block, in order, on blocks that are well formed.
pub proof fn push_block(before: Seq<PostingBlock>, b: PostingBlock, compact: bool)
    requires
        blocks_ok(before),
        offsets_fit(before, compact),
        b.wf(),
        before.len() > 0 ==> before.last().last < b.first,
        stream_upto(before, before.len() as int, compact) <= u32::MAX,
    ensures
        ({
            let after = before.push(b);
            let n = before.len() as int;
            &&& blocks_ok(after)
            &&& offsets_fit(after, compact)
            &&& stream_upto(after, n + 1, compact) == stream_upto(before, n, compact) + header_len(
                compact,
            ) + b.payload@.len()
            &&& total_count(after, n + 1) == total_count(before, n) + b.count
            &&& flat(after, n + 1) == flat(before, n) + block_postings(b)
        }),
{
    let after = before.push(b);
    let n = before.len() as int;
    prefix_functions(before, after, n);
    assert(after[n] == b);
    assert forall|i: int| 0 <= i < after.len() implies #[trigger] stream_upto(after, i, compact)
        <= u32::MAX by {
        prefix_functions(before, after, i);
        if i < n {
            assert(stream_upto(before, i, compact) <= u32::MAX);
        }
    }
    assert forall|i: int, j: int| 0 <= i < j < after.len() implies after[i].last < after[j].first by {
        if j == n {
            if i < n - 1 {
                assert(before[i].last < before[n - 1].first);
                assert(before[n - 1].wf());
            }
        } else {
            assert(before[i].last < before[j].first);
        }
    }
    assert forall|i: int| 0 <= i < after.len() implies (#[trigger] after[i]).wf() by {
        if i < n {
            assert(before[i].wf());
        }
    }
}

} // verus!
