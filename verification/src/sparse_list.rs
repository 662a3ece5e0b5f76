//! Sparse posting lists in blocks.
use crate::sparse_block;
use crate::sparse_block::SparseBlock;
use crate::sparse_block::SparseRow;
use crate::sparse_config::WeightQuantization;
use crate::sparse_skip;
use crate::sparse_weights;
use crate::sparse_weights::QuantizedWeights;
use vstd::prelude::*;

verus! {

/// A sparse posting list: how many documents it has, and its blocks.
#[derive(Debug, Clone)]
pub struct BlockSparsePostingList {
    pub doc_count: u32,
    pub blocks: Vec<SparseBlock>,
}

/// The postings of the first `n` blocks.
pub open spec fn rows_of(blocks: Seq<SparseBlock>, n: int) -> Seq<SparseRow>
    decreases n,
{
    if n <= 0 {
        Seq::empty()
    } else {
        rows_of(blocks, n - 1) + blocks[n - 1].rows()
    }
}

/// The documents that the first `n` postings change to.
pub open spec fn doc_changes(rows: Seq<(u32, u16, u32)>, n: int) -> int
    decreases n,
{
    if n <= 0 {
        0
    } else {
        doc_changes(rows, n - 1) + (if n == 1 || rows[n - 1].0 != rows[n - 2].0 {
            1int
        } else {
            0
        })
    }
}

proof fn changes_grow(rows: Seq<(u32, u16, u32)>, i: int, n: int)
    requires
        0 <= i <= n,
    ensures
        0 <= doc_changes(rows, i) <= doc_changes(rows, n),
    decreases n,
{
    if i < n {
        changes_grow(rows, i, n - 1);
    } else if i > 0 {
        changes_grow(rows, i - 1, i - 1);
    }
}

/// The largest weight of the first `n` blocks.
pub open spec fn top_of(blocks: Seq<SparseBlock>, n: int) -> u32
    decreases n,
{
    if n <= 0 {
        0
    } else {
        sparse_skip::larger(top_of(blocks, n - 1), blocks[n - 1].header.max_weight)
    }
}

/// No block's largest weight is above the largest of all blocks, unless it
/// is not a number.
pub proof fn top_of_bounds(blocks: Seq<SparseBlock>, n: int, i: int)
    requires
        0 <= i < n <= blocks.len(),
        !sparse_weights::is_nan(blocks[i].header.max_weight),
    ensures
        !sparse_weights::is_nan(top_of(blocks, n)),
        sparse_skip::rank(blocks[i].header.max_weight) <= sparse_skip::rank(top_of(blocks, n)),
    decreases n,
{
    if i < n - 1 {
        top_of_bounds(blocks, n - 1, i);
    }
}

/// The size of a block in a list.
pub open spec fn list_block_size(size: usize) -> int {
    if size < 16 {
        16
    } else if size > 256 {
        256
    } else {
        size as int
    }
}

/// The end of block `k` of `n` postings in blocks of one size.
pub open spec fn chunk_end(size: int, n: int, k: int) -> int {
    if (k + 1) * size < n {
        (k + 1) * size
    } else {
        n
    }
}

/// Where block `k` of a partition starts.
pub open spec fn part_start(partition: Seq<usize>, k: int) -> int
    decreases k,
{
    if k <= 0 {
        0
    } else {
        part_start(partition, k - 1) + partition[k - 1]
    }
}

/// Where block `k` of a partition of `n` postings ends.
pub open spec fn part_end(partition: Seq<usize>, n: int, k: int) -> int {
    if part_start(partition, k + 1) < n {
        part_start(partition, k + 1)
    } else {
        n
    }
}

/// Whether every block of a partition has from one to 256 of `n` postings.
pub open spec fn parts_ok(partition: Seq<usize>, n: int) -> bool {
    forall|k: int|
        0 <= k < partition.len() ==> {
            let start = #[trigger] part_start(partition, k);
            0 <= start < n && 1 <= part_end(partition, n, k) - start
                <= sparse_block::MAX_BLOCK_SIZE
        }
}

fn count_docs(postings: &[(u32, u16, u32)]) -> (r: u32)
    requires
        doc_changes(postings@, postings@.len() as int) <= u32::MAX,
    ensures
        r == doc_changes(postings@, postings@.len() as int),
{
    let mut n: u32 = 0;
    let mut i: usize = 0;
    while i < postings.len()
        invariant
            i <= postings@.len(),
            n == doc_changes(postings@, i as int),
            doc_changes(postings@, postings@.len() as int) <= u32::MAX,
        decreases postings@.len() - i,
    {
        proof {
            changes_grow(postings@, i + 1, postings@.len() as int);
        }
        if i == 0 || postings[i].0 != postings[i - 1].0 {
            n = n + 1;
        }
        i = i + 1;
    }
    n
}

impl BlockSparsePostingList {
    /// Whether every block agrees with its header.
    pub open spec fn wf(&self) -> bool {
        forall|i: int| 0 <= i < self.blocks@.len() ==> (#[trigger] self.blocks@[i]).wf()
    }

    /// Whether the parts of every block hold its postings.
    pub open spec fn fits(&self) -> bool {
        forall|i: int| 0 <= i < self.blocks@.len() ==> (#[trigger] self.blocks@[i]).fits()
    }

    /// Whether blocks do not start before the end of earlier ones.
    pub open spec fn ordered(&self) -> bool {
        forall|i: int, j: int|
            0 <= i < j < self.blocks@.len() ==> (#[trigger] self.blocks@[i]).last_doc_id <= (
            #[trigger] self.blocks@[j]).header.first_doc_id
    }

    /// The postings.
    pub open spec fn rows(&self) -> Seq<SparseRow> {
        rows_of(self.blocks@, self.blocks@.len() as int)
    }

    /// Encode postings in blocks of one size, kept between 16 and 256.
    pub fn from_postings_with_block_size<
        F: Fn(&[u32], WeightQuantization) -> QuantizedWeights,
    >(
        postings: &[(u32, u16, u32)],
        weight_quant: WeightQuantization,
        block_size: usize,
        quantize: &F,
    ) -> (r: Self)
        requires
            sparse_weights::quantizes(*quantize),
            doc_changes(postings@, postings@.len() as int) <= u32::MAX,
        ensures
            r.doc_count == doc_changes(postings@, postings@.len() as int),
            ({
                let size = list_block_size(block_size);
                let n = postings@.len() as int;
                &&& (r.blocks@.len() - 1) * size < n || r.blocks@.len() == 0
                &&& n <= r.blocks@.len() * size
                &&& forall|k: int|
                    0 <= k < r.blocks@.len() ==> sparse_block::encodes(
                        #[trigger] &r.blocks@[k],
                        postings@.subrange(k * size, chunk_end(size, n, k)),
                        weight_quant,
                        *quantize,
                    )
            }),
    {
        let size: usize = if block_size < 16 {
            16
        } else if block_size > 256 {
            256
        } else {
            block_size
        };
        let n: usize = postings.len();
        let mut blocks: Vec<SparseBlock> = Vec::new();
        let mut at: usize = 0;
        let ghost mut k: int = 0;
        proof {
            assert(0 * size == 0) by (nonlinear_arith);
        }
        while at < n
            invariant
                16 <= size <= 256,
                size == list_block_size(block_size),
                n == postings@.len(),
                n == postings.len(),
                at <= n,
                k == blocks@.len(),
                k >= 0,
                at == (if k * size < n {
                    k * size
                } else {
                    n as int
                }),
                k > 0 ==> (k - 1) * size < n,
                sparse_weights::quantizes(*quantize),
                forall|j: int|
                    0 <= j < k ==> sparse_block::encodes(
                        #[trigger] &blocks@[j],
                        postings@.subrange(j * size, chunk_end(size as int, n as int, j)),
                        weight_quant,
                        *quantize,
                    ),
            decreases n - at,
        {
            let end: usize = if n - at <= size {
                n
            } else {
                at + size
            };
            proof {
                assert((k + 1) * size == k * size + size) by (nonlinear_arith);
            }
            let part = vstd::slice::slice_subrange(postings, at, end);
            let ghost before = blocks@;
            blocks.push(SparseBlock::from_postings(part, weight_quant, quantize));
            proof {
                assert forall|j: int| 0 <= j < k + 1 implies sparse_block::encodes(
                    #[trigger] &blocks@[j],
                    postings@.subrange(j * size, chunk_end(size as int, n as int, j)),
                    weight_quant,
                    *quantize,
                ) by {
                    if j < k {
                        assert(blocks@[j] == before[j]);
                    }
                }
                k = k + 1;
            }
            at = end;
        }
        let doc_count: u32 = count_docs(postings);
        BlockSparsePostingList { doc_count, blocks }
    }

    /// Encode postings in blocks of the ordinary size.
    pub fn from_postings<F: Fn(&[u32], WeightQuantization) -> QuantizedWeights>(
        postings: &[(u32, u16, u32)],
        weight_quant: WeightQuantization,
        quantize: &F,
    ) -> (r: Self)
        requires
            sparse_weights::quantizes(*quantize),
            doc_changes(postings@, postings@.len() as int) <= u32::MAX,
        ensures
            r.doc_count == doc_changes(postings@, postings@.len() as int),
            ({
                let n = postings@.len() as int;
                &&& (r.blocks@.len() - 1) * 128 < n || r.blocks@.len() == 0
                &&& n <= r.blocks@.len() * 128
                &&& forall|k: int|
                    0 <= k < r.blocks@.len() ==> sparse_block::encodes(
                        #[trigger] &r.blocks@[k],
                        postings@.subrange(k * 128, chunk_end(128, n, k)),
                        weight_quant,
                        *quantize,
                    )
            }),
    {
        Self::from_postings_with_block_size(
            postings,
            weight_quant,
            sparse_block::BLOCK_SIZE,
            quantize,
        )
    }

    /// Encode postings in blocks of given sizes. The last block may be cut
    /// short; no postings make no blocks.
    pub fn from_postings_with_partition<
        F: Fn(&[u32], WeightQuantization) -> QuantizedWeights,
    >(
        postings: &[(u32, u16, u32)],
        weight_quant: WeightQuantization,
        partition: &[usize],
        quantize: &F,
    ) -> (r: Self)
        requires
            sparse_weights::quantizes(*quantize),
            doc_changes(postings@, postings@.len() as int) <= u32::MAX,
            postings@.len() > 0 ==> parts_ok(partition@, postings@.len() as int),
        ensures
            r.doc_count == doc_changes(postings@, postings@.len() as int),
            postings@.len() == 0 ==> r.blocks@.len() == 0,
            postings@.len() > 0 ==> {
                let n = postings@.len() as int;
                &&& r.blocks@.len() == partition@.len()
                &&& forall|k: int|
                    0 <= k < r.blocks@.len() ==> sparse_block::encodes(
                        #[trigger] &r.blocks@[k],
                        postings@.subrange(
                            part_start(partition@, k),
                            part_end(partition@, n, k),
                        ),
                        weight_quant,
                        *quantize,
                    )
            },
    {
        let mut blocks: Vec<SparseBlock> = Vec::new();
        if postings.len() == 0 {
            return BlockSparsePostingList { doc_count: 0, blocks };
        }
        let n: usize = postings.len();
        let mut at: usize = 0;
        let mut k: usize = 0;
        while k < partition.len()
            invariant
                n == postings@.len(),
                n == postings.len(),
                k <= partition@.len(),
                k == blocks@.len(),
                parts_ok(partition@, n as int),
                at <= n,
                at == (if part_start(partition@, k as int) < n {
                    part_start(partition@, k as int)
                } else {
                    n as int
                }),
                sparse_weights::quantizes(*quantize),
                forall|j: int|
                    0 <= j < k ==> sparse_block::encodes(
                        #[trigger] &blocks@[j],
                        postings@.subrange(
                            part_start(partition@, j),
                            part_end(partition@, n as int, j),
                        ),
                        weight_quant,
                        *quantize,
                    ),
            decreases partition@.len() - k,
        {
            let size: usize = partition[k];
            proof {
                assert(part_start(partition@, k as int) < n);
                assert(part_start(partition@, k + 1) == part_start(partition@, k as int) + size);
            }
            let end: usize = if n - at <= size {
                n
            } else {
                at + size
            };
            let part = vstd::slice::slice_subrange(postings, at, end);
            let ghost before = blocks@;
            blocks.push(SparseBlock::from_postings(part, weight_quant, quantize));
            proof {
                assert forall|j: int| 0 <= j < k + 1 implies sparse_block::encodes(
                    #[trigger] &blocks@[j],
                    postings@.subrange(
                        part_start(partition@, j),
                        part_end(partition@, n as int, j),
                    ),
                    weight_quant,
                    *quantize,
                ) by {
                    if j < k {
                        assert(blocks@[j] == before[j]);
                    }
                }
            }
            at = end;
            k = k + 1;
        }
        let doc_count: u32 = count_docs(postings);
        BlockSparsePostingList { doc_count, blocks }
    }

    pub fn doc_count(&self) -> (r: u32)
        ensures
            r == self.doc_count,
    {
        self.doc_count
    }

    pub fn num_blocks(&self) -> (r: usize)
        ensures
            r == self.blocks@.len(),
    {
        self.blocks.len()
    }

    /// The largest weight of all blocks.
    pub fn global_max_weight(&self) -> (r: u32)
        ensures
            r == top_of(self.blocks@, self.blocks@.len() as int),
    {
        let mut max: u32 = 0;
        let mut i: usize = 0;
        while i < self.blocks.len()
            invariant
                i <= self.blocks@.len(),
                max == top_of(self.blocks@, i as int),
            decreases self.blocks@.len() - i,
        {
            max = sparse_skip::larger_of(max, self.blocks[i].header.max_weight);
            i = i + 1;
        }
        max
    }

    /// The largest weight of a block, if there is such a block.
    pub fn block_max_weight(&self, block_idx: usize) -> (r: Option<u32>)
        ensures
            r == (if block_idx < self.blocks@.len() {
                Some(self.blocks@[block_idx as int].header.max_weight)
            } else {
                None
            }),
    {
        if block_idx < self.blocks.len() {
            Some(self.blocks[block_idx].header.max_weight)
        } else {
            None
        }
    }

    /// Decode every posting.
    pub fn decode_all(&self) -> (out: Vec<SparseRow>)
        requires
            self.fits(),
        ensures
            out@ == self.rows(),
    {
        let mut out: Vec<SparseRow> = Vec::new();
        let mut b: usize = 0;
        while b < self.blocks.len()
            invariant
                b <= self.blocks@.len(),
                self.fits(),
                out@ == rows_of(self.blocks@, b as int),
            decreases self.blocks@.len() - b,
        {
            push_rows(&self.blocks[b], &mut out);
            b = b + 1;
        }
        out
    }

    /// The last block that starts at or before `target`, else the first; no
    /// block if there is none.
    pub fn find_block(&self, target: u32) -> (r: Option<usize>)
        requires
            firsts_ordered(self.blocks@),
        ensures
            r == (match block_for(self.blocks@, target) {
                Some(b) => Some(b as usize),
                None => None,
            }),
            r matches Some(b) ==> b == block_for(self.blocks@, target)->Some_0,
    {
        if self.blocks.len() == 0 {
            return None;
        }
        let n: usize = self.blocks.len();
        let mut lo: usize = 0;
        let mut hi: usize = n;
        while lo < hi
            invariant
                lo <= hi <= n == self.blocks@.len(),
                firsts_ordered(self.blocks@),
                forall|i: int|
                    0 <= i < lo ==> (#[trigger] self.blocks@[i]).header.first_doc_id <= target,
                forall|i: int|
                    hi <= i < n ==> (#[trigger] self.blocks@[i]).header.first_doc_id > target,
            decreases hi - lo,
        {
            let mid: usize = lo + (hi - lo) / 2;
            if self.blocks[mid].header.first_doc_id <= target {
                lo = mid + 1;
            } else {
                hi = mid;
            }
        }
        proof {
            started_is(self.blocks@, target, lo as int, n as int);
        }
        if lo == 0 {
            Some(0)
        } else {
            Some(lo - 1)
        }
    }
}

/// Whether blocks never start before earlier ones.
pub open spec fn firsts_ordered(blocks: Seq<SparseBlock>) -> bool {
    forall|i: int, j: int|
        0 <= i <= j < blocks.len() ==> (#[trigger] blocks[i]).header.first_doc_id <= (
        #[trigger] blocks[j]).header.first_doc_id
}

/// How many of the first `n` blocks start at or before `target`.
pub open spec fn started(blocks: Seq<SparseBlock>, target: u32, n: int) -> int
    decreases n,
{
    if n <= 0 {
        0
    } else {
        started(blocks, target, n - 1) + (if blocks[n - 1].header.first_doc_id <= target {
            1int
        } else {
            0
        })
    }
}

/// The block in which `target` would be.
pub open spec fn block_for(blocks: Seq<SparseBlock>, target: u32) -> Option<int> {
    let n = started(blocks, target, blocks.len() as int);
    if blocks.len() == 0 {
        None
    } else if n == 0 {
        Some(0)
    } else {
        Some(n - 1)
    }
}

/// Blocks up to `at` start at or before `target` and no others do.
pub proof fn started_is(blocks: Seq<SparseBlock>, target: u32, at: int, n: int)
    requires
        0 <= at,
        0 <= n <= blocks.len(),
        forall|i: int| 0 <= i < at && i < n ==> (#[trigger] blocks[i]).header.first_doc_id <= target,
        forall|i: int| at <= i < n ==> (#[trigger] blocks[i]).header.first_doc_id > target,
    ensures
        started(blocks, target, n) == (if at < n {
            at
        } else {
            n
        }),
    decreases n,
{
    if n > 0 {
        started_is(blocks, target, at, n - 1);
    }
}

fn push_rows(block: &SparseBlock, out: &mut Vec<SparseRow>)
    requires
        block.fits(),
    ensures
        final(out)@ == old(out)@ + block.rows(),
{
    let ghost start = out@;
    let docs: Vec<u32> = block.decode_doc_ids();
    let ordinals: Vec<u16> = block.decode_ordinals();
    let weights: Vec<sparse_weights::Weight> = block.decode_weights();
    let count: usize = block.header.count as usize;
    let mut i: usize = 0;
    proof {
        assert(out@ =~= start + block.rows().take(0));
    }
    while i < count
        invariant
            i <= count,
            count == block.count(),
            docs@ == block.docs(),
            ordinals@ == block.ordinals(),
            weights@ == block.weights(),
            out@ == start + block.rows().take(i as int),
        decreases count - i,
    {
        out.push((docs[i], ordinals[i], weights[i]));
        proof {
            assert(block.rows().take(i + 1) =~= block.rows().take(i as int).push(
                block.rows()[i as int],
            ));
        }
        i = i + 1;
    }
    proof {
        assert(block.rows().take(count as int) =~= block.rows());
    }
}

} // verus!
