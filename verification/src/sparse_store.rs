//! Sparse posting lists as bytes with skip entries, and several lists as
//! one.
use crate::bytes;
use crate::sparse_block;
use crate::sparse_block::SparseBlock;
use crate::sparse_block::SparseError;
use crate::sparse_block::SparseRow;
use crate::sparse_list;
use crate::sparse_list::BlockSparsePostingList;
use crate::sparse_skip::SparseSkipEntry;
use vstd::prelude::*;

verus! {

/// The blocks as parts of the stored list.
pub open spec fn block_parts(blocks: Seq<SparseBlock>) -> Seq<Seq<u8>> {
    Seq::new(blocks.len(), |i: int| blocks[i].stored())
}

/// Where block `i` is stored and what it holds.
pub open spec fn entry_of(blocks: Seq<SparseBlock>, i: int) -> SparseSkipEntry {
    SparseSkipEntry {
        first_doc: blocks[i].header.first_doc_id,
        last_doc: blocks[i].last_doc_id,
        offset: bytes::joined_len(block_parts(blocks), i) as u64,
        length: blocks[i].stored().len() as u32,
        max_weight: blocks[i].header.max_weight,
    }
}

/// The entries of all blocks.
pub open spec fn entries_of(blocks: Seq<SparseBlock>) -> Seq<SparseSkipEntry> {
    Seq::new(blocks.len(), |i: int| entry_of(blocks, i))
}

/// Whether every block can be stored.
pub open spec fn all_storable(blocks: Seq<SparseBlock>) -> bool {
    forall|i: int| 0 <= i < blocks.len() ==> (#[trigger] blocks[i]).storable()
}

/// What is wrong with the block that an entry tells of.
pub open spec fn entry_refusal(data: Seq<u8>, e: SparseSkipEntry) -> Option<SparseError> {
    if e.offset + e.length > data.len() {
        Some(SparseError::Outside)
    } else {
        sparse_block::block_refusal(data.subrange(e.offset as int, e.offset + e.length))
    }
}

/// Memory that the first `n` blocks take.
pub open spec fn block_bytes(blocks: Seq<SparseBlock>, n: int) -> int
    decreases n,
{
    if n <= 0 {
        0
    } else {
        block_bytes(blocks, n - 1) + 16 + blocks[n - 1].doc_ids_data@.len()
            + blocks[n - 1].ordinals_data@.len() + blocks[n - 1].weights_data@.len()
    }
}

proof fn block_bytes_grow(blocks: Seq<SparseBlock>, i: int, n: int)
    requires
        0 <= i <= n,
    ensures
        0 <= block_bytes(blocks, i) <= block_bytes(blocks, n),
    decreases n,
{
    if i < n {
        block_bytes_grow(blocks, i, n - 1);
    } else if i > 0 {
        block_bytes_grow(blocks, i - 1, i - 1);
    }
}

/// The documents of the first `n` lists together.
pub open spec fn doc_total(lists: Seq<(&BlockSparsePostingList, u32)>, n: int) -> int
    decreases n,
{
    if n <= 0 {
        0
    } else {
        doc_total(lists, n - 1) + lists[n - 1].0.doc_count
    }
}

proof fn doc_total_grows(lists: Seq<(&BlockSparsePostingList, u32)>, i: int, n: int)
    requires
        0 <= i <= n,
    ensures
        0 <= doc_total(lists, i) <= doc_total(lists, n),
    decreases n,
{
    if i < n {
        doc_total_grows(lists, i, n - 1);
    } else if i > 0 {
        doc_total_grows(lists, i - 1, i - 1);
    }
}

/// The blocks of the first `n` lists together.
pub open spec fn block_total(lists: Seq<(&BlockSparsePostingList, u32)>, n: int) -> int
    decreases n,
{
    if n <= 0 {
        0
    } else {
        block_total(lists, n - 1) + lists[n - 1].0.blocks@.len()
    }
}

/// Whether no block of a list can be moved too far.
pub open spec fn movable(list: &BlockSparsePostingList, offset: u32) -> bool {
    forall|j: int|
        0 <= j < list.blocks@.len() ==> (#[trigger] list.blocks@[j]).last_doc_id + offset
            <= u32::MAX && list.blocks@[j].header.first_doc_id + offset <= u32::MAX
}

/// Whether blocks from `at` on are those of a list, moved.
pub open spec fn moved_in(
    blocks: Seq<SparseBlock>,
    at: int,
    list: &BlockSparsePostingList,
    offset: u32,
) -> bool {
    forall|j: int|
        0 <= j < list.blocks@.len() ==> blocks[at + j].is_moved(
            #[trigger] &list.blocks@[j],
            offset,
        )
}

impl BlockSparsePostingList {
    /// The memory that the list takes.
    pub fn size_bytes(&self) -> (r: usize)
        requires
            8 + block_bytes(self.blocks@, self.blocks@.len() as int) <= usize::MAX,
        ensures
            r == 8 + block_bytes(self.blocks@, self.blocks@.len() as int),
    {
        let mut n: usize = 8;
        let mut i: usize = 0;
        while i < self.blocks.len()
            invariant
                i <= self.blocks@.len(),
                8 + block_bytes(self.blocks@, self.blocks@.len() as int) <= usize::MAX,
                n == 8 + block_bytes(self.blocks@, i as int),
            decreases self.blocks@.len() - i,
        {
            proof {
                block_bytes_grow(self.blocks@, i + 1, self.blocks@.len() as int);
            }
            let b: &SparseBlock = &self.blocks[i];
            n = n + 16 + b.doc_ids_data.len() + b.ordinals_data.len() + b.weights_data.len();
            i = i + 1;
        }
        n
    }

    /// The stored blocks and an entry for each of them. A block with a part
    /// that is too large refuses.
    pub fn serialize(&self) -> (r: Result<(Vec<u8>, Vec<SparseSkipEntry>), SparseError>)
        ensures
            match r {
                Ok((data, entries)) => {
                    &&& all_storable(self.blocks@)
                    &&& data@ == bytes::joined(block_parts(self.blocks@))
                    &&& entries@ == entries_of(self.blocks@)
                    &&& data@.len() <= u64::MAX
                },
                Err(e) => exists|i: int|
                    {
                        &&& 0 <= i < self.blocks@.len()
                        &&& !(#[trigger] self.blocks@[i]).storable()
                        &&& all_storable(self.blocks@.take(i))
                        &&& e == self.blocks@[i].too_large()
                    },
            },
    {
        broadcast use bytes::group_word_sizes;

        let ghost parts = block_parts(self.blocks@);
        let mut data: Vec<u8> = Vec::new();
        let mut entries: Vec<SparseSkipEntry> = Vec::new();
        let mut i: usize = 0;
        proof {
            assert(data@ =~= bytes::joined(parts.take(0)));
            assert(entries@ =~= entries_of(self.blocks@).take(0));
        }
        while i < self.blocks.len()
            invariant
                i <= self.blocks@.len(),
                parts == block_parts(self.blocks@),
                data@ == bytes::joined(parts.take(i as int)),
                data@.len() == bytes::joined_len(parts, i as int),
                entries@ == entries_of(self.blocks@).take(i as int),
                forall|k: int| 0 <= k < i ==> (#[trigger] self.blocks@[k]).storable(),
            decreases self.blocks@.len() - i,
        {
            let block: &SparseBlock = &self.blocks[i];
            let offset: usize = data.len();
            match block.write(&mut data) {
                Ok(_) => {},
                Err(e) => {
                    proof {
                        assert(!self.blocks@[i as int].storable());
                        assert(all_storable(self.blocks@.take(i as int)));
                    }
                    return Err(e);
                },
            }
            proof {
                broadcast use bytes::group_word_sizes;

                assert(block.stored().len() <= 24 + 3 * 0xFFFF);
                assert(parts.take(i + 1).drop_last() =~= parts.take(i as int));
                assert(data@ =~= bytes::joined(parts.take(i + 1)));
            }
            let length: usize = data.len() - offset;
            entries.push(
                SparseSkipEntry::new(
                    block.header.first_doc_id,
                    block.last_doc_id,
                    offset as u64,
                    length as u32,
                    block.header.max_weight,
                ),
            );
            proof {
                assert(entries@ =~= entries_of(self.blocks@).take(i + 1));
            }
            i = i + 1;
        }
        proof {
            assert(data.len() <= u64::MAX);
            assert(parts.take(parts.len() as int) =~= parts);
            assert(entries_of(self.blocks@).take(i as int) =~= entries_of(self.blocks@));
        }
        Ok((data, entries))
    }

    /// The list whose blocks are stored where entries tell. The first block
    /// that is wrong refuses.
    pub fn from_parts(doc_count: u32, block_data: &[u8], skip_entries: &[SparseSkipEntry]) -> (r:
        Result<Self, SparseError>)
        ensures
            match r {
                Ok(list) => {
                    &&& list.doc_count == doc_count
                    &&& list.wf()
                    &&& list.blocks@.len() == skip_entries@.len()
                    &&& forall|i: int|
                        0 <= i < skip_entries@.len() ==> entry_refusal(
                            block_data@,
                            #[trigger] skip_entries@[i],
                        ) is None && sparse_block::block_is_at(
                            &list.blocks@[i],
                            block_data@.subrange(
                                skip_entries@[i].offset as int,
                                skip_entries@[i].offset + skip_entries@[i].length,
                            ),
                        )
                },
                Err(e) => exists|k: int|
                    0 <= k < skip_entries@.len() && entry_refusal(
                        block_data@,
                        #[trigger] skip_entries@[k],
                    ) == Some(e) && forall|i: int|
                        0 <= i < k ==> entry_refusal(
                            block_data@,
                            #[trigger] skip_entries@[i],
                        ) is None,
            },
    {
        let mut blocks: Vec<SparseBlock> = Vec::new();
        let mut i: usize = 0;
        while i < skip_entries.len()
            invariant
                i <= skip_entries@.len(),
                blocks@.len() == i,
                forall|k: int| 0 <= k < i ==> (#[trigger] blocks@[k]).wf(),
                forall|k: int|
                    0 <= k < i ==> entry_refusal(
                        block_data@,
                        #[trigger] skip_entries@[k],
                    ) is None && sparse_block::block_is_at(
                        &blocks@[k],
                        block_data@.subrange(
                            skip_entries@[k].offset as int,
                            skip_entries@[k].offset + skip_entries@[k].length,
                        ),
                    ),
            decreases skip_entries@.len() - i,
        {
            let e: SparseSkipEntry = skip_entries[i];
            let end: u128 = e.offset as u128 + e.length as u128;
            if end > block_data.len() as u128 {
                proof {
                    assert(entry_refusal(block_data@, skip_entries@[i as int]) == Some(
                        SparseError::Outside,
                    ));
                }
                return Err(SparseError::Outside);
            }
            let part = vstd::slice::slice_subrange(block_data, e.offset as usize, end as usize);
            match SparseBlock::from_owned_bytes(part) {
                Ok(block) => {
                    let ghost before = blocks@;
                    blocks.push(block);
                    proof {
                        assert(forall|k: int| 0 <= k < i ==> blocks@[k] == before[k]);
                    }
                },
                Err(error) => {
                    proof {
                        assert(entry_refusal(block_data@, skip_entries@[i as int]) == Some(error));
                    }
                    return Err(error);
                },
            }
            i = i + 1;
        }
        Ok(BlockSparsePostingList { doc_count, blocks })
    }

    /// Several lists as one, each with its documents moved up. The blocks
    /// stay as they are but for where they start.
    pub fn merge_with_offsets(lists: &[(&BlockSparsePostingList, u32)]) -> (r: Self)
        requires
            doc_total(lists@, lists@.len() as int) <= u32::MAX,
            forall|i: int|
                0 <= i < lists@.len() ==> movable((#[trigger] lists@[i]).0, lists@[i].1),
        ensures
            r.doc_count == doc_total(lists@, lists@.len() as int),
            r.blocks@.len() == block_total(lists@, lists@.len() as int),
            forall|i: int|
                0 <= i < lists@.len() ==> moved_in(
                    r.blocks@,
                    block_total(lists@, i),
                    (#[trigger] lists@[i]).0,
                    lists@[i].1,
                ),
    {
        let mut blocks: Vec<SparseBlock> = Vec::new();
        let mut doc_count: u32 = 0;
        let mut i: usize = 0;
        while i < lists.len()
            invariant
                i <= lists@.len(),
                doc_total(lists@, lists@.len() as int) <= u32::MAX,
                forall|k: int|
                    0 <= k < lists@.len() ==> movable((#[trigger] lists@[k]).0, lists@[k].1),
                doc_count == doc_total(lists@, i as int),
                blocks@.len() == block_total(lists@, i as int),
                forall|k: int|
                    0 <= k < i ==> moved_in(
                        blocks@,
                        block_total(lists@, k),
                        (#[trigger] lists@[k]).0,
                        lists@[k].1,
                    ),
            decreases lists@.len() - i,
        {
            let (list, offset): (&BlockSparsePostingList, u32) = lists[i];
            let ghost before = blocks@;
            proof {
                doc_total_grows(lists@, i + 1, lists@.len() as int);
                assert(lists@[i as int].0 == list);
            }
            push_moved(list, offset, &mut blocks);
            proof {
                assert forall|k: int| 0 <= k < i + 1 implies moved_in(
                    blocks@,
                    block_total(lists@, k),
                    (#[trigger] lists@[k]).0,
                    lists@[k].1,
                ) by {
                    if k < i {
                        block_total_grows(lists@, k + 1, i as int);
                        assert forall|j: int| 0 <= j < lists@[k].0.blocks@.len() implies blocks@[
                        block_total(lists@, k) + j].is_moved(
                            #[trigger] &lists@[k].0.blocks@[j],
                            lists@[k].1,
                        ) by {
                            block_total_grows(lists@, 0, k);
                            assert(blocks@[block_total(lists@, k) + j] == before[block_total(
                                lists@,
                                k,
                            ) + j]);
                        }
                    }
                }
            }
            doc_count = doc_count + list.doc_count;
            i = i + 1;
        }
        BlockSparsePostingList { doc_count, blocks }
    }
}

proof fn block_total_grows(lists: Seq<(&BlockSparsePostingList, u32)>, i: int, n: int)
    requires
        0 <= i <= n,
    ensures
        0 <= block_total(lists, i) <= block_total(lists, n),
    decreases n,
{
    if i < n {
        block_total_grows(lists, i, n - 1);
    } else if i > 0 {
        block_total_grows(lists, i - 1, i - 1);
    }
}

fn push_moved(list: &BlockSparsePostingList, offset: u32, blocks: &mut Vec<SparseBlock>)
    requires
        movable(list, offset),
    ensures
        final(blocks)@.len() == old(blocks)@.len() + list.blocks@.len(),
        forall|k: int| 0 <= k < old(blocks)@.len() ==> final(blocks)@[k] == old(blocks)@[k],
        moved_in(final(blocks)@, old(blocks)@.len() as int, list, offset),
{
    let ghost start = blocks@;
    let mut j: usize = 0;
    while j < list.blocks.len()
        invariant
            j <= list.blocks@.len(),
            movable(list, offset),
            blocks@.len() == start.len() + j,
            forall|k: int| 0 <= k < start.len() ==> blocks@[k] == start[k],
            forall|k: int|
                0 <= k < j ==> blocks@[start.len() + k].is_moved(
                    #[trigger] &list.blocks@[k],
                    offset,
                ),
        decreases list.blocks@.len() - j,
    {
        let ghost before = blocks@;
        blocks.push(list.blocks[j].with_doc_offset(offset));
        proof {
            assert forall|k: int| 0 <= k < j + 1 implies blocks@[start.len() + k].is_moved(
                #[trigger] &list.blocks@[k],
                offset,
            ) by {
                if k < j {
                    assert(blocks@[start.len() + k] == before[start.len() + k]);
                }
            }
        }
        j = j + 1;
    }
}

/// A stored list is read back block by block: no entry refuses, and at each
/// stands its block.
pub proof fn sparse_list_roundtrip(list: &BlockSparsePostingList, i: int)
    requires
        list.wf(),
        all_storable(list.blocks@),
        bytes::joined(block_parts(list.blocks@)).len() <= u64::MAX,
        0 <= i < list.blocks@.len(),
    ensures
        ({
            let data = bytes::joined(block_parts(list.blocks@));
            let e = entries_of(list.blocks@)[i];
            &&& entry_refusal(data, e) is None
            &&& sparse_block::block_is_at(
                &list.blocks@[i],
                data.subrange(e.offset as int, e.offset + e.length),
            )
        }),
{
    broadcast use bytes::group_word_sizes;

    let parts = block_parts(list.blocks@);
    let data = bytes::joined(parts);
    let e = entries_of(list.blocks@)[i];
    let block = &list.blocks@[i];
    assert(list.blocks@[i].storable() && list.blocks@[i].wf());
    bytes::joined_position(parts, i);
    bytes::joined_len_monotone(parts, 0, i);
    bytes::joined_len_monotone(parts, i + 1, parts.len() as int);
    assert(block.stored().len() <= 24 + 3 * 0xFFFF);
    assert(data.subrange(e.offset as int, e.offset + e.length) == parts[i]);
    sparse_block::sparse_block_roundtrip(block, Seq::empty());
    assert(block.stored() + Seq::<u8>::empty() =~= block.stored());
}

/// Blocks read from the same bytes have the same postings.
pub proof fn same_bytes_same_rows(a: &SparseBlock, b: &SparseBlock, data: Seq<u8>)
    requires
        a.wf(),
        b.wf(),
        sparse_block::block_is_at(a, data),
        sparse_block::block_is_at(b, data),
    ensures
        a.rows() == b.rows(),
        a.last_doc_id == b.last_doc_id,
        a.header == b.header,
{
    assert(a.header.weight_quant == b.header.weight_quant);
    assert(a.rows() =~= b.rows());
}

/// The postings of a list with every document moved up.
pub open spec fn moved_list(rows: Seq<SparseRow>, offset: u32) -> Seq<SparseRow> {
    Seq::new(rows.len(), |i: int| ((rows[i].0 + offset) as u32, rows[i].1, rows[i].2))
}

/// The postings of the first `n` lists, each moved up, one after the other.
pub open spec fn merged_rows(lists: Seq<(&BlockSparsePostingList, u32)>, n: int) -> Seq<SparseRow>
    decreases n,
{
    if n <= 0 {
        Seq::empty()
    } else {
        merged_rows(lists, n - 1) + moved_list(lists[n - 1].0.rows(), lists[n - 1].1)
    }
}

/// A merged list has the postings of its lists, one after the other, with
/// every document moved up.
pub proof fn merge_keeps_rows(
    lists: Seq<(&BlockSparsePostingList, u32)>,
    merged: &BlockSparsePostingList,
)
    requires
        forall|i: int|
            0 <= i < lists.len() ==> (#[trigger] lists[i]).0.wf() && movable(
                lists[i].0,
                lists[i].1,
            ),
        merged.blocks@.len() == block_total(lists, lists.len() as int),
        forall|i: int|
            0 <= i < lists.len() ==> moved_in(
                merged.blocks@,
                block_total(lists, i),
                (#[trigger] lists[i]).0,
                lists[i].1,
            ),
    ensures
        merged.wf(),
        merged.rows() == merged_rows(lists, lists.len() as int),
{
    lists_read(lists, merged.blocks@, lists.len() as int);
    assert forall|b: int| 0 <= b < merged.blocks@.len() implies (
    #[trigger] merged.blocks@[b]).wf() by {
        let i = owner(lists, b, lists.len() as int);
        let j = b - block_total(lists, i);
        let of = &lists[i].0.blocks@[j];
        assert(lists[i].0.blocks@[j].wf());
        assert(merged.blocks@[block_total(lists, i) + j].is_moved(of, lists[i].1));
        sparse_block::moved_rows(&merged.blocks@[b], of, lists[i].1);
    }
}

/// The list that block `b` comes from.
proof fn owner(lists: Seq<(&BlockSparsePostingList, u32)>, b: int, n: int) -> (i: int)
    requires
        0 <= b < block_total(lists, n),
        0 <= n <= lists.len(),
    ensures
        0 <= i < n,
        block_total(lists, i) <= b < block_total(lists, i + 1),
    decreases n,
{
    if b >= block_total(lists, n - 1) {
        n - 1
    } else {
        owner(lists, b, n - 1)
    }
}

proof fn lists_read(lists: Seq<(&BlockSparsePostingList, u32)>, blocks: Seq<SparseBlock>, n: int)
    requires
        0 <= n <= lists.len(),
        forall|i: int|
            0 <= i < lists.len() ==> (#[trigger] lists[i]).0.wf() && movable(
                lists[i].0,
                lists[i].1,
            ),
        forall|i: int|
            0 <= i < lists.len() ==> moved_in(
                blocks,
                block_total(lists, i),
                (#[trigger] lists[i]).0,
                lists[i].1,
            ),
    ensures
        sparse_list::rows_of(blocks, block_total(lists, n)) == merged_rows(lists, n),
    decreases n,
{
    if n > 0 {
        lists_read(lists, blocks, n - 1);
        let list = lists[n - 1].0;
        let offset = lists[n - 1].1;
        block_total_grows(lists, 0, n - 1);
        list_reads(
            list,
            offset,
            blocks,
            block_total(lists, n - 1),
            list.blocks@.len() as int,
        );
    }
}

proof fn list_reads(
    list: &BlockSparsePostingList,
    offset: u32,
    blocks: Seq<SparseBlock>,
    at: int,
    n: int,
)
    requires
        list.wf(),
        movable(list, offset),
        at >= 0,
        0 <= n <= list.blocks@.len(),
        moved_in(blocks, at, list, offset),
    ensures
        sparse_list::rows_of(blocks, at + n) == sparse_list::rows_of(blocks, at) + moved_list(
            sparse_list::rows_of(list.blocks@, n),
            offset,
        ),
    decreases n,
{
    let base = sparse_list::rows_of(blocks, at);
    if n > 0 {
        list_reads(list, offset, blocks, at, n - 1);
        let of = &list.blocks@[n - 1];
        assert(list.blocks@[n - 1].wf());
        assert(blocks[at + (n - 1)].is_moved(of, offset));
        sparse_block::moved_rows(&blocks[at + n - 1], of, offset);
        let before = sparse_list::rows_of(list.blocks@, n - 1);
        assert(moved_list(before + of.rows(), offset) =~= moved_list(before, offset) + moved_list(
            of.rows(),
            offset,
        ));
        assert(blocks[at + n - 1].rows() =~= moved_list(of.rows(), offset));
        assert(sparse_list::rows_of(blocks, at + n) =~= base + moved_list(
            sparse_list::rows_of(list.blocks@, n),
            offset,
        ));
    } else {
        assert(base =~= base + moved_list(Seq::empty(), offset));
    }
}

} // verus!
