//! Stored lists of packed blocks.
use crate::bp128::BP128Block;
use crate::bp128_list::BP128PostingList;
use crate::bytes;
use vstd::prelude::*;

verus! {

/// Bytes of a list before its blocks.
pub const LIST_HEADER: usize = 12;

impl<const VERTICAL: bool> BP128Block<VERTICAL> {
    /// The fixed part of the stored block.
    pub open spec fn header(&self) -> Seq<u8> {
        bytes::le32(self.first_doc_id) + bytes::le32(self.last_doc_id) + bytes::le16(self.num_docs)
            + seq![self.doc_bit_width, self.tf_bit_width] + bytes::le32(self.max_tf) + bytes::le32(
            self.max_block_score,
        )
    }

    /// The stored block.
    pub open spec fn stored(&self) -> Seq<u8> {
        self.header() + bytes::le16(self.doc_data@.len() as u16) + self.doc_data@ + bytes::le16(
            self.tf_data@.len() as u16,
        ) + self.tf_data@
    }

    /// Whether the packed forms have lengths that can be stored.
    pub open spec fn storable(&self) -> bool {
        self.doc_data@.len() <= 0xFFFF && self.tf_data@.len() <= 0xFFFF
    }

    /// Append the stored block.
    pub fn serialize(&self, out: &mut Vec<u8>)
        requires
            self.storable(),
        ensures
            final(out)@ == old(out)@ + self.stored(),
    {
        let ghost before = out@;
        bytes::put_u32(out, self.first_doc_id);
        bytes::put_u32(out, self.last_doc_id);
        bytes::put_u16(out, self.num_docs);
        out.push(self.doc_bit_width);
        out.push(self.tf_bit_width);
        bytes::put_u32(out, self.max_tf);
        bytes::put_u32(out, self.max_block_score);
        proof {
            assert(out@ =~= before + self.header());
        }
        bytes::put_u16(out, self.doc_data.len() as u16);
        bytes::put_slice(out, self.doc_data.as_slice());
        bytes::put_u16(out, self.tf_data.len() as u16);
        bytes::put_slice(out, self.tf_data.as_slice());
        proof {
            assert(out@ =~= before + self.stored());
        }
    }

    /// Whether this is the block stored at byte `at`.
    pub open spec fn is_at(&self, b: Seq<u8>, at: int) -> bool {
        let d = bytes::u16_at(b, at + 20) as int;
        let t = bytes::u16_at(b, at + 22 + d) as int;
        &&& self.first_doc_id == bytes::u32_at(b, at)
        &&& self.last_doc_id == bytes::u32_at(b, at + 4)
        &&& self.num_docs == bytes::u16_at(b, at + 8)
        &&& self.doc_bit_width == b[at + 10]
        &&& self.tf_bit_width == b[at + 11]
        &&& self.max_tf == bytes::u32_at(b, at + 12)
        &&& self.max_block_score == bytes::u32_at(b, at + 16)
        &&& self.doc_data@ == b.subrange(at + 22, at + 22 + d)
        &&& self.tf_data@ == b.subrange(at + 24 + d, at + 24 + d + t)
    }

    /// Read the block at byte `at`. Gives it and where it ends, or nothing if
    /// it is cut off.
    pub fn deserialize(b: &[u8], at: usize) -> (r: Option<(Self, usize)>)
        ensures
            match (r, block_end(b@, at as int)) {
                (Some((block, end)), Some(stop)) => end == stop && block.is_at(b@, at as int),
                (None, None) => true,
                _ => false,
            },
    {
        if at > b.len() || b.len() - at < 22 {
            return None;
        }
        let d: usize = bytes::get_u16(b, at + 20) as usize;
        if b.len() - at - 22 < d || b.len() - at - 22 - d < 2 {
            return None;
        }
        let t: usize = bytes::get_u16(b, at + 22 + d) as usize;
        if b.len() - at - 24 - d < t {
            return None;
        }
        let block: BP128Block<VERTICAL> = BP128Block {
            doc_data: bytes::copy_range(b, at + 22, at + 22 + d),
            doc_bit_width: b[at + 10],
            tf_data: bytes::copy_range(b, at + 24 + d, at + 24 + d + t),
            tf_bit_width: b[at + 11],
            first_doc_id: bytes::get_u32(b, at),
            last_doc_id: bytes::get_u32(b, at + 4),
            num_docs: bytes::get_u16(b, at + 8),
            max_tf: bytes::get_u32(b, at + 12),
            max_block_score: bytes::get_u32(b, at + 16),
        };
        Some((block, at + 24 + d + t))
    }
}

/// Where the block stored at byte `at` ends, if it is all there.
pub open spec fn block_end(b: Seq<u8>, at: int) -> Option<int> {
    let d = bytes::u16_at(b, at + 20) as int;
    let t = bytes::u16_at(b, at + 22 + d) as int;
    if at + 22 > b.len() || at + 24 + d > b.len() || at + 24 + d + t > b.len() {
        None
    } else {
        Some(at + 24 + d + t)
    }
}

/// Where the first `n` blocks of a stored list end, if they are all there.
pub open spec fn blocks_end(b: Seq<u8>, n: int) -> Option<int>
    decreases n,
{
    if n <= 0 {
        Some(12)
    } else {
        match blocks_end(b, n - 1) {
            None => None,
            Some(at) => block_end(b, at),
        }
    }
}

/// The blocks as parts of the stored list.
pub open spec fn block_parts<const VERTICAL: bool>(blocks: Seq<BP128Block<VERTICAL>>) -> Seq<
    Seq<u8>,
> {
    Seq::new(blocks.len(), |i: int| blocks[i].stored())
}

impl<const VERTICAL: bool> BP128PostingList<VERTICAL> {
    /// The stored list.
    pub open spec fn stored(&self) -> Seq<u8> {
        bytes::le32(self.doc_count) + bytes::le32(self.max_score) + bytes::le32(
            self.blocks@.len() as u32,
        ) + bytes::joined(block_parts(self.blocks@))
    }

    /// Whether the list can be stored.
    pub open spec fn storable(&self) -> bool {
        &&& self.blocks@.len() <= u32::MAX
        &&& forall|i: int| 0 <= i < self.blocks@.len() ==> (#[trigger] self.blocks@[i]).storable()
    }

    /// Append the stored list.
    pub fn serialize(&self, out: &mut Vec<u8>)
        requires
            self.storable(),
        ensures
            final(out)@ == old(out)@ + self.stored(),
    {
        let ghost start = out@;
        let ghost parts = block_parts(self.blocks@);
        bytes::put_u32(out, self.doc_count);
        bytes::put_u32(out, self.max_score);
        bytes::put_u32(out, self.blocks.len() as u32);
        let ghost head = out@;
        let mut i: usize = 0;
        proof {
            assert(head + bytes::joined(parts.take(0)) =~= head);
        }
        while i < self.blocks.len()
            invariant
                i <= self.blocks@.len(),
                self.storable(),
                parts == block_parts(self.blocks@),
                out@ == head + bytes::joined(parts.take(i as int)),
            decreases self.blocks@.len() - i,
        {
            self.blocks[i].serialize(out);
            proof {
                assert(parts.take(i + 1).drop_last() =~= parts.take(i as int));
                assert(out@ =~= head + bytes::joined(parts.take(i + 1)));
            }
            i = i + 1;
        }
        proof {
            assert(parts.take(parts.len() as int) =~= parts);
            assert(out@ =~= start + self.stored());
        }
    }

    /// Whether this is the list stored at the start of `b`.
    pub open spec fn is_at_start(&self, b: Seq<u8>) -> bool {
        &&& self.doc_count == bytes::u32_at(b, 0)
        &&& self.max_score == bytes::u32_at(b, 4)
        &&& self.blocks@.len() == bytes::u32_at(b, 8)
        &&& forall|i: int|
            0 <= i < self.blocks@.len() ==> (#[trigger] self.blocks@[i]).is_at(
                b,
                blocks_end(b, i)->Some_0,
            )
    }

    /// Read a stored list from the start of `b`. Gives it and its size, or
    /// nothing if it is cut off.
    pub fn deserialize(b: &[u8]) -> (r: Option<(Self, usize)>)
        ensures
            r is Some <==> b.len() >= 12 && blocks_end(
                b@,
                bytes::u32_at(b@, 8) as int,
            ) is Some,
            r matches Some((l, n)) ==> l.is_at_start(b@) && blocks_end(
                b@,
                bytes::u32_at(b@, 8) as int,
            ) == Some(n as int),
    {
        if b.len() < LIST_HEADER {
            return None;
        }
        let count: u32 = bytes::get_u32(b, 8);
        let mut blocks: Vec<BP128Block<VERTICAL>> = Vec::new();
        let mut at: usize = LIST_HEADER;
        let mut i: u32 = 0;
        while i < count
            invariant
                i <= count,
                blocks@.len() == i,
                blocks_end(b@, i as int) == Some(at as int),
                count == bytes::u32_at(b@, 8),
                forall|k: int|
                    0 <= k < i ==> (#[trigger] blocks@[k]).is_at(b@, blocks_end(b@, k)->Some_0),
            decreases count - i,
        {
            proof {
                if blocks_end(b@, i + 1) is None {
                    end_stays(b@, i + 1, count as int);
                }
            }
            match BP128Block::<VERTICAL>::deserialize(b, at) {
                Some((block, end)) => {
                    blocks.push(block);
                    at = end;
                },
                None => {
                    return None;
                },
            }
            i = i + 1;
        }
        let l: BP128PostingList<VERTICAL> = BP128PostingList {
            blocks,
            doc_count: bytes::get_u32(b, 0),
            max_score: bytes::get_u32(b, 4),
        };
        Some((l, at))
    }

    /// Approximate size in bytes.
    pub fn size_bytes(&self) -> (r: usize)
        requires
            self.approximate_size(self.blocks@.len() as int) <= usize::MAX,
        ensures
            r == self.approximate_size(self.blocks@.len() as int),
    {
        let mut size: usize = 12;
        let mut i: usize = 0;
        while i < self.blocks.len()
            invariant
                i <= self.blocks@.len(),
                size == self.approximate_size(i as int),
                self.approximate_size(self.blocks@.len() as int) <= usize::MAX,
            decreases self.blocks@.len() - i,
        {
            proof {
                self.size_grows(i + 1, self.blocks@.len() as int);
            }
            size = size + 22 + self.blocks[i].doc_data.len() + self.blocks[i].tf_data.len();
            i = i + 1;
        }
        size
    }

    /// Size of the first `n` blocks with headers.
    pub open spec fn approximate_size(&self, n: int) -> int
        decreases n,
    {
        if n <= 0 {
            12
        } else {
            self.approximate_size(n - 1) + 22 + self.blocks@[n - 1].doc_data@.len() + self.blocks@[n
                - 1].tf_data@.len()
        }
    }

    proof fn size_grows(&self, i: int, j: int)
        requires
            0 <= i <= j,
        ensures
            self.approximate_size(i) <= self.approximate_size(j),
        decreases j,
    {
        if i < j {
            self.size_grows(i, j - 1);
        }
    }
}

/// Blocks that are all there end inside the bytes.
pub proof fn end_inside(b: Seq<u8>, n: int)
    requires
        blocks_end(b, n) is Some,
        b.len() >= 12,
    ensures
        12 <= blocks_end(b, n)->Some_0 <= b.len(),
    decreases n,
{
    if n > 0 {
        end_inside(b, n - 1);
    }
}

proof fn end_stays(b: Seq<u8>, i: int, n: int)
    requires
        0 <= i <= n,
        blocks_end(b, i) is None,
    ensures
        blocks_end(b, n) is None,
    decreases n,
{
    if i < n {
        end_stays(b, i, n - 1);
    }
}

/// A stored block is read where it was written.
proof fn block_reads<const VERTICAL: bool>(x: BP128Block<VERTICAL>, b: Seq<u8>, at: int)
    requires
        x.storable(),
        0 <= at,
        at + x.stored().len() <= b.len(),
        b.subrange(at, at + x.stored().len()) == x.stored(),
    ensures
        x.stored().len() == 24 + x.doc_data@.len() + x.tf_data@.len(),
        block_end(b, at) == Some(at + x.stored().len()),
        x.is_at(b, at),
{
    broadcast use bytes::group_word_sizes;

    let s = x.stored();
    let h = x.header();
    let d = x.doc_data@.len() as int;
    let t = x.tf_data@.len() as int;
    assert(h.len() == 20);
    assert(s.len() == 24 + d + t);
    assert(s.subrange(0, 4) =~= bytes::le32(x.first_doc_id));
    assert(s.subrange(4, 8) =~= bytes::le32(x.last_doc_id));
    assert(s.subrange(8, 10) =~= bytes::le16(x.num_docs));
    assert(s.subrange(12, 16) =~= bytes::le32(x.max_tf));
    assert(s.subrange(16, 20) =~= bytes::le32(x.max_block_score));
    assert(s.subrange(20, 22) =~= bytes::le16(d as u16));
    assert(s.subrange(22, 22 + d) =~= x.doc_data@);
    assert(s.subrange(22 + d, 24 + d) =~= bytes::le16(t as u16));
    assert(s.subrange(24 + d, 24 + d + t) =~= x.tf_data@);
    words_read(s, b, at, 0, x.first_doc_id);
    words_read(s, b, at, 4, x.last_doc_id);
    words_read(s, b, at, 12, x.max_tf);
    words_read(s, b, at, 16, x.max_block_score);
    half_reads(s, b, at, 8, x.num_docs);
    half_reads(s, b, at, 20, d as u16);
    half_reads(s, b, at, 22 + d, t as u16);
    assert(b[at + 10] == s[10] && b[at + 11] == s[11]);
    assert(b.subrange(at + 22, at + 22 + d) =~= s.subrange(22, 22 + d));
    assert(b.subrange(at + 24 + d, at + 24 + d + t) =~= s.subrange(24 + d, 24 + d + t));
}

proof fn words_read(s: Seq<u8>, b: Seq<u8>, at: int, k: int, x: u32)
    requires
        0 <= at,
        at + s.len() <= b.len(),
        b.subrange(at, at + s.len()) == s,
        0 <= k,
        k + 4 <= s.len(),
        s.subrange(k, k + 4) == bytes::le32(x),
    ensures
        bytes::u32_at(b, at + k) == x,
{
    broadcast use bytes::group_word_sizes;

    bytes::le32_roundtrip(x);
    bytes::section_u32(s, k, bytes::le32(x), 0);
    bytes::section_u32(b, at, s, k);
}

proof fn half_reads(s: Seq<u8>, b: Seq<u8>, at: int, k: int, x: u16)
    requires
        0 <= at,
        at + s.len() <= b.len(),
        b.subrange(at, at + s.len()) == s,
        0 <= k,
        k + 2 <= s.len(),
        s.subrange(k, k + 2) == bytes::le16(x),
    ensures
        bytes::u16_at(b, at + k) == x,
{
    bytes::le16_roundtrip(x);
    assert(s[k] == s.subrange(k, k + 2)[0]);
    assert(s[k + 1] == s.subrange(k, k + 2)[1]);
    assert(b[at + k] == b.subrange(at, at + s.len())[k]);
    assert(b[at + k + 1] == b.subrange(at, at + s.len())[k + 1]);
}

/// A stored list, whatever follows it, is read back as it was: the reader
/// accepts it, and what it finds is the list.
pub proof fn list_roundtrip<const VERTICAL: bool>(l: BP128PostingList<VERTICAL>, after: Seq<u8>)
    requires
        l.storable(),
    ensures
        ({
            let b = l.stored() + after;
            &&& b.len() >= 12
            &&& blocks_end(b, bytes::u32_at(b, 8) as int) == Some(l.stored().len() as int)
            &&& l.is_at_start(b)
        }),
{
    broadcast use bytes::group_word_sizes;

    let b = l.stored() + after;
    let s = l.stored();
    let parts = block_parts(l.blocks@);
    let n = l.blocks@.len() as int;
    let all = bytes::joined(parts);
    assert(s.subrange(0, 4) =~= bytes::le32(l.doc_count));
    assert(s.subrange(4, 8) =~= bytes::le32(l.max_score));
    assert(s.subrange(8, 12) =~= bytes::le32(n as u32));
    assert(b.subrange(0, s.len() as int) =~= s);
    words_read(s, b, 0, 0, l.doc_count);
    words_read(s, b, 0, 4, l.max_score);
    words_read(s, b, 0, 8, n as u32);
    assert(b.subrange(12, (12 + all.len()) as int) =~= all);
    bytes::joined_position(parts, n);
    blocks_read(l.blocks@, b, n);
    assert forall|i: int| 0 <= i < n implies (#[trigger] l.blocks@[i]).is_at(
        b,
        blocks_end(b, i)->Some_0,
    ) by {
        blocks_read(l.blocks@, b, i);
        block_at(l.blocks@, b, i);
    }
}

proof fn block_at<const VERTICAL: bool>(blocks: Seq<BP128Block<VERTICAL>>, b: Seq<u8>, i: int)
    requires
        forall|k: int| 0 <= k < blocks.len() ==> (#[trigger] blocks[k]).storable(),
        0 <= i < blocks.len(),
        12 + bytes::joined(block_parts(blocks)).len() <= b.len(),
        b.subrange(12, (12 + bytes::joined(block_parts(blocks)).len()) as int) == bytes::joined(
            block_parts(blocks),
        ),
    ensures
        ({
            let at = 12 + bytes::joined_len(block_parts(blocks), i);
            &&& block_end(b, at) == Some(12 + bytes::joined_len(block_parts(blocks), i + 1))
            &&& blocks[i].is_at(b, at)
        }),
{
    let parts = block_parts(blocks);
    let all = bytes::joined(parts);
    let from = bytes::joined_len(parts, i);
    let to = bytes::joined_len(parts, i + 1);
    bytes::joined_position(parts, i);
    bytes::joined_len_monotone(parts, 0, i);
    bytes::joined_len_monotone(parts, i + 1, blocks.len() as int);
    assert(all.subrange(from, to) == parts[i]);
    assert(b.subrange(12 + from, 12 + to) =~= all.subrange(from, to));
    assert(parts[i] == blocks[i].stored());
    block_reads(blocks[i], b, 12 + from);
}

proof fn blocks_read<const VERTICAL: bool>(blocks: Seq<BP128Block<VERTICAL>>, b: Seq<u8>, n: int)
    requires
        forall|k: int| 0 <= k < blocks.len() ==> (#[trigger] blocks[k]).storable(),
        0 <= n <= blocks.len(),
        12 + bytes::joined(block_parts(blocks)).len() <= b.len(),
        b.subrange(12, (12 + bytes::joined(block_parts(blocks)).len()) as int) == bytes::joined(
            block_parts(blocks),
        ),
    ensures
        blocks_end(b, n) == Some(12 + bytes::joined_len(block_parts(blocks), n)),
    decreases n,
{
    if n > 0 {
        blocks_read(blocks, b, n - 1);
        block_at(blocks, b, n - 1);
    }
}

} // verus!
