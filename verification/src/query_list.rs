//! A stored list that is opened by its footer alone.
//!
//! What is inside the sections is trusted: a block is looked at when it is
//! decoded, and one that cannot be decoded is remembered, while the others
//! stay usable.
use crate::block;
use crate::block::PostingBlock;
use crate::bytes;
use crate::codec;
use crate::codec::PostingCodec;
use crate::deferred::PostingIntegrity;
use crate::error::PostingError;
use crate::footer;
use crate::footer::Footer;
use crate::list;
use crate::list::BlockPostingList;
use crate::list_read;
use crate::pack;
use vstd::prelude::*;

verus! {

/// Whether block `i` lies in the stream, header and all.
pub open spec fn placed(raw: Seq<u8>, f: Footer, i: int) -> bool {
    list_read::start_at(raw, f, i) + list::header_len(f.compact_headers) <= list_read::end_at(
        raw,
        f,
        i,
    ) <= f.stream_len
}

/// Whether `b` is what is stored of block `i`. A full header has a first
/// document of its own.
pub open spec fn is_stored_at(b: PostingBlock, raw: Seq<u8>, f: Footer, i: int) -> bool {
    let s = list_read::stored_block(raw, f, i);
    let d = list_read::descriptor_at(raw, f, i);
    &&& b.last == list_read::last_at(raw, f, i)
    &&& b.bounds == bytes::u32_at(raw, f.stream_len + 16 * i + 12)
    &&& if f.compact_headers {
        &&& b.first == list_read::first_at(raw, f, i)
        &&& b.count == bytes::u16_at(d, 0)
        &&& b.doc_bits == d[2]
        &&& b.tf_bits == d[3]
        &&& b.payload@ == s
    } else {
        &&& b.first == bytes::u32_at(s, 2)
        &&& b.count == bytes::u16_at(s, 0)
        &&& b.doc_bits == s[6]
        &&& b.tf_bits == s[7]
        &&& b.payload@ == s.skip(8)
    }
}

/// Blocks with the same parts hold the same documents.
pub proof fn same_docs(a: PostingBlock, b: PostingBlock)
    requires
        a.first == b.first,
        a.count == b.count,
        a.doc_bits == b.doc_bits,
        a.payload@ == b.payload@,
    ensures
        a.docs() == b.docs(),
{
    assert forall|i: int| 0 <= i < a.count implies a.doc_sum(i) == b.doc_sum(i) by {
        same_sum(a, b, i);
    }
    assert(a.docs() =~= b.docs());
}

proof fn same_sum(a: PostingBlock, b: PostingBlock, i: int)
    requires
        a.first == b.first,
        a.count == b.count,
        a.doc_bits == b.doc_bits,
        a.payload@ == b.payload@,
    ensures
        a.doc_sum(i) == b.doc_sum(i),
    decreases i,
{
    if i > 0 {
        same_sum(a, b, i - 1);
    }
}

/// A stored list whose content is trusted, or checked as blocks are decoded.
#[derive(Debug)]
pub struct QueryPostingList {
    pub bytes: Vec<u8>,
    pub footer: Footer,
    /// Whether decoded documents are held against the directory.
    pub verify_content: bool,
}

impl QueryPostingList {
    /// The stored list.
    pub open spec fn raw(&self) -> Seq<u8> {
        self.bytes@
    }

    /// Its footer.
    pub open spec fn tail(&self) -> Footer {
        self.footer
    }

    /// Whether the footer is that of the list.
    pub open spec fn wf(&self) -> bool {
        footer::parse_tail_spec(self.raw(), self.raw().len() as int) == Ok::<Footer, PostingError>(
            self.tail(),
        )
    }

    /// Whether the documents of a block are right for entry `i`.
    pub open spec fn content_ok(&self, b: PostingBlock, i: int) -> bool {
        &&& b.first_gap_is_zero()
        &&& block::docs_valid(
            b.docs(),
            list_read::first_at(self.raw(), self.tail(), i),
            list_read::last_at(self.raw(), self.tail(), i),
        )
    }

    /// Whether `b` is block `i` and its documents can be read: it lies in the
    /// stream, its count and width are in range and its gaps are there. Where
    /// content is verified, its documents are right too.
    pub open spec fn holds(&self, i: int, b: PostingBlock) -> bool {
        &&& 0 <= i < self.tail().l0_count
        &&& placed(self.raw(), self.tail(), i)
        &&& is_stored_at(b, self.raw(), self.tail(), i)
        &&& b.docs_fit()
        &&& self.verify_content ==> self.content_ok(b, i)
    }

    /// Whether the documents of block `i` can be read.
    pub open spec fn decodes(&self, i: int) -> bool {
        exists|b: PostingBlock| #[trigger] self.holds(i, b)
    }

    pub(crate) fn new(bytes: Vec<u8>, footer: Footer) -> (r: Self)
        requires
            footer::parse_tail_spec(bytes@, bytes@.len() as int) == Ok::<Footer, PostingError>(
                footer,
            ),
        ensures
            r.wf(),
            r.raw() == bytes@,
            r.tail() == footer,
            !r.verify_content,
    {
        QueryPostingList { bytes, footer, verify_content: false }
    }

    /// The sections lie in the list.
    proof fn extent(&self)
        requires
            self.wf(),
        ensures
            self.tail().ratios_end_spec() <= self.raw().len() <= usize::MAX,
            self.tail().stream_len <= self.tail().l0_end_spec() <= self.tail().l1_start_spec()
                <= self.tail().ratios_end_spec(),
            self.tail().l0_end_spec() == self.tail().stream_len + 16 * self.tail().l0_count,
    {
        list_read::parsed_extent(self.bytes@);
        self.footer.sections_in_order();
        assert(self.bytes.len() == self.bytes@.len());
    }

    /// The bytes that the list was opened from.
    pub fn as_bytes(&self) -> (r: &[u8])
        ensures
            r@ == self.raw(),
    {
        self.bytes.as_slice()
    }

    /// Number of postings.
    pub fn doc_count(&self) -> (r: u32)
        ensures
            r == self.tail().doc_count,
    {
        self.footer.doc_count
    }

    /// Number of blocks.
    pub fn num_blocks(&self) -> (r: usize)
        ensures
            r == self.tail().l0_count,
    {
        self.footer.l0_count
    }

    /// First document of a block, by the directory.
    pub fn block_first_doc(&self, block_idx: usize) -> (r: Option<u32>)
        requires
            self.wf(),
        ensures
            r == (if block_idx < self.tail().l0_count {
                Some(list_read::first_at(self.raw(), self.tail(), block_idx as int))
            } else {
                None
            }),
    {
        if block_idx >= self.footer.l0_count {
            return None;
        }
        proof {
            self.extent();
        }
        Some(bytes::get_u32(self.bytes.as_slice(), self.footer.stream_len + 16 * block_idx))
    }

    /// Last document of a block, by the directory.
    pub fn block_last_doc(&self, block_idx: usize) -> (r: Option<u32>)
        requires
            self.wf(),
        ensures
            r == (if block_idx < self.tail().l0_count {
                Some(list_read::last_at(self.raw(), self.tail(), block_idx as int))
            } else {
                None
            }),
    {
        if block_idx >= self.footer.l0_count {
            return None;
        }
        proof {
            self.extent();
        }
        Some(bytes::get_u32(self.bytes.as_slice(), self.footer.stream_len + 16 * block_idx + 4))
    }

    /// Values in the position stream before a block, where that is stored.
    pub fn pos_cursor(&self, block_idx: usize) -> (r: Option<u64>)
        requires
            self.wf(),
        ensures
            r == (if block_idx < self.tail().l0_count && self.tail().has_cursors {
                Some(list_read::cursor_at(self.raw(), self.tail(), block_idx as int))
            } else {
                None
            }),
    {
        if block_idx >= self.footer.l0_count || !self.footer.has_cursors {
            return None;
        }
        proof {
            self.extent();
            list_read::parsed_extent(self.bytes@);
        }
        Some(list_read::read_cursor(self.bytes.as_slice(), &self.footer, block_idx))
    }

    /// Take block `i` out of the stream, if it lies there.
    fn stored_parts(&self, i: usize) -> (r: Option<PostingBlock>)
        requires
            self.wf(),
            i < self.tail().l0_count,
        ensures
            r is Some <==> placed(self.raw(), self.tail(), i as int),
            r matches Some(b) ==> is_stored_at(b, self.raw(), self.tail(), i as int),
    {
        proof {
            self.extent();
        }
        let f = &self.footer;
        let raw = self.bytes.as_slice();
        let at: usize = f.stream_len + 16 * i;
        let first: u32 = bytes::get_u32(raw, at);
        let last: u32 = bytes::get_u32(raw, at + 4);
        let start: usize = bytes::get_u32(raw, at + 8) as usize;
        let bounds: u32 = bytes::get_u32(raw, at + 12);
        let end: usize = if i + 1 == f.l0_count {
            f.stream_len
        } else {
            bytes::get_u32(raw, at + 16 + 8) as usize
        };
        let header: usize = if f.compact_headers {
            0
        } else {
            8
        };
        if end > f.stream_len || start > end || end - start < header {
            return None;
        }
        if f.compact_headers {
            let d: usize = f.l0_end() + 4 * i;
            let descriptor = vstd::slice::slice_subrange(raw, d, d + 4);
            Some(
                PostingBlock {
                    first,
                    last,
                    bounds,
                    count: bytes::get_u16(descriptor, 0),
                    doc_bits: descriptor[2],
                    tf_bits: descriptor[3],
                    payload: bytes::copy_range(raw, start, end),
                },
            )
        } else {
            let s = vstd::slice::slice_subrange(raw, start, end);
            let payload = bytes::copy_range(s, 8, s.len());
            proof {
                assert(payload@ =~= s@.skip(8));
            }
            Some(
                PostingBlock {
                    first: bytes::get_u32(s, 2),
                    last,
                    bounds,
                    count: bytes::get_u16(s, 0),
                    doc_bits: s[6],
                    tf_bits: s[7],
                    payload,
                },
            )
        }
    }

    /// Take block `i`, if its documents can be read, and read them.
    pub(crate) fn load(&self, i: usize) -> (r: Option<(PostingBlock, Vec<u32>)>)
        requires
            self.wf(),
            i < self.tail().l0_count,
        ensures
            r is Some <==> self.decodes(i as int),
            r matches Some((b, docs)) ==> self.holds(i as int, b) && docs@ == b.docs(),
    {
        let b = match self.stored_parts(i) {
            Some(b) => b,
            None => {
                return None;
            },
        };
        proof {
            assert forall|c: PostingBlock| #[trigger] self.holds(i as int, c) implies b.docs_fit()
                && (self.verify_content ==> self.content_ok(b, i as int)) by {
                same_docs(b, c);
            }
        }
        if b.count == 0 || b.count > 128 || b.doc_bits % 64 > 32 || !gaps_fit(&b) {
            return None;
        }
        let docs = b.decode_docs();
        if self.verify_content {
            proof {
                self.extent();
            }
            let at: usize = self.footer.stream_len + 16 * i;
            let first: u32 = bytes::get_u32(self.bytes.as_slice(), at);
            let (c, w): (PostingCodec, u8) = b.parts();
            if c == PostingCodec::Simd4x && b.count == 128 {
                if pack::unpack_one(pack::Layout::Lanes, b.payload.as_slice(), w, 128, 0) != 0 {
                    return None;
                }
            }
            if !block::verify_block_docs(docs.as_slice(), first, b.last, None, None) {
                return None;
            }
        }
        proof {
            assert(self.holds(i as int, b));
        }
        Some((b, docs))
    }

    /// Where a block is addressed: its number under compact headers, else the
    /// start of its header in the stream.
    pub open spec fn handle(&self, i: int) -> int {
        if self.tail().compact_headers {
            i
        } else {
            list_read::start_at(self.raw(), self.tail(), i)
        }
    }

    /// Decode just the documents of a block, as they are stored. Gives where
    /// the block is addressed, where its frequencies start, and its posting
    /// count. A block that cannot be read leaves the buffer empty and is
    /// remembered.
    pub fn decode_block_doc_ids_only(
        &self,
        block_idx: usize,
        doc_ids: &mut Vec<u32>,
        integrity: &mut PostingIntegrity,
    ) -> (r: Option<(usize, usize, usize)>)
        requires
            self.wf(),
        ensures
            r is Some <==> self.decodes(block_idx as int),
            r matches Some((handle, tf_start, count)) ==> exists|b: PostingBlock|
                {
                    &&& #[trigger] self.holds(block_idx as int, b)
                    &&& handle == self.handle(block_idx as int)
                    &&& tf_start == list::header_len(self.tail().compact_headers) + b.gap_len()
                    &&& count == b.count
                    &&& final(doc_ids)@ == b.docs()
                },
            r is None && block_idx < self.tail().l0_count ==> final(doc_ids)@.len() == 0,
            block_idx >= self.tail().l0_count ==> final(doc_ids)@ == old(doc_ids)@,
            final(integrity).first_error == self.noted(*old(integrity), block_idx, r is Some),
    {
        if block_idx >= self.footer.l0_count {
            return None;
        }
        doc_ids.clear();
        match self.load(block_idx) {
            Some((b, mut docs)) => {
                doc_ids.append(&mut docs);
                proof {
                    assert(doc_ids@ =~= b.docs());
                    self.extent();
                    assert(b.payload@.len() == b.payload.len());
                }
                let gaps: usize = b.gap_bytes();
                if self.footer.compact_headers {
                    Some((block_idx, gaps, b.count as usize))
                } else {
                    let at: usize = self.footer.stream_len + 16 * block_idx + 8;
                    let start: usize = bytes::get_u32(self.bytes.as_slice(), at) as usize;
                    Some((start, 8 + gaps, b.count as usize))
                }
            },
            None => {
                integrity.record(block_idx);
                None
            },
        }
    }

    /// The first corrupt block, after block `i` was decoded or not.
    pub open spec fn noted(&self, before: PostingIntegrity, i: usize, decoded: bool) -> Option<
        usize,
    > {
        if decoded || i >= self.tail().l0_count {
            before.first_error
        } else {
            Some(
                match before.first_error {
                    Some(first) => first,
                    None => i,
                },
            )
        }
    }

    /// Whether the documents and the frequencies of block `i` can be read.
    pub open spec fn decodes_whole(&self, i: int) -> bool {
        exists|b: PostingBlock| #[trigger] self.holds(i, b) && b.tfs_fit()
    }

    /// Decode a block into two buffers. A block that cannot be read whole
    /// leaves the first empty and the second as it was, and is remembered.
    pub fn decode_block_into(
        &self,
        block_idx: usize,
        doc_ids: &mut Vec<u32>,
        tfs: &mut Vec<u32>,
        integrity: &mut PostingIntegrity,
    ) -> (r: bool)
        requires
            self.wf(),
        ensures
            r == self.decodes_whole(block_idx as int),
            r ==> exists|b: PostingBlock| #[trigger]
                self.holds(block_idx as int, b) && b.tfs_fit() && final(doc_ids)@ == b.docs()
                    && final(tfs)@ == b.tfs(),
            !r ==> final(tfs)@ == old(tfs)@,
            !r && block_idx < self.tail().l0_count ==> final(doc_ids)@.len() == 0,
            block_idx >= self.tail().l0_count ==> final(doc_ids)@ == old(doc_ids)@,
            final(integrity).first_error == self.noted(*old(integrity), block_idx, r),
    {
        if block_idx >= self.footer.l0_count {
            return false;
        }
        doc_ids.clear();
        match self.load(block_idx) {
            Some((b, mut docs)) => {
                if !tail_fits(&b) {
                    integrity.record(block_idx);
                    return false;
                }
                let mut values = b.decode_tfs();
                doc_ids.append(&mut docs);
                tfs.clear();
                tfs.append(&mut values);
                proof {
                    assert(doc_ids@ =~= b.docs());
                    assert(tfs@ =~= b.tfs());
                }
                true
            },
            None => {
                integrity.record(block_idx);
                false
            },
        }
    }

    /// The list with every section and block checked, for cursors.
    pub fn checked(self) -> (r: Result<BlockPostingList, PostingError>)
        ensures
            match (r, list_read::bytes_check(self.raw())) {
                (Ok(l), Ok(f)) => l.wf() && list_read::is_read(l, self.raw(), f),
                (Err(e), Err(refused)) => e == refused,
                _ => false,
            },
    {
        BlockPostingList::deserialize_zero_copy(self.bytes)
    }
}

/// Whether an array can be read from the start of some bytes.
fn fits(c: PostingCodec, input: &[u8], n: usize, w: u8) -> (r: bool)
    requires
        n <= 128,
    ensures
        r == codec::array_fits(c, input@, n as nat, w),
{
    if w > 32 || (c == PostingCodec::Rounded && !(w == 0 || w == 8 || w == 16 || w == 32)) {
        return false;
    }
    let low: usize = crate::bits::packed_bytes(n, w);
    if c == PostingCodec::Pfor {
        input.len() > 0 && 1 + low + 5 * (input[0] as usize) <= input.len()
    } else {
        low <= input.len()
    }
}

/// Whether the gap array of a block is there.
fn gaps_fit(b: &PostingBlock) -> (r: bool)
    requires
        1 <= b.count <= 128,
        b.doc_width() <= 32,
    ensures
        r == b.docs_fit(),
{
    let (c, w): (PostingCodec, u8) = b.parts();
    let count: usize = b.count as usize;
    let n: usize = if c == PostingCodec::Simd4x && count == 128 {
        128
    } else {
        count - 1
    };
    n == 0 || fits(c, b.payload.as_slice(), n, w)
}

/// Whether the frequencies of a block are there.
pub(crate) fn tail_fits(b: &PostingBlock) -> (r: bool)
    requires
        b.docs_fit(),
    ensures
        r == b.tfs_fit(),
{
    let (c, _w): (PostingCodec, u8) = b.parts();
    let from: usize = b.gap_bytes();
    if from > b.payload.len() {
        return false;
    }
    let rest = vstd::slice::slice_subrange(b.payload.as_slice(), from, b.payload.len());
    proof {
        assert(rest@ =~= b.payload@.skip(from as int));
    }
    fits(c, rest, b.count as usize, b.tf_bits)
}

} // verus!
