//! A cursor over a block posting list, with skips.
//!
//! Documents and term frequencies have decode buffers of their own. Moving
//! through documents decodes no frequency: only scoring and position reads do.
use crate::block;
use crate::block::PostingBlock;
use crate::block::TERMINATED;
use crate::codec::BLOCK_SIZE;
use crate::cursor;
use crate::cursor::Position;
use crate::list;
use crate::list::BlockPostingList;
use crate::list_query;
use crate::posting;
use crate::posting::Posting;
use vstd::prelude::*;

verus! {

/// A list that an iterator borrows or owns.
pub enum ListRef<'a> {
    Borrowed(&'a BlockPostingList),
    Owned(BlockPostingList),
}

impl<'a> ListRef<'a> {
    pub open spec fn list(&self) -> BlockPostingList {
        match self {
            ListRef::Borrowed(l) => **l,
            ListRef::Owned(l) => *l,
        }
    }

    pub fn get(&self) -> (r: &BlockPostingList)
        ensures
            *r == self.list(),
    {
        match self {
            ListRef::Borrowed(l) => l,
            ListRef::Owned(l) => l,
        }
    }
}

/// Decode storage handed from one probe to the next.
pub struct PostingDecodeScratch {
    pub doc_ids: Vec<u32>,
    pub term_freqs: Option<Vec<u32>>,
}

impl Default for PostingDecodeScratch {
    fn default() -> (r: Self)
        ensures
            r.doc_ids@.len() == 0,
            r.term_freqs is None,
    {
        PostingDecodeScratch { doc_ids: Vec::new(), term_freqs: None }
    }
}

/// Cursor over a block posting list. Only the current block is decoded.
pub struct BlockPostingIterator<'a> {
    pub block_list: ListRef<'a>,
    pub current_block: usize,
    pub block_doc_ids: Vec<u32>,
    /// Frequencies of the current block, decoded on demand.
    pub block_tfs: Option<Vec<u32>>,
    pub position_in_block: usize,
    /// Absolute position offsets of the current block, with the one past its
    /// end, computed on demand.
    pub position_offsets: Option<Vec<u64>>,
    pub block_position_cursor: u64,
    pub exhausted: bool,
}

impl<'a> BlockPostingIterator<'a> {
    pub open spec fn list(&self) -> BlockPostingList {
        self.block_list.list()
    }

    pub open spec fn blocks(&self) -> Seq<PostingBlock> {
        self.list().blocks@
    }

    /// Where the cursor stands.
    pub open spec fn at(&self) -> Position {
        if self.exhausted {
            None
        } else {
            Some((self.current_block as int, self.position_in_block as int))
        }
    }

    /// The postings from the cursor on.
    pub open spec fn rest(&self) -> Seq<Posting> {
        cursor::rest_at(self.blocks(), self.at())
    }

    /// Frequencies of the block that is decoded, if one is.
    pub open spec fn loaded_tfs(&self) -> Seq<u32> {
        if self.block_doc_ids@.len() == 0 {
            Seq::empty()
        } else {
            self.blocks()[self.current_block as int].tfs()
        }
    }

    /// Offset of the current posting's positions in the position stream.
    pub open spec fn position(&self) -> int {
        self.block_position_cursor + cursor::prefix_sum(
            self.loaded_tfs(),
            self.position_in_block as int,
        )
    }

    /// Offset past the last position of the decoded block.
    pub open spec fn block_end(&self) -> int {
        self.block_position_cursor + cursor::prefix_sum(
            self.loaded_tfs(),
            self.loaded_tfs().len() as int,
        )
    }

    /// What the buffers hold between calls.
    pub open spec fn wf(&self) -> bool {
        &&& self.list().wf()
        &&& self.position_in_block <= self.block_doc_ids@.len()
        &&& self.block_doc_ids@.len() > 0 ==> {
            &&& self.current_block < self.blocks().len()
            &&& self.blocks()[self.current_block as int].sound()
            &&& self.block_doc_ids@ == self.blocks()[self.current_block as int].docs()
            &&& self.block_position_cursor == (match self.list().cursors {
                Some(c) => c@[self.current_block as int],
                None => 0,
            })
        }
        &&& !self.exhausted ==> self.position_in_block < self.block_doc_ids@.len()
        &&& self.block_tfs matches Some(t) ==> t@ == self.loaded_tfs()
        &&& self.position_offsets matches Some(o) ==> {
            &&& o@.len() == self.loaded_tfs().len() + 1
            &&& forall|i: int|
                0 <= i < o@.len() ==> #[trigger] o@[i] == self.block_position_cursor
                    + cursor::prefix_sum(self.loaded_tfs(), i)
        }
    }

    /// What follows from the invariant.
    pub proof fn facts(&self)
        requires
            self.wf(),
        ensures
            list::blocks_ok(self.blocks()),
            cursor::valid_at(self.blocks(), self.at()),
            self.loaded_tfs().len() == self.block_doc_ids@.len(),
            self.block_doc_ids@.len() <= 128,
            block::increasing(self.block_doc_ids@),
            self.block_doc_ids@.len() > 0 ==> {
                let b = self.blocks()[self.current_block as int];
                &&& b.wf()
                &&& b.count == self.block_doc_ids@.len()
                &&& self.block_doc_ids@[b.count - 1] == b.last
                &&& b.last < TERMINATED
                &&& self.current_block < usize::MAX
            },
            forall|i: int|
                0 <= i < self.block_doc_ids@.len() ==> (#[trigger] self.block_doc_ids@[i])
                    < TERMINATED,
    {
        if self.block_doc_ids@.len() > 0 {
            let b = self.blocks()[self.current_block as int];
            assert(b.wf());
            assert(self.list().blocks.len() == self.blocks().len());
            let d = b.docs();
            assert forall|i: int| 0 <= i < d.len() implies (#[trigger] d[i]) < TERMINATED by {
                if i < d.len() - 1 {
                    assert(d[i] < d[d.len() - 1]);
                }
            }
        }
    }

    /// Give the decode buffers back.
    pub fn recycle(self, scratch: &mut PostingDecodeScratch)
        ensures
            final(scratch).doc_ids == self.block_doc_ids,
            final(scratch).term_freqs == self.block_tfs,
    {
        scratch.doc_ids = self.block_doc_ids;
        scratch.term_freqs = self.block_tfs;
    }

    /// A cursor at the start of a borrowed list.
    pub fn new(block_list: &'a BlockPostingList) -> (r: Self)
        requires
            block_list.wf(),
        ensures
            r.wf(),
            r.list() == *block_list,
            r.at() == cursor::load_at(r.blocks(), 0),
            r.current_block == 0,
    {
        Self::start(ListRef::Borrowed(block_list))
    }

    /// A cursor at the start of a list that it owns.
    pub fn owned(block_list: BlockPostingList) -> (r: BlockPostingIterator<'static>)
        requires
            block_list.wf(),
        ensures
            r.wf(),
            r.list() == block_list,
            r.at() == cursor::load_at(r.blocks(), 0),
            r.current_block == 0,
    {
        BlockPostingIterator::<'static>::start(ListRef::Owned(block_list))
    }

    fn start(block_list: ListRef<'a>) -> (r: Self)
        requires
            block_list.list().wf(),
        ensures
            r.wf(),
            r.list() == block_list.list(),
            r.at() == cursor::load_at(r.blocks(), 0),
            r.current_block == 0,
    {
        let mut iter = BlockPostingIterator {
            block_list,
            current_block: 0,
            block_doc_ids: Vec::with_capacity(BLOCK_SIZE),
            block_tfs: None,
            position_in_block: 0,
            position_offsets: None,
            block_position_cursor: 0,
            exhausted: true,
        };
        iter.load_block(0);
        iter
    }

    /// Decode a block and stand at its start. Without such a block, or where
    /// its documents leave the directory range, the cursor ends.
    fn load_block(&mut self, block_idx: usize)
        requires
            old(self).wf(),
        ensures
            final(self).wf(),
            final(self).list() == old(self).list(),
            final(self).at() == cursor::load_at(old(self).blocks(), block_idx as int),
            final(self).current_block == cursor::opened(
                old(self).blocks(),
                old(self).current_block as int,
                block_idx as int,
            ),
            block_idx < old(self).blocks().len() && !old(self).blocks()[block_idx as int].sound()
                ==> final(self).block_doc_ids@.len() == 0,
    {
        if block_idx >= self.block_list.get().blocks.len() {
            self.exhausted = true;
            return;
        }
        let cursor: u64 = match self.block_list.get().pos_cursor(block_idx) {
            Some(c) => c,
            None => 0,
        };
        self.current_block = block_idx;
        self.position_in_block = 0;
        self.position_offsets = None;
        self.block_position_cursor = cursor;
        self.block_tfs = None;
        match self.block_list.get().decode_checked(block_idx, &mut self.block_doc_ids) {
            Ok(_) => {
                self.exhausted = false;
                proof {
                    assert(self.blocks()[block_idx as int].wf());
                }
            },
            Err(_) => {
                self.exhausted = true;
            },
        }
    }

    /// Decode the frequencies of the current block, if they are not.
    pub fn cache_tfs(&mut self)
        requires
            old(self).wf(),
        ensures
            final(self).wf(),
            final(self).at() == old(self).at(),
            final(self).block_list == old(self).block_list,
            final(self).current_block == old(self).current_block,
            final(self).position_in_block == old(self).position_in_block,
            final(self).block_doc_ids == old(self).block_doc_ids,
            final(self).block_position_cursor == old(self).block_position_cursor,
            final(self).position_offsets == old(self).position_offsets,
            final(self).block_tfs is Some,
    {
        if self.block_tfs.is_none() {
            let tfs = self.frequencies();
            self.block_tfs = Some(tfs);
        }
    }

    /// Frequencies of the decoded block.
    pub fn frequencies(&self) -> (r: Vec<u32>)
        requires
            self.wf(),
        ensures
            r@ == self.loaded_tfs(),
    {
        if self.block_doc_ids.len() == 0 {
            return Vec::new();
        }
        proof {
            self.facts();
        }
        match &self.block_tfs {
            Some(t) => t.clone(),
            None => self.block_list.get().blocks[self.current_block].decode_tfs(),
        }
    }

    /// Offset of the current posting's positions in the position stream: the
    /// block's cursor and the frequencies before it in the block.
    pub fn position_cursor(&self) -> (r: u64)
        requires
            self.wf(),
            self.position() <= u64::MAX,
        ensures
            r == self.position(),
    {
        proof {
            self.facts();
        }
        if let Some(offsets) = &self.position_offsets {
            return offsets[self.position_in_block];
        }
        let tfs = self.frequencies();
        let mut total: u64 = self.block_position_cursor;
        let mut i: usize = 0;
        while i < self.position_in_block
            invariant
                i <= self.position_in_block <= tfs@.len(),
                tfs@ == self.loaded_tfs(),
                total == self.block_position_cursor + cursor::prefix_sum(tfs@, i as int),
                self.position() <= u64::MAX,
            decreases self.position_in_block - i,
        {
            proof {
                cursor::prefix_sum_grows(tfs@, i + 1, self.position_in_block as int);
            }
            total = total + tfs[i] as u64;
            i = i + 1;
        }
        total
    }

    /// The same, with the offsets of the whole block kept for later reads.
    pub fn position_cursor_mut(&mut self) -> (r: u64)
        requires
            old(self).wf(),
            old(self).block_end() <= u64::MAX,
        ensures
            final(self).wf(),
            final(self).list() == old(self).list(),
            final(self).at() == old(self).at(),
            final(self).position() == old(self).position(),
            final(self).block_end() == old(self).block_end(),
            final(self).block_tfs is Some || old(self).position_offsets is Some,
            r == old(self).position(),
    {
        proof {
            self.facts();
        }
        self.initialize_position_offsets();
        match &self.position_offsets {
            Some(offsets) => offsets[self.position_in_block],
            None => 0,
        }
    }

    /// Address and length of the current posting's positions.
    pub fn position_range(&mut self) -> (r: (u64, u32))
        requires
            old(self).wf(),
            old(self).at() is Some,
            old(self).block_end() <= u64::MAX,
        ensures
            final(self).wf(),
            final(self).list() == old(self).list(),
            final(self).at() == old(self).at(),
            final(self).position() == old(self).position(),
            final(self).block_end() == old(self).block_end(),
            r.0 == old(self).position(),
            r.1 == cursor::tf_at(old(self).blocks(), old(self).at()),
    {
        proof {
            self.facts();
        }
        let at: u64 = self.position_cursor_mut();
        (at, self.term_freq())
    }

    fn initialize_position_offsets(&mut self)
        requires
            old(self).wf(),
            old(self).block_end() <= u64::MAX,
        ensures
            final(self).wf(),
            final(self).list() == old(self).list(),
            final(self).at() == old(self).at(),
            final(self).position() == old(self).position(),
            final(self).block_end() == old(self).block_end(),
            final(self).position_in_block == old(self).position_in_block,
            final(self).block_tfs is Some || old(self).position_offsets is Some,
            final(self).position_offsets is Some,
    {
        if self.position_offsets.is_some() {
            return;
        }
        proof {
            self.facts();
        }
        self.cache_tfs();
        let tfs = self.frequencies();
        let ghost end = self.block_end();
        let mut total: u64 = self.block_position_cursor;
        let mut offsets: Vec<u64> = Vec::new();
        offsets.push(total);
        let mut i: usize = 0;
        while i < tfs.len()
            invariant
                i <= tfs@.len(),
                offsets@.len() == i + 1,
                total == self.block_position_cursor + cursor::prefix_sum(tfs@, i as int),
                end == self.block_position_cursor + cursor::prefix_sum(tfs@, tfs@.len() as int),
                end <= u64::MAX,
                forall|k: int|
                    0 <= k < offsets@.len() ==> #[trigger] offsets@[k] == self.block_position_cursor
                        + cursor::prefix_sum(tfs@, k),
            decreases tfs@.len() - i,
        {
            proof {
                cursor::prefix_sum_grows(tfs@, i + 1, tfs@.len() as int);
            }
            total = total + tfs[i] as u64;
            offsets.push(total);
            i = i + 1;
        }
        self.position_offsets = Some(offsets);
    }

    /// Document at the cursor, or the end marker.
    pub fn doc(&self) -> (r: u32)
        requires
            self.wf(),
        ensures
            r == cursor::doc_at(self.blocks(), self.at()),
            r == TERMINATED <==> self.exhausted,
    {
        proof {
            self.facts();
        }
        if self.exhausted {
            TERMINATED
        } else {
            self.block_doc_ids[self.position_in_block]
        }
    }

    /// Term frequency at the cursor, zero past the end.
    pub fn term_freq(&self) -> (r: u32)
        requires
            self.wf(),
        ensures
            r == cursor::tf_at(self.blocks(), self.at()),
    {
        if self.exhausted {
            return 0;
        }
        proof {
            self.facts();
        }
        match &self.block_tfs {
            Some(t) => t[self.position_in_block],
            None => {
                let tfs = self.frequencies();
                tfs[self.position_in_block]
            },
        }
    }

    /// Step to the next posting.
    pub fn advance(&mut self) -> (r: u32)
        requires
            old(self).wf(),
        ensures
            final(self).wf(),
            final(self).list() == old(self).list(),
            final(self).at() == cursor::next_at(old(self).blocks(), old(self).at()),
            final(self).current_block == cursor::next_opened(
                old(self).blocks(),
                old(self).at(),
                old(self).current_block as int,
            ),
            r == cursor::doc_at(final(self).blocks(), final(self).at()),
            old(self).at() is Some ==> final(self).rest() == old(self).rest().skip(1),
    {
        proof {
            self.facts();
            if self.at() is Some {
                cursor::next_rest(self.blocks(), self.at());
            }
        }
        if self.exhausted {
            return TERMINATED;
        }
        self.position_in_block = self.position_in_block + 1;
        if self.position_in_block >= self.block_doc_ids.len() {
            let next: usize = self.current_block + 1;
            self.exhausted = true;
            self.load_block(next);
        }
        self.doc()
    }

    /// Move to an index of the decoded block, or past its end to the next
    /// block.
    pub(crate) fn move_within(&mut self, to: usize)
        requires
            old(self).wf(),
            !old(self).exhausted,
            old(self).position_in_block <= to <= old(self).block_doc_ids@.len(),
        ensures
            final(self).wf(),
            final(self).list() == old(self).list(),
            final(self).at() == cursor::block_at(
                old(self).blocks(),
                old(self).current_block as int,
                to as int,
            ),
            final(self).rest() == old(self).rest().skip(to - old(self).position_in_block),
    {
        proof {
            self.facts();
            cursor::block_rest(
                self.blocks(),
                self.current_block as int,
                self.position_in_block as int,
                to as int,
            );
        }
        self.position_in_block = to;
        if to == self.block_doc_ids.len() {
            let next: usize = self.current_block + 1;
            self.exhausted = true;
            self.load_block(next);
        }
    }

    /// Move to the first posting at or after `target`, never back.
    pub fn seek(&mut self, target: u32) -> (r: u32)
        requires
            old(self).wf(),
        ensures
            final(self).wf(),
            final(self).list() == old(self).list(),
            final(self).at() == cursor::seek_at(old(self).blocks(), old(self).at(), target),
            final(self).current_block == cursor::seek_opened(
                old(self).blocks(),
                old(self).at(),
                old(self).current_block as int,
                target,
            ),
            r == cursor::doc_at(final(self).blocks(), final(self).at()),
    {
        if self.exhausted {
            return TERMINATED;
        }
        proof {
            self.facts();
            cursor::seek_valid(self.blocks(), self.at(), target);
        }
        let current: u32 = self.block_doc_ids[self.position_in_block];
        if target <= current {
            return current;
        }
        let last: u32 = self.block_doc_ids[self.block_doc_ids.len() - 1];
        if target > last {
            return self.seek_later_block(target);
        }
        let at: usize = posting::lower_bound(
            self.block_doc_ids.as_slice(),
            self.position_in_block + 1,
            target,
        );
        proof {
            if at == self.block_doc_ids@.len() {
                assert(self.block_doc_ids@[at - 1] < target);
            }
            cursor::lower_from_unique(
                self.block_doc_ids@,
                target,
                self.position_in_block as int,
                at as int,
            );
        }
        self.position_in_block = at;
        self.block_doc_ids[at]
    }

    /// Select a posting of the decoded suffix, which stays parked for
    /// frequency and position reads. `None` once the block is consumed.
    pub fn find_in_block<F: Fn(&[u32], &[u32]) -> Option<usize>>(&mut self, find: F) -> (r: Option<u32>)
        requires
            old(self).wf(),
            forall|d: &[u32], t: &[u32]| #[trigger] find.requires((d, t)),
            forall|d: &[u32], t: &[u32], o: usize| #[trigger]
                find.ensures((d, t), Some(o)) ==> o < d@.len(),
        ensures
            final(self).wf(),
            final(self).list() == old(self).list(),
            old(self).at() is None ==> r == Some(TERMINATED) && final(self).at() is None,
            old(self).at() matches Some((b, k)) ==> exists|d: &[u32], t: &[u32], found: Option<usize>|
                {
                    &&& d@ == old(self).blocks()[b].docs().skip(k)
                    &&& t@ == old(self).blocks()[b].tfs().skip(k)
                    &&& #[trigger] find.ensures((d, t), found)
                    &&& match found {
                        Some(o) => final(self).at() == Some((b, k + o)) && r == Some(
                            old(self).blocks()[b].docs()[k + o],
                        ),
                        None => final(self).at() == cursor::load_at(old(self).blocks(), b + 1)
                            && r is None,
                    }
                },
    {
        if self.exhausted {
            return Some(TERMINATED);
        }
        proof {
            self.facts();
        }
        self.cache_tfs();
        let tfs = self.frequencies();
        let start: usize = self.position_in_block;
        let n: usize = self.block_doc_ids.len();
        let docs = vstd::slice::slice_subrange(self.block_doc_ids.as_slice(), start, n);
        let freqs = vstd::slice::slice_subrange(tfs.as_slice(), start, n);
        proof {
            assert(docs@ =~= self.block_doc_ids@.skip(start as int));
            assert(freqs@ =~= tfs@.skip(start as int));
        }
        let found = find(docs, freqs);
        assert(find.ensures((docs, freqs), found));
        match found {
            Some(offset) => {
                self.position_in_block = start + offset;
                Some(self.block_doc_ids[start + offset])
            },
            None => {
                let next: usize = self.current_block + 1;
                self.load_block(next);
                None
            },
        }
    }

    /// Reposition a probe, back or forward, with the decode buffers kept.
    pub fn seek_physical(&mut self, target: u32) -> (r: u32)
        requires
            old(self).wf(),
        ensures
            final(self).wf(),
            final(self).list() == old(self).list(),
            final(self).at() == cursor::physical_at(old(self).blocks(), old(self).at(), target),
            final(self).current_block == (if old(self).at() is Some && target >= cursor::doc_at(
                old(self).blocks(),
                old(self).at(),
            ) {
                cursor::seek_opened(
                    old(self).blocks(),
                    old(self).at(),
                    old(self).current_block as int,
                    target,
                )
            } else {
                cursor::opened_by_search(
                    old(self).blocks(),
                    old(self).current_block as int,
                    target,
                    0,
                )
            }),
            r == cursor::doc_at(final(self).blocks(), final(self).at()),
    {
        if !self.exhausted && target >= self.doc() {
            return self.seek(target);
        }
        self.seek_from(target, 0, true)
    }

    fn seek_later_block(&mut self, target: u32) -> (r: u32)
        requires
            old(self).wf(),
            old(self).at() is Some,
        ensures
            final(self).wf(),
            final(self).list() == old(self).list(),
            final(self).at() == (match list_query::seek_spec(
                old(self).blocks(),
                target,
                old(self).current_block + 1,
            ) {
                Some(c) => cursor::within(old(self).blocks(), c, target),
                None => None,
            }),
            final(self).current_block == cursor::opened_by_search(
                old(self).blocks(),
                old(self).current_block as int,
                target,
                old(self).current_block + 1,
            ),
            r == cursor::doc_at(final(self).blocks(), final(self).at()),
    {
        proof {
            self.facts();
        }
        let from: usize = self.current_block + 1;
        self.seek_from(target, from, false)
    }

    /// Stand at the first posting at or after `target` among the blocks from
    /// `from` on. A block that is decoded already may be reused.
    fn seek_from(&mut self, target: u32, from: usize, reuse: bool) -> (r: u32)
        requires
            old(self).wf(),
        ensures
            final(self).wf(),
            final(self).list() == old(self).list(),
            final(self).at() == (match list_query::seek_spec(
                old(self).blocks(),
                target,
                from as int,
            ) {
                Some(c) => cursor::within(old(self).blocks(), c, target),
                None => None,
            }),
            final(self).current_block == cursor::opened_by_search(
                old(self).blocks(),
                old(self).current_block as int,
                target,
                from as int,
            ),
            r == cursor::doc_at(final(self).blocks(), final(self).at()),
    {
        let ghost blocks = self.blocks();
        proof {
            self.facts();
            list_query::seek_spec_is(blocks, target, from as int);
        }
        let block = match self.block_list.get().seek_block(target, from) {
            Some(block) => block,
            None => {
                self.exhausted = true;
                return TERMINATED;
            },
        };
        if reuse && block == self.current_block && self.block_doc_ids.len() > 0 {
            self.position_in_block = 0;
            self.exhausted = false;
        } else {
            self.load_block(block);
        }
        if self.exhausted {
            return TERMINATED;
        }
        proof {
            self.facts();
            cursor::within_valid(blocks, block as int, target, 0);
        }
        let at: usize = posting::lower_bound(self.block_doc_ids.as_slice(), 0, target);
        proof {
            if at == self.block_doc_ids@.len() {
                assert(self.block_doc_ids@[at - 1] < target);
            }
            cursor::lower_from_unique(self.block_doc_ids@, target, 0, at as int);
        }
        self.position_in_block = at;
        self.block_doc_ids[at]
    }

    /// Skip to the start of the next block.
    pub fn skip_to_next_block(&mut self) -> (r: u32)
        requires
            old(self).wf(),
        ensures
            final(self).wf(),
            final(self).list() == old(self).list(),
            final(self).at() == (match old(self).at() {
                Some((b, _k)) => cursor::load_at(old(self).blocks(), b + 1),
                None => None,
            }),
            final(self).current_block == (match old(self).at() {
                Some((b, _k)) => cursor::opened(old(self).blocks(), b, b + 1),
                None => old(self).current_block as int,
            }),
            r == cursor::doc_at(final(self).blocks(), final(self).at()),
    {
        if self.exhausted {
            return TERMINATED;
        }
        proof {
            self.facts();
        }
        let next: usize = self.current_block + 1;
        self.load_block(next);
        self.doc()
    }

    /// Index of the current block.
    pub fn current_block_idx(&self) -> (r: usize)
        ensures
            r == self.current_block,
    {
        self.current_block
    }

    /// Number of blocks.
    pub fn num_blocks(&self) -> (r: usize)
        ensures
            r == self.blocks().len(),
    {
        self.block_list.get().blocks.len()
    }

    /// The list and the decoded block's index, until the cursor ends.
    pub fn current_block_metadata(&self) -> (r: Option<(&BlockPostingList, usize)>)
        ensures
            r == (if self.exhausted {
                None
            } else {
                Some((&self.list(), self.current_block))
            }),
    {
        if self.exhausted {
            None
        } else {
            Some((self.block_list.get(), self.current_block))
        }
    }

    /// Largest term frequency of the current block, zero past the end.
    pub fn current_block_max_tf(&self) -> (r: u32)
        requires
            self.wf(),
        ensures
            r == (if self.exhausted {
                0
            } else {
                self.list().block_bounds_spec(self.current_block as int).0
            }),
    {
        if self.exhausted {
            return 0;
        }
        proof {
            self.facts();
        }
        match self.block_list.get().block_max_tf(self.current_block) {
            Some(tf) => tf,
            None => 0,
        }
    }
}

impl BlockPostingList {
    /// A cursor at the start of the list.
    pub fn iterator(&self) -> (r: BlockPostingIterator<'_>)
        requires
            self.wf(),
        ensures
            r.wf(),
            r.list() == *self,
            r.at() == cursor::load_at(self.blocks@, 0),
            self.sound() ==> r.rest() == self@,
    {
        let r = BlockPostingIterator::new(self);
        proof {
            start_rest(*self);
        }
        r
    }

    /// A cursor that owns the list.
    pub fn into_iterator(self) -> (r: BlockPostingIterator<'static>)
        requires
            self.wf(),
        ensures
            r.wf(),
            r.list() == self,
            r.at() == cursor::load_at(self.blocks@, 0),
            self.sound() ==> r.rest() == self@,
    {
        proof {
            start_rest(self);
        }
        BlockPostingIterator::<'static>::owned(self)
    }

    /// A cursor that starts at the block of its first target and reuses
    /// decode storage.
    pub fn into_candidate_iterator(
        self,
        first_target: u32,
        scratch: &mut PostingDecodeScratch,
    ) -> (r: BlockPostingIterator<'static>)
        requires
            self.wf(),
        ensures
            r.wf(),
            r.list() == self,
            r.at() == (match list_query::seek_spec(self.blocks@, first_target, 0) {
                Some(b) => cursor::load_at(self.blocks@, b),
                None => None,
            }),
            final(scratch).doc_ids@.len() == 0,
            final(scratch).term_freqs is None,
    {
        proof {
            list_query::seek_spec_is(self.blocks@, first_target, 0);
        }
        let first_block = self.seek_block(first_target, 0);
        let mut doc_ids: Vec<u32> = Vec::new();
        std::mem::swap(&mut doc_ids, &mut scratch.doc_ids);
        doc_ids.clear();
        scratch.term_freqs = None;
        let mut iterator: BlockPostingIterator<'static> = BlockPostingIterator {
            block_list: ListRef::Owned(self),
            current_block: 0,
            block_doc_ids: doc_ids,
            block_tfs: None,
            position_in_block: 0,
            position_offsets: None,
            block_position_cursor: 0,
            exhausted: true,
        };
        if let Some(block) = first_block {
            iterator.load_block(block);
        }
        iterator
    }
}

/// A cursor at the start of a sound list has all its postings before it.
proof fn start_rest(l: BlockPostingList)
    requires
        l.wf(),
    ensures
        l.sound() ==> cursor::rest_at(l.blocks@, cursor::load_at(l.blocks@, 0)) == l@,
{
    if l.sound() {
        cursor::rest_of_sound(l.blocks@, 0);
        assert(list::flat(l.blocks@, 0) + cursor::readable(l.blocks@, 0) =~= cursor::readable(
            l.blocks@,
            0,
        ));
    }
}

} // verus!
