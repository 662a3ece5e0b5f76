//! A cursor over a list that was opened by its footer alone.
//!
//! Directory and document order are trusted. A block that cannot be read ends
//! the walk and is remembered.
use crate::block::PostingBlock;
use crate::block::TERMINATED;
use crate::cursor;
use crate::cursor::Position;
use crate::deferred::PostingIntegrity;
use crate::list_read;
use crate::query_list;
use crate::query_list::QueryPostingList;
use vstd::prelude::*;

verus! {

/// The documents of a block that can be read.
pub open spec fn docs_of(q: QueryPostingList, b: int) -> Seq<u32> {
    (choose|x: PostingBlock| #[trigger] q.holds(b, x)).docs()
}

/// The start of a block, if it can be read.
pub open spec fn load_at(q: QueryPostingList, b: int) -> Position {
    if q.decodes(b) {
        Some((b, 0))
    } else {
        None
    }
}

/// Posting `k` of block `b`, or the start of the next block.
pub open spec fn settle_at(q: QueryPostingList, b: int, k: int) -> Position {
    if k < docs_of(q, b).len() {
        Some((b, k))
    } else {
        load_at(q, b + 1)
    }
}

/// The first block from `from` on that ends at or after `target`.
pub open spec fn block_for(q: QueryPostingList, target: u32, from: int) -> Option<int>
    decreases q.tail().l0_count - from,
{
    if from >= q.tail().l0_count {
        None
    } else if list_read::last_at(q.raw(), q.tail(), from) >= target {
        Some(from)
    } else {
        block_for(q, target, from + 1)
    }
}

/// Whether a position is in a block that can be read.
pub open spec fn valid_at(q: QueryPostingList, at: Position) -> bool {
    at matches Some((b, k)) ==> q.decodes(b) && 0 <= k < docs_of(q, b).len()
}

/// Document at a position.
pub open spec fn doc_at(q: QueryPostingList, at: Position) -> u32 {
    match at {
        None => TERMINATED,
        Some((b, k)) => docs_of(q, b)[k],
    }
}

/// Where a step leads.
pub open spec fn next_at(q: QueryPostingList, at: Position) -> Position {
    match at {
        None => None,
        Some((b, k)) => settle_at(q, b, k + 1),
    }
}

/// Where a search leads: within the block while it ends late enough, else to
/// the block that the directory gives.
pub open spec fn seek_at(q: QueryPostingList, at: Position, target: u32) -> Position {
    match at {
        None => None,
        Some((b, k)) => if target <= docs_of(q, b)[k] {
            at
        } else if target <= docs_of(q, b).last() {
            Some((b, cursor::lower_from(docs_of(q, b), target, k)))
        } else {
            match block_for(q, target, b + 1) {
                None => None,
                Some(c) => if q.decodes(c) {
                    settle_at(q, c, cursor::lower_from(docs_of(q, c), target, 0))
                } else {
                    None
                },
            }
        },
    }
}

/// The first corrupt block after a block was opened, if it is there.
pub open spec fn noted_load(q: QueryPostingList, before: Option<usize>, b: int) -> Option<usize> {
    if 0 <= b < q.tail().l0_count && !q.decodes(b) && before is None {
        Some(b as usize)
    } else {
        before
    }
}

/// The same, after a cursor settled.
pub open spec fn noted_settle(q: QueryPostingList, before: Option<usize>, b: int, k: int) -> Option<
    usize,
> {
    if k < docs_of(q, b).len() {
        before
    } else {
        noted_load(q, before, b + 1)
    }
}

/// The same, after a search.
pub open spec fn noted_seek(
    q: QueryPostingList,
    before: Option<usize>,
    at: Position,
    target: u32,
) -> Option<usize> {
    match at {
        None => before,
        Some((b, k)) => if target <= docs_of(q, b)[k] || target <= docs_of(q, b).last() {
            before
        } else {
            match block_for(q, target, b + 1) {
                None => before,
                Some(c) => if q.decodes(c) {
                    noted_settle(
                        q,
                        before,
                        c,
                        cursor::lower_from(docs_of(q, c), target, 0),
                    )
                } else {
                    noted_load(q, before, c)
                },
            }
        },
    }
}

/// What is stored of a block has one reading.
proof fn one_reading(q: QueryPostingList, b: int, x: PostingBlock)
    requires
        q.holds(b, x),
    ensures
        q.decodes(b),
        docs_of(q, b) == x.docs(),
        docs_of(q, b).len() == x.count,
        x.count > 0,
{
    let y = choose|y: PostingBlock| #[trigger] q.holds(b, y);
    query_list::same_docs(x, y);
}

/// A cursor over a list whose content is trusted. Only the current block is
/// decoded.
pub struct QueryPostingIterator<'a> {
    pub list: &'a QueryPostingList,
    pub current_block: usize,
    /// The current block, unless the cursor has ended.
    pub block: Option<PostingBlock>,
    pub block_doc_ids: Vec<u32>,
    pub position_in_block: usize,
}

impl<'a> QueryPostingIterator<'a> {
    /// Where the cursor stands.
    pub open spec fn at(&self) -> Position {
        match self.block {
            Some(_) => Some((self.current_block as int, self.position_in_block as int)),
            None => None,
        }
    }

    pub open spec fn wf(&self) -> bool {
        &&& self.list.wf()
        &&& self.block matches Some(b) ==> {
            &&& self.list.holds(self.current_block as int, b)
            &&& self.block_doc_ids@ == b.docs()
            &&& self.position_in_block < b.count
        }
    }

    /// What is stored of the positions before the current block, or zero.
    pub open spec fn block_cursor(&self) -> int {
        if self.list.tail().has_cursors {
            list_read::cursor_at(
                self.list.raw(),
                self.list.tail(),
                self.current_block as int,
            ) as int
        } else {
            0
        }
    }

    proof fn facts(&self)
        requires
            self.wf(),
        ensures
            valid_at(*self.list, self.at()),
            self.at() is Some ==> self.block_doc_ids@ == docs_of(
                *self.list,
                self.current_block as int,
            ) && self.current_block < self.list.tail().l0_count && self.position_in_block
                < self.block_doc_ids@.len(),
    {
        if let Some(b) = self.block {
            one_reading(*self.list, self.current_block as int, b);
        }
    }

    /// Open a block and stand at its start. Without such a block, or where it
    /// cannot be read, the cursor ends.
    fn load_block(&mut self, b: usize, integrity: &mut PostingIntegrity)
        requires
            old(self).list.wf(),
        ensures
            final(self).wf(),
            final(self).list == old(self).list,
            final(self).at() == load_at(*old(self).list, b as int),
            final(integrity).first_error == noted_load(
                *old(self).list,
                old(integrity).first_error,
                b as int,
            ),
    {
        self.block = None;
        if b >= self.list.num_blocks() {
            return;
        }
        self.current_block = b;
        self.position_in_block = 0;
        match self.list.load(b) {
            Some((block, docs)) => {
                self.block = Some(block);
                self.block_doc_ids = docs;
                proof {
                    one_reading(*self.list, b as int, block);
                }
            },
            None => {
                integrity.record(b);
            },
        }
    }

    /// Move to an index of the current block, or past its end to the next
    /// block.
    fn settle(&mut self, k: usize, integrity: &mut PostingIntegrity)
        requires
            old(self).wf(),
            old(self).at() is Some,
        ensures
            final(self).wf(),
            final(self).list == old(self).list,
            final(self).at() == settle_at(
                *old(self).list,
                old(self).current_block as int,
                k as int,
            ),
            final(integrity).first_error == noted_settle(
                *old(self).list,
                old(integrity).first_error,
                old(self).current_block as int,
                k as int,
            ),
    {
        proof {
            self.facts();
            one_reading(*self.list, self.current_block as int, self.block->Some_0);
        }
        if k < self.block_doc_ids.len() {
            self.position_in_block = k;
        } else {
            let next: usize = self.current_block + 1;
            self.load_block(next, integrity);
        }
    }

    /// Document at the cursor, or the end marker.
    pub fn doc(&self) -> (r: u32)
        requires
            self.wf(),
        ensures
            r == doc_at(*self.list, self.at()),
    {
        proof {
            self.facts();
        }
        if self.block.is_none() {
            TERMINATED
        } else {
            self.block_doc_ids[self.position_in_block]
        }
    }

    /// Term frequency at the cursor: zero past the end, nothing where the
    /// frequencies of the block cannot be read.
    pub fn term_freq(&self) -> (r: Option<u32>)
        requires
            self.wf(),
        ensures
            r == (match self.block {
                None => Some(0),
                Some(b) => if b.tfs_fit() {
                    Some(b.tfs()[self.position_in_block as int])
                } else {
                    None
                },
            }),
    {
        match &self.block {
            None => Some(0),
            Some(b) => if query_list::tail_fits(b) {
                let tfs = b.decode_tfs();
                Some(tfs[self.position_in_block])
            } else {
                None
            },
        }
    }

    /// Offset of the current posting's positions in the position stream: what
    /// is stored for the block, or zero, and the frequencies before it in the
    /// block. Nothing past the end, where the frequencies cannot be read, or
    /// where the sum leaves 64 bits.
    pub fn position_cursor(&self) -> (r: Option<u64>)
        requires
            self.wf(),
        ensures
            r == (match self.block {
                None => None,
                Some(b) => {
                    let sum = self.block_cursor() + cursor::prefix_sum(
                        b.tfs(),
                        self.position_in_block as int,
                    );
                    if b.tfs_fit() && sum <= u64::MAX {
                        Some(sum as u64)
                    } else {
                        None
                    }
                },
            }),
    {
        let b = match &self.block {
            None => {
                return None;
            },
            Some(b) => b,
        };
        if !query_list::tail_fits(b) {
            return None;
        }
        let tfs = b.decode_tfs();
        let mut total: u64 = match self.list.pos_cursor(self.current_block) {
            Some(c) => c,
            None => 0,
        };
        let mut i: usize = 0;
        while i < self.position_in_block
            invariant
                i <= self.position_in_block <= tfs@.len(),
                tfs@ == b.tfs(),
                self.block == Some(*b),
                total == self.block_cursor() + cursor::prefix_sum(tfs@, i as int),
            decreases self.position_in_block - i,
        {
            proof {
                cursor::prefix_sum_grows(tfs@, i + 1, self.position_in_block as int);
            }
            match total.checked_add(tfs[i] as u64) {
                Some(t) => {
                    total = t;
                },
                None => {
                    return None;
                },
            }
            i = i + 1;
        }
        Some(total)
    }

    /// Step to the next posting.
    pub fn advance(&mut self, integrity: &mut PostingIntegrity) -> (r: u32)
        requires
            old(self).wf(),
        ensures
            final(self).wf(),
            final(self).list == old(self).list,
            final(self).at() == next_at(*old(self).list, old(self).at()),
            r == doc_at(*old(self).list, final(self).at()),
            final(integrity).first_error == (match old(self).at() {
                None => old(integrity).first_error,
                Some((b, k)) => noted_settle(
                    *old(self).list,
                    old(integrity).first_error,
                    b,
                    k + 1,
                ),
            }),
    {
        if self.block.is_none() {
            return TERMINATED;
        }
        let next: usize = self.position_in_block + 1;
        self.settle(next, integrity);
        self.doc()
    }

    /// Move to the first posting at or after `target`, never back.
    pub fn seek(&mut self, target: u32, integrity: &mut PostingIntegrity) -> (r: u32)
        requires
            old(self).wf(),
        ensures
            final(self).wf(),
            final(self).list == old(self).list,
            final(self).at() == seek_at(*old(self).list, old(self).at(), target),
            r == doc_at(*old(self).list, final(self).at()),
            final(integrity).first_error == noted_seek(
                *old(self).list,
                old(integrity).first_error,
                old(self).at(),
                target,
            ),
    {
        if self.block.is_none() {
            return TERMINATED;
        }
        proof {
            self.facts();
        }
        let n: usize = self.block_doc_ids.len();
        let k: usize = self.position_in_block;
        if target <= self.block_doc_ids[k] {
            return self.doc();
        }
        if target <= self.block_doc_ids[n - 1] {
            let to: usize = first_from(self.block_doc_ids.as_slice(), k, target);
            proof {
                cursor::lower_from_is(self.block_doc_ids@, target, k as int);
            }
            self.position_in_block = to;
            return self.doc();
        }
        match self.list.seek_block(target, self.current_block + 1) {
            None => {
                self.block = None;
                TERMINATED
            },
            Some(c) => {
                self.load_block(c, integrity);
                if self.block.is_some() {
                    proof {
                        self.facts();
                    }
                    let to: usize = first_from(self.block_doc_ids.as_slice(), 0, target);
                    self.settle(to, integrity);
                }
                self.doc()
            },
        }
    }

    /// Skip to the start of the next block.
    pub fn skip_to_next_block(&mut self, integrity: &mut PostingIntegrity) -> (r: u32)
        requires
            old(self).wf(),
        ensures
            final(self).wf(),
            final(self).list == old(self).list,
            final(self).at() == (match old(self).at() {
                None => None,
                Some((b, _k)) => load_at(*old(self).list, b + 1),
            }),
            r == doc_at(*old(self).list, final(self).at()),
            final(integrity).first_error == (match old(self).at() {
                None => old(integrity).first_error,
                Some((b, _k)) => noted_load(*old(self).list, old(integrity).first_error, b + 1),
            }),
    {
        if self.block.is_none() {
            return TERMINATED;
        }
        proof {
            self.facts();
        }
        let next: usize = self.current_block + 1;
        self.load_block(next, integrity);
        self.doc()
    }
}

/// The first index from `from` on whose document is at least `target`.
fn first_from(docs: &[u32], from: usize, target: u32) -> (r: usize)
    requires
        from <= docs@.len(),
    ensures
        r == cursor::lower_from(docs@, target, from as int),
        from <= r <= docs@.len(),
{
    let mut i: usize = from;
    while i < docs.len() && docs[i] < target
        invariant
            from <= i <= docs@.len(),
            cursor::lower_from(docs@, target, from as int) == cursor::lower_from(
                docs@,
                target,
                i as int,
            ),
        decreases docs@.len() - i,
    {
        i = i + 1;
    }
    i
}

impl QueryPostingList {
    /// The first block from `from_block` on that ends at or after `target`, by
    /// the directory.
    pub fn seek_block(&self, target: u32, from_block: usize) -> (r: Option<usize>)
        requires
            self.wf(),
        ensures
            match (r, block_for(*self, target, from_block as int)) {
                (Some(b), Some(c)) => b == c && b < self.tail().l0_count,
                (None, None) => true,
                _ => false,
            },
    {
        let mut b: usize = from_block;
        while b < self.num_blocks()
            invariant
                self.wf(),
                block_for(*self, target, b as int) == block_for(*self, target, from_block as int),
            decreases self.tail().l0_count - b,
        {
            if let Some(last) = self.block_last_doc(b) {
                if last >= target {
                    return Some(b);
                }
            }
            b = b + 1;
        }
        None
    }

    /// A cursor at the start.
    pub fn iterator(&self, integrity: &mut PostingIntegrity) -> (r: QueryPostingIterator<'_>)
        requires
            self.wf(),
        ensures
            r.wf(),
            *r.list == *self,
            r.at() == load_at(*self, 0),
            final(integrity).first_error == noted_load(*self, old(integrity).first_error, 0),
    {
        let mut it = QueryPostingIterator {
            list: self,
            current_block: 0,
            block: None,
            block_doc_ids: Vec::new(),
            position_in_block: 0,
        };
        it.load_block(0, integrity);
        it
    }
}

} // verus!
