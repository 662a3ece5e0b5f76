//! A cursor over a sparse posting list.
use crate::block::TERMINATED;
use crate::cursor;
use crate::cursor::Position;
use crate::gaps;
use crate::sparse_block;
use crate::sparse_block::SparseBlock;
use crate::sparse_list;
use crate::sparse_list::BlockSparsePostingList;
use crate::sparse_weights::Weight;
use vstd::prelude::*;

verus! {

/// The start of block `b`, or the end.
pub open spec fn block_start(blocks: Seq<SparseBlock>, b: int) -> Position {
    if b < blocks.len() {
        Some((b, 0))
    } else {
        None
    }
}

/// Posting `i` of block `b`, or the start of the next block.
pub open spec fn settle(blocks: Seq<SparseBlock>, b: int, i: int) -> Position {
    if i < blocks[b].count() {
        Some((b, i))
    } else {
        block_start(blocks, b + 1)
    }
}

/// Whether a position is one of a list.
pub open spec fn valid(blocks: Seq<SparseBlock>, at: Position) -> bool {
    match at {
        None => true,
        Some((b, i)) => 0 <= b < blocks.len() && 0 <= i < blocks[b].count(),
    }
}

/// The document at a position.
pub open spec fn doc_at(blocks: Seq<SparseBlock>, at: Position) -> u32 {
    match at {
        None => TERMINATED,
        Some((b, i)) => blocks[b].docs()[i],
    }
}

/// Where a step leads.
pub open spec fn next_at(blocks: Seq<SparseBlock>, at: Position) -> Position {
    match at {
        None => None,
        Some((b, i)) => settle(blocks, b, i + 1),
    }
}

/// Where seeking `target` leads: nowhere if the document is already there,
/// within the block if it ends late enough, else into the last block that
/// starts early enough.
pub open spec fn seek_at(blocks: Seq<SparseBlock>, at: Position, target: u32) -> Position {
    match at {
        None => None,
        Some((b, i)) => if blocks[b].docs()[i] >= target {
            at
        } else if blocks[b].docs().last() >= target {
            settle(blocks, b, cursor::lower_from(blocks[b].docs(), target, i))
        } else {
            match sparse_list::block_for(blocks, target) {
                None => None,
                Some(c) => settle(blocks, c, cursor::lower_from(blocks[c].docs(), target, 0)),
            }
        },
    }
}

/// A cursor over a sparse posting list. The ordinals of a block are decoded
/// when they are asked for.
pub struct BlockSparsePostingIterator<'a> {
    posting_list: &'a BlockSparsePostingList,
    block_idx: usize,
    in_block_idx: usize,
    current_doc_ids: Vec<u32>,
    current_ordinals: Vec<u16>,
    current_weights: Vec<Weight>,
    ordinals_decoded: bool,
    exhausted: bool,
}

/// The first index from `from` on whose document is at least `target`.
fn first_from(docs: &[u32], from: usize, target: u32) -> (r: usize)
    requires
        from <= docs.len(),
    ensures
        r == cursor::lower_from(docs@, target, from as int),
        from <= r <= docs.len(),
{
    let mut i: usize = from;
    while i < docs.len() && docs[i] < target
        invariant
            from <= i <= docs.len(),
            cursor::lower_from(docs@, target, from as int) == cursor::lower_from(
                docs@,
                target,
                i as int,
            ),
        decreases docs.len() - i,
    {
        i = i + 1;
    }
    i
}

impl<'a> BlockSparsePostingIterator<'a> {
    /// The list.
    pub closed spec fn list(&self) -> &'a BlockSparsePostingList {
        self.posting_list
    }

    /// The blocks of the list.
    pub open spec fn blocks(&self) -> Seq<SparseBlock> {
        self.list().blocks@
    }

    /// Where the cursor is.
    pub closed spec fn at(&self) -> Position {
        if self.exhausted {
            None
        } else {
            Some((self.block_idx as int, self.in_block_idx as int))
        }
    }

    /// The block that was loaded last.
    pub closed spec fn loaded(&self) -> int {
        self.block_idx as int
    }

    /// The block that is loaded once this cursor has moved to a position; at
    /// the end it is one past the last.
    pub open spec fn loaded_at(&self, to: Position) -> int {
        match (self.at(), to) {
            (None, _) => self.loaded(),
            (_, Some((b, _))) => b,
            _ => self.blocks().len() as int,
        }
    }

    /// Whether a search for `target` leads out of the loaded block.
    pub open spec fn leaves(&self, target: u32) -> bool {
        self.at() matches Some((b, i)) && self.blocks()[b].docs()[i] < target
            && self.blocks()[b].docs().last() < target
    }

    /// Whether the cursor agrees with its list.
    pub closed spec fn wf(&self) -> bool {
        let blocks = self.posting_list.blocks@;
        &&& self.posting_list.wf()
        &&& self.block_idx <= blocks.len()
        &&& !self.exhausted ==> {
            let block = blocks[self.block_idx as int];
            &&& self.block_idx < blocks.len()
            &&& self.in_block_idx < block.count()
            &&& self.current_doc_ids@ == block.docs()
            &&& self.current_weights@ == block.weights()
            &&& self.ordinals_decoded ==> self.current_ordinals@ == block.ordinals()
        }
    }

    /// A cursor at the first posting.
    pub fn new(posting_list: &'a BlockSparsePostingList) -> (r: Self)
        requires
            posting_list.wf(),
        ensures
            r.wf(),
            r.list() == posting_list,
            r.at() == block_start(posting_list.blocks@, 0),
            r.loaded() == 0,
    {
        let mut it = BlockSparsePostingIterator {
            posting_list,
            block_idx: 0,
            in_block_idx: 0,
            current_doc_ids: Vec::new(),
            current_ordinals: Vec::new(),
            current_weights: Vec::new(),
            ordinals_decoded: false,
            exhausted: posting_list.blocks.len() == 0,
        };
        if !it.exhausted {
            it.load_block(0);
        }
        it
    }

    fn load_block(&mut self, block_idx: usize)
        requires
            old(self).posting_list.wf(),
            block_idx < old(self).posting_list.blocks@.len(),
        ensures
            final(self).posting_list == old(self).posting_list,
            final(self).exhausted == old(self).exhausted,
            final(self).block_idx == block_idx,
            final(self).in_block_idx == 0,
            final(self).current_doc_ids@ == old(self).posting_list.blocks@[block_idx as int].docs(),
            !final(self).exhausted ==> final(self).wf(),
    {
        let list: &'a BlockSparsePostingList = self.posting_list;
        let block: &SparseBlock = &list.blocks[block_idx];
        proof {
            assert(list.blocks@[block_idx as int].wf());
        }
        block.decode_doc_ids_into(&mut self.current_doc_ids);
        block.decode_weights_into(&mut self.current_weights);
        self.ordinals_decoded = false;
        self.block_idx = block_idx;
        self.in_block_idx = 0;
    }

    /// Go to posting `i` of the loaded block, or to the next block.
    fn settle_at(&mut self, i: usize)
        requires
            old(self).wf(),
            !old(self).exhausted,
            i <= old(self).posting_list.blocks@[old(self).block_idx as int].count(),
        ensures
            final(self).wf(),
            final(self).list() == old(self).list(),
            final(self).at() == settle(
                old(self).blocks(),
                old(self).block_idx as int,
                i as int,
            ),
            final(self).at() is None ==> final(self).loaded() == old(self).blocks().len(),
    {
        proof {
            assert(self.posting_list.blocks@[self.block_idx as int].wf());
        }
        if i < self.current_doc_ids.len() {
            self.in_block_idx = i;
        } else if self.posting_list.blocks.len() - self.block_idx <= 1 {
            self.block_idx = self.block_idx + 1;
            self.exhausted = true;
        } else {
            self.load_block(self.block_idx + 1);
        }
    }

    /// The document at the cursor, or the sentinel.
    pub fn doc(&self) -> (r: u32)
        requires
            self.wf(),
        ensures
            r == doc_at(self.blocks(), self.at()),
    {
        if self.exhausted {
            TERMINATED
        } else {
            self.current_doc_ids[self.in_block_idx]
        }
    }

    /// The weight at the cursor, or zero.
    pub fn weight(&self) -> (r: Weight)
        requires
            self.wf(),
        ensures
            r == (match self.at() {
                None => Weight::Single(0),
                Some((b, i)) => self.blocks()[b].weights()[i],
            }),
    {
        if self.exhausted {
            return Weight::Single(0);
        }
        self.current_weights[self.in_block_idx]
    }

    /// The ordinal at the cursor, or zero.
    pub fn ordinal(&mut self) -> (r: u16)
        requires
            old(self).wf(),
        ensures
            final(self).wf(),
            final(self).list() == old(self).list(),
            final(self).at() == old(self).at(),
            final(self).loaded() == old(self).loaded(),
            r == (match old(self).at() {
                None => 0u16,
                Some((b, i)) => old(self).blocks()[b].ordinals()[i],
            }),
    {
        if self.exhausted {
            return 0;
        }
        if !self.ordinals_decoded {
            let list: &'a BlockSparsePostingList = self.posting_list;
            let block: &SparseBlock = &list.blocks[self.block_idx];
            proof {
                assert(list.blocks@[self.block_idx as int].wf());
            }
            block.decode_ordinals_into(&mut self.current_ordinals);
            self.ordinals_decoded = true;
        }
        self.current_ordinals[self.in_block_idx]
    }

    /// Go to the next posting.
    pub fn advance(&mut self) -> (r: u32)
        requires
            old(self).wf(),
        ensures
            final(self).wf(),
            final(self).list() == old(self).list(),
            final(self).at() == next_at(old(self).blocks(), old(self).at()),
            final(self).loaded() == old(self).loaded_at(final(self).at()),
            r == doc_at(old(self).blocks(), final(self).at()),
    {
        if self.exhausted {
            return TERMINATED;
        }
        let i: usize = self.in_block_idx + 1;
        self.settle_at(i);
        self.doc()
    }

    /// Go to a posting of a document of at least `target`.
    pub fn seek(&mut self, target: u32) -> (r: u32)
        requires
            old(self).wf(),
            sparse_list::firsts_ordered(old(self).blocks()),
        ensures
            final(self).wf(),
            final(self).list() == old(self).list(),
            final(self).at() == seek_at(old(self).blocks(), old(self).at(), target),
            final(self).loaded() == (if old(self).leaves(target) && sparse_list::block_for(
                old(self).blocks(),
                target,
            ) is None {
                old(self).loaded()
            } else {
                old(self).loaded_at(final(self).at())
            }),
            r == doc_at(old(self).blocks(), final(self).at()),
    {
        if self.exhausted {
            return TERMINATED;
        }
        if self.current_doc_ids[self.in_block_idx] >= target {
            return self.doc();
        }
        let last: usize = self.current_doc_ids.len() - 1;
        if self.current_doc_ids[last] >= target {
            let at: usize = first_from(
                self.current_doc_ids.as_slice(),
                self.in_block_idx,
                target,
            );
            self.settle_at(at);
            return self.doc();
        }
        let list: &'a BlockSparsePostingList = self.posting_list;
        match list.find_block(target) {
            Some(block_idx) => {
                proof {
                    started_bounds(list.blocks@, target, list.blocks@.len() as int);
                }
                self.load_block(block_idx);
                let at: usize = first_from(self.current_doc_ids.as_slice(), 0, target);
                self.settle_at(at);
            },
            None => {
                self.exhausted = true;
            },
        }
        self.doc()
    }

    /// Go to the start of the next block.
    pub fn skip_to_next_block(&mut self) -> (r: u32)
        requires
            old(self).wf(),
        ensures
            final(self).wf(),
            final(self).list() == old(self).list(),
            final(self).at() == (match old(self).at() {
                None => None,
                Some((b, _)) => block_start(old(self).blocks(), b + 1),
            }),
            final(self).loaded() == (match final(self).at() {
                Some((b, _)) => b,
                None => old(self).loaded(),
            }),
            r == doc_at(old(self).blocks(), final(self).at()),
    {
        if self.exhausted {
            return TERMINATED;
        }
        if self.posting_list.blocks.len() - self.block_idx <= 1 {
            self.exhausted = true;
            return TERMINATED;
        }
        self.load_block(self.block_idx + 1);
        self.doc()
    }

    /// Whether the cursor has left the list.
    pub fn is_exhausted(&self) -> (r: bool)
        ensures
            r == (self.at() is None),
    {
        self.exhausted
    }

    /// The largest weight of the block that was loaded last, or zero.
    pub fn current_block_max_weight(&self) -> (r: u32)
        requires
            self.wf(),
        ensures
            r == (if self.loaded() < self.blocks().len() {
                self.blocks()[self.loaded()].header.max_weight
            } else {
                0
            }),
            self.at() matches Some((b, _)) ==> r == self.blocks()[b].header.max_weight,
    {
        match self.posting_list.block_max_weight(self.block_idx) {
            Some(w) => w,
            None => 0,
        }
    }
}

impl BlockSparsePostingList {
    /// A cursor at the first posting.
    pub fn iterator(&self) -> (r: BlockSparsePostingIterator<'_>)
        requires
            self.wf(),
        ensures
            r.wf(),
            r.list() == self,
            r.at() == block_start(self.blocks@, 0),
            r.loaded() == 0,
    {
        BlockSparsePostingIterator::new(self)
    }
}

proof fn started_bounds(blocks: Seq<SparseBlock>, target: u32, n: int)
    requires
        0 <= n,
    ensures
        0 <= sparse_list::started(blocks, target, n) <= n,
    decreases n,
{
    if n > 0 {
        started_bounds(blocks, target, n - 1);
    }
}

/// Whether position `p` is at or after position `q`.
pub open spec fn not_before(p: (int, int), q: (int, int)) -> bool {
    p.0 > q.0 || (p.0 == q.0 && p.1 >= q.1)
}

/// Seeking never goes back, never ends before `target`, and passes over no
/// document that it should have found: every posting from the cursor on with
/// a document of at least `target` has at least the document that seeking
/// leads to.
pub proof fn sparse_seek_finds(list: &BlockSparsePostingList, at: (int, int), target: u32)
    requires
        list.wf(),
        list.ordered(),
        valid(list.blocks@, Some(at)),
    ensures
        ({
            let to = seek_at(list.blocks@, Some(at), target);
            &&& valid(list.blocks@, to)
            &&& to matches Some(p) ==> not_before(p, at) && doc_at(list.blocks@, to) >= target
            &&& forall|b: int, i: int|
                valid(list.blocks@, Some((b, i))) && not_before((b, i), at)
                    && #[trigger] list.blocks@[b].docs()[i] >= target ==> doc_at(list.blocks@, to)
                    <= list.blocks@[b].docs()[i] && to is Some
        }),
{
    let blocks = list.blocks@;
    let to = seek_at(blocks, Some(at), target);
    let (b, i) = at;
    let n = blocks.len() as int;
    firsts_follow(list);
    started_splits(blocks, target, n);
    started_bounds(blocks, target, n);
    let s = sparse_list::started(blocks, target, n);
    sound_docs(list, b);
    if blocks[b].docs()[i] >= target {
    } else if blocks[b].docs().last() >= target {
        let docs = blocks[b].docs();
        cursor::lower_from_is(docs, target, i);
        assert(docs[docs.len() - 1] >= target);
    } else {
        assert(blocks[b].header.first_doc_id <= target) by {
            assert(blocks[b].docs()[0] <= blocks[b].docs()[blocks[b].docs().len() - 1]);
        }
        assert(s > b);
        sound_docs(list, s - 1);
        cursor::lower_from_is(blocks[s - 1].docs(), target, 0);
        let docs = blocks[s - 1].docs();
        assert(docs[0] <= docs[docs.len() - 1]);
        if s < n {
            sound_docs(list, s);
        }
        let k = cursor::lower_from(docs, target, 0);
        if s - 1 == b && k < docs.len() {
            assert(docs[k] <= docs[docs.len() - 1]);
        }
    }
    assert forall|d: int, j: int|
        valid(blocks, Some((d, j))) && not_before((d, j), at)
            && #[trigger] blocks[d].docs()[j] >= target implies doc_at(blocks, to)
        <= blocks[d].docs()[j] && to is Some by {
        sound_docs(list, d);
        let docs = blocks[d].docs();
        assert(docs[0] <= docs[j] <= docs[docs.len() - 1]);
        if to is Some {
            let p = to->Some_0;
            sound_docs(list, p.0);
            let there = blocks[p.0].docs();
            assert(there[0] <= there[p.1] <= there[there.len() - 1]);
            if p.0 < d {
                assert(blocks[p.0].last_doc_id <= blocks[d].header.first_doc_id);
            } else if d < p.0 {
                assert(blocks[d].last_doc_id <= blocks[p.0].header.first_doc_id);
                if d < s - 1 {
                    assert(blocks[d].last_doc_id <= blocks[s - 1].header.first_doc_id);
                }
            }
        } else {
            if d < s - 1 {
                assert(blocks[d].last_doc_id <= blocks[s - 1].header.first_doc_id);
            }
        }
    }
}

proof fn sound_docs(list: &BlockSparsePostingList, b: int)
    requires
        list.wf(),
        0 <= b < list.blocks@.len(),
    ensures
        list.blocks@[b].docs().len() == list.blocks@[b].count(),
        list.blocks@[b].count() > 0,
        gaps::ascending(list.blocks@[b].docs()),
        list.blocks@[b].docs()[0] == list.blocks@[b].header.first_doc_id,
        list.blocks@[b].docs().last() == list.blocks@[b].last_doc_id,
{
    assert(list.blocks@[b].wf());
    sparse_block::block_docs_ascending(&list.blocks@[b]);
}

proof fn started_splits(blocks: Seq<SparseBlock>, target: u32, n: int)
    requires
        sparse_list::firsts_ordered(blocks),
        0 <= n <= blocks.len(),
    ensures
        ({
            let s = sparse_list::started(blocks, target, n);
            &&& forall|i: int|
                0 <= i < s ==> (#[trigger] blocks[i]).header.first_doc_id <= target
            &&& forall|i: int| s <= i < n ==> (#[trigger] blocks[i]).header.first_doc_id > target
        }),
    decreases n,
{
    if n > 0 {
        started_splits(blocks, target, n - 1);
        started_bounds(blocks, target, n - 1);
    }
}

/// Blocks that do not overlap start in order.
pub proof fn firsts_follow(list: &BlockSparsePostingList)
    requires
        list.wf(),
        list.ordered(),
    ensures
        sparse_list::firsts_ordered(list.blocks@),
{
    let blocks = list.blocks@;
    assert forall|i: int, j: int| 0 <= i <= j < blocks.len() implies (
    #[trigger] blocks[i]).header.first_doc_id <= (#[trigger] blocks[j]).header.first_doc_id by {
        if i < j {
            assert(blocks[i].wf());
            sparse_block::block_docs_ascending(&blocks[i]);
            assert(blocks[i].docs()[0] <= blocks[i].docs()[blocks[i].docs().len() - 1]);
        }
    }
}

} // verus!
