//! Handing runs of postings to a visitor.
use crate::block::PostingBlock;
use crate::cursor;
use crate::cursor::Position;
use crate::iterator::BlockPostingIterator;
use vstd::prelude::*;

verus! {

/// Where the run at a position ends in its block: before `end`, and at the
/// latest where the block ends.
pub open spec fn run_stop(blocks: Seq<PostingBlock>, b: int, k: int, end: u32) -> int {
    cursor::lower_from(blocks[b].docs(), end, k)
}

/// The documents of the run at a position.
pub open spec fn run_docs(blocks: Seq<PostingBlock>, at: Position, end: u32) -> Seq<u32> {
    match at {
        None => Seq::empty(),
        Some((b, k)) => blocks[b].docs().subrange(k, run_stop(blocks, b, k, end)),
    }
}

/// The frequencies of the run at a position.
pub open spec fn run_tfs(blocks: Seq<PostingBlock>, at: Position, end: u32) -> Seq<u32> {
    match at {
        None => Seq::empty(),
        Some((b, k)) => blocks[b].tfs().subrange(k, run_stop(blocks, b, k, end)),
    }
}

/// The position after the run at a position.
pub open spec fn after_run(blocks: Seq<PostingBlock>, at: Position, end: u32) -> Position {
    match at {
        None => None,
        Some((b, k)) => cursor::block_at(blocks, b, run_stop(blocks, b, k, end)),
    }
}

/// The position after `n` runs.
pub open spec fn after_runs(blocks: Seq<PostingBlock>, at: Position, end: u32, n: int) -> Position
    decreases n,
{
    if n <= 0 {
        at
    } else {
        after_run(blocks, after_runs(blocks, at, end, n - 1), end)
    }
}

/// Whether a visitor of postings said `answer` to the run at a position.
pub open spec fn told<F: Fn(&[u32], &[u32]) -> bool>(
    visit: F,
    blocks: Seq<PostingBlock>,
    at: Position,
    end: u32,
    answer: bool,
) -> bool {
    exists|docs: &[u32], tfs: &[u32]| #[trigger]
        visit.ensures((docs, tfs), answer) && docs@ == run_docs(blocks, at, end) && tfs@ == run_tfs(
            blocks,
            at,
            end,
        )
}

/// Whether a visitor of documents said `answer` to the run at a position.
pub open spec fn told_docs<F: Fn(&[u32]) -> bool>(
    visit: F,
    blocks: Seq<PostingBlock>,
    at: Position,
    end: u32,
    answer: bool,
) -> bool {
    exists|docs: &[u32]| #[trigger]
        visit.ensures((docs,), answer) && docs@ == run_docs(blocks, at, end)
}

/// Whether no run before `end` is left.
pub open spec fn reached(blocks: Seq<PostingBlock>, at: Position, end: u32) -> bool {
    cursor::doc_at(blocks, at) >= end
}

impl<'a> BlockPostingIterator<'a> {
    /// Hand the runs of postings before `end` to a visitor, each from one
    /// block, until it refuses one. A refused run is not consumed.
    pub fn visit_postings_until<F: Fn(&[u32], &[u32]) -> bool>(&mut self, end: u32, visit: &F)
        requires
            old(self).wf(),
            forall|docs: &[u32], tfs: &[u32]| #[trigger] visit.requires((docs, tfs)),
        ensures
            final(self).wf(),
            final(self).list() == old(self).list(),
            exists|n: int|
                {
                    &&& n >= 0
                    &&& final(self).at() == #[trigger] after_runs(
                        old(self).blocks(),
                        old(self).at(),
                        end,
                        n,
                    )
                    &&& forall|j: int|
                        0 <= j < n ==> told(
                            *visit,
                            old(self).blocks(),
                            #[trigger] after_runs(old(self).blocks(), old(self).at(), end, j),
                            end,
                            true,
                        )
                    &&& reached(old(self).blocks(), final(self).at(), end) || told(
                        *visit,
                        old(self).blocks(),
                        final(self).at(),
                        end,
                        false,
                    )
                },
    {
        let ghost blocks = self.blocks();
        let ghost start = self.at();
        let ghost mut n: int = 0;
        while self.doc() < end
            invariant_except_break
                self.wf(),
                self.list() == old(self).list(),
                blocks == old(self).blocks(),
                blocks == self.blocks(),
                start == old(self).at(),
                n >= 0,
                self.at() == after_runs(blocks, start, end, n),
                forall|docs: &[u32], tfs: &[u32]| #[trigger] visit.requires((docs, tfs)),
                forall|j: int|
                    0 <= j < n ==> told(
                        *visit,
                        blocks,
                        #[trigger] after_runs(blocks, start, end, j),
                        end,
                        true,
                    ),
            ensures
                self.wf(),
                self.list() == old(self).list(),
                n >= 0,
                self.at() == after_runs(blocks, start, end, n),
                forall|j: int|
                    0 <= j < n ==> told(
                        *visit,
                        blocks,
                        #[trigger] after_runs(blocks, start, end, j),
                        end,
                        true,
                    ),
                reached(blocks, self.at(), end) || told(*visit, blocks, self.at(), end, false),
            decreases self.rest().len(),
        {
            let ghost at = self.at();
            proof {
                self.facts();
                run_is_some(blocks, at, end);
            }
            let tfs: Vec<u32> = self.tf_run(end);
            let docs: &[u32] = self.doc_run(end);
            let ghost seen: &[u32] = docs;
            let tf_slice: &[u32] = tfs.as_slice();
            let go: bool = visit(docs, tf_slice);
            proof {
                assert(visit.ensures((seen, tf_slice), go));
                assert(told(*visit, blocks, at, end, go));
            }
            if !go {
                break;
            }
            proof {
                self.facts();
                cursor::next_rest(blocks, at);
            }
            self.consume_run(end);
            proof {
                assert(after_runs(blocks, start, end, n + 1) == after_run(blocks, at, end));
                n = n + 1;
            }
        }
    }

    /// Hand the runs of documents before `end` to a visitor, each from one
    /// block, until it refuses one. A refused run is not consumed.
    pub fn visit_doc_ids_until<F: Fn(&[u32]) -> bool>(&mut self, end: u32, visit: &F)
        requires
            old(self).wf(),
            forall|docs: &[u32]| #[trigger] visit.requires((docs,)),
        ensures
            final(self).wf(),
            final(self).list() == old(self).list(),
            exists|n: int|
                {
                    &&& n >= 0
                    &&& final(self).at() == #[trigger] after_runs(
                        old(self).blocks(),
                        old(self).at(),
                        end,
                        n,
                    )
                    &&& forall|j: int|
                        0 <= j < n ==> told_docs(
                            *visit,
                            old(self).blocks(),
                            #[trigger] after_runs(old(self).blocks(), old(self).at(), end, j),
                            end,
                            true,
                        )
                    &&& reached(old(self).blocks(), final(self).at(), end) || told_docs(
                        *visit,
                        old(self).blocks(),
                        final(self).at(),
                        end,
                        false,
                    )
                },
    {
        let ghost blocks = self.blocks();
        let ghost start = self.at();
        let ghost mut n: int = 0;
        while self.doc() < end
            invariant_except_break
                self.wf(),
                self.list() == old(self).list(),
                blocks == old(self).blocks(),
                blocks == self.blocks(),
                start == old(self).at(),
                n >= 0,
                self.at() == after_runs(blocks, start, end, n),
                forall|docs: &[u32]| #[trigger] visit.requires((docs,)),
                forall|j: int|
                    0 <= j < n ==> told_docs(
                        *visit,
                        blocks,
                        #[trigger] after_runs(blocks, start, end, j),
                        end,
                        true,
                    ),
            ensures
                self.wf(),
                self.list() == old(self).list(),
                n >= 0,
                self.at() == after_runs(blocks, start, end, n),
                forall|j: int|
                    0 <= j < n ==> told_docs(
                        *visit,
                        blocks,
                        #[trigger] after_runs(blocks, start, end, j),
                        end,
                        true,
                    ),
                reached(blocks, self.at(), end) || told_docs(
                    *visit,
                    blocks,
                    self.at(),
                    end,
                    false,
                ),
            decreases self.rest().len(),
        {
            let ghost at = self.at();
            proof {
                self.facts();
                run_is_some(blocks, at, end);
            }
            let docs: &[u32] = self.doc_run(end);
            let ghost seen: &[u32] = docs;
            let go: bool = visit(docs);
            proof {
                assert(visit.ensures((seen,), go));
                assert(told_docs(*visit, blocks, at, end, go));
            }
            if !go {
                break;
            }
            proof {
                self.facts();
                cursor::next_rest(blocks, at);
            }
            self.consume_run(end);
            proof {
                assert(after_runs(blocks, start, end, n + 1) == after_run(blocks, at, end));
                n = n + 1;
            }
        }
    }
}

/// A run that starts before `end` is not empty.
proof fn run_is_some(blocks: Seq<PostingBlock>, at: Position, end: u32)
    requires
        cursor::valid_at(blocks, at),
        cursor::doc_at(blocks, at) < end,
    ensures
        at is Some,
        run_stop(blocks, at->Some_0.0, at->Some_0.1, end) > at->Some_0.1,
{
    let (b, k) = at->Some_0;
    cursor::lower_from_is(blocks[b].docs(), end, k + 1);
}

} // verus!
