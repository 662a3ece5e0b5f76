//! Scores from the weights of a sparse block.
//!
//! What a weight scores, and how scores are summed, is the caller's
//! arithmetic.
use crate::sparse_block::SparseBlock;
use crate::sparse_weights::Weight;
use vstd::prelude::*;

verus! {

/// Scores by document, and the documents that were given one.
pub type Tally<T> = (Seq<T>, Seq<u32>);

/// Whether `after` is `before` with a weight of a document added. A document
/// outside the scores is passed over; one whose score was none is noted.
pub open spec fn tallied<T, Z: Fn(T) -> bool, A: Fn(T, Weight) -> T>(
    before: Tally<T>,
    after: Tally<T>,
    base_doc: u32,
    doc: u32,
    weight: Weight,
    is_none: Z,
    plus: A,
) -> bool {
    let off = doc - base_doc;
    if off >= before.0.len() {
        after == before
    } else {
        exists|none: bool, sum: T|
            {
                &&& #[trigger] is_none.ensures((before.0[off],), none)
                &&& #[trigger] plus.ensures((before.0[off], weight), sum)
                &&& after.0 == before.0.update(off, sum)
                &&& after.1 == (if none {
                    before.1.push(doc)
                } else {
                    before.1
                })
            }
    }
}

/// Whether a run of tallies adds the weights of documents one after the
/// other.
pub open spec fn tallies<T, Z: Fn(T) -> bool, A: Fn(T, Weight) -> T>(
    run: Seq<Tally<T>>,
    base_doc: u32,
    docs: Seq<u32>,
    weights: Seq<Weight>,
    is_none: Z,
    plus: A,
) -> bool {
    forall|i: int|
        0 <= i < run.len() - 1 ==> tallied(
            #[trigger] run[i],
            run[i + 1],
            base_doc,
            docs[i],
            weights[i],
            is_none,
            plus,
        )
}

impl SparseBlock {
    /// Decode the weights in place of what `out` holds, each as what it
    /// scores.
    pub fn decode_scored_weights_into<T, F: Fn(Weight) -> T>(&self, scored: &F, out: &mut Vec<T>)
        requires
            self.weights_fit(),
            forall|w: Weight| #[trigger] scored.requires((w,)),
        ensures
            final(out)@.len() == self.weights().len(),
            forall|i: int|
                0 <= i < self.weights().len() ==> scored.ensures(
                    (self.weights()[i],),
                    #[trigger] final(out)@[i],
                ),
    {
        out.clear();
        let weights = self.decode_weights();
        let mut i: usize = 0;
        while i < weights.len()
            invariant
                i <= weights@.len(),
                weights@ == self.weights(),
                out@.len() == i,
                forall|w: Weight| #[trigger] scored.requires((w,)),
                forall|k: int|
                    0 <= k < i ==> scored.ensures((self.weights()[k],), #[trigger] out@[k]),
            decreases weights@.len() - i,
        {
            let score = scored(weights[i]);
            out.push(score);
            i = i + 1;
        }
    }

    /// Add the weights to the scores of their documents, which start at
    /// `base_doc`. A document whose score was none goes to `dirty`. Gives the
    /// number of postings in the block.
    pub fn accumulate_scored_weights<T: Copy, Z: Fn(T) -> bool, A: Fn(T, Weight) -> T>(
        &self,
        doc_ids: &[u32],
        flat_scores: &mut [T],
        base_doc: u32,
        dirty: &mut Vec<u32>,
        is_none: &Z,
        plus: &A,
    ) -> (r: usize)
        requires
            self.weights_fit(),
            forall|i: int|
                0 <= i < doc_ids@.len() && i < self.weights().len() ==> (#[trigger] doc_ids@[i])
                    >= base_doc,
            forall|t: T| #[trigger] is_none.requires((t,)),
            forall|t: T, w: Weight| #[trigger] plus.requires((t, w)),
        ensures
            r == self.header.count,
            exists|run: Seq<Tally<T>>|
                {
                    &&& run.len() == 1 + (if self.weights().len() <= doc_ids@.len() {
                        self.weights().len()
                    } else {
                        doc_ids@.len()
                    })
                    &&& run[0] == (old(flat_scores)@, old(dirty)@)
                    &&& run[run.len() - 1] == (final(flat_scores)@, final(dirty)@)
                    &&& #[trigger] tallies(
                        run,
                        base_doc,
                        doc_ids@,
                        self.weights(),
                        *is_none,
                        *plus,
                    )
                },
    {
        let weights = self.decode_weights();
        let n: usize = if weights.len() <= doc_ids.len() {
            weights.len()
        } else {
            doc_ids.len()
        };
        let ghost mut run: Seq<Tally<T>> = seq![(flat_scores@, dirty@)];
        let mut i: usize = 0;
        while i < n
            invariant
                i <= n <= weights@.len(),
                n <= doc_ids@.len(),
                weights@ == self.weights(),
                flat_scores@.len() == old(flat_scores)@.len(),
                run.len() == i + 1,
                run[0] == (old(flat_scores)@, old(dirty)@),
                run[i as int] == (flat_scores@, dirty@),
                tallies(run, base_doc, doc_ids@, weights@, *is_none, *plus),
                forall|k: int|
                    0 <= k < doc_ids@.len() && k < weights@.len() ==> (#[trigger] doc_ids@[k])
                        >= base_doc,
                forall|t: T| #[trigger] is_none.requires((t,)),
                forall|t: T, w: Weight| #[trigger] plus.requires((t, w)),
            decreases n - i,
        {
            let ghost before = (flat_scores@, dirty@);
            let doc: u32 = doc_ids[i];
            let off: usize = (doc - base_doc) as usize;
            if off < flat_scores.len() {
                let old_score = flat_scores[off];
                let none = is_none(old_score);
                if none {
                    dirty.push(doc);
                }
                let sum = plus(old_score, weights[i]);
                flat_scores[off] = sum;
                proof {
                    assert(is_none.ensures((before.0[off as int],), none));
                    assert(plus.ensures((before.0[off as int], weights@[i as int]), sum));
                }
            }
            proof {
                let after = (flat_scores@, dirty@);
                assert(tallied(
                    before,
                    after,
                    base_doc,
                    doc,
                    weights@[i as int],
                    *is_none,
                    *plus,
                ));
                let longer = run.push(after);
                assert forall|k: int| 0 <= k < longer.len() - 1 implies tallied(
                    #[trigger] longer[k],
                    longer[k + 1],
                    base_doc,
                    doc_ids@[k],
                    weights@[k],
                    *is_none,
                    *plus,
                ) by {
                    if k < i {
                        assert(longer[k] == run[k]);
                        assert(longer[k + 1] == run[k + 1]);
                    }
                }
                run = longer;
            }
            i = i + 1;
        }
        self.header.count as usize
    }
}

} // verus!
