//! Posting lists of packed blocks, and cursors over them.
use crate::block;
use crate::bp128;
use crate::bp128::at_least_one;
use crate::bp128::BP128Block;
use crate::cursor;
use crate::cursor::Position;
use crate::encode;
use crate::posting::Posting;
use vstd::prelude::*;

verus! {

/// A posting list of packed blocks.
#[derive(Debug)]
pub struct BP128PostingList<const VERTICAL: bool> {
    pub blocks: Vec<BP128Block<VERTICAL>>,
    pub doc_count: u32,
    /// Bits of the largest score of a block.
    pub max_score: u32,
}

pub type RoundedBP128PostingList = BP128PostingList<false>;

pub type VerticalBP128PostingList = BP128PostingList<true>;

/// The larger of two single-precision numbers by their bits, the first not
/// being below zero. What is not a number never wins.
pub open spec fn larger_score(a: u32, b: u32) -> u32 {
    if b <= 0x7F80_0000 && b > a {
        b
    } else {
        a
    }
}

/// Largest score of the blocks from `from` up to `to`.
pub open spec fn top_score<const VERTICAL: bool>(
    blocks: Seq<BP128Block<VERTICAL>>,
    from: int,
    to: int,
) -> u32
    decreases to - from,
{
    if to <= from {
        0
    } else {
        larger_score(top_score(blocks, from, to - 1), blocks[to - 1].max_block_score)
    }
}

/// The postings of the blocks.
pub open spec fn runs<const VERTICAL: bool>(blocks: Seq<BP128Block<VERTICAL>>) -> Seq<Seq<Posting>> {
    Seq::new(blocks.len(), |i: int| blocks[i].postings())
}

/// The postings of the first `n` runs.
pub open spec fn flat(runs: Seq<Seq<Posting>>, n: int) -> Seq<Posting>
    decreases n,
{
    if n <= 0 {
        Seq::empty()
    } else {
        flat(runs, n - 1) + runs[n - 1]
    }
}

/// The postings from run `b` on.
pub open spec fn flat_from(runs: Seq<Seq<Posting>>, b: int) -> Seq<Posting>
    decreases runs.len() - b,
{
    if b < 0 || b >= runs.len() {
        Seq::empty()
    } else {
        runs[b] + flat_from(runs, b + 1)
    }
}

/// The postings from a position on.
pub open spec fn rest_at(runs: Seq<Seq<Posting>>, at: Position) -> Seq<Posting> {
    match at {
        None => Seq::empty(),
        Some((b, k)) => runs[b].skip(k) + flat_from(runs, b + 1),
    }
}

/// Whether a position is one of a posting.
pub open spec fn valid_at(runs: Seq<Seq<Posting>>, at: Position) -> bool {
    match at {
        None => true,
        Some((b, k)) => 0 <= b < runs.len() && 0 <= k < runs[b].len(),
    }
}

/// The start of run `b`, if it is there.
pub open spec fn load_at(runs: Seq<Seq<Posting>>, b: int) -> Position {
    if 0 <= b < runs.len() {
        Some((b, 0))
    } else {
        None
    }
}

/// The position of the next posting.
pub open spec fn next_at(runs: Seq<Seq<Posting>>, at: Position) -> Position {
    match at {
        None => None,
        Some((b, k)) => if k + 1 < runs[b].len() {
            Some((b, k + 1))
        } else {
            load_at(runs, b + 1)
        },
    }
}

/// Document at a position.
pub open spec fn doc_at(runs: Seq<Seq<Posting>>, at: Position) -> u32 {
    match at {
        None => u32::MAX,
        Some((b, k)) => runs[b][k].doc_id,
    }
}

/// Term frequency at a position.
pub open spec fn tf_at(runs: Seq<Seq<Posting>>, at: Position) -> u32 {
    match at {
        None => 0,
        Some((b, k)) => runs[b][k].term_freq,
    }
}

/// First block from `from` on whose last document is at least `target`.
pub open spec fn block_from<const VERTICAL: bool>(
    blocks: Seq<BP128Block<VERTICAL>>,
    from: int,
    target: u32,
) -> int
    decreases blocks.len() - from,
{
    if from >= blocks.len() || blocks[from].last_doc_id >= target {
        from
    } else {
        block_from(blocks, from + 1, target)
    }
}

/// Where seeking `target` leads: blocks that end before it are passed over,
/// then postings of the block found.
pub open spec fn seek_at<const VERTICAL: bool>(
    blocks: Seq<BP128Block<VERTICAL>>,
    at: Position,
    target: u32,
) -> Position {
    match at {
        None => None,
        Some((b, k)) => {
            let c = block_from(blocks, b, target);
            if c >= blocks.len() {
                None
            } else {
                let from = if c == b {
                    k
                } else {
                    0
                };
                let j = cursor::lower_from(blocks[c].docs(), target, from);
                if j < blocks[c].num_docs {
                    Some((c, j))
                } else {
                    load_at(runs(blocks), c + 1)
                }
            }
        },
    }
}

/// Whether every block can be decoded.
pub open spec fn all_shaped<const VERTICAL: bool>(blocks: Seq<BP128Block<VERTICAL>>) -> bool {
    forall|i: int| 0 <= i < blocks.len() ==> (#[trigger] blocks[i]).shape_ok()
}

/// Whether documents are in order and blocks say which they hold.
pub open spec fn ordered<const VERTICAL: bool>(blocks: Seq<BP128Block<VERTICAL>>) -> bool {
    &&& forall|i: int|
        0 <= i < blocks.len() ==> block::increasing((#[trigger] blocks[i]).docs())
            && blocks[i].docs()[0] == blocks[i].first_doc_id && blocks[i].docs().last()
            == blocks[i].last_doc_id
    &&& forall|i: int, j: int|
        0 <= i < j < blocks.len() ==> blocks[i].last_doc_id < blocks[j].first_doc_id
}

proof fn block_from_is<const VERTICAL: bool>(
    blocks: Seq<BP128Block<VERTICAL>>,
    from: int,
    target: u32,
)
    requires
        0 <= from <= blocks.len(),
    ensures
        from <= block_from(blocks, from, target) <= blocks.len(),
        block_from(blocks, from, target) < blocks.len() ==> blocks[block_from(
            blocks,
            from,
            target,
        )].last_doc_id >= target,
        forall|i: int|
            from <= i < block_from(blocks, from, target) ==> (#[trigger] blocks[i]).last_doc_id
                < target,
    decreases blocks.len() - from,
{
    if from < blocks.len() && blocks[from].last_doc_id < target {
        block_from_is(blocks, from + 1, target);
    }
}

/// The rest at a position starts with the posting there, and the next
/// position has the rest without it.
pub proof fn next_rest(runs: Seq<Seq<Posting>>, at: Position)
    requires
        valid_at(runs, at),
        at is Some,
        forall|i: int| 0 <= i < runs.len() ==> (#[trigger] runs[i]).len() > 0,
    ensures
        valid_at(runs, next_at(runs, at)),
        rest_at(runs, at).len() > 0,
        rest_at(runs, at)[0].doc_id == doc_at(runs, at),
        rest_at(runs, at)[0].term_freq == tf_at(runs, at),
        rest_at(runs, next_at(runs, at)) == rest_at(runs, at).skip(1),
{
    let (b, k) = at->Some_0;
    let p = runs[b];
    let r = flat_from(runs, b + 1);
    assert(rest_at(runs, at)[0] == p[k]);
    if k + 1 < p.len() {
        assert((p.skip(k) + r).skip(1) =~= p.skip(k + 1) + r);
    } else {
        assert((p.skip(k) + r).skip(1) =~= r);
        if b + 1 < runs.len() {
            assert(runs[b + 1].len() > 0);
            assert(runs[b + 1].skip(0) =~= runs[b + 1]);
        }
    }
}

/// From the start all postings are ahead.
pub proof fn start_rest(runs: Seq<Seq<Posting>>, b: int)
    requires
        0 <= b <= runs.len(),
    ensures
        flat(runs, runs.len() as int) == flat(runs, b) + flat_from(runs, b),
        rest_at(runs, load_at(runs, b)) == flat_from(runs, b),
    decreases runs.len() - b,
{
    if b < runs.len() {
        start_rest(runs, b + 1);
        assert(runs[b].skip(0) =~= runs[b]);
        assert(flat(runs, b) + runs[b] + flat_from(runs, b + 1) =~= flat(runs, b) + (runs[b]
            + flat_from(runs, b + 1)));
    } else {
        assert(flat(runs, b) + flat_from(runs, b) =~= flat(runs, b));
    }
}

/// Runs that end before the target hold no posting at or after it.
proof fn skipped_runs<const VERTICAL: bool>(
    blocks: Seq<BP128Block<VERTICAL>>,
    from: int,
    to: int,
    target: u32,
) -> (m: int)
    requires
        all_shaped(blocks),
        ordered(blocks),
        0 <= from <= to <= blocks.len(),
        forall|i: int| from <= i < to ==> (#[trigger] blocks[i]).last_doc_id < target,
    ensures
        cursor::drops_before(
            flat_from(runs(blocks), from),
            flat_from(runs(blocks), to),
            m,
            target,
        ),
    decreases to - from,
{
    let rs = runs(blocks);
    if from == to {
        assert(flat_from(rs, from).skip(0) =~= flat_from(rs, from));
        0
    } else {
        let n = skipped_runs(blocks, from + 1, to, target);
        let q = rs[from];
        let r = flat_from(rs, from + 1);
        let docs = blocks[from].docs();
        assert(blocks[from].shape_ok());
        assert((q + r).skip(q.len() as int) =~= r);
        assert forall|i: int| 0 <= i < q.len() implies (#[trigger] (q + r)[i]).doc_id < target by {
            assert(docs.last() == blocks[from].last_doc_id);
            if i < docs.len() - 1 {
                assert(docs[i] < docs[docs.len() - 1]);
            }
        }
        assert(cursor::drops_before(q + r, r, q.len() as int, target));
        cursor::drops_join(
            flat_from(rs, from),
            r,
            flat_from(rs, to),
            q.len() as int,
            n,
            target,
        );
        q.len() + n
    }
}

/// Moving forward within a run drops what is passed over.
proof fn drops_within(runs: Seq<Seq<Posting>>, b: int, k: int, j: int, target: u32)
    requires
        0 <= b < runs.len(),
        0 <= k <= j <= runs[b].len(),
        forall|i: int| k <= i < j ==> (#[trigger] runs[b][i]).doc_id < target,
    ensures
        cursor::drops_before(
            rest_at(runs, Some((b, k))),
            rest_at(runs, Some((b, j))),
            j - k,
            target,
        ),
{
    let p = runs[b];
    let r = flat_from(runs, b + 1);
    assert((p.skip(k) + r).skip(j - k) =~= p.skip(j) + r);
    assert forall|i: int| 0 <= i < j - k implies (#[trigger] (p.skip(k) + r)[i]).doc_id
        < target by {
        assert((p.skip(k) + r)[i] == p[k + i]);
    }
}

/// In a list in order, seeking drops just the postings before the target.
pub proof fn seek_rest<const VERTICAL: bool>(
    blocks: Seq<BP128Block<VERTICAL>>,
    at: Position,
    target: u32,
) -> (m: int)
    requires
        all_shaped(blocks),
        ordered(blocks),
        valid_at(runs(blocks), at),
    ensures
        ({
            let rs = runs(blocks);
            let to = seek_at(blocks, at, target);
            &&& valid_at(rs, to)
            &&& cursor::drops_before(rest_at(rs, at), rest_at(rs, to), m, target)
            &&& to is Some ==> doc_at(rs, to) >= target
        }),
{
    let rs = runs(blocks);
    let rest = rest_at(rs, at);
    match at {
        None => {
            assert(rest.skip(0) =~= rest);
            0
        },
        Some((b, k)) => {
            let n = blocks.len() as int;
            block_from_is(blocks, b, target);
            let c = block_from(blocks, b, target);
            if c == b {
                found_within(blocks, b, k, target);
                let j = cursor::lower_from(blocks[b].docs(), target, k);
                drops_within(rs, b, k, j, target);
                j - k
            } else {
                let count = rs[b].len() as int;
                let docs = blocks[b].docs();
                assert(blocks[b].last_doc_id < target);
                assert(blocks[b].shape_ok());
                assert forall|i: int| k <= i < count implies (#[trigger] rs[b][i]).doc_id
                    < target by {
                    assert(docs.last() == blocks[b].last_doc_id);
                    if i < docs.len() - 1 {
                        assert(docs[i] < docs[docs.len() - 1]);
                    }
                }
                drops_within(rs, b, k, count, target);
                assert(rs[b].skip(count) =~= Seq::empty());
                assert(rest_at(rs, Some((b, count))) =~= flat_from(rs, b + 1));
                let m = skipped_runs(blocks, b + 1, c, target);
                cursor::drops_join(
                    rest,
                    flat_from(rs, b + 1),
                    flat_from(rs, c),
                    count - k,
                    m,
                    target,
                );
                if c < n {
                    found_within(blocks, c, 0, target);
                    let j = cursor::lower_from(blocks[c].docs(), target, 0);
                    drops_within(rs, c, 0, j, target);
                    assert(rs[c].skip(0) =~= rs[c]);
                    cursor::drops_join(
                        rest,
                        flat_from(rs, c),
                        rest_at(rs, Some((c, j))),
                        count - k + m,
                        j,
                        target,
                    );
                    count - k + m + j
                } else {
                    count - k + m
                }
            }
        },
    }
}

/// A block that ends at or after the target holds the first such posting.
proof fn found_within<const VERTICAL: bool>(
    blocks: Seq<BP128Block<VERTICAL>>,
    c: int,
    from: int,
    target: u32,
)
    requires
        all_shaped(blocks),
        ordered(blocks),
        0 <= c < blocks.len(),
        0 <= from < blocks[c].num_docs,
        blocks[c].last_doc_id >= target,
    ensures
        ({
            let j = cursor::lower_from(blocks[c].docs(), target, from);
            &&& from <= j < blocks[c].num_docs
            &&& runs(blocks)[c][j].doc_id >= target
            &&& forall|i: int| from <= i < j ==> (#[trigger] runs(blocks)[c][i]).doc_id < target
        }),
{
    let docs = blocks[c].docs();
    assert(blocks[c].shape_ok());
    cursor::lower_from_is(docs, target, from);
    let j = cursor::lower_from(docs, target, from);
    if j == docs.len() {
        assert(docs[docs.len() - 1] < target);
    }
}

impl<const VERTICAL: bool> BP128PostingList<VERTICAL> {
    /// Whether the list can be read.
    pub open spec fn wf(&self) -> bool {
        all_shaped(self.blocks@)
    }

    /// The postings.
    pub open spec fn postings(&self) -> Seq<Posting> {
        flat(runs(self.blocks@), self.blocks@.len() as int)
    }

    /// Whether this is the list built from documents and frequencies.
    pub open spec fn is_built<F: Fn(u32) -> u32>(
        &self,
        docs: Seq<u32>,
        tfs: Seq<u32>,
        score: F,
    ) -> bool {
        &&& self.wf()
        &&& ordered(self.blocks@)
        &&& self.doc_count == docs.len()
        &&& self.postings() == Seq::new(
            docs.len(),
            |i: int| Posting { doc_id: docs[i], term_freq: at_least_one(tfs)[i] },
        )
        &&& self.blocks@.len() == (docs.len() + 127) / 128
        &&& forall|i: int|
            0 <= i < self.blocks@.len() ==> is_built_block(
                #[trigger] self.blocks@[i],
                docs,
                tfs,
                score,
                i,
            )
        &&& self.max_score == top_score(self.blocks@, 0, self.blocks@.len() as int)
    }

    /// Build from documents and frequencies. The score of a block is the bits
    /// of what `score` says of its largest frequency.
    pub fn from_postings<F: Fn(u32) -> u32>(doc_ids: &[u32], term_freqs: &[u32], score: F) -> (r:
        Self)
        requires
            doc_ids@.len() == term_freqs@.len(),
            doc_ids@.len() <= u32::MAX,
            block::increasing(doc_ids@),
            !VERTICAL ==> forall|i: int|
                0 <= i < term_freqs@.len() ==> (#[trigger] term_freqs@[i]) >= 1,
            forall|tf: u32| #[trigger] score.requires((tf,)),
        ensures
            r.is_built(doc_ids@, term_freqs@, score),
            r.storable(),
    {
        let n: usize = doc_ids.len();
        let mut blocks: Vec<BP128Block<VERTICAL>> = Vec::new();
        let mut max_score: u32 = 0;
        let mut i: usize = 0;
        while i < n
            invariant
                i <= n == doc_ids@.len(),
                n <= u32::MAX,
                doc_ids@.len() == term_freqs@.len(),
                block::increasing(doc_ids@),
                !VERTICAL ==> forall|k: int|
                    0 <= k < term_freqs@.len() ==> (#[trigger] term_freqs@[k]) >= 1,
                forall|tf: u32| #[trigger] score.requires((tf,)),
                i == n || i == 128 * blocks@.len(),
                blocks@.len() == (i + 127) / 128,
                max_score == top_score(blocks@, 0, blocks@.len() as int),
                forall|k: int|
                    0 <= k < blocks@.len() ==> is_chunk(
                        #[trigger] blocks@[k],
                        doc_ids@,
                        term_freqs@,
                        score,
                        k,
                    ),
            decreases n - i,
        {
            let ghost before = blocks@;
            let block: BP128Block<VERTICAL> = chunk_block(
                doc_ids,
                term_freqs,
                blocks.len(),
                &score,
            );
            let own: u32 = block.max_block_score;
            blocks.push(block);
            proof {
                top_same(before, blocks@, before.len() as int);
            }
            if own <= 0x7F80_0000 && own > max_score {
                max_score = own;
            }
            i = if n - i > 128 {
                i + 128
            } else {
                n
            };
        }
        let r: BP128PostingList<VERTICAL> = BP128PostingList {
            blocks,
            doc_count: n as u32,
            max_score,
        };
        proof {
            chunks_built(r.blocks@, doc_ids@, term_freqs@, score);
        }
        r
    }

    /// Number of documents.
    pub fn len(&self) -> (r: u32)
        ensures
            r == self.doc_count,
    {
        self.doc_count
    }

    pub fn is_empty(&self) -> (r: bool)
        ensures
            r == (self.doc_count == 0),
    {
        self.doc_count == 0
    }

    /// Whether every block can be decoded.
    pub fn has_valid_shape(&self) -> (r: bool)
        ensures
            r == self.wf(),
    {
        let mut i: usize = 0;
        while i < self.blocks.len()
            invariant
                i <= self.blocks@.len(),
                forall|k: int| 0 <= k < i ==> (#[trigger] self.blocks@[k]).shape_ok(),
            decreases self.blocks@.len() - i,
        {
            if !self.blocks[i].has_valid_shape() {
                return false;
            }
            i = i + 1;
        }
        true
    }

    /// A cursor at the start.
    pub fn iterator(&self) -> (r: BP128Iterator<'_, VERTICAL>)
        requires
            self.wf(),
        ensures
            r.wf(),
            *r.list == *self,
            r.at() == load_at(runs(self.blocks@), 0),
            r.rest() == self.postings(),
    {
        BP128Iterator::new(self)
    }
}

/// Whether `b` is block `k` of a list built from documents and frequencies:
/// what it holds, how it is packed, and what bounds it.
pub open spec fn is_built_block<const VERTICAL: bool, F: Fn(u32) -> u32>(
    b: BP128Block<VERTICAL>,
    docs: Seq<u32>,
    tfs: Seq<u32>,
    score: F,
    k: int,
) -> bool {
    let end = chunk_end(docs.len() as int, k);
    let own = docs.subrange(128 * k, end);
    let freqs = tfs.subrange(128 * k, end);
    &&& b.docs() == own
    &&& b.tfs() == at_least_one(freqs)
    &&& b.num_docs == end - 128 * k
    &&& b.first_doc_id == docs[128 * k]
    &&& b.last_doc_id == docs[end - 1]
    &&& b.doc_bit_width == bp128::block_width(VERTICAL, bp128::less_one_gaps(own))
    &&& b.tf_bit_width == bp128::block_width(VERTICAL, bp128::less_one_tfs(freqs))
    &&& b.doc_data@ == bp128::block_data(VERTICAL, bp128::less_one_gaps(own))
    &&& b.tf_data@ == bp128::block_data(VERTICAL, bp128::less_one_tfs(freqs))
    &&& b.max_tf == encode::seq_max(freqs)
    &&& score.ensures((b.max_tf,), b.max_block_score)
}

/// Whether `b` encodes the postings of chunk `k`.
#[verifier::opaque]
pub open spec fn is_chunk<const VERTICAL: bool, F: Fn(u32) -> u32>(
    b: BP128Block<VERTICAL>,
    docs: Seq<u32>,
    tfs: Seq<u32>,
    score: F,
    k: int,
) -> bool {
    &&& b.shape_ok()
    &&& b.storable()
    &&& is_built_block(b, docs, tfs, score, k)
}

/// One past the last posting of chunk `k`.
pub open spec fn chunk_end(n: int, k: int) -> int {
    if 128 * k + 128 < n {
        128 * k + 128
    } else {
        n
    }
}

/// Encode chunk `k`.
fn chunk_block<const VERTICAL: bool, F: Fn(u32) -> u32>(
    doc_ids: &[u32],
    term_freqs: &[u32],
    k: usize,
    score: &F,
) -> (b: BP128Block<VERTICAL>)
    requires
        128 * k < doc_ids.len(),
        doc_ids@.len() == term_freqs@.len(),
        block::increasing(doc_ids@),
        !VERTICAL ==> forall|i: int|
            0 <= i < term_freqs@.len() ==> (#[trigger] term_freqs@[i]) >= 1,
        forall|tf: u32| #[trigger] score.requires((tf,)),
    ensures
        is_chunk(b, doc_ids@, term_freqs@, *score, k as int),
{
    proof {
        reveal(is_chunk);
    }
    let n: usize = doc_ids.len();
    let from: usize = 128 * k;
    let end: usize = if n - from > 128 {
        from + 128
    } else {
        n
    };
    let docs = vstd::slice::slice_subrange(doc_ids, from, end);
    let tfs = vstd::slice::slice_subrange(term_freqs, from, end);
    proof {
        assert forall|i: int, j: int| 0 <= i < j < docs@.len() implies docs@[i] < docs@[j] by {
            assert(doc_ids@[from + i] < doc_ids@[from + j]);
        }
    }
    BP128Block::<VERTICAL>::create_block(docs, tfs, score)
}

/// What chunks add up to.
proof fn chunks_built<const VERTICAL: bool, F: Fn(u32) -> u32>(
    blocks: Seq<BP128Block<VERTICAL>>,
    docs: Seq<u32>,
    tfs: Seq<u32>,
    score: F,
)
    requires
        block::increasing(docs),
        docs.len() == tfs.len(),
        blocks.len() == (docs.len() + 127) / 128,
        forall|k: int| 0 <= k < blocks.len() ==> is_chunk(#[trigger] blocks[k], docs, tfs, score, k),
    ensures
        all_shaped(blocks),
        ordered(blocks),
        flat(runs(blocks), blocks.len() as int) == Seq::new(
            docs.len(),
            |i: int| Posting { doc_id: docs[i], term_freq: at_least_one(tfs)[i] },
        ),
        forall|i: int|
            0 <= i < blocks.len() ==> is_built_block(#[trigger] blocks[i], docs, tfs, score, i)
                && blocks[i].storable(),
{
    reveal(is_chunk);
    built_order(blocks, docs);
    let all = Seq::new(
        docs.len(),
        |i: int| Posting { doc_id: docs[i], term_freq: at_least_one(tfs)[i] },
    );
    chunks_flat(blocks, docs, tfs, score, blocks.len() as int);
    assert(all.take(docs.len() as int) =~= all);
}

proof fn chunks_flat<const VERTICAL: bool, F: Fn(u32) -> u32>(
    blocks: Seq<BP128Block<VERTICAL>>,
    docs: Seq<u32>,
    tfs: Seq<u32>,
    score: F,
    m: int,
)
    requires
        docs.len() == tfs.len(),
        blocks.len() == (docs.len() + 127) / 128,
        0 <= m <= blocks.len(),
        forall|k: int| 0 <= k < blocks.len() ==> is_chunk(#[trigger] blocks[k], docs, tfs, score, k),
    ensures
        flat(runs(blocks), m) == Seq::new(
            docs.len(),
            |i: int| Posting { doc_id: docs[i], term_freq: at_least_one(tfs)[i] },
        ).take(
            if m == 0 {
                0
            } else {
                chunk_end(docs.len() as int, m - 1)
            },
        ),
    decreases m,
{
    let all = Seq::new(
        docs.len(),
        |i: int| Posting { doc_id: docs[i], term_freq: at_least_one(tfs)[i] },
    );
    if m > 0 {
        chunks_flat(blocks, docs, tfs, score, m - 1);
        reveal(is_chunk);
        let k = m - 1;
        let from = 128 * k;
        let end = chunk_end(docs.len() as int, k);
        let b = blocks[k];
        assert(is_chunk(b, docs, tfs, score, k));
        assert(runs(blocks)[k] == b.postings());
        assert(b.postings() =~= all.subrange(from, end));
        assert(all.take(from) + all.subrange(from, end) =~= all.take(end));
        if k > 0 {
            assert(chunk_end(docs.len() as int, k - 1) == from);
        }
    } else {
        assert(flat(runs(blocks), 0) =~= all.take(0));
    }
}

proof fn top_same<const VERTICAL: bool>(
    a: Seq<BP128Block<VERTICAL>>,
    b: Seq<BP128Block<VERTICAL>>,
    n: int,
)
    requires
        0 <= n <= a.len(),
        n <= b.len(),
        forall|i: int| 0 <= i < n ==> a[i] == b[i],
    ensures
        top_score(a, 0, n) == top_score(b, 0, n),
    decreases n,
{
    if n > 0 {
        top_same(a, b, n - 1);
    }
}

/// Blocks over consecutive documents are in order.
proof fn built_order<const VERTICAL: bool>(blocks: Seq<BP128Block<VERTICAL>>, docs: Seq<u32>)
    requires
        block::increasing(docs),
        blocks.len() == (docs.len() + 127) / 128,
        all_shaped(blocks),
        forall|k: int|
            0 <= k < blocks.len() ==> {
                let b = #[trigger] blocks[k];
                let end = if 128 * k + 128 < docs.len() {
                    128 * k + 128
                } else {
                    docs.len() as int
                };
                &&& b.docs() == docs.subrange(128 * k, end)
                &&& b.first_doc_id == docs[128 * k]
                &&& b.last_doc_id == docs[end - 1]
            },
    ensures
        ordered(blocks),
{
    assert forall|i: int| 0 <= i < blocks.len() implies block::increasing(
        (#[trigger] blocks[i]).docs(),
    ) && blocks[i].docs()[0] == blocks[i].first_doc_id && blocks[i].docs().last()
        == blocks[i].last_doc_id by {
        let d = blocks[i].docs();
        assert forall|a: int, c: int| 0 <= a < c < d.len() implies d[a] < d[c] by {
            assert(docs[128 * i + a] < docs[128 * i + c]);
        }
    }
    assert forall|i: int, j: int| 0 <= i < j < blocks.len() implies blocks[i].last_doc_id
        < blocks[j].first_doc_id by {
        assert(blocks[i].last_doc_id == docs[128 * i + 127]);
        assert(docs[128 * i + 127] < docs[128 * j]);
    }
}

/// A cursor over packed blocks; one block is decoded at a time.
pub struct BP128Iterator<'a, const VERTICAL: bool> {
    pub list: &'a BP128PostingList<VERTICAL>,
    pub current_block: usize,
    pub block_doc_ids: Vec<u32>,
    pub block_term_freqs: Vec<u32>,
    pub pos_in_block: usize,
    pub exhausted: bool,
}

pub type RoundedBP128Iterator<'a> = BP128Iterator<'a, false>;

pub type VerticalBP128Iterator<'a> = BP128Iterator<'a, true>;

impl<'a, const VERTICAL: bool> BP128Iterator<'a, VERTICAL> {
    pub open spec fn blocks(&self) -> Seq<BP128Block<VERTICAL>> {
        self.list.blocks@
    }

    pub open spec fn runs(&self) -> Seq<Seq<Posting>> {
        runs(self.blocks())
    }

    /// Where the cursor stands.
    pub open spec fn at(&self) -> Position {
        if self.exhausted {
            None
        } else {
            Some((self.current_block as int, self.pos_in_block as int))
        }
    }

    /// The postings from the cursor on.
    pub open spec fn rest(&self) -> Seq<Posting> {
        rest_at(self.runs(), self.at())
    }

    /// What the buffers hold.
    pub open spec fn wf(&self) -> bool {
        &&& self.list.wf()
        &&& !self.exhausted ==> {
            &&& self.current_block < self.blocks().len()
            &&& self.block_doc_ids@ == self.blocks()[self.current_block as int].docs()
            &&& self.block_term_freqs@ == self.blocks()[self.current_block as int].tfs()
            &&& self.pos_in_block < self.blocks()[self.current_block as int].num_docs
        }
    }

    pub proof fn facts(&self)
        requires
            self.wf(),
        ensures
            valid_at(self.runs(), self.at()),
            forall|i: int| 0 <= i < self.runs().len() ==> (#[trigger] self.runs()[i]).len() > 0,
            !self.exhausted ==> self.current_block < usize::MAX,
    {
        assert forall|i: int| 0 <= i < self.runs().len() implies (#[trigger] self.runs()[i]).len()
            > 0 by {
            assert(self.blocks()[i].shape_ok());
        }
        assert(self.list.blocks.len() == self.blocks().len());
    }

    pub fn new(list: &'a BP128PostingList<VERTICAL>) -> (r: Self)
        requires
            list.wf(),
        ensures
            r.wf(),
            *r.list == *list,
            r.at() == load_at(runs(list.blocks@), 0),
            r.rest() == list.postings(),
    {
        let mut r = BP128Iterator {
            list,
            current_block: 0,
            block_doc_ids: Vec::new(),
            block_term_freqs: Vec::new(),
            pos_in_block: 0,
            exhausted: true,
        };
        r.load(0);
        proof {
            start_rest(runs(list.blocks@), 0);
            assert(flat(runs(list.blocks@), 0) + flat_from(runs(list.blocks@), 0) =~= flat_from(
                runs(list.blocks@),
                0,
            ));
        }
        r
    }

    /// Decode a block and stand at its start, or end.
    fn load(&mut self, b: usize)
        requires
            old(self).wf(),
        ensures
            final(self).wf(),
            final(self).list == old(self).list,
            final(self).at() == load_at(old(self).runs(), b as int),
    {
        if b >= self.list.blocks.len() {
            self.exhausted = true;
            return;
        }
        proof {
            assert(self.blocks()[b as int].shape_ok());
        }
        self.current_block = b;
        self.pos_in_block = 0;
        self.block_doc_ids = self.list.blocks[b].decode_doc_ids();
        self.block_term_freqs = self.list.blocks[b].decode_term_freqs();
        self.exhausted = false;
    }

    /// Document at the cursor, or the end marker.
    pub fn doc(&self) -> (r: u32)
        requires
            self.wf(),
        ensures
            r == doc_at(self.runs(), self.at()),
    {
        if self.exhausted {
            u32::MAX
        } else {
            self.block_doc_ids[self.pos_in_block]
        }
    }

    /// Term frequency at the cursor, zero past the end.
    pub fn term_freq(&self) -> (r: u32)
        requires
            self.wf(),
        ensures
            r == tf_at(self.runs(), self.at()),
    {
        if self.exhausted {
            0
        } else {
            self.block_term_freqs[self.pos_in_block]
        }
    }

    /// Step to the next posting.
    pub fn advance(&mut self) -> (r: u32)
        requires
            old(self).wf(),
        ensures
            final(self).wf(),
            final(self).list == old(self).list,
            final(self).at() == next_at(old(self).runs(), old(self).at()),
            r == doc_at(final(self).runs(), final(self).at()),
            old(self).at() is Some ==> final(self).rest() == old(self).rest().skip(1),
    {
        if self.exhausted {
            return u32::MAX;
        }
        proof {
            self.facts();
            next_rest(self.runs(), self.at());
        }
        let next: usize = self.pos_in_block + 1;
        if next < self.block_doc_ids.len() {
            self.pos_in_block = next;
        } else {
            let b: usize = self.current_block + 1;
            self.load(b);
        }
        self.doc()
    }

    /// Move to the first posting at or after `target`, never back.
    pub fn seek(&mut self, target: u32) -> (r: u32)
        requires
            old(self).wf(),
        ensures
            final(self).wf(),
            final(self).list == old(self).list,
            final(self).at() == seek_at(old(self).blocks(), old(self).at(), target),
            r == doc_at(final(self).runs(), final(self).at()),
    {
        if self.exhausted {
            return u32::MAX;
        }
        let start: usize = self.current_block;
        let b: usize = self.block_for(start, target);
        if b >= self.list.blocks.len() {
            self.exhausted = true;
            return u32::MAX;
        }
        if b != start {
            self.load(b);
        }
        proof {
            assert(self.blocks()[b as int].shape_ok());
        }
        let ghost from = self.pos_in_block as int;
        let mut i: usize = self.pos_in_block;
        while i < self.block_doc_ids.len() && self.block_doc_ids[i] < target
            invariant
                from <= i <= self.block_doc_ids@.len(),
                forall|k: int| from <= k < i ==> self.block_doc_ids@[k] < target,
            decreases self.block_doc_ids@.len() - i,
        {
            i = i + 1;
        }
        proof {
            cursor::lower_from_unique(self.block_doc_ids@, target, from, i as int);
            self.facts();
        }
        if i < self.block_doc_ids.len() {
            self.pos_in_block = i;
        } else {
            let next: usize = self.current_block + 1;
            self.load(next);
        }
        self.doc()
    }

    /// First block from `from` on whose last document is at least `target`.
    fn block_for(&self, from: usize, target: u32) -> (r: usize)
        requires
            from <= self.list.blocks.len(),
        ensures
            r == block_from(self.blocks(), from as int, target),
            from <= r <= self.blocks().len(),
    {
        let n: usize = self.list.blocks.len();
        let mut b: usize = from;
        while b < n && self.list.blocks[b].last_doc_id < target
            invariant
                from <= b <= n == self.blocks().len(),
                block_from(self.blocks(), from as int, target) == block_from(
                    self.blocks(),
                    b as int,
                    target,
                ),
            decreases n - b,
        {
            b = b + 1;
        }
        b
    }

    /// Largest score of the blocks from the current one on.
    pub fn max_remaining_score(&self) -> (r: u32)
        requires
            self.wf(),
        ensures
            r == (if self.exhausted {
                0
            } else {
                top_score(
                    self.blocks(),
                    self.current_block as int,
                    self.blocks().len() as int,
                )
            }),
    {
        if self.exhausted {
            return 0;
        }
        let n: usize = self.list.blocks.len();
        let mut top: u32 = 0;
        let mut i: usize = self.current_block;
        while i < n
            invariant
                self.current_block <= i <= n == self.blocks().len(),
                top == top_score(self.blocks(), self.current_block as int, i as int),
            decreases n - i,
        {
            let own: u32 = self.list.blocks[i].max_block_score;
            if own <= 0x7F80_0000 && own > top {
                top = own;
            }
            i = i + 1;
        }
        top
    }

    /// Score of the current block, zero past the end.
    pub fn current_block_max_score(&self) -> (r: u32)
        requires
            self.wf(),
        ensures
            r == (if self.exhausted {
                0
            } else {
                self.blocks()[self.current_block as int].max_block_score
            }),
    {
        if self.exhausted {
            0
        } else {
            self.list.blocks[self.current_block].max_block_score
        }
    }

    /// The largest score of the current block.
    pub fn block_max_score(&self) -> (r: u32)
        requires
            self.wf(),
        ensures
            r == (if self.exhausted {
                0
            } else {
                self.blocks()[self.current_block as int].max_block_score
            }),
    {
        self.current_block_max_score()
    }

    /// Largest term frequency of the current block, zero past the end.
    pub fn current_block_max_tf(&self) -> (r: u32)
        requires
            self.wf(),
        ensures
            r == (if self.exhausted {
                0
            } else {
                self.blocks()[self.current_block as int].max_tf
            }),
    {
        if self.exhausted {
            0
        } else {
            self.list.blocks[self.current_block].max_tf
        }
    }

    /// Skip to the start of the first block from the current one on that ends
    /// at or after `target`. Gives its first document and its score.
    pub fn skip_to_block_with_doc(&mut self, target: u32) -> (r: Option<(u32, u32)>)
        requires
            old(self).wf(),
        ensures
            final(self).wf(),
            final(self).list == old(self).list,
            ({
                let c = block_from(old(self).blocks(), old(self).current_block as int, target);
                if old(self).exhausted || c >= old(self).blocks().len() {
                    r is None && final(self).at() is None
                } else {
                    &&& final(self).at() == Some((c, 0int))
                    &&& r == Some(
                        (
                            old(self).blocks()[c].first_doc_id,
                            old(self).blocks()[c].max_block_score,
                        ),
                    )
                }
            }),
    {
        if self.exhausted {
            return None;
        }
        let b: usize = self.block_for(self.current_block, target);
        self.load(b);
        if self.exhausted {
            return None;
        }
        Some((self.list.blocks[b].first_doc_id, self.list.blocks[b].max_block_score))
    }

    pub fn is_exhausted(&self) -> (r: bool)
        ensures
            r == self.exhausted,
    {
        self.exhausted
    }
}

} // verus!
