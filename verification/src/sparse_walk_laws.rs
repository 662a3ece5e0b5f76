//! How sparse lists are walked, searched, scored, stored and renumbered.
use crate::bytes;
use crate::cursor::Position;
use crate::gaps;
use crate::gaps::RoundedBitWidth;
use crate::sparse_block;
use crate::sparse_block::SparseBlock;
use crate::sparse_config::INFINITY;
use crate::sparse_config::SIGN;
use crate::sparse_config::WeightQuantization;
use crate::sparse_iterator;
use crate::sparse_list;
use crate::sparse_list::BlockSparsePostingList;
use crate::sparse_remap;
use crate::sparse_scores;
use crate::sparse_scores::Tally;
use crate::sparse_skip;
use crate::sparse_store;
use crate::sparse_weights::QuantizedWeights;
use crate::sparse_weights::Weight;
use vstd::prelude::*;

verus! {

/// The place among the postings of all blocks of one of them.
pub open spec fn place(blocks: Seq<SparseBlock>, b: int, i: int) -> int {
    sparse_list::rows_of(blocks, b).len() + i
}

/// The place that an iterator stands at, or the number of postings at its
/// end.
pub open spec fn place_of(blocks: Seq<SparseBlock>, at: Position) -> int {
    match at {
        Some((b, i)) => place(blocks, b, i),
        None => sparse_list::rows_of(blocks, blocks.len() as int).len() as int,
    }
}

/// An iterator that advances steps to the next posting of the list, and what
/// it reads is the posting at its place.
pub proof fn sparse_walk_reads(list: &BlockSparsePostingList, at: (int, int))
    requires
        list.wf(),
        sparse_iterator::valid(list.blocks@, Some(at)),
    ensures
        ({
            let block = list.blocks@[at.0];
            let p = place_of(list.blocks@, Some(at));
            let to = sparse_iterator::next_at(list.blocks@, Some(at));
            &&& 0 <= p < list.rows().len()
            &&& list.rows()[p] == (
                block.docs()[at.1],
                block.ordinals()[at.1],
                block.weights()[at.1],
            )
            &&& sparse_iterator::valid(list.blocks@, to)
            &&& place_of(list.blocks@, to) == p + 1
        }),
{
    let blocks = list.blocks@;
    row_at_place(blocks, blocks.len() as int, at.0, at.1);
    assert(sparse_list::rows_of(blocks, at.0 + 1) == sparse_list::rows_of(blocks, at.0)
        + blocks[at.0].rows());
}

/// An iterator starts at the first posting, and one that leaves its block
/// goes past that block's postings and no further.
pub proof fn sparse_blocks_follow(list: &BlockSparsePostingList, b: int)
    requires
        list.wf(),
        0 <= b < list.blocks@.len(),
    ensures
        place_of(list.blocks@, sparse_iterator::block_start(list.blocks@, 0)) == 0,
        place_of(list.blocks@, sparse_iterator::block_start(list.blocks@, b + 1)) == place(
            list.blocks@,
            b,
            list.blocks@[b].count(),
        ),
{
    let blocks = list.blocks@;
    assert(sparse_list::rows_of(blocks, b + 1) == sparse_list::rows_of(blocks, b)
        + blocks[b].rows());
}

proof fn row_at_place(blocks: Seq<SparseBlock>, n: int, b: int, i: int)
    requires
        0 <= b < n <= blocks.len(),
        0 <= i < blocks[b].count(),
    ensures
        place(blocks, b, i) < sparse_list::rows_of(blocks, n).len(),
        sparse_list::rows_of(blocks, n)[place(blocks, b, i)] == blocks[b].rows()[i],
    decreases n,
{
    if b < n - 1 {
        row_at_place(blocks, n - 1, b, i);
    }
}

/// A seek from before its target passes over no posting of the target or of
/// a later document, but for postings of the target that end in an earlier
/// block than the one it lands in.
pub proof fn sparse_seek_is_first(
    list: &BlockSparsePostingList,
    at: (int, int),
    target: u32,
    b: int,
    i: int,
)
    requires
        list.wf(),
        list.ordered(),
        sparse_iterator::valid(list.blocks@, Some(at)),
        sparse_iterator::valid(list.blocks@, Some((b, i))),
        sparse_iterator::not_before((b, i), at),
        sparse_iterator::seek_at(list.blocks@, Some(at), target) matches Some(p)
            ==> !sparse_iterator::not_before((b, i), p),
    ensures
        list.blocks@[b].docs()[i] <= target,
        list.blocks@[b].docs()[i] == target ==> {
            &&& sparse_iterator::seek_at(list.blocks@, Some(at), target) matches Some(p)
            &&& b < sparse_iterator::seek_at(list.blocks@, Some(at), target)->Some_0.0
        },
{
    let blocks = list.blocks@;
    let to = sparse_iterator::seek_at(blocks, Some(at), target);
    sparse_iterator::sparse_seek_finds(list, at, target);
    let docs = blocks[b].docs();
    sparse_block::block_docs_ascending(&blocks[b]);
    if docs[i] >= target {
        let p = to->Some_0;
        sparse_block::block_docs_ascending(&blocks[p.0]);
        let there = blocks[p.0].docs();
        assert(there[0] <= there[p.1] <= there[there.len() - 1]);
        assert(docs[0] <= docs[i] <= docs[docs.len() - 1]);
        if b == p.0 {
            seek_lands_first(list, at, target, i);
        } else {
            assert(blocks[b].last_doc_id <= blocks[p.0].header.first_doc_id);
            seek_lands_late(list, at, target, b, i);
        }
    }
}

proof fn seek_lands_first(list: &BlockSparsePostingList, at: (int, int), target: u32, i: int)
    requires
        list.wf(),
        list.ordered(),
        sparse_iterator::valid(list.blocks@, Some(at)),
        sparse_iterator::seek_at(list.blocks@, Some(at), target) is Some,
        ({
            let p = sparse_iterator::seek_at(list.blocks@, Some(at), target)->Some_0;
            0 <= i < p.1 && sparse_iterator::not_before((p.0, i), at)
        }),
    ensures
        ({
            let p = sparse_iterator::seek_at(list.blocks@, Some(at), target)->Some_0;
            list.blocks@[p.0].docs()[i] < target
        }),
{
    let blocks = list.blocks@;
    sparse_iterator::firsts_follow(list);
    sparse_block::block_docs_ascending(&blocks[at.0]);
    if blocks[at.0].docs()[at.1] < target {
        if blocks[at.0].docs().last() >= target {
            crate::cursor::lower_from_is(blocks[at.0].docs(), target, at.1);
        } else {
            block_for_is_last(blocks, target);
            let c = sparse_list::block_for(blocks, target)->Some_0;
            sparse_block::block_docs_ascending(&blocks[c]);
            crate::cursor::lower_from_is(blocks[c].docs(), target, 0);
        }
    }
}

proof fn seek_lands_late(list: &BlockSparsePostingList, at: (int, int), target: u32, b: int, i: int)
    requires
        list.wf(),
        list.ordered(),
        sparse_iterator::valid(list.blocks@, Some(at)),
        sparse_iterator::valid(list.blocks@, Some((b, i))),
        sparse_iterator::not_before((b, i), at),
        sparse_iterator::seek_at(list.blocks@, Some(at), target) is Some,
        b < sparse_iterator::seek_at(list.blocks@, Some(at), target)->Some_0.0,
    ensures
        list.blocks@[b].docs()[i] <= target,
{
    let blocks = list.blocks@;
    sparse_iterator::firsts_follow(list);
    sparse_block::block_docs_ascending(&blocks[at.0]);
    sparse_block::block_docs_ascending(&blocks[b]);
    let docs = blocks[b].docs();
    assert(docs[i] <= docs[docs.len() - 1]);
    if blocks[at.0].docs()[at.1] < target {
        if blocks[at.0].docs().last() >= target {
            crate::cursor::lower_from_is(blocks[at.0].docs(), target, at.1);
            let last = blocks[at.0].docs();
            assert(last[last.len() - 1] >= target);
        } else {
            block_for_is_last(blocks, target);
            let c = sparse_list::block_for(blocks, target)->Some_0;
            sparse_block::block_docs_ascending(&blocks[c]);
            crate::cursor::lower_from_is(blocks[c].docs(), target, 0);
            if b < c {
                assert(blocks[b].last_doc_id <= blocks[c].header.first_doc_id);
            }
        }
    }
}

/// The block to look for a document in is the last that starts no later, or
/// the first block where all start later. There is none just where there are
/// no blocks.
pub proof fn block_for_is_last(blocks: Seq<SparseBlock>, target: u32)
    requires
        sparse_list::firsts_ordered(blocks),
    ensures
        match sparse_list::block_for(blocks, target) {
            None => blocks.len() == 0,
            Some(b) => {
                &&& 0 <= b < blocks.len()
                &&& b == 0 || blocks[b].header.first_doc_id <= target
                &&& forall|i: int|
                    b < i < blocks.len() ==> (#[trigger] blocks[i]).header.first_doc_id > target
            },
        },
{
    let n = blocks.len() as int;
    started_splits(blocks, target, n);
}

proof fn started_splits(blocks: Seq<SparseBlock>, target: u32, n: int)
    requires
        sparse_list::firsts_ordered(blocks),
        0 <= n <= blocks.len(),
    ensures
        0 <= sparse_list::started(blocks, target, n) <= n,
        forall|i: int|
            0 <= i < n ==> ((#[trigger] blocks[i]).header.first_doc_id <= target <==> i
                < sparse_list::started(blocks, target, n)),
    decreases n,
{
    if n > 0 {
        started_splits(blocks, target, n - 1);
        if blocks[n - 1].header.first_doc_id <= target && n > 1 {
            assert(blocks[n - 2].header.first_doc_id <= blocks[n - 1].header.first_doc_id);
        }
    }
}

/// Where the documents of a block are all different, each score in range is
/// the one before with the weight of its document added, and no other score
/// changes. The documents noted are those in range whose score was none
/// before, each once.
#[verifier::rlimit(30)]
pub proof fn scores_add_weights<T, Z: Fn(T) -> bool, A: Fn(T, Weight) -> T>(
    run: Seq<Tally<T>>,
    base_doc: u32,
    docs: Seq<u32>,
    weights: Seq<Weight>,
    is_none: Z,
    plus: A,
)
    requires
        1 <= run.len() <= docs.len() + 1,
        run.len() <= weights.len() + 1,
        forall|i: int| 0 <= i < run.len() - 1 ==> #[trigger] docs[i] >= base_doc,
        forall|i: int, j: int| 0 <= i < j < run.len() - 1 ==> docs[i] != docs[j],
        sparse_scores::tallies(run, base_doc, docs, weights, is_none, plus),
    ensures
        scored(run[0], run.last(), base_doc, docs.take(run.len() - 1), weights, is_none, plus),
    decreases run.len(),
{
    let n = run.len() - 1;
    let part = docs.take(n);
    if n == 0 {
        assert(noted(run[0], Seq::<u32>::empty(), base_doc, part, is_none));
        assert(run[0].1 + Seq::<u32>::empty() =~= run[0].1);
    } else {
        let less = run.drop_last();
        assert(sparse_scores::tallies(less, base_doc, docs, weights, is_none, plus)) by {
            assert forall|i: int| 0 <= i < less.len() - 1 implies sparse_scores::tallied(
                #[trigger] less[i],
                less[i + 1],
                base_doc,
                docs[i],
                weights[i],
                is_none,
                plus,
            ) by {
                assert(less[i] == run[i] && less[i + 1] == run[i + 1]);
            }
        }
        scores_add_weights(less, base_doc, docs, weights, is_none, plus);
        let fewer = docs.take(n - 1);
        let before = less.last();
        let after = run.last();
        assert(before == run[n - 1]);
        assert(sparse_scores::tallied(
            run[n - 1],
            run[n],
            base_doc,
            docs[n - 1],
            weights[n - 1],
            is_none,
            plus,
        ));
        let off = docs[n - 1] - base_doc;
        let added = choose|added: Seq<u32>|
            before.1 == run[0].1 + added && #[trigger] noted(
                run[0],
                added,
                base_doc,
                fewer,
                is_none,
            );
        assert forall|i: int| 0 <= i < n - 1 implies #[trigger] part[i] == fewer[i] by {}
        assert forall|d: u32| fewer.contains(d) implies part.contains(d) by {
            let i = choose|i: int| 0 <= i < fewer.len() && fewer[i] == d;
            assert(part[i] == d);
        }
        assert(part[n - 1] == docs[n - 1]);
        assert(!fewer.contains(docs[n - 1]));
        if off >= before.0.len() {
            assert(noted(run[0], added, base_doc, part, is_none));
        } else {
            assert(before.0[off] == run[0].0[off]) by {
                assert(!fewer.contains((base_doc + off) as u32));
            }
            let (none, sum) = choose|none: bool, sum: T|
                {
                    &&& #[trigger] is_none.ensures((before.0[off],), none)
                    &&& #[trigger] plus.ensures((before.0[off], weights[n - 1]), sum)
                    &&& after.0 == before.0.update(off, sum)
                    &&& after.1 == (if none {
                        before.1.push(docs[n - 1])
                    } else {
                        before.1
                    })
                };
            if none {
                let more = added.push(docs[n - 1]);
                assert(after.1 =~= run[0].1 + more);
                assert forall|i: int| 0 <= i < n && part[i] - base_doc < run[0].0.len() implies if (
                more.contains(#[trigger] part[i])) {
                    is_none.ensures((run[0].0[part[i] - base_doc],), true)
                } else {
                    is_none.ensures((run[0].0[part[i] - base_doc],), false)
                } by {
                    if i < n - 1 {
                        assert(part[i] == fewer[i]);
                        if added.contains(part[i]) {
                            let k = choose|k: int| 0 <= k < added.len() && added[k] == part[i];
                            assert(more[k] == part[i]);
                        } else if more.contains(part[i]) {
                            let k = choose|k: int| 0 <= k < more.len() && more[k] == part[i];
                            if k < added.len() {
                                assert(added[k] == part[i]);
                            }
                        }
                    } else {
                        assert(more[added.len() as int] == part[i]);
                    }
                }
                assert forall|k: int| 0 <= k < more.len() implies part.contains(#[trigger] more[k])
                    && more[k] - base_doc < run[0].0.len() by {
                    if k < added.len() {
                        assert(added[k] == more[k]);
                    }
                }
                assert(noted(run[0], more, base_doc, part, is_none));
            } else {
                assert(noted(run[0], added, base_doc, part, is_none)) by {
                    if added.contains(docs[n - 1]) {
                        let k = choose|k: int| 0 <= k < added.len() && added[k] == docs[n - 1];
                        assert(fewer.contains(added[k]));
                    }
                }
            }
        }
        assert forall|i: int| 0 <= i < n && #[trigger] part[i] - base_doc < run[0].0.len() implies
            plus.ensures(
            (run[0].0[part[i] - base_doc], weights[i]),
            after.0[part[i] - base_doc],
        ) by {
            if i < n - 1 {
                assert(part[i] == fewer[i]);
                assert(docs[i] != docs[n - 1]);
            }
        }
        assert forall|j: int|
            0 <= j < run[0].0.len() && !part.contains((base_doc + j) as u32) implies after.0[j]
            == #[trigger] run[0].0[j] by {
            assert(!fewer.contains((base_doc + j) as u32));
        }
    }
}

/// Whether scores after a block are those before with the weights of its
/// documents in range added, and the documents whose score was none noted.
pub open spec fn scored<T, Z: Fn(T) -> bool, A: Fn(T, Weight) -> T>(
    before: Tally<T>,
    after: Tally<T>,
    base_doc: u32,
    docs: Seq<u32>,
    weights: Seq<Weight>,
    is_none: Z,
    plus: A,
) -> bool {
    &&& after.0.len() == before.0.len()
    &&& forall|i: int|
        0 <= i < docs.len() && #[trigger] docs[i] - base_doc < before.0.len() ==> plus.ensures(
            (before.0[docs[i] - base_doc], weights[i]),
            after.0[docs[i] - base_doc],
        )
    &&& forall|j: int|
        0 <= j < before.0.len() && !docs.contains((base_doc + j) as u32) ==> after.0[j]
            == #[trigger] before.0[j]
    &&& exists|added: Seq<u32>|
        after.1 == before.1 + added && #[trigger] noted(before, added, base_doc, docs, is_none)
}

/// Whether documents are those in range, of some, whose score was none.
pub open spec fn noted<T, Z: Fn(T) -> bool>(
    before: Tally<T>,
    added: Seq<u32>,
    base_doc: u32,
    docs: Seq<u32>,
    is_none: Z,
) -> bool {
    &&& added.no_duplicates()
    &&& forall|k: int|
        0 <= k < added.len() ==> docs.contains(#[trigger] added[k]) && added[k] - base_doc
            < before.0.len()
    &&& forall|i: int|
        0 <= i < docs.len() && docs[i] - base_doc < before.0.len() ==> if (added.contains(
            #[trigger] docs[i],
        )) {
            is_none.ensures((before.0[docs[i] - base_doc],), true)
        } else {
            is_none.ensures((before.0[docs[i] - base_doc],), false)
        }
}

/// Bits of numbers are ordered as the numbers are: positive ones by their
/// bits, negative ones against theirs and below the positive ones, and both
/// zeros alike.
pub proof fn ranks_order_numbers(a: u32, b: u32)
    ensures
        a < SIGN && b < SIGN ==> (sparse_skip::rank(a) < sparse_skip::rank(b) <==> a < b),
        a >= SIGN && b >= SIGN ==> (sparse_skip::rank(a) < sparse_skip::rank(b) <==> b < a),
        a >= SIGN && b < SIGN ==> (sparse_skip::rank(a) < sparse_skip::rank(b) <==> a > SIGN || b
            > 0),
        a >= SIGN && b < SIGN ==> sparse_skip::rank(a) <= sparse_skip::rank(b),
{
}

/// The larger of two weights is one of them and ranks below neither; of a
/// weight and what is no number it is the weight.
pub proof fn larger_is_either(a: u32, b: u32)
    ensures
        ({
            let r = sparse_skip::larger(a, b);
            &&& r == a || r == b
            &&& a % SIGN <= INFINITY ==> r % SIGN <= INFINITY && sparse_skip::rank(a)
                <= sparse_skip::rank(r)
            &&& b % SIGN <= INFINITY ==> r % SIGN <= INFINITY && sparse_skip::rank(b)
                <= sparse_skip::rank(r)
        }),
{
}

/// The largest weight of a list is that of one of its blocks, or zero, and
/// always a number that is not below zero.
pub proof fn top_is_of_block(blocks: Seq<SparseBlock>, n: int)
    requires
        0 <= n <= blocks.len(),
    ensures
        sparse_list::top_of(blocks, n) == 0 || exists|i: int|
            0 <= i < n && (#[trigger] blocks[i]).header.max_weight == sparse_list::top_of(
                blocks,
                n,
            ),
        sparse_list::top_of(blocks, n) % SIGN <= INFINITY,
        sparse_skip::rank(sparse_list::top_of(blocks, n)) >= 0,
    decreases n,
{
    if n > 0 {
        top_is_of_block(blocks, n - 1);
        larger_is_either(sparse_list::top_of(blocks, n - 1), blocks[n - 1].header.max_weight);
        if sparse_list::top_of(blocks, n) == blocks[n - 1].header.max_weight {
        } else if sparse_list::top_of(blocks, n) != 0 {
            let i = choose|i: int|
                0 <= i < n - 1 && (#[trigger] blocks[i]).header.max_weight == sparse_list::top_of(
                    blocks,
                    n - 1,
                );
            assert(blocks[i].header.max_weight == sparse_list::top_of(blocks, n));
        }
    }
}

/// A list takes any block size between the smallest and the largest as it
/// is, and the nearer of the two for any other.
pub proof fn block_sizes_kept(size: usize)
    ensures
        16 <= size <= 256 ==> sparse_list::list_block_size(size) == size,
        size <= 16 ==> sparse_list::list_block_size(size) == 16,
        size >= 256 ==> sparse_list::list_block_size(size)
            == 256,
{
}

/// The size of a list is that of its stored blocks but for the lengths that
/// each block is stored with.
pub proof fn size_is_of_stored(blocks: Seq<SparseBlock>, n: int)
    requires
        0 <= n <= blocks.len(),
    ensures
        sparse_store::block_bytes(blocks, n) + 8 * n == bytes::joined_len(
            sparse_store::block_parts(blocks),
            n,
        ),
    decreases n,
{
    broadcast use bytes::group_word_sizes;

    if n > 0 {
        size_is_of_stored(blocks, n - 1);
        let b = blocks[n - 1];
        assert(b.header.stored().len() == 16);
        assert(b.stored().len() == 24 + b.doc_ids_data@.len() + b.ordinals_data@.len()
            + b.weights_data@.len());
    }
}

/// A list read from the blocks and entries that another was stored as holds
/// the same postings.
pub proof fn stored_list_restores(list: &BlockSparsePostingList, read: &BlockSparsePostingList)
    requires
        list.wf(),
        sparse_store::all_storable(list.blocks@),
        bytes::joined(sparse_store::block_parts(list.blocks@)).len() <= u64::MAX,
        read.wf(),
        ({
            let data = bytes::joined(sparse_store::block_parts(list.blocks@));
            let entries = sparse_store::entries_of(list.blocks@);
            &&& read.blocks@.len() == entries.len()
            &&& forall|i: int|
                0 <= i < entries.len() ==> sparse_block::block_is_at(
                    &read.blocks@[i],
                    data.subrange(
                        (#[trigger] entries[i]).offset as int,
                        entries[i].offset + entries[i].length,
                    ),
                )
        }),
    ensures
        read.rows() == list.rows(),
        read.blocks@.len() == list.blocks@.len(),
        forall|i: int|
            0 <= i < list.blocks@.len() ==> (#[trigger] read.blocks@[i]).header
                == list.blocks@[i].header,
{
    let data = bytes::joined(sparse_store::block_parts(list.blocks@));
    let entries = sparse_store::entries_of(list.blocks@);
    assert forall|i: int| 0 <= i < list.blocks@.len() implies (#[trigger] read.blocks@[i]).rows()
        == list.blocks@[i].rows() && read.blocks@[i].header == list.blocks@[i].header by {
        sparse_store::sparse_list_roundtrip(list, i);
        let e = entries[i];
        sparse_store::same_bytes_same_rows(
            &read.blocks@[i],
            &list.blocks@[i],
            data.subrange(e.offset as int, e.offset + e.length),
        );
    }
    same_blocks_same_rows(read.blocks@, list.blocks@, list.blocks@.len() as int);
}

proof fn same_blocks_same_rows(a: Seq<SparseBlock>, b: Seq<SparseBlock>, n: int)
    requires
        0 <= n <= a.len(),
        a.len() == b.len(),
        forall|i: int| 0 <= i < n ==> (#[trigger] a[i]).rows() == b[i].rows(),
    ensures
        sparse_list::rows_of(a, n) == sparse_list::rows_of(b, n),
    decreases n,
{
    if n > 0 {
        same_blocks_same_rows(a, b, n - 1);
        assert(a[n - 1].rows() == b[n - 1].rows());
    }
}

/// The postings kept under new documents are all those that got one, in
/// order.
pub proof fn kept_are_mapped(news: Seq<Option<u32>>, n: int)
    requires
        0 <= n <= news.len(),
    ensures
        ({
            let k = sparse_remap::kept(news, n);
            &&& forall|j: int|
                0 <= j < k.len() ==> 0 <= #[trigger] k[j] < n && news[k[j]] is Some
            &&& forall|i: int, j: int| 0 <= i < j < k.len() ==> k[i] < k[j]
            &&& forall|i: int| 0 <= i < n && (#[trigger] news[i]) is Some ==> k.contains(i)
        }),
    decreases n,
{
    if n > 0 {
        kept_are_mapped(news, n - 1);
        let less = sparse_remap::kept(news, n - 1);
        let k = sparse_remap::kept(news, n);
        assert forall|i: int| 0 <= i < n && (#[trigger] news[i]) is Some implies k.contains(i) by {
            if i == n - 1 {
                assert(k[less.len() as int] == i);
            } else {
                let j = choose|j: int| 0 <= j < less.len() && less[j] == i;
                assert(k[j] == i);
            }
        }
    }
}

/// A block with new documents in order holds just the postings that got
/// one, each under its new document with its ordinal and weight.
pub proof fn remapped_rows(
    out: &SparseBlock,
    block: &SparseBlock,
    news: Seq<Option<u32>>,
    i: int,
    j: int,
)
    requires
        block.wf(),
        news.len() == block.count(),
        sparse_remap::is_remapped(out, block, news),
        gaps::ascending(sparse_remap::new_docs(news)),
        0 <= i < block.count(),
        0 <= j < out.count(),
    ensures
        news[i] matches Some(doc) ==> out.rows().contains(
            (doc, block.ordinals()[i], block.weights()[i]),
        ),
        exists|i: int|
            0 <= i < block.count() && #[trigger] news[i] == Some(out.docs()[j])
                && out.ordinals()[j] == block.ordinals()[i] && out.weights()[j]
                == block.weights()[i],
{
    let n = news.len() as int;
    kept_are_mapped(news, n);
    let k = sparse_remap::kept(news, n);
    assert(out.docs().len() == k.len());
    if news[i] is Some {
        let p = choose|p: int| 0 <= p < k.len() && k[p] == i;
        assert(out.rows()[p] == (news[i]->Some_0, block.ordinals()[i], block.weights()[i]));
    }
    assert(news[k[j]] == Some(out.docs()[j]));
}

/// The places of a document among the first `n`.
pub open spec fn places(docs: Seq<u32>, doc: int, n: int) -> Seq<int>
    decreases n,
{
    if n <= 0 {
        Seq::empty()
    } else if docs[n - 1] == doc {
        places(docs, doc, n - 1).push(n - 1)
    } else {
        places(docs, doc, n - 1)
    }
}

/// Whether values lead from one score to another by adding the weights at
/// some places, one after the other.
pub open spec fn leads<T, A: Fn(T, Weight) -> T>(
    values: Seq<T>,
    from: T,
    to: T,
    weights: Seq<Weight>,
    at: Seq<int>,
    plus: A,
) -> bool {
    &&& values.len() == at.len() + 1
    &&& values[0] == from
    &&& values.last() == to
    &&& forall|m: int|
        0 <= m < at.len() ==> plus.ensures(
            (#[trigger] values[m], weights[at[m]]),
            values[m + 1],
        )
}

/// A score after a block is the one before with each weight of its document
/// added in order, however often the document occurs.
pub proof fn scores_add_each_weight<T, Z: Fn(T) -> bool, A: Fn(T, Weight) -> T>(
    run: Seq<Tally<T>>,
    base_doc: u32,
    docs: Seq<u32>,
    weights: Seq<Weight>,
    is_none: Z,
    plus: A,
    j: int,
) -> (values: Seq<T>)
    requires
        1 <= run.len() <= docs.len() + 1,
        run.len() <= weights.len() + 1,
        forall|i: int| 0 <= i < run.len() - 1 ==> #[trigger] docs[i] >= base_doc,
        sparse_scores::tallies(run, base_doc, docs, weights, is_none, plus),
        0 <= j < run[0].0.len(),
    ensures
        run.last().0.len() == run[0].0.len(),
        leads(
            values,
            run[0].0[j],
            run.last().0[j],
            weights,
            places(docs, base_doc + j, run.len() - 1),
            plus,
        ),
    decreases run.len(),
{
    let n = run.len() - 1;
    let doc = base_doc + j;
    if n == 0 {
        seq![run[0].0[j]]
    } else {
        let less = run.drop_last();
        assert(sparse_scores::tallies(less, base_doc, docs, weights, is_none, plus)) by {
            assert forall|i: int| 0 <= i < less.len() - 1 implies sparse_scores::tallied(
                #[trigger] less[i],
                less[i + 1],
                base_doc,
                docs[i],
                weights[i],
                is_none,
                plus,
            ) by {
                assert(less[i] == run[i] && less[i + 1] == run[i + 1]);
            }
        }
        let values = scores_add_each_weight(less, base_doc, docs, weights, is_none, plus, j);
        let before = less.last();
        let after = run.last();
        assert(before == run[n - 1] && after == run[n]);
        assert(sparse_scores::tallied(
            run[n - 1],
            run[n],
            base_doc,
            docs[n - 1],
            weights[n - 1],
            is_none,
            plus,
        ));
        let at = places(docs, doc, n - 1);
        if docs[n - 1] == doc {
            let more = values.push(after.0[j]);
            let all = at.push(n - 1);
            assert forall|m: int| 0 <= m < all.len() implies plus.ensures(
                (#[trigger] more[m], weights[all[m]]),
                more[m + 1],
            ) by {
                if m < at.len() {
                    assert(more[m] == values[m] && more[m + 1] == values[m + 1]);
                }
            }
            more
        } else {
            values
        }
    }
}

/// The entry of a block tells of its postings: of the first and the last
/// document, of the largest weight, and of the bytes that it is stored in,
/// which follow those of the block before.
pub proof fn entries_tell_blocks(list: &BlockSparsePostingList, i: int)
    requires
        list.wf(),
        0 <= i < list.blocks@.len(),
        bytes::joined(sparse_store::block_parts(list.blocks@)).len() <= u64::MAX,
        list.blocks@[i].storable(),
    ensures
        ({
            let e = sparse_store::entries_of(list.blocks@)[i];
            let rows = list.blocks@[i].rows();
            &&& e.first_doc == rows[0].0
            &&& e.last_doc == rows.last().0
            &&& e.max_weight == list.blocks@[i].header.max_weight
            &&& e.length == list.blocks@[i].stored().len()
            &&& i == 0 ==> e.offset == 0
            &&& i > 0 ==> e.offset == sparse_store::entries_of(list.blocks@)[i - 1].offset
                + list.blocks@[i - 1].stored().len()
        }),
{
    broadcast use bytes::group_word_sizes;

    let b = list.blocks@[i];
    let parts = sparse_store::block_parts(list.blocks@);
    let n = parts.len() as int;
    sparse_block::block_docs_ascending(&b);
    bytes::joined_position(parts, n);
    bytes::joined_len_monotone(parts, i, n);
    bytes::joined_len_monotone(parts, 0, i);
    if i > 0 {
        bytes::joined_len_monotone(parts, i - 1, n);
        bytes::joined_len_monotone(parts, 0, i - 1);
        assert(parts[i - 1] == list.blocks@[i - 1].stored());
    }
    assert(b.header.stored().len() == 16);
    assert(b.stored().len() == 24 + b.doc_ids_data@.len() + b.ordinals_data@.len()
        + b.weights_data@.len());
}

/// A block built from postings can be stored.
pub proof fn encoded_blocks_storable<F: Fn(&[u32], WeightQuantization) -> QuantizedWeights>(
    b: &SparseBlock,
    rows: Seq<(u32, u16, u32)>,
    quant: WeightQuantization,
    quantize: F,
)
    requires
        1 <= rows.len() <= sparse_block::MAX_BLOCK_SIZE,
        sparse_block::encodes(b, rows, quant, quantize),
    ensures
        b.storable(),
{
    let steps = sparse_block::doc_gaps(sparse_block::row_docs(rows));
    let ordinals = sparse_block::row_ordinals(rows);
    fixed_len(gaps::width_for(crate::encode::seq_max(steps)), steps);
    fixed_len(gaps::width_for(crate::encode::seq_max(ordinals)), ordinals);
}

proof fn fixed_len(w: RoundedBitWidth, values: Seq<u32>)
    ensures
        bytes::joined(gaps::fixed_parts(w, values)).len() <= 4 * values.len(),
{
    broadcast use bytes::group_word_sizes;

    let parts = gaps::fixed_parts(w, values);
    let n = parts.len() as int;
    assert forall|i: int| 0 <= i < n implies (#[trigger] parts[i]).len() == w.size() by {}
    bytes::joined_uniform(parts, w.size(), n);
    bytes::joined_position(parts, n);
    assert(n * w.size() <= 4 * n) by (nonlinear_arith)
        requires
            n >= 0,
            0 <= w.size() <= 4,
    ;
}

} // verus!
