//! What the scores and frequencies kept with blocks say of their postings.
use crate::block;
use crate::bp128::BP128Block;
use crate::bp128_list;
use crate::bp128_list::BP128PostingList;
use crate::cursor::Position;
use crate::encode;
use crate::posting::Posting;
use crate::roaring;
use crate::roaring_laws;
use crate::roaring_list;
use crate::roaring_list::RoaringBlockInfo;
use crate::roaring_list::RoaringPostingIterator;
use crate::roaring_list::RoaringPostingList;
use crate::sparse_config::INFINITY;
use vstd::prelude::*;

verus! {

/// Whether a score is a number not below zero, and does not fall as the
/// frequency grows.
pub open spec fn grows<F: Fn(u32) -> u32>(score: F) -> bool {
    &&& forall|tf: u32, s: u32| #[trigger] score.ensures((tf,), s) ==> s <= INFINITY
    &&& forall|a: u32, b: u32, x: u32, y: u32|
        a <= b && #[trigger] score.ensures((a,), x) && #[trigger] score.ensures((b,), y) ==> x <= y
}

/// The larger of two scores is one of them and below neither, where what is
/// no number does not count.
pub proof fn larger_score_is_either(a: u32, b: u32)
    ensures
        ({
            let r = bp128_list::larger_score(a, b);
            &&& r == a || r == b
            &&& r >= a
            &&& b <= INFINITY ==> r >= b
            &&& b > INFINITY ==> r == a
        }),
{
}

/// The largest score of some blocks is at least that of each of them, and
/// that of one of them or zero.
pub proof fn top_score_is_largest<const VERTICAL: bool>(
    blocks: Seq<BP128Block<VERTICAL>>,
    from: int,
    to: int,
)
    requires
        0 <= from <= to <= blocks.len(),
    ensures
        forall|k: int|
            from <= k < to && (#[trigger] blocks[k]).max_block_score <= INFINITY
                ==> blocks[k].max_block_score <= bp128_list::top_score(blocks, from, to),
        bp128_list::top_score(blocks, from, to) == 0 || exists|k: int|
            from <= k < to && (#[trigger] blocks[k]).max_block_score == bp128_list::top_score(
                blocks,
                from,
                to,
            ),
    decreases to - from,
{
    if from < to {
        top_score_is_largest(blocks, from, to - 1);
        larger_score_is_either(
            bp128_list::top_score(blocks, from, to - 1),
            blocks[to - 1].max_block_score,
        );
        let top = bp128_list::top_score(blocks, from, to);
        if top != 0 && top != blocks[to - 1].max_block_score {
            let k = choose|k: int|
                from <= k < to - 1 && (#[trigger] blocks[k]).max_block_score
                    == bp128_list::top_score(blocks, from, to - 1);
            assert(blocks[k].max_block_score == top);
        }
    }
}

/// A block search goes to the first block from its start on that does not
/// end before the target.
pub proof fn block_from_is_first<const VERTICAL: bool>(
    blocks: Seq<BP128Block<VERTICAL>>,
    from: int,
    target: u32,
)
    requires
        0 <= from <= blocks.len(),
    ensures
        ({
            let b = bp128_list::block_from(blocks, from, target);
            &&& from <= b <= blocks.len()
            &&& b < blocks.len() ==> blocks[b].last_doc_id >= target
            &&& forall|k: int| from <= k < b ==> (#[trigger] blocks[k]).last_doc_id < target
        }),
    decreases blocks.len() - from,
{
    if from < blocks.len() && blocks[from].last_doc_id < target {
        block_from_is_first(blocks, from + 1, target);
    }
}

/// In a list built from postings, the largest frequency of a block is at
/// least that of each of its postings and that of one of them.
pub proof fn block_tf_is_largest<const VERTICAL: bool, F: Fn(u32) -> u32>(
    list: &BP128PostingList<VERTICAL>,
    docs: Seq<u32>,
    tfs: Seq<u32>,
    score: F,
    k: int,
)
    requires
        docs.len() == tfs.len(),
        list.is_built(docs, tfs, score),
        0 <= k < list.blocks@.len(),
    ensures
        forall|i: int|
            128 * k <= i < tfs.len() && i < 128 * k + 128 ==> #[trigger] tfs[i]
                <= list.blocks@[k].max_tf,
        exists|i: int|
            128 * k <= i < tfs.len() && i < 128 * k + 128 && #[trigger] tfs[i]
                == list.blocks@[k].max_tf,
{
    let n = docs.len() as int;
    let end = bp128_list::chunk_end(n, k);
    let freqs = tfs.subrange(128 * k, end);
    assert(bp128_list::is_built_block(list.blocks@[k], docs, tfs, score, k));
    assert forall|i: int| 128 * k <= i < tfs.len() && i < 128 * k + 128 implies #[trigger] tfs[i]
        <= list.blocks@[k].max_tf by {
        encode::seq_max_bound(freqs, i - 128 * k);
        assert(freqs[i - 128 * k] == tfs[i]);
    }
    encode::seq_max_member(freqs);
    let j = choose|j: int| 0 <= j < freqs.len() && freqs[j] == encode::seq_max(freqs);
    assert(tfs[128 * k + j] == list.blocks@[k].max_tf);
}

/// With a score that grows, no posting of a built list scores above its
/// block's score, nor above the largest score of blocks among which its own
/// is.
pub proof fn block_scores_bound<const VERTICAL: bool, F: Fn(u32) -> u32>(
    list: &BP128PostingList<VERTICAL>,
    docs: Seq<u32>,
    tfs: Seq<u32>,
    score: F,
    from: int,
    i: int,
    s: u32,
)
    requires
        docs.len() == tfs.len(),
        list.is_built(docs, tfs, score),
        grows(score),
        0 <= from,
        128 * from <= i < tfs.len(),
        score.ensures((tfs[i],), s),
    ensures
        s <= list.blocks@[i / 128].max_block_score,
        s <= bp128_list::top_score(list.blocks@, from, list.blocks@.len() as int),
        s <= list.max_score,
{
    let k = i / 128;
    assert(bp128_list::is_built_block(list.blocks@[k], docs, tfs, score, k));
    block_tf_is_largest(list, docs, tfs, score, k);
    top_score_is_largest(list.blocks@, from, list.blocks@.len() as int);
    top_score_is_largest(list.blocks@, 0, list.blocks@.len() as int);
}

/// The largest score of some blocks is at least that of each of them, and
/// that of one of them or zero.
pub proof fn chunk_score_is_largest(blocks: Seq<RoaringBlockInfo>, from: int, to: int)
    requires
        0 <= from <= to <= blocks.len(),
    ensures
        forall|k: int|
            from <= k < to && (#[trigger] blocks[k]).max_block_score <= INFINITY
                ==> blocks[k].max_block_score <= roaring_list::top_score(blocks, from, to),
        roaring_list::top_score(blocks, from, to) == 0 || exists|k: int|
            from <= k < to && (#[trigger] blocks[k]).max_block_score == roaring_list::top_score(
                blocks,
                from,
                to,
            ),
    decreases to - from,
{
    if from < to {
        chunk_score_is_largest(blocks, from, to - 1);
        larger_score_is_either(
            roaring_list::top_score(blocks, from, to - 1),
            blocks[to - 1].max_block_score,
        );
        let top = roaring_list::top_score(blocks, from, to);
        if top != 0 && top != blocks[to - 1].max_block_score {
            let k = choose|k: int|
                from <= k < to - 1 && (#[trigger] blocks[k]).max_block_score
                    == roaring_list::top_score(blocks, from, to - 1);
            assert(blocks[k].max_block_score == top);
        }
    }
}

/// A block search goes to the first block from its start on that does not
/// end before the target, or whose key is not below the key asked for.
pub proof fn chunk_from_is_first(blocks: Seq<RoaringBlockInfo>, from: int, target: u32, key: u16)
    requires
        0 <= from <= blocks.len(),
    ensures
        ({
            let b = roaring_list::block_from(blocks, from, target);
            &&& from <= b <= blocks.len()
            &&& b < blocks.len() ==> blocks[b].last_doc_id >= target
            &&& forall|k: int| from <= k < b ==> (#[trigger] blocks[k]).last_doc_id < target
        }),
        ({
            let b = roaring_list::key_from(blocks, from, key);
            &&& from <= b <= blocks.len()
            &&& b < blocks.len() ==> blocks[b].container_key >= key
            &&& forall|k: int| from <= k < b ==> (#[trigger] blocks[k]).container_key < key
        }),
    decreases blocks.len() - from,
{
    if from < blocks.len() {
        chunk_from_is_first(blocks, from + 1, target, key);
    }
}

/// The blocks of documents in order are cut just where the upper half of a
/// document changes: each next block has a larger key, and the documents of
/// a block all have its key.
pub proof fn chunks_follow_keys(docs: Seq<u32>, n: int)
    requires
        block::increasing(docs),
        0 <= n <= docs.len(),
    ensures
        ({
            let starts = roaring_list::chunk_starts(docs, n);
            &&& n > 0 ==> starts.len() > 0 && starts[0] == 0
            &&& forall|k: int|
                0 <= k < starts.len() ==> 0 <= #[trigger] starts[k] < roaring_list::chunk_stop(
                    starts,
                    k,
                    n,
                ) <= n
            &&& forall|k: int, i: int|
                0 <= k < starts.len() && starts[k] <= i < roaring_list::chunk_stop(starts, k, n)
                    ==> roaring::high_of(#[trigger] docs[i]) == roaring::high_of(
                    docs[#[trigger] starts[k]],
                )
            &&& forall|j: int, k: int|
                0 <= j < k < starts.len() ==> roaring::high_of(docs[#[trigger] starts[j]])
                    < roaring::high_of(docs[#[trigger] starts[k]])
        }),
    decreases n,
{
    if n > 0 {
        chunks_follow_keys(docs, n - 1);
        let less = roaring_list::chunk_starts(docs, n - 1);
        let starts = roaring_list::chunk_starts(docs, n);
        if n > 1 {
            assert(docs[n - 2] < docs[n - 1]);
            assert(roaring::high_of(docs[n - 2]) <= roaring::high_of(docs[n - 1]));
            let last = less.len() - 1;
            assert(roaring_list::chunk_stop(less, last, n - 1) == n - 1);
            assert(roaring::high_of(docs[n - 2]) == roaring::high_of(docs[less[last]]));
        }
        assert forall|k: int, i: int|
            0 <= k < starts.len() && starts[k] <= i < roaring_list::chunk_stop(
                starts,
                k,
                n,
            ) implies roaring::high_of(#[trigger] docs[i]) == roaring::high_of(
            docs[#[trigger] starts[k]],
        ) by {
            if k < less.len() {
                assert(starts[k] == less[k]);
                if i < n - 1 {
                    assert(i < roaring_list::chunk_stop(less, k, n - 1));
                }
            }
        }
        assert forall|k: int| 0 <= k < starts.len() implies 0 <= #[trigger] starts[k]
            < roaring_list::chunk_stop(starts, k, n) <= n by {
            if k < less.len() {
                assert(starts[k] == less[k]);
            }
        }
        assert forall|j: int, k: int| 0 <= j < k < starts.len() implies roaring::high_of(
            docs[#[trigger] starts[j]],
        ) < roaring::high_of(docs[#[trigger] starts[k]]) by {
            assert(starts[j] == less[j]);
            if k < less.len() {
                assert(starts[k] == less[k]);
            } else {
                let last = less.len() - 1;
                assert(j == last || roaring::high_of(docs[less[j]]) < roaring::high_of(
                    docs[less[last]],
                ));
            }
        }
    }
}

/// In a list built from postings in order, the keys of the blocks increase.
/// Each block counts just the postings with its key, none has a larger
/// frequency than the block's, and one has that frequency.
pub proof fn chunks_hold_keys<F: Fn(u32) -> u32>(
    list: &RoaringPostingList,
    docs: Seq<u32>,
    tfs: Seq<u32>,
    score: F,
    k: int,
) -> (from: int)
    requires
        docs.len() == tfs.len(),
        block::increasing(docs),
        list.is_built(docs, tfs, score),
        0 <= k < list.blocks@.len(),
    ensures
        forall|j: int|
            k < j < list.blocks@.len() ==> list.blocks@[k].container_key < (
            #[trigger] list.blocks@[j]).container_key,
        0 <= from,
        from + list.blocks@[k].num_docs <= docs.len(),
        forall|i: int|
            0 <= i < docs.len() ==> (roaring::high_of(#[trigger] docs[i])
                == list.blocks@[k].container_key <==> from <= i < from
                + list.blocks@[k].num_docs),
        forall|i: int|
            from <= i < from + list.blocks@[k].num_docs ==> #[trigger] tfs[i]
                <= list.blocks@[k].max_tf,
        exists|i: int|
            from <= i < from + list.blocks@[k].num_docs && #[trigger] tfs[i]
                == list.blocks@[k].max_tf,
{
    let n = docs.len() as int;
    let starts = roaring_list::chunk_starts(docs, n);
    chunks_follow_keys(docs, n);
    let from = starts[k];
    let to = roaring_list::chunk_stop(starts, k, n);
    let part = tfs.subrange(from, to);
    assert(roaring_list::is_chunk_info(list.blocks@[k], docs, tfs, from, to, score));
    assert forall|j: int| k < j < list.blocks@.len() implies list.blocks@[k].container_key < (
    #[trigger] list.blocks@[j]).container_key by {
        assert(roaring_list::is_chunk_info(
            list.blocks@[j],
            docs,
            tfs,
            starts[j],
            roaring_list::chunk_stop(starts, j, n),
            score,
        ));
    }
    assert forall|i: int| 0 <= i < n implies (roaring::high_of(#[trigger] docs[i])
        == list.blocks@[k].container_key <==> from <= i < to) by {
        let j = chunk_of(docs, n, i);
        assert(roaring::high_of(docs[i]) == roaring::high_of(docs[starts[j]]));
        if j < k {
            assert(roaring::high_of(docs[starts[j]]) < roaring::high_of(docs[starts[k]]));
        } else if j > k {
            assert(roaring::high_of(docs[starts[k]]) < roaring::high_of(docs[starts[j]]));
        }
    }
    assert forall|i: int| from <= i < to implies #[trigger] tfs[i] <= list.blocks@[k].max_tf by {
        encode::seq_max_bound(part, i - from);
        assert(part[i - from] == tfs[i]);
    }
    encode::seq_max_member(part);
    let j = choose|j: int| 0 <= j < part.len() && part[j] == encode::seq_max(part);
    assert(tfs[from + j] == list.blocks@[k].max_tf);
    from
}

proof fn chunk_of(docs: Seq<u32>, n: int, i: int) -> (k: int)
    requires
        block::increasing(docs),
        0 <= i < n <= docs.len(),
    ensures
        ({
            let starts = roaring_list::chunk_starts(docs, n);
            &&& 0 <= k < starts.len()
            &&& starts[k] <= i < roaring_list::chunk_stop(starts, k, n)
        }),
    decreases n,
{
    chunks_follow_keys(docs, n);
    let starts = roaring_list::chunk_starts(docs, n);
    if i == n - 1 {
        assert(starts[starts.len() - 1] <= n - 1);
        starts.len() - 1
    } else {
        let k = chunk_of(docs, n - 1, i);
        let less = roaring_list::chunk_starts(docs, n - 1);
        assert(starts[k] == less[k]);
        if k + 1 < less.len() {
            assert(starts[k + 1] == less[k + 1]);
        }
        k
    }
}

/// With a score that grows, no posting of a built list scores above its
/// block's score, nor above the largest score of blocks among which its own
/// is.
pub proof fn chunk_scores_bound<F: Fn(u32) -> u32>(
    list: &RoaringPostingList,
    docs: Seq<u32>,
    tfs: Seq<u32>,
    score: F,
    from: int,
    k: int,
    i: int,
    s: u32,
)
    requires
        docs.len() == tfs.len(),
        block::increasing(docs),
        list.is_built(docs, tfs, score),
        grows(score),
        0 <= from <= k < list.blocks@.len(),
        0 <= i < docs.len(),
        roaring::high_of(docs[i]) == list.blocks@[k].container_key,
        score.ensures((tfs[i],), s),
    ensures
        s <= list.blocks@[k].max_block_score,
        s <= roaring_list::top_score(list.blocks@, from, list.blocks@.len() as int),
        s <= list.max_score,
{
    let n = docs.len() as int;
    let starts = roaring_list::chunk_starts(docs, n);
    let first = chunks_hold_keys(list, docs, tfs, score, k);
    assert(roaring_list::is_chunk_info(
        list.blocks@[k],
        docs,
        tfs,
        starts[k],
        roaring_list::chunk_stop(starts, k, n),
        score,
    ));
    assert(tfs[i] <= list.blocks@[k].max_tf);
    chunk_score_is_largest(list.blocks@, from, list.blocks@.len() as int);
    chunk_score_is_largest(list.blocks@, 0, list.blocks@.len() as int);
}

/// The frequencies kept by document are just those other than the usual one.
pub proof fn others_are_unusual(docs: Seq<u32>, tfs: Seq<u32>, tf: u32, n: int)
    requires
        docs.len() == tfs.len(),
        0 <= n <= docs.len(),
    ensures
        ({
            let kept = roaring_list::others(docs, tfs, tf, n);
            &&& forall|j: int|
                0 <= j < kept.len() ==> (#[trigger] kept[j]).1 != tf && exists|i: int|
                    0 <= i < n && #[trigger] docs[i] == kept[j].0 && tfs[i] == kept[j].1
            &&& forall|i: int|
                0 <= i < n && #[trigger] tfs[i] != tf ==> kept.contains((docs[i], tfs[i]))
        }),
    decreases n,
{
    if n > 0 {
        others_are_unusual(docs, tfs, tf, n - 1);
        let less = roaring_list::others(docs, tfs, tf, n - 1);
        let kept = roaring_list::others(docs, tfs, tf, n);
        assert forall|j: int| 0 <= j < kept.len() implies (#[trigger] kept[j]).1 != tf && exists|
            i: int,
        |
            0 <= i < n && #[trigger] docs[i] == kept[j].0 && tfs[i] == kept[j].1 by {
            if j < less.len() {
                assert(kept[j] == less[j]);
            } else {
                assert(docs[n - 1] == kept[j].0);
            }
        }
        assert forall|i: int| 0 <= i < n && #[trigger] tfs[i] != tf implies kept.contains(
            (docs[i], tfs[i]),
        ) by {
            if i == n - 1 {
                assert(kept[less.len() as int] == (docs[i], tfs[i]));
            } else {
                let j = choose|j: int| 0 <= j < less.len() && less[j] == (docs[i], tfs[i]);
                assert(kept[j] == (docs[i], tfs[i]));
            }
        }
    }
}

/// A walk that skips to the block of a target passes over no posting that is
/// not before the target.
pub proof fn packed_skip_keeps<const VERTICAL: bool>(
    blocks: Seq<BP128Block<VERTICAL>>,
    at: Position,
    target: u32,
    p: Posting,
)
    requires
        bp128_list::all_shaped(blocks),
        bp128_list::ordered(blocks),
        bp128_list::valid_at(bp128_list::runs(blocks), at),
        at is Some,
        bp128_list::rest_at(bp128_list::runs(blocks), at).contains(p),
        p.doc_id >= target,
    ensures
        ({
            let c = bp128_list::block_from(blocks, at->Some_0.0, target);
            &&& c < blocks.len()
            &&& bp128_list::rest_at(
                bp128_list::runs(blocks),
                bp128_list::load_at(bp128_list::runs(blocks), c),
            ).contains(p)
        }),
{
    let runs = bp128_list::runs(blocks);
    let (b, k) = at->Some_0;
    let rest = bp128_list::rest_at(runs, at);
    let i = choose|i: int| 0 <= i < rest.len() && rest[i] == p;
    let all = bp128_list::flat_from(runs, b);
    assert(all == runs[b] + bp128_list::flat_from(runs, b + 1));
    assert(all[k + i] == p);
    assert(all.contains(p));
    later_blocks_hold(blocks, b, target, p);
    let c = bp128_list::block_from(blocks, b, target);
    bp128_list::start_rest(runs, c);
}

proof fn later_blocks_hold<const VERTICAL: bool>(
    blocks: Seq<BP128Block<VERTICAL>>,
    b: int,
    target: u32,
    p: Posting,
)
    requires
        bp128_list::all_shaped(blocks),
        bp128_list::ordered(blocks),
        0 <= b <= blocks.len(),
        bp128_list::flat_from(bp128_list::runs(blocks), b).contains(p),
        p.doc_id >= target,
    ensures
        0 <= bp128_list::block_from(blocks, b, target) < blocks.len(),
        bp128_list::flat_from(
            bp128_list::runs(blocks),
            bp128_list::block_from(blocks, b, target),
        ).contains(p),
    decreases blocks.len() - b,
{
    let runs = bp128_list::runs(blocks);
    if b < blocks.len() && blocks[b].last_doc_id < target {
        let all = bp128_list::flat_from(runs, b);
        let rest = bp128_list::flat_from(runs, b + 1);
        let i = choose|i: int| 0 <= i < all.len() && all[i] == p;
        assert(all == runs[b] + rest);
        let docs = blocks[b].docs();
        assert(blocks[b].shape_ok());
        if i < runs[b].len() {
            assert(p.doc_id == docs[i]);
            if i < docs.len() - 1 {
                assert(docs[i] < docs[docs.len() - 1]);
            }
        } else {
            assert(rest[i - runs[b].len()] == p);
        }
        later_blocks_hold(blocks, b + 1, target, p);
    }
}

/// A walk that skips to the block of a target passes over no document that
/// is not before the target.
pub proof fn set_skip_keeps(
    it: RoaringPostingIterator<'_>,
    to: RoaringPostingIterator<'_>,
    target: u32,
) -> (m: int)
    requires
        it.wf(),
        roaring_laws::hold(it.list.blocks@, it.current_block as int, it.pending()),
        roaring_list::block_from(it.list.blocks@, it.current_block as int, target)
            < it.list.blocks@.len(),
        to.is_past(
            it,
            it.list.blocks@[roaring_list::block_from(
                it.list.blocks@,
                it.current_block as int,
                target,
            )].first_doc_id,
        ),
    ensures
        0 <= m <= it.pending().len(),
        to.pending() == it.pending().skip(m),
        forall|i: int| 0 <= i < m ==> (#[trigger] it.pending()[i]) < target,
{
    let blocks = it.list.blocks@;
    let from = it.current_block as int;
    let b = roaring_list::block_from(blocks, from, target);
    chunk_from_is_first(blocks, from, target, 0);
    let first = blocks[b].first_doc_id;
    let m = choose|m: int|
        0 <= m <= it.pending().len() && to.pending() == #[trigger] it.pending().skip(m) && forall|
            i: int,
        |
            0 <= i < m ==> (#[trigger] it.pending()[i]) < first;
    assert forall|i: int| 0 <= i < m implies (#[trigger] it.pending()[i]) < target by {
        let doc = it.pending()[i];
        assert(roaring_laws::bounded(blocks, from, doc));
        let k = choose|k: int|
            from <= k < blocks.len() && #[trigger] roaring_laws::bounds(blocks, k, doc);
        if k >= b {
            assert(blocks[b].first_doc_id <= blocks[k].first_doc_id);
        }
    }
    m
}

} // verus!
