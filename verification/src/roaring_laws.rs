//! What the entries of a posting list with a set of documents give a cursor.
use crate::block;
use crate::roaring;
use crate::roaring_list;
use crate::roaring_list::RoaringBlockInfo;
use crate::roaring_list::RoaringPostingIterator;
use vstd::prelude::*;

verus! {

/// Whether entry `k` is the one of a document.
pub open spec fn bounds(blocks: Seq<RoaringBlockInfo>, k: int, doc: u32) -> bool {
    &&& blocks[k].first_doc_id <= doc <= blocks[k].last_doc_id
    &&& blocks[k].container_key == roaring::high_of(doc)
}

/// Whether one of the entries from `from` on is that of a document.
pub open spec fn bounded(blocks: Seq<RoaringBlockInfo>, from: int, doc: u32) -> bool {
    exists|k: int| from <= k < blocks.len() && #[trigger] bounds(blocks, k, doc)
}

/// Whether entries follow each other, and those from `from` on hold all the
/// documents.
pub open spec fn hold(blocks: Seq<RoaringBlockInfo>, from: int, docs: Seq<u32>) -> bool {
    &&& forall|k: int, m: int|
        0 <= k <= m < blocks.len() ==> (#[trigger] blocks[k]).first_doc_id <= (
        #[trigger] blocks[m]).first_doc_id
    &&& forall|i: int| 0 <= i < docs.len() ==> bounded(blocks, from, #[trigger] docs[i])
}

proof fn block_from_is(blocks: Seq<RoaringBlockInfo>, from: int, target: u32)
    requires
        0 <= from <= blocks.len(),
    ensures
        from <= roaring_list::block_from(blocks, from, target) <= blocks.len(),
        forall|k: int|
            from <= k < roaring_list::block_from(blocks, from, target) ==> (
            #[trigger] blocks[k]).last_doc_id < target,
    decreases blocks.len() - from,
{
    if from < blocks.len() && blocks[from].last_doc_id < target {
        block_from_is(blocks, from + 1, target);
    }
}

proof fn key_from_is(blocks: Seq<RoaringBlockInfo>, from: int, key: u16)
    requires
        0 <= from <= blocks.len(),
    ensures
        from <= roaring_list::key_from(blocks, from, key) <= blocks.len(),
        forall|k: int|
            from <= k < roaring_list::key_from(blocks, from, key) ==> (
            #[trigger] blocks[k]).container_key < key,
    decreases blocks.len() - from,
{
    if from < blocks.len() && blocks[from].container_key < key {
        key_from_is(blocks, from + 1, key);
    }
}

/// A search of a cursor whose entries hold its documents passes over just
/// those before the target, and the entries hold what is left.
pub proof fn roaring_seek_finds(
    it: RoaringPostingIterator<'_>,
    to: RoaringPostingIterator<'_>,
    target: u32,
) -> (m: int)
    requires
        it.wf(),
        it.list.blocks@.len() > 0,
        hold(it.list.blocks@, it.current_block as int, it.pending()),
        block::increasing(it.pending()),
        to.is_sought(it, target),
    ensures
        0 <= m <= it.pending().len(),
        to.pending() == it.pending().skip(m),
        forall|i: int| 0 <= i < m ==> (#[trigger] it.pending()[i]) < target,
        to.current_doc matches Some(d) ==> d >= target,
        hold(to.list.blocks@, to.current_block as int, to.pending()),
        block::increasing(to.pending()),
{
    let blocks = it.list.blocks@;
    let all = it.pending();
    let b = roaring_list::block_from(blocks, it.current_block as int, target);
    block_from_is(blocks, it.current_block as int, target);
    assert forall|i: int| 0 <= i < all.len() && #[trigger] all[i] >= target implies b
        < blocks.len() && blocks[b].first_doc_id <= all[i] && bounded(blocks, b, all[i]) by {
        assert(bounded(blocks, it.current_block as int, all[i]));
        let k = choose|k: int|
            it.current_block <= k < blocks.len() && #[trigger] bounds(blocks, k, all[i]);
        assert(blocks[k].last_doc_id >= target);
        assert(b <= k);
        assert(bounds(blocks, k, all[i]));
        assert(blocks[b].first_doc_id <= blocks[k].first_doc_id);
    }
    let m = if b >= blocks.len() {
        all.len() as int
    } else {
        choose|m: int|
            0 <= m <= all.len() && to.pending() == #[trigger] all.skip(m) && forall|i: int|
                0 <= i < m ==> (#[trigger] all[i]) < it.goal(target)
    };
    assert(to.pending() =~= all.skip(m));
    assert forall|i: int| 0 <= i < m implies (#[trigger] all[i]) < target by {
        if all[i] >= target && b < blocks.len() {
            assert(blocks[b].first_doc_id <= all[i]);
        }
    }
    assert forall|i: int| 0 <= i < to.pending().len() implies bounded(
        blocks,
        to.current_block as int,
        #[trigger] to.pending()[i],
    ) by {
        assert(to.pending()[i] == all[m + i]);
        assert(to.pending()[0] == all[m]);
        assert(to.pending()[0] >= target);
        if i > 0 {
            assert(all[m] < all[m + i]);
        }
        assert(all[m + i] >= target);
    }
    assert forall|i: int, j: int| 0 <= i < j < to.pending().len() implies to.pending()[i]
        < to.pending()[j] by {
        assert(all[m + i] < all[m + j]);
    }
    m
}

/// A step of a cursor whose entries hold its documents leaves one of which
/// the same is true.
pub proof fn roaring_step_holds(it: RoaringPostingIterator<'_>, to: RoaringPostingIterator<'_>)
    requires
        it.wf(),
        it.current_doc is Some,
        hold(it.list.blocks@, it.current_block as int, it.pending()),
        block::increasing(it.pending()),
        to.is_next(it),
        to.current_block == (match to.current_doc {
            Some(d) => roaring_list::key_from(
                it.list.blocks@,
                it.current_block as int,
                roaring::high_of(d),
            ),
            None => it.current_block as int,
        }),
    ensures
        to.pending() == it.pending().skip(1),
        hold(to.list.blocks@, to.current_block as int, to.pending()),
        block::increasing(to.pending()),
{
    let blocks = it.list.blocks@;
    let all = it.pending();
    let rest = to.pending();
    assert(all.skip(1) =~= it.ahead());
    assert(rest =~= it.ahead());
    if let Some(d) = to.current_doc {
        let key = roaring::high_of(d);
        key_from_is(blocks, it.current_block as int, key);
        assert forall|i: int| 0 <= i < rest.len() implies bounded(
            blocks,
            to.current_block as int,
            #[trigger] rest[i],
        ) by {
            assert(rest[i] == all[1 + i]);
            assert(rest[0] == d);
            assert(bounded(blocks, it.current_block as int, all[1 + i]));
            let k = choose|k: int|
                it.current_block <= k < blocks.len() && #[trigger] bounds(blocks, k, rest[i]);
            if i > 0 {
                assert(all[1] < all[1 + i]);
            }
            assert(rest[i] >= d);
            assert(blocks[k].container_key >= key);
            assert(k >= to.current_block);
            assert(bounds(blocks, k, rest[i]));
        }
    }
    assert forall|i: int, j: int| 0 <= i < j < rest.len() implies rest[i] < rest[j] by {
        assert(all[1 + i] < all[1 + j]);
    }
}

/// The entries of a list that was built hold all its documents.
pub proof fn built_entries_hold<F: Fn(u32) -> u32>(
    blocks: Seq<RoaringBlockInfo>,
    docs: Seq<u32>,
    tfs: Seq<u32>,
    score: F,
)
    requires
        block::increasing(docs),
        ({
            let n = docs.len() as int;
            let starts = roaring_list::chunk_starts(docs, n);
            &&& blocks.len() == starts.len()
            &&& forall|k: int|
                0 <= k < starts.len() ==> roaring_list::is_chunk_info(
                    #[trigger] blocks[k],
                    docs,
                    tfs,
                    starts[k],
                    roaring_list::chunk_stop(starts, k, n),
                    score,
                )
        }),
    ensures
        hold(blocks, 0, docs),
{
    let n = docs.len() as int;
    let starts = roaring_list::chunk_starts(docs, n);
    starts_ordered(docs, n);
    assert forall|k: int, m: int| 0 <= k <= m < blocks.len() implies (
    #[trigger] blocks[k]).first_doc_id <= (#[trigger] blocks[m]).first_doc_id by {
        if k < m {
            assert(starts[k] < starts[m]);
            assert(docs[starts[k]] < docs[starts[m]]);
        }
    }
    assert forall|i: int| 0 <= i < n implies bounded(blocks, 0, #[trigger] docs[i]) by {
        let k = chunk_of(docs, n, i);
        let stop = roaring_list::chunk_stop(starts, k, n);
        assert(blocks[k].first_doc_id == docs[starts[k]]);
        if starts[k] < i {
            assert(docs[starts[k]] < docs[i]);
        }
        if i < stop - 1 {
            assert(docs[i] < docs[stop - 1]);
        }
        assert(bounds(blocks, k, docs[i]));
    }
}

/// Chunk starts are in order, the first being zero.
proof fn starts_ordered(docs: Seq<u32>, n: int)
    requires
        0 <= n <= docs.len(),
    ensures
        ({
            let starts = roaring_list::chunk_starts(docs, n);
            &&& forall|k: int, m: int| 0 <= k < m < starts.len() ==> starts[k] < starts[m]
            &&& forall|k: int| 0 <= k < starts.len() ==> 0 <= #[trigger] starts[k] < n
            &&& n > 0 ==> starts.len() > 0 && starts[0] == 0
        }),
    decreases n,
{
    if n > 0 {
        starts_ordered(docs, n - 1);
        let before = roaring_list::chunk_starts(docs, n - 1);
        let starts = roaring_list::chunk_starts(docs, n);
        assert forall|k: int| 0 <= k < starts.len() implies 0 <= #[trigger] starts[k] < n by {
            if k < before.len() {
                assert(starts[k] == before[k]);
            }
        }
        assert forall|k: int, m: int| 0 <= k < m < starts.len() implies starts[k] < starts[m] by {
            assert(starts[k] == before[k]);
            if m < before.len() {
                assert(starts[m] == before[m]);
            }
        }
        if n > 1 {
            assert(starts[0] == before[0]);
        } else {
            assert(before.len() == 0);
            assert(roaring_list::starts_chunk(docs, 0));
            assert(starts[0] == 0);
        }
    }
}

/// The chunk of a posting.
proof fn chunk_of(docs: Seq<u32>, n: int, i: int) -> (k: int)
    requires
        0 <= i < n <= docs.len(),
    ensures
        ({
            let starts = roaring_list::chunk_starts(docs, n);
            &&& 0 <= k < starts.len()
            &&& starts[k] <= i < roaring_list::chunk_stop(starts, k, n)
            &&& roaring::high_of(docs[starts[k]]) == roaring::high_of(docs[i])
        }),
    decreases n,
{
    let starts = roaring_list::chunk_starts(docs, n);
    starts_ordered(docs, n);
    if i == n - 1 {
        let k = starts.len() - 1;
        if !roaring_list::starts_chunk(docs, n - 1) {
            let before = chunk_of(docs, n - 1, n - 2);
            assert(before == k) by {
                if before < k {
                    starts_ordered(docs, n - 1);
                    assert(starts[before + 1] < n - 1);
                }
            }
        }
        k
    } else {
        chunk_of(docs, n - 1, i)
    }
}

} // verus!
