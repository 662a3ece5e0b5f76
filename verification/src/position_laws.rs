//! A position cursor is the sum of the frequencies of all earlier postings.
use crate::block::PostingBlock;
use crate::codec::PostingCodec;
use crate::cursor;
use crate::iterator::BlockPostingIterator;
use crate::list;
use crate::list::BlockPostingList;
use crate::list_build;
use crate::list_laws;
use crate::list_read;
use crate::merge;
use crate::merge::Entry;
use crate::posting::Posting;
use vstd::prelude::*;

verus! {

/// Whether the cursor of every block is the frequency sum of the postings
/// before it, and the total that of all postings.
pub open spec fn positions_hold(l: BlockPostingList) -> bool {
    &&& l.cursors matches Some(c) && c@.len() == l.len() && forall|i: int|
        0 <= i < l.len() ==> #[trigger] c@[i] == list_build::tf_sum(
            l@,
            list::total_count(l.blocks@, i),
        )
    &&& l.total_positions == list_build::tf_sum(l@, l@.len() as int)
}

/// Sums over a joined sequence.
pub proof fn sum_joins(a: Seq<Posting>, b: Seq<Posting>, n: int)
    requires
        0 <= n <= a.len() + b.len(),
    ensures
        list_build::tf_sum(a + b, n) == (if n <= a.len() {
            list_build::tf_sum(a, n)
        } else {
            list_build::tf_sum(a, a.len() as int) + list_build::tf_sum(b, n - a.len())
        }),
    decreases n,
{
    if n > 0 {
        sum_joins(a, b, n - 1);
        if n == a.len() + 1 {
            assert(list_build::tf_sum(b, 0) == 0);
        }
        if n > a.len() {
            assert((a + b)[n - 1] == b[n - 1 - a.len()]);
        }
    }
}

/// Moving postings up leaves their frequencies.
pub proof fn sum_shifts(s: Seq<Posting>, offset: int, n: int)
    requires
        0 <= n <= s.len(),
    ensures
        list_build::tf_sum(merge::shifted(s, offset), n) == list_build::tf_sum(s, n),
    decreases n,
{
    if n > 0 {
        sum_shifts(s, offset, n - 1);
    }
}

/// The full blocks before block `i` of a built list.
proof fn built_counts(blocks: Seq<PostingBlock>, s: Seq<Posting>, i: int)
    requires
        0 <= i <= blocks.len(),
        i > 0 ==> 128 * (i - 1) < s.len(),
        i < blocks.len() ==> 128 * i < s.len(),
        forall|k: int|
            0 <= k < blocks.len() ==> list::block_postings(#[trigger] blocks[k])
                == list_build::chunk(s, k),
        i < blocks.len(),
    ensures
        list::total_count(blocks, i) == 128 * i,
    decreases i,
{
    if i > 0 {
        built_counts(blocks, s, i - 1);
        assert(list::block_postings(blocks[i - 1]).len() == blocks[i - 1].count);
        assert(list_build::chunk(s, i - 1).len() == 128);
    }
}

/// The position cursors of a list built with them are frequency sums.
pub proof fn built_positions_hold(
    l: BlockPostingList,
    s: Seq<Posting>,
    lengths: Option<Seq<u32>>,
    codec: PostingCodec,
    limit: Option<u32>,
    impact_bounds: bool,
)
    requires
        list_build::is_built(l, s, true, lengths, codec, limit, impact_bounds),
        l@ == s,
    ensures
        positions_hold(l),
{
    assert forall|i: int| 0 <= i < l.len() implies list::total_count(l.blocks@, i) == 128 * i by {
        assert forall|k: int| 0 <= k < l.len() implies list::block_postings(
            #[trigger] l.blocks@[k],
        ) == list_build::chunk(s, k) by {
            assert(list_build::is_built_block(l.blocks@[k], s, lengths, limit, codec, k));
        }
        built_counts(l.blocks@, s, i);
    }
}

/// Reading a stored list keeps its position cursors.
pub proof fn read_positions_hold(l: BlockPostingList, compact: bool, r: BlockPostingList)
    requires
        list_laws::storable(l, compact),
        list_read::is_read(r, l.stored(compact), list_laws::written_footer(l, compact)),
        r.wf(),
        positions_hold(l),
    ensures
        positions_hold(r),
{
    list_laws::store_read_roundtrip(l, compact, r);
    assert forall|i: int| 0 <= i < r.len() implies list::total_count(r.blocks@, i)
        == list::total_count(l.blocks@, i) by {
        same_counts(l.blocks@, r.blocks@, i);
    }
}

proof fn same_counts(a: Seq<PostingBlock>, b: Seq<PostingBlock>, n: int)
    requires
        0 <= n <= a.len(),
        a.len() == b.len(),
        forall|i: int| 0 <= i < a.len() ==> list_laws::same_block(#[trigger] a[i], b[i]),
    ensures
        list::total_count(a, n) == list::total_count(b, n),
    decreases n,
{
    if n > 0 {
        same_counts(a, b, n - 1);
        assert(list_laws::same_block(a[n - 1], b[n - 1]));
    }
}

/// Whether the cursor of entry `i` is a sum over postings.
spec fn entry_ok(es: Seq<Entry>, all: Seq<Posting>, i: int) -> bool {
    &&& 0 <= merge::entry_count(es, i) <= all.len()
    &&& es[i].cursor == list_build::tf_sum(all, merge::entry_count(es, i))
}

/// The cursor of block `k` of the last of `n` sources.
proof fn new_entry_sum(sources: Seq<(BlockPostingList, u32)>, n: int, k: int)
    requires
        0 < n <= sources.len(),
        positions_hold(sources[n - 1].0),
        0 <= k < sources[n - 1].0.len(),
        ({
            let es = merge::entries(sources, n - 1);
            let all = merge::joined_postings(sources, n - 1);
            &&& all.len() == merge::entry_count(es, es.len() as int)
            &&& merge::positions_before(sources, n - 1) == list_build::tf_sum(
                all,
                all.len() as int,
            )
        }),
    ensures
        entry_ok(
            merge::entries(sources, n),
            merge::joined_postings(sources, n),
            merge::entries(sources, n - 1).len() + k,
        ),
{
    let es = merge::entries(sources, n);
    let old_es = merge::entries(sources, n - 1);
    let m = old_es.len() as int;
    let (l, offset) = sources[n - 1];
    let before = merge::joined_postings(sources, n - 1);
    let own = merge::shifted(l@, offset as int);
    merge::entry_count_prefix(es, old_es, m);
    merge::entry_count_source(sources, n - 1, k);
    list::flat_len(l.blocks@, l.len());
    counts_between(l.blocks@, k);
    assert(es[m + k] == merge::entry_of(sources, n - 1, k));
    let q = list::total_count(l.blocks@, k);
    let c = l.cursors->Some_0@;
    assert(c[k] == list_build::tf_sum(l@, q));
    sum_joins(before, own, before.len() + q);
    sum_shifts(l@, offset as int, q);
    assert(list_build::tf_sum(own, 0) == 0);
}

/// The cursors of the entries of `n` sources are sums over their postings.
proof fn entry_sums(sources: Seq<(BlockPostingList, u32)>, n: int)
    requires
        0 <= n <= sources.len(),
        forall|i: int| 0 <= i < sources.len() ==> positions_hold((#[trigger] sources[i]).0),
    ensures
        ({
            let es = merge::entries(sources, n);
            let all = merge::joined_postings(sources, n);
            &&& all.len() == merge::entry_count(es, es.len() as int)
            &&& merge::positions_before(sources, n) == list_build::tf_sum(all, all.len() as int)
            &&& forall|i: int| 0 <= i < es.len() ==> entry_ok(es, all, i)
        }),
    decreases n,
{
    if n > 0 {
        entry_sums(sources, n - 1);
        let es = merge::entries(sources, n);
        let old_es = merge::entries(sources, n - 1);
        let m = old_es.len() as int;
        let (l, offset) = sources[n - 1];
        assert(positions_hold(sources[n - 1].0));
        let before = merge::joined_postings(sources, n - 1);
        let own = merge::shifted(l@, offset as int);
        let all = merge::joined_postings(sources, n);
        assert(es.len() == m + l.len());
        assert forall|i: int| 0 <= i < es.len() implies entry_ok(es, all, i) by {
            if i < m {
                assert(entry_ok(old_es, before, i));
                assert(es[i] == old_es[i]);
                merge::entry_count_prefix(es, old_es, i);
                sum_joins(before, own, merge::entry_count(es, i));
            } else {
                new_entry_sum(sources, n, i - m);
            }
        }
        merge::entry_count_prefix(es, old_es, m);
        list::flat_len(l.blocks@, l.len());
        merge::entry_count_source(sources, n - 1, l.len());
        sum_joins(before, own, all.len() as int);
        sum_shifts(l@, offset as int, l@.len() as int);
        assert(list_build::tf_sum(own, 0) == 0);
    }
}

proof fn counts_between(blocks: Seq<PostingBlock>, k: int)
    requires
        0 <= k <= blocks.len(),
    ensures
        0 <= list::total_count(blocks, k) <= list::total_count(blocks, blocks.len() as int),
    decreases blocks.len() - k,
{
    if k < blocks.len() {
        counts_between(blocks, k + 1);
    }
    counts_positive(blocks, k);
}

proof fn counts_positive(blocks: Seq<PostingBlock>, k: int)
    requires
        0 <= k <= blocks.len(),
    ensures
        0 <= list::total_count(blocks, k),
    decreases k,
{
    if k > 0 {
        counts_positive(blocks, k - 1);
    }
}

/// Merging sound lists with position cursors gives one whose cursors are
/// frequency sums too.
pub proof fn merged_positions_hold(
    r: BlockPostingList,
    sources: Seq<(BlockPostingList, u32)>,
    compact: bool,
)
    requires
        merge::all_wf(sources),
        merge::is_merged(r, sources, compact),
        forall|i: int|
            0 <= i < sources.len() ==> (#[trigger] sources[i]).0.sound() && positions_hold(
                sources[i].0,
            ),
    ensures
        positions_hold(r),
{
    let n = sources.len() as int;
    let es = merge::all_entries(sources);
    merge::merged_postings(r, sources, compact);
    reveal(merge::is_merged);
    entry_sums(sources, n);
    merge::accepted_totals(sources, n);
    assert(merge::all_cursors(sources)) by {
        assert forall|i: int| 0 <= i < sources.len() implies (
        #[trigger] sources[i]).0.cursors is Some by {
            assert(positions_hold(sources[i].0));
        }
    }
    assert forall|i: int| 0 <= i < es.len() implies #[trigger] r.cursors->Some_0@[i]
        == list_build::tf_sum(r@, list::total_count(r.blocks@, i)) by {
        merged_counts(r.blocks@, es, i);
        assert(entry_ok(es, r@, i));
    }
}

proof fn merged_counts(blocks: Seq<PostingBlock>, es: Seq<Entry>, n: int)
    requires
        merge::is_merged_blocks(blocks, es),
        0 <= n <= es.len(),
    ensures
        list::total_count(blocks, n) == merge::entry_count(es, n),
    decreases n,
{
    if n > 0 {
        merged_counts(blocks, es, n - 1);
        assert(crate::block_codec::is_rebased(
            blocks[n - 1],
            es[n - 1].block,
            es[n - 1].offset as int,
        ));
    }
}

/// However a cursor came to a posting of a sound list, its position is the
/// frequency sum of the postings before it, which are those with a smaller
/// document.
pub proof fn position_is_earlier_sum(it: BlockPostingIterator<'_>) -> (j: int)
    requires
        it.wf(),
        it.list().sound(),
        positions_hold(it.list()),
        it.at() is Some,
    ensures
        0 <= j < it.list()@.len(),
        it.list()@[j].doc_id == cursor::doc_at(it.blocks(), it.at()),
        it.position() == list_build::tf_sum(it.list()@, j),
        forall|i: int|
            0 <= i < it.list()@.len() ==> ((#[trigger] it.list()@[i]).doc_id < cursor::doc_at(
                it.blocks(),
                it.at(),
            ) <==> i < j),
{
    it.facts();
    let blocks = it.blocks();
    let (b, k) = it.at()->Some_0;
    let n = blocks.len() as int;
    let all = it.list()@;
    let before = list::flat(blocks, b);
    let own = list::block_postings(blocks[b]);
    let j = list::total_count(blocks, b) + k;
    list::flat_len(blocks, b);
    list::flat_len(blocks, b + 1);
    list::flat_len(blocks, n);
    cursor::rest_of_sound(blocks, b + 1);
    let rest = cursor::readable(blocks, b + 1);
    assert(all == before + own + rest);
    counts_positive(blocks, b);
    sum_joins(before + own, rest, j);
    sum_joins(before, own, j);
    own_sum(blocks[b], k);
    assert(it.list().cursors->Some_0@[b] == list_build::tf_sum(all, list::total_count(blocks, b)));
    sum_joins(before + own, rest, list::total_count(blocks, b));
    sum_joins(before, own, list::total_count(blocks, b));
    assert(all[j] == own[k]);
    assert forall|i: int, m: int| 0 <= i < m < all.len() implies (#[trigger] all[i]).doc_id < (
    #[trigger] all[m]).doc_id by {
        cursor::rest_of_sound(blocks, 0);
        assert(list::flat(blocks, 0) + cursor::readable(blocks, 0) =~= cursor::readable(blocks, 0));
        cursor::rest_increasing(blocks, 0, i, m);
    }
    j
}

proof fn own_sum(b: PostingBlock, k: int)
    requires
        0 <= k <= b.count,
    ensures
        list_build::tf_sum(list::block_postings(b), k) == cursor::prefix_sum(b.tfs(), k),
    decreases k,
{
    if k > 0 {
        own_sum(b, k - 1);
    }
}

} // verus!
