//! Merging posting lists: blocks are moved to new documents without decoding.
use crate::block;
use crate::block::PostingBlock;
use crate::block::TERMINATED;
use crate::block_codec;
use crate::bounds;
use crate::bytes;
use crate::codec::PostingCodec;
use crate::error::PostingError;
use crate::impact_builder;
use crate::impact_builder::ImpactBuilder;
use crate::impacts;
use crate::impacts::ImpactTable;
use crate::list;
use crate::list::BlockPostingList;
use crate::list_read;
use crate::list_write;
use crate::merge;
use crate::merge::Admission;
use crate::merge::MergeError;
use crate::ratio;
use vstd::prelude::*;

verus! {

/// Check the documents of blocks that move up by `offset`. The last document
/// spans sources as well as the blocks of one.
pub fn validate_remap(blocks: &[PostingBlock], offset: u32, previous_last: &mut Option<u32>) -> (r:
    Result<(), PostingError>)
    ensures
        match merge::remap_check(
            merge::ranges(blocks@),
            blocks@.len() as int,
            offset,
            *old(previous_last),
        ) {
            Ok(last) => r is Ok && *final(previous_last) == last,
            Err(error) => r == Err::<(), PostingError>(error),
        },
{
    let ghost rs = merge::ranges(blocks@);
    let ghost start = *previous_last;
    let n: usize = blocks.len();
    let mut i: usize = 0;
    while i < n
        invariant
            i <= n == blocks@.len(),
            rs == merge::ranges(blocks@),
            start == *old(previous_last),
            merge::remap_check(rs, i as int, offset, start) == Ok::<Option<u32>, PostingError>(
                *previous_last,
            ),
        decreases n - i,
    {
        proof {
            assert(rs[i as int] == (blocks@[i as int].first, blocks@[i as int].last));
            if merge::remap_check(rs, i + 1, offset, start) is Err {
                merge::remap_refused(rs, i + 1, n as int, offset, start);
            }
        }
        let (first, last): (u32, u32) = (blocks[i].first, blocks[i].last);
        if first > u32::MAX - offset || last > u32::MAX - offset {
            return Err(PostingError::RemapOverflow);
        }
        let (first, last): (u32, u32) = (first + offset, last + offset);
        if first > last || last == TERMINATED {
            return Err(PostingError::RemapOrder);
        }
        if let Some(old_last) = *previous_last {
            if first <= old_last {
                return Err(PostingError::RemapOrder);
            }
        }
        *previous_last = Some(last);
        i = i + 1;
    }
    Ok(())
}

/// Add a source's counts to what was accepted before.
fn add_totals(s: Admission, last: Option<u32>, docs: u32, positions: u64) -> (r: Result<
    Admission,
    PostingError,
>)
    ensures
        r == merge::totals_check(s, last, docs, positions),
{
    let docs: u32 = match s.docs.checked_add(docs) {
        Some(n) => n,
        None => {
            return Err(PostingError::MergedCount);
        },
    };
    let positions: u64 = match s.positions.checked_add(positions) {
        Some(n) => n,
        None => {
            return Err(PostingError::MergedPositions);
        },
    };
    Ok(Admission { previous_last: last, docs, positions })
}

/// Accept sources in turn.
fn accept_all(sources: &[(BlockPostingList, u32)]) -> (r: Result<Admission, PostingError>)
    ensures
        r == merge::accept(sources@, sources@.len() as int),
{
    let n: usize = sources.len();
    let mut s = Admission { previous_last: None, docs: 0, positions: 0 };
    let mut i: usize = 0;
    while i < n
        invariant
            i <= n == sources@.len(),
            merge::accept(sources@, i as int) == Ok::<Admission, PostingError>(s),
        decreases n - i,
    {
        proof {
            if merge::accept(sources@, i + 1) is Err {
                merge::accept_refused(sources@, i + 1, n as int);
            }
        }
        let mut last: Option<u32> = s.previous_last;
        match validate_remap(sources[i].0.blocks.as_slice(), sources[i].1, &mut last) {
            Ok(_) => {},
            Err(error) => {
                return Err(error);
            },
        }
        s = match add_totals(s, last, sources[i].0.doc_count, sources[i].0.total_positions) {
            Ok(s) => s,
            Err(error) => {
                return Err(error);
            },
        };
        i = i + 1;
    }
    Ok(s)
}

/// Whether `order` names source and block of every entry.
spec fn is_order(order: Seq<(usize, usize)>, sources: Seq<(BlockPostingList, u32)>, n: int) -> bool {
    let es = merge::entries(sources, n);
    &&& order.len() == es.len()
    &&& forall|k: int|
        0 <= k < order.len() ==> (#[trigger] order[k]).0 < n && order[k].1
            < sources[order[k].0 as int].0.len() && es[k] == merge::entry_of(
            sources,
            order[k].0 as int,
            order[k].1 as int,
        )
}

/// Source and block of every entry.
fn block_order(sources: &[(BlockPostingList, u32)]) -> (order: Vec<(usize, usize)>)
    ensures
        is_order(order@, sources@, sources@.len() as int),
{
    let mut order: Vec<(usize, usize)> = Vec::new();
    let mut s: usize = 0;
    while s < sources.len()
        invariant
            s <= sources@.len(),
            is_order(order@, sources@, s as int),
        decreases sources@.len() - s,
    {
        let n: usize = sources[s].0.blocks.len();
        let ghost before = order@;
        let ghost m = before.len() as int;
        let ghost es = merge::entries(sources@, s + 1);
        let mut i: usize = 0;
        while i < n
            invariant
                i <= n == sources@[s as int].0.len(),
                s < sources@.len(),
                is_order(before, sources@, s as int),
                m == before.len(),
                es == merge::entries(sources@, s + 1),
                order@.len() == m + i,
                forall|k: int| 0 <= k < m ==> order@[k] == before[k],
                forall|k: int|
                    m <= k < m + i ==> (#[trigger] order@[k]).0 == s && order@[k].1 == k - m,
            decreases n - i,
        {
            order.push((s, i));
            i = i + 1;
        }
        proof {
            assert forall|k: int| 0 <= k < order@.len() implies (#[trigger] order@[k]).0 < s + 1
                && order@[k].1 < sources@[order@[k].0 as int].0.len() && es[k] == merge::entry_of(
                sources@,
                order@[k].0 as int,
                order@[k].1 as int,
            ) by {
                if k < m {
                    assert(order@[k] == before[k]);
                    assert(es[k] == merge::entries(sources@, s as int)[k]);
                }
            }
        }
        s = s + 1;
    }
    order
}

/// The blocks, moved to their offsets, with packed bounds.
fn move_blocks(sources: &[(BlockPostingList, u32)], order: &[(usize, usize)]) -> (blocks: Vec<
    PostingBlock,
>)
    requires
        merge::all_wf(sources@),
        merge::accept(sources@, sources@.len() as int) is Ok,
        is_order(order@, sources@, sources@.len() as int),
    ensures
        merge::is_merged_blocks(blocks@, merge::all_entries(sources@)),
        list::blocks_ok(blocks@),
{
    let ghost es = merge::all_entries(sources@);
    proof {
        merge::accepted_order(sources@, sources@.len() as int);
    }
    let n: usize = order.len();
    let mut blocks: Vec<PostingBlock> = Vec::new();
    let mut k: usize = 0;
    while k < n
        invariant
            k <= n == order@.len(),
            es == merge::all_entries(sources@),
            is_order(order@, sources@, sources@.len() as int),
            blocks@.len() == k,
            forall|i: int|
                0 <= i < es.len() ==> (#[trigger] es[i]).block.wf() && es[i].block.last
                    + es[i].offset < TERMINATED,
            forall|i: int|
                0 <= i < k ==> (#[trigger] blocks@[i]).wf() && block_codec::is_rebased(
                    blocks@[i],
                    es[i].block,
                    es[i].offset as int,
                ) && blocks@[i].bounds == bounds::repacked(es[i].block.bounds, es[i].packed),
        decreases n - k,
    {
        let (s, i): (usize, usize) = order[k];
        proof {
            assert(order@[k as int].0 == s);
            assert(es[k as int].block.wf());
        }
        let l = &sources[s].0;
        let word: u32 = bounds::repack(l.blocks[i].bounds, l.len_bounds);
        blocks.push(l.blocks[i].rebased(sources[s].1, word));
        k = k + 1;
    }
    proof {
        assert forall|i: int, j: int| 0 <= i < j < blocks@.len() implies blocks@[i].last
            < blocks@[j].first by {
            assert(es[i].block.last + es[i].offset < es[j].block.first + es[j].offset);
        }
    }
    blocks
}

/// The position cursors, each after the positions of the sources before.
fn move_cursors(
    sources: &[(BlockPostingList, u32)],
    order: &[(usize, usize)],
    total: u64,
) -> (cursors: Vec<u64>)
    requires
        merge::all_wf(sources@),
        merge::all_cursors(sources@),
        is_order(order@, sources@, sources@.len() as int),
        total == merge::positions_before(sources@, sources@.len() as int),
    ensures
        cursors@.len() == order@.len(),
        forall|k: int|
            0 <= k < cursors@.len() ==> #[trigger] cursors@[k] == merge::all_entries(
                sources@,
            )[k].cursor,
        list::cursors_ok(cursors@, total),
{
    let ghost es = merge::all_entries(sources@);
    let ghost count = sources@.len() as int;
    proof {
        merge::entry_cursors(sources@, count);
    }
    let mut before: Vec<u64> = Vec::new();
    let mut sum: u64 = 0;
    let mut s: usize = 0;
    while s < sources.len()
        invariant
            s <= sources@.len(),
            count == sources@.len(),
            sum == merge::positions_before(sources@, s as int),
            total == merge::positions_before(sources@, count),
            before@.len() == s,
            forall|j: int|
                0 <= j < s ==> #[trigger] before@[j] == merge::positions_before(sources@, j),
        decreases sources@.len() - s,
    {
        proof {
            merge::positions_grow(sources@, s + 1, count);
        }
        before.push(sum);
        sum = sum + sources[s].0.total_positions;
        s = s + 1;
    }
    let mut cursors: Vec<u64> = Vec::new();
    let mut k: usize = 0;
    while k < order.len()
        invariant
            k <= order@.len(),
            es == merge::all_entries(sources@),
            count == sources@.len(),
            merge::all_wf(sources@),
            merge::all_cursors(sources@),
            is_order(order@, sources@, count),
            total == merge::positions_before(sources@, count),
            forall|i: int| 0 <= i < es.len() ==> 0 <= (#[trigger] es[i]).cursor <= total,
            before@.len() == sources@.len(),
            forall|j: int|
                0 <= j < before@.len() ==> #[trigger] before@[j] == merge::positions_before(
                    sources@,
                    j,
                ),
            cursors@.len() == k,
            forall|i: int| 0 <= i < k ==> #[trigger] cursors@[i] == es[i].cursor,
        decreases order@.len() - k,
    {
        let (s, i): (usize, usize) = order[k];
        proof {
            assert(order@[k as int].0 == s);
            assert(sources@[s as int].0.wf());
            assert(sources@[s as int].0.cursors is Some);
            assert(es[k as int].cursor <= total);
        }
        let own: u64 = match &sources[s].0.cursors {
            Some(c) => c[i],
            None => 0,
        };
        cursors.push(before[s] + own);
        k = k + 1;
    }
    proof {
        assert forall|i: int, j: int| 0 <= i <= j < cursors@.len() implies cursors@[i]
            <= cursors@[j] by {
            assert(es[i].cursor <= es[j].cursor);
        }
        assert forall|i: int| 0 <= i < cursors@.len() implies #[trigger] cursors@[i] <= total by {
            assert(es[i].cursor <= total);
        }
    }
    cursors
}

/// The ratio words of the blocks and of the groups.
fn move_ratios(sources: &[(BlockPostingList, u32)], order: &[(usize, usize)]) -> (words: Vec<u32>)
    requires
        merge::all_wf(sources@),
        is_order(order@, sources@, sources@.len() as int),
    ensures
        words@ == ratio::with_groups(merge::entry_ratios(merge::all_entries(sources@))),
        forall|i: int| 0 <= i < words@.len() ==> ratio::ratio_ok(#[trigger] words@[i]),
{
    let ghost es = merge::all_entries(sources@);
    let mut words: Vec<u32> = Vec::new();
    let mut k: usize = 0;
    while k < order.len()
        invariant
            k <= order@.len(),
            es == merge::all_entries(sources@),
            merge::all_wf(sources@),
            is_order(order@, sources@, sources@.len() as int),
            words@.len() == k,
            forall|i: int|
                0 <= i < k ==> (#[trigger] words@[i]) == es[i].ratio && ratio::ratio_ok(words@[i]),
        decreases order@.len() - k,
    {
        let (s, i): (usize, usize) = order[k];
        proof {
            assert(order@[k as int].0 == s);
            assert(sources@[s as int].0.wf());
        }
        words.push(sources[s].0.block_length_ratio(i));
        k = k + 1;
    }
    proof {
        assert(words@ =~= merge::entry_ratios(es));
    }
    ratio::append_ratio_groups(&mut words);
    words
}

/// The stored envelope of a merged group, if the group is one of a source.
fn copy_of_group(sources: &[(BlockPostingList, u32)], order: &[(usize, usize)], g: usize) -> (r:
    Option<Vec<u8>>)
    requires
        merge::all_wf(sources@),
        is_order(order@, sources@, sources@.len() as int),
        g < bounds::group_count(order.len() as int),
    ensures
        impact_builder::copy_view(r) == merge::group_copy(
            sources@,
            merge::all_entries(sources@),
            g as int,
        ),
        r matches Some(c) ==> impacts::record_check(c@) is Ok,
{
    let n: usize = order.len();
    let start: usize = 8 * g;
    let (s, i): (usize, usize) = order[start];
    let size: usize = if n - start > 8 {
        8
    } else {
        n - start
    };
    let l = &sources[s].0;
    let blocks: usize = l.blocks.len();
    proof {
        assert(order@[start as int].0 == s);
        assert(sources@[s as int].0.wf());
        list::total_count_grows(l.blocks@, 0, l.len());
    }
    let own: usize = if blocks - i > 8 {
        8
    } else {
        blocks - i
    };
    match &l.impacts {
        None => None,
        Some(t) => {
            if i % 8 != 0 || size != own {
                return None;
            }
            match t.record(blocks + i / 8) {
                Some(record) => {
                    let copy = bytes::copy_range(record, 0, record.len());
                    proof {
                        assert(copy@ =~= record@);
                    }
                    Some(copy)
                },
                None => None,
            }
        },
    }
}

/// The envelopes of the blocks and of the groups.
fn move_impacts(
    sources: &[(BlockPostingList, u32)],
    order: &[(usize, usize)],
    builder: ImpactBuilder,
) -> (r: Option<ImpactTable>)
    requires
        merge::all_wf(sources@),
        is_order(order@, sources@, sources@.len() as int),
        builder.wf(),
        builder.blocks == order@.len() + bounds::group_count(order@.len() as int),
        builder@ == Seq::<Seq<u8>>::empty(),
    ensures
        merge::is_merged_impacts(
            match r {
                Some(t) => Some(t@),
                None => None,
            },
            sources@,
        ),
        r matches Some(t) ==> t.wf() && 4 * (t@.len() + 1) <= usize::MAX && t@.len()
            == order@.len() + bounds::group_count(order@.len() as int),
{
    let ghost es = merge::all_entries(sources@);
    let n: usize = order.len();
    let mut builder = builder;
    let empty: Vec<u8> = Vec::new();
    let mut k: usize = 0;
    while k < n
        invariant
            k <= n == order@.len(),
            es == merge::all_entries(sources@),
            merge::all_wf(sources@),
            is_order(order@, sources@, sources@.len() as int),
            empty@.len() == 0,
            builder.wf(),
            builder.blocks == n + bounds::group_count(n as int),
            builder@.len() == k,
            forall|i: int| 0 <= i < k ==> #[trigger] builder@[i] == es[i].record,
        decreases n - k,
    {
        let (s, i): (usize, usize) = order[k];
        proof {
            assert(order@[k as int].0 == s);
            assert(sources@[s as int].0.wf());
            assert(empty@ =~= Seq::<u8>::empty());
            impacts::record_len(Seq::<u8>::empty());
        }
        let record: &[u8] = match &sources[s].0.impacts {
            Some(t) => match t.record(i) {
                Some(record) => record,
                None => empty.as_slice(),
            },
            None => empty.as_slice(),
        };
        proof {
            assert(record@ == es[k as int].record);
            assert(impacts::record_check(record@) is Ok);
            impacts::record_len(record@);
        }
        let _ = builder.append(record);
        k = k + 1;
    }
    let groups: usize = n / 8 + if n % 8 == 0 {
        0
    } else {
        1
    };
    let mut copies: Vec<Option<Vec<u8>>> = Vec::new();
    let mut g: usize = 0;
    while g < groups
        invariant
            g <= groups == bounds::group_count(n as int),
            n == order@.len(),
            es == merge::all_entries(sources@),
            merge::all_wf(sources@),
            is_order(order@, sources@, sources@.len() as int),
            copies@.len() == g,
            forall|j: int|
                0 <= j < g ==> impact_builder::copy_view(#[trigger] copies@[j])
                    == merge::group_copy(sources@, es, j),
            forall|j: int|
                0 <= j < g ==> (#[trigger] copies@[j] matches Some(c) ==> impacts::record_check(
                    c@,
                ) is Ok),
        decreases groups - g,
    {
        copies.push(copy_of_group(sources, order, g));
        g = g + 1;
    }
    let ghost records = builder@;
    proof {
        assert(records =~= merge::entry_records(es));
    }
    let done = builder.append_groups_with(n, &copies);
    let ghost all = builder@;
    proof {
        assert(done is Ok);
        assert(all.take(n as int) == records);
        assert forall|j: int| 0 <= j < bounds::group_count(n as int) implies
            impact_builder::is_group_record(
            #[trigger] all[n + j],
            merge::entry_records(es),
            n as int,
            j,
            merge::group_copy(sources@, es, j),
        ) by {
            assert(impact_builder::copy_view(copies@[j]) == merge::group_copy(sources@, es, j));
        }
    }
    let r = builder.finish();
    proof {
        let t: Option<Seq<Seq<u8>>> = if r is Some {
            Some(r->Some_0@)
        } else {
            None
        };
        assert(merge::kept_records(all) == t);
    }
    r
}

/// Places for the envelopes of merged sources, where a source has any.
fn impact_places(sources: &[(BlockPostingList, u32)], blocks: usize) -> (r: Result<
    Option<ImpactBuilder>,
    PostingError,
>)
    requires
        blocks == merge::all_entries(sources@).len(),
    ensures
        match r {
            Ok(Some(b)) => merge::any_impacts(sources@) && merge::impact_refusal(sources@) is None
                && b.wf() && b.blocks == blocks + bounds::group_count(blocks as int) && b@ == Seq::<
                Seq<u8>,
            >::empty(),
            Ok(None) => !merge::any_impacts(sources@),
            Err(error) => merge::impact_refusal(sources@) == Some(error),
        },
{
    let mut any: bool = false;
    let mut i: usize = 0;
    while i < sources.len()
        invariant
            i <= sources@.len(),
            any == (exists|k: int| 0 <= k < i && (#[trigger] sources@[k]).0.impacts is Some),
        decreases sources@.len() - i,
    {
        if sources[i].0.impacts.is_some() {
            any = true;
        }
        i = i + 1;
    }
    if !any {
        return Ok(None);
    }
    match ImpactBuilder::with_groups(blocks) {
        Ok(b) => Ok(Some(b)),
        Err(error) => Err(error),
    }
}

/// Which sources have position cursors: all of them, and any of them.
fn cursor_presence(sources: &[(BlockPostingList, u32)]) -> (r: (bool, bool))
    ensures
        r.0 == merge::all_cursors(sources@),
        r.1 == merge::any_cursors(sources@),
{
    let mut all: bool = true;
    let mut any: bool = false;
    let mut i: usize = 0;
    while i < sources.len()
        invariant
            i <= sources@.len(),
            all == (forall|k: int| 0 <= k < i ==> (#[trigger] sources@[k]).0.cursors is Some),
            any == (exists|k: int| 0 <= k < i && (#[trigger] sources@[k]).0.cursors is Some),
        decreases sources@.len() - i,
    {
        if sources[i].0.cursors.is_some() {
            any = true;
        } else {
            all = false;
        }
        i = i + 1;
    }
    (all, any)
}

/// Largest frequency, smallest length, and whether ratios are stored.
fn source_bounds(sources: &[(BlockPostingList, u32)]) -> (r: (u32, u32, bool))
    ensures
        r.0 == merge::largest_tf(sources@, sources@.len() as int),
        r.1 == merge::smallest_len(sources@, sources@.len() as int),
        r.2 == merge::any_ratios(sources@),
{
    let mut max_tf: u32 = 0;
    let mut min_len: u32 = u32::MAX;
    let mut any: bool = false;
    let mut i: usize = 0;
    while i < sources.len()
        invariant
            i <= sources@.len(),
            max_tf == merge::largest_tf(sources@, i as int),
            min_len == merge::smallest_len(sources@, i as int),
            any == (exists|k: int| 0 <= k < i && (#[trigger] sources@[k]).0.ratios is Some),
        decreases sources@.len() - i,
    {
        let l = &sources[i].0;
        if l.max_tf > max_tf {
            max_tf = l.max_tf;
        }
        let own: u32 = if l.len_bounds {
            l.min_len
        } else {
            1
        };
        if own < min_len {
            min_len = own;
        }
        if l.ratios.is_some() {
            any = true;
        }
        i = i + 1;
    }
    (max_tf, min_len, any)
}

/// The merged list has the counts and codecs of its sources.
proof fn merged_wf_parts(
    blocks: Seq<PostingBlock>,
    sources: Seq<(BlockPostingList, u32)>,
    compact: bool,
)
    requires
        merge::all_wf(sources),
        merge::accept(sources, sources.len() as int) is Ok,
        merge::is_merged_blocks(blocks, merge::all_entries(sources)),
        compact ==> merge::all_compact(sources),
    ensures
        list::total_count(blocks, blocks.len() as int) == merge::accept(
            sources,
            sources.len() as int,
        )->Ok_0.docs,
        compact ==> list::no_pfor(blocks),
{
    let es = merge::all_entries(sources);
    merge::accepted_totals(sources, sources.len() as int);
    counts_match(blocks, es, es.len() as int);
    if compact {
        assert forall|i: int| 0 <= i < blocks.len() implies (#[trigger] blocks[i]).codec()
            != PostingCodec::Pfor by {
            entry_codec(sources, sources.len() as int, i);
        }
    }
}

proof fn counts_match(blocks: Seq<PostingBlock>, es: Seq<merge::Entry>, n: int)
    requires
        merge::is_merged_blocks(blocks, es),
        0 <= n <= es.len(),
    ensures
        list::total_count(blocks, n) == merge::entry_count(es, n),
    decreases n,
{
    if n > 0 {
        counts_match(blocks, es, n - 1);
        assert(block_codec::is_rebased(
            blocks[n - 1],
            es[n - 1].block,
            es[n - 1].offset as int,
        ));
    }
}

proof fn entry_codec(sources: Seq<(BlockPostingList, u32)>, n: int, i: int)
    requires
        0 <= n <= sources.len(),
        merge::all_wf(sources),
        merge::all_compact(sources),
        0 <= i < merge::entries(sources, n).len(),
    ensures
        merge::entries(sources, n)[i].block.codec() != PostingCodec::Pfor,
    decreases n,
{
    if n > 0 {
        let m = merge::entries(sources, n - 1).len();
        if i < m {
            entry_codec(sources, n - 1, i);
        } else {
            let l = sources[n - 1].0;
            assert(sources[n - 1].0.wf() && sources[n - 1].0.compact_headers);
            assert(merge::entries(sources, n)[i].block == l.blocks@[i - m]);
        }
    }
}

/// Merge accepted sources into one list in a layout. A stream that outgrows
/// 32-bit offsets is refused as `too_long`.
fn merge_accepted(
    sources: &[(BlockPostingList, u32)],
    order: &[(usize, usize)],
    s: Admission,
    cursors_kept: bool,
    places: Option<ImpactBuilder>,
    compact: bool,
    too_long: PostingError,
) -> (r: Result<BlockPostingList, PostingError>)
    requires
        merge::all_wf(sources@),
        merge::accept(sources@, sources@.len() as int) == Ok::<Admission, PostingError>(s),
        is_order(order@, sources@, sources@.len() as int),
        cursors_kept == merge::all_cursors(sources@),
        compact ==> merge::all_compact(sources@),
        match places {
            Some(b) => merge::any_impacts(sources@) && b.wf() && b.blocks == order@.len()
                + bounds::group_count(order@.len() as int) && b@ == Seq::<Seq<u8>>::empty(),
            None => !merge::any_impacts(sources@),
        },
    ensures
        match r {
            Ok(l) => l.wf() && l.compact_headers == compact && merge::is_merged(
                l,
                sources@,
                compact,
            ) && !merge::merge_too_long(
                merge::all_entries(sources@),
                compact,
            ),
            Err(error) => error == too_long && merge::merge_too_long(
                merge::all_entries(sources@),
                compact,
            ),
        },
{
    let ghost es = merge::all_entries(sources@);
    let ghost count = sources@.len() as int;
    proof {
        reveal(merge::is_merged);
        merge::accepted_totals(sources@, count);
    }
    let blocks = move_blocks(sources, order);
    proof {
        merged_wf_parts(blocks@, sources@, compact);
        assert forall|i: int| 0 <= i < es.len() implies list::stream_upto(blocks@, i, compact)
            == #[trigger] merge::merged_upto(es, i, compact) by {
            merge::merged_room(blocks@, es, i, compact);
        }
        assert forall|i: int| 0 <= i < es.len() implies #[trigger] list::stream_upto(
            blocks@,
            i,
            compact,
        ) == merge::merged_upto(es, i, compact) by {
            merge::merged_room(blocks@, es, i, compact);
        }
    }
    let (_stream_len, fits): (u64, bool) = list_write::measure(blocks.as_slice(), compact);
    if !fits {
        proof {
            let i = choose|i: int|
                0 <= i < blocks@.len() && #[trigger] list::stream_upto(blocks@, i, compact)
                    > u32::MAX;
            assert(merge::merged_upto(es, i, compact) > u32::MAX);
        }
        return Err(too_long);
    }
    let (max_tf, min_len, any_ratios): (u32, u32, bool) = source_bounds(sources);
    let ratios: Option<Vec<u32>> = if any_ratios {
        Some(move_ratios(sources, order))
    } else {
        None
    };
    let impacts: Option<ImpactTable> = match places {
        Some(builder) => move_impacts(sources, order, builder),
        None => None,
    };
    let cursors: Option<Vec<u64>> = if cursors_kept {
        Some(move_cursors(sources, order, s.positions))
    } else {
        None
    };
    proof {
        if merge::any_impacts(sources@) {
            let i = choose|i: int|
                0 <= i < sources@.len() && (#[trigger] sources@[i]).0.impacts is Some;
            assert(sources@[i].0.wf());
            assert(sources@[i].0.ratios is Some);
        }
    }
    let l1_docs = list::group_last_docs(blocks.as_slice());
    let words = list::words_of(blocks.as_slice());
    let l1_bounds = bounds::group_bounds_from_l0(words.as_slice());
    Ok(
        BlockPostingList {
            compact_headers: compact,
            short_cursors: false,
            blocks,
            l1_docs,
            l1_bounds,
            ratios,
            impacts,
            doc_count: s.docs,
            max_tf,
            cursors,
            total_positions: if cursors_kept {
                s.positions
            } else {
                0
            },
            len_bounds: true,
            min_len: if min_len == u32::MAX {
                1
            } else {
                min_len
            },
        },
    )
}

impl BlockPostingList {
    /// Merge lists, each moved up by an offset, without decoding a posting.
    pub fn concatenate_blocks(sources: &[(BlockPostingList, u32)]) -> (r: Result<
        BlockPostingList,
        PostingError,
    >)
        requires
            merge::all_wf(sources@),
        ensures
            ({
                let accepted = merge::accept(sources@, sources@.len() as int);
                match r {
                    Ok(l) => {
                        &&& accepted is Ok
                        &&& merge::impact_refusal(sources@) is None
                        &&& !merge::mixed_cursors(sources@)
                        &&& !merge::merge_too_long(merge::all_entries(sources@), false)
                        &&& l.wf()
                        &&& merge::is_merged(l, sources@, false)
                    },
                    Err(error) => match accepted {
                        Err(refused) => error == refused,
                        Ok(_) => match merge::impact_refusal(sources@) {
                            Some(refused) => error == refused,
                            None => if merge::mixed_cursors(sources@) {
                                error == PostingError::MixedCursors
                            } else {
                                error == PostingError::MergedTooLong && merge::merge_too_long(
                                    merge::all_entries(sources@),
                                    false,
                                )
                            },
                        },
                    },
                }
            }),
    {
        let s = match accept_all(sources) {
            Ok(s) => s,
            Err(error) => {
                return Err(error);
            },
        };
        let order = block_order(sources);
        let places = match impact_places(sources, order.len()) {
            Ok(places) => places,
            Err(error) => {
                return Err(error);
            },
        };
        let (all, any): (bool, bool) = cursor_presence(sources);
        if !all && any {
            return Err(PostingError::MixedCursors);
        }
        merge_accepted(
            sources,
            order.as_slice(),
            s,
            all,
            places,
            false,
            PostingError::MergedTooLong,
        )
    }

    /// Merge stored lists, each moved up by an offset, into `out`. Gives the
    /// number of postings and of bytes written. Every source is checked
    /// before anything is written, and nothing is written for sources that
    /// are refused. A single list that does not move is copied as it is.
    pub fn concatenate_streaming(sources: &[(&[u8], u32)], out: &mut Vec<u8>) -> (r: Result<
        (u32, usize),
        MergeError,
    >)
        ensures
            ({
                let stored = stored_sources(sources@);
                let accepted = merge::accept_stored(stored, stored.len() as int);
                match r {
                    Ok((docs, n)) => {
                        &&& accepted matches Ok(s) && docs == s.docs
                        &&& final(out)@.len() == old(out)@.len() + n
                        &&& if sources@.len() == 1 && sources@[0].1 == 0 {
                            final(out)@ == old(out)@ + sources@[0].0@
                        } else {
                            exists|lists: Seq<(BlockPostingList, u32)>, m: BlockPostingList|
                                #[trigger] merge::is_streamed(
                                    lists,
                                    m,
                                    stored,
                                    final(out)@.skip(old(out)@.len() as int),
                                )
                        }
                        &&& final(out)@.take(old(out)@.len() as int) == old(out)@
                    },
                    Err(error) => {
                        &&& final(out)@ == old(out)@
                        &&& match accepted {
                            Err(refused) => error == refused,
                            Ok(_) => !(sources@.len() == 1 && sources@[0].1 == 0) && exists|
                                lists: Seq<(BlockPostingList, u32)>,
                            | #[trigger]
                                merge::is_refused(lists, stored, error),
                        }
                    },
                }
            }),
    {
        let ghost stored = stored_sources(sources@);
        let before: usize = out.len();
        let (lists, s): (Vec<(BlockPostingList, u32)>, Admission) = match read_sources(sources) {
            Ok(lists) => lists,
            Err(error) => {
                return Err(error);
            },
        };
        if sources.len() == 1 && sources[0].1 == 0 {
            bytes::put_slice(out, sources[0].0);
            proof {
                assert(out@.take(before as int) =~= old(out)@);
            }
            return Ok((s.docs, sources[0].0.len()));
        }
        let compact: bool = keep_compact(lists.as_slice());
        let m = match merge_read(lists.as_slice(), s, compact) {
            Ok(m) => m,
            Err(error) => {
                proof {
                    assert(merge::is_refused(lists@, stored, MergeError::Merge(error)));
                }
                return Err(MergeError::Merge(error));
            },
        };
        match m.serialize_streamed(out, compact) {
            Ok(_) => {},
            Err(error) => {
                return Err(MergeError::Merge(error));
            },
        }
        proof {
            assert(out@.skip(before as int) =~= m.streamed(compact));
            assert(out@.take(before as int) =~= old(out)@);
            assert(merge::is_streamed(lists@, m, stored, out@.skip(before as int)));
        }
        Ok((s.docs, out.len() - before))
    }
}

/// The bytes and offsets of stored sources.
pub open spec fn stored_sources(sources: Seq<(&[u8], u32)>) -> Seq<(Seq<u8>, u32)> {
    Seq::new(sources.len(), |i: int| (sources[i].0@, sources[i].1))
}

/// Merge accepted lists in a layout.
fn merge_read(lists: &[(BlockPostingList, u32)], s: Admission, compact: bool) -> (r: Result<
    BlockPostingList,
    PostingError,
>)
    requires
        merge::all_wf(lists@),
        merge::accept(lists@, lists@.len() as int) == Ok::<Admission, PostingError>(s),
        compact == merge::all_compact(lists@),
    ensures
        match (r, merge::merge_refusal(lists@, compact)) {
            (Ok(m), None) => m.wf() && m.compact_headers == compact && merge::is_merged(
                m,
                lists@,
                compact,
            ),
            (Err(error), Some(refused)) => error == refused,
            _ => false,
        },
{
    let (all, any): (bool, bool) = cursor_presence(lists);
    if !all && any {
        return Err(PostingError::MixedCursors);
    }
    let order = block_order(lists);
    let places = match impact_places(lists, order.len()) {
        Ok(places) => places,
        Err(error) => {
            return Err(error);
        },
    };
    merge_accepted(
        lists,
        order.as_slice(),
        s,
        all,
        places,
        compact,
        PostingError::StreamedTooLong,
    )
}

/// Whether there are lists and all keep block headers in the directory.
fn keep_compact(lists: &[(BlockPostingList, u32)]) -> (r: bool)
    ensures
        r == merge::all_compact(lists@),
{
    let mut all: bool = lists.len() > 0;
    let mut i: usize = 0;
    while i < lists.len()
        invariant
            i <= lists@.len(),
            all == (lists@.len() > 0 && forall|k: int|
                0 <= k < i ==> (#[trigger] lists@[k]).0.compact_headers),
        decreases lists@.len() - i,
    {
        if !lists[i].0.compact_headers {
            all = false;
        }
        i = i + 1;
    }
    all
}

/// Read, check and accept stored lists in turn.
fn read_sources(sources: &[(&[u8], u32)]) -> (r: Result<
    (Vec<(BlockPostingList, u32)>, Admission),
    MergeError,
>)
    ensures
        ({
            let stored = stored_sources(sources@);
            match merge::accept_stored(stored, stored.len() as int) {
                Ok(s) => r matches Ok((lists, t)) && t == s && merge::are_read(lists@, stored)
                    && merge::all_wf(lists@) && merge::accept(lists@, lists@.len() as int) == Ok::<
                    Admission,
                    PostingError,
                >(s),
                Err(error) => r matches Err(refused) && refused == error,
            }
        }),
{
    let ghost stored = stored_sources(sources@);
    proof {
        reveal(merge::are_read);
    }
    let n: usize = sources.len();
    let mut lists: Vec<(BlockPostingList, u32)> = Vec::new();
    let mut s = Admission { previous_last: None, docs: 0, positions: 0 };
    let mut i: usize = 0;
    while i < n
        invariant
            i <= n == sources@.len(),
            stored == stored_sources(sources@),
            merge::accept_stored(stored, i as int) == Ok::<Admission, MergeError>(s),
            merge::accept(lists@, i as int) == Ok::<Admission, PostingError>(s),
            lists@.len() == i,
            merge::are_read(lists@, stored.take(i as int)),
            merge::all_wf(lists@),
        decreases n - i,
    {
        proof {
            reveal(merge::are_read);
            assert(stored[i as int] == (sources@[i as int].0@, sources@[i as int].1));
            if merge::accept_stored(stored, i + 1) is Err {
                merge::accept_stored_refused(stored, i + 1, n as int);
            }
        }
        let l = match BlockPostingList::deserialize(sources[i].0) {
            Ok(l) => l,
            Err(error) => {
                return Err(MergeError::Source(i, error));
            },
        };
        let ghost f = list_read::bytes_check(stored[i as int].0)->Ok_0;
        proof {
            assert(merge::ranges(l.blocks@) =~= merge::raw_ranges(stored[i as int].0, f));
        }
        let mut last: Option<u32> = s.previous_last;
        match validate_remap(l.blocks.as_slice(), sources[i].1, &mut last) {
            Ok(_) => {},
            Err(error) => {
                return Err(MergeError::Source(i, error));
            },
        }
        s = match add_totals(s, last, l.doc_count, l.total_positions) {
            Ok(s) => s,
            Err(error) => {
                return Err(MergeError::Merge(error));
            },
        };
        let ghost old_lists = lists@;
        lists.push((l, sources[i].1));
        proof {
            merge::accept_same(old_lists, lists@, i as int);
            assert forall|k: int| 0 <= k < lists@.len() implies (#[trigger] lists@[k]).1
                == stored.take(i + 1)[k].1 && (list_read::bytes_check(
                stored.take(i + 1)[k].0,
            ) matches Ok(f) && list_read::is_read(lists@[k].0, stored.take(i + 1)[k].0, f)) by {
                if k < i {
                    assert(lists@[k] == old_lists[k]);
                    assert(stored.take(i as int)[k] == stored[k]);
                }
            }
        }
        i = i + 1;
    }
    proof {
        assert(stored.take(n as int) =~= stored);
    }
    Ok((lists, s))
}

} // verus!
