//! What merging posting lists means: admission of the sources, and the merged
//! list, block by block.
use crate::block;
use crate::block::PostingBlock;
use crate::block::TERMINATED;
use crate::block_codec;
use crate::bounds;
use crate::error::PostingError;
use crate::footer::Footer;
use crate::impact_builder;
use crate::impacts;
use crate::list;
use crate::list::BlockPostingList;
use crate::list_read;
use crate::posting::Posting;
use crate::ratio;
use vstd::prelude::*;

verus! {

/// What the sources admitted so far add up to.
#[derive(Debug, Clone, Copy, PartialEq, Eq, Structural)]
pub struct Admission {
    /// Last document of the last block, rebased.
    pub previous_last: Option<u32>,
    /// Number of postings.
    pub docs: u32,
    /// Number of positions.
    pub positions: u64,
}

/// Why stored lists cannot be merged.
#[derive(Debug, Clone, Copy, PartialEq, Eq, Structural)]
pub enum MergeError {
    /// A source that is refused, or whose documents cannot be rebased.
    Source(usize, PostingError),
    /// Sources that do not go together.
    Merge(PostingError),
}

/// Document ranges of blocks.
pub open spec fn ranges(blocks: Seq<PostingBlock>) -> Seq<(u32, u32)> {
    Seq::new(blocks.len(), |i: int| (blocks[i].first, blocks[i].last))
}

/// Document ranges of the blocks of a stored list.
pub open spec fn raw_ranges(raw: Seq<u8>, f: Footer) -> Seq<(u32, u32)> {
    Seq::new(
        f.l0_count as nat,
        |i: int| (list_read::first_at(raw, f, i), list_read::last_at(raw, f, i)),
    )
}

/// Last document after the first `n` ranges are moved up by `offset`, or why
/// they cannot be: a number that overflows, or ranges that overlap or reach
/// the end marker.
pub open spec fn remap_check(
    r: Seq<(u32, u32)>,
    n: int,
    offset: u32,
    previous: Option<u32>,
) -> Result<Option<u32>, PostingError>
    decreases n,
{
    if n <= 0 {
        Ok(previous)
    } else {
        match remap_check(r, n - 1, offset, previous) {
            Err(error) => Err(error),
            Ok(last) => if r[n - 1].0 + offset > u32::MAX || r[n - 1].1 + offset > u32::MAX {
                Err(PostingError::RemapOverflow)
            } else if r[n - 1].0 > r[n - 1].1 || r[n - 1].1 + offset == TERMINATED || (last is Some
                && r[n - 1].0 + offset <= last->Some_0) {
                Err(PostingError::RemapOrder)
            } else {
                Ok(Some((r[n - 1].1 + offset) as u32))
            },
        }
    }
}

/// Totals with one more source, or why they overflow.
pub open spec fn totals_check(s: Admission, last: Option<u32>, docs: u32, positions: u64) -> Result<
    Admission,
    PostingError,
> {
    if s.docs + docs > u32::MAX {
        Err(PostingError::MergedCount)
    } else if s.positions + positions > u64::MAX {
        Err(PostingError::MergedPositions)
    } else {
        Ok(
            Admission {
                previous_last: last,
                docs: (s.docs + docs) as u32,
                positions: (s.positions + positions) as u64,
            },
        )
    }
}

/// Nothing admitted yet.
pub open spec fn nothing() -> Admission {
    Admission { previous_last: None, docs: 0, positions: 0 }
}

/// The first `n` sources, admitted in turn.
pub open spec fn accept(sources: Seq<(BlockPostingList, u32)>, n: int) -> Result<
    Admission,
    PostingError,
>
    decreases n,
{
    if n <= 0 {
        Ok(nothing())
    } else {
        match accept(sources, n - 1) {
            Err(error) => Err(error),
            Ok(s) => {
                let (l, offset) = sources[n - 1];
                match remap_check(ranges(l.blocks@), l.len(), offset, s.previous_last) {
                    Err(error) => Err(error),
                    Ok(last) => totals_check(s, last, l.doc_count, l.total_positions),
                }
            },
        }
    }
}

/// The first `n` stored sources, checked and admitted in turn.
pub open spec fn accept_stored(sources: Seq<(Seq<u8>, u32)>, n: int) -> Result<Admission, MergeError>
    decreases n,
{
    if n <= 0 {
        Ok(nothing())
    } else {
        match accept_stored(sources, n - 1) {
            Err(error) => Err(error),
            Ok(s) => {
                let (raw, offset) = sources[n - 1];
                match list_read::bytes_check(raw) {
                    Err(error) => Err(MergeError::Source((n - 1) as usize, error)),
                    Ok(f) => match remap_check(
                        raw_ranges(raw, f),
                        f.l0_count as int,
                        offset,
                        s.previous_last,
                    ) {
                        Err(error) => Err(MergeError::Source((n - 1) as usize, error)),
                        Ok(last) => match totals_check(s, last, f.doc_count, f.total_positions) {
                            Err(error) => Err(MergeError::Merge(error)),
                            Ok(next) => Ok(next),
                        },
                    },
                }
            },
        }
    }
}

/// A source block with what the merge carries over for it.
pub struct Entry {
    pub source: int,
    pub index: int,
    pub block: PostingBlock,
    pub offset: u32,
    pub packed: bool,
    pub ratio: u32,
    pub record: Seq<u8>,
    pub cursor: int,
}

/// Number of positions in the first `n` sources.
pub open spec fn positions_before(sources: Seq<(BlockPostingList, u32)>, n: int) -> int
    decreases n,
{
    if n <= 0 {
        0
    } else {
        positions_before(sources, n - 1) + sources[n - 1].0.total_positions
    }
}

/// Block `i` of source `s`. A list without ratios or envelopes has none that
/// bound anything.
pub open spec fn entry_of(sources: Seq<(BlockPostingList, u32)>, s: int, i: int) -> Entry {
    let l = sources[s].0;
    Entry {
        source: s,
        index: i,
        block: l.blocks@[i],
        offset: sources[s].1,
        packed: l.len_bounds,
        ratio: match l.ratios {
            Some(words) => words@[i],
            None => 0,
        },
        record: match l.impacts {
            Some(t) => t@[i],
            None => Seq::empty(),
        },
        cursor: positions_before(sources, s) + match l.cursors {
            Some(c) => c@[i] as int,
            None => 0,
        },
    }
}

/// The first `i` blocks of source `s`.
pub open spec fn source_entries(sources: Seq<(BlockPostingList, u32)>, s: int, i: int) -> Seq<
    Entry,
> {
    Seq::new(i as nat, |k: int| entry_of(sources, s, k))
}

/// The blocks of the first `n` sources, in order.
pub open spec fn entries(sources: Seq<(BlockPostingList, u32)>, n: int) -> Seq<Entry>
    decreases n,
{
    if n <= 0 {
        Seq::empty()
    } else {
        entries(sources, n - 1) + source_entries(sources, n - 1, sources[n - 1].0.len())
    }
}

/// All blocks of all sources.
pub open spec fn all_entries(sources: Seq<(BlockPostingList, u32)>) -> Seq<Entry> {
    entries(sources, sources.len() as int)
}

/// Largest term frequency of the first `n` sources.
pub open spec fn largest_tf(sources: Seq<(BlockPostingList, u32)>, n: int) -> u32
    decreases n,
{
    if n <= 0 {
        0
    } else if sources[n - 1].0.max_tf > largest_tf(sources, n - 1) {
        sources[n - 1].0.max_tf
    } else {
        largest_tf(sources, n - 1)
    }
}

/// Smallest scoring length that a source can promise.
pub open spec fn source_min_len(l: BlockPostingList) -> u32 {
    if l.len_bounds {
        l.min_len
    } else {
        1
    }
}

/// Smallest scoring length of the first `n` sources.
pub open spec fn smallest_len(sources: Seq<(BlockPostingList, u32)>, n: int) -> u32
    decreases n,
{
    if n <= 0 {
        u32::MAX
    } else if source_min_len(sources[n - 1].0) < smallest_len(sources, n - 1) {
        source_min_len(sources[n - 1].0)
    } else {
        smallest_len(sources, n - 1)
    }
}

pub open spec fn any_ratios(sources: Seq<(BlockPostingList, u32)>) -> bool {
    exists|i: int| 0 <= i < sources.len() && (#[trigger] sources[i]).0.ratios is Some
}

pub open spec fn any_impacts(sources: Seq<(BlockPostingList, u32)>) -> bool {
    exists|i: int| 0 <= i < sources.len() && (#[trigger] sources[i]).0.impacts is Some
}

pub open spec fn any_cursors(sources: Seq<(BlockPostingList, u32)>) -> bool {
    exists|i: int| 0 <= i < sources.len() && (#[trigger] sources[i]).0.cursors is Some
}

pub open spec fn all_cursors(sources: Seq<(BlockPostingList, u32)>) -> bool {
    forall|i: int| 0 <= i < sources.len() ==> (#[trigger] sources[i]).0.cursors is Some
}

/// Whether there are sources and all keep block headers in the directory.
pub open spec fn all_compact(sources: Seq<(BlockPostingList, u32)>) -> bool {
    &&& sources.len() > 0
    &&& forall|i: int| 0 <= i < sources.len() ==> (#[trigger] sources[i]).0.compact_headers
}

/// Whether every source is well formed.
pub open spec fn all_wf(sources: Seq<(BlockPostingList, u32)>) -> bool {
    forall|i: int| 0 <= i < sources.len() ==> (#[trigger] sources[i]).0.wf()
}

/// Whether the blocks are those of the entries, moved to their offsets, with
/// packed bounds.
pub open spec fn is_merged_blocks(blocks: Seq<PostingBlock>, es: Seq<Entry>) -> bool {
    &&& blocks.len() == es.len()
    &&& forall|i: int|
        0 <= i < es.len() ==> block_codec::is_rebased(
            #[trigger] blocks[i],
            es[i].block,
            es[i].offset as int,
        ) && blocks[i].bounds == bounds::repacked(es[i].block.bounds, es[i].packed)
}

/// Ratio words of the entries.
pub open spec fn entry_ratios(es: Seq<Entry>) -> Seq<u32> {
    Seq::new(es.len(), |i: int| es[i].ratio)
}

/// Envelopes of the entries.
pub open spec fn entry_records(es: Seq<Entry>) -> Seq<Seq<u8>> {
    Seq::new(es.len(), |i: int| es[i].record)
}

/// The stored envelope of a merged group, if the group is one of a source.
pub open spec fn group_copy(sources: Seq<(BlockPostingList, u32)>, es: Seq<Entry>, g: int) -> Option<
    Seq<u8>,
> {
    let e = es[8 * g];
    let l = sources[e.source].0;
    let size = bounds::group_end(es.len() as int, g) - 8 * g;
    let end = if e.index + 8 < l.len() {
        e.index + 8
    } else {
        l.len()
    };
    match l.impacts {
        Some(t) => if e.index % 8 == 0 && e.index + size == end && l.len() + e.index / 8
            < t@.len() {
            Some(t@[l.len() + e.index / 8])
        } else {
            None
        },
        None => None,
    }
}

/// Whether the envelopes are those of the entries, then those of the groups:
/// copied where a group is unchanged, else made anew. A table in which every
/// envelope is unknown is dropped.
pub open spec fn is_merged_impacts(
    t: Option<Seq<Seq<u8>>>,
    sources: Seq<(BlockPostingList, u32)>,
) -> bool {
    let es = all_entries(sources);
    let n = es.len() as int;
    exists|records: Seq<Seq<u8>>|
        {
            &&& records.len() == n + bounds::group_count(n)
            &&& records.take(n) == entry_records(es)
            &&& forall|g: int|
                0 <= g < bounds::group_count(n) ==> impact_builder::is_group_record(
                    #[trigger] records[n + g],
                    entry_records(es),
                    n,
                    g,
                    group_copy(sources, es, g),
                )
            &&& #[trigger] kept_records(records) == t
        }
}

/// A table, unless every record of it is unknown.
pub open spec fn kept_records(records: Seq<Seq<u8>>) -> Option<Seq<Seq<u8>>> {
    if forall|i: int| 0 <= i < records.len() ==> (#[trigger] records[i]).len() == 0 {
        None
    } else {
        Some(records)
    }
}

/// Whether `r` is the merge of the sources in a layout.
#[verifier::opaque]
pub open spec fn is_merged(
    r: BlockPostingList,
    sources: Seq<(BlockPostingList, u32)>,
    compact: bool,
) -> bool {
    let es = all_entries(sources);
    let n = sources.len() as int;
    &&& accept(sources, n) is Ok
    &&& r.compact_headers == compact
    &&& !r.short_cursors
    &&& is_merged_blocks(r.blocks@, es)
    &&& r.l1_docs@ == list::group_docs(r.blocks@)
    &&& r.l1_bounds@ == bounds::group_words(list::bound_words(r.blocks@))
    &&& match r.ratios {
        Some(words) => any_ratios(sources) && words@ == ratio::with_groups(entry_ratios(es)),
        None => !any_ratios(sources),
    }
    &&& if any_impacts(sources) {
        is_merged_impacts(
            match r.impacts {
                Some(t) => Some(t@),
                None => None,
            },
            sources,
        )
    } else {
        r.impacts is None
    }
    &&& r.doc_count == accept(sources, n)->Ok_0.docs
    &&& r.max_tf == largest_tf(sources, n)
    &&& match r.cursors {
        Some(c) => all_cursors(sources) && c@.len() == es.len() && forall|i: int|
            0 <= i < es.len() ==> #[trigger] c@[i] == es[i].cursor,
        None => !all_cursors(sources),
    }
    &&& r.total_positions == (if all_cursors(sources) {
        accept(sources, n)->Ok_0.positions
    } else {
        0
    })
    &&& r.len_bounds
    &&& r.min_len == (if smallest_len(sources, n) == u32::MAX {
        1
    } else {
        smallest_len(sources, n)
    })
}

/// Why the envelopes of merged sources cannot be addressed, if they cannot.
pub open spec fn impact_refusal(sources: Seq<(BlockPostingList, u32)>) -> Option<PostingError> {
    let blocks = all_entries(sources).len() as int;
    let n = blocks + bounds::group_count(blocks);
    if !any_impacts(sources) {
        None
    } else if n > usize::MAX {
        Some(PostingError::ImpactGroupCount)
    } else if 81 * n > u32::MAX {
        Some(PostingError::ImpactPayload)
    } else if impact_builder::budget_spec(n) > usize::MAX {
        Some(PostingError::ImpactOverflow)
    } else {
        None
    }
}

/// Whether some sources have position cursors and some do not.
pub open spec fn mixed_cursors(sources: Seq<(BlockPostingList, u32)>) -> bool {
    any_cursors(sources) && !all_cursors(sources)
}

/// Bytes of the first `n` merged blocks in a layout.
pub open spec fn merged_upto(es: Seq<Entry>, n: int, compact: bool) -> int
    decreases n,
{
    if n <= 0 {
        0
    } else {
        merged_upto(es, n - 1, compact) + list::header_len(compact) + es[n - 1].block.payload@.len()
    }
}

/// Whether a merged block would start past the 32-bit offsets.
pub open spec fn merge_too_long(es: Seq<Entry>, compact: bool) -> bool {
    exists|i: int| 0 <= i < es.len() && #[trigger] merged_upto(es, i, compact) > u32::MAX
}

/// Merged blocks take the room of the source blocks.
pub proof fn merged_room(blocks: Seq<PostingBlock>, es: Seq<Entry>, n: int, compact: bool)
    requires
        is_merged_blocks(blocks, es),
        0 <= n <= es.len(),
    ensures
        list::stream_upto(blocks, n, compact) == merged_upto(es, n, compact),
    decreases n,
{
    if n > 0 {
        merged_room(blocks, es, n - 1, compact);
        assert(block_codec::is_rebased(
            blocks[n - 1],
            es[n - 1].block,
            es[n - 1].offset as int,
        ));
    }
}

/// Admission of more sources includes that of fewer.
pub proof fn accept_prefix(sources: Seq<(BlockPostingList, u32)>, m: int, n: int)
    requires
        0 <= m <= n,
        accept(sources, n) is Ok,
    ensures
        accept(sources, m) is Ok,
    decreases n,
{
    if m < n {
        accept_prefix(sources, m, n - 1);
    }
}

/// A refusal stands, whatever follows.
pub proof fn accept_refused(sources: Seq<(BlockPostingList, u32)>, m: int, n: int)
    requires
        0 <= m <= n,
        accept(sources, m) is Err,
    ensures
        accept(sources, n) == accept(sources, m),
    decreases n,
{
    if m < n {
        accept_refused(sources, m, n - 1);
    }
}

/// The same for stored sources.
pub proof fn accept_stored_refused(sources: Seq<(Seq<u8>, u32)>, m: int, n: int)
    requires
        0 <= m <= n,
        accept_stored(sources, m) is Err,
    ensures
        accept_stored(sources, n) == accept_stored(sources, m),
    decreases n,
{
    if m < n {
        accept_stored_refused(sources, m, n - 1);
    }
}

/// Where a remapping is refused, it is refused however many ranges follow.
pub proof fn remap_refused(r: Seq<(u32, u32)>, m: int, n: int, offset: u32, previous: Option<u32>)
    requires
        0 <= m <= n,
        remap_check(r, m, offset, previous) is Err,
    ensures
        remap_check(r, n, offset, previous) == remap_check(r, m, offset, previous),
    decreases n,
{
    if m < n {
        remap_refused(r, m, n - 1, offset, previous);
    }
}

/// What a remapping that is accepted says of its ranges.
proof fn remap_facts(r: Seq<(u32, u32)>, n: int, offset: u32, previous: Option<u32>)
    requires
        0 <= n <= r.len(),
        remap_check(r, n, offset, previous) is Ok,
        previous is Some ==> previous->Some_0 < TERMINATED,
    ensures
        forall|i: int|
            0 <= i < n ==> (#[trigger] r[i]).0 <= r[i].1 && r[i].1 + offset < TERMINATED && (
            previous is Some ==> previous->Some_0 < r[i].0 + offset),
        forall|i: int, j: int| 0 <= i < j < n ==> (#[trigger] r[i]).1 < (#[trigger] r[j]).0,
        ({
            let last = remap_check(r, n, offset, previous)->Ok_0;
            &&& n == 0 ==> last == previous
            &&& n > 0 ==> last == Some((r[n - 1].1 + offset) as u32)
            &&& last is Some ==> last->Some_0 < TERMINATED
            &&& previous is Some ==> last is Some && last->Some_0 >= previous->Some_0
            &&& forall|i: int| 0 <= i < n ==> (#[trigger] r[i]).1 + offset <= last->Some_0
        }),
    decreases n,
{
    if n > 0 {
        remap_facts(r, n - 1, offset, previous);
    }
}

/// The entries of admitted sources are in order, and fit below the end marker.
pub proof fn accepted_order(sources: Seq<(BlockPostingList, u32)>, n: int)
    requires
        0 <= n <= sources.len(),
        all_wf(sources),
        accept(sources, n) is Ok,
    ensures
        ({
            let es = entries(sources, n);
            let last = accept(sources, n)->Ok_0.previous_last;
            &&& forall|i: int|
                0 <= i < es.len() ==> (#[trigger] es[i]).block.wf() && es[i].block.last
                    + es[i].offset < TERMINATED && last is Some && es[i].block.last + es[i].offset
                    <= last->Some_0
            &&& forall|i: int, j: int|
                0 <= i < j < es.len() ==> (#[trigger] es[i]).block.last + es[i].offset < (
                #[trigger] es[j]).block.first + es[j].offset
            &&& last is Some ==> last->Some_0 < TERMINATED
        }),
    decreases n,
{
    if n > 0 {
        accepted_order(sources, n - 1);
        let (l, offset) = sources[n - 1];
        assert(sources[n - 1].0.wf());
        let before = accept(sources, n - 1)->Ok_0;
        let rs = ranges(l.blocks@);
        remap_facts(rs, l.len(), offset, before.previous_last);
        let es = entries(sources, n);
        let old_es = entries(sources, n - 1);
        let m = old_es.len() as int;
        let last = accept(sources, n)->Ok_0.previous_last;
        assert forall|i: int| 0 <= i < es.len() implies (#[trigger] es[i]).block.wf()
            && es[i].block.last + es[i].offset < TERMINATED && last is Some && es[i].block.last
            + es[i].offset <= last->Some_0 by {
            if i < m {
                assert(es[i] == old_es[i]);
            } else {
                assert(es[i].block == l.blocks@[i - m]);
                assert(l.blocks@[i - m].wf());
                assert(rs[i - m].1 == l.blocks@[i - m].last);
            }
        }
        assert forall|i: int, j: int| 0 <= i < j < es.len() implies (#[trigger] es[i]).block.last
            + es[i].offset < (#[trigger] es[j]).block.first + es[j].offset by {
            if j < m {
                assert(es[i] == old_es[i] && es[j] == old_es[j]);
            } else {
                assert(es[j].block == l.blocks@[j - m]);
                assert(rs[j - m].0 == l.blocks@[j - m].first);
                if i < m {
                    assert(es[i] == old_es[i]);
                } else {
                    assert(es[i].block == l.blocks@[i - m]);
                    assert(rs[i - m].1 == l.blocks@[i - m].last);
                }
            }
        }
    }
}

/// Number of postings of the first `n` entries.
pub open spec fn entry_count(es: Seq<Entry>, n: int) -> int
    decreases n,
{
    if n <= 0 {
        0
    } else {
        entry_count(es, n - 1) + es[n - 1].block.count
    }
}

pub proof fn entry_count_source(
    sources: Seq<(BlockPostingList, u32)>,
    s: int,
    i: int,
)
    requires
        0 <= s < sources.len(),
        0 <= i <= sources[s].0.len(),
    ensures
        ({
            let es = entries(sources, s + 1);
            let m = entries(sources, s).len() as int;
            entry_count(es, m + i) == entry_count(es, m) + list::total_count(
                sources[s].0.blocks@,
                i,
            )
        }),
    decreases i,
{
    if i > 0 {
        entry_count_source(sources, s, i - 1);
        let es = entries(sources, s + 1);
        let m = entries(sources, s).len() as int;
        assert(es[m + i - 1] == entry_of(sources, s, i - 1));
    }
}

pub proof fn entry_count_prefix(a: Seq<Entry>, b: Seq<Entry>, n: int)
    requires
        0 <= n <= a.len(),
        n <= b.len(),
        forall|i: int| 0 <= i < n ==> a[i] == b[i],
    ensures
        entry_count(a, n) == entry_count(b, n),
    decreases n,
{
    if n > 0 {
        entry_count_prefix(a, b, n - 1);
    }
}

/// Admitted totals are the sums over the entries.
pub proof fn accepted_totals(sources: Seq<(BlockPostingList, u32)>, n: int)
    requires
        0 <= n <= sources.len(),
        all_wf(sources),
        accept(sources, n) is Ok,
    ensures
        accept(sources, n)->Ok_0.docs == entry_count(
            entries(sources, n),
            entries(sources, n).len() as int,
        ),
        accept(sources, n)->Ok_0.positions == positions_before(sources, n),
        entries(sources, n).len() <= accept(sources, n)->Ok_0.docs,
    decreases n,
{
    if n > 0 {
        accepted_totals(sources, n - 1);
        let es = entries(sources, n);
        let old_es = entries(sources, n - 1);
        let m = old_es.len() as int;
        let l = sources[n - 1].0;
        assert(sources[n - 1].0.wf());
        entry_count_source(sources, n - 1, l.len());
        entry_count_prefix(es, old_es, m);
        list::total_count_grows(l.blocks@, 0, l.len());
    }
}

/// Position totals never run backwards.
pub proof fn positions_grow(sources: Seq<(BlockPostingList, u32)>, m: int, n: int)
    requires
        0 <= m <= n,
    ensures
        0 <= positions_before(sources, m) <= positions_before(sources, n),
    decreases n,
{
    if m < n {
        positions_grow(sources, m, n - 1);
    } else if n > 0 {
        positions_grow(sources, m - 1, n - 1);
    }
}

/// Position cursors of the entries never run backwards, and never pass the
/// total.
pub proof fn entry_cursors(sources: Seq<(BlockPostingList, u32)>, n: int)
    requires
        0 <= n <= sources.len(),
        all_wf(sources),
        all_cursors(sources),
    ensures
        ({
            let es = entries(sources, n);
            &&& forall|i: int|
                0 <= i < es.len() ==> 0 <= (#[trigger] es[i]).cursor <= positions_before(
                    sources,
                    n,
                )
            &&& forall|i: int, j: int|
                0 <= i <= j < es.len() ==> (#[trigger] es[i]).cursor <= (#[trigger] es[j]).cursor
        }),
    decreases n,
{
    if n > 0 {
        entry_cursors(sources, n - 1);
        let l = sources[n - 1].0;
        assert(sources[n - 1].0.wf());
        assert(sources[n - 1].0.cursors is Some);
        let c = l.cursors->Some_0@;
        let es = entries(sources, n);
        let old_es = entries(sources, n - 1);
        let m = old_es.len() as int;
        positions_grow(sources, n - 1, n);
        assert forall|i: int| 0 <= i < es.len() implies 0 <= (#[trigger] es[i]).cursor
            <= positions_before(sources, n) by {
            if i < m {
                assert(es[i] == old_es[i]);
            } else {
                assert(es[i] == entry_of(sources, n - 1, i - m));
                assert(c[i - m] <= l.total_positions);
            }
        }
        assert forall|i: int, j: int| 0 <= i <= j < es.len() implies (#[trigger] es[i]).cursor <= (
        #[trigger] es[j]).cursor by {
            if j < m {
                assert(es[i] == old_es[i] && es[j] == old_es[j]);
            } else {
                assert(es[j] == entry_of(sources, n - 1, j - m));
                if i < m {
                    assert(es[i] == old_es[i]);
                } else {
                    assert(es[i] == entry_of(sources, n - 1, i - m));
                    assert(c[i - m] <= c[j - m]);
                }
            }
        }
    }
}

/// Acceptance depends on the sources alone.
pub proof fn accept_same(
    a: Seq<(BlockPostingList, u32)>,
    b: Seq<(BlockPostingList, u32)>,
    n: int,
)
    requires
        0 <= n <= a.len(),
        n <= b.len(),
        forall|i: int| 0 <= i < n ==> a[i] == b[i],
    ensures
        accept(a, n) == accept(b, n),
    decreases n,
{
    if n > 0 {
        accept_same(a, b, n - 1);
    }
}

/// Whether the lists are those stored in the sources.
#[verifier::opaque]
pub open spec fn are_read(
    lists: Seq<(BlockPostingList, u32)>,
    sources: Seq<(Seq<u8>, u32)>,
) -> bool {
    &&& lists.len() == sources.len()
    &&& forall|i: int|
        0 <= i < lists.len() ==> (#[trigger] lists[i]).1 == sources[i].1 && (
        list_read::bytes_check(sources[i].0) matches Ok(f) && list_read::is_read(
            lists[i].0,
            sources[i].0,
            f,
        ))
}

/// Why accepted sources cannot be merged in a layout, if they cannot.
pub open spec fn merge_refusal(
    sources: Seq<(BlockPostingList, u32)>,
    compact: bool,
) -> Option<PostingError> {
    if mixed_cursors(sources) {
        Some(PostingError::MixedCursors)
    } else if impact_refusal(sources) is Some {
        impact_refusal(sources)
    } else if merge_too_long(all_entries(sources), compact) {
        Some(PostingError::StreamedTooLong)
    } else {
        None
    }
}

/// Whether the lists in the sources are refused with `error`.
pub open spec fn is_refused(
    lists: Seq<(BlockPostingList, u32)>,
    sources: Seq<(Seq<u8>, u32)>,
    error: MergeError,
) -> bool {
    &&& are_read(lists, sources)
    &&& match merge_refusal(lists, all_compact(lists)) {
        Some(refused) => error == MergeError::Merge(refused),
        None => false,
    }
}

/// Whether `written` stores the merge `m` of the lists in the sources. Block
/// headers stay in the directory if every source keeps them there.
pub open spec fn is_streamed(
    lists: Seq<(BlockPostingList, u32)>,
    m: BlockPostingList,
    sources: Seq<(Seq<u8>, u32)>,
    written: Seq<u8>,
) -> bool {
    &&& are_read(lists, sources)
    &&& all_wf(lists)
    &&& merge_refusal(lists, all_compact(lists)) is None
    &&& m.wf()
    &&& is_merged(m, lists, all_compact(lists))
    &&& written == m.streamed(all_compact(lists))
}

/// Postings moved up by an offset.
pub open spec fn shifted(s: Seq<Posting>, offset: int) -> Seq<Posting> {
    Seq::new(
        s.len(),
        |i: int|
            Posting { doc_id: (s[i].doc_id + offset) as u32, term_freq: s[i].term_freq },
    )
}

/// The postings of the first `n` sources, each moved up by its offset.
pub open spec fn joined_postings(sources: Seq<(BlockPostingList, u32)>, n: int) -> Seq<Posting>
    decreases n,
{
    if n <= 0 {
        Seq::empty()
    } else {
        joined_postings(sources, n - 1) + shifted(sources[n - 1].0@, sources[n - 1].1 as int)
    }
}

/// Merging sound lists gives a sound list with the postings of the first,
/// then those of the second, and so on, each moved up by its offset.
pub proof fn merged_postings(
    r: BlockPostingList,
    sources: Seq<(BlockPostingList, u32)>,
    compact: bool,
)
    requires
        all_wf(sources),
        forall|i: int| 0 <= i < sources.len() ==> (#[trigger] sources[i]).0.sound(),
        is_merged(r, sources, compact),
    ensures
        r.sound(),
        r@ == joined_postings(sources, sources.len() as int),
{
    reveal(is_merged);
    let n = sources.len() as int;
    let es = all_entries(sources);
    accepted_order(sources, n);
    entries_sound(sources, n);
    assert forall|i: int| 0 <= i < es.len() implies (#[trigger] r.blocks@[i]).sound() by {
        assert(es[i].block.wf() && es[i].block.sound());
        block_codec::rebased_docs(es[i].block, r.blocks@[i], es[i].offset as int);
    }
    joined_blocks(r.blocks@, sources, n);
}

proof fn entries_sound(sources: Seq<(BlockPostingList, u32)>, n: int)
    requires
        0 <= n <= sources.len(),
        forall|i: int| 0 <= i < sources.len() ==> (#[trigger] sources[i]).0.sound(),
    ensures
        forall|i: int|
            0 <= i < entries(sources, n).len() ==> (#[trigger] entries(
                sources,
                n,
            )[i]).block.sound(),
    decreases n,
{
    if n > 0 {
        entries_sound(sources, n - 1);
        let es = entries(sources, n);
        let old_es = entries(sources, n - 1);
        let m = old_es.len() as int;
        let l = sources[n - 1].0;
        assert(sources[n - 1].0.sound());
        assert forall|i: int| 0 <= i < es.len() implies (#[trigger] es[i]).block.sound() by {
            if i < m {
                assert(es[i] == old_es[i]);
            } else {
                assert(es[i].block == l.blocks@[i - m]);
            }
        }
    }
}

/// A rebased block has the postings of the block, moved up.
pub proof fn block_moves(b: PostingBlock, r: PostingBlock, offset: int)
    requires
        b.wf(),
        b.sound(),
        0 <= b.first + offset,
        b.last + offset < TERMINATED,
        block_codec::is_rebased(r, b, offset),
    ensures
        r.sound(),
        list::block_postings(r) == shifted(list::block_postings(b), offset),
{
    block_codec::rebased_docs(b, r, offset);
    assert(list::block_postings(r) =~= shifted(list::block_postings(b), offset));
}

proof fn joined_blocks(blocks: Seq<PostingBlock>, sources: Seq<(BlockPostingList, u32)>, n: int)
    requires
        0 <= n <= sources.len(),
        entries(sources, n).len() <= blocks.len(),
        forall|i: int|
            0 <= i < entries(sources, n).len() ==> {
                let e = #[trigger] entries(sources, n)[i];
                &&& e.block.wf()
                &&& e.block.sound()
                &&& e.block.last + e.offset < TERMINATED
                &&& block_codec::is_rebased(blocks[i], e.block, e.offset as int)
            },
    ensures
        list::flat(blocks, entries(sources, n).len() as int) == joined_postings(sources, n),
    decreases n,
{
    if n > 0 {
        let es = entries(sources, n);
        let old_es = entries(sources, n - 1);
        assert forall|i: int| 0 <= i < old_es.len() implies es[i] == #[trigger] old_es[i] by {}
        joined_blocks(blocks, sources, n - 1);
        source_blocks(blocks, sources, n - 1, sources[n - 1].0.len());
    }
}

proof fn source_blocks(
    blocks: Seq<PostingBlock>,
    sources: Seq<(BlockPostingList, u32)>,
    s: int,
    k: int,
)
    requires
        0 <= s < sources.len(),
        0 <= k <= sources[s].0.len(),
        entries(sources, s + 1).len() <= blocks.len(),
        forall|i: int|
            0 <= i < entries(sources, s + 1).len() ==> {
                let e = #[trigger] entries(sources, s + 1)[i];
                &&& e.block.wf()
                &&& e.block.sound()
                &&& e.block.last + e.offset < TERMINATED
                &&& block_codec::is_rebased(blocks[i], e.block, e.offset as int)
            },
    ensures
        ({
            let m = entries(sources, s).len() as int;
            list::flat(blocks, m + k) == list::flat(blocks, m) + shifted(
                list::flat(sources[s].0.blocks@, k),
                sources[s].1 as int,
            )
        }),
    decreases k,
{
    let m = entries(sources, s).len() as int;
    let l = sources[s].0;
    let offset = sources[s].1 as int;
    if k > 0 {
        source_blocks(blocks, sources, s, k - 1);
        let e = entries(sources, s + 1)[m + k - 1];
        assert(e == entry_of(sources, s, k - 1));
        block_moves(e.block, blocks[m + k - 1], e.offset as int);
        let head = list::flat(l.blocks@, k - 1);
        let tail = list::block_postings(l.blocks@[k - 1]);
        assert(shifted(head + tail, offset) =~= shifted(head, offset) + shifted(tail, offset));
        assert(list::flat(blocks, m) + shifted(head, offset) + shifted(tail, offset) =~= list::flat(
            blocks,
            m,
        ) + (shifted(head, offset) + shifted(tail, offset)));
    } else {
        assert(list::flat(blocks, m) + shifted(Seq::empty(), offset) =~= list::flat(blocks, m));
    }
}

} // verus!
