//! What a merged list keeps of the bounds of its sources.
use crate::block::TERMINATED;
use crate::bound_laws;
use crate::bounds;
use crate::codec::PostingCodec;
use crate::envelope;
use crate::envelope::Point;
use crate::envelope_laws;
use crate::impact_builder;
use crate::impacts;
use crate::list;
use crate::list::BlockPostingList;
use crate::list_build;
use crate::list_query;
use crate::merge;
use crate::posting::Posting;
use crate::ratio;
use vstd::prelude::*;

verus! {

/// Whether no posting has a larger frequency than its block's bound or than
/// the list's.
pub open spec fn bounds_hold(l: BlockPostingList) -> bool {
    forall|i: int, k: int|
        0 <= i < l.len() && 0 <= k < l.blocks@[i].count ==> {
            let tf = (#[trigger] list::block_postings(l.blocks@[i])[k]).term_freq;
            tf <= l.block_bounds_spec(i).0 && tf <= l.max_tf
        }
}

/// The place of a source's block among the entries.
pub open spec fn entry_place(sources: Seq<(BlockPostingList, u32)>, s: int, k: int) -> int {
    merge::entries(sources, s).len() + k
}

/// Each entry is a block of a source, at its place.
pub proof fn entry_is_of_source(sources: Seq<(BlockPostingList, u32)>, n: int, i: int)
    requires
        0 <= n <= sources.len(),
        0 <= i < merge::entries(sources, n).len(),
    ensures
        ({
            let e = merge::entries(sources, n)[i];
            &&& 0 <= e.source < n
            &&& 0 <= e.index < sources[e.source].0.len()
            &&& e == merge::entry_of(sources, e.source, e.index)
            &&& i == entry_place(sources, e.source, e.index)
        }),
    decreases n,
{
    if n > 0 && i < merge::entries(sources, n - 1).len() {
        entry_is_of_source(sources, n - 1, i);
    }
}

/// Each block of a source is an entry, at its place.
pub proof fn source_has_entry(sources: Seq<(BlockPostingList, u32)>, n: int, s: int, k: int)
    requires
        0 <= s < n <= sources.len(),
        0 <= k < sources[s].0.len(),
    ensures
        entry_place(sources, s, k) < merge::entries(sources, n).len(),
        merge::entries(sources, n)[entry_place(sources, s, k)] == merge::entry_of(sources, s, k),
    decreases n,
{
    if s < n - 1 {
        source_has_entry(sources, n - 1, s, k);
    }
}

/// The largest frequency of sources is at least that of each, and that of
/// one of them or zero.
pub proof fn largest_tf_is_largest(sources: Seq<(BlockPostingList, u32)>, n: int)
    requires
        0 <= n <= sources.len(),
    ensures
        forall|s: int|
            0 <= s < n ==> (#[trigger] sources[s]).0.max_tf <= merge::largest_tf(sources, n),
        merge::largest_tf(sources, n) == 0 || exists|s: int|
            0 <= s < n && (#[trigger] sources[s]).0.max_tf == merge::largest_tf(sources, n),
    decreases n,
{
    if n > 0 {
        largest_tf_is_largest(sources, n - 1);
        let top = merge::largest_tf(sources, n);
        if top != 0 && top != sources[n - 1].0.max_tf {
            let s = choose|s: int|
                0 <= s < n - 1 && (#[trigger] sources[s]).0.max_tf == merge::largest_tf(
                    sources,
                    n - 1,
                );
            assert(sources[s].0.max_tf == top);
        }
    }
}

/// The smallest length of sources is at most that of each, and that of one
/// of them unless there is none. A source without lengths counts as one.
pub proof fn smallest_len_is_smallest(sources: Seq<(BlockPostingList, u32)>, n: int)
    requires
        0 <= n <= sources.len(),
    ensures
        forall|s: int|
            0 <= s < n ==> merge::smallest_len(sources, n) <= (if (#[trigger] sources[s]).0.len_bounds {
                sources[s].0.min_len
            } else {
                1
            }),
        merge::smallest_len(sources, n) == u32::MAX || exists|s: int|
            0 <= s < n && merge::smallest_len(sources, n) == (if (
            #[trigger] sources[s]).0.len_bounds {
                sources[s].0.min_len
            } else {
                1
            }),
    decreases n,
{
    if n > 0 {
        smallest_len_is_smallest(sources, n - 1);
        let least = merge::smallest_len(sources, n);
        if least != u32::MAX && least != merge::source_min_len(sources[n - 1].0) {
            let s = choose|s: int|
                0 <= s < n - 1 && merge::smallest_len(sources, n - 1) == (if (
                #[trigger] sources[s]).0.len_bounds {
                    sources[s].0.min_len
                } else {
                    1
                });
            assert(merge::source_min_len(sources[s].0) == least);
        } else if least != u32::MAX {
            assert(merge::source_min_len(sources[n - 1].0) == least);
        }
    }
}

/// The bounds of a built list hold.
pub proof fn built_list_bounds_hold(
    l: BlockPostingList,
    s: Seq<Posting>,
    with_positions: bool,
    lengths: Option<Seq<u32>>,
    codec: PostingCodec,
    limit: Option<u32>,
    impact_bounds: bool,
)
    requires
        list_build::is_built(l, s, with_positions, lengths, codec, limit, impact_bounds),
    ensures
        bounds_hold(l),
{
    assert forall|i: int, k: int| 0 <= i < l.len() && 0 <= k < l.blocks@[i].count implies {
        let tf = (#[trigger] list::block_postings(l.blocks@[i])[k]).term_freq;
        tf <= l.block_bounds_spec(i).0 && tf <= l.max_tf
    } by {
        assert(list_build::is_built_block(l.blocks@[i], s, lengths, limit, codec, i));
        assert(list::block_postings(l.blocks@[i]) == list_build::chunk(s, i));
        list_query::built_bounds_hold(
            l,
            s,
            with_positions,
            lengths,
            codec,
            limit,
            impact_bounds,
            i,
            128 * i + k,
        );
    }
}

/// Where the bounds of all sources hold, those of the merged list hold.
pub proof fn merged_bounds_hold(
    r: BlockPostingList,
    sources: Seq<(BlockPostingList, u32)>,
    compact: bool,
)
    requires
        merge::all_wf(sources),
        merge::is_merged(r, sources, compact),
        forall|i: int|
            0 <= i < sources.len() ==> (#[trigger] sources[i]).0.sound() && bounds_hold(
                sources[i].0,
            ),
    ensures
        bounds_hold(r),
{
    reveal(merge::is_merged);
    let n = sources.len() as int;
    let es = merge::all_entries(sources);
    merge::accepted_order(sources, n);
    largest_tf_is_largest(sources, n);
    assert forall|i: int, k: int| 0 <= i < r.len() && 0 <= k < r.blocks@[i].count implies {
        let tf = (#[trigger] list::block_postings(r.blocks@[i])[k]).term_freq;
        tf <= r.block_bounds_spec(i).0 && tf <= r.max_tf
    } by {
        entry_is_of_source(sources, n, i);
        let e = es[i];
        let l = sources[e.source].0;
        assert(l.wf() && l.sound() && bounds_hold(l));
        assert(l.blocks@[e.index].wf() && l.blocks@[e.index].sound());
        merge::block_moves(e.block, r.blocks@[i], e.offset as int);
        let tf = list::block_postings(r.blocks@[i])[k].term_freq;
        assert(tf == list::block_postings(l.blocks@[e.index])[k].term_freq);
        let (raw, len) = bounds::unpack_bounds_spec(e.block.bounds, e.packed);
        bound_laws::packed_bounds_are_kept(
            raw,
            match len {
                Some(x) => x,
                None => 1,
            },
        );
        assert(l.max_tf <= r.max_tf);
    }
}

/// A merged block has the length bound of the block that it was, and one
/// where that had none. Bounds that were packed stay as they were. The
/// merged list's length bound is no larger than that of any source.
pub proof fn merged_lengths_kept(
    r: BlockPostingList,
    sources: Seq<(BlockPostingList, u32)>,
    compact: bool,
    s: int,
    k: int,
)
    requires
        merge::is_merged(r, sources, compact),
        0 <= s < sources.len(),
        0 <= k < sources[s].0.len(),
    ensures
        ({
            let l = sources[s].0;
            let i = entry_place(sources, s, k);
            &&& i < r.len()
            &&& r.block_bounds_spec(i).1 == (if l.len_bounds {
                l.block_bounds_spec(k).1
            } else {
                Some(1u32)
            })
            &&& l.len_bounds ==> r.blocks@[i].bounds == l.blocks@[k].bounds
            &&& l.len_bounds ==> r.min_len <= l.min_len || r.min_len == 1
            &&& !l.len_bounds ==> r.min_len <= 1
        }),
{
    reveal(merge::is_merged);
    let n = sources.len() as int;
    source_has_entry(sources, n, s, k);
    smallest_len_is_smallest(sources, n);
    let i = entry_place(sources, s, k);
    let e = merge::all_entries(sources)[i];
    assert(r.blocks@[i].bounds == bounds::repacked(e.block.bounds, e.packed));
    bound_laws::repacked_bounds_are_kept(e.block.bounds);
    assert(sources[s].0.len_bounds == e.packed);
}

/// A merged block has the ratio of the block that it was, or none where its
/// source had none, and the ratio of its group is no larger.
pub proof fn merged_ratios_kept(
    r: BlockPostingList,
    sources: Seq<(BlockPostingList, u32)>,
    compact: bool,
    s: int,
    k: int,
)
    requires
        merge::is_merged(r, sources, compact),
        0 <= s < sources.len(),
        0 <= k < sources[s].0.len(),
    ensures
        sources[s].0.ratios is Some ==> r.ratios is Some,
        r.ratios matches Some(words) ==> {
            let i = entry_place(sources, s, k);
            &&& words@[i] == (match sources[s].0.ratios {
                Some(own) => own@[k],
                None => 0,
            })
            &&& ratio::magnitude(words@[r.len() + i / 8]) <= ratio::magnitude(words@[i])
        },
{
    reveal(merge::is_merged);
    let n = sources.len() as int;
    source_has_entry(sources, n, s, k);
    let i = entry_place(sources, s, k);
    let es = merge::all_entries(sources);
    let own = merge::entry_ratios(es);
    if sources[s].0.ratios is Some {
        assert(merge::any_ratios(sources));
    }
    if r.ratios is Some {
        let g = i / 8;
        bound_laws::groups_hold_eight(es.len() as int, g, i);
        ratio::min_ratio_holds(own, 8 * g, bounds::group_end(es.len() as int, g), i);
    }
}

/// A merged block has the envelope of the block that it was.
pub proof fn merged_envelopes_kept(
    r: BlockPostingList,
    sources: Seq<(BlockPostingList, u32)>,
    compact: bool,
    s: int,
    k: int,
)
    requires
        merge::all_wf(sources),
        merge::is_merged(r, sources, compact),
        0 <= s < sources.len(),
        0 <= k < sources[s].0.len(),
    ensures
        r.envelope(entry_place(sources, s, k)) == sources[s].0.envelope(k),
{
    reveal(merge::is_merged);
    let n = sources.len() as int;
    source_has_entry(sources, n, s, k);
    let i = entry_place(sources, s, k);
    let es = merge::all_entries(sources);
    let l = sources[s].0;
    assert(l.wf());
    if merge::any_impacts(sources) {
        let m = es.len() as int;
        let t: Option<Seq<Seq<u8>>> = match r.impacts {
            Some(t) => Some(t@),
            None => None,
        };
        let records = choose|records: Seq<Seq<u8>>|
            {
                &&& records.len() == m + bounds::group_count(m)
                &&& records.take(m) == merge::entry_records(es)
                &&& forall|g: int|
                    0 <= g < bounds::group_count(m) ==> impact_builder::is_group_record(
                        #[trigger] records[m + g],
                        merge::entry_records(es),
                        m,
                        g,
                        merge::group_copy(sources, es, g),
                    )
                &&& #[trigger] merge::kept_records(records) == t
            };
        assert(records.take(m)[i] == merge::entry_records(es)[i]);
        assert(records[i] == es[i].record);
    } else {
        assert(sources[s].0.impacts is None);
    }
}

/// Whether each point of each block's envelope is dominated by the envelope
/// of its group, wherever the group has one.
pub open spec fn groups_dominate(l: BlockPostingList) -> bool {
    forall|i: int|
        0 <= i < l.len() && #[trigger] l.envelope(l.len() + i / 8) is Some ==> group_dominates(l, i)
}

/// Whether a block has an envelope and its group's dominates each point of
/// that.
pub open spec fn group_dominates(l: BlockPostingList, i: int) -> bool {
    &&& l.envelope(i) is Some
    &&& forall|j: int, a: nat, b: nat|
        0 <= j < l.envelope(i)->Some_0.len() ==> #[trigger] envelope::dominated(
            l.envelope(l.len() + i / 8)->Some_0,
            l.envelope(i)->Some_0[j],
            a,
            b,
        )
}

/// A record holds the envelope of its points where that has at most eight;
/// else there is none.
pub proof fn record_holds_envelope(record: Seq<u8>, points: Seq<Point>, h: Seq<Point>)
    requires
        impacts::is_record_of(record, points),
        0 < points.len(),
        forall|k: int| 0 <= k < points.len() ==> envelope::positive(#[trigger] points[k]),
        envelope::is_envelope(h, points),
    ensures
        h.len() <= 8 ==> record.len() > 0 && impacts::record_points(record) == h,
        h.len() > 8 ==> record.len() == 0,
{
    let g = choose|g: Seq<Point>| #[trigger]
        envelope::is_envelope(g, points) && record == impacts::record_of(g);
    envelope_laws::envelope_unique(h, g, points);
    assert(envelope::dominated(h, points[0], 0, 0));
    assert forall|i: int| 0 <= i < h.len() implies envelope::positive(#[trigger] h[i]) by {
        assert(points.contains(h[i]));
    }
    impacts::record_roundtrip(h);
}

/// A point of a record is one of those joined from a group's records.
proof fn joined_has(records: Seq<Seq<u8>>, from: int, to: int, i: int, j: int)
    requires
        from <= i < to,
        0 <= j < impacts::record_points(records[i]).len(),
    ensures
        impact_builder::joined_points(records, from, to).contains(
            impacts::record_points(records[i])[j],
        ),
    decreases to - from,
{
    let p = impacts::record_points(records[i])[j];
    let rest = impact_builder::joined_points(records, from, to - 1);
    let all = impact_builder::joined_points(records, from, to);
    if i == to - 1 {
        assert(all[rest.len() + j] == p);
    } else {
        joined_has(records, from, to - 1, i, j);
        let k = choose|k: int| 0 <= k < rest.len() && rest[k] == p;
        assert(all[k] == p);
    }
}

/// A group's record that is not copied dominates the points of each of its
/// records.
pub proof fn group_record_dominates(
    record: Seq<u8>,
    records: Seq<Seq<u8>>,
    n: int,
    g: int,
    i: int,
    j: int,
    a: nat,
    b: nat,
)
    requires
        impact_builder::is_group_record(record, records, n, g, None),
        record.len() > 0,
        8 * g <= i < bounds::group_end(n, g),
    ensures
        records[i].len() > 0,
        0 <= j < impacts::record_points(records[i]).len() ==> envelope::dominated(
            impacts::record_points(record),
            impacts::record_points(records[i])[j],
            a,
            b,
        ),
{
    let to = bounds::group_end(n, g);
    let points = impact_builder::joined_points(records, 8 * g, to);
    assert(records[i].len() > 0);
    if 0 <= j < impacts::record_points(records[i]).len() {
        joined_has(records, 8 * g, to, i, j);
        let p = impacts::record_points(records[i])[j];
        let k = choose|k: int| 0 <= k < points.len() && points[k] == p;
        assert forall|k: int| 0 <= k < points.len() implies envelope::positive(
            #[trigger] points[k],
        ) by {}
        let h = choose|h: Seq<Point>| #[trigger]
            envelope::is_envelope(h, points) && record == impacts::record_of(h);
        record_holds_envelope(record, points, h);
        assert(envelope::dominated(h, points[k], a, b));
    }
}

/// In a built list, the envelopes of groups dominate those of their blocks.
pub proof fn built_groups_dominate(
    l: BlockPostingList,
    s: Seq<Posting>,
    with_positions: bool,
    lengths: Option<Seq<u32>>,
    codec: PostingCodec,
    limit: Option<u32>,
    impact_bounds: bool,
)
    requires
        list_build::is_built(l, s, with_positions, lengths, codec, limit, impact_bounds),
    ensures
        groups_dominate(l),
{
    assert forall|i: int|
        0 <= i < l.len() && #[trigger] l.envelope(l.len() + i / 8) is Some implies group_dominates(
        l,
        i,
    ) by {
        let t = l.impacts->Some_0@;
        let n = l.len();
        let g = i / 8;
        bound_laws::groups_hold_eight(n, g, i);
        assert(impact_builder::is_group_record(t[n + g], t.take(n), n, g, None));
        assert(t.take(n)[i] == t[i]);
        group_record_dominates(t[n + g], t.take(n), n, g, i, 0, 0, 0);
        assert forall|j: int, a: nat, b: nat|
            0 <= j < l.envelope(i)->Some_0.len() implies #[trigger] envelope::dominated(
            l.envelope(l.len() + i / 8)->Some_0,
            l.envelope(i)->Some_0[j],
            a,
            b,
        ) by {
            group_record_dominates(t[n + g], t.take(n), n, g, i, j, a, b);
        }
    }
}

/// Where the envelopes of groups dominate those of their blocks in all
/// sources, they do in the merged list.
#[verifier::rlimit(30)]
pub proof fn merged_groups_dominate(
    r: BlockPostingList,
    sources: Seq<(BlockPostingList, u32)>,
    compact: bool,
)
    requires
        merge::all_wf(sources),
        merge::is_merged(r, sources, compact),
        forall|i: int| 0 <= i < sources.len() ==> groups_dominate((#[trigger] sources[i]).0),
    ensures
        groups_dominate(r),
{
    reveal(merge::is_merged);
    let n = sources.len() as int;
    let es = merge::all_entries(sources);
    let m = es.len() as int;
    assert forall|i: int|
        0 <= i < r.len() && #[trigger] r.envelope(r.len() + i / 8) is Some implies group_dominates(
        r,
        i,
    ) by {
        let t: Option<Seq<Seq<u8>>> = Some(r.impacts->Some_0@);
        assert(merge::is_merged_impacts(t, sources));
        let records = choose|records: Seq<Seq<u8>>|
            {
                &&& records.len() == m + bounds::group_count(m)
                &&& records.take(m) == merge::entry_records(es)
                &&& forall|g: int|
                    0 <= g < bounds::group_count(m) ==> impact_builder::is_group_record(
                        #[trigger] records[m + g],
                        merge::entry_records(es),
                        m,
                        g,
                        merge::group_copy(sources, es, g),
                    )
                &&& #[trigger] merge::kept_records(records) == t
            };
        assert(records == r.impacts->Some_0@);
        let g = i / 8;
        bound_laws::groups_hold_eight(m, g, i);
        let copy = merge::group_copy(sources, es, g);
        let own = merge::entry_records(es);
        assert(impact_builder::is_group_record(records[m + g], own, m, g, copy));
        assert(records.take(m)[i] == own[i]);
        entry_is_of_source(sources, n, i);
        merged_envelopes_kept(r, sources, compact, es[i].source, es[i].index);
        if copy is None {
            group_record_dominates(records[m + g], own, m, g, i, 0, 0, 0);
            assert forall|j: int, a: nat, b: nat|
                0 <= j < r.envelope(i)->Some_0.len() implies #[trigger] envelope::dominated(
                r.envelope(r.len() + i / 8)->Some_0,
                r.envelope(i)->Some_0[j],
                a,
                b,
            ) by {
                group_record_dominates(records[m + g], own, m, g, i, j, a, b);
            }
        } else {
            let e = es[8 * g];
            let l = sources[e.source].0;
            entry_is_of_source(sources, n, 8 * g);
            let k = e.index + (i - 8 * g);
            source_has_entry(sources, n, e.source, k);
            assert(es[i] == merge::entry_of(sources, e.source, k));
            assert(k / 8 == e.index / 8);
            assert(groups_dominate(l));
            assert(r.envelope(r.len() + i / 8) == l.envelope(l.len() + k / 8));
            assert(group_dominates(l, k));
            assert(r.envelope(i) == l.envelope(k));
        }
    }
}

/// Where the envelopes of groups dominate those of their blocks, what a
/// block's envelope dominates its group's does.
pub proof fn group_envelopes_hold(l: BlockPostingList, i: int, q: Point, a: nat, b: nat)
    requires
        l.wf(),
        groups_dominate(l),
        0 <= i < l.len(),
        l.envelope(l.len() + i / 8) is Some,
        envelope::dominated(l.envelope(i)->Some_0, q, a, b),
    ensures
        envelope::dominated(l.envelope(l.len() + i / 8)->Some_0, q, a, b),
{
    let own = l.envelope(i)->Some_0;
    let all = l.envelope(l.len() + i / 8)->Some_0;
    assert(group_dominates(l, i));
    let j = choose|j: int| 0 <= j < own.len() && #[trigger] envelope::at_most(own[j], q, a, b);
    assert(envelope::dominated(all, own[j], a, b));
    let k = choose|k: int|
        0 <= k < all.len() && #[trigger] envelope::at_most(all[k], own[j], a, b);
    impacts::record_points_chain(l.impacts->Some_0@[i]);
    envelope::at_most_trans(all[k], own[j], q, a, b);
}

/// Sources whose blocks stay in order and in range are accepted, as far as
/// their totals fit.
pub proof fn ordered_sources_accepted(sources: Seq<(BlockPostingList, u32)>, n: int)
    requires
        0 <= n <= sources.len(),
        merge::all_wf(sources),
        ({
            let es = merge::entries(sources, n);
            &&& forall|i: int|
                0 <= i < es.len() ==> (#[trigger] es[i]).block.last + es[i].offset < TERMINATED
            &&& forall|i: int, j: int|
                0 <= i < j < es.len() ==> (#[trigger] es[i]).block.last + es[i].offset < (
                #[trigger] es[j]).block.first + es[j].offset
            &&& merge::entry_count(es, es.len() as int) <= u32::MAX
            &&& merge::positions_before(sources, n) <= u64::MAX
        }),
    ensures
        merge::accept(sources, n) is Ok,
    decreases n,
{
    if n > 0 {
        let es = merge::entries(sources, n);
        let less = merge::entries(sources, n - 1);
        let (l, offset) = sources[n - 1];
        let m = less.len() as int;
        assert(l.wf());
        merge::entry_count_source(sources, n - 1, l.len());
        merge::entry_count_prefix(less, es, m);
        counts_not_below(es, m, es.len() as int);
        assert forall|i: int| 0 <= i < m implies #[trigger] less[i] == es[i] by {}
        assert forall|k: int| 0 <= k < l.len() implies #[trigger] es[m + k] == merge::entry_of(
            sources,
            n - 1,
            k,
        ) by {}
        merge::positions_grow(sources, n - 1, n);
        ordered_sources_accepted(sources, n - 1);
        let state = merge::accept(sources, n - 1)->Ok_0;
        merge::accepted_totals(sources, n - 1);
        last_is_of_entry(sources, n - 1);
        blocks_accepted(l, offset, state.previous_last, l.len(), es, m);
    }
}

proof fn counts_not_below(es: Seq<merge::Entry>, m: int, n: int)
    requires
        0 <= m <= n,
    ensures
        merge::entry_count(es, m) <= merge::entry_count(es, n),
    decreases n,
{
    if m < n {
        counts_not_below(es, m, n - 1);
    }
}

/// The last document accepted is that of the last entry.
proof fn last_is_of_entry(sources: Seq<(BlockPostingList, u32)>, n: int)
    requires
        0 <= n <= sources.len(),
        merge::accept(sources, n) is Ok,
    ensures
        ({
            let es = merge::entries(sources, n);
            match merge::accept(sources, n)->Ok_0.previous_last {
                Some(last) => es.len() > 0 && last == es.last().block.last + es.last().offset,
                None => es.len() == 0,
            }
        }),
    decreases n,
{
    if n > 0 {
        merge::accept_prefix(sources, n - 1, n);
        last_is_of_entry(sources, n - 1);
        let (l, offset) = sources[n - 1];
        let state = merge::accept(sources, n - 1)->Ok_0;
        let k = l.len();
        let ranges = merge::ranges(l.blocks@);
        assert(merge::remap_check(ranges, k, offset, state.previous_last) is Ok);
        if k > 0 {
            assert(merge::remap_check(ranges, k - 1, offset, state.previous_last) is Ok);
            assert(merge::remap_check(ranges, k, offset, state.previous_last)->Ok_0 == Some(
                (ranges[k - 1].1 + offset) as u32,
            ));
        }
    }
}

proof fn blocks_accepted(
    l: BlockPostingList,
    offset: u32,
    previous: Option<u32>,
    k: int,
    es: Seq<merge::Entry>,
    m: int,
)
    requires
        l.wf(),
        0 <= k <= l.len(),
        0 <= m,
        m + l.len() == es.len(),
        forall|j: int|
            0 <= j < l.len() ==> (#[trigger] es[m + j]).block == l.blocks@[j] && es[m + j].offset
                == offset,
        forall|i: int|
            0 <= i < es.len() ==> (#[trigger] es[i]).block.last + es[i].offset < TERMINATED,
        forall|i: int, j: int|
            0 <= i < j < es.len() ==> (#[trigger] es[i]).block.last + es[i].offset < (
            #[trigger] es[j]).block.first + es[j].offset,
        match previous {
            Some(last) => m > 0 && last == es[m - 1].block.last + es[m - 1].offset,
            None => true,
        },
    ensures
        merge::remap_check(merge::ranges(l.blocks@), k, offset, previous) is Ok,
        k > 0 ==> merge::remap_check(merge::ranges(l.blocks@), k, offset, previous)->Ok_0 == Some(
            (l.blocks@[k - 1].last + offset) as u32,
        ),
    decreases k,
{
    if k > 0 {
        blocks_accepted(l, offset, previous, k - 1, es, m);
        let b = l.blocks@[k - 1];
        assert(b.wf());
        assert(es[m + (k - 1)].block == b);
        if k > 1 {
            assert(es[m + (k - 2)].block == l.blocks@[k - 2]);
        }
    }
}

/// A list built with impact bounds has, for each block of postings that all
/// have points above zero, the envelope of these points where a record takes
/// it, and none where it does not.
pub proof fn built_envelopes_are_exact(
    l: BlockPostingList,
    s: Seq<Posting>,
    with_positions: bool,
    lengths: Seq<u32>,
    codec: PostingCodec,
    limit: u32,
    i: int,
    h: Seq<Point>,
)
    requires
        list_build::is_built(l, s, with_positions, Some(lengths), codec, Some(limit), true),
        s.len() > 128,
        0 <= i < l.len(),
        ({
            let points = list_build::chunk_points(s, Some(lengths), Some(limit), i);
            &&& forall|k: int| 0 <= k < points.len() ==> envelope::positive(#[trigger] points[k])
            &&& envelope::is_envelope(h, points)
        }),
    ensures
        l.envelope(i) == (if h.len() <= 8 {
            Some(h)
        } else {
            None
        }),
{
    let points = list_build::chunk_points(s, Some(lengths), Some(limit), i);
    let records = match l.impacts {
        Some(t) => t@,
        None => choose|records: Seq<Seq<u8>>| #[trigger]
            list_build::is_built_impacts(records, s, Some(lengths), Some(limit)) && forall|i: int|
                0 <= i < records.len() ==> (#[trigger] records[i]).len() == 0,
    };
    assert(impacts::is_record_of(records[i], points));
    assert(points.len() > 0);
    record_holds_envelope(records[i], points, h);
}

/// A list built with lengths and a limit for them has ratios, and that of a
/// block is the ratio of one of its postings.
pub proof fn built_ratios_attained(
    l: BlockPostingList,
    s: Seq<Posting>,
    with_positions: bool,
    lengths: Seq<u32>,
    codec: PostingCodec,
    limit: u32,
    impact_bounds: bool,
    i: int,
)
    requires
        list_build::is_built(
            l,
            s,
            with_positions,
            Some(lengths),
            codec,
            Some(limit),
            impact_bounds,
        ),
        0 <= i < l.len(),
    ensures
        l.ratios is Some,
        exists|k: int|
            128 * i <= k < s.len() && k < 128 * i + 128 && l.ratios->Some_0@[i]
                == ratio::lower_ratio(
                #[trigger] list_build::unit_length(Some(lengths), Some(limit), k),
                s[k].term_freq,
            ),
{
    let own = list_build::posting_ratios(s, Some(lengths), Some(limit));
    let end = list_build::chunk_end(s.len() as int, i);
    ratio::min_ratio_holds(own, 128 * i, end, 128 * i);
    let k = choose|k: int|
        128 * i <= k < end && #[trigger] own[k] == ratio::min_ratio(own, 128 * i, end);
    assert(own[k] == ratio::lower_ratio(
        list_build::unit_length(Some(lengths), Some(limit), k),
        s[k].term_freq,
    ));
}

} // verus!
