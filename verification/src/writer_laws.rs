//! What a stream writer keeps of the postings and blocks that it was given.
use crate::block::TERMINATED;
use crate::bound_laws;
use crate::bounds;
use crate::built_laws;
use crate::codec::PostingCodec;
use crate::envelope;
use crate::impact_builder;
use crate::impacts;
use crate::list;
use crate::list::BlockPostingList;
use crate::list_build;
use crate::merge;
use crate::merge_bound_laws;
use crate::position_laws;
use crate::posting::Posting;
use crate::ratio;
use crate::stream_writer;
use crate::stream_writer::PostingStreamWriter;
use vstd::prelude::*;

verus! {

/// The postings of the blocks that a writer has cut.
pub open spec fn cut(w: PostingStreamWriter) -> Seq<Posting> {
    list::flat(w.blocks@, w.blocks@.len() as int)
}

/// Whether the cursor of every block of a writer is the frequency sum of the
/// postings before it, and the total that of all in blocks.
pub open spec fn writer_positions_hold(w: PostingStreamWriter) -> bool {
    w.with_positions ==> {
        &&& w.cursors@.len() == w.blocks@.len()
        &&& forall|i: int|
            0 <= i < w.blocks@.len() ==> #[trigger] w.cursors@[i] == list_build::tf_sum(
                cut(w),
                list::total_count(w.blocks@, i),
            )
        &&& w.positions == list_build::tf_sum(cut(w), cut(w).len() as int)
    }
}

/// Whether no posting in a block of a writer has a larger frequency than the
/// block's bound or the writer's.
pub open spec fn writer_bounds_hold(w: PostingStreamWriter) -> bool {
    forall|i: int, k: int|
        0 <= i < w.blocks@.len() && 0 <= k < w.blocks@[i].count ==> {
            let tf = (#[trigger] list::block_postings(w.blocks@[i])[k]).term_freq;
            let bound = bounds::unpack_bounds_spec(w.blocks@[i].bounds, true).0;
            tf <= w.max_tf && (tf <= bound || bound == 0xFFFF)
        }
}

/// A list of one block that stays in order and in range, with cursors just
/// where the writer has them and no bounds that the writer lacks, is
/// appended, as far as the writer's limits and totals admit it.
pub proof fn ordered_block_accepted(w: PostingStreamWriter, l: BlockPostingList, first: u32)
    requires
        w.wf(),
        l.wf(),
        l.len() == 1,
        !w.compact || l.blocks@[0].codec() != PostingCodec::Pfor,
        l.cursors is Some <==> w.with_positions,
        l.impacts is Some ==> w.impacts is Some,
        l.impacts is None && l.ratios is Some ==> w.ratio_bytes() <= w.directory_budget,
        w.blocks@.len() < w.blocks_limit,
        first + (l.blocks@[0].last - l.blocks@[0].first) < TERMINATED,
        w.blocks@.len() > 0 ==> w.blocks@.last().last < first,
        w.written <= u32::MAX,
        w.docs + l.doc_count <= u32::MAX,
        w.positions + l.total_positions <= u64::MAX,
    ensures
        w.append_refusal(l, first) is None,
{
}

/// Appending a block keeps the cursors of a writer frequency sums, where
/// those of the block's list are.
pub proof fn append_keeps_positions(
    after: PostingStreamWriter,
    w: PostingStreamWriter,
    l: BlockPostingList,
    first: u32,
)
    requires
        w.wf(),
        l.wf(),
        l.sound(),
        w.append_refusal(l, first) is None,
        after.is_appended(w, l, first),
        writer_positions_hold(w),
        w.with_positions ==> position_laws::positions_hold(l),
    ensures
        writer_positions_hold(after),
        cut(after) == cut(w) + merge::shifted(l@, first - l.blocks@[0].first),
{
    let n = w.blocks@.len() as int;
    let b = l.blocks@[0];
    let r = after.blocks@.last();
    let offset = first - b.first;
    assert(b.wf() && b.sound());
    merge::block_moves(b, r, offset);
    assert(list::flat(l.blocks@, 0) =~= Seq::empty());
    assert(l@ =~= list::block_postings(b));
    assert(after.blocks@ =~= w.blocks@.push(r));
    list::prefix_functions(w.blocks@, after.blocks@, n);
    let moved = merge::shifted(l@, offset);
    assert(cut(after) == cut(w) + moved);
    if w.with_positions {
        let m = l@.len() as int;
        position_laws::sum_shifts(l@, offset, m);
        position_laws::sum_joins(cut(w), moved, cut(after).len() as int);
        list::flat_len(w.blocks@, n);
        if m == 0 {
            assert(list_build::tf_sum(l@, 0) == 0);
        }
        assert forall|i: int| 0 <= i < after.blocks@.len() implies #[trigger] after.cursors@[i]
            == list_build::tf_sum(cut(after), list::total_count(after.blocks@, i)) by {
            list::prefix_functions(w.blocks@, after.blocks@, i);
            list::total_count_grows(w.blocks@, i, n);
            list::total_count_grows(w.blocks@, 0, i);
            position_laws::sum_joins(cut(w), moved, list::total_count(w.blocks@, i));
            if i < n {
                assert(after.cursors@[i] == w.cursors@[i]);
            }
        }
    }
}

/// Appending a block keeps the bounds of a writer, where those of the
/// block's list hold.
pub proof fn append_keeps_bounds(
    after: PostingStreamWriter,
    w: PostingStreamWriter,
    l: BlockPostingList,
    first: u32,
)
    requires
        w.wf(),
        l.wf(),
        l.sound(),
        w.append_refusal(l, first) is None,
        after.is_appended(w, l, first),
        writer_bounds_hold(w),
        merge_bound_laws::bounds_hold(l),
    ensures
        writer_bounds_hold(after),
        w.max_tf <= after.max_tf,
        l.max_tf <= after.max_tf,
        after.max_tf == w.max_tf || after.max_tf == l.max_tf,
        after.min_len <= w.min_len,
        l.len_bounds ==> after.min_len <= l.block_bounds_spec(0).1->Some_0,
        !l.len_bounds ==> after.min_len <= 1,
{
    let b = l.blocks@[0];
    let r = after.blocks@.last();
    assert(b.wf() && b.sound());
    merge::block_moves(b, r, first - b.first);
    let (raw, len) = bounds::unpack_bounds_spec(b.bounds, l.len_bounds);
    bound_laws::packed_bounds_are_kept(
        raw,
        match len {
            Some(x) => x,
            None => 1,
        },
    );
    assert forall|i: int, k: int| 0 <= i < after.blocks@.len() && 0 <= k
        < after.blocks@[i].count implies {
        let tf = (#[trigger] list::block_postings(after.blocks@[i])[k]).term_freq;
        let bound = bounds::unpack_bounds_spec(after.blocks@[i].bounds, true).0;
        tf <= after.max_tf && (tf <= bound || bound == 0xFFFF)
    } by {
        if i < w.blocks@.len() {
            assert(after.blocks@.drop_last()[i] == w.blocks@[i]);
            let tf = list::block_postings(w.blocks@[i])[k].term_freq;
            assert(tf <= w.max_tf);
        } else {
            let tf = list::block_postings(b)[k].term_freq;
            assert(tf <= l.block_bounds_spec(0).0 && tf <= l.max_tf);
        }
    }
}

/// The block that a writer cuts from its pending postings has the cursors
/// and bounds of a built list.
pub proof fn flushed_list_holds(w: PostingStreamWriter, l: BlockPostingList)
    requires
        w.is_flush_list(l),
    ensures
        merge_bound_laws::bounds_hold(l),
        w.with_positions ==> position_laws::positions_hold(l),
{
    let plain = BlockPostingList { ratios: None, impacts: None, ..l };
    let lengths = Some(Seq::new(w.pending@.len(), |i: int| w.min_pending_length));
    merge_bound_laws::built_list_bounds_hold(
        plain,
        w.pending@,
        w.with_positions,
        lengths,
        w.codec,
        None,
        false,
    );
    assert forall|i: int, k: int| 0 <= i < l.len() && 0 <= k < l.blocks@[i].count implies {
        let tf = (#[trigger] list::block_postings(l.blocks@[i])[k]).term_freq;
        tf <= l.block_bounds_spec(i).0 && tf <= l.max_tf
    } by {
        assert(list::block_postings(plain.blocks@[i])[k].term_freq <= plain.block_bounds_spec(i).0);
    }
    if w.with_positions {
        assert(plain@ == l@);
        position_laws::built_positions_hold(plain, w.pending@, lengths, w.codec, None, false);
    }
}

/// What a writer finishes as has the writer's cursors and bounds.
pub proof fn finished_list_holds(w: PostingStreamWriter, l: BlockPostingList)
    requires
        w.wf(),
        w.is_finished(l),
        writer_positions_hold(w),
        writer_bounds_hold(w),
    ensures
        merge_bound_laws::bounds_hold(l),
        w.with_positions ==> position_laws::positions_hold(l),
{
    assert forall|i: int, k: int| 0 <= i < l.len() && 0 <= k < l.blocks@[i].count implies {
        let tf = (#[trigger] list::block_postings(l.blocks@[i])[k]).term_freq;
        tf <= l.block_bounds_spec(i).0 && tf <= l.max_tf
    } by {
        assert(list::block_postings(w.blocks@[i])[k].term_freq <= w.max_tf);
    }
    if w.with_positions {
        assert(l@ == cut(w));
    }
}

/// The length that a posting pushed with some length counts with.
pub open spec fn counted(length: u32) -> u32 {
    if length == 0 {
        1
    } else {
        length
    }
}

/// Whether the pending postings of a writer were pushed with some lengths,
/// and what it keeps of those bounds each: the least length, a ratio where
/// it keeps ratios, and a point.
pub open spec fn pending_from(w: PostingStreamWriter, lengths: Seq<u32>) -> bool {
    &&& lengths.len() == w.pending@.len()
    &&& w.pending_lengths@.len() == w.pending@.len()
    &&& forall|i: int|
        0 <= i < lengths.len() ==> {
            let length = #[trigger] lengths[i];
            let tf = w.pending@[i].term_freq;
            &&& w.min_pending_length <= counted(length)
            &&& w.pending_lengths@[i] == (if length == 0 {
                tf
            } else {
                length
            })
            &&& w.has_ratios ==> ratio::ratio_at_most(
                w.pending_ratio,
                counted(length) as int,
                tf as int,
            )
        }
    &&& if lengths.len() == 0 {
        w.min_pending_length == u32::MAX && w.pending_ratio == stream_writer::INFINITE
    } else {
        exists|i: int|
            0 <= i < lengths.len() && w.min_pending_length == counted(#[trigger] lengths[i])
    }
    &&& w.pending_ratio <= stream_writer::INFINITE
    &&& lengths.len() > 0 && w.has_ratios ==> w.pending_ratio < stream_writer::INFINITE
}

/// A push adds its length to those that the pending postings came with.
pub proof fn push_keeps_pending(
    after: PostingStreamWriter,
    w: PostingStreamWriter,
    doc: u32,
    tf: u32,
    length: u32,
    lengths: Seq<u32>,
)
    requires
        pending_from(w, lengths),
        after.is_pushed(w, doc, tf, length),
    ensures
        pending_from(after, lengths.push(length)),
{
    let all = lengths.push(length);
    let n = lengths.len() as int;
    let own = ratio::lower_ratio(counted(length), tf);
    ratio::lower_ratio_below(counted(length), tf);
    assert forall|i: int| 0 <= i < all.len() implies {
        let length = #[trigger] all[i];
        let tf = after.pending@[i].term_freq;
        &&& after.min_pending_length <= counted(length)
        &&& after.pending_lengths@[i] == (if length == 0 {
            tf
        } else {
            length
        })
        &&& after.has_ratios ==> ratio::ratio_at_most(
            after.pending_ratio,
            counted(length) as int,
            tf as int,
        )
    } by {
        if i < n {
            assert(all[i] == lengths[i]);
            assert(after.pending@[i] == w.pending@[i]);
            if after.has_ratios && own < w.pending_ratio {
                built_laws::smaller_ratio(
                    own,
                    w.pending_ratio,
                    counted(lengths[i]) as int,
                    w.pending@[i].term_freq as int,
                );
            }
        } else if after.has_ratios && own >= w.pending_ratio {
            built_laws::smaller_ratio(w.pending_ratio, own, counted(length) as int, tf as int);
        }
    }
    if after.min_pending_length == counted(length) {
        assert(all[n] == length);
    } else {
        let i = choose|i: int|
            0 <= i < lengths.len() && w.min_pending_length == counted(#[trigger] lengths[i]);
        assert(all[i] == lengths[i]);
    }
}

/// The block that a writer cuts from its pending postings has the least of
/// their lengths, as far as sixteen bits hold it, a ratio that is at most
/// that of each posting, and an envelope that dominates each.
pub proof fn flushed_bounds_hold(
    w: PostingStreamWriter,
    l: BlockPostingList,
    lengths: Seq<u32>,
    i: int,
    a: nat,
    b: nat,
)
    requires
        w.is_flush_list(l),
        l.len() == 1,
        pending_from(w, lengths),
        0 <= i < lengths.len(),
    ensures
        l.block_bounds_spec(0).1 == Some(
            if w.min_pending_length <= 0xFFFF {
                w.min_pending_length
            } else {
                0xFFFF
            },
        ),
        l.block_bounds_spec(0).1->Some_0 <= counted(lengths[i]),
        l.ratios matches Some(words) ==> ratio::ratio_at_most(
            words@[0],
            counted(lengths[i]) as int,
            w.pending@[i].term_freq as int,
        ),
        l.impacts matches Some(t) ==> envelope::dominated(
            impacts::record_points(t@[0]),
            (w.pending@[i].term_freq, w.pending_lengths@[i]),
            a,
            b,
        ),
{
    let plain = BlockPostingList { ratios: None, impacts: None, ..l };
    let n = w.pending@.len() as int;
    let own = Some(Seq::new(w.pending@.len(), |i: int| w.min_pending_length));
    let least = w.min_pending_length;
    assert(least <= counted(lengths[i]));
    let j = choose|j: int|
        0 <= j < lengths.len() && w.min_pending_length == counted(#[trigger] lengths[j]);
    assert(least >= 1);
    assert(list_build::is_built_block(plain.blocks@[0], w.pending@, own, None, w.codec, 0));
    let end = list_build::chunk_end(n, 0);
    bound_laws::min_length_is_least(own, None, 0, end);
    assert(list_build::unit_length(own, None, 0) == least);
    let k = choose|k: int|
        0 <= k < end && list_build::min_length(own, None, 0, end)
            == #[trigger] list_build::unit_length(own, None, k);
    assert(list_build::min_length(own, None, 0, end) == least);
    bound_laws::packed_bounds_are_kept(
        crate::encode::seq_max(
            crate::posting::term_freqs(list_build::chunk(w.pending@, 0)),
        ),
        least,
    );
    if l.impacts is Some {
        flushed_envelope_holds(w, l, i, a, b);
    }
}

proof fn flushed_envelope_holds(
    w: PostingStreamWriter,
    l: BlockPostingList,
    i: int,
    a: nat,
    b: nat,
)
    requires
        w.is_flush_list(l),
        l.impacts is Some,
        w.pending_lengths@.len() == w.pending@.len(),
        0 <= i < w.pending@.len(),
    ensures
        envelope::dominated(
            impacts::record_points(l.impacts->Some_0@[0]),
            (w.pending@[i].term_freq, w.pending_lengths@[i]),
            a,
            b,
        ),
{
    let points = stream_writer::pending_points(w.pending@, w.pending_lengths@);
    let record = choose|record: Seq<u8>|
        {
            &&& impacts::is_record_of(record, points)
            &&& #[trigger] merge::kept_records(seq![record]) == Some(l.impacts->Some_0@)
        };
    assert(seq![record][0] == record);
    assert(l.impacts->Some_0@[0] == record);
    assert(record.len() > 0) by {
        if record.len() == 0 {
            assert forall|k: int| 0 <= k < seq![record].len() implies (
            #[trigger] seq![record][k]).len() == 0 by {}
        }
    }
    assert forall|k: int| 0 <= k < points.len() implies envelope::positive(
        #[trigger] points[k],
    ) by {}
    let h = choose|h: Seq<envelope::Point>| #[trigger]
        envelope::is_envelope(h, points) && record == impacts::record_of(h);
    merge_bound_laws::record_holds_envelope(record, points, h);
    assert(envelope::dominated(h, points[i], a, b));
}

/// What a writer finishes as has envelopes of groups that dominate those of
/// their blocks.
pub proof fn finished_groups_dominate(w: PostingStreamWriter, l: BlockPostingList)
    requires
        w.wf(),
        w.is_finished(l),
    ensures
        merge_bound_laws::groups_dominate(l),
{
    let n = w.blocks@.len() as int;
    assert forall|i: int|
        0 <= i < l.len() && #[trigger] l.envelope(l.len() + i / 8) is Some implies
        merge_bound_laws::group_dominates(l, i) by {
        let built = w.impacts->Some_0@;
        let t = l.impacts->Some_0@;
        let records = choose|records: Seq<Seq<u8>>|
            {
                &&& records.len() == n + bounds::group_count(n)
                &&& records.take(n) == built
                &&& forall|g: int|
                    0 <= g < bounds::group_count(n) ==> impact_builder::is_group_record(
                        #[trigger] records[n + g],
                        built,
                        n,
                        g,
                        None,
                    )
                &&& #[trigger] merge::kept_records(records) == Some(t)
            };
        assert(records == t);
        let g = i / 8;
        bound_laws::groups_hold_eight(n, g, i);
        assert(impact_builder::is_group_record(records[n + g], built, n, g, None));
        assert(records.take(n)[i] == records[i]);
        merge_bound_laws::group_record_dominates(records[n + g], built, n, g, i, 0, 0, 0);
        assert forall|j: int, a: nat, b: nat|
            0 <= j < l.envelope(i)->Some_0.len() implies #[trigger] envelope::dominated(
            l.envelope(l.len() + i / 8)->Some_0,
            l.envelope(i)->Some_0[j],
            a,
            b,
        ) by {
            merge_bound_laws::group_record_dominates(records[n + g], built, n, g, i, j, a, b);
        }
    }
}

/// What a writer finishes as has the ratio and the envelope that each block
/// was appended with.
pub proof fn finished_blocks_keep(
    w: PostingStreamWriter,
    l: BlockPostingList,
    i: int,
)
    requires
        w.wf(),
        w.is_finished(l),
        0 <= i < w.blocks@.len(),
    ensures
        w.has_ratios ==> l.ratios is Some && l.ratios->Some_0@[i] == w.ratios@[i]
            && ratio::magnitude(l.ratios->Some_0@[l.len() + i / 8]) <= ratio::magnitude(
            w.ratios@[i],
        ),
        w.impacts matches Some(built) ==> l.envelope(i) == (if built@[i].len() > 0 {
            Some(impacts::record_points(built@[i]))
        } else {
            None
        }),
{
    let n = w.blocks@.len() as int;
    let g = i / 8;
    bound_laws::groups_hold_eight(n, g, i);
    if w.has_ratios {
        ratio::min_ratio_holds(w.ratios@, 8 * g, bounds::group_end(n, g), i);
    }
    if w.impacts is Some {
        let built = w.impacts->Some_0@;
        let t: Option<Seq<Seq<u8>>> = match l.impacts {
            Some(t) => Some(t@),
            None => None,
        };
        let records = choose|records: Seq<Seq<u8>>|
            {
                &&& records.len() == n + bounds::group_count(n)
                &&& records.take(n) == built
                &&& forall|g: int|
                    0 <= g < bounds::group_count(n) ==> impact_builder::is_group_record(
                        #[trigger] records[n + g],
                        built,
                        n,
                        g,
                        None,
                    )
                &&& #[trigger] merge::kept_records(records) == t
            };
        assert(records.take(n)[i] == records[i]);
    }
}

/// A block is appended with the ratio and the record of its list, as far as
/// the list has them, and those of the blocks before stay.
pub proof fn append_keeps_records(
    after: PostingStreamWriter,
    w: PostingStreamWriter,
    l: BlockPostingList,
    first: u32,
    i: int,
)
    requires
        w.wf(),
        after.is_appended(w, l, first),
    ensures
        l.ratios is Some ==> after.has_ratios && after.ratios@.last() == l.ratios->Some_0@[0],
        w.has_ratios && 0 <= i < w.blocks@.len() ==> after.has_ratios && after.ratios@[i]
            == w.ratios@[i],
        l.impacts is Some ==> after.impacts is Some && after.impacts->Some_0@.last()
            == l.impacts->Some_0@[0],
        w.impacts is Some && 0 <= i < w.blocks@.len() ==> after.impacts is Some
            && after.impacts->Some_0@[i] == w.impacts->Some_0@[i],
{
}

} // verus!
