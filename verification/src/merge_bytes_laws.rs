//! A merge in memory stores the bytes that a merge of stored lists writes.
use crate::block_codec;
use crate::block::PostingBlock;
use crate::bounds;
use crate::envelope;
use crate::envelope::Point;
use crate::envelope_laws;
use crate::impact_builder;
use crate::impacts;
use crate::list;
use crate::list::BlockPostingList;
use crate::list_laws;
use crate::list_read;
use crate::merge;
use crate::merge::Entry;
use crate::restore_laws;
use vstd::prelude::*;

verus! {

/// Whether sources hold the same lists at the same offsets.
pub open spec fn same_sources(
    a: Seq<(BlockPostingList, u32)>,
    b: Seq<(BlockPostingList, u32)>,
) -> bool {
    &&& a.len() == b.len()
    &&& forall|i: int|
        0 <= i < a.len() ==> (#[trigger] a[i]).1 == b[i].1 && list_laws::same_list(a[i].0, b[i].0)
}

/// Whether entries say the same.
spec fn same_entry(a: Entry, b: Entry) -> bool {
    &&& a.source == b.source
    &&& a.index == b.index
    &&& list_laws::same_block(a.block, b.block)
    &&& a.offset == b.offset
    &&& a.packed == b.packed
    &&& a.ratio == b.ratio
    &&& a.record == b.record
    &&& a.cursor == b.cursor
}

proof fn same_ranges(a: BlockPostingList, b: BlockPostingList)
    requires
        list_laws::same_list(a, b),
    ensures
        merge::ranges(a.blocks@) == merge::ranges(b.blocks@),
{
    assert forall|i: int| 0 <= i < a.blocks@.len() implies merge::ranges(a.blocks@)[i]
        == merge::ranges(b.blocks@)[i] by {
        assert(list_laws::same_block(a.blocks@[i], b.blocks@[i]));
    }
    assert(merge::ranges(a.blocks@) =~= merge::ranges(b.blocks@));
}

/// The totals of the first `n` sources agree.
proof fn same_totals(
    a: Seq<(BlockPostingList, u32)>,
    b: Seq<(BlockPostingList, u32)>,
    n: int,
)
    requires
        same_sources(a, b),
        0 <= n <= a.len(),
    ensures
        merge::accept(a, n) == merge::accept(b, n),
        merge::largest_tf(a, n) == merge::largest_tf(b, n),
        merge::smallest_len(a, n) == merge::smallest_len(b, n),
        merge::positions_before(a, n) == merge::positions_before(b, n),
        merge::entries(a, n).len() == merge::entries(b, n).len(),
    decreases n,
{
    if n > 0 {
        same_totals(a, b, n - 1);
        assert(a[n - 1].1 == b[n - 1].1);
        same_ranges(a[n - 1].0, b[n - 1].0);
    }
}

/// An entry of a source agrees.
proof fn same_entry_of(
    a: Seq<(BlockPostingList, u32)>,
    b: Seq<(BlockPostingList, u32)>,
    s: int,
    i: int,
)
    requires
        same_sources(a, b),
        0 <= s < a.len(),
        0 <= i < a[s].0.len(),
    ensures
        same_entry(merge::entry_of(a, s, i), merge::entry_of(b, s, i)),
{
    assert(a[s].1 == b[s].1);
    same_totals(a, b, s);
    assert(list_laws::same_block(a[s].0.blocks@[i], b[s].0.blocks@[i]));
}

/// The entries of the first `n` sources agree.
proof fn same_entries(
    a: Seq<(BlockPostingList, u32)>,
    b: Seq<(BlockPostingList, u32)>,
    n: int,
    i: int,
)
    requires
        same_sources(a, b),
        0 <= n <= a.len(),
        0 <= i < merge::entries(a, n).len(),
    ensures
        merge::entries(a, n).len() == merge::entries(b, n).len(),
        same_entry(merge::entries(a, n)[i], merge::entries(b, n)[i]),
        0 <= merge::entries(a, n)[i].source < n,
    decreases n,
{
    if n > 0 {
        same_totals(a, b, n);
        same_totals(a, b, n - 1);
        let m = merge::entries(a, n - 1).len() as int;
        assert(a[n - 1].1 == b[n - 1].1);
        if i < m {
            same_entries(a, b, n - 1, i);
            assert(merge::entries(a, n)[i] == merge::entries(a, n - 1)[i]);
            assert(merge::entries(b, n)[i] == merge::entries(b, n - 1)[i]);
        } else {
            assert(merge::entries(a, n)[i] == merge::entry_of(a, n - 1, i - m));
            assert(merge::entries(b, n)[i] == merge::entry_of(b, n - 1, i - m));
            same_entry_of(a, b, n - 1, i - m);
        }
    }
}

/// What sources have is the same.
proof fn same_kinds(a: Seq<(BlockPostingList, u32)>, b: Seq<(BlockPostingList, u32)>)
    requires
        same_sources(a, b),
    ensures
        merge::any_ratios(a) == merge::any_ratios(b),
        merge::any_impacts(a) == merge::any_impacts(b),
        merge::all_cursors(a) == merge::all_cursors(b),
{
    assert forall|i: int| 0 <= i < a.len() implies (#[trigger] a[i]).0.ratios is Some
        == b[i].0.ratios is Some && a[i].0.impacts is Some == b[i].0.impacts is Some
        && a[i].0.cursors is Some == b[i].0.cursors is Some by {
        assert(list_laws::same_list(a[i].0, b[i].0));
    }
    if merge::any_ratios(a) {
        let i = choose|i: int| 0 <= i < a.len() && (#[trigger] a[i]).0.ratios is Some;
        assert(b[i].0.ratios is Some);
    }
    if merge::any_ratios(b) {
        let i = choose|i: int| 0 <= i < b.len() && (#[trigger] b[i]).0.ratios is Some;
        assert(a[i].0.ratios is Some);
    }
    if merge::any_impacts(a) {
        let i = choose|i: int| 0 <= i < a.len() && (#[trigger] a[i]).0.impacts is Some;
        assert(b[i].0.impacts is Some);
    }
    if merge::any_impacts(b) {
        let i = choose|i: int| 0 <= i < b.len() && (#[trigger] b[i]).0.impacts is Some;
        assert(a[i].0.impacts is Some);
    }
    if merge::all_cursors(a) {
        assert forall|i: int| 0 <= i < b.len() implies (#[trigger] b[i]).0.cursors is Some by {
            assert(a[i].0.cursors is Some);
        }
    }
    if merge::all_cursors(b) {
        assert forall|i: int| 0 <= i < a.len() implies (#[trigger] a[i]).0.cursors is Some by {
            assert(b[i].0.cursors is Some);
        }
    }
}

/// Points make one record.
proof fn record_unique(x: Seq<u8>, y: Seq<u8>, points: Seq<Point>)
    requires
        impacts::is_record_of(x, points),
        impacts::is_record_of(y, points),
    ensures
        x == y,
{
    if points.len() > 0 && forall|k: int|
        0 <= k < points.len() ==> envelope::positive(#[trigger] points[k]) {
        let h = choose|h: Seq<Point>| #[trigger]
            envelope::is_envelope(h, points) && x == impacts::record_of(h);
        let g = choose|g: Seq<Point>| #[trigger]
            envelope::is_envelope(g, points) && y == impacts::record_of(g);
        envelope_laws::envelope_unique(h, g, points);
    }
}

/// The envelopes of a merge are those of any merge of the same lists.
proof fn same_impacts(
    x: Option<Seq<Seq<u8>>>,
    a: Seq<(BlockPostingList, u32)>,
    y: Option<Seq<Seq<u8>>>,
    b: Seq<(BlockPostingList, u32)>,
)
    requires
        same_sources(a, b),
        merge::is_merged_impacts(x, a),
        merge::is_merged_impacts(y, b),
    ensures
        x == y,
{
    let es = merge::all_entries(a);
    let fs = merge::all_entries(b);
    let n = es.len() as int;
    same_totals(a, b, a.len() as int);
    assert forall|i: int| 0 <= i < n implies same_entry(#[trigger] es[i], fs[i]) && 0
        <= es[i].source < a.len() by {
        same_entries(a, b, a.len() as int, i);
    }
    let own = merge::entry_records(es);
    assert(own =~= merge::entry_records(fs)) by {
        assert forall|i: int| 0 <= i < n implies own[i] == merge::entry_records(fs)[i] by {
            assert(same_entry(es[i], fs[i]));
        }
    }
    let p = choose|records: Seq<Seq<u8>>|
        {
            &&& records.len() == n + bounds::group_count(n)
            &&& records.take(n) == merge::entry_records(es)
            &&& forall|g: int|
                0 <= g < bounds::group_count(n) ==> impact_builder::is_group_record(
                    #[trigger] records[n + g],
                    merge::entry_records(es),
                    n,
                    g,
                    merge::group_copy(a, es, g),
                )
            &&& #[trigger] merge::kept_records(records) == x
        };
    let q = choose|records: Seq<Seq<u8>>|
        {
            &&& records.len() == n + bounds::group_count(n)
            &&& records.take(n) == merge::entry_records(fs)
            &&& forall|g: int|
                0 <= g < bounds::group_count(n) ==> impact_builder::is_group_record(
                    #[trigger] records[n + g],
                    merge::entry_records(fs),
                    n,
                    g,
                    merge::group_copy(b, fs, g),
                )
            &&& #[trigger] merge::kept_records(records) == y
        };
    assert forall|i: int| 0 <= i < p.len() implies p[i] == q[i] by {
        if i < n {
            assert(p.take(n)[i] == p[i]);
            assert(q.take(n)[i] == q[i]);
        } else {
            let g = i - n;
            let e = es[8 * g];
            assert(impact_builder::is_group_record(
                p[n + g],
                own,
                n,
                g,
                merge::group_copy(a, es, g),
            ));
            assert(impact_builder::is_group_record(
                q[n + g],
                own,
                n,
                g,
                merge::group_copy(b, fs, g),
            ));
            assert(same_entry(es[8 * g], fs[8 * g]));
            assert(list_laws::same_list(a[e.source].0, b[e.source].0)) by {
                assert(a[e.source].1 == b[e.source].1);
            }
            assert(merge::group_copy(a, es, g) == merge::group_copy(b, fs, g));
            if merge::group_copy(a, es, g) is None {
                let from = 8 * g;
                let to = bounds::group_end(n, g);
                if !(exists|k: int| from <= k < to && (#[trigger] own[k]).len() == 0) {
                    record_unique(p[i], q[i], impact_builder::joined_points(own, from, to));
                }
            }
        }
    }
    assert(p =~= q);
}

/// Merging the same lists gives the same list.
pub proof fn merge_is_determined(
    x: BlockPostingList,
    a: Seq<(BlockPostingList, u32)>,
    y: BlockPostingList,
    b: Seq<(BlockPostingList, u32)>,
    compact: bool,
)
    requires
        same_sources(a, b),
        merge::is_merged(x, a, compact),
        merge::is_merged(y, b, compact),
    ensures
        list_laws::same_list(x, y),
{
    reveal(merge::is_merged);
    let n = a.len() as int;
    let es = merge::all_entries(a);
    let fs = merge::all_entries(b);
    same_totals(a, b, n);
    same_kinds(a, b);
    assert forall|i: int| 0 <= i < es.len() implies same_entry(#[trigger] es[i], fs[i]) by {
        same_entries(a, b, n, i);
    }
    assert forall|i: int| 0 <= i < x.blocks@.len() implies list_laws::same_block(
        #[trigger] x.blocks@[i],
        y.blocks@[i],
    ) by {
        assert(same_entry(es[i], fs[i]));
        assert(block_codec::is_rebased(x.blocks@[i], es[i].block, es[i].offset as int));
        assert(block_codec::is_rebased(y.blocks@[i], fs[i].block, fs[i].offset as int));
    }
    same_directories(x.blocks@, y.blocks@);
    assert(merge::entry_ratios(es) =~= merge::entry_ratios(fs)) by {
        assert forall|i: int| 0 <= i < es.len() implies merge::entry_ratios(es)[i]
            == merge::entry_ratios(fs)[i] by {
            assert(same_entry(es[i], fs[i]));
        }
    }
    if x.cursors is Some {
        let c = x.cursors->Some_0@;
        let d = y.cursors->Some_0@;
        assert forall|i: int| 0 <= i < c.len() implies c[i] == d[i] by {
            assert(same_entry(es[i], fs[i]));
            assert(c[i] == es[i].cursor && d[i] == fs[i].cursor);
        }
        assert(c =~= d);
    }
    if merge::any_impacts(a) {
        same_impacts(
            match x.impacts {
                Some(t) => Some(t@),
                None => None,
            },
            a,
            match y.impacts {
                Some(t) => Some(t@),
                None => None,
            },
            b,
        );
    }
}

proof fn same_directories(a: Seq<PostingBlock>, b: Seq<PostingBlock>)
    requires
        a.len() == b.len(),
        forall|i: int| 0 <= i < a.len() ==> list_laws::same_block(#[trigger] a[i], b[i]),
    ensures
        list::group_docs(a) == list::group_docs(b),
        list::bound_words(a) == list::bound_words(b),
{
    let n = a.len() as int;
    assert forall|g: int| 0 <= g < bounds::group_count(n) implies list::group_docs(a)[g]
        == list::group_docs(b)[g] by {
        let i = bounds::group_end(n, g) - 1;
        assert(0 <= i < n);
        assert(list_laws::same_block(a[i], b[i]));
    }
    assert(list::group_docs(a) =~= list::group_docs(b));
    assert forall|i: int| 0 <= i < n implies list::bound_words(a)[i] == list::bound_words(b)[i] by {
        assert(list_laws::same_block(a[i], b[i]));
    }
    assert(list::bound_words(a) =~= list::bound_words(b));
}

/// The stored sources, each in its own layout.
pub open spec fn stored_sources(sources: Seq<(BlockPostingList, u32)>) -> Seq<(Seq<u8>, u32)> {
    Seq::new(
        sources.len(),
        |i: int| (sources[i].0.stored(sources[i].0.compact_headers), sources[i].1),
    )
}

/// A merge of lists in memory, not all of which keep block headers in the
/// directory, stores the very bytes that the merge of the stored lists
/// writes. A merge without blocks is written with the flag of group bounds
/// set, which the list in memory is not stored with.
pub proof fn merges_store_the_same(
    m: BlockPostingList,
    sources: Seq<(BlockPostingList, u32)>,
    lists: Seq<(BlockPostingList, u32)>,
    streamed: BlockPostingList,
    written: Seq<u8>,
)
    requires
        forall|i: int|
            0 <= i < sources.len() ==> list_laws::storable(
                (#[trigger] sources[i]).0,
                sources[i].0.compact_headers,
            ),
        !merge::all_compact(sources),
        merge::is_merged(m, sources, false),
        merge::is_streamed(lists, streamed, stored_sources(sources), written),
    ensures
        written == m.streamed(m.compact_headers),
        m.len() > 0 ==> written == m.stored(m.compact_headers),
{
    let raws = stored_sources(sources);
    reveal(merge::are_read);
    assert(merge::all_wf(lists));
    assert forall|i: int| 0 <= i < sources.len() implies (#[trigger] sources[i]).1 == lists[i].1
        && list_laws::same_list(sources[i].0, lists[i].0) && lists[i].0.compact_headers
        == sources[i].0.compact_headers by {
        let l = sources[i].0;
        let c = l.compact_headers;
        assert(list_laws::storable(l, c));
        list_laws::stored_is_accepted(l, c);
        assert(lists[i].1 == raws[i].1);
        assert(lists[i].0.wf());
        assert(list_read::is_read(lists[i].0, l.stored(c), list_laws::written_footer(l, c)));
        list_laws::store_read_roundtrip(l, c, lists[i].0);
    }
    assert(!merge::all_compact(lists)) by {
        if merge::all_compact(lists) {
            assert forall|i: int| 0 <= i < sources.len() implies (
            #[trigger] sources[i]).0.compact_headers by {
                assert(lists[i].0.compact_headers);
            }
            assert(merge::all_compact(sources));
        }
    }
    merge_is_determined(m, sources, streamed, lists, false);
    restore_laws::same_list_same_bytes(m, streamed, false);
    reveal(merge::is_merged);
    if m.len() > 0 {
        list_laws::streamed_is_stored(m, false);
    }
}

} // verus!
