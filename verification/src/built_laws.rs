//! What a built list promises: it is read back from where it is stored, and
//! its bounds hold for every posting.
use crate::block::PostingBlock;
use crate::bounds;
use crate::codec::PostingCodec;
use crate::envelope;
use crate::impacts;
use crate::list;
use crate::list::BlockPostingList;
use crate::list_build;
use crate::list_laws;
use crate::list_read;
use crate::posting::Posting;
use crate::ratio;
use vstd::arithmetic::power2::pow2;
use vstd::prelude::*;

verus! {

/// A built list is accepted where it is stored, in either layout unless it
/// holds patched blocks, and reading it gives back the postings that it was
/// built from.
pub proof fn built_reads_back(
    l: BlockPostingList,
    s: Seq<Posting>,
    with_positions: bool,
    lengths: Option<Seq<u32>>,
    codec: PostingCodec,
    limit: Option<u32>,
    impact_bounds: bool,
    compact: bool,
    r: BlockPostingList,
)
    requires
        list_build::is_built(l, s, with_positions, lengths, codec, limit, impact_bounds),
        l.wf(),
        l.sound(),
        l@ == s,
        compact ==> list::no_pfor(l.blocks@),
        l.stored(compact).len() <= usize::MAX,
        list_read::is_read(r, l.stored(compact), list_laws::written_footer(l, compact)),
        r.wf(),
    ensures
        list_read::bytes_check(l.stored(compact)) == Ok::<_, crate::error::PostingError>(
            list_laws::written_footer(l, compact),
        ),
        r@ == s,
        r.sound(),
{
    built_is_storable(l, s, with_positions, lengths, codec, limit, impact_bounds, compact);
    list_laws::stored_is_accepted(l, compact);
    list_laws::store_read_roundtrip(l, compact, r);
}

/// A built list can be stored, in either layout unless it holds patched
/// blocks.
pub proof fn built_is_storable(
    l: BlockPostingList,
    s: Seq<Posting>,
    with_positions: bool,
    lengths: Option<Seq<u32>>,
    codec: PostingCodec,
    limit: Option<u32>,
    impact_bounds: bool,
    compact: bool,
)
    requires
        list_build::is_built(l, s, with_positions, lengths, codec, limit, impact_bounds),
        l.wf(),
        l.sound(),
        compact ==> list::no_pfor(l.blocks@),
        l.stored(compact).len() <= usize::MAX,
    ensures
        list_laws::storable(l, compact),
{
    assert forall|i: int| 0 <= i < l.len() implies (
    #[trigger] l.blocks@[i]).first_gap_is_zero() by {
        assert(l.blocks@[i].sound());
    }
    if compact {
        assert forall|i: int| 0 <= i < l.len() implies #[trigger] list::stream_upto(
            l.blocks@,
            i,
            true,
        ) <= u32::MAX by {
            compact_is_shorter(l.blocks@, i);
            assert(list::stream_upto(l.blocks@, i, false) <= u32::MAX);
        }
    }
    assert(list_laws::storable(l, compact)) by {
        if l.cursors is Some && l.len() > 0 {
            let c = l.cursors->Some_0@;
            assert(c[0] == list_build::tf_sum(s, 0));
        }
    }
}

proof fn compact_is_shorter(blocks: Seq<PostingBlock>, n: int)
    requires
        0 <= n <= blocks.len(),
    ensures
        list::stream_upto(blocks, n, true) <= list::stream_upto(blocks, n, false),
    decreases n,
{
    if n > 0 {
        compact_is_shorter(blocks, n - 1);
    }
}

/// The stored ratio of a block, and that of its group, is at most the ratio
/// of length to frequency of every posting of the block.
pub proof fn built_ratios_hold(
    l: BlockPostingList,
    s: Seq<Posting>,
    with_positions: bool,
    lengths: Option<Seq<u32>>,
    codec: PostingCodec,
    limit: Option<u32>,
    impact_bounds: bool,
    i: int,
    k: int,
)
    requires
        list_build::is_built(l, s, with_positions, lengths, codec, limit, impact_bounds),
        l.ratios is Some,
        0 <= i < l.len(),
        128 * i <= k < list_build::chunk_end(s.len() as int, i),
    ensures
        ({
            let words = l.ratios->Some_0@;
            let length = list_build::unit_length(lengths, limit, k) as int;
            let tf = s[k].term_freq as int;
            &&& ratio::ratio_at_most(words[i], length, tf)
            &&& ratio::ratio_at_most(words[l.len() + i / 8], length, tf)
        }),
{
    let words = l.ratios->Some_0@;
    let own = list_build::posting_ratios(s, lengths, limit);
    let blocks = list_build::block_ratios(s, lengths, limit);
    let n = s.len() as int;
    let end = list_build::chunk_end(n, i);
    let length = list_build::unit_length(lengths, limit, k);
    let tf = s[k].term_freq;
    ratio::lower_ratio_below(length, tf);
    ratio::min_ratio_holds(own, 128 * i, end, k);
    let j = choose|j: int|
        128 * i <= j < end && #[trigger] own[j] == ratio::min_ratio(own, 128 * i, end);
    ratio::lower_ratio_below(list_build::unit_length(lengths, limit, j), s[j].term_freq);
    assert(words[i] == blocks[i]);
    smaller_ratio(words[i], own[k], length as int, tf as int);
    let m = blocks.len() as int;
    let g = i / 8;
    assert(g < bounds::group_count(m));
    ratio::min_ratio_holds(blocks, 8 * g, bounds::group_end(m, g), i);
    assert(words[m + g] == ratio::min_ratio(blocks, 8 * g, bounds::group_end(m, g)));
    let b = choose|b: int|
        8 * g <= b < bounds::group_end(m, g) && #[trigger] blocks[b] == ratio::min_ratio(
            blocks,
            8 * g,
            bounds::group_end(m, g),
        );
    block_ratio_small(s, lengths, limit, b);
    smaller_ratio(words[m + g], own[k], length as int, tf as int);
}

proof fn block_ratio_small(
    s: Seq<Posting>,
    lengths: Option<Seq<u32>>,
    limit: Option<u32>,
    b: int,
)
    requires
        0 <= b < list_build::block_count(s.len() as int),
    ensures
        list_build::block_ratios(s, lengths, limit)[b] <= 0x7F7F_FFFF,
{
    let own = list_build::posting_ratios(s, lengths, limit);
    let end = list_build::chunk_end(s.len() as int, b);
    ratio::min_ratio_holds(own, 128 * b, end, 128 * b);
    let j = choose|j: int|
        128 * b <= j < end && #[trigger] own[j] == ratio::min_ratio(own, 128 * b, end);
    ratio::lower_ratio_below(list_build::unit_length(lengths, limit, j), s[j].term_freq);
}

/// Smaller bits are a smaller number.
pub proof fn smaller_ratio(small: u32, large: u32, a: int, b: int)
    requires
        small <= large <= 0x7F7F_FFFF,
        ratio::ratio_at_most(large, a, b),
        b >= 0,
        a >= 0,
    ensures
        ratio::ratio_at_most(small, a, b),
{
    if small != 0 {
        let e = (small / 0x80_0000) as nat;
        let f = (large / 0x80_0000) as nat;
        let x = 0x80_0000 + small % 0x80_0000;
        let y = 0x80_0000 + large % 0x80_0000;
        vstd::arithmetic::power2::lemma_pow2_pos(e);
        vstd::arithmetic::power2::lemma_pow2_pos(f);
        if e == f {
            assert(x <= y);
            assert(x * pow2(e) <= y * pow2(f)) by (nonlinear_arith)
                requires
                    x <= y,
                    pow2(e) == pow2(f),
                    pow2(e) > 0,
            ;
        } else {
            assert(e < f);
            vstd::arithmetic::power2::lemma_pow2_unfold((e + 1) as nat);
            if e + 1 < f {
                vstd::arithmetic::power2::lemma_pow2_strictly_increases((e + 1) as nat, f);
            }
            let p = pow2(e) as int;
            let q = pow2(f) as int;
            assert(2 * p <= q);
            assert(x * p <= y * q) by (nonlinear_arith)
                requires
                    x < 0x100_0000,
                    y >= 0x80_0000,
                    2 * p <= q,
                    p > 0,
            ;
        }
        let u = x * pow2(e);
        let v = y * pow2(f);
        assert(u * b <= v * b) by (nonlinear_arith)
            requires
                u <= v,
                b >= 0,
        ;
    }
}

/// A known envelope of a block keeps the least value of every linear cost of
/// its postings: for any posting some point costs no more.
pub proof fn built_envelopes_hold(
    l: BlockPostingList,
    s: Seq<Posting>,
    with_positions: bool,
    lengths: Option<Seq<u32>>,
    codec: PostingCodec,
    limit: Option<u32>,
    impact_bounds: bool,
    i: int,
    k: int,
    a: nat,
    b: nat,
)
    requires
        list_build::is_built(l, s, with_positions, lengths, codec, limit, impact_bounds),
        0 <= i < l.len(),
        l.envelope(i) is Some,
        128 * i <= k < list_build::chunk_end(s.len() as int, i),
    ensures
        envelope::dominated(
            l.envelope(i)->Some_0,
            list_build::posting_point(s, lengths, limit, k),
            a,
            b,
        ),
{
    let record = l.impacts->Some_0@[i];
    let points = list_build::chunk_points(s, lengths, limit, i);
    assert(impacts::is_record_of(record, points));
    let h = choose|h: Seq<envelope::Point>| #[trigger]
        envelope::is_envelope(h, points) && record == impacts::record_of(h);
    assert(points[k - 128 * i] == list_build::posting_point(s, lengths, limit, k));
    assert(envelope::dominated(h, points[k - 128 * i], a, b));
    assert forall|j: int| 0 <= j < h.len() implies envelope::positive(#[trigger] h[j]) by {
        assert(points.contains(h[j]));
    }
    impacts::record_roundtrip(h);
}

} // verus!
