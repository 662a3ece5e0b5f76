//! The bounds kept with blocks and groups hold of their postings, and are no
//! looser than they are stored.
use crate::bounds;
use crate::codec::PostingCodec;
use crate::encode;
use crate::list;
use crate::list::BlockPostingList;
use crate::list_build;
use crate::posting;
use crate::posting::Posting;
use vstd::arithmetic::power2::lemma2_to64;
use vstd::arithmetic::power2::lemma_pow2_adds;
use vstd::arithmetic::power2::lemma_pow2_pos;
use vstd::arithmetic::power2::lemma_pow2_strictly_increases;
use vstd::arithmetic::power2::pow2;
use vstd::prelude::*;

verus! {

/// Bounds are packed and unpacked as they were, each up to what sixteen bits
/// hold.
pub proof fn packed_bounds_are_kept(max_tf: u32, min_len: u32)
    ensures
        ({
            let (tf, len) = bounds::unpack_bounds_spec(
                bounds::pack_bounds_spec(max_tf, min_len),
                true,
            );
            &&& tf == (if max_tf <= 0xFFFF {
                max_tf
            } else {
                0xFFFF
            })
            &&& len == Some(
                if min_len <= 0xFFFF {
                    min_len
                } else {
                    0xFFFF
                },
            )
        }),
{
    let a = bounds::cap16(max_tf) as int;
    let b = bounds::cap16(min_len) as int;
    assert((a + 0x1_0000 * b) % 0x1_0000 == a && (a + 0x1_0000 * b) / 0x1_0000 == b);
}

/// Packed bounds stay as they are when they are packed again. A frequency
/// alone gets the smallest length.
pub proof fn repacked_bounds_are_kept(word: u32)
    ensures
        bounds::repacked(word, true) == word,
        bounds::unpack_bounds_spec(bounds::repacked(word, false), true) == (
            if bounds::float_floor(word) <= 0xFFFF {
                bounds::float_floor(word)
            } else {
                0xFFFF
            },
            Some(1u32),
        ),
{
    packed_bounds_are_kept(bounds::float_floor(word), 1);
    let (tf, len) = bounds::unpack_bounds_spec(word, true);
    assert(word == tf + 0x1_0000 * len->Some_0);
}

/// A number's whole part is the largest whole number that is not above it.
/// It is zero below one and where there is no number, and the largest there
/// is from there on.
pub proof fn whole_part_is_floor(word: u32)
    ensures
        ({
            let exponent = word / 0x80_0000;
            let scaled = (0x80_0000 + word % 0x80_0000) * pow2(exponent as nat);
            let r = bounds::float_floor(word);
            &&& word >= 0x8000_0000 || word > 0x7F80_0000 ==> r == 0
            &&& word <= 0x7F80_0000 && scaled < 0x1_0000_0000 * pow2(150) ==> r * pow2(150)
                <= scaled < (r + 1) * pow2(150)
            &&& word <= 0x7F80_0000 && scaled >= 0x1_0000_0000 * pow2(150) ==> r == u32::MAX
        }),
{
    let exponent = (word / 0x80_0000) as int;
    let m = (0x80_0000 + word % 0x80_0000) as int;
    lemma_pow2_pos(150);
    lemma2_to64();
    if word <= 0x7F80_0000 {
        assert((word / 0x80_0000) % 0x100 == word / 0x80_0000);
        let p = pow2(exponent as nat) as int;
        let h = pow2(150) as int;
        lemma_pow2_pos(exponent as nat);
        if exponent >= 159 {
            lemma_pow2_adds(9, 150);
            if exponent > 159 {
                lemma_pow2_strictly_increases(159, exponent as nat);
            }
            assert(m * p >= 0x1_0000_0000 * h) by (nonlinear_arith)
                requires
                    m >= 0x80_0000,
                    p >= 512 * h,
                    h > 0,
            ;
        } else if exponent >= 150 {
            let q = pow2((exponent - 150) as nat) as int;
            lemma_pow2_adds((exponent - 150) as nat, 150);
            if exponent > 150 {
                lemma_pow2_strictly_increases(0, (exponent - 150) as nat);
            }
            if exponent < 158 {
                lemma_pow2_strictly_increases((exponent - 150) as nat, 8);
            }
            assert(0 < q <= 256);
            assert(m * q < 0x1_0000_0000) by (nonlinear_arith)
                requires
                    0 < m < 0x100_0000,
                    0 < q <= 256,
            ;
            assert(0 <= m * q) by (nonlinear_arith)
                requires
                    0 < m,
                    0 < q,
            ;
            assert(m * p == (m * q) * h) by (nonlinear_arith)
                requires
                    p == q * h,
            ;
            assert((m * q) * h < (m * q + 1) * h) by (nonlinear_arith)
                requires
                    h > 0,
            ;
            assert((m * q) * h < 0x1_0000_0000 * h) by (nonlinear_arith)
                requires
                    m * q < 0x1_0000_0000,
                    h > 0,
            ;
            assert(bounds::float_floor(word) == m * q);
        } else {
            lemma_pow2_adds(exponent as nat, (150 - exponent) as nat);
            let d = pow2((150 - exponent) as nat) as int;
            lemma_pow2_pos((150 - exponent) as nat);
            let r = m / d;
            assert(0 <= r && r * d <= m < (r + 1) * d && r <= m) by (nonlinear_arith)
                requires
                    r == m / d,
                    d > 0,
                    m > 0,
            ;
            assert(r * h <= m * p < (r + 1) * h) by (nonlinear_arith)
                requires
                    r * d <= m < (r + 1) * d,
                    h == p * d,
                    p > 0,
            {
                assert(r * d * p <= m * p);
                assert(m * p < (r + 1) * d * p);
                assert(r * (p * d) == r * d * p);
                assert((r + 1) * (p * d) == (r + 1) * d * p);
            }
            assert((r + 1) * h <= 0x1_0000_0000 * h) by (nonlinear_arith)
                requires
                    0 <= r < 0x100_0000,
                    h > 0,
            ;
            if exponent < 127 {
                lemma_pow2_strictly_increases(23, (150 - exponent) as nat);
                lemma_pow2_strictly_increases(23, 24);
                if exponent < 126 {
                    lemma_pow2_strictly_increases(24, (150 - exponent) as nat);
                }
                assert(r == 0) by (nonlinear_arith)
                    requires
                        r == m / d,
                        0 < m < 0x100_0000,
                        d >= 0x100_0000,
                ;
            } else {
                assert(bounds::float_floor(word) == r);
            }
        }
    }
}

/// Blocks are in groups of eight, each in one, and only the last group may
/// have fewer.
pub proof fn groups_hold_eight(n: int, g: int, i: int)
    requires
        0 <= i < n,
        0 <= g < bounds::group_count(n),
    ensures
        8 * g < bounds::group_end(n, g) <= n,
        bounds::group_end(n, g) - 8 * g <= 8,
        g < bounds::group_count(n) - 1 ==> bounds::group_end(n, g) == 8 * g + 8,
        8 * g <= i < bounds::group_end(n, g) <==> g == i / 8,
        0 <= i / 8 < bounds::group_count(n),
{
}

/// The bounds of a group are each those of one of its blocks.
pub proof fn group_bounds_attained(words: Seq<u32>, g: int)
    requires
        0 <= g < bounds::group_count(words.len() as int),
    ensures
        ({
            let (gtf, glen) = bounds::unpack_bounds_spec(bounds::group_word(words, g), true);
            let to = bounds::group_end(words.len() as int, g);
            &&& exists|i: int|
                8 * g <= i < to && bounds::unpack_bounds_spec(#[trigger] words[i], true).0 == gtf
            &&& exists|i: int|
                8 * g <= i < to && bounds::unpack_bounds_spec(#[trigger] words[i], true).1 == glen
        }),
{
    let to = bounds::group_end(words.len() as int, g);
    tf_attained(words, 8 * g, to);
    packed_bounds_are_kept(
        bounds::group_tf(words, 8 * g, to),
        bounds::group_len(words, 8 * g, to),
    );
}

proof fn tf_attained(words: Seq<u32>, from: int, to: int)
    requires
        0 <= from < to <= words.len(),
    ensures
        bounds::group_tf(words, from, to) <= 0xFFFF,
        bounds::group_len(words, from, to) <= 0xFFFF,
        exists|i: int|
            from <= i < to && (#[trigger] words[i]) % 0x1_0000 == bounds::group_tf(words, from, to),
        exists|i: int|
            from <= i < to && (#[trigger] words[i]) / 0x1_0000 == bounds::group_len(
                words,
                from,
                to,
            ),
    decreases to - from,
{
    let tf = bounds::group_tf(words, from, to);
    let len = bounds::group_len(words, from, to);
    let last = words[to - 1];
    if to - 1 == from {
        assert(bounds::group_tf(words, from, from) == 0);
        assert(bounds::group_len(words, from, from) == u32::MAX);
        assert(last % 0x1_0000 == tf && last / 0x1_0000 == len);
    } else {
        tf_attained(words, from, to - 1);
        let i = choose|i: int|
            from <= i < to - 1 && (#[trigger] words[i]) % 0x1_0000 == bounds::group_tf(
                words,
                from,
                to - 1,
            );
        let j = choose|j: int|
            from <= j < to - 1 && (#[trigger] words[j]) / 0x1_0000 == bounds::group_len(
                words,
                from,
                to - 1,
            );
        if tf == bounds::group_tf(words, from, to - 1) {
            assert(words[i] % 0x1_0000 == tf);
        } else {
            assert(last % 0x1_0000 == tf);
        }
        if len == bounds::group_len(words, from, to - 1) {
            assert(words[j] / 0x1_0000 == len);
        } else {
            assert(last / 0x1_0000 == len);
        }
    }
}

/// A group's bounds cover those of each of its blocks.
pub proof fn group_bounds_cover(l: BlockPostingList, i: int)
    requires
        l.len_bounds,
        l.l1_bounds@ == bounds::group_words(list::bound_words(l.blocks@)),
        0 <= i < l.len(),
    ensures
        ({
            let (tf, len) = bounds::unpack_bounds_spec(l.l1_bounds@[i / 8], true);
            &&& i / 8 < l.l1_bounds@.len()
            &&& l.block_bounds_spec(i).0 <= l.unsaturated(tf)
            &&& len->Some_0 <= l.block_bounds_spec(i).1->Some_0
        }),
{
    let words = list::bound_words(l.blocks@);
    bounds::group_bounds_hold(words, i / 8, i);
    assert(words[i] == l.blocks@[i].bounds);
}

/// The last document of a group is that of its last block, and no block of
/// the group goes beyond it.
pub proof fn group_docs_cover(l: BlockPostingList, i: int)
    requires
        l.wf(),
        0 <= i < l.len(),
    ensures
        i / 8 < l.l1_docs@.len(),
        l.blocks@[i].last <= l.l1_docs@[i / 8],
        i == l.len() - 1 || i % 8 == 7 ==> l.blocks@[i].last == l.l1_docs@[i / 8],
{
    let blocks = l.blocks@;
    let end = bounds::group_end(l.len(), i / 8) - 1;
    if i < end {
        assert(blocks[end].wf());
        assert(blocks[i].last < blocks[end].first);
    }
}

/// The length that a posting counts with is the one given, but at least one
/// and at most the limit where there is one, and one where none is given.
pub proof fn lengths_are_clamped(lengths: Option<Seq<u32>>, limit: Option<u32>, k: int)
    ensures
        ({
            let unit = list_build::unit_length(lengths, limit, k);
            &&& unit >= 1
            &&& lengths is None ==> unit == 1
            &&& lengths matches Some(l) ==> {
                &&& unit == l[k] || unit == 1 || limit == Some(unit)
                &&& limit is None || l[k] <= limit->Some_0 ==> unit == l[k] || l[k] == 0
                &&& limit is Some && l[k] > limit->Some_0 ==> unit == limit->Some_0 || limit
                    == Some(0u32)
                &&& l[k] == 0 || limit == Some(0u32) ==> unit == 1
            }
        }),
{
}

/// The point of a posting is its frequency and the length that it counts
/// with, but for a length of zero, for which the frequency stands.
pub proof fn points_are_of_postings(
    s: Seq<Posting>,
    lengths: Seq<u32>,
    limit: u32,
    k: int,
)
    ensures
        ({
            let point = list_build::posting_point(s, Some(lengths), Some(limit), k);
            &&& point.0 == s[k].term_freq
            &&& lengths[k] > 0 && limit > 0 ==> point.1 == list_build::unit_length(
                Some(lengths),
                Some(limit),
                k,
            )
            &&& lengths[k] == 0 || limit == 0 ==> point.1 == s[k].term_freq
        }),
{
}

/// The least length of postings is at most that of each of them, and that of
/// one of them.
pub proof fn min_length_is_least(
    lengths: Option<Seq<u32>>,
    limit: Option<u32>,
    from: int,
    to: int,
)
    requires
        0 <= from < to,
    ensures
        forall|k: int|
            from <= k < to ==> list_build::min_length(lengths, limit, from, to)
                <= #[trigger] list_build::unit_length(lengths, limit, k),
        exists|k: int|
            from <= k < to && list_build::min_length(lengths, limit, from, to)
                == #[trigger] list_build::unit_length(lengths, limit, k),
    decreases to - from,
{
    let least = list_build::min_length(lengths, limit, from, to);
    let last = list_build::unit_length(lengths, limit, to - 1);
    if to - 1 == from {
        assert(list_build::min_length(lengths, limit, from, from) == u32::MAX);
        assert(least == last);
    } else {
        min_length_is_least(lengths, limit, from, to - 1);
        let k = choose|k: int|
            from <= k < to - 1 && list_build::min_length(lengths, limit, from, to - 1)
                == #[trigger] list_build::unit_length(lengths, limit, k);
        if least != last {
            assert(least == list_build::unit_length(lengths, limit, k));
        }
    }
}

/// The bounds of a built list are attained: a block's frequency is that of
/// one of its postings, unless sixteen bits do not hold that, and its length
/// is that of one of its postings, as far as sixteen bits hold it. The list's
/// own bounds are attained as they are.
pub proof fn built_bounds_attained(
    l: BlockPostingList,
    s: Seq<Posting>,
    with_positions: bool,
    lengths: Option<Seq<u32>>,
    codec: PostingCodec,
    limit: Option<u32>,
    impact_bounds: bool,
    i: int,
)
    requires
        list_build::is_built(l, s, with_positions, lengths, codec, limit, impact_bounds),
        0 <= i < l.len(),
    ensures
        exists|k: int|
            128 * i <= k < s.len() && k < 128 * i + 128 && {
                ||| (#[trigger] s[k]).term_freq == l.block_bounds_spec(i).0
                ||| s[k].term_freq >= 0xFFFF && l.block_bounds_spec(i).0 == l.max_tf
            },
        exists|k: int|
            128 * i <= k < s.len() && k < 128 * i + 128 && {
                let unit = #[trigger] list_build::unit_length(lengths, limit, k);
                l.block_bounds_spec(i).1 == Some(
                    if unit <= 0xFFFF {
                        unit
                    } else {
                        0xFFFF
                    },
                )
            },
        exists|k: int| 0 <= k < s.len() && (#[trigger] s[k]).term_freq == l.max_tf,
        exists|k: int|
            0 <= k < s.len() && #[trigger] list_build::unit_length(lengths, limit, k)
                == l.min_len,
        forall|k: int|
            0 <= k < s.len() ==> l.min_len <= #[trigger] list_build::unit_length(
                lengths,
                limit,
                k,
            ),
{
    let n = s.len() as int;
    let end = list_build::chunk_end(n, i);
    let b = l.blocks@[i];
    assert(list_build::is_built_block(b, s, lengths, limit, codec, i));
    let tfs = posting::term_freqs(list_build::chunk(s, i));
    let all = posting::term_freqs(s);
    encode::seq_max_member(tfs);
    encode::seq_max_member(all);
    let j = choose|j: int| 0 <= j < tfs.len() && tfs[j] == encode::seq_max(tfs);
    let top = choose|j: int| 0 <= j < all.len() && all[j] == encode::seq_max(all);
    assert(s[128 * i + j].term_freq == tfs[j]);
    assert(s[top].term_freq == l.max_tf);
    encode::seq_max_bound(all, 128 * i + j);
    min_length_is_least(lengths, limit, 128 * i, end);
    min_length_is_least(lengths, limit, 0, n);
    let least = list_build::min_length(lengths, limit, 128 * i, end);
    packed_bounds_are_kept(encode::seq_max(tfs), least);
    let k = choose|k: int|
        128 * i <= k < end && least == #[trigger] list_build::unit_length(lengths, limit, k);
    assert(list_build::unit_length(lengths, limit, k) == least);
}

} // verus!
