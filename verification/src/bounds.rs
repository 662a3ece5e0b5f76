//! Score bounds of blocks and groups of blocks.
use crate::bits;
use vstd::arithmetic::power2::*;
use vstd::prelude::*;

verus! {

/// Blocks per group.
pub const L1_INTERVAL: usize = 8;

/// The bounds word: both values saturate at 16 bits.
pub open spec fn pack_bounds_spec(max_tf: u32, min_len: u32) -> u32 {
    (cap16(max_tf) + 0x1_0000 * cap16(min_len)) as u32
}

/// A value saturated at 16 bits.
pub open spec fn cap16(x: u32) -> u32 {
    if x > 0xFFFF {
        0xFFFF
    } else {
        x
    }
}

/// Pack a block's largest frequency and smallest length into one word.
pub fn pack_bounds(max_tf: u32, min_len: u32) -> (r: u32)
    ensures
        r == pack_bounds_spec(max_tf, min_len),
{
    let lo: u32 = if max_tf > 0xFFFF {
        0xFFFF
    } else {
        max_tf
    };
    let hi: u32 = if min_len > 0xFFFF {
        0xFFFF
    } else {
        min_len
    };
    lo + 0x1_0000 * hi
}

/// The whole part of the single-precision number with these bits, saturated
/// to the range of a `u32`; not-a-number gives zero.
pub open spec fn float_floor(word: u32) -> u32 {
    let exponent = (word / 0x80_0000) % 0x100;
    let mantissa = 0x80_0000 + word % 0x80_0000;
    if word >= 0x8000_0000 || exponent < 127 || (exponent == 255 && word % 0x80_0000 != 0) {
        0
    } else if exponent >= 159 {
        u32::MAX
    } else if exponent >= 150 {
        (mantissa * pow2((exponent - 150) as nat)) as u32
    } else {
        (mantissa as nat / pow2((150 - exponent) as nat)) as u32
    }
}

/// The whole part of the single-precision number with these bits.
pub fn float_to_u32(word: u32) -> (r: u32)
    ensures
        r == float_floor(word),
{
    let exponent: u32 = (word / 0x80_0000) % 0x100;
    let mantissa: u32 = 0x80_0000 + word % 0x80_0000;
    if word >= 0x8000_0000 || exponent < 127 || (exponent == 255 && word % 0x80_0000 != 0) {
        0
    } else if exponent >= 159 {
        u32::MAX
    } else if exponent >= 150 {
        let p: u64 = crate::codec::power((exponent - 150) as u8);
        proof {
            lemma2_to64();
            if exponent < 158 {
                lemma_pow2_strictly_increases((exponent - 150) as nat, 8);
            }
            assert(mantissa * p <= 0xFF_FFFF * 256) by (nonlinear_arith)
                requires
                    mantissa <= 0xFF_FFFF,
                    p <= 256,
            ;
        }
        (mantissa as u64 * p) as u32
    } else {
        let p: u64 = crate::codec::power((150 - exponent) as u8);
        proof {
            assert(mantissa as u64 / p <= mantissa) by (nonlinear_arith)
                requires
                    p > 0,
            ;
        }
        (mantissa as u64 / p) as u32
    }
}

/// What a bounds word says: the largest frequency and, in packed words, the
/// smallest length. Older words hold the frequency as a float.
pub open spec fn unpack_bounds_spec(word: u32, packed: bool) -> (u32, Option<u32>) {
    if packed {
        ((word % 0x1_0000) as u32, Some((word / 0x1_0000) as u32))
    } else {
        (float_floor(word), None)
    }
}

/// Unpack a bounds word.
pub fn unpack_bounds(word: u32, packed: bool) -> (r: (u32, Option<u32>))
    ensures
        r == unpack_bounds_spec(word, packed),
{
    if packed {
        (word % 0x1_0000, Some(word / 0x1_0000))
    } else {
        (float_to_u32(word), None)
    }
}

/// The bounds word of a block once it stands in a list with packed words.
pub open spec fn repacked(word: u32, packed: bool) -> u32 {
    let (tf, len) = unpack_bounds_spec(word, packed);
    pack_bounds_spec(
        tf,
        match len {
            Some(l) => l,
            None => 1,
        },
    )
}

/// The bounds word of a block once it stands in a list with packed words.
pub fn repack(word: u32, packed: bool) -> (r: u32)
    ensures
        r == repacked(word, packed),
{
    let (tf, len): (u32, Option<u32>) = unpack_bounds(word, packed);
    let l: u32 = match len {
        Some(l) => l,
        None => 1,
    };
    pack_bounds(tf, l)
}

/// Packing keeps an upper bound on the frequency and a lower bound on the
/// length: the frequency is exact unless it saturates, the length is never
/// above the true one.
pub proof fn packed_bounds_hold(max_tf: u32, min_len: u32)
    ensures
        ({
            let (tf, len) = unpack_bounds_spec(pack_bounds_spec(max_tf, min_len), true);
            &&& tf == max_tf || (tf == 0xFFFF && max_tf > 0xFFFF)
            &&& len is Some && len->Some_0 <= min_len
        }),
{
}

/// Number of groups of `n` blocks.
pub open spec fn group_count(n: int) -> int {
    (n + 7) / 8
}

/// One past the last block of group `g`.
pub open spec fn group_end(n: int, g: int) -> int {
    if 8 * g + 8 < n {
        8 * g + 8
    } else {
        n
    }
}

/// Largest frequency over the words from `from` up to `to`.
pub open spec fn group_tf(words: Seq<u32>, from: int, to: int) -> u32
    decreases to - from,
{
    if to <= from {
        0
    } else if words[to - 1] % 0x1_0000 > group_tf(words, from, to - 1) {
        (words[to - 1] % 0x1_0000) as u32
    } else {
        group_tf(words, from, to - 1)
    }
}

/// Smallest length over the words from `from` up to `to`.
pub open spec fn group_len(words: Seq<u32>, from: int, to: int) -> u32
    decreases to - from,
{
    if to <= from {
        u32::MAX
    } else if words[to - 1] / 0x1_0000 < group_len(words, from, to - 1) {
        (words[to - 1] / 0x1_0000) as u32
    } else {
        group_len(words, from, to - 1)
    }
}

/// The bounds word of group `g`.
pub open spec fn group_word(words: Seq<u32>, g: int) -> u32 {
    pack_bounds_spec(
        group_tf(words, 8 * g, group_end(words.len() as int, g)),
        group_len(words, 8 * g, group_end(words.len() as int, g)),
    )
}

/// The bounds words of all groups.
pub open spec fn group_words(words: Seq<u32>) -> Seq<u32> {
    Seq::new(group_count(words.len() as int) as nat, |g: int| group_word(words, g))
}

/// A group's bounds hold for each of its blocks.
pub proof fn group_bounds_hold(words: Seq<u32>, g: int, i: int)
    requires
        0 <= g,
        8 * g <= i < group_end(words.len() as int, g),
        i < words.len(),
    ensures
        ({
            let (gtf, glen) = unpack_bounds_spec(group_word(words, g), true);
            let (tf, len) = unpack_bounds_spec(words[i], true);
            tf <= gtf && glen->Some_0 <= len->Some_0
        }),
{
    let end = group_end(words.len() as int, g);
    group_member(words, 8 * g, end, i);
}

proof fn group_member(words: Seq<u32>, from: int, to: int, i: int)
    requires
        from <= i < to,
    ensures
        words[i] % 0x1_0000 <= group_tf(words, from, to) <= 0xFFFF,
        group_len(words, from, to) <= words[i] / 0x1_0000,
    decreases to - from,
{
    if i < to - 1 {
        group_member(words, from, to - 1, i);
    } else {
        group_tf_bound(words, from, to);
    }
}

proof fn group_tf_bound(words: Seq<u32>, from: int, to: int)
    ensures
        group_tf(words, from, to) <= 0xFFFF,
    decreases to - from,
{
    if from < to {
        group_tf_bound(words, from, to - 1);
    }
}

/// The bounds words of all groups of eight blocks.
pub fn group_bounds_from_l0(words: &[u32]) -> (r: Vec<u32>)
    ensures
        r@ == group_words(words@),
{
    let n: usize = words.len();
    let mut groups: Vec<u32> = Vec::new();
    let mut idx: usize = 0;
    while idx < n
        invariant
            idx <= n,
            n == words.len(),
            idx == n || idx == 8 * groups.len(),
            groups.len() == group_count(idx as int),
            forall|g: int| 0 <= g < groups.len() ==> #[trigger] groups@[g] == group_word(words@, g),
        decreases n - idx,
    {
        let end: usize = if n - idx > 8 {
            idx + 8
        } else {
            n
        };
        let ghost g = groups.len() as int;
        let mut tf: u32 = 0;
        let mut len: u32 = u32::MAX;
        let mut i: usize = idx;
        while i < end
            invariant
                idx <= i <= end <= n,
                n == words.len(),
                tf == group_tf(words@, idx as int, i as int),
                len == group_len(words@, idx as int, i as int),
            decreases end - i,
        {
            let word: u32 = words[i];
            if word % 0x1_0000 > tf {
                tf = word % 0x1_0000;
            }
            if word / 0x1_0000 < len {
                len = word / 0x1_0000;
            }
            i += 1;
        }
        groups.push(pack_bounds(tf, len));
        proof {
            assert(end == group_end(n as int, g));
            assert(groups@[g] == group_word(words@, g));
        }
        idx = end;
    }
    proof {
        assert(groups@ =~= group_words(words@));
    }
    groups
}

} // verus!
