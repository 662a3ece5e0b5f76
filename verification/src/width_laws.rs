//! Widths are the least that hold their values, and what is packed is short.
use crate::batch;
use crate::bits;
use crate::block_codec;
use crate::codec;
use crate::codec::PostingCodec;
use crate::container;
use crate::encode;
use crate::gaps;
use crate::gaps::RoundedBitWidth;
use crate::list_build;
use crate::merge;
use crate::posting;
use crate::posting::Posting;
use crate::sparse_config;
use vstd::arithmetic::power2::lemma2_to64;
use vstd::arithmetic::power2::lemma_pow2_pos;
use vstd::arithmetic::power2::lemma_pow2_unfold;
use vstd::arithmetic::power2::pow2;
use vstd::bits::lemma_u64_shr_is_div;
use vstd::prelude::*;

verus! {

/// Whether all values are below a power of two.
pub open spec fn all_below(values: Seq<u32>, w: nat) -> bool {
    forall|i: int| 0 <= i < values.len() ==> (#[trigger] values[i]) < pow2(w)
}

/// The exact width of values is the least that holds them all.
pub proof fn exact_width_is_least(values: Seq<u32>, w: nat)
    ensures
        all_below(values, encode::exact_width(values)),
        encode::exact_width(values) <= 32,
        all_below(values, w) ==> encode::exact_width(values) <= w,
{
    encode::exact_width_fits(values);
    lemma_pow2_pos(w);
    if all_below(values, w) {
        if values.len() > 0 {
            encode::seq_max_member(values);
        }
        bits::bits_needed_fits(encode::seq_max(values) as nat, w);
    }
}

/// A width is rounded up to the next of none and one, two and four bytes.
pub proof fn rounded_width_is_next(w: nat, v: nat)
    requires
        w <= 32,
    ensures
        ({
            let r = encode::rounded_width(w);
            &&& r == 0 || r == 8 || r == 16 || r == 32
            &&& w <= r
            &&& (v == 0 || v == 8 || v == 16 || v == 32) && w <= v ==> r <= v
        }),
{
}

/// A fixed width is the least of its kinds that holds a value.
pub proof fn fixed_width_is_least(max: u32, w: RoundedBitWidth)
    ensures
        max < pow2((8 * gaps::width_for(max).size()) as nat),
        max < pow2((8 * w.size()) as nat) ==> gaps::width_for(max).size() <= w.size(),
{
    lemma2_to64();
}

/// The exceptions to a width are counted: those of the values that do not
/// fit.
pub proof fn exceptions_are_counted(values: Seq<u32>, w: nat, n: int)
    requires
        0 <= n <= values.len(),
    ensures
        encode::exceptions(values, w, n) == values.take(n).filter(|v: u32| v >= pow2(w)).len(),
    decreases n,
{
    reveal(Seq::filter);
    let over = |v: u32| v >= pow2(w);
    if n > 0 {
        exceptions_are_counted(values, w, n - 1);
        assert(values.take(n).drop_last() =~= values.take(n - 1));
    } else {
        assert(values.take(0).filter(over).len() == 0);
    }
}

/// The width with exceptions takes no more bytes than the exact width does,
/// but for the count of exceptions. At most a tenth of the values are
/// exceptions to it, and no width of which as much is true takes fewer bytes.
pub proof fn pfor_width_saves(values: Seq<u32>, w: u8, v: nat)
    requires
        encode::is_pfor_width(values, w),
    ensures
        encode::pfor_size(values, w as nat) <= 1 + bits::packed_len(
            values.len(),
            encode::exact_width(values),
        ),
        10 * encode::exceptions(values, w as nat, values.len() as int) <= values.len(),
        v <= 32 && 10 * encode::exceptions(values, v, values.len() as int) <= values.len()
            ==> encode::pfor_size(values, w as nat) <= encode::pfor_size(values, v),
{
    let exact = encode::exact_width(values);
    let n = values.len() as int;
    encode::exact_width_fits(values);
    none_over(values, exact, n);
    assert(encode::pfor_admissible(values, exact));
    assert(encode::pfor_admissible(values, v) <==> 10 * encode::exceptions(values, v, n) <= n);
}

proof fn none_over(values: Seq<u32>, w: nat, n: int)
    requires
        0 <= n <= values.len(),
        all_below(values, w),
    ensures
        encode::exceptions(values, w, n) == 0,
    decreases n,
{
    if n > 0 {
        none_over(values, w, n - 1);
        assert(values[n - 1] < pow2(w));
    }
}

/// A number is in a window or a bitmap of words as one of their bits: of the
/// word that it falls in, the bit with its weight.
pub proof fn member_is_bit(words: Seq<u64>, j: int)
    requires
        0 <= j < 64 * words.len(),
    ensures
        batch::member(words, j) <==> (words[j / 64] as nat / pow2((j % 64) as nat)) % 2 == 1,
        container::bit_set(words, j) <==> (words[j / 64] as nat / pow2((j % 64) as nat)) % 2 == 1,
{
    let word = words[j / 64];
    let s = (j % 64) as u64;
    lemma_u64_shr_is_div(word, s);
    let y = word >> s;
    assert(y & 1 == 1 <==> y % 2 == 1) by (bit_vector);
}

/// The sizes that count as powers of two are two to some power.
pub proof fn powers_are_of_two(n: int)
    ensures
        sparse_config::power_of_two(n) <==> exists|k: nat| n == #[trigger] pow2(k),
    decreases n,
{
    lemma2_to64();
    if sparse_config::power_of_two(n) {
        if n == 1 {
            assert(n == pow2(0));
        } else {
            powers_are_of_two(n / 2);
            let k = choose|k: nat| n / 2 == #[trigger] pow2(k);
            lemma_pow2_unfold(k + 1);
            assert(n == pow2(k + 1));
        }
    }
    assert forall|k: nat| n == #[trigger] pow2(k) implies sparse_config::power_of_two(n) by {
        power_is_of_two(k);
    }
}

proof fn power_is_of_two(k: nat)
    ensures
        sparse_config::power_of_two(pow2(k) as int),
    decreases k,
{
    lemma2_to64();
    if k > 0 {
        power_is_of_two((k - 1) as nat);
        lemma_pow2_unfold(k);
        lemma_pow2_pos((k - 1) as nat);
    }
}

/// The best width with exceptions among those from some width on.
proof fn best_width_from(values: Seq<u32>, v: int) -> (w: int)
    requires
        0 <= v <= 32,
    ensures
        v <= w <= 32,
        encode::pfor_admissible(values, w as nat),
        forall|u: nat|
            v <= u <= 32 && #[trigger] encode::pfor_admissible(values, u) ==> encode::pfor_size(
                values,
                w as nat,
            ) < encode::pfor_size(values, u) || (encode::pfor_size(values, w as nat)
                == encode::pfor_size(values, u) && w <= u),
    decreases 32 - v,
{
    if v == 32 {
        encode::no_exceptions_at_32(values, values.len() as int);
        32
    } else {
        let w = best_width_from(values, v + 1);
        if encode::pfor_admissible(values, v as nat) && encode::pfor_size(values, v as nat)
            <= encode::pfor_size(values, w as nat) {
            v
        } else {
            w
        }
    }
}

/// Values always have a best width with exceptions, and an array of them
/// takes at most four bytes each and one more.
pub proof fn arrays_are_short(c: PostingCodec, values: Seq<u32>)
    requires
        values.len() <= 128,
    ensures
        exists|w: u8| encode::is_pfor_width(values, w),
        encode::encoded_array(c, values).len() <= 1 + 4 * values.len(),
{
    let n = values.len() as int;
    let best = best_width_from(values, 0) as u8;
    assert(encode::is_pfor_width(values, best));
    encode::pfor_width_unique(values, best);
    encode::array_roundtrip(c, values, Seq::empty());
    let enc = encode::encoded_array(c, values);
    assert(enc + Seq::<u8>::empty() =~= enc);
    let w = encode::encoded_width(c, values);
    assert(enc.len() == codec::array_len(c, enc, n as nat, w));
    packed_is_short(n as nat, w as nat);
    if c == PostingCodec::Pfor {
        pfor_width_saves(values, w, 32);
        encode::exact_width_fits(values);
        packed_is_short(n as nat, encode::exact_width(values));
        encode::exceptions_bound(values, w as nat, n);
        assert(enc[0] == encode::exceptions(values, w as nat, n));
    }
}

proof fn packed_is_short(n: nat, w: nat)
    requires
        w <= 32,
    ensures
        bits::packed_len(n, w) <= 4 * n,
{
    assert(n * w <= 32 * n) by (nonlinear_arith)
        requires
            w <= 32,
    ;
}

/// A list of postings in order is built wherever its blocks, of at most four
/// bytes for each document and each frequency and ten more, end within what
/// offsets reach.
pub proof fn short_lists_are_built(s: Seq<Posting>, c: PostingCodec)
    requires
        posting::sorted(s),
        8 * s.len() + 10 * list_build::block_count(s.len() as int) <= u32::MAX,
    ensures
        !list_build::too_long(s, c),
{
    let n = s.len() as int;
    assert forall|i: int| 0 <= i < list_build::block_count(n) implies
        #[trigger] list_build::built_upto(s, c, i) <= u32::MAX by {
        built_is_short(s, c, i);
    }
}

proof fn built_is_short(s: Seq<Posting>, c: PostingCodec, i: int)
    requires
        0 <= i < list_build::block_count(s.len() as int),
    ensures
        list_build::built_upto(s, c, i) <= 8 * (128 * i) + 10 * i,
    decreases i,
{
    if i > 0 {
        built_is_short(s, c, i - 1);
        let docs = posting::doc_ids(list_build::chunk(s, i - 1));
        let tfs = posting::term_freqs(list_build::chunk(s, i - 1));
        let own = c.for_count_spec(docs.len() as int);
        arrays_are_short(own, tfs);
        arrays_are_short(own, block_codec::stored_gaps(own, docs));
    }
}

/// Blocks that end within what offsets reach are not too long to merge.
pub proof fn short_merges_fit(es: Seq<merge::Entry>, compact: bool)
    requires
        merge::merged_upto(es, es.len() as int, compact) <= u32::MAX,
    ensures
        !merge::merge_too_long(es, compact),
{
    assert forall|i: int| 0 <= i < es.len() implies #[trigger] merge::merged_upto(es, i, compact)
        <= u32::MAX by {
        merged_grows(es, i, es.len() as int, compact);
    }
}

proof fn merged_grows(es: Seq<merge::Entry>, i: int, j: int, compact: bool)
    requires
        0 <= i <= j,
    ensures
        merge::merged_upto(es, i, compact) <= merge::merged_upto(es, j, compact),
    decreases j,
{
    if i < j {
        merged_grows(es, i, j - 1, compact);
    }
}

} // verus!
