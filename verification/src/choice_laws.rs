//! What decides the format of a list: how long it is, and its share of the
//! corpus.
use crate::bits;
use crate::format::IndexOptimization;
use crate::format::PostingFormat;
use crate::ratio;
use vstd::arithmetic::power2::*;
use vstd::prelude::*;

verus! {

/// Between two powers of two a number of more than 24 bits is rounded to
/// units of which there are from `2^23` to `2^24`.
proof fn unit_of(x: nat) -> (unit: int)
    requires
        bits::bits_needed_spec(x) > 24,
    ensures
        unit == pow2((bits::bits_needed_spec(x) - 24) as nat),
        unit > 0,
        unit * 0x80_0000 == pow2((bits::bits_needed_spec(x) - 1) as nat),
        unit * 0x100_0000 == pow2(bits::bits_needed_spec(x)),
        unit * 0x80_0000 <= x < unit * 0x100_0000,
{
    let n = bits::bits_needed_spec(x);
    let unit = pow2((n - 24) as nat) as int;
    bits::bits_needed_tight(x);
    lemma_pow2_pos((n - 24) as nat);
    lemma2_to64();
    lemma_pow2_adds((n - 24) as nat, 23);
    lemma_pow2_adds((n - 24) as nat, 24);
    unit
}

/// A count is rounded by at most its part in `2^24`, and never past a power
/// of two.
proof fn rounded_close(x: nat)
    ensures
        0 <= crate::format::nearest_single(x),
        crate::format::nearest_single(x) * 0x100_0000 <= x * 0x100_0001,
        x * 0xFF_FFFF <= crate::format::nearest_single(x) * 0x100_0000,
        x > 0 ==> pow2((bits::bits_needed_spec(x) - 1) as nat) <= crate::format::nearest_single(x),
        crate::format::nearest_single(x) <= pow2(bits::bits_needed_spec(x)),
{
    let n = bits::bits_needed_spec(x);
    bits::bits_needed_tight(x);
    if n > 24 {
        let unit = unit_of(x);
        let q = x as int / unit;
        let r = x as int % unit;
        let m = ratio::nearest(x as int, unit);
        assert(x == unit * q + r && 0 <= r < unit) by (nonlinear_arith)
            requires
                q == x as int / unit,
                r == x as int % unit,
                unit > 0,
        ;
        assert(0x80_0000 <= q < 0x100_0000) by (nonlinear_arith)
            requires
                x == unit * q + r,
                0 <= r < unit,
                unit * 0x80_0000 <= x < unit * 0x100_0000,
        ;
        assert(unit * (q + 1) == unit * q + unit) by (nonlinear_arith);
        assert(unit * 0x80_0000 <= unit * q <= unit * m <= unit * 0x100_0000) by (nonlinear_arith)
            requires
                0x80_0000 <= q <= m <= 0x100_0000,
                unit > 0,
        ;
        assert(m == q || m == q + 1);
    }
}

/// Rounding keeps counts in order.
proof fn rounded_in_order(x: nat, y: nat)
    requires
        x <= y,
    ensures
        crate::format::nearest_single(x) <= crate::format::nearest_single(y),
{
    let n = bits::bits_needed_spec(x);
    let k = bits::bits_needed_spec(y);
    bits::bits_needed_tight(x);
    bits::bits_needed_tight(y);
    bits::bits_needed_fits(x, k);
    rounded_close(x);
    rounded_close(y);
    if n < k {
        if n < k - 1 {
            lemma_pow2_strictly_increases(n, (k - 1) as nat);
        }
    } else if n > 24 {
        let unit = unit_of(x);
        let p = x as int / unit;
        let q = y as int / unit;
        assert(x == unit * p + x as int % unit && 0 <= x as int % unit < unit) by (nonlinear_arith)
            requires
                p == x as int / unit,
                unit > 0,
        ;
        assert(y == unit * q + y as int % unit && 0 <= y as int % unit < unit) by (nonlinear_arith)
            requires
                q == y as int / unit,
                unit > 0,
        ;
        assert(p <= q) by (nonlinear_arith)
            requires
                x <= y,
                x == unit * p + x as int % unit,
                y == unit * q + y as int % unit,
                0 <= x as int % unit < unit,
                0 <= y as int % unit < unit,
        ;
        let a = ratio::nearest(x as int, unit);
        let b = ratio::nearest(y as int, unit);
        if p == q {
            assert(x as int % unit <= y as int % unit);
        }
        assert(a <= b);
        assert(unit * a <= unit * b) by (nonlinear_arith)
            requires
                a <= b,
                unit > 0,
        ;
    }
}

/// In the balanced mode, a list of at least 20,000 documents becomes a set
/// where they are a hundredth of the corpus or more, and does not where they
/// are less. Counts above `2^24` are rounded before they are compared, so
/// near a hundredth of so many the choice may go either way.
pub proof fn share_decides(doc_count: nat, total_docs: nat)
    requires
        doc_count >= 20_000,
    ensures
        ({
            let chosen = crate::format::chosen_format(
                doc_count,
                total_docs,
                IndexOptimization::Adaptive,
            );
            &&& total_docs <= 0x100_0000 && 100 * doc_count >= total_docs ==> chosen
                == PostingFormat::Roaring
            &&& total_docs <= 14_510_024 && 100 * doc_count < total_docs ==> chosen
                == PostingFormat::PartitionedEF
            &&& 99_999_900 * doc_count >= 1_000_000 * total_docs ==> chosen
                == PostingFormat::Roaring
            &&& 100_000_100 * doc_count <= 1_000_000 * total_docs ==> chosen
                == PostingFormat::PartitionedEF
        }),
{
    let total: nat = if total_docs == 0 {
        1
    } else {
        total_docs
    };
    rounded_close(doc_count);
    rounded_close(total);
    whole_kept(doc_count);
    whole_kept(total);
}

/// Counts of up to 24 bits are kept.
proof fn whole_kept(x: nat)
    ensures
        x <= 0x100_0000 ==> crate::format::nearest_single(x) == x,
{
    lemma2_to64();
    bits::bits_needed_fits(x, 24);
    if x == 0x100_0000 {
        bits::bits_needed_fits(x, 25);
        let unit = unit_of(x);
        assert(unit == 2);
        assert(ratio::nearest(0x100_0000, 2) == 0x80_0000);
    }
}

/// In every mode, a list at least as long as one that becomes a set does so
/// too in the same corpus, and so does the same list in a smaller corpus.
pub proof fn sets_stay_sets(
    doc_count: nat,
    longer: nat,
    total_docs: nat,
    smaller: nat,
    optimization: IndexOptimization,
)
    requires
        doc_count <= longer,
        smaller <= total_docs,
        crate::format::chosen_format(doc_count, total_docs, optimization) == PostingFormat::Roaring,
    ensures
        crate::format::chosen_format(longer, smaller, optimization) == PostingFormat::Roaring,
{
    let t: nat = if total_docs == 0 {
        1
    } else {
        total_docs
    };
    let s: nat = if smaller == 0 {
        1
    } else {
        smaller
    };
    rounded_in_order(doc_count, longer);
    rounded_in_order(s, t);
}

/// What the length of a list alone decides. Short lists are packed in every
/// mode. For speed lists from 64 documents on become sets; for size, and in
/// the balanced mode, lists below 20,000 documents never do, and for size no
/// list does.
pub proof fn length_decides(doc_count: nat, total_docs: nat)
    ensures
        forall|mode: IndexOptimization|
            doc_count < 64 ==> #[trigger] crate::format::chosen_format(doc_count, total_docs, mode)
                == PostingFormat::HorizontalBP128,
        doc_count >= 64 ==> crate::format::chosen_format(
            doc_count,
            total_docs,
            IndexOptimization::PerformanceOptimized,
        ) == PostingFormat::Roaring,
        doc_count < 20_000 ==> crate::format::chosen_format(
            doc_count,
            total_docs,
            IndexOptimization::Adaptive,
        ) == PostingFormat::HorizontalBP128,
        128 <= doc_count < 20_000 ==> crate::format::chosen_format(
            doc_count,
            total_docs,
            IndexOptimization::SizeOptimized,
        ) == PostingFormat::OptP4D,
        doc_count < 128 ==> crate::format::chosen_format(
            doc_count,
            total_docs,
            IndexOptimization::SizeOptimized,
        ) == PostingFormat::HorizontalBP128,
        doc_count >= 20_000 ==> crate::format::chosen_format(
            doc_count,
            total_docs,
            IndexOptimization::SizeOptimized,
        ) == PostingFormat::PartitionedEF,
{
}

} // verus!
