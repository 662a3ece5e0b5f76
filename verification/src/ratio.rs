//! Length-to-frequency ratios, kept as the bits of single-precision numbers.
use crate::bits;
use crate::bounds;
use vstd::arithmetic::power2::*;
use vstd::prelude::*;

verus! {

/// The whole number nearest to `n / d`; halves go to the even one.
pub open spec fn nearest(n: int, d: int) -> int {
    let q = n / d;
    let r = n % d;
    if 2 * r < d || (2 * r == d && q % 2 == 0) {
        q
    } else {
        q + 1
    }
}

/// Binary exponent of `a / b`, counted from `2^-32`.
pub open spec fn ratio_exponent(a: int, b: int) -> int {
    bits::bits_needed_spec((a * 0x1_0000_0000 / b) as nat) - 1
}

/// `a / b` rounded to 53 bits and then to 24.
pub open spec fn ratio_mantissa(a: int, b: int) -> int {
    nearest(
        nearest(a * pow2((84 - ratio_exponent(a, b)) as nat), b),
        0x2000_0000,
    )
}

/// Bits of the single-precision number just below the rounded quotient
/// `length / tf`; zero if either is zero.
pub open spec fn lower_ratio(length: u32, tf: u32) -> u32 {
    if tf == 0 || length == 0 {
        0
    } else {
        ((ratio_exponent(length as int, tf as int) + 95) * 0x80_0000 + ratio_mantissa(
            length as int,
            tf as int,
        ) - 0x80_0000 - 1) as u32
    }
}

/// Whether the number with these bits, a positive normal one or zero, is at
/// most `a / b`.
pub open spec fn ratio_at_most(word: u32, a: int, b: int) -> bool {
    word == 0 || (0x80_0000 + word % 0x80_0000) * pow2((word / 0x80_0000) as nat) * b <= a * pow2(
        150,
    )
}

/// Whether ratio bits are a finite number that is not below zero.
pub open spec fn ratio_ok(word: u32) -> bool {
    word <= 0x7F7F_FFFF || word == 0x8000_0000
}

/// The sizes that rounding keeps to.
proof fn exponent_range(a: int, b: int)
    requires
        0 < a <= u32::MAX,
        0 < b <= u32::MAX,
    ensures
        0 <= ratio_exponent(a, b) <= 63,
        b * pow2(ratio_exponent(a, b) as nat) <= a * 0x1_0000_0000,
        a * 0x1_0000_0000 < b * pow2((ratio_exponent(a, b) + 1) as nat),
{
    let n = a * 0x1_0000_0000;
    let q = n / b;
    assert(1 <= q < 0x1_0000_0000_0000_0000) by (nonlinear_arith)
        requires
            n == a * 0x1_0000_0000,
            0 < a <= 0xFFFF_FFFF,
            0 < b <= 0xFFFF_FFFF,
            q == n / b,
    ;
    assert(b * q <= n < b * (q + 1)) by (nonlinear_arith)
        requires
            b > 0,
            q == n / b,
    ;
    bits::bits_needed_tight(q as nat);
    lemma2_to64();
    lemma2_to64_rest();
    bits::bits_needed_fits(q as nat, 64);
    let k = ratio_exponent(a, b);
    let lo = pow2(k as nat) as int;
    let hi = pow2((k + 1) as nat) as int;
    assert(b * lo <= b * q) by (nonlinear_arith)
        requires
            lo <= q,
            b > 0,
    ;
    assert(b * (q + 1) <= b * hi) by (nonlinear_arith)
        requires
            q + 1 <= hi,
            b > 0,
    ;
}

/// Rounding moves by at most a half.
proof fn nearest_close(n: int, d: int)
    requires
        0 < d,
        0 <= n,
    ensures
        2 * d * nearest(n, d) <= 2 * n + d,
        2 * n - d <= 2 * d * nearest(n, d),
{
    let q = n / d;
    let r = n % d;
    assert(n == d * q + r && 0 <= r < d) by (nonlinear_arith)
        requires
            d > 0,
            q == n / d,
            r == n % d,
    ;
    let m = nearest(n, d);
    assert(2 * d * q == 2 * (d * q)) by (nonlinear_arith);
    assert(2 * d * (q + 1) == 2 * (d * q) + 2 * d) by (nonlinear_arith);
}

/// The 53-bit and the 24-bit mantissa are in range.
proof fn mantissa_range(a: int, b: int)
    requires
        0 < a <= u32::MAX,
        0 < b <= u32::MAX,
    ensures
        ({
            let k = ratio_exponent(a, b);
            let n = a * pow2((84 - k) as nat);
            let m = nearest(n, b);
            &&& b * 0x10_0000_0000_0000 <= n < b * 0x20_0000_0000_0000
            &&& 0x10_0000_0000_0000 <= m <= 0x20_0000_0000_0000
            &&& 0x80_0000 <= ratio_mantissa(a, b) <= 0x100_0000
        }),
{
    exponent_range(a, b);
    let k = ratio_exponent(a, b);
    let n = a * pow2((84 - k) as nat);
    lemma2_to64();
    lemma2_to64_rest();
    let p = pow2(k as nat) as int;
    let s = pow2((84 - k) as nat) as int;
    lemma_pow2_adds(k as nat, (84 - k) as nat);
    lemma_pow2_adds(32, 52);
    lemma_pow2_unfold((k + 1) as nat);
    lemma_pow2_pos(k as nat);
    lemma_pow2_pos((84 - k) as nat);
    assert(p * s == 0x1_0000_0000 * 0x10_0000_0000_0000);
    assert(b * 0x10_0000_0000_0000 <= a * s) by (nonlinear_arith)
        requires
            b * p <= a * 0x1_0000_0000,
            p * s == 0x1_0000_0000 * 0x10_0000_0000_0000,
            s > 0,
            p > 0,
    {
        assert((b * p) * s <= (a * 0x1_0000_0000) * s);
        assert((b * p) * s == b * (p * s));
        assert(b * (p * s) == 0x1_0000_0000 * (b * 0x10_0000_0000_0000));
        assert((a * 0x1_0000_0000) * s == 0x1_0000_0000 * (a * s));
    }
    assert(a * s < b * 0x20_0000_0000_0000) by (nonlinear_arith)
        requires
            a * 0x1_0000_0000 < b * (2 * p),
            p * s == 0x1_0000_0000 * 0x10_0000_0000_0000,
            s > 0,
            p > 0,
    {
        assert((a * 0x1_0000_0000) * s < (b * (2 * p)) * s);
        assert((b * (2 * p)) * s == 2 * (b * (p * s)));
        assert(2 * (b * (p * s)) == 0x1_0000_0000 * (b * 0x20_0000_0000_0000));
        assert((a * 0x1_0000_0000) * s == 0x1_0000_0000 * (a * s));
    }
    let m = nearest(n, b);
    nearest_close(n, b);
    assert(0x10_0000_0000_0000 <= n / b < 0x20_0000_0000_0000) by (nonlinear_arith)
        requires
            b * 0x10_0000_0000_0000 <= n < b * 0x20_0000_0000_0000,
            b > 0,
    ;
}

/// The number two after a ratio exceeds the quotient that the ratio stands
/// for.
pub proof fn lower_ratio_is_close(length: u32, tf: u32)
    requires
        0 < length,
        0 < tf,
    ensures
        !ratio_at_most((lower_ratio(length, tf) + 2) as u32, length as int, tf as int),
{
    let a = length as int;
    let b = tf as int;
    lower_ratio_below(length, tf);
    mantissa_range(a, b);
    exponent_range(a, b);
    let k = ratio_exponent(a, b);
    let n = a * pow2((84 - k) as nat);
    let m = nearest(n, b);
    let c = ratio_mantissa(a, b);
    nearest_close(n, b);
    nearest_close(m, 0x2000_0000);
    assert((c + 1) * 0x2000_0000 * b > n) by (nonlinear_arith)
        requires
            b > 0,
            2 * n <= 2 * b * m + b,
            2 * m <= 2 * 0x2000_0000 * c + 0x2000_0000,
    {
        assert(b * (2 * m) <= b * (2 * 0x2000_0000 * c + 0x2000_0000));
        assert(b * (2 * 0x2000_0000 * c + 0x2000_0000) == 2 * ((c + 1) * 0x2000_0000 * b) - b
            * 0x2000_0000);
    }
    let word = (lower_ratio(length, tf) + 2) as u32;
    let man = 0x80_0000 + word % 0x80_0000;
    let exp = (word / 0x80_0000) as int;
    lemma2_to64();
    lemma2_to64_rest();
    let s = pow2((84 - k) as nat) as int;
    let e = pow2((k + 95) as nat) as int;
    let h = pow2(150) as int;
    lemma_pow2_adds((k + 95) as nat, (84 - k) as nat);
    lemma_pow2_adds(29, 150);
    lemma_pow2_pos((k + 95) as nat);
    lemma_pow2_unfold((k + 96) as nat);
    assert(e * s == 0x2000_0000 * h);
    assert((c + 1) * e * b > a * h) by (nonlinear_arith)
        requires
            (c + 1) * 0x2000_0000 * b > a * s,
            e * s == 0x2000_0000 * h,
            e > 0,
    {
        assert((c + 1) * 0x2000_0000 * b * e > a * s * e);
        assert(a * s * e == a * (e * s));
        assert(a * (0x2000_0000 * h) == 0x2000_0000 * (a * h));
        assert((c + 1) * 0x2000_0000 * b * e == 0x2000_0000 * ((c + 1) * e * b));
    }
    let top = pow2(exp as nat) as int;
    if c + 1 < 0x100_0000 {
        assert(word == (k + 95) * 0x80_0000 + (c + 1 - 0x80_0000));
        assert(exp == k + 95 && man == c + 1);
    } else {
        assert(word == (k + 96) * 0x80_0000 + (c + 1 - 0x100_0000));
        assert(exp == k + 96 && 2 * man >= c + 1);
        assert(top == 2 * e);
        assert(man * top * b >= (c + 1) * e * b) by (nonlinear_arith)
            requires
                2 * man >= c + 1,
                top == 2 * e,
                e > 0,
                b > 0,
        {
            assert(man * top == (2 * man) * e);
            assert((2 * man) * e >= (c + 1) * e);
            assert((2 * man) * e * b >= (c + 1) * e * b);
        }
    }
}

/// A ratio never exceeds the quotient it stands for.
pub proof fn lower_ratio_below(length: u32, tf: u32)
    ensures
        ratio_at_most(lower_ratio(length, tf), length as int, tf as int),
        lower_ratio(length, tf) <= 0x7F7F_FFFF,
{
    if tf != 0 && length != 0 {
        let a = length as int;
        let b = tf as int;
        mantissa_range(a, b);
        exponent_range(a, b);
        let k = ratio_exponent(a, b);
        let n = a * pow2((84 - k) as nat);
        let m = nearest(n, b);
        let c = ratio_mantissa(a, b);
        nearest_close(n, b);
        nearest_close(m, 0x2000_0000);
        let word = lower_ratio(length, tf);
        // Twice the decremented mantissa, in units of the undecremented one.
        let d: int = if c == 0x80_0000 {
            0xFF_FFFF
        } else {
            2 * (c - 1)
        };
        assert(b * (d * 0x2000_0000) <= 2 * n) by (nonlinear_arith)
            requires
                b > 0,
                2 * b * m <= 2 * n + b,
                b * 0x10_0000_0000_0000 <= n,
                2 * 0x2000_0000 * c <= 2 * m + 0x2000_0000,
                d == (if c == 0x80_0000 {
                    0xFF_FFFF
                } else {
                    2 * (c - 1)
                }),
        {
            if c == 0x80_0000 {
                assert(b * (0xFF_FFFF * 0x2000_0000) <= 2 * (b * 0x10_0000_0000_0000));
            } else {
                assert(d * 0x2000_0000 <= 2 * m - 0x2000_0000);
                assert(b * (d * 0x2000_0000) <= b * (2 * m - 0x2000_0000));
                assert(b * (2 * m - 0x2000_0000) == 2 * b * m - b * 0x2000_0000);
            }
        }
        let man = 0x80_0000 + word % 0x80_0000;
        let exp = (word / 0x80_0000) as int;
        lemma_pow2_pos((84 - k) as nat);
        lemma_pow2_pos(150);
        let s = pow2((84 - k) as nat) as int;
        lemma2_to64();
        lemma2_to64_rest();
        if c == 0x80_0000 {
            assert(word == (k + 94) * 0x80_0000 + 0x7F_FFFF);
            assert(exp == k + 94 && man == d);
            lemma_pow2_adds((k + 94) as nat, (84 - k) as nat);
            lemma_pow2_adds(28, 150);
            let e = pow2((k + 94) as nat) as int;
            assert(e * s == 0x1000_0000 * pow2(150));
            scale_down(b, d, e, s, a, 0x1000_0000, pow2(150) as int, 1);
        } else if c == 0x100_0000 {
            assert(word == (k + 95) * 0x80_0000 + 0x7F_FFFF);
            assert(exp == k + 95 && 2 * man == d);
            lemma_pow2_adds((k + 95) as nat, (84 - k) as nat);
            lemma_pow2_adds(29, 150);
            let e = pow2((k + 95) as nat) as int;
            scale_down(b, man, e, s, a, 0x2000_0000, pow2(150) as int, 2);
        } else {
            assert(word == (k + 95) * 0x80_0000 + (c - 1 - 0x80_0000));
            assert(exp == k + 95 && 2 * man == d);
            lemma_pow2_adds((k + 95) as nat, (84 - k) as nat);
            lemma_pow2_adds(29, 150);
            let e = pow2((k + 95) as nat) as int;
            scale_down(b, man, e, s, a, 0x2000_0000, pow2(150) as int, 2);
        }
    }
}

proof fn scale_down(b: int, man: int, e: int, s: int, a: int, u: int, z: int, half: int)
    requires
        s > 0,
        e * s == u * z,
        z > 0,
        u > 0,
        half == 1 || half == 2,
        u == 0x1000_0000 * half,
        b * ((half * man) * 0x2000_0000) <= 2 * (a * s),
    ensures
        man * e * b <= a * z,
{
    assert(man * e * b <= a * z) by (nonlinear_arith)
        requires
            s > 0,
            e * s == u * z,
            z > 0,
            half == 1 || half == 2,
            u == 0x1000_0000 * half,
            b * ((half * man) * 0x2000_0000) <= 2 * (a * s),
    {
        assert(b * man * u <= a * s) by {
            if half == 1 {
                assert(b * (man * 0x2000_0000) == 2 * (b * man * 0x1000_0000));
            } else {
                assert(b * ((2 * man) * 0x2000_0000) == 2 * (b * man * 0x2000_0000));
            }
        }
        assert((b * man * u) * z <= (a * s) * z);
        assert((b * man * u) * z == (b * man) * (u * z));
        assert((b * man) * (e * s) == (man * e * b) * s);
        assert((a * s) * z == (a * z) * s);
        if man * e * b > a * z {
            assert((man * e * b) * s > (a * z) * s);
        }
    }
}

/// `nearest` for machine numbers.
fn nearest_u128(n: u128, d: u128) -> (r: u128)
    requires
        0 < d <= 0xFFFF_FFFF,
        n < 0x1_0000_0000_0000_0000_0000_0000_0000_0000,
    ensures
        r == nearest(n as int, d as int),
{
    let q: u128 = n / d;
    let r: u128 = n % d;
    if 2 * r < d || (2 * r == d && q % 2 == 0) {
        q
    } else {
        proof {
            assert(q < 0xFFFF_FFFF_FFFF_FFFF_FFFF_FFFF_FFFF_FFFF) by (nonlinear_arith)
                requires
                    q == n / d,
                    r == n % d,
                    d > 0,
                    2 * r >= d,
                    n <= 0xFFFF_FFFF_FFFF_FFFF_FFFF_FFFF_FFFF_FFFF,
            ;
        }
        q + 1
    }
}

/// Bits of the single-precision number just below `length / tf`.
pub fn lower_length_ratio(length: u32, tf: u32) -> (r: u32)
    ensures
        r == lower_ratio(length, tf),
        ratio_at_most(r, length as int, tf as int),
        r <= 0x7F7F_FFFF,
{
    proof {
        lower_ratio_below(length, tf);
    }
    if tf == 0 || length == 0 {
        return 0;
    }
    let ghost a = length as int;
    let ghost b = tf as int;
    proof {
        exponent_range(a, b);
        mantissa_range(a, b);
        lemma2_to64();
        lemma2_to64_rest();
    }
    let q: u128 = (length as u128 * 0x1_0000_0000) / (tf as u128);
    let mut rest: u128 = q;
    let mut k: u32 = 0;
    // The shift grows as the exponent shrinks.
    while rest > 1
        invariant
            rest >= 1,
            bits::bits_needed_spec(q as nat) == k + bits::bits_needed_spec(rest as nat),
            bits::bits_needed_spec(q as nat) <= 64,
        decreases rest,
    {
        proof {
            bits::bits_needed_tight((rest / 2) as nat);
        }
        rest = rest / 2;
        k += 1;
    }
    proof {
        assert(bits::bits_needed_spec(1) == 1 + bits::bits_needed_spec(0));
        assert(k == ratio_exponent(a, b));
    }
    let mut n: u128 = length as u128;
    let shift: u32 = 84 - k;
    let mut i: u32 = 0;
    while i < shift
        invariant
            i <= shift,
            shift == 84 - k,
            n == a * pow2(i as nat),
            a * pow2(shift as nat) < b * 0x20_0000_0000_0000,
            0 < a,
            0 < b <= u32::MAX,
        decreases shift - i,
    {
        proof {
            lemma_pow2_unfold((i + 1) as nat);
            if i + 1 < shift {
                lemma_pow2_strictly_increases((i + 1) as nat, shift as nat);
            }
            let lo = pow2((i + 1) as nat) as int;
            let hi = pow2(shift as nat) as int;
            let half = pow2(i as nat) as int;
            assert(a * lo <= a * hi) by (nonlinear_arith)
                requires
                    lo <= hi,
                    a > 0,
            ;
            assert(a * lo == 2 * (a * half)) by (nonlinear_arith)
                requires
                    lo == 2 * half,
            ;
        }
        n = n * 2;
        i += 1;
    }
    let m: u128 = nearest_u128(n, tf as u128);
    let c: u128 = nearest_u128(m, 0x2000_0000);
    (((k as u128 + 95) * 0x80_0000 + c) - 0x80_0000 - 1) as u32
}

/// Size of a ratio, without its sign.
pub open spec fn magnitude(word: u32) -> u32 {
    (word % 0x8000_0000) as u32
}

/// The smallest of the ratios from `from` up to `to`, the first of equals.
pub open spec fn min_ratio(words: Seq<u32>, from: int, to: int) -> u32
    decreases to - from,
{
    if to <= from + 1 {
        words[from]
    } else if magnitude(words[to - 1]) < magnitude(min_ratio(words, from, to - 1)) {
        words[to - 1]
    } else {
        min_ratio(words, from, to - 1)
    }
}

/// The smallest ratio is one of them and below none of them.
pub proof fn min_ratio_holds(words: Seq<u32>, from: int, to: int, i: int)
    requires
        from <= i < to,
    ensures
        magnitude(min_ratio(words, from, to)) <= magnitude(words[i]),
        exists|j: int| from <= j < to && #[trigger] words[j] == min_ratio(words, from, to),
    decreases to - from,
{
    if to <= from + 1 {
        assert(words[from] == min_ratio(words, from, to));
    } else {
        if i < to - 1 {
            min_ratio_holds(words, from, to - 1, i);
        } else {
            min_ratio_holds(words, from, to - 1, from);
        }
        if magnitude(words[to - 1]) < magnitude(min_ratio(words, from, to - 1)) {
            assert(words[to - 1] == min_ratio(words, from, to));
        }
    }
}

/// The smallest ratio of every group of the blocks' ratios.
pub open spec fn group_ratios(words: Seq<u32>) -> Seq<u32> {
    Seq::new(
        bounds::group_count(words.len() as int) as nat,
        |g: int| min_ratio(words, 8 * g, bounds::group_end(words.len() as int, g)),
    )
}

/// Ratio words of the blocks followed by those of the groups.
pub open spec fn with_groups(words: Seq<u32>) -> Seq<u32> {
    words + group_ratios(words)
}

/// Append to the blocks' ratios the smallest ratio of every group.
pub fn append_ratio_groups(ratios: &mut Vec<u32>)
    requires
        forall|i: int| 0 <= i < old(ratios)@.len() ==> ratio_ok(#[trigger] old(ratios)@[i]),
    ensures
        final(ratios)@ == with_groups(old(ratios)@),
        forall|i: int| 0 <= i < final(ratios)@.len() ==> ratio_ok(#[trigger] final(ratios)@[i]),
{
    let n: usize = ratios.len();
    let ghost words = ratios@;
    let mut groups: Vec<u32> = Vec::new();
    let mut idx: usize = 0;
    while idx < n
        invariant
            idx <= n,
            n == ratios.len(),
            ratios@ == words,
            idx == n || idx == 8 * groups.len(),
            groups.len() == bounds::group_count(idx as int),
            forall|g: int|
                0 <= g < groups.len() ==> #[trigger] groups@[g] == min_ratio(
                    words,
                    8 * g,
                    bounds::group_end(n as int, g),
                ),
            forall|i: int| 0 <= i < n ==> ratio_ok(#[trigger] words[i]),
            forall|g: int| 0 <= g < groups.len() ==> ratio_ok(#[trigger] groups@[g]),
        decreases n - idx,
    {
        let end: usize = if n - idx > 8 {
            idx + 8
        } else {
            n
        };
        let mut best: u32 = ratios[idx];
        let mut i: usize = idx + 1;
        while i < end
            invariant
                idx < i <= end <= n,
                n == ratios.len(),
                ratios@ == words,
                best == min_ratio(words, idx as int, i as int),
            decreases end - i,
        {
            if ratios[i] % 0x8000_0000 < best % 0x8000_0000 {
                best = ratios[i];
            }
            i += 1;
        }
        proof {
            min_ratio_holds(words, idx as int, end as int, idx as int);
            assert(end == bounds::group_end(n as int, groups.len() as int));
        }
        groups.push(best);
        idx = end;
    }
    ratios.append(&mut groups);
    proof {
        assert(ratios@ =~= with_groups(words));
    }
}

/// Whether every stored ratio is finite and not below zero.
pub fn validate_ratios(words: &[u32]) -> (r: bool)
    ensures
        r == (forall|i: int| 0 <= i < words.len() ==> ratio_ok(#[trigger] words@[i])),
{
    let mut i: usize = 0;
    while i < words.len()
        invariant
            i <= words.len(),
            forall|k: int| 0 <= k < i ==> ratio_ok(#[trigger] words@[k]),
        decreases words.len() - i,
    {
        if !(words[i] <= 0x7F7F_FFFF || words[i] == 0x8000_0000) {
            proof {
                assert(!ratio_ok(words@[i as int]));
            }
            return false;
        }
        i += 1;
    }
    true
}

} // verus!
