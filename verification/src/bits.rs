//! Bits of numbers, and fixed-width values laid out bit by bit in bytes.
use vstd::arithmetic::power2::*;
use vstd::prelude::*;

verus! {

/// Bit `j` of `x`.
pub open spec fn bit(x: nat, j: nat) -> bool {
    (x / pow2(j)) % 2 == 1
}

/// The number whose low `n` bits are `f(0)`, `f(1)`, ...
pub open spec fn from_bits(f: spec_fn(int) -> bool, n: nat) -> nat
    decreases n,
{
    if n == 0 {
        0
    } else {
        from_bits(f, (n - 1) as nat) + if f(n - 1) {
            pow2((n - 1) as nat)
        } else {
            0
        }
    }
}

/// How many bits `x` takes.
pub open spec fn bits_needed_spec(x: nat) -> nat
    decreases x,
{
    if x == 0 {
        0
    } else {
        1 + bits_needed_spec(x / 2)
    }
}

/// Bytes that hold `n` values of `w` bits.
pub open spec fn packed_len(n: nat, w: nat) -> nat {
    ((n * w + 7) / 8) as nat
}

pub proof fn from_bits_bound(f: spec_fn(int) -> bool, n: nat)
    ensures
        from_bits(f, n) < pow2(n),
    decreases n,
{
    if n == 0 {
        lemma_pow2(0);
        lemma2_to64();
    } else {
        from_bits_bound(f, (n - 1) as nat);
        lemma_pow2_unfold(n);
    }
}

pub proof fn from_bits_ext(f: spec_fn(int) -> bool, g: spec_fn(int) -> bool, n: nat)
    requires
        forall|j: int| 0 <= j < n ==> #[trigger] f(j) == g(j),
    ensures
        from_bits(f, n) == from_bits(g, n),
    decreases n,
{
    if n > 0 {
        from_bits_ext(f, g, (n - 1) as nat);
        assert(f(n - 1) == g(n - 1));
    }
}

/// The low `n` bits of `x` make up `x` modulo `2^n`.
pub proof fn from_bits_of(x: nat, n: nat)
    ensures
        from_bits(|j: int| bit(x, j as nat), n) == x % pow2(n),
    decreases n,
{
    if n == 0 {
        lemma2_to64();
    } else {
        let m = (n - 1) as nat;
        from_bits_of(x, m);
        lemma_pow2_unfold(n);
        lemma_pow2_pos(m);
        let p = pow2(m) as int;
        let xi = x as int;
        assert(xi % (2 * p) == xi % p + p * ((xi / p) % 2)) by {
            vstd::arithmetic::div_mod::lemma_mod_breakdown(xi, p, 2);
            assert(p * 2 == 2 * p) by (nonlinear_arith);
        }
        assert(p * ((xi / p) % 2) == if (xi / p) % 2 == 1 {
            p
        } else {
            0
        }) by (nonlinear_arith)
            requires
                p > 0,
        ;
    }
}

/// Bit `j` of a number put together from bits is the bit it was given.
pub proof fn bit_of_from_bits(f: spec_fn(int) -> bool, n: nat, j: nat)
    requires
        j < n,
    ensures
        bit(from_bits(f, n), j) == f(j as int),
    decreases n,
{
    let m = (n - 1) as nat;
    let low = from_bits(f, m) as int;
    from_bits_bound(f, m);
    let top: int = if f(m as int) {
        1
    } else {
        0
    };
    let pm = pow2(m) as int;
    let pj = pow2(j) as int;
    lemma_pow2_pos(m);
    lemma_pow2_pos(j);
    assert(from_bits(f, n) as int == low + top * pm) by (nonlinear_arith)
        requires
            from_bits(f, n) as int == low + if top == 1 {
                pm
            } else {
                0
            },
            top == 0 || top == 1,
    ;
    if j == m {
        assert((low + top * pm) / pm == top) by (nonlinear_arith)
            requires
                0 <= low < pm,
                pm > 0,
                top == 0 || top == 1,
        ;
    } else {
        bit_of_from_bits(f, m, j);
        lemma_pow2_adds(j, (m - j) as nat);
        lemma_pow2_unfold((m - j) as nat);
        let h = pow2((m - j - 1) as nat) as int;
        assert(pm == pj * (2 * h));
        assert((low + top * pm) / pj == low / pj + 2 * (top * h)) by (nonlinear_arith)
            requires
                pm == pj * (2 * h),
                pj > 0,
        ;
        assert((low / pj + 2 * (top * h)) % 2 == (low / pj) % 2) by (nonlinear_arith);
    }
}

/// `x` fits in the bits it takes, and in no fewer.
pub proof fn bits_needed_tight(x: nat)
    ensures
        x < pow2(bits_needed_spec(x)),
        x > 0 ==> bits_needed_spec(x) > 0 && pow2((bits_needed_spec(x) - 1) as nat) <= x,
    decreases x,
{
    lemma2_to64();
    if x > 0 {
        bits_needed_tight(x / 2);
        lemma_pow2_unfold(bits_needed_spec(x));
        if x / 2 > 0 {
            lemma_pow2_unfold(bits_needed_spec(x / 2));
        }
    }
}

/// A number takes at most `w` bits exactly when it is below `2^w`.
pub proof fn bits_needed_fits(x: nat, w: nat)
    ensures
        bits_needed_spec(x) <= w <==> x < pow2(w),
{
    bits_needed_tight(x);
    let n = bits_needed_spec(x);
    if n <= w {
        if n < w {
            lemma_pow2_strictly_increases(n, w);
        }
    } else {
        if w < n - 1 {
            lemma_pow2_strictly_increases(w, (n - 1) as nat);
        }
    }
}

/// Test one bit of a word.
pub fn get_bit(x: u32, j: u32) -> (r: bool)
    requires
        j < 32,
    ensures
        r == bit(x as nat, j as nat),
{
    proof {
        vstd::bits::lemma_u32_shr_is_div(x, j);
        let y = x >> j;
        assert(y & 1 == y % 2) by (bit_vector);
    }
    (x >> j) & 1 == 1
}

/// Bits needed for `x`: zero for zero.
pub fn bits_needed(x: u32) -> (r: u8)
    ensures
        r == bits_needed_spec(x as nat),
        r <= 32,
{
    let mut rest: u32 = x;
    let mut n: u8 = 0;
    proof {
        lemma2_to64();
        bits_needed_fits(x as nat, 32);
    }
    while rest > 0
        invariant
            n + bits_needed_spec(rest as nat) == bits_needed_spec(x as nat),
            bits_needed_spec(x as nat) <= 32,
        decreases rest,
    {
        rest = rest / 2;
        n += 1;
    }
    n
}

/// Bytes that hold `n` values of `w` bits.
pub fn packed_bytes(n: usize, w: u8) -> (r: usize)
    requires
        n <= 0xFFFF,
    ensures
        r == packed_len(n as nat, w as nat),
        r <= n * 32,
{
    proof {
        assert(n * w <= 0xFFFF * 255) by (nonlinear_arith)
            requires
                n <= 0xFFFF,
                w <= 255,
        ;
        assert(0 <= n * w <= n * 255) by (nonlinear_arith)
            requires
                w <= 255,
        ;
    }
    (n * w as usize + 7) / 8
}

} // verus!
