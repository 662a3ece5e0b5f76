//! Where the bits and bytes of numbers stand when they are stored.
use crate::bits;
use crate::bytes;
use crate::pack;
use crate::pack::Layout;
use crate::vint;
use vstd::arithmetic::div_mod::lemma_div_denominator;
use vstd::arithmetic::power::lemma_pow0;
use vstd::arithmetic::power::lemma_pow_adds;
use vstd::arithmetic::power::lemma_pow_positive;
use vstd::arithmetic::power::pow;
use vstd::arithmetic::power2::lemma2_to64;
use vstd::prelude::*;

verus! {

/// Words are stored with their lowest byte first.
pub proof fn lowest_byte_first(a: u16, b: u32, c: u64)
    ensures
        bytes::le16(a)[0] == a % 0x100,
        bytes::le16(a)[1] == a / 0x100,
        bytes::le32(b)[0] == b % 0x100,
        bytes::le32(b)[1] == b / 0x100 % 0x100,
        bytes::le32(b)[2] == b / 0x1_0000 % 0x100,
        bytes::le32(b)[3] == b / 0x100_0000,
        bytes::le64(c).take(4) == bytes::le32((c % 0x1_0000_0000) as u32),
        bytes::le64(c).skip(4) == bytes::le32((c / 0x1_0000_0000) as u32),
{
    broadcast use bytes::group_word_sizes;

    reveal(bytes::le32);
    reveal(bytes::le64);
    let low = bytes::le32((c % 0x1_0000_0000) as u32);
    let high = bytes::le32((c / 0x1_0000_0000) as u32);
    assert(low.len() == 4);
    assert((low + high).take(4) =~= low);
    assert((low + high).skip(4) =~= high);
}

/// A number of variable length is stored by sevens of its bits, lowest
/// first, in as many bytes as these need, and all but the last byte have
/// their highest bit set.
pub proof fn sevens_of_bits(x: nat, i: int, k: nat)
    requires
        k > 0,
    ensures
        0 <= i < vint::vint(x).len() ==> {
            let byte = vint::vint(x)[i];
            &&& byte % 128 == (x as int / pow(128, i as nat)) % 128
            &&& byte >= 128 <==> i < vint::vint(x).len() - 1
        },
        vint::vint(x).len() <= k <==> x < pow(128, k),
    decreases x,
{
    let b = vint::vint(x);
    lemma_pow0(128);
    vstd::arithmetic::power::lemma_pow1(128);
    lemma_pow_adds(128, 1, (k - 1) as nat);
    lemma_pow_positive(128, (k - 1) as nat);
    let p = pow(128, (k - 1) as nat);
    if x < 128 {
        assert(x < 128 * p) by (nonlinear_arith)
            requires
                x < 128,
                p >= 1,
        ;
    } else {
        let y = x / 128;
        let rest = vint::vint(y);
        assert(b[0] == x % 128 + 128);
        assert(rest.len() > 0);
        if i > 0 {
            sevens_of_bits(y, i - 1, 1);
            if i < b.len() {
                assert(b[i] == rest[i - 1]);
                lemma_pow_adds(128, 1, (i - 1) as nat);
                lemma_pow_positive(128, (i - 1) as nat);
                lemma_div_denominator(x as int, 128, pow(128, (i - 1) as nat));
            }
        }
        if k > 1 {
            sevens_of_bits(y, 0, (k - 1) as nat);
            assert(y < p <==> x < 128 * p) by (nonlinear_arith)
                requires
                    y == x / 128,
                    x >= 0,
            ;
        }
    }
}

/// Where bit `j` of value `i` of packed ones stands: behind the bits of the
/// values before; or among the bits of one weight of all values; or in one
/// of four lanes of words, behind the bits of the values before in its lane.
pub open spec fn place(layout: Layout, w: int, i: int, j: int) -> int {
    match layout {
        Layout::Rows => i * w + j,
        Layout::Planes => 128 * j + i,
        Layout::Lanes => {
            let bit = (i / 4) * w + j;
            128 * (bit / 32) + 32 * (i % 4) + bit % 32
        },
    }
}

/// Each bit of packed values stands at its place, where bits are counted
/// from the lowest of each byte.
pub proof fn packed_bits_in_place(layout: Layout, values: Seq<u32>, w: nat, i: int, j: int)
    requires
        layout.admits(values.len() as int),
        w <= 32,
        0 <= i < values.len(),
        0 <= j < w,
    ensures
        ({
            let b = pack::pack_spec(layout, values, w);
            let p = place(layout, w as int, i, j);
            &&& 0 <= p / 8 < b.len()
            &&& bits::bit(b[p / 8] as nat, (p % 8) as nat) == bits::bit(
                values[i] as nat,
                j as nat,
            )
        }),
{
    let n = values.len() as int;
    let p = layout.position(w as int, i, j);
    pack::position_inverse(layout, w as int, n, i, j);
    let k = p / 8;
    let f = |b: int| pack::packed_bit(layout, values, w as int, 8 * k + b);
    bits::from_bits_bound(f, 8);
    lemma2_to64();
    bits::bit_of_from_bits(f, 8, (p % 8) as nat);
    assert(8 * k + p % 8 == p);
    assert(place(layout, w as int, i, j) == p);
}

} // verus!
