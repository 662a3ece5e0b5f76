//! Fixed-width packing of small arrays.
//!
//! A layout says at which bit of the byte stream each bit of each value
//! stands. Packing and unpacking are written once over that map.
use crate::bits;
use vstd::arithmetic::power2::*;
use vstd::prelude::*;

verus! {

/// Where the bits of packed values stand.
#[derive(Debug, Clone, Copy, PartialEq, Eq, Structural)]
pub enum Layout {
    /// One value after the other, least significant bit first.
    Rows,
    /// One bit plane after the other: bit `j` of all 128 values, then bit `j + 1`.
    Planes,
    /// Four interleaved streams of 32-bit words; value `i` is in stream `i % 4`.
    Lanes,
}

impl Layout {
    /// Stream position of bit `j` of value `i` at width `w`.
    pub open spec fn position(self, w: int, i: int, j: int) -> int {
        match self {
            Layout::Rows => i * w + j,
            Layout::Planes => j * 128 + i,
            Layout::Lanes => {
                let r = (i / 4) * w + j;
                ((r / 32) * 4 + i % 4) * 32 + r % 32
            },
        }
    }

    /// The value whose bit stands at stream position `p`.
    pub open spec fn value_at(self, w: int, p: int) -> int {
        match self {
            Layout::Rows => p / w,
            Layout::Planes => p % 128,
            Layout::Lanes => {
                let r = (p / 128) * 32 + p % 32;
                (r / w) * 4 + (p / 32) % 4
            },
        }
    }

    /// Which bit of its value stands at stream position `p`.
    pub open spec fn bit_at(self, w: int, p: int) -> int {
        match self {
            Layout::Rows => p % w,
            Layout::Planes => p / 128,
            Layout::Lanes => ((p / 128) * 32 + p % 32) % w,
        }
    }

    /// How many values the layout can hold.
    pub open spec fn admits(self, n: int) -> bool {
        match self {
            Layout::Rows => 0 <= n <= 0xFFFF,
            _ => n == 128,
        }
    }
}

/// Bit `p` of a byte stream.
pub open spec fn stream_bit(bytes: Seq<u8>, p: int) -> bool {
    bits::bit(bytes[p / 8] as nat, (p % 8) as nat)
}

/// The bit that packing puts at stream position `p`.
pub open spec fn packed_bit(layout: Layout, values: Seq<u32>, w: int, p: int) -> bool {
    &&& layout.value_at(w, p) < values.len()
    &&& bits::bit(values[layout.value_at(w, p)] as nat, layout.bit_at(w, p) as nat)
}

/// Byte `k` of the packed stream.
pub open spec fn packed_byte(layout: Layout, values: Seq<u32>, w: int, k: int) -> u8 {
    bits::from_bits(|b: int| packed_bit(layout, values, w, 8 * k + b), 8) as u8
}

/// `values` packed at `w` bits each.
pub open spec fn pack_spec(layout: Layout, values: Seq<u32>, w: nat) -> Seq<u8> {
    Seq::new(bits::packed_len(values.len(), w), |k: int| packed_byte(layout, values, w as int, k))
}

/// Value `i` of a packed stream.
pub open spec fn unpacked(layout: Layout, bytes: Seq<u8>, w: nat, i: int) -> u32 {
    bits::from_bits(|j: int| stream_bit(bytes, layout.position(w as int, i, j)), w) as u32
}

/// The `n` values of a packed stream.
pub open spec fn unpack_spec(layout: Layout, bytes: Seq<u8>, w: nat, n: nat) -> Seq<u32> {
    Seq::new(n, |i: int| unpacked(layout, bytes, w, i))
}

/// Every bit of every value has a place of its own inside the stream.
pub proof fn position_inverse(layout: Layout, w: int, n: int, i: int, j: int)
    requires
        layout.admits(n),
        0 <= i < n,
        0 <= j < w <= 32,
    ensures
        0 <= layout.position(w, i, j) < n * w,
        layout.value_at(w, layout.position(w, i, j)) == i,
        layout.bit_at(w, layout.position(w, i, j)) == j,
{
    match layout {
        Layout::Rows => {
            assert(0 <= i * w + j < n * w) by (nonlinear_arith)
                requires
                    0 <= i < n,
                    0 <= j < w,
            ;
            row_inverse(i, w, j);
        },
        Layout::Planes => {
            assert(j * 128 + i < 128 * w);
        },
        Layout::Lanes => {
            let q = i / 4;
            let r = q * w + j;
            row_inverse(q, w, j);
            assert(0 <= r < 32 * w) by (nonlinear_arith)
                requires
                    0 <= q < 32,
                    0 <= j < w,
                    r == q * w + j,
            ;
            let word = (r / 32) * 4 + i % 4;
            let p = word * 32 + r % 32;
            assert(p / 32 == word);
            assert(p % 32 == r % 32);
            assert(p / 128 == r / 32);
            assert((p / 128) * 32 + p % 32 == r);
            assert((p / 32) % 4 == i % 4);
        },
    }
}

proof fn row_inverse(i: int, w: int, j: int)
    requires
        0 <= j < w,
    ensures
        (i * w + j) / w == i,
        (i * w + j) % w == j,
{
    vstd::arithmetic::div_mod::lemma_fundamental_div_mod_converse(i * w + j, w, i, j);
}

/// Values that fit the width survive packing and unpacking.
pub proof fn pack_roundtrip(layout: Layout, values: Seq<u32>, w: nat)
    requires
        layout.admits(values.len() as int),
        w <= 32,
        forall|i: int| 0 <= i < values.len() ==> (#[trigger] values[i]) < pow2(w),
    ensures
        unpack_spec(layout, pack_spec(layout, values, w), w, values.len()) == values,
{
    let packed = pack_spec(layout, values, w);
    let n = values.len() as int;
    assert forall|i: int| 0 <= i < n implies unpacked(layout, packed, w, i) == values[i] by {
        let f = |j: int| stream_bit(packed, layout.position(w as int, i, j));
        let g = |j: int| bits::bit(values[i] as nat, j as nat);
        assert forall|j: int| 0 <= j < w implies #[trigger] f(j) == g(j) by {
            let p = layout.position(w as int, i, j);
            position_inverse(layout, w as int, n, i, j);
            let k = p / 8;
            assert(0 <= k < bits::packed_len(values.len(), w));
            let h = |b: int| packed_bit(layout, values, w as int, 8 * k + b);
            bits::from_bits_bound(h, 8);
            lemma2_to64();
            bits::bit_of_from_bits(h, 8, (p % 8) as nat);
            assert(8 * k + p % 8 == p);
        }
        bits::from_bits_ext(f, g, w);
        bits::from_bits_of(values[i] as nat, w);
        assert(values[i] < pow2(w));
        vstd::arithmetic::div_mod::lemma_small_mod(values[i] as nat, pow2(w));
    }
    assert(unpack_spec(layout, packed, w, values.len()) =~= values);
}

/// An unpacked value fits the width.
pub proof fn unpacked_bound(layout: Layout, bytes: Seq<u8>, w: nat, i: int)
    requires
        w <= 32,
    ensures
        unpacked(layout, bytes, w, i) < pow2(w),
{
    let f = |j: int| stream_bit(bytes, layout.position(w as int, i, j));
    bits::from_bits_bound(f, w);
    pow2_word(w);
}

/// Unpacking reads only the packed bytes.
pub proof fn unpack_prefix(layout: Layout, a: Seq<u8>, b: Seq<u8>, w: nat, n: nat)
    requires
        layout.admits(n as int),
        w <= 32,
        a.len() >= bits::packed_len(n, w),
        b.len() >= bits::packed_len(n, w),
        forall|k: int| 0 <= k < bits::packed_len(n, w) ==> a[k] == b[k],
    ensures
        unpack_spec(layout, a, w, n) == unpack_spec(layout, b, w, n),
        forall|i: int|
            0 <= i < n ==> #[trigger] unpacked(layout, a, w, i) == unpacked(layout, b, w, i),
{
    assert forall|i: int| 0 <= i < n implies #[trigger] unpacked(layout, a, w, i) == unpacked(
        layout,
        b,
        w,
        i,
    ) by {
        let f = |j: int| stream_bit(a, layout.position(w as int, i, j));
        let g = |j: int| stream_bit(b, layout.position(w as int, i, j));
        assert forall|j: int| 0 <= j < w implies #[trigger] f(j) == g(j) by {
            position_inverse(layout, w as int, n as int, i, j);
        }
        bits::from_bits_ext(f, g, w);
    }
    assert(unpack_spec(layout, a, w, n) =~= unpack_spec(layout, b, w, n));
}

/// `2^w` for a width of at most a word.
pub proof fn pow2_word(w: nat)
    requires
        w <= 32,
    ensures
        0 < pow2(w) <= 0x1_0000_0000,
{
    lemma2_to64();
    lemma_pow2_pos(w);
    if w < 32 {
        lemma_pow2_strictly_increases(w, 32);
    }
}

/// Stream position of bit `j` of value `i`.
fn bit_position(layout: Layout, w: usize, i: usize, j: usize) -> (p: usize)
    requires
        i < 0xFFFF,
        j < w <= 32,
    ensures
        p == layout.position(w as int, i as int, j as int),
{
    proof {
        assert(0 <= i * w <= 0xFFFF * 32) by (nonlinear_arith)
            requires
                0 <= i < 0xFFFF,
                0 <= w <= 32,
        ;
        assert(0 <= (i / 4) * w <= i * w) by (nonlinear_arith)
            requires
                0 <= i,
                0 <= w,
        ;
    }
    match layout {
        Layout::Rows => i * w + j,
        Layout::Planes => j * 128 + i,
        Layout::Lanes => {
            let r: usize = (i / 4) * w + j;
            ((r / 32) * 4 + i % 4) * 32 + r % 32
        },
    }
}

/// Read value `i` of a packed stream.
pub fn unpack_one(layout: Layout, bytes: &[u8], w: u8, n: usize, i: usize) -> (v: u32)
    requires
        layout.admits(n as int),
        w <= 32,
        i < n,
        bytes.len() >= bits::packed_len(n as nat, w as nat),
    ensures
        v == unpacked(layout, bytes@, w as nat, i as int),
{
    let ghost f = |j: int| stream_bit(bytes@, layout.position(w as int, i as int, j));
    let mut v: u64 = 0;
    let mut weight: u64 = 1;
    let mut j: usize = 0;
    proof {
        lemma2_to64();
    }
    while j < w as usize
        invariant
            j <= w <= 32,
            layout.admits(n as int),
            i < n,
            bytes.len() >= bits::packed_len(n as nat, w as nat),
            f == (|j: int| stream_bit(bytes@, layout.position(w as int, i as int, j))),
            v == bits::from_bits(f, j as nat),
            weight == pow2(j as nat),
        decreases w - j,
    {
        let p: usize = bit_position(layout, w as usize, i, j);
        proof {
            position_inverse(layout, w as int, n as int, i as int, j as int);
            bits::from_bits_bound(f, j as nat);
            pow2_word(j as nat);
            lemma_pow2_unfold((j + 1) as nat);
        }
        if bits::get_bit(bytes[p / 8] as u32, (p % 8) as u32) {
            v += weight;
        }
        weight *= 2;
        j += 1;
    }
    proof {
        bits::from_bits_bound(f, w as nat);
        pow2_word(w as nat);
    }
    v as u32
}

/// Read all `n` values of a packed stream.
pub fn unpack(layout: Layout, bytes: &[u8], w: u8, n: usize) -> (values: Vec<u32>)
    requires
        layout.admits(n as int),
        w <= 32,
        bytes.len() >= bits::packed_len(n as nat, w as nat),
    ensures
        values@ == unpack_spec(layout, bytes@, w as nat, n as nat),
{
    let mut values: Vec<u32> = Vec::with_capacity(n);
    let mut i: usize = 0;
    while i < n
        invariant
            i <= n,
            layout.admits(n as int),
            w <= 32,
            bytes.len() >= bits::packed_len(n as nat, w as nat),
            values.len() == i,
            forall|k: int| 0 <= k < i ==> #[trigger] values@[k] == unpacked(layout, bytes@, w as nat, k),
        decreases n - i,
    {
        values.push(unpack_one(layout, bytes, w, n, i));
        i += 1;
    }
    proof {
        assert(values@ =~= unpack_spec(layout, bytes@, w as nat, n as nat));
    }
    values
}

/// The bit that packing puts at stream position `p`.
fn bit_to_pack(layout: Layout, values: &[u32], w: usize, p: usize) -> (r: bool)
    requires
        layout.admits(values@.len() as int),
        0 < w <= 32,
        p < 0x100_0000,
    ensures
        r == packed_bit(layout, values@, w as int, p as int),
{
    let (i, j): (usize, usize) = match layout {
        Layout::Rows => (p / w, p % w),
        Layout::Planes => (p % 128, p / 128),
        Layout::Lanes => {
            let r: usize = (p / 128) * 32 + p % 32;
            proof {
                assert(r / w <= r) by (nonlinear_arith)
                    requires
                        w > 0,
                        r >= 0,
                ;
            }
            ((r / w) * 4 + (p / 32) % 4, r % w)
        },
    };
    if i < values.len() {
        if j < 32 {
            bits::get_bit(values[i], j as u32)
        } else {
            proof {
                let v = values@[i as int] as nat;
                pow2_word(32);
                lemma2_to64();
                if j > 32 {
                    lemma_pow2_strictly_increases(32, j as nat);
                }
                vstd::arithmetic::div_mod::lemma_basic_div(v as int, pow2(j as nat) as int);
            }
            false
        }
    } else {
        false
    }
}

/// Append `values` packed at `w` bits each.
pub fn pack(layout: Layout, values: &[u32], w: u8, out: &mut Vec<u8>)
    requires
        layout.admits(values@.len() as int),
        w <= 32,
    ensures
        final(out)@ == old(out)@ + pack_spec(layout, values@, w as nat),
{
    let ghost before = out@;
    let ghost packed = pack_spec(layout, values@, w as nat);
    let len: usize = bits::packed_bytes(values.len(), w);
    let mut k: usize = 0;
    while k < len
        invariant
            k <= len,
            len == bits::packed_len(values@.len(), w as nat),
            len <= values.len() * 32,
            layout.admits(values@.len() as int),
            w <= 32,
            packed == pack_spec(layout, values@, w as nat),
            out@ == before + packed.take(k as int),
        decreases len - k,
    {
        let ghost h = |b: int| packed_bit(layout, values@, w as int, 8 * k + b);
        let mut byte: u16 = 0;
        let mut weight: u16 = 1;
        let mut b: usize = 0;
        proof {
            lemma2_to64();
            if w == 0 {
                assert(values@.len() * 0 == 0) by (nonlinear_arith);
            }
        }
        while b < 8
            invariant
                b <= 8,
                k < len,
                len <= values.len() * 32,
                0 < w <= 32,
                layout.admits(values@.len() as int),
                h == (|b: int| packed_bit(layout, values@, w as int, 8 * k + b)),
                byte == bits::from_bits(h, b as nat),
                weight == pow2(b as nat),
            decreases 8 - b,
        {
            proof {
                bits::from_bits_bound(h, b as nat);
                lemma2_to64();
                lemma_pow2_unfold((b + 1) as nat);
            }
            if bit_to_pack(layout, values, w as usize, 8 * k + b) {
                byte += weight;
            }
            weight *= 2;
            b += 1;
        }
        proof {
            bits::from_bits_bound(h, 8);
            lemma2_to64();
        }
        out.push(byte as u8);
        proof {
            assert(packed[k as int] == byte as u8);
            assert(out@ =~= before + packed.take(k + 1));
        }
        k += 1;
    }
    proof {
        assert(packed.take(len as int) =~= packed);
    }
}

} // verus!
