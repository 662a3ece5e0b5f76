//! Writing the packed arrays of one posting block.
use crate::bits;
use crate::bytes;
use crate::codec;
use crate::codec::PostingCodec;
use crate::error::PostingError;
use crate::pack;
use crate::pack::Layout;
use vstd::arithmetic::power2::*;
use vstd::prelude::*;

verus! {

/// The largest value, or zero.
pub open spec fn seq_max(s: Seq<u32>) -> u32
    decreases s.len(),
{
    if s.len() == 0 {
        0
    } else if s.last() > seq_max(s.drop_last()) {
        s.last()
    } else {
        seq_max(s.drop_last())
    }
}

/// Bits that every value fits in.
pub open spec fn exact_width(values: Seq<u32>) -> nat {
    bits::bits_needed_spec(seq_max(values) as nat)
}

/// The next width out of 0, 8, 16 and 32.
pub open spec fn rounded_width(w: nat) -> nat {
    if w == 0 {
        0
    } else if w <= 8 {
        8
    } else if w <= 16 {
        16
    } else {
        32
    }
}

/// How many of the first `i` values do not fit in `w` bits.
pub open spec fn exceptions(values: Seq<u32>, w: nat, i: int) -> int
    decreases i,
{
    if i <= 0 {
        0
    } else {
        exceptions(values, w, i - 1) + if values[i - 1] >= pow2(w) {
            1int
        } else {
            0
        }
    }
}

/// Bytes of a patched array at width `w`.
pub open spec fn pfor_size(values: Seq<u32>, w: nat) -> int {
    1 + bits::packed_len(values.len(), w) + 5 * exceptions(values, w, values.len() as int)
}

/// Whether at most a tenth of the values need a patch at width `w`.
pub open spec fn pfor_admissible(values: Seq<u32>, w: nat) -> bool {
    10 * exceptions(values, w, values.len() as int) <= values.len()
}

/// Whether width `w` makes the smallest patched array, and is the least such
/// width.
pub open spec fn is_pfor_width(values: Seq<u32>, w: u8) -> bool {
    &&& w <= 32
    &&& pfor_admissible(values, w as nat)
    &&& forall|v: nat|
        v <= 32 && #[trigger] pfor_admissible(values, v) ==> pfor_size(values, w as nat)
            < pfor_size(values, v) || (pfor_size(values, w as nat) == pfor_size(values, v) && w
            <= v)
}

/// The width of a patched array.
pub open spec fn pfor_width(values: Seq<u32>) -> u8 {
    choose|w: u8| is_pfor_width(values, w)
}

/// The exception table for the first `i` values.
pub open spec fn pfor_table(values: Seq<u32>, w: nat, i: int) -> Seq<u8>
    decreases i,
{
    if i <= 0 {
        Seq::empty()
    } else if values[i - 1] >= pow2(w) {
        pfor_table(values, w, i - 1) + seq![(i - 1) as u8] + bytes::le32(
            (values[i - 1] as nat / pow2(w)) as u32,
        )
    } else {
        pfor_table(values, w, i - 1)
    }
}

/// The low `w` bits of every value.
pub open spec fn low_bits(values: Seq<u32>, w: nat) -> Seq<u32> {
    Seq::new(values.len(), |i: int| (values[i] as nat % pow2(w)) as u32)
}

/// The width that `codec` gives to `values`.
pub open spec fn encoded_width(codec: PostingCodec, values: Seq<u32>) -> u8 {
    match codec {
        PostingCodec::Rounded => rounded_width(exact_width(values)) as u8,
        PostingCodec::Packed => exact_width(values) as u8,
        PostingCodec::Pfor => pfor_width(values),
        PostingCodec::Simd4x => exact_width(values) as u8,
    }
}

/// The bytes that `codec` gives to `values`.
pub open spec fn encoded_array(codec: PostingCodec, values: Seq<u32>) -> Seq<u8> {
    let w = encoded_width(codec, values) as nat;
    if codec == PostingCodec::Pfor {
        seq![exceptions(values, w, values.len() as int) as u8] + pack::pack_spec(
            Layout::Rows,
            low_bits(values, w),
            w,
        ) + pfor_table(values, w, values.len() as int)
    } else {
        pack::pack_spec(codec::array_layout(codec, values.len() as int), values, w)
    }
}

pub proof fn seq_max_bound(s: Seq<u32>, i: int)
    requires
        0 <= i < s.len(),
    ensures
        s[i] <= seq_max(s),
    decreases s.len(),
{
    if i < s.len() - 1 {
        seq_max_bound(s.drop_last(), i);
        assert(s.drop_last()[i] == s[i]);
    }
}

/// The maximum is one of the values.
pub proof fn seq_max_member(s: Seq<u32>)
    requires
        s.len() > 0,
    ensures
        exists|i: int| 0 <= i < s.len() && s[i] == seq_max(s),
    decreases s.len(),
{
    if s.last() > seq_max(s.drop_last()) || s.len() == 1 {
        assert(s[s.len() - 1] == seq_max(s));
    } else {
        seq_max_member(s.drop_last());
        let i = choose|i: int|
            0 <= i < s.drop_last().len() && s.drop_last()[i] == seq_max(s.drop_last());
        assert(s[i] == seq_max(s));
    }
}

/// Every value fits in the exact width.
pub proof fn exact_width_fits(values: Seq<u32>)
    ensures
        exact_width(values) <= 32,
        forall|i: int|
            0 <= i < values.len() ==> (#[trigger] values[i]) < pow2(exact_width(values)),
        forall|i: int|
            0 <= i < values.len() ==> (#[trigger] values[i]) < pow2(
                rounded_width(exact_width(values)),
            ),
{
    let w = exact_width(values);
    lemma2_to64();
    bits::bits_needed_fits(seq_max(values) as nat, 32);
    bits::bits_needed_tight(seq_max(values) as nat);
    let r = rounded_width(w);
    if w < r {
        lemma_pow2_strictly_increases(w, r);
    }
    assert forall|i: int| 0 <= i < values.len() implies (#[trigger] values[i]) < pow2(w)
        && values[i] < pow2(r) by {
        seq_max_bound(values, i);
    }
}

pub proof fn exceptions_bound(values: Seq<u32>, w: nat, i: int)
    requires
        0 <= i,
    ensures
        0 <= exceptions(values, w, i) <= i,
    decreases i,
{
    if i > 0 {
        exceptions_bound(values, w, i - 1);
    }
}

/// Nothing needs a patch at full width.
pub proof fn no_exceptions_at_32(values: Seq<u32>, i: int)
    requires
        0 <= i <= values.len(),
    ensures
        exceptions(values, 32, i) == 0,
    decreases i,
{
    lemma2_to64();
    if i > 0 {
        no_exceptions_at_32(values, i - 1);
    }
}

/// Two widths that are both the smallest are the same.
pub proof fn pfor_width_unique(values: Seq<u32>, w: u8)
    requires
        is_pfor_width(values, w),
    ensures
        pfor_width(values) == w,
{
    let v = pfor_width(values);
    assert(is_pfor_width(values, v));
    assert(pfor_admissible(values, v as nat) && pfor_admissible(values, w as nat));
}

/// Reading the table of the first `i` values gives their high bits back.
proof fn pfor_table_reads(values: Seq<u32>, w: nat, i: int)
    requires
        0 <= i <= values.len() <= 128,
        w <= 32,
    ensures
        ({
            let t = pfor_table(values, w, i);
            let e = exceptions(values, w, i);
            &&& t.len() == 5 * e
            &&& forall|k: int| 0 <= k < e ==> #[trigger] codec::exception_pos(t, k) < i
            &&& forall|k: int| 0 <= k < e ==> codec::exception_ok(t, values.len() as int, w, k)
            &&& forall|q: int|
                0 <= q < i ==> #[trigger] codec::patch_of(t, q, e) == values[q] as nat / pow2(w)
            &&& forall|q: int| i <= q ==> #[trigger] codec::patch_of(t, q, e) == 0
        }),
    decreases i,
{
    broadcast use bytes::group_word_sizes;

    reveal(bytes::u32_at);
    let t = pfor_table(values, w, i);
    let e = exceptions(values, w, i);
    lemma_pow2_pos(w);
    exceptions_bound(values, w, i);
    if i > 0 {
        pfor_table_reads(values, w, i - 1);
        let s = pfor_table(values, w, i - 1);
        let d = exceptions(values, w, i - 1);
        exceptions_bound(values, w, i - 1);
        let v = values[i - 1] as nat;
        let p = pow2(w);
        if v >= p {
            let high = v / p;
            assert(high * p <= v && high >= 1 && high <= v) by (nonlinear_arith)
                requires
                    v >= p,
                    p > 0,
                    high == v / p,
            ;
            bytes::le32_roundtrip(high as u32);
            assert(codec::exception_pos(t, d) == i - 1);
            assert(codec::exception_high(t, d) == high);
            let h = high as u32;
            assert(0u32 | h == h) by (bit_vector);
            assert forall|k: int| 0 <= k < d implies codec::exception_pos(t, k)
                == codec::exception_pos(s, k) && codec::exception_high(t, k)
                == codec::exception_high(s, k) by {
                assert(forall|b: int| 0 <= b < 5 * d ==> t[b] == s[b]);
            }
            assert forall|k: int| 0 <= k < e implies #[trigger] codec::exception_pos(t, k)
                < i by {
                if k < d {
                    assert(codec::exception_pos(s, k) < i - 1);
                }
            }
            assert forall|k: int| 0 <= k < e implies codec::exception_ok(
                t,
                values.len() as int,
                w,
                k,
            ) by {
                if k < d {
                    assert(codec::exception_ok(s, values.len() as int, w, k));
                    if k > 0 {
                        assert(codec::exception_pos(t, k - 1) == codec::exception_pos(s, k - 1));
                    }
                } else if d > 0 {
                    assert(codec::exception_pos(t, d - 1) == codec::exception_pos(s, d - 1));
                    assert(codec::exception_pos(s, d - 1) < i - 1);
                }
            }
            assert forall|q: int| codec::patch_of(t, q, d) == codec::patch_of(s, q, d) by {
                patch_of_prefix(s, t, q, d);
            }
            assert forall|q: int| 0 <= q < i implies #[trigger] codec::patch_of(t, q, e)
                == values[q] as nat / p by {
                assert(codec::patch_of(t, q, d) == codec::patch_of(s, q, d));
            }
            assert forall|q: int| i <= q implies #[trigger] codec::patch_of(t, q, e) == 0 by {
                assert(codec::patch_of(t, q, d) == codec::patch_of(s, q, d));
            }
        } else {
            assert(v / p == 0) by (nonlinear_arith)
                requires
                    v < p,
            ;
        }
    }
}

proof fn patch_of_prefix(s: Seq<u8>, t: Seq<u8>, q: int, k: int)
    requires
        0 <= k,
        5 * k <= s.len() <= t.len(),
        forall|b: int| 0 <= b < 5 * k ==> s[b] == t[b],
    ensures
        codec::patch_of(t, q, k) == codec::patch_of(s, q, k),
    decreases k,
{
    reveal(bytes::u32_at);
    if k > 0 {
        patch_of_prefix(s, t, q, k - 1);
    }
}

/// An encoded array, whatever follows it, is accepted and decodes to the
/// values it was made of.
pub proof fn array_roundtrip(codec: PostingCodec, values: Seq<u32>, rest: Seq<u8>)
    requires
        values.len() <= 128,
        codec == PostingCodec::Pfor ==> exists|w: u8| is_pfor_width(values, w),
    ensures
        ({
            let enc = encoded_array(codec, values);
            let w = encoded_width(codec, values);
            &&& w <= 32
            &&& codec::check_array_spec(codec, enc + rest, values.len(), w) == Ok::<
                int,
                PostingError,
            >(enc.len() as int)
            &&& codec::array_values(codec, enc + rest, values.len(), w) == values
        }),
{
    let enc = encoded_array(codec, values);
    let w8 = encoded_width(codec, values);
    let w = w8 as nat;
    let n = values.len();
    let input = enc + rest;
    exact_width_fits(values);
    if codec == PostingCodec::Pfor {
        assert(is_pfor_width(values, w8));
        let e = exceptions(values, w, n as int);
        exceptions_bound(values, w, n as int);
        pfor_table_reads(values, w, n as int);
        if w == 32 {
            no_exceptions_at_32(values, n as int);
        }
        let low = low_bits(values, w);
        let packed = pack::pack_spec(Layout::Rows, low, w);
        let table = pfor_table(values, w, n as int);
        assert(enc == seq![e as u8] + packed + table);
        assert(codec::table_of(input, n, w) =~= table);
        pack::pow2_word(w);
        let p = pow2(w);
        assert forall|i: int| 0 <= i < n implies (#[trigger] low[i]) < p by {
            assert((values[i] as nat % p) < p) by (nonlinear_arith)
                requires
                    p > 0,
            ;
        }
        pack::pack_roundtrip(Layout::Rows, low, w);
        pack::unpack_prefix(Layout::Rows, packed, input.skip(1), w, n);
        assert forall|i: int| 0 <= i < n implies codec::array_value(codec, input, n, w8, i)
            == values[i] by {
            assert(pack::unpacked(Layout::Rows, packed, w, i) == pack::unpack_spec(
                Layout::Rows,
                packed,
                w,
                n,
            )[i]);
            assert(pack::unpacked(Layout::Rows, input.skip(1), w, i) == low[i]);
            let v = values[i] as nat;
            assert(v % p + p * (v / p) == v) by (nonlinear_arith)
                requires
                    p > 0,
            ;
            assert(v % p <= v) by (nonlinear_arith)
                requires
                    p > 0,
            ;
            let high = codec::patch_of(table, i, e);
            assert(high == v / p);
            assert(high * p <= v && (p > v ==> high == 0)) by (nonlinear_arith)
                requires
                    p > 0,
                    high == v / p,
            ;
            if w == 32 {
                lemma2_to64();
            }
            codec::patched_is_sum(low[i], high, w8);
        }
        assert(codec::array_values(codec, input, n, w8) =~= values);
    } else {
        let layout = codec::array_layout(codec, n as int);
        pack::pack_roundtrip(layout, values, w);
        pack::unpack_prefix(layout, enc, input, w, n);
        assert(codec::array_values(codec, input, n, w8) =~= values) by {
            assert forall|i: int| 0 <= i < n implies codec::array_value(codec, input, n, w8, i)
                == values[i] by {
                assert(pack::unpack_spec(layout, enc, w, n)[i] == values[i]);
            }
        }
    }
}

/// The largest value, or zero.
pub fn max_of(values: &[u32]) -> (r: u32)
    ensures
        r == seq_max(values@),
{
    let mut r: u32 = 0;
    let mut i: usize = 0;
    while i < values.len()
        invariant
            i <= values.len(),
            r == seq_max(values@.take(i as int)),
        decreases values.len() - i,
    {
        proof {
            assert(values@.take(i + 1).drop_last() =~= values@.take(i as int));
        }
        if values[i] > r {
            r = values[i];
        }
        i += 1;
    }
    proof {
        assert(values@.take(values@.len() as int) =~= values@);
    }
    r
}

/// The next width out of 0, 8, 16 and 32.
pub fn round_bit_width(w: u8) -> (r: u8)
    ensures
        r == rounded_width(w as nat),
{
    if w == 0 {
        0
    } else if w <= 8 {
        8
    } else if w <= 16 {
        16
    } else {
        32
    }
}

/// How many values do not fit in `w` bits.
fn count_exceptions(values: &[u32], w: u8) -> (r: usize)
    requires
        w <= 32,
    ensures
        r == exceptions(values@, w as nat, values@.len() as int),
        r <= values.len(),
{
    let p: u64 = codec::power(w);
    let mut r: usize = 0;
    let mut i: usize = 0;
    while i < values.len()
        invariant
            i <= values.len(),
            p == pow2(w as nat),
            r == exceptions(values@, w as nat, i as int),
            r <= i,
        decreases values.len() - i,
    {
        if values[i] as u64 >= p {
            r += 1;
        }
        i += 1;
    }
    r
}

/// The width of the smallest patched array.
pub fn find_optimal_bit_width(values: &[u32]) -> (w: u8)
    requires
        values.len() <= 128,
    ensures
        is_pfor_width(values@, w),
        w == pfor_width(values@),
{
    let n: usize = values.len();
    proof {
        no_exceptions_at_32(values@, n as int);
    }
    let mut best: u8 = 32;
    let mut best_size: usize = 1 + bits::packed_bytes(n, 32);
    let mut v: u8 = 32;
    while v > 0
        invariant
            v <= 32,
            best <= 32,
            n == values.len(),
            n <= 128,
            pfor_admissible(values@, best as nat),
            best_size == pfor_size(values@, best as nat),
            forall|u: nat|
                v <= u <= 32 && #[trigger] pfor_admissible(values@, u) ==> best_size < pfor_size(
                    values@,
                    u,
                ) || (best_size == pfor_size(values@, u) && best <= u),
            v <= best,
        decreases v,
    {
        v -= 1;
        let e: usize = count_exceptions(values, v);
        if 10 * e <= n {
            let size: usize = 1 + bits::packed_bytes(n, v) + 5 * e;
            if size <= best_size {
                best = v;
                best_size = size;
            }
        }
    }
    proof {
        pfor_width_unique(values@, best);
    }
    best
}

/// Append a patched array: the exception count, the packed low bits, and a
/// position with its high bits for each exception. Gives the width.
fn pack_pfor(values: &[u32], out: &mut Vec<u8>) -> (w: u8)
    requires
        values.len() <= 128,
    ensures
        w == encoded_width(PostingCodec::Pfor, values@),
        w <= 32,
        is_pfor_width(values@, w),
        final(out)@ == old(out)@ + encoded_array(PostingCodec::Pfor, values@),
{
    let w: u8 = find_optimal_bit_width(values);
    let n: usize = values.len();
    let ghost before = out@;
    let e: usize = count_exceptions(values, w);
    let p: u64 = codec::power(w);
    let mut low: Vec<u32> = Vec::with_capacity(n);
    let mut i: usize = 0;
    while i < n
        invariant
            i <= n,
            n == values.len(),
            p == pow2(w as nat),
            p > 0,
            low.len() == i,
            forall|k: int| 0 <= k < i ==> low@[k] == (values@[k] as nat % pow2(w as nat)) as u32,
        decreases n - i,
    {
        let v: u64 = values[i] as u64;
        proof {
            assert(v % p <= v) by (nonlinear_arith)
                requires
                    p > 0,
            ;
        }
        low.push((v % p) as u32);
        i += 1;
    }
    proof {
        assert(low@ =~= low_bits(values@, w as nat));
    }
    out.push(e as u8);
    pack::pack(Layout::Rows, &low, w, out);
    let ghost head = out@;
    let mut i: usize = 0;
    proof {
        assert(head + pfor_table(values@, w as nat, 0) =~= head);
    }
    while i < n
        invariant
            i <= n,
            n == values.len(),
            n <= 128,
            p == pow2(w as nat),
            p > 0,
            out@ == head + pfor_table(values@, w as nat, i as int),
        decreases n - i,
    {
        let v: u64 = values[i] as u64;
        if v >= p {
            proof {
                assert(v / p <= v) by (nonlinear_arith)
                    requires
                        p > 0,
                ;
            }
            out.push(i as u8);
            bytes::put_u32(out, (v / p) as u32);
            proof {
                assert(out@ =~= head + pfor_table(values@, w as nat, i + 1));
            }
        }
        i += 1;
    }
    proof {
        assert(out@ =~= before + encoded_array(PostingCodec::Pfor, values@));
    }
    w
}

/// Append one packed array and give its width.
pub fn encode_array(codec: PostingCodec, values: &[u32], out: &mut Vec<u8>) -> (w: u8)
    requires
        values.len() <= 128,
    ensures
        w == encoded_width(codec, values@),
        w <= 32,
        codec == PostingCodec::Pfor ==> is_pfor_width(values@, w),
        final(out)@ == old(out)@ + encoded_array(codec, values@),
{
    if codec == PostingCodec::Pfor {
        return pack_pfor(values, out);
    }
    let exact: u8 = bits::bits_needed(max_of(values));
    let w: u8 = if codec == PostingCodec::Rounded {
        round_bit_width(exact)
    } else {
        exact
    };
    let layout = if codec == PostingCodec::Simd4x && values.len() == 128 {
        Layout::Lanes
    } else {
        Layout::Rows
    };
    pack::pack(layout, values, w, out);
    w
}

} // verus!
