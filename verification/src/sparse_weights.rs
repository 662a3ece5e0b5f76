//! The weights of sparse postings at their stored precision.
use crate::bytes;
use crate::sparse_config::WeightQuantization;
use crate::sparse_config::INFINITY;
use crate::sparse_config::ONE;
use crate::sparse_config::SIGN;
use vstd::prelude::*;

verus! {

/// Weights at a lower precision. At half precision a code is the bits of the
/// nearest half; else it stands for `code * scale + min`.
#[derive(Debug, Clone)]
pub struct QuantizedWeights {
    pub scale: u32,
    pub min: u32,
    pub codes: Vec<u16>,
}

/// A decoded weight.
#[derive(Debug, Clone, Copy, PartialEq, Eq, Structural)]
pub enum Weight {
    /// The bits of a single-precision number.
    Single(u32),
    /// The bits of a half-precision number.
    Half(u16),
    /// A code with its scale and offset: `code * scale + min`.
    Code { code: u8, scale: u32, min: u32 },
}

/// Bytes that the first `count` weights take.
pub open spec fn weight_bytes(quant: WeightQuantization, count: int) -> int {
    match quant {
        WeightQuantization::Float32 => 4 * count,
        WeightQuantization::Float16 => 2 * count,
        WeightQuantization::UInt8 => 8 + count,
        WeightQuantization::UInt4 => 8 + (count + 1) / 2,
    }
}

/// Weight `i` of encoded ones.
pub open spec fn weight_at(quant: WeightQuantization, data: Seq<u8>, i: int) -> Weight {
    match quant {
        WeightQuantization::Float32 => Weight::Single(bytes::u32_at(data, 4 * i)),
        WeightQuantization::Float16 => Weight::Half(bytes::u16_at(data, 2 * i)),
        WeightQuantization::UInt8 => Weight::Code {
            code: data[8 + i],
            scale: bytes::u32_at(data, 0),
            min: bytes::u32_at(data, 4),
        },
        WeightQuantization::UInt4 => Weight::Code {
            code: if i % 2 == 0 {
                data[8 + i / 2] % 16
            } else {
                data[8 + i / 2] / 16
            },
            scale: bytes::u32_at(data, 0),
            min: bytes::u32_at(data, 4),
        },
    }
}

/// The first `count` encoded weights.
pub open spec fn weights_of(quant: WeightQuantization, data: Seq<u8>, count: int) -> Seq<Weight> {
    Seq::new(count as nat, |i: int| weight_at(quant, data, i))
}

/// The code at a place, or zero past the end, in four bits.
pub open spec fn low_code(codes: Seq<u16>, i: int) -> int {
    if i < codes.len() {
        codes[i] as int % 16
    } else {
        0
    }
}

/// Codes of four bits, the first of each two in the low half.
pub open spec fn code_pairs(codes: Seq<u16>) -> Seq<u8> {
    Seq::new(
        ((codes.len() + 1) / 2) as nat,
        |k: int| (low_code(codes, 2 * k) + 16 * low_code(codes, 2 * k + 1)) as u8,
    )
}

/// Codes of eight bits.
pub open spec fn code_bytes(codes: Seq<u16>) -> Seq<u8> {
    Seq::new(codes.len(), |i: int| (codes[i] % 0x100) as u8)
}

/// Halves.
pub open spec fn half_parts(codes: Seq<u16>) -> Seq<Seq<u8>> {
    Seq::new(codes.len(), |i: int| bytes::le16(codes[i]))
}

/// Codes as they are stored. All but halves stand after their scale and
/// offset.
pub open spec fn stored_codes(
    quant: WeightQuantization,
    scale: u32,
    min: u32,
    codes: Seq<u16>,
) -> Seq<u8> {
    if quant is Float16 {
        bytes::joined(half_parts(codes))
    } else {
        bytes::le32(scale) + bytes::le32(min) + (if quant is UInt8 {
            code_bytes(codes)
        } else {
            code_pairs(codes)
        })
    }
}

/// Whether `out` is what weights are stored as: numbers as they are, or the
/// codes of a quantizer. No codes are stored under scale one and offset
/// zero.
pub open spec fn are_stored<F: Fn(&[u32], WeightQuantization) -> QuantizedWeights>(
    weights: &[u32],
    quant: WeightQuantization,
    quantize: F,
    out: Seq<u8>,
) -> bool {
    if quant is Float32 {
        out == bytes::le32_all(weights@)
    } else if weights@.len() == 0 {
        out == stored_codes(quant, ONE, 0, Seq::empty())
    } else {
        exists|q: QuantizedWeights| #[trigger]
            quantize.ensures((weights, quant), q) && out == stored_codes(
                quant,
                q.scale,
                q.min,
                q.codes@,
            )
    }
}

/// Whether a quantizer gives one code for each weight.
pub open spec fn quantizes<F: Fn(&[u32], WeightQuantization) -> QuantizedWeights>(
    quantize: F,
) -> bool {
    &&& forall|w: &[u32], p: WeightQuantization|
        w@.len() > 0 && !(p is Float32) ==> #[trigger] quantize.requires((w, p))
    &&& forall|w: &[u32], p: WeightQuantization, q: QuantizedWeights| #[trigger]
        quantize.ensures((w, p), q) ==> q.codes@.len() == w@.len()
}

/// Encode weights. What full precision does not keep, a quantizer computes.
pub fn encode_weights<F: Fn(&[u32], WeightQuantization) -> QuantizedWeights>(
    weights: &[u32],
    quant: WeightQuantization,
    quantize: &F,
) -> (out: Vec<u8>)
    requires
        quantizes(*quantize),
    ensures
        are_stored(weights, quant, *quantize, out@),
        out@.len() == weight_bytes(quant, weights@.len() as int),
{
    broadcast use bytes::group_word_sizes;

    let mut out: Vec<u8> = Vec::new();
    if matches!(quant, WeightQuantization::Float32) {
        bytes::put_u32_all(&mut out, weights);
        proof {
            bytes::le32_all_len(weights@);
            assert(out@ =~= bytes::le32_all(weights@));
        }
        return out;
    }
    let q: QuantizedWeights = if weights.len() == 0 {
        QuantizedWeights { scale: ONE, min: 0, codes: Vec::new() }
    } else {
        quantize(weights, quant)
    };
    if matches!(quant, WeightQuantization::Float16) {
        encode_halves(q.codes.as_slice(), &mut out);
    } else {
        bytes::put_u32(&mut out, q.scale);
        bytes::put_u32(&mut out, q.min);
        if matches!(quant, WeightQuantization::UInt8) {
            encode_bytes(q.codes.as_slice(), &mut out);
        } else {
            encode_pairs(q.codes.as_slice(), &mut out);
        }
    }
    proof {
        assert(out@ =~= stored_codes(quant, q.scale, q.min, q.codes@));
        if weights@.len() == 0 {
            assert(q.codes@ =~= Seq::empty());
        }
    }
    out
}

pub(crate) fn encode_halves(codes: &[u16], out: &mut Vec<u8>)
    ensures
        final(out)@ == old(out)@ + bytes::joined(half_parts(codes@)),
        final(out)@.len() == old(out)@.len() + 2 * codes@.len(),
{
    let ghost parts = half_parts(codes@);
    let ghost start = out@;
    let mut i: usize = 0;
    proof {
        assert(out@ =~= start + bytes::joined(parts.take(0)));
    }
    while i < codes.len()
        invariant
            i <= codes@.len(),
            parts == half_parts(codes@),
            out@ == start + bytes::joined(parts.take(i as int)),
            out@.len() == start.len() + 2 * i,
        decreases codes@.len() - i,
    {
        let ghost before = out@;
        bytes::put_u16(out, codes[i]);
        proof {
            assert(out@ =~= before + parts[i as int]);
            assert(parts.take(i + 1).drop_last() =~= parts.take(i as int));
            assert(out@ =~= start + bytes::joined(parts.take(i + 1)));
        }
        i = i + 1;
    }
    proof {
        assert(parts.take(parts.len() as int) =~= parts);
    }
}

pub(crate) fn encode_bytes(codes: &[u16], out: &mut Vec<u8>)
    ensures
        final(out)@ == old(out)@ + code_bytes(codes@),
{
    let ghost start = out@;
    let mut i: usize = 0;
    while i < codes.len()
        invariant
            i <= codes@.len(),
            out@ == start + code_bytes(codes@).take(i as int),
        decreases codes@.len() - i,
    {
        out.push((codes[i] % 0x100) as u8);
        proof {
            assert(code_bytes(codes@).take(i + 1) =~= code_bytes(codes@).take(i as int).push(
                code_bytes(codes@)[i as int],
            ));
        }
        i = i + 1;
    }
    proof {
        assert(code_bytes(codes@).take(i as int) =~= code_bytes(codes@));
    }
}

pub(crate) fn encode_pairs(codes: &[u16], out: &mut Vec<u8>)
    ensures
        final(out)@ == old(out)@ + code_pairs(codes@),
{
    let ghost start = out@;
    let mut i: usize = 0;
    proof {
        assert(out@ =~= start + code_pairs(codes@).take(0));
    }
    let ghost mut k: int = 0;
    while i < codes.len()
        invariant
            0 <= k <= (codes@.len() + 1) / 2,
            i as int == 2 * k || (i == codes@.len() && 2 * k == i + 1),
            i <= codes.len(),
            out@ == start + code_pairs(codes@).take(k),
        decreases codes@.len() - i,
    {
        let low: u8 = (codes[i] % 16) as u8;
        let more: bool = codes.len() - i > 1;
        let high: u8 = if more {
            (codes[i + 1] % 16) as u8
        } else {
            0
        };
        out.push(low + 16 * high);
        proof {
            let pairs = code_pairs(codes@);
            assert(pairs[k] == low + 16 * high);
            assert(pairs.take(k + 1) =~= pairs.take(k).push(pairs[k]));
            k = k + 1;
        }
        i = if more {
            i + 2
        } else {
            i + 1
        };
    }
    proof {
        assert(code_pairs(codes@).take(k) =~= code_pairs(codes@));
    }
}

/// Weight `index` of encoded ones.
pub fn decode_weight_at(data: &[u8], quant: WeightQuantization, index: usize) -> (r: Weight)
    requires
        weight_bytes(quant, index + 1) <= data.len(),
    ensures
        r == weight_at(quant, data@, index as int),
{
    match quant {
        WeightQuantization::Float32 => Weight::Single(bytes::get_u32(data, index * 4)),
        WeightQuantization::Float16 => Weight::Half(bytes::get_u16(data, index * 2)),
        WeightQuantization::UInt8 => Weight::Code {
            code: data[8 + index],
            scale: bytes::get_u32(data, 0),
            min: bytes::get_u32(data, 4),
        },
        WeightQuantization::UInt4 => {
            let byte: u8 = data[8 + index / 2];
            let code: u8 = if index % 2 == 0 {
                byte % 16
            } else {
                byte / 16
            };
            Weight::Code { code, scale: bytes::get_u32(data, 0), min: bytes::get_u32(data, 4) }
        },
    }
}

/// Decode `count` weights. Codes of eight bits replace what `out` holds,
/// the others are added to it.
pub fn decode_weights_into(
    data: &[u8],
    quant: WeightQuantization,
    count: usize,
    out: &mut Vec<Weight>,
)
    requires
        weight_bytes(quant, count as int) <= data.len(),
    ensures
        final(out)@ == (if quant is UInt8 {
            Seq::empty()
        } else {
            old(out)@
        }) + weights_of(quant, data@, count as int),
{
    if matches!(quant, WeightQuantization::UInt8) {
        out.clear();
    }
    let ghost start = out@;
    let mut i: usize = 0;
    while i < count
        invariant
            i <= count,
            weight_bytes(quant, count as int) <= data.len(),
            out@ == start + weights_of(quant, data@, i as int),
        decreases count - i,
    {
        out.push(decode_weight_at(data, quant, i));
        proof {
            assert(out@ =~= start + weights_of(quant, data@, i + 1));
        }
        i = i + 1;
    }
}

/// Numbers stored at full precision are read back as they were.
pub proof fn numbers_read_back(bits: Seq<u32>, i: int)
    requires
        0 <= i < bits.len(),
    ensures
        weight_at(WeightQuantization::Float32, bytes::le32_all(bits), i) == Weight::Single(bits[i]),
{
    bytes::le32_all_index(bits, i);
}

/// The weight that a stored code is read as.
pub open spec fn coded(quant: WeightQuantization, scale: u32, min: u32, code: u16) -> Weight {
    match quant {
        WeightQuantization::Float16 => Weight::Half(code),
        WeightQuantization::UInt8 => Weight::Code { code: (code % 0x100) as u8, scale, min },
        _ => Weight::Code { code: (code % 16) as u8, scale, min },
    }
}

/// A weight read from a code is that code, whole: a half, or a code within
/// its bits under its scale and offset.
pub proof fn coded_is_whole(quant: WeightQuantization, scale: u32, min: u32, code: u16)
    ensures
        quant is Float16 ==> coded(quant, scale, min, code) == Weight::Half(code),
        quant is UInt8 && code < 256 || quant is UInt4 && code < 16 ==> coded(
            quant,
            scale,
            min,
            code,
        ) == (Weight::Code { code: code as u8, scale, min }),
{
}

/// Stored codes are read back, with their scale and offset unless they are
/// halves; of eight or four bits, the low ones.
pub proof fn codes_read_back(
    quant: WeightQuantization,
    scale: u32,
    min: u32,
    codes: Seq<u16>,
    i: int,
)
    requires
        !(quant is Float32),
        0 <= i < codes.len(),
    ensures
        stored_codes(quant, scale, min, codes).len() == weight_bytes(quant, codes.len() as int),
        weight_at(quant, stored_codes(quant, scale, min, codes), i) == coded(
            quant,
            scale,
            min,
            codes[i],
        ),
{
    broadcast use bytes::group_word_sizes;

    let b = stored_codes(quant, scale, min, codes);
    if quant is Float16 {
        let parts = half_parts(codes);
        assert forall|k: int| 0 <= k < parts.len() implies (#[trigger] parts[k]).len() == 2 by {}
        bytes::joined_uniform(parts, 2, i);
        bytes::joined_uniform(parts, 2, i + 1);
        bytes::joined_uniform(parts, 2, parts.len() as int);
        bytes::joined_position(parts, i);
        let s = parts[i];
        assert(b.subrange(2 * i, 2 * i + 2) == s);
        assert(b[2 * i] == s[0] && b[2 * i + 1] == s[1]);
        bytes::le16_roundtrip(codes[i]);
    } else {
        assert(b.subrange(0, 4) =~= bytes::le32(scale));
        assert(b.subrange(4, 8) =~= bytes::le32(min));
        bytes::le32_roundtrip(scale);
        bytes::le32_roundtrip(min);
        bytes::section_u32(b, 0, bytes::le32(scale), 0);
        bytes::section_u32(b, 4, bytes::le32(min), 0);
        if quant is UInt4 {
            let k = i / 2;
            let pairs = code_pairs(codes);
            assert(b[8 + k] == pairs[k]);
            let low = low_code(codes, 2 * k);
            let high = low_code(codes, 2 * k + 1);
            assert(0 <= low < 16 && 0 <= high < 16);
            assert((low + 16 * high) % 16 == low && (low + 16 * high) / 16 == high);
        }
    }
}

/// Whether bits are no number.
pub open spec fn is_nan(bits: u32) -> bool {
    bits % SIGN > INFINITY
}

/// The larger of a magnitude and that of a weight. What is not a number does
/// not count.
pub open spec fn larger_weight(max: u32, bits: u32) -> u32 {
    let magnitude = (bits % SIGN) as u32;
    if !is_nan(bits) && magnitude > max {
        magnitude
    } else {
        max
    }
}

/// The largest magnitude of weights.
pub open spec fn top_weight(bits: Seq<u32>) -> u32
    decreases bits.len(),
{
    if bits.len() == 0 {
        0
    } else {
        larger_weight(top_weight(bits.drop_last()), bits.last())
    }
}

/// No weight that is a number is above the largest magnitude, and some
/// weight reaches it unless it is zero.
pub proof fn top_weight_bounds(bits: Seq<u32>)
    ensures
        forall|i: int|
            0 <= i < bits.len() && !is_nan(#[trigger] bits[i]) ==> bits[i] % SIGN <= top_weight(
                bits,
            ),
        top_weight(bits) == 0 || exists|i: int|
            0 <= i < bits.len() && !is_nan(#[trigger] bits[i]) && bits[i] % SIGN == top_weight(
                bits,
            ),
    decreases bits.len(),
{
    if bits.len() > 0 {
        let rest = bits.drop_last();
        top_weight_bounds(rest);
        assert forall|i: int| 0 <= i < bits.len() && !is_nan(#[trigger] bits[i]) implies bits[i]
            % SIGN <= top_weight(bits) by {
            if i < rest.len() {
                assert(rest[i] == bits[i]);
            }
        }
        if top_weight(bits) != 0 {
            if top_weight(bits) == top_weight(rest) {
                let i = choose|i: int|
                    0 <= i < rest.len() && !is_nan(#[trigger] rest[i]) && rest[i] % SIGN
                        == top_weight(rest);
                assert(bits[i] == rest[i]);
            } else {
                assert(bits[bits.len() - 1] == bits.last());
            }
        }
    }
}

/// The largest magnitude of weights.
pub fn max_weight(bits: &[u32]) -> (r: u32)
    ensures
        r == top_weight(bits@),
{
    let mut max: u32 = 0;
    let mut i: usize = 0;
    proof {
        assert(bits@.take(0) =~= Seq::empty());
    }
    while i < bits.len()
        invariant
            i <= bits@.len(),
            max == top_weight(bits@.take(i as int)),
        decreases bits@.len() - i,
    {
        let magnitude: u32 = bits[i] % SIGN;
        if magnitude <= INFINITY && magnitude > max {
            max = magnitude;
        }
        proof {
            assert(bits@.take(i + 1).drop_last() =~= bits@.take(i as int));
        }
        i = i + 1;
    }
    proof {
        assert(bits@.take(bits@.len() as int) =~= bits@);
    }
    max
}

} // verus!
