//! Stored precisions of sparse weights.
use postings::sparse_config::WeightQuantization;
use postings::sparse_weights::decode_weight_at;
use postings::sparse_weights::decode_weights_into;
use postings::sparse_weights::encode_weights;
use postings::sparse_weights::max_weight;
use postings::sparse_weights::QuantizedWeights;
use postings::sparse_weights::Weight;

/// The precision that a list keeps, computed with floating-point numbers.
fn quantize(weights: &[u32], quant: WeightQuantization) -> QuantizedWeights {
    let values: Vec<f32> = weights.iter().map(|&bits| f32::from_bits(bits)).collect();
    if quant == WeightQuantization::Float16 {
        return QuantizedWeights {
            scale: 0,
            min: 0,
            codes: values
                .iter()
                .map(|&w| half::f16::from_f32(w).to_bits())
                .collect(),
        };
    }
    let min = values.iter().copied().fold(f32::INFINITY, f32::min);
    let max = values.iter().copied().fold(f32::NEG_INFINITY, f32::max);
    let steps = if quant == WeightQuantization::UInt8 {
        255.0
    } else {
        15.0
    };
    let range = max - min;
    let scale = if range < f32::EPSILON { 1.0 } else { range / steps };
    QuantizedWeights {
        scale: scale.to_bits(),
        min: min.to_bits(),
        codes: values
            .iter()
            .map(|&w| u16::from(((w - min) / scale).round() as u8))
            .collect(),
    }
}

fn value(weight: Weight) -> f32 {
    match weight {
        Weight::Single(bits) => f32::from_bits(bits),
        Weight::Half(bits) => half::f16::from_bits(bits).to_f32(),
        Weight::Code { code, scale, min } => {
            code as f32 * f32::from_bits(scale) + f32::from_bits(min)
        }
    }
}

fn bits(values: &[f32]) -> Vec<u32> {
    values.iter().map(|v| v.to_bits()).collect()
}

#[test]
fn shared_codec_keeps_existing_block_bytes_and_bulk_decode_values() {
    let weights = [-2.0f32, 0.0, 1.0];
    for (precision, expected) in [
        (
            WeightQuantization::Float32,
            weights
                .iter()
                .flat_map(|w| w.to_le_bytes())
                .collect::<Vec<_>>(),
        ),
        (WeightQuantization::Float16, vec![0, 0xc0, 0, 0, 0, 0x3c]),
        (
            WeightQuantization::UInt8,
            [
                (3.0f32 / 255.0).to_le_bytes().as_slice(),
                (-2.0f32).to_le_bytes().as_slice(),
                &[0, 170, 255],
            ]
            .concat(),
        ),
        (
            WeightQuantization::UInt4,
            [
                (3.0f32 / 15.0).to_le_bytes().as_slice(),
                (-2.0f32).to_le_bytes().as_slice(),
                &[0xa0, 0x0f],
            ]
            .concat(),
        ),
    ] {
        let encoded = encode_weights(&bits(&weights), precision, &quantize);
        assert_eq!(encoded, expected, "{precision:?} encoded bytes");
        let mut decoded = Vec::new();
        decode_weights_into(&encoded, precision, weights.len(), &mut decoded);
        assert_eq!(decoded.len(), weights.len());
        for (i, decoded) in decoded.iter().enumerate() {
            assert!(
                (value(*decoded) - value(decode_weight_at(&encoded, precision, i))).abs() < 1e-6,
                "{precision:?} scalar/bulk mismatch at {i}"
            );
        }
    }
}

#[test]
fn shared_sparse_precision_codecs_preserve_signed_endpoints_and_empty_vectors() {
    for precision in [
        WeightQuantization::Float32,
        WeightQuantization::Float16,
        WeightQuantization::UInt8,
        WeightQuantization::UInt4,
    ] {
        let bytes = encode_weights(&bits(&[-2.0, 0.0, 1.0]), precision, &quantize);
        for (i, expected) in [-2.0, 0.0, 1.0].into_iter().enumerate() {
            assert!((value(decode_weight_at(&bytes, precision, i)) - expected).abs() < 1e-6);
        }
        let empty = encode_weights(&[], precision, &quantize);
        if matches!(
            precision,
            WeightQuantization::UInt8 | WeightQuantization::UInt4
        ) {
            assert_eq!(empty, [1.0f32.to_le_bytes(), 0.0f32.to_le_bytes()].concat());
        } else {
            assert!(empty.is_empty());
        }
    }
}

#[test]
fn the_largest_magnitude_ignores_what_is_not_a_number() {
    assert_eq!(
        max_weight(&bits(&[0.5, -7.25, f32::NAN, 3.0])),
        7.25f32.to_bits()
    );
    assert_eq!(max_weight(&bits(&[f32::NAN])), 0);
    assert_eq!(max_weight(&[]), 0);
    assert_eq!(
        max_weight(&bits(&[f32::NEG_INFINITY])),
        f32::INFINITY.to_bits()
    );
}

#[test]
fn codes_of_eight_bits_replace_and_others_append() {
    let encoded = encode_weights(&bits(&[1.0, 2.0]), WeightQuantization::UInt8, &quantize);
    let mut out = vec![Weight::Single(9)];
    decode_weights_into(&encoded, WeightQuantization::UInt8, 2, &mut out);
    assert_eq!(out.len(), 2);
    let encoded = encode_weights(&bits(&[1.0, 2.0]), WeightQuantization::Float32, &quantize);
    decode_weights_into(&encoded, WeightQuantization::Float32, 2, &mut out);
    assert_eq!(out.len(), 4);
    assert_eq!(out[3], Weight::Single(2.0f32.to_bits()));
}
