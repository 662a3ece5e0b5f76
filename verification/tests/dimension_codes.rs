//! Encoded dimensions of sparse vectors.
use postings::dimensions::decode;
use postings::dimensions::decode_scalar;
use postings::dimensions::encode;
use postings::dimensions::Dimensions;
use postings::dimensions::DOT;
use postings::dimensions::RAW;
use postings::dimensions::U16;
use postings::dimensions::U24;

fn all(mut dims: Dimensions<'_, false>) -> Vec<u32> {
    let mut out = Vec::new();
    while let Some(dim) = dims.next() {
        out.push(dim);
    }
    out
}

#[test]
fn every_control_decodes_identically_with_exact_extents() {
    for control in 0..=255u8 {
        let mut bytes = Vec::new();
        for lane in 0..8 {
            bytes.push(lane + 1);
            if control & (1 << lane) != 0 {
                bytes.push(1);
            }
        }
        assert_eq!(
            decode(control, &bytes, 19),
            decode_scalar(control, &bytes, 19)
        );
    }
}
#[test]
fn alignment_tails_partial_iteration_and_large_ids_roundtrip() {
    for count in 0..=137 {
        for stride in [1, 255, 256, 512, 65_535, 100_000] {
            let values: Vec<_> = (0..count).map(|i| (i as u32 * stride, 0.0)).collect();
            for compact in [false, true] {
                let (encoding, bytes) = encode(&values, compact);
                assert!(bytes.len() <= count * 4);
                for consumed in [0, 1, 7, 8, 9, count] {
                    let mut dims = Dimensions::<false>::new(&bytes, count, encoding);
                    for _ in 0..consumed {
                        dims.next();
                    }
                    let actual = dims.fold_indexed(
                        Vec::new(),
                        |mut out: Vec<u32>, index: usize, dim: u32| {
                            assert_eq!(index, consumed.min(count) + out.len());
                            out.push(dim);
                            out
                        },
                    );
                    assert_eq!(
                        actual,
                        values
                            .iter()
                            .skip(consumed)
                            .map(|p| p.0)
                            .collect::<Vec<_>>()
                    );
                }
            }
        }
    }
}
#[test]
fn vocabularies_above_u16_compress_gaps_without_truncating_dimensions() {
    for base in [0, 70_000, u32::MAX - 10_000] {
        let values: Vec<_> = (0..137).map(|i| (base + i * 7, 0.0)).collect();
        let (encoding, bytes) = encode(&values, true);
        assert_eq!(encoding, DOT);
        assert!(all(Dimensions::<false>::new(&bytes, values.len(), encoding))
            .into_iter()
            .eq(values.iter().map(|v| v.0)));
    }
}
#[test]
fn fixed_width_fallbacks_keep_exact_u16_u24_and_u32_boundaries() {
    for (dimension, expected) in [
        (65535, U16),
        (65536, U24),
        (0x00ff_ffff, U24),
        (0x0100_0000, RAW),
        (u32::MAX, RAW),
    ] {
        let values = [(dimension, 1.0)];
        let (encoding, bytes) = encode(&values, true);
        assert_eq!(encoding, expected);
        assert_eq!(
            all(Dimensions::<false>::new(&bytes, 1, encoding)),
            [dimension]
        );
    }
}

#[test]
fn a_group_is_one_control_byte_and_its_gaps() {
    let values: Vec<(u32, ())> = [5, 6, 306, 307, 308, 309, 310, 311, 900]
        .iter()
        .map(|&dim| (70_000 + dim, ()))
        .collect();
    let (encoding, bytes) = encode(&values, true);
    assert_eq!(encoding, DOT);
    assert_eq!(
        bytes,
        vec![0x75, 0x11, 1, 0, 0b100, 0, 1, 44, 1, 1, 1, 1, 1, 1, 0xF4, 0x14, 1, 0]
    );
    let mut dims = Dimensions::<false>::new(&bytes, 9, encoding);
    assert_eq!(dims.size_hint(), (9, Some(9)));
    assert_eq!(dims.next(), Some(70_005));
    assert_eq!(dims.position(), 1);
    let (raw, plain) = encode(&values, false);
    assert_eq!(raw, RAW);
    let mut dims = Dimensions::<true>::new(&plain, 9, DOT);
    assert_eq!(dims.next(), Some(70_005));
    assert_eq!(decode(0, &[1, 1, 1, 1, 1, 1, 1, 1], 10)[7], 18);
}
