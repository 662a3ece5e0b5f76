//! Impact envelopes: what they keep, what is refused, and how they travel
//! through merges.
use postings::codec::PostingCodec;
use postings::error::PostingError;
use postings::footer::Footer;
use postings::footer::FLAG_IMPACT_BOUNDS;
use postings::footer::FLAG_L1_BOUNDS;
use postings::footer::FOOTER_V2_SIZE;
use postings::impact_builder::encode_record;
use postings::impact_builder::ImpactBuilder;
use postings::impacts::push_points;
use postings::impacts::validate_record;
use postings::impacts::ImpactTable;
use postings::list::BlockPostingList;
use postings::posting::PostingList;

const MAX_LENGTH: u32 = 1 << 20;

fn lengths_of(list: &PostingList, length: impl Fn(u32) -> u32) -> Vec<u32> {
    list.postings.iter().map(|p| length(p.doc_id)).collect()
}

fn serialized(list: &BlockPostingList) -> Vec<u8> {
    let mut bytes = Vec::new();
    list.serialize(&mut bytes).unwrap();
    bytes
}

fn stream_of(list: &BlockPostingList) -> Vec<u8> {
    let bytes = serialized(list);
    let footer = Footer::parse(&bytes).unwrap();
    bytes[..footer.l0_start()].to_vec()
}

fn l0_bytes(list: &BlockPostingList) -> Vec<u8> {
    let bytes = serialized(list);
    let footer = Footer::parse(&bytes).unwrap();
    bytes[footer.l0_start()..footer.l0_end()].to_vec()
}

/// The least `(reciprocal + ratio * length) / tf` of a known record.
fn minimum(table: &ImpactTable, block: usize, reciprocal: f64, ratio: f64) -> Option<f64> {
    let record = table.record(block)?;
    if record.is_empty() {
        return None;
    }
    let mut points = Vec::new();
    push_points(record, &mut points);
    Some(
        points
            .iter()
            .map(|&(tf, len)| (reciprocal + ratio * f64::from(len)) / f64::from(tf))
            .fold(f64::INFINITY, f64::min),
    )
}

#[test]
fn complete_envelopes_use_existing_vints_and_oversized_envelopes_are_unknown() {
    let mut builder = ImpactBuilder::new(2).unwrap();
    let eight: Vec<_> = (1..=8).map(|tf| (tf, tf * tf)).collect();
    let nine: Vec<_> = (1..=9).map(|tf| (tf, tf * tf)).collect();
    builder.append_points(&eight).unwrap();
    builder.append_points(&nine).unwrap();
    let table = builder.finish().unwrap();
    ImpactTable::validate(&table.bytes(), 2).unwrap();
    assert_eq!(
        table.record(0).unwrap(),
        [8, 8, 64, 7, 49, 6, 36, 5, 25, 4, 16, 3, 9, 2, 4, 1, 1]
    );
    assert!(table.record(1).unwrap().is_empty());
    assert_eq!(minimum(&table, 1, 1.0, 1.0), None);
    let mut copied = ImpactBuilder::new(3).unwrap();
    copied.append(&[]).unwrap();
    for i in 0..2 {
        copied.append(table.record(i).unwrap()).unwrap();
    }
    let copied = copied.finish().unwrap();
    ImpactTable::validate(&copied.bytes(), 3).unwrap();
    assert_eq!(table.record(0), copied.record(1));
    assert_eq!(table.record(1), copied.record(2));
}
#[test]
fn encoded_envelopes_preserve_minima_across_positive_parameters_and_u32_extremes() {
    let mut seed = 7u64;
    for trial in 0..1000 {
        let mut next = || {
            seed = seed.wrapping_mul(6364136223846793005).wrapping_add(1);
            (seed >> 32) as u32
        };
        let values = [1, 2, 3, 127, 65535, 65536, 16777217, u32::MAX];
        let points: Vec<_> = (0..[1, 3, 8, 127, 128][trial % 5])
            .map(|_| {
                if trial % 2 == 0 {
                    (
                        values[next() as usize % values.len()],
                        values[next() as usize % values.len()],
                    )
                } else {
                    (next().max(1), next().max(1))
                }
            })
            .collect();
        let mut builder = ImpactBuilder::new(1).unwrap();
        builder.append_points(&points).unwrap();
        if let Some(table) = builder.finish() {
            ImpactTable::validate(&table.bytes(), 1).unwrap();
            for a in [0.0, 0.01, 0.25, 1.0] {
                for b in [0.0, 1e-39, 0.0001, 0.75, 1.0] {
                    let expected = points
                        .iter()
                        .map(|&(tf, len)| (a + b * f64::from(len)) / f64::from(tf))
                        .fold(f64::INFINITY, f64::min);
                    let actual = minimum(&table, 0, a, b).unwrap();
                    assert!(
                        (actual - expected).abs() <= expected.abs() * 8.0 * f64::EPSILON,
                        "trial={trial} a={a} b={b} expected={expected} actual={actual}"
                    );
                }
            }
        }
    }
}
#[test]
fn malformed_or_incomplete_envelopes_never_become_validated_views() {
    for record in [
        vec![0],
        vec![9],
        vec![0x81, 1, 1],
        vec![1, 0, 1],
        vec![1, 1, 0],
        vec![1, 0x80],
        vec![1, 1, 1, 0],
        vec![2, 1, 1, 2, 4],                      // frequencies out of order
        vec![2, 4, 2, 2, 1],                      // dominated equal length/TF ratio
        vec![3, 4, 16, 3, 12, 2, 4],              // non-convex/dominated intermediate point
        vec![1, 0xff, 0xff, 0xff, 0xff, 0x1f, 1], // exceeds u32
        vec![
            1, 0x80, 0x80, 0x80, 0x80, 0x80, 0x80, 0x80, 0x80, 0x80, 2, 1,
        ],
    ] {
        assert!(validate_record(&record).is_err(), "{record:?}");
    }
    let mut builder = ImpactBuilder::new(1).unwrap();
    builder.append_points(&[(u32::MAX, u32::MAX)]).unwrap();
    let table = builder.finish().unwrap();
    ImpactTable::validate(&table.bytes(), 1).unwrap();
    for end in 0..table.bytes().len() {
        assert!(ImpactTable::validate(&table.bytes()[..end], 1).is_err());
    }
    assert!(ImpactTable::validate(&table.bytes(), usize::MAX).is_err());
    assert!(ImpactBuilder::new(usize::MAX).is_err());
    for (offset, value) in [(0, 1u32), (4, 0), (4, u32::MAX)] {
        let mut bad = table.bytes();
        bad[offset..offset + 4].copy_from_slice(&value.to_le_bytes());
        assert!(ImpactTable::validate(&bad, 1).is_err());
    }
    let mut bad = table.bytes();
    bad.push(0);
    assert!(ImpactTable::validate(&bad, 1).is_err());
    assert_eq!(
        ImpactTable::validate_with(&table.bytes(), 1, || Err(PostingError::Cancelled)).unwrap_err(),
        PostingError::Cancelled
    );
}

#[test]
fn impact_records_copy_across_legacy_merges_without_changing_encoded_postings() {
    for codec in [
        PostingCodec::Rounded,
        PostingCodec::Packed,
        PostingCodec::Pfor,
        PostingCodec::Simd4x,
    ] {
        let mut postings = PostingList::new();
        for doc in 0..389 {
            postings.push(doc * 7, doc % 8 + 1);
        }
        let length = |doc: u32| (doc / 7 % 8 + 1).pow(2);
        let plain = BlockPostingList::from_posting_list_with_ratio_bounds(
            &postings,
            true,
            Some(&lengths_of(&postings, length)),
            codec,
            MAX_LENGTH,
        )
        .unwrap();
        let impacts = BlockPostingList::from_posting_list_with_impact_bounds(
            &postings,
            true,
            Some(&lengths_of(&postings, length)),
            codec,
            MAX_LENGTH,
        )
        .unwrap();
        assert_eq!(stream_of(&plain), stream_of(&impacts));
        assert_eq!(l0_bytes(&plain), l0_bytes(&impacts));
        assert_eq!(
            plain.ratios.as_ref().unwrap().as_slice(),
            impacts.ratios.as_ref().unwrap().as_slice()
        );
        let mut plain_bytes = Vec::new();
        plain.serialize(&mut plain_bytes).unwrap();
        let mut impact_bytes = Vec::new();
        impacts.serialize(&mut impact_bytes).unwrap();
        let reopened = BlockPostingList::deserialize(&impact_bytes).unwrap();
        let mut roundtrip = Vec::new();
        reopened.serialize(&mut roundtrip).unwrap();
        assert_eq!(roundtrip, impact_bytes);
        assert_eq!(reopened.block_impact_point_count(0), Some(8));
        assert_eq!(reopened.block_impact_point_count(99), None);
        let merged =
            BlockPostingList::concatenate_blocks(&[(plain, 0), (impacts.clone(), 10_000)])
                .unwrap();
        let mut typed_bytes = Vec::new();
        merged.serialize(&mut typed_bytes).unwrap();
        let mut streamed = Vec::new();
        let (_, size) = BlockPostingList::concatenate_streaming(
            &[(&plain_bytes, 0), (&impact_bytes, 10_000)],
            &mut streamed,
        )
        .unwrap();
        assert_eq!(streamed, typed_bytes);
        assert_eq!(size, streamed.len());
        for i in 0..impacts.num_blocks() {
            assert_eq!(merged.block_impact_point_count(i), Some(0));
            assert_eq!(
                merged
                    .impacts
                    .as_ref()
                    .unwrap()
                    .record(i + impacts.num_blocks()),
                impacts.impacts.as_ref().unwrap().record(i)
            );
        }
        let footer = Footer::parse(&impact_bytes).unwrap();
        for at in [
            footer.ratios_end(),
            footer.ratios_end() + (footer.l0_count + 1) * 4,
            impact_bytes.len() - FOOTER_V2_SIZE - 1,
        ] {
            let mut bad = impact_bytes.clone();
            bad[at] = 255;
            assert!(BlockPostingList::deserialize(&bad).is_err());
            let mut output = Vec::new();
            assert!(
                BlockPostingList::concatenate_streaming(&[(&bad, 0)], &mut output).is_err()
            );
            assert!(output.is_empty());
        }
        let mut short = PostingList::new();
        short.push(1, 1);
        let short = BlockPostingList::from_posting_list_with_impact_bounds(
            &short,
            false,
            Some(&[1]),
            codec,
            MAX_LENGTH,
        )
        .unwrap();
        assert!(!short.has_impact_bounds());
    }
}
#[test]
fn group_envelopes_preserve_minima_and_unknown_constituents_without_posting_decode() {
    let mut builder = ImpactBuilder::with_groups(17).unwrap();
    for block in 0..17 {
        if block == 9 {
            builder.append(&[]).unwrap();
        } else {
            builder
                .append_points(&[(1, 1 + block), (4, 16 + block)])
                .unwrap();
        }
    }
    builder.append_groups_with(17, &vec![None; 3]).unwrap();
    let table = builder.finish().unwrap();
    ImpactTable::validate(&table.bytes(), 20).unwrap();
    assert!(table.record(18).unwrap().is_empty());
    for group in [0, 2] {
        for a in [0.0, 0.25, 1.0] {
            for b in [0.0, 0.001, 0.75] {
                let expected = (group * 8..((group + 1) * 8).min(17))
                    .map(|block| minimum(&table, block, a, b).unwrap())
                    .fold(f64::INFINITY, f64::min);
                assert_eq!(minimum(&table, 17 + group, a, b), Some(expected));
            }
        }
    }
    assert!(ImpactBuilder::with_groups(usize::MAX).is_err());
    let mut small = ImpactBuilder::new(8).unwrap();
    for _ in 0..8 {
        small.append(&[1, 1, 1]).unwrap();
    }
    assert!(small.append_groups_with(8, &vec![None; 1]).is_err());
}

#[test]
fn aligned_groups_copy_original_vint_bytes_and_regrouping_keeps_l0_records_unchanged() {
    let mut postings = PostingList::new();
    for doc in 0..1024 {
        postings.push(doc, 1);
    }
    let mut list = BlockPostingList::from_posting_list_with_impact_bounds(
        &postings,
        false,
        Some(&lengths_of(&postings, |_| 1)),
        PostingCodec::Rounded,
        MAX_LENGTH,
    )
    .unwrap();
    // Legal nonminimal shared-vint representation distinguishes a byte
    // copy from reconstruction of the same numerical envelope.
    let original_group = [1, 0x81, 0, 0x81, 0];
    let mut records = ImpactBuilder::with_groups(8).unwrap();
    for block in 0..8 {
        records
            .append(list.impacts.as_ref().unwrap().record(block).unwrap())
            .unwrap();
    }
    records.append(&original_group).unwrap();
    list.impacts = records.finish();
    let mut original = Vec::new();
    list.serialize(&mut original).unwrap();
    BlockPostingList::deserialize(&original).unwrap();
    let mut old = list.clone();
    let mut records = ImpactBuilder::new(8).unwrap();
    for block in 0..8 {
        records
            .append(list.impacts.as_ref().unwrap().record(block).unwrap())
            .unwrap();
    }
    old.impacts = records.finish();
    assert!(!old.has_group_impact_bounds());
    let mut old_bytes = Vec::new();
    old.serialize(&mut old_bytes).unwrap();
    assert!(
        !BlockPostingList::deserialize(&old_bytes)
            .unwrap()
            .has_group_impact_bounds()
    );
    for sources in [
        vec![(list.clone(), 0), (list.clone(), 10_000)],
        vec![(old, 0), (list.clone(), 10_000)],
    ] {
        let merged = BlockPostingList::concatenate_blocks(&sources).unwrap();
        assert_eq!(
            merged.impacts.as_ref().unwrap().record(17),
            Some(original_group.as_slice())
        );
        let bytes: Vec<Vec<u8>> = sources
            .iter()
            .map(|(s, _)| {
                let mut b = Vec::new();
                s.serialize(&mut b).unwrap();
                b
            })
            .collect();
        let refs: Vec<_> = bytes
            .iter()
            .zip(&sources)
            .map(|(b, (_, base))| (b.as_slice(), *base))
            .collect();
        let mut streamed = Vec::new();
        BlockPostingList::concatenate_streaming(&refs, &mut streamed).unwrap();
        let mut typed = Vec::new();
        merged.serialize(&mut typed).unwrap();
        assert_eq!(streamed, typed);
    }
    let mut prefix = PostingList::new();
    prefix.push(0, 1);
    let prefix = BlockPostingList::from_posting_list(&prefix).unwrap();
    let merged =
        BlockPostingList::concatenate_blocks(&[(prefix, 0), (list.clone(), 10)]).unwrap();
    assert_eq!(merged.group_impact_point_count(0), Some(0));
    assert_eq!(
        merged.impacts.as_ref().unwrap().record(10),
        Some([1u8, 1, 1].as_slice())
    );
    for block in 0..8 {
        assert_eq!(
            merged.impacts.as_ref().unwrap().record(block + 1),
            list.impacts.as_ref().unwrap().record(block)
        );
    }
    for flag in [FLAG_IMPACT_BOUNDS, FLAG_L1_BOUNDS] {
        let mut bad = original.clone();
        let at = bad.len() - 12;
        bad[at] &= !(flag as u8);
        assert!(BlockPostingList::deserialize(&bad).is_err());
        let mut out = Vec::new();
        assert!(BlockPostingList::concatenate_streaming(&[(&bad, 0)], &mut out).is_err());
        assert!(out.is_empty());
    }
}

#[test]
fn points_have_one_envelope_in_any_order() {
    let mut points = vec![(9, 40), (7, 20), (5, 11), (5, 30), (3, 6), (2, 5), (1, 3), (8, 39)];
    let kept = encode_record(&points);
    assert!(!kept.is_empty());
    points.reverse();
    assert_eq!(encode_record(&points), kept);
    points.rotate_left(3);
    assert_eq!(encode_record(&points), kept);
}
