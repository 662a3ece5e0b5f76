//! Sparse posting lists: blocks, storing, seeking, merging and remapping.
use postings::block::TERMINATED;
use postings::sparse_block::BlockHeader;
use postings::sparse_block::PartSizes;
use postings::sparse_block::SparseBlock;
use postings::sparse_block::SparseError;
use postings::sparse_block::MAX_BLOCK_SIZE;
use postings::sparse_config::IndexSize;
use postings::sparse_config::SparseFormat;
use postings::sparse_config::SparseVectorConfig;
use postings::sparse_config::WeightQuantization;
use postings::sparse_list::BlockSparsePostingList;
use postings::sparse_postings::SparsePostingList;
use postings::sparse_skip::SparseSkipEntry;
use postings::sparse_skip::SparseSkipList;
use postings::sparse_vector::SparseEntry;
use postings::sparse_vector::SparseVector;
use postings::sparse_weights::QuantizedWeights;
use postings::sparse_weights::Weight;

/// The precision that a list keeps, computed with floating-point numbers.
fn quantize(weights: &[u32], quant: WeightQuantization) -> QuantizedWeights {
    let values: Vec<f32> = weights.iter().map(|&bits| f32::from_bits(bits)).collect();
    if quant == WeightQuantization::Float16 {
        return QuantizedWeights {
            scale: 0,
            min: 0,
            codes: values
                .iter()
                .map(|&w| half::f16::from_f32(w).to_bits())
                .collect(),
        };
    }
    let min = values.iter().copied().fold(f32::INFINITY, f32::min);
    let max = values.iter().copied().fold(f32::NEG_INFINITY, f32::max);
    let steps = if quant == WeightQuantization::UInt8 {
        255.0
    } else {
        15.0
    };
    let range = max - min;
    let scale = if range < f32::EPSILON { 1.0 } else { range / steps };
    QuantizedWeights {
        scale: scale.to_bits(),
        min: min.to_bits(),
        codes: values
            .iter()
            .map(|&w| u16::from(((w - min) / scale).round() as u8))
            .collect(),
    }
}

fn value(weight: Weight) -> f32 {
    match weight {
        Weight::Single(bits) => f32::from_bits(bits),
        Weight::Half(bits) => half::f16::from_bits(bits).to_f32(),
        Weight::Code { code, scale, min } => {
            code as f32 * f32::from_bits(scale) + f32::from_bits(min)
        }
    }
}

fn rows(postings: &[(u32, u16, f32)]) -> Vec<(u32, u16, u32)> {
    postings
        .iter()
        .map(|&(doc, ordinal, weight)| (doc, ordinal, weight.to_bits()))
        .collect()
}

fn build(postings: &[(u32, u16, f32)], quant: WeightQuantization) -> BlockSparsePostingList {
    BlockSparsePostingList::from_postings(&rows(postings), quant, &quantize)
}

fn build_sized(
    postings: &[(u32, u16, f32)],
    quant: WeightQuantization,
    size: usize,
) -> BlockSparsePostingList {
    BlockSparsePostingList::from_postings_with_block_size(&rows(postings), quant, size, &quantize)
}

fn bits(values: &[f32]) -> Vec<u32> {
    values.iter().map(|v| v.to_bits()).collect()
}

fn pairs(postings: &[(u32, f32)]) -> Vec<(u32, u32)> {
    postings.iter().map(|&(doc, w)| (doc, w.to_bits())).collect()
}

fn decoded_rows(list: &BlockSparsePostingList) -> Vec<(u32, u16, f32)> {
    list.decode_all()
        .into_iter()
        .map(|(doc, ordinal, weight)| (doc, ordinal, value(weight)))
        .collect()
}

#[test]
fn test_block_roundtrip() {
    let postings = vec![
        (10u32, 0u16, 1.5f32),
        (15, 0, 2.0),
        (20, 1, 0.5),
        (100, 0, 3.0),
    ];
    let block = SparseBlock::from_postings(&rows(&postings), WeightQuantization::Float32, &quantize);

    assert_eq!(block.decode_doc_ids(), vec![10, 15, 20, 100]);
    assert_eq!(block.decode_ordinals(), vec![0, 0, 1, 0]);
    let weights: Vec<f32> = block.decode_weights().into_iter().map(value).collect();
    assert!((weights[0] - 1.5).abs() < 0.01);
}

#[test]
fn test_max_size_block_ordinal_decode() {
    let postings: Vec<(u32, u16, f32)> = (0..MAX_BLOCK_SIZE)
        .map(|i| (i as u32, i as u16, i as f32 + 1.0))
        .collect();
    let list = build_sized(&postings, WeightQuantization::Float32, MAX_BLOCK_SIZE);

    assert_eq!(list.num_blocks(), 1);
    assert_eq!(list.blocks[0].decode_ordinals().len(), MAX_BLOCK_SIZE);
    assert_eq!(list.blocks[0].decode_ordinals()[255], 255);
}

#[test]
fn test_configurable_block_size_is_honored() {
    let postings: Vec<(u32, u16, f32)> = (0..300).map(|i| (i, 0, i as f32 + 1.0)).collect();

    let small = build_sized(&postings, WeightQuantization::Float32, 64);
    let large = build_sized(&postings, WeightQuantization::Float32, 256);

    assert_eq!(small.num_blocks(), 5);
    assert_eq!(small.blocks[0].header.count, 64);
    assert_eq!(large.num_blocks(), 2);
    assert_eq!(large.blocks[0].header.count, 256);
}

#[test]
fn test_posting_list() {
    let postings: Vec<(u32, u16, f32)> =
        (0..300).map(|i| (i * 2, 0, i as f32 * 0.1)).collect();
    let list =
        build(&postings, WeightQuantization::Float32);

    assert_eq!(list.doc_count(), 300);
    assert_eq!(list.num_blocks(), 3);

    let mut iter = list.iterator();
    assert_eq!(iter.doc(), 0);
    iter.advance();
    assert_eq!(iter.doc(), 2);
}

#[test]
fn test_serialization() {
    let postings = vec![(1u32, 0u16, 0.5f32), (10, 1, 1.5), (100, 0, 2.5)];
    let list =
        build(&postings, WeightQuantization::UInt8);

    let (block_data, skip_entries) = list.serialize().unwrap();
    let list2 =
        BlockSparsePostingList::from_parts(list.doc_count(), &block_data, &skip_entries)
            .unwrap();

    assert_eq!(list.doc_count(), list2.doc_count());
}

#[test]
fn streaming_serialization_is_byte_identical_to_per_block_buffers() {
    let postings: Vec<(u32, u16, f32)> = (0..1_000)
        .map(|index| {
            (
                index / 2,
                (index % 2) as u16,
                (index * 17 % 101) as f32 / 101.0,
            )
        })
        .collect();
    let list = build_sized(&postings, WeightQuantization::Float16, 64);

    let mut reference_data = Vec::new();
    let mut reference_skip = Vec::new();
    for block in &list.blocks {
        let mut buffered = Vec::new();
        block.write(&mut buffered).unwrap();
        reference_skip.push(SparseSkipEntry::new(
            block.header.first_doc_id,
            block.last_doc_id,
            reference_data.len() as u64,
            buffered.len() as u32,
            block.header.max_weight,
        ));
        reference_data.extend_from_slice(&buffered);
    }

    let (data, skip) = list.serialize().unwrap();
    assert_eq!(data, reference_data);
    assert_eq!(skip.len(), reference_skip.len());
    for (actual, expected) in skip.iter().zip(&reference_skip) {
        assert_eq!(actual.first_doc, expected.first_doc);
        assert_eq!(actual.last_doc, expected.last_doc);
        assert_eq!(actual.offset, expected.offset);
        assert_eq!(actual.length, expected.length);
        assert_eq!(actual.max_weight, expected.max_weight);
    }
}

#[test]
fn test_seek() {
    let postings: Vec<(u32, u16, f32)> = (0..500).map(|i| (i * 3, 0, i as f32)).collect();
    let list =
        build(&postings, WeightQuantization::Float32);

    let mut iter = list.iterator();
    assert_eq!(iter.seek(300), 300);
    assert_eq!(iter.seek(301), 303);
    assert_eq!(iter.seek(2000), TERMINATED);
}

#[test]
fn test_merge_with_offsets() {
    // Segment 1: docs 0, 5, 10 with weights
    let postings1: Vec<(u32, u16, f32)> = vec![(0, 0, 1.0), (5, 0, 2.0), (10, 1, 3.0)];
    let list1 =
        build(&postings1, WeightQuantization::Float32);

    // Segment 2: docs 0, 3, 7 with weights (will become 100, 103, 107 after merge)
    let postings2: Vec<(u32, u16, f32)> = vec![(0, 0, 4.0), (3, 1, 5.0), (7, 0, 6.0)];
    let list2 =
        build(&postings2, WeightQuantization::Float32);

    // Merge with offsets: segment 1 at offset 0, segment 2 at offset 100
    let merged = BlockSparsePostingList::merge_with_offsets(&[(&list1, 0), (&list2, 100)]);

    assert_eq!(merged.doc_count(), 6);

    // Verify all doc_ids are correct after merge
    let decoded = merged.decode_all();
    assert_eq!(decoded.len(), 6);

    // Segment 1 docs (offset 0)
    assert_eq!(decoded[0].0, 0);
    assert_eq!(decoded[1].0, 5);
    assert_eq!(decoded[2].0, 10);

    // Segment 2 docs (offset 100)
    assert_eq!(decoded[3].0, 100); // 0 + 100
    assert_eq!(decoded[4].0, 103); // 3 + 100
    assert_eq!(decoded[5].0, 107); // 7 + 100

    // Verify weights preserved
    assert!((value(decoded[0].2) - 1.0).abs() < 0.01);
    assert!((value(decoded[3].2) - 4.0).abs() < 0.01);

    // Verify ordinals preserved
    assert_eq!(decoded[2].1, 1); // ordinal from segment 1
    assert_eq!(decoded[4].1, 1); // ordinal from segment 2
}

#[test]
fn test_merge_with_offsets_multi_block() {
    // Create posting lists that span multiple blocks
    let postings1: Vec<(u32, u16, f32)> = (0..200).map(|i| (i * 2, 0, i as f32)).collect();
    let list1 =
        build(&postings1, WeightQuantization::Float32);
    assert!(list1.num_blocks() > 1, "Should have multiple blocks");

    let postings2: Vec<(u32, u16, f32)> = (0..150).map(|i| (i * 3, 1, i as f32)).collect();
    let list2 =
        build(&postings2, WeightQuantization::Float32);

    // Merge with offset 1000 for segment 2
    let merged = BlockSparsePostingList::merge_with_offsets(&[(&list1, 0), (&list2, 1000)]);

    assert_eq!(merged.doc_count(), 350);
    assert_eq!(merged.num_blocks(), list1.num_blocks() + list2.num_blocks());

    // Verify via iterator
    let mut iter = merged.iterator();

    // First segment docs start at 0
    assert_eq!(iter.doc(), 0);

    // Seek to segment 2 (should be at offset 1000)
    let doc = iter.seek(1000);
    assert_eq!(doc, 1000); // First doc of segment 2: 0 + 1000 = 1000

    // Next doc in segment 2
    iter.advance();
    assert_eq!(iter.doc(), 1003); // 3 + 1000 = 1003
}

#[test]
fn test_merge_with_offsets_serialize_roundtrip() {
    // Verify that serialization preserves adjusted doc_ids
    let postings1: Vec<(u32, u16, f32)> = vec![(0, 0, 1.0), (5, 0, 2.0), (10, 1, 3.0)];
    let list1 =
        build(&postings1, WeightQuantization::Float32);

    let postings2: Vec<(u32, u16, f32)> = vec![(0, 0, 4.0), (3, 1, 5.0), (7, 0, 6.0)];
    let list2 =
        build(&postings2, WeightQuantization::Float32);

    // Merge with offset 100 for segment 2
    let merged = BlockSparsePostingList::merge_with_offsets(&[(&list1, 0), (&list2, 100)]);

    // Serialize + reconstruct
    let (block_data, skip_entries) = merged.serialize().unwrap();
    let loaded =
        BlockSparsePostingList::from_parts(merged.doc_count(), &block_data, &skip_entries)
            .unwrap();

    // Verify doc_ids are preserved after round-trip
    let decoded = loaded.decode_all();
    assert_eq!(decoded.len(), 6);

    // Segment 1 docs (offset 0)
    assert_eq!(decoded[0].0, 0);
    assert_eq!(decoded[1].0, 5);
    assert_eq!(decoded[2].0, 10);

    // Segment 2 docs (offset 100) - CRITICAL: these must be offset-adjusted
    assert_eq!(decoded[3].0, 100, "First doc of seg2 should be 0+100=100");
    assert_eq!(decoded[4].0, 103, "Second doc of seg2 should be 3+100=103");
    assert_eq!(decoded[5].0, 107, "Third doc of seg2 should be 7+100=107");

    // Verify iterator also works correctly
    let mut iter = loaded.iterator();
    assert_eq!(iter.doc(), 0);
    iter.advance();
    assert_eq!(iter.doc(), 5);
    iter.advance();
    assert_eq!(iter.doc(), 10);
    iter.advance();
    assert_eq!(iter.doc(), 100);
    iter.advance();
    assert_eq!(iter.doc(), 103);
    iter.advance();
    assert_eq!(iter.doc(), 107);
}

#[test]
fn test_merge_seek_after_roundtrip() {
    // Create posting lists that span multiple blocks to test seek after merge
    let postings1: Vec<(u32, u16, f32)> = (0..200).map(|i| (i * 2, 0, 1.0)).collect();
    let list1 =
        build(&postings1, WeightQuantization::Float32);

    let postings2: Vec<(u32, u16, f32)> = (0..150).map(|i| (i * 3, 0, 2.0)).collect();
    let list2 =
        build(&postings2, WeightQuantization::Float32);

    // Merge with offset 1000 for segment 2
    let merged = BlockSparsePostingList::merge_with_offsets(&[(&list1, 0), (&list2, 1000)]);

    // Serialize + reconstruct
    let (block_data, skip_entries) = merged.serialize().unwrap();
    let loaded =
        BlockSparsePostingList::from_parts(merged.doc_count(), &block_data, &skip_entries)
            .unwrap();

    // Test seeking to various positions
    let mut iter = loaded.iterator();

    // Seek to doc in segment 1
    let doc = iter.seek(100);
    assert_eq!(doc, 100, "Seek to 100 in segment 1");

    // Seek to doc in segment 2 (1000 + offset)
    let doc = iter.seek(1000);
    assert_eq!(doc, 1000, "Seek to 1000 (first doc of segment 2)");

    // Seek to middle of segment 2
    let doc = iter.seek(1050);
    assert!(
        doc >= 1050,
        "Seek to 1050 should find doc >= 1050, got {}",
        doc
    );

    // Seek backwards should stay at current position (seek only goes forward)
    let doc = iter.seek(500);
    assert!(
        doc >= 1050,
        "Seek backwards should not go back, got {}",
        doc
    );

    // Fresh iterator - verify block boundaries work
    let mut iter2 = loaded.iterator();

    // Verify we can iterate through all docs
    let mut count = 0;
    let mut prev_doc = 0;
    while iter2.doc() != TERMINATED {
        let current = iter2.doc();
        if count > 0 {
            assert!(
                current > prev_doc,
                "Docs should be monotonically increasing: {} vs {}",
                prev_doc,
                current
            );
        }
        prev_doc = current;
        iter2.advance();
        count += 1;
    }
    assert_eq!(count, 350, "Should have 350 total docs");
}

#[test]
fn test_doc_count_multi_value() {
    // Multi-value: same doc_id with different ordinals
    // doc 0 has 3 ordinals, doc 5 has 2, doc 10 has 1 = 3 unique docs
    let postings: Vec<(u32, u16, f32)> = vec![
        (0, 0, 1.0),
        (0, 1, 1.5),
        (0, 2, 2.0),
        (5, 0, 3.0),
        (5, 1, 3.5),
        (10, 0, 4.0),
    ];
    let list =
        build(&postings, WeightQuantization::Float32);

    // doc_count should be 3 (unique docs), not 6 (total postings)
    assert_eq!(list.doc_count(), 3);

    // But we should still have all 6 postings accessible
    let decoded = list.decode_all();
    assert_eq!(decoded.len(), 6);
}

/// Test the zero-copy merge path used by the actual sparse merger:
/// serialize → get raw skip entries + block data → patch first_doc_id → reassemble.
/// This mirrors the code path in `segment/merger/sparse.rs`.
#[test]
fn test_zero_copy_merge_patches_first_doc_id() {
    // Build two multi-block posting lists
    let postings1: Vec<(u32, u16, f32)> = (0..200).map(|i| (i * 2, 0, i as f32)).collect();
    let list1 =
        build(&postings1, WeightQuantization::Float32);
    assert!(list1.num_blocks() > 1);

    let postings2: Vec<(u32, u16, f32)> = (0..150).map(|i| (i * 3, 1, i as f32)).collect();
    let list2 =
        build(&postings2, WeightQuantization::Float32);

    // Serialize both using V3 format (block_data + skip_entries)
    let (raw1, skip1) = list1.serialize().unwrap();
    let (raw2, skip2) = list2.serialize().unwrap();

    // --- Simulate the merger's zero-copy reassembly ---
    let doc_offset: u32 = 1000; // segment 2 starts at doc 1000
    let total_docs = list1.doc_count() + list2.doc_count();

    // Accumulate adjusted skip entries
    let mut merged_skip = Vec::new();
    let mut cumulative_offset = 0u64;
    for entry in &skip1 {
        merged_skip.push(SparseSkipEntry::new(
            entry.first_doc,
            entry.last_doc,
            cumulative_offset + entry.offset,
            entry.length,
            entry.max_weight,
        ));
    }
    if let Some(last) = skip1.last() {
        cumulative_offset += last.offset + last.length as u64;
    }
    for entry in &skip2 {
        merged_skip.push(SparseSkipEntry::new(
            entry.first_doc + doc_offset,
            entry.last_doc + doc_offset,
            cumulative_offset + entry.offset,
            entry.length,
            entry.max_weight,
        ));
    }

    // Concatenate raw block data: source 1 verbatim, source 2 with first_doc_id patched
    let mut merged_block_data = Vec::new();
    merged_block_data.extend_from_slice(&raw1);

    const FIRST_DOC_ID_OFFSET: usize = 8;
    let mut buf2 = raw2.to_vec();
    for entry in &skip2 {
        let off = entry.offset as usize + FIRST_DOC_ID_OFFSET;
        if off + 4 <= buf2.len() {
            let old = u32::from_le_bytes(buf2[off..off + 4].try_into().unwrap());
            let patched = (old + doc_offset).to_le_bytes();
            buf2[off..off + 4].copy_from_slice(&patched);
        }
    }
    merged_block_data.extend_from_slice(&buf2);

    // --- Reconstruct and verify ---
    let loaded =
        BlockSparsePostingList::from_parts(total_docs, &merged_block_data, &merged_skip)
            .unwrap();
    assert_eq!(loaded.doc_count(), 350);

    let mut iter = loaded.iterator();

    // Segment 1: docs 0, 2, 4, ..., 398
    assert_eq!(iter.doc(), 0);
    let doc = iter.seek(100);
    assert_eq!(doc, 100);
    let doc = iter.seek(398);
    assert_eq!(doc, 398);

    // Segment 2: docs 1000, 1003, 1006, ..., 1000 + 149*3 = 1447
    let doc = iter.seek(1000);
    assert_eq!(doc, 1000, "First doc of segment 2 should be 1000");
    iter.advance();
    assert_eq!(iter.doc(), 1003, "Second doc of segment 2 should be 1003");
    let doc = iter.seek(1447);
    assert_eq!(doc, 1447, "Last doc of segment 2 should be 1447");

    // Exhausted
    iter.advance();
    assert_eq!(iter.doc(), TERMINATED);

    // Also verify with merge_with_offsets to confirm identical results
    let reference =
        BlockSparsePostingList::merge_with_offsets(&[(&list1, 0), (&list2, doc_offset)]);
    let mut ref_iter = reference.iterator();
    let mut zc_iter = loaded.iterator();
    while ref_iter.doc() != TERMINATED {
        assert_eq!(
            ref_iter.doc(),
            zc_iter.doc(),
            "Zero-copy and reference merge should produce identical doc_ids"
        );
        assert!(
            (value(ref_iter.weight()) - value(zc_iter.weight())).abs() < 0.01,
            "Weights should match: {} vs {}",
            value(ref_iter.weight()),
            value(zc_iter.weight())
        );
        ref_iter.advance();
        zc_iter.advance();
    }
    assert_eq!(zc_iter.doc(), TERMINATED);
}

#[test]
fn test_doc_count_single_value() {
    // Single-value: each doc_id appears once (ordinal always 0)
    let postings: Vec<(u32, u16, f32)> =
        vec![(0, 0, 1.0), (5, 0, 2.0), (10, 0, 3.0), (15, 0, 4.0)];
    let list =
        build(&postings, WeightQuantization::Float32);

    // doc_count == total postings for single-value
    assert_eq!(list.doc_count(), 4);
}

#[test]
fn test_doc_count_multi_value_serialization_roundtrip() {
    // Verify doc_count survives serialization
    let postings: Vec<(u32, u16, f32)> =
        vec![(0, 0, 1.0), (0, 1, 1.5), (5, 0, 2.0), (5, 1, 2.5)];
    let list =
        build(&postings, WeightQuantization::Float32);
    assert_eq!(list.doc_count(), 2);

    let (block_data, skip_entries) = list.serialize().unwrap();
    let loaded =
        BlockSparsePostingList::from_parts(list.doc_count(), &block_data, &skip_entries)
            .unwrap();
    assert_eq!(loaded.doc_count(), 2);
}

#[test]
fn test_merge_preserves_weights_and_ordinals() {
    // Test that weights and ordinals are preserved after merge + roundtrip
    let postings1: Vec<(u32, u16, f32)> = vec![(0, 0, 1.5), (5, 1, 2.5), (10, 2, 3.5)];
    let list1 =
        build(&postings1, WeightQuantization::Float32);

    let postings2: Vec<(u32, u16, f32)> = vec![(0, 0, 4.5), (3, 1, 5.5), (7, 3, 6.5)];
    let list2 =
        build(&postings2, WeightQuantization::Float32);

    // Merge with offset 100 for segment 2
    let merged = BlockSparsePostingList::merge_with_offsets(&[(&list1, 0), (&list2, 100)]);

    // Serialize + reconstruct
    let (block_data, skip_entries) = merged.serialize().unwrap();
    let loaded =
        BlockSparsePostingList::from_parts(merged.doc_count(), &block_data, &skip_entries)
            .unwrap();

    // Verify all postings via iterator
    let mut iter = loaded.iterator();

    // Segment 1 postings
    assert_eq!(iter.doc(), 0);
    assert!(
        (value(iter.weight()) - 1.5).abs() < 0.01,
        "Weight should be 1.5, got {}",
        value(iter.weight())
    );
    assert_eq!(iter.ordinal(), 0);

    iter.advance();
    assert_eq!(iter.doc(), 5);
    assert!(
        (value(iter.weight()) - 2.5).abs() < 0.01,
        "Weight should be 2.5, got {}",
        value(iter.weight())
    );
    assert_eq!(iter.ordinal(), 1);

    iter.advance();
    assert_eq!(iter.doc(), 10);
    assert!(
        (value(iter.weight()) - 3.5).abs() < 0.01,
        "Weight should be 3.5, got {}",
        value(iter.weight())
    );
    assert_eq!(iter.ordinal(), 2);

    // Segment 2 postings (with offset 100)
    iter.advance();
    assert_eq!(iter.doc(), 100);
    assert!(
        (value(iter.weight()) - 4.5).abs() < 0.01,
        "Weight should be 4.5, got {}",
        value(iter.weight())
    );
    assert_eq!(iter.ordinal(), 0);

    iter.advance();
    assert_eq!(iter.doc(), 103);
    assert!(
        (value(iter.weight()) - 5.5).abs() < 0.01,
        "Weight should be 5.5, got {}",
        value(iter.weight())
    );
    assert_eq!(iter.ordinal(), 1);

    iter.advance();
    assert_eq!(iter.doc(), 107);
    assert!(
        (value(iter.weight()) - 6.5).abs() < 0.01,
        "Weight should be 6.5, got {}",
        value(iter.weight())
    );
    assert_eq!(iter.ordinal(), 3);

    // Verify exhausted
    iter.advance();
    assert_eq!(iter.doc(), TERMINATED);
}

#[test]
fn test_merge_global_max_weight() {
    // Verify global_max_weight is correct after merge
    let postings1: Vec<(u32, u16, f32)> = vec![
        (0, 0, 3.0),
        (1, 0, 7.0), // max in segment 1
        (2, 0, 2.0),
    ];
    let list1 =
        build(&postings1, WeightQuantization::Float32);

    let postings2: Vec<(u32, u16, f32)> = vec![
        (0, 0, 5.0),
        (1, 0, 4.0),
        (2, 0, 6.0), // max in segment 2
    ];
    let list2 =
        build(&postings2, WeightQuantization::Float32);

    // Verify original global max weights
    assert!((f32::from_bits(list1.global_max_weight()) - 7.0).abs() < 0.01);
    assert!((f32::from_bits(list2.global_max_weight()) - 6.0).abs() < 0.01);

    // Merge
    let merged = BlockSparsePostingList::merge_with_offsets(&[(&list1, 0), (&list2, 100)]);

    // Global max should be 7.0 (from segment 1)
    assert!(
        (f32::from_bits(merged.global_max_weight()) - 7.0).abs() < 0.01,
        "Global max should be 7.0, got {}",
        f32::from_bits(merged.global_max_weight())
    );

    // Roundtrip
    let (block_data, skip_entries) = merged.serialize().unwrap();
    let loaded =
        BlockSparsePostingList::from_parts(merged.doc_count(), &block_data, &skip_entries)
            .unwrap();

    assert!(
        (f32::from_bits(loaded.global_max_weight()) - 7.0).abs() < 0.01,
        "After roundtrip, global max should still be 7.0, got {}",
        f32::from_bits(loaded.global_max_weight())
    );
}

#[test]
fn test_scoring_simulation_after_merge() {
    // Simulate scoring: compute query_weight * stored_weight
    let postings1: Vec<(u32, u16, f32)> = vec![
        (0, 0, 0.5), // doc 0, weight 0.5
        (5, 0, 0.8), // doc 5, weight 0.8
    ];
    let list1 =
        build(&postings1, WeightQuantization::Float32);

    let postings2: Vec<(u32, u16, f32)> = vec![
        (0, 0, 0.6), // doc 100 after offset, weight 0.6
        (3, 0, 0.9), // doc 103 after offset, weight 0.9
    ];
    let list2 =
        build(&postings2, WeightQuantization::Float32);

    // Merge with offset 100
    let merged = BlockSparsePostingList::merge_with_offsets(&[(&list1, 0), (&list2, 100)]);

    // Roundtrip
    let (block_data, skip_entries) = merged.serialize().unwrap();
    let loaded =
        BlockSparsePostingList::from_parts(merged.doc_count(), &block_data, &skip_entries)
            .unwrap();

    // Simulate scoring with query_weight = 2.0
    let query_weight = 2.0f32;
    let mut iter = loaded.iterator();

    // Expected scores: query_weight * stored_weight
    // Doc 0: 2.0 * 0.5 = 1.0
    assert_eq!(iter.doc(), 0);
    let score = query_weight * value(iter.weight());
    assert!(
        (score - 1.0).abs() < 0.01,
        "Doc 0 score should be 1.0, got {}",
        score
    );

    iter.advance();
    // Doc 5: 2.0 * 0.8 = 1.6
    assert_eq!(iter.doc(), 5);
    let score = query_weight * value(iter.weight());
    assert!(
        (score - 1.6).abs() < 0.01,
        "Doc 5 score should be 1.6, got {}",
        score
    );

    iter.advance();
    // Doc 100: 2.0 * 0.6 = 1.2
    assert_eq!(iter.doc(), 100);
    let score = query_weight * value(iter.weight());
    assert!(
        (score - 1.2).abs() < 0.01,
        "Doc 100 score should be 1.2, got {}",
        score
    );

    iter.advance();
    // Doc 103: 2.0 * 0.9 = 1.8
    assert_eq!(iter.doc(), 103);
    let score = query_weight * value(iter.weight());
    assert!(
        (score - 1.8).abs() < 0.01,
        "Doc 103 score should be 1.8, got {}",
        score
    );
}

#[test]
fn test_sparse_vector_dot_product() {
    let v1 = SparseVector::from_entries(&[0, 2, 5], &bits(&[1.0, 2.0, 3.0]));
    let v2 = SparseVector::from_entries(&[1, 2, 5], &bits(&[1.0, 4.0, 2.0]));

    // dot = 0 + 2*4 + 3*2 = 14
    let dot: f32 = v1
        .matches(&v2)
        .iter()
        .map(|&(a, b)| f32::from_bits(a) * f32::from_bits(b))
        .sum();
    assert!((dot - 14.0).abs() < 1e-6);
}

#[test]
fn test_sparse_posting_list_float32() {
    let postings = vec![(0, 1.5), (5, 2.3), (10, 0.8), (100, 3.15)];
    let pl = SparsePostingList::from_postings(&pairs(&postings), WeightQuantization::Float32, &quantize);

    assert_eq!(pl.doc_count(), 4);

    let mut iter = pl.iterator();
    assert_eq!(iter.doc(), 0);
    assert!((value(iter.weight()) - 1.5).abs() < 1e-6);

    iter.advance();
    assert_eq!(iter.doc(), 5);
    assert!((value(iter.weight()) - 2.3).abs() < 1e-6);

    iter.advance();
    assert_eq!(iter.doc(), 10);

    iter.advance();
    assert_eq!(iter.doc(), 100);
    assert!((value(iter.weight()) - 3.15).abs() < 1e-6);

    iter.advance();
    assert_eq!(iter.doc(), TERMINATED);
}

#[test]
fn test_sparse_posting_list_uint8() {
    let postings = vec![(0, 0.0), (5, 0.5), (10, 1.0)];
    let pl = SparsePostingList::from_postings(&pairs(&postings), WeightQuantization::UInt8, &quantize);

    let decoded = pl.decode_all();
    assert_eq!(decoded.len(), 3);

    // UInt8 quantization should preserve relative ordering
    assert!(value(decoded[0].1) < value(decoded[1].1));
    assert!(value(decoded[1].1) < value(decoded[2].1));
}

#[test]
fn test_block_sparse_posting_list() {
    // Create enough postings to span multiple blocks
    let postings: Vec<(u32, u16, f32)> =
        (0..300).map(|i| (i * 2, 0, (i as f32) * 0.1)).collect();

    let pl =
        build(&postings, WeightQuantization::Float32);

    assert_eq!(pl.doc_count(), 300);
    assert!(pl.num_blocks() >= 2);

    // Test iteration
    let mut iter = pl.iterator();
    for (expected_doc, _, expected_weight) in &postings {
        assert_eq!(iter.doc(), *expected_doc);
        assert!((value(iter.weight()) - expected_weight).abs() < 1e-6);
        iter.advance();
    }
    assert_eq!(iter.doc(), TERMINATED);
}

#[test]
fn test_block_sparse_seek() {
    let postings: Vec<(u32, u16, f32)> = (0..500).map(|i| (i * 3, 0, i as f32)).collect();

    let pl =
        build(&postings, WeightQuantization::Float32);

    let mut iter = pl.iterator();

    // Seek to exact match
    assert_eq!(iter.seek(300), 300);

    // Seek to non-exact (should find next)
    assert_eq!(iter.seek(301), 303);

    // Seek beyond end
    assert_eq!(iter.seek(2000), TERMINATED);
}

#[test]
fn test_serialization_roundtrip() {
    let postings: Vec<(u32, u16, f32)> = vec![(0, 0, 1.0), (10, 0, 2.0), (100, 0, 3.0)];

    for quant in [
        WeightQuantization::Float32,
        WeightQuantization::Float16,
        WeightQuantization::UInt8,
    ] {
        let pl = build(&postings, quant);

        let (block_data, skip_entries) = pl.serialize().unwrap();
        let pl2 =
            BlockSparsePostingList::from_parts(pl.doc_count(), &block_data, &skip_entries)
                .unwrap();

        assert_eq!(pl.doc_count(), pl2.doc_count());

        // Verify iteration produces same results
        let mut iter1 = pl.iterator();
        let mut iter2 = pl2.iterator();

        while iter1.doc() != TERMINATED {
            assert_eq!(iter1.doc(), iter2.doc());
            assert!((value(iter1.weight()) - value(iter2.weight())).abs() < 0.1);
            iter1.advance();
            iter2.advance();
        }
    }
}

#[test]
fn test_concatenate() {
    let postings1: Vec<(u32, u16, f32)> = vec![(0, 0, 1.0), (5, 1, 2.0)];
    let postings2: Vec<(u32, u16, f32)> = vec![(0, 0, 3.0), (10, 1, 4.0)];

    let pl1 =
        build(&postings1, WeightQuantization::Float32);
    let pl2 =
        build(&postings2, WeightQuantization::Float32);

    // Merge manually
    let mut all: Vec<(u32, u16, f32)> = decoded_rows(&pl1);
    for (doc_id, ord, w) in decoded_rows(&pl2) {
        all.push((doc_id + 100, ord, w));
    }
    let merged =
        build(&all, WeightQuantization::Float32);

    assert_eq!(merged.doc_count(), 4);

    let decoded = decoded_rows(&merged);
    assert_eq!(decoded[0], (0, 0, 1.0));
    assert_eq!(decoded[1], (5, 1, 2.0));
    assert_eq!(decoded[2], (100, 0, 3.0));
    assert_eq!(decoded[3], (110, 1, 4.0));
}

#[test]
fn test_sparse_vector_config() {
    // Test default config
    let default = SparseVectorConfig::default();
    assert_eq!(default.index_size, IndexSize::U32);
    assert_eq!(default.weight_quantization, WeightQuantization::Float32);
    assert_eq!(default.half_bytes_per_entry() as f32 / 2.0, 8.0); // 4 + 4

    // The SPLADE preset compresses weights but keeps quality-sensitive
    // posting/query pruning opt-in.
    let splade = SparseVectorConfig::splade();
    assert_eq!(splade.index_size, IndexSize::U16);
    assert_eq!(splade.weight_quantization, WeightQuantization::UInt8);
    assert_eq!(splade.half_bytes_per_entry() as f32 / 2.0, 3.0); // 2 + 1
    assert_eq!(f32::from_bits(splade.weight_threshold), 0.01);
    assert_eq!(splade.pruning, None);
    assert!(splade.query_config.is_some());
    let query_cfg = splade.query_config.as_ref().unwrap();
    assert_eq!(f32::from_bits(query_cfg.heap_factor), 1.0);
    assert_eq!(query_cfg.max_query_dims, None);
    assert_eq!(query_cfg.pruning, None);

    let bmp = SparseVectorConfig::splade_bmp();
    assert_eq!(bmp.format, SparseFormat::Bmp);
    assert_eq!(bmp.pruning, None);
    let bmp_query_cfg = bmp.query_config.as_ref().unwrap();
    assert_eq!(f32::from_bits(bmp_query_cfg.heap_factor), 1.0);
    assert_eq!(bmp_query_cfg.max_query_dims, None);
    assert_eq!(bmp_query_cfg.pruning, None);

    // Test compact config
    let compact = SparseVectorConfig::compact();
    assert_eq!(compact.index_size, IndexSize::U16);
    assert_eq!(compact.weight_quantization, WeightQuantization::UInt4);
    assert_eq!(compact.half_bytes_per_entry() as f32 / 2.0, 2.5); // 2 + 0.5

    // Test conservative config
    let conservative = SparseVectorConfig::conservative();
    assert_eq!(conservative.index_size, IndexSize::U32);
    assert_eq!(
        conservative.weight_quantization,
        WeightQuantization::Float16
    );
    assert_eq!(f32::from_bits(conservative.weight_threshold), 0.005);
    assert_eq!(conservative.pruning, None);

    // Test byte serialization roundtrip (only index_size and weight_quantization are serialized)
    let byte = splade.to_byte();
    let restored = SparseVectorConfig::from_byte(byte).unwrap();
    assert_eq!(restored.index_size, splade.index_size);
    assert_eq!(restored.weight_quantization, splade.weight_quantization);
    // Note: Other fields (weight_threshold, pruning, query_config) are not
    // serialized in the byte format, so they revert to defaults after deserialization
}

#[test]
fn test_index_size() {
    assert_eq!(IndexSize::U16.bytes(), 2);
    assert_eq!(IndexSize::U32.bytes(), 4);
    assert_eq!(IndexSize::U16.max_value(), 65535);
    assert_eq!(IndexSize::U32.max_value(), u32::MAX);
}

#[test]
fn test_block_max_weight() {
    let postings: Vec<(u32, u16, f32)> = (0..300)
        .map(|i| (i as u32, 0, (i as f32) * 0.1))
        .collect();

    let pl =
        build(&postings, WeightQuantization::Float32);

    assert!((f32::from_bits(pl.global_max_weight()) - 29.9).abs() < 0.01);
    assert!(pl.num_blocks() >= 3);

    let block0_max = f32::from_bits(pl.block_max_weight(0).unwrap());
    assert!((block0_max - 12.7).abs() < 0.01);

    let block1_max = f32::from_bits(pl.block_max_weight(1).unwrap());
    assert!((block1_max - 25.5).abs() < 0.01);

    let block2_max = f32::from_bits(pl.block_max_weight(2).unwrap());
    assert!((block2_max - 29.9).abs() < 0.01);

    // Test iterator block_max methods
    let query_weight = 2.0;
    let mut iter = pl.iterator();
    assert!((f32::from_bits(iter.current_block_max_weight()) - 12.7).abs() < 0.01);
    assert!((query_weight * f32::from_bits(iter.current_block_max_weight()) - 25.4).abs() < 0.1);

    iter.seek(128);
    assert!((f32::from_bits(iter.current_block_max_weight()) - 25.5).abs() < 0.01);
}

#[test]
fn test_sparse_skip_list_serialization() {
    let mut skip_list = SparseSkipList::new();
    skip_list.push(0, 127, 0, 50, (12.7f32).to_bits());
    skip_list.push(128, 255, 100, 60, (25.5f32).to_bits());
    skip_list.push(256, 299, 200, 40, (29.9f32).to_bits());

    assert_eq!(skip_list.len(), 3);
    assert!((f32::from_bits(skip_list.global_max_weight()) - 29.9).abs() < 0.01);

    // Serialize
    let mut buffer = Vec::new();
    skip_list.write(&mut buffer);

    // Deserialize
    let (restored, read) = SparseSkipList::read(&buffer).unwrap();
    assert_eq!(read, buffer.len());

    assert_eq!(restored.len(), 3);
    assert!((f32::from_bits(restored.global_max_weight()) - 29.9).abs() < 0.01);

    // Verify entries
    let e0 = restored.get(0).unwrap();
    assert_eq!(e0.first_doc, 0);
    assert_eq!(e0.last_doc, 127);
    assert!((f32::from_bits(e0.max_weight) - 12.7).abs() < 0.01);

    let e1 = restored.get(1).unwrap();
    assert_eq!(e1.first_doc, 128);
    assert!((f32::from_bits(e1.max_weight) - 25.5).abs() < 0.01);
}

#[test]
fn deletion_remapping_preserves_quantized_weights_and_ordinals() {
    for quant in [
        WeightQuantization::Float32,
        WeightQuantization::Float16,
        WeightQuantization::UInt8,
        WeightQuantization::UInt4,
    ] {
        let input: Vec<_> = (0..255u32)
            .map(|i| (i / 2, (i % 2) as u16, 0.1 + i as f32 / 7.0))
            .collect();
        let source = SparseBlock::from_postings(&rows(&input), quant, &quantize);
        let source_weights = source.decode_weights();
        let compacted = source
            .remap_documents(&|doc: u32| (doc % 3 == 2).then_some(doc / 3))
            .unwrap();
        let expected: Vec<_> = input
            .iter()
            .enumerate()
            .filter(|(_, (doc, _, _))| doc % 3 == 2)
            .map(|(i, (_, ordinal, _))| (*ordinal, value(source_weights[i]).to_bits()))
            .collect();
        assert_eq!(
            compacted
                .decode_ordinals()
                .into_iter()
                .zip(compacted.decode_weights().into_iter().map(|w| value(w).to_bits()))
                .collect::<Vec<_>>(),
            expected
        );
        if matches!(quant, WeightQuantization::UInt8 | WeightQuantization::UInt4) {
            assert_eq!(&compacted.weights_data[..8], &source.weights_data[..8]);
        }
    }
}

#[test]
fn stored_blocks_refuse_every_kind_of_damage() {
    let block = SparseBlock::from_postings(
        &rows(&[(1, 0, 0.5), (300, 2, 1.0), (301, 0, -2.5)]),
        WeightQuantization::UInt4,
        &quantize,
    );
    assert_eq!(f32::from_bits(block.header.max_weight), 2.5);
    assert_eq!(block.header.doc_id_bits, 16);
    assert_eq!(block.header.ordinal_bits, 8);
    assert_eq!(block.last_doc_id(), 301);
    let mut bytes = Vec::new();
    block.write(&mut bytes).unwrap();
    assert_eq!(bytes.len(), 24 + 4 + 3 + 10);
    let (read, size) = SparseBlock::read(&bytes).unwrap();
    assert_eq!(size, bytes.len());
    assert_eq!(read.decode_doc_ids(), vec![1, 300, 301]);
    assert_eq!(read.decode_ordinals(), vec![0, 2, 0]);
    assert_eq!(BlockHeader::read(&bytes).unwrap(), block.header);
    assert_eq!(
        BlockHeader::read(&bytes[..15]).unwrap_err(),
        SparseError::TooSmall
    );
    let refused = |at: usize, value: u8| {
        let mut bad = bytes.clone();
        bad[at] = value;
        SparseBlock::from_owned_bytes(&bad).unwrap_err()
    };
    assert_eq!(
        SparseBlock::from_owned_bytes(&bytes[..23]).unwrap_err(),
        SparseError::TooSmall
    );
    assert_eq!(refused(4, 4), SparseError::Quantization);
    assert_eq!(refused(0, 0), SparseError::Empty(41));
    assert_eq!(
        refused(20, 200),
        SparseError::Overflow(PartSizes {
            count: 3,
            doc_ids: 4,
            ordinals: 3,
            weights: 200,
            need: 231,
            have: 41,
        })
    );
    assert_eq!(refused(2, 9), SparseError::Shape);
    assert_eq!(refused(0, 200), SparseError::Shape);
    let mut large = block.clone();
    large.weights_data = vec![0; 65_536];
    let mut out = vec![7];
    assert_eq!(
        large.write(&mut out).unwrap_err(),
        SparseError::TooLarge(4, 3, 65_536)
    );
    assert_eq!(out, [7]);
    let list = BlockSparsePostingList {
        doc_count: 3,
        blocks: vec![large],
    };
    assert_eq!(
        list.serialize().unwrap_err(),
        SparseError::TooLarge(4, 3, 65_536)
    );
}

#[test]
fn parts_outside_the_data_are_refused() {
    let list = build(&[(3, 0, 1.0), (9, 1, 2.0)], WeightQuantization::Float32);
    let (data, entries) = list.serialize().unwrap();
    assert_eq!(
        BlockSparsePostingList::from_parts(2, &data[1..], &entries).unwrap_err(),
        SparseError::Outside
    );
    assert_eq!(list.size_bytes(), 8 + 16 + 1 + 2 + 8);
    assert_eq!(
        entries,
        vec![SparseSkipEntry::new(3, 9, 0, data.len() as u32, 2.0f32.to_bits())]
    );
    assert_eq!(list.find_block(2), Some(0));
    assert_eq!(list.find_block(50), Some(0));
}

#[test]
fn partitions_decide_the_blocks() {
    let postings: Vec<(u32, u16, f32)> = (0..60).map(|i| (i * 2, 0, i as f32)).collect();
    let list = BlockSparsePostingList::from_postings_with_partition(
        &rows(&postings),
        WeightQuantization::Float32,
        &[16, 32, 64],
        &quantize,
    );
    assert_eq!(list.num_blocks(), 3);
    assert_eq!(list.blocks[2].header.count, 12);
    assert_eq!(decoded_rows(&list), postings);
    let mut iter = list.iterator();
    assert_eq!(iter.skip_to_next_block(), 32);
    assert_eq!(f32::from_bits(iter.current_block_max_weight()), 47.0);
    assert_eq!(iter.skip_to_next_block(), 96);
    assert_eq!(iter.skip_to_next_block(), TERMINATED);
    assert!(iter.is_exhausted());
    assert_eq!(iter.ordinal(), 0);
}

#[test]
fn lists_in_one_piece_store_read_and_seek_at_every_precision() {
    let postings: Vec<(u32, f32)> = (0..70).map(|i| (i * 9 + 1, i as f32 / 4.0)).collect();
    for quant in [
        WeightQuantization::Float32,
        WeightQuantization::Float16,
        WeightQuantization::UInt8,
        WeightQuantization::UInt4,
    ] {
        let list = SparsePostingList::from_postings(&pairs(&postings), quant, &quantize);
        let mut bytes = Vec::new();
        list.serialize(&mut bytes);
        let (read, size) = SparsePostingList::deserialize(&bytes).unwrap();
        assert_eq!(size, bytes.len());
        assert_eq!(read.quantization(), quant);
        let decoded = read.decode_all();
        assert_eq!(decoded, list.decode_all());
        for (i, &(doc, weight)) in decoded.iter().enumerate() {
            assert_eq!(doc, postings[i].0);
            assert!((value(weight) - postings[i].1).abs() <= 0.6);
        }
        let mut iter = read.iterator();
        assert_eq!(iter.seek(90), 91);
        assert_eq!(iter.advance(), 100);
        assert_eq!(iter.seek(10_000), TERMINATED);
        assert_eq!(value(iter.weight()), 0.0);
        for end in 0..bytes.len() {
            assert_eq!(
                SparsePostingList::deserialize(&bytes[..end]).unwrap_err(),
                SparseError::TooSmall
            );
        }
        let mut bad = bytes.clone();
        bad[0] = 4;
        assert_eq!(
            SparsePostingList::deserialize(&bad).unwrap_err(),
            SparseError::Quantization
        );
    }
    let empty = SparsePostingList::from_postings(&[], WeightQuantization::UInt8, &quantize);
    assert_eq!(empty.doc_count(), 0);
    assert!(empty.decode_all().is_empty());
}

#[test]
fn skip_entries_keep_their_places() {
    let entries = [
        SparseSkipEntry::new(0, 9, 0, 77, 1.5f32.to_bits()),
        SparseSkipEntry::new(10, 40, 1 << 40, 12, 0.5f32.to_bits()),
    ];
    let mut bytes = Vec::new();
    for entry in &entries {
        entry.write_to_vec(&mut bytes);
    }
    assert_eq!(bytes.len(), 2 * SparseSkipEntry::SIZE);
    assert_eq!(SparseSkipEntry::from_bytes(&bytes), entries[0]);
    assert_eq!(SparseSkipEntry::read_at(&bytes, 1), entries[1]);
    assert_eq!(SparseSkipEntry::read(&bytes, 24), Some(entries[1]));
    assert_eq!(SparseSkipEntry::read(&bytes, 25), None);
    let mut list = SparseSkipList::default();
    assert!(list.is_empty());
    assert_eq!(list.find_block(0), None);
    for e in &entries {
        list.push(e.first_doc, e.last_doc, e.offset, e.length, e.max_weight);
    }
    assert_eq!(list.iter(), &entries);
    assert_eq!(list.find_block(10), Some(1));
    assert_eq!(list.find_block(41), None);
    list.push(50, 60, 0, 0, (-3.0f32).to_bits());
    assert_eq!(f32::from_bits(list.global_max_weight()), 1.5);
}

#[test]
fn vectors_sort_stably_filter_and_keep_pairs() {
    let v = SparseVector::from_entries(&[7, 3, 7, 1], &bits(&[1.0, -2.0, 3.0, 0.5]));
    let dims: Vec<u32> = v.iter().iter().map(|e| e.dim_id).collect();
    assert_eq!(dims, vec![1, 3, 7, 7]);
    assert_eq!(f32::from_bits(v.iter()[2].weight), 1.0);
    let top = v.top_k(2);
    assert_eq!(
        top,
        vec![
            SparseEntry { dim_id: 7, weight: 3.0f32.to_bits() },
            SparseEntry { dim_id: 7, weight: 1.0f32.to_bits() },
        ]
    );
    assert_eq!(v.top_k(9).len(), 4);
    let heavy = v.filter_by_weight(1.5f32.to_bits());
    assert_eq!(
        heavy.to_pairs(),
        vec![(3, (-2.0f32).to_bits()), (7, 3.0f32.to_bits())]
    );
    let mut w = SparseVector::from_pairs(&[(9, 1.0f32.to_bits()), (2, 5.0f32.to_bits())]);
    w.sort_by_weight_desc();
    assert_eq!(w.iter()[0].dim_id, 2);
    w.sort_by_dim();
    assert_eq!(w.iter()[1].dim_id, 9);
    w.push(11, 0);
    assert_eq!(w.len(), 3);
    assert!(SparseVector::default().is_empty());
    assert!(SparseVector::with_capacity(4).is_empty());
    assert_eq!(SparseVector::new().len(), 0);
}

#[test]
fn weights_are_scored_and_summed_by_document() {
    let rows = rows(&[(10, 0, 2.0), (10, 1, 3.0), (12, 0, 0.5), (90, 0, 8.0)]);
    let block = SparseBlock::from_postings(&rows, WeightQuantization::Float32, &quantize);
    let mut scored = vec![7.0f32];
    block.decode_scored_weights_into(&|w: Weight| value(w) * 2.0, &mut scored);
    assert_eq!(scored, vec![4.0, 6.0, 1.0, 16.0]);

    let docs = block.decode_doc_ids();
    assert_eq!(docs, vec![10, 10, 12, 90]);
    let mut scores = vec![0.0f32; 4];
    scores[3] = 1.5;
    let mut dirty = vec![1u32];
    let count = block.accumulate_scored_weights(
        &docs,
        &mut scores,
        9,
        &mut dirty,
        &|score: f32| score == 0.0,
        &|score: f32, w: Weight| score + value(w) * 2.0,
    );
    assert_eq!(count, 4);
    assert_eq!(scores, vec![0.0, 10.0, 0.0, 2.5]);
    assert_eq!(dirty, vec![1, 10]);
}

#[test]
fn remapped_blocks_take_the_least_widths_and_keep_weight_codes() {
    let block = SparseBlock::from_postings(
        &rows(&[(1, 0, 0.5), (300, 2, 1.0), (301, 0, -2.5)]),
        WeightQuantization::UInt4,
        &quantize,
    );
    assert_eq!(&block.weights_data[8..], &[0xFD, 0]);
    let two = block
        .remap_documents(&|doc: u32| match doc {
            1 => Some(7),
            301 => Some(9),
            _ => None,
        })
        .unwrap();
    assert_eq!(two.header.count, 2);
    assert_eq!((two.header.doc_id_bits, two.header.ordinal_bits), (8, 0));
    assert_eq!(two.doc_ids_data, vec![2]);
    assert!(two.ordinals_data.is_empty());
    assert_eq!(&two.weights_data[..8], &block.weights_data[..8]);
    assert_eq!(&two.weights_data[8..], &[13]);
    assert_eq!((two.header.first_doc_id, two.last_doc_id), (7, 9));
    assert_eq!(two.header.max_weight, block.header.max_weight);
    let one = block
        .remap_documents(&|doc: u32| (doc == 300).then_some(4))
        .unwrap();
    assert_eq!(&one.weights_data[8..], &[15]);
    assert_eq!(one.ordinals_data, vec![2]);
    assert!(block.remap_documents(&|_: u32| None).is_none());
}

#[test]
fn documents_that_run_backwards_decode_without_a_gap() {
    let block = SparseBlock::from_postings(
        &rows(&[(5, 0, 1.0), (0, 1, 2.0), (3, 0, 3.0)]),
        WeightQuantization::Float32,
        &quantize,
    );
    assert!(block.is_readable());
    assert!(block.has_weights());
    assert_eq!(block.decode_doc_ids(), vec![5, 5, 8]);
    assert_eq!(block.last_doc_id(), 3);
    let over = SparseBlock::from_postings(
        &rows(&[(5, 0, 1.0), (0, 1, 2.0), (u32::MAX, 0, 3.0)]),
        WeightQuantization::Float32,
        &quantize,
    );
    assert!(!over.is_readable());
    assert!(over.has_weights());
    let mut short = block.clone();
    short.weights_data.truncate(11);
    assert!(!short.has_weights());
    assert!(!short.is_readable());
}
