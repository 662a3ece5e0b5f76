//! Posting lists in blocks of packed rows and packed planes.
use postings::bits::bits_needed;
use postings::bp128::pack_vertical;
use postings::bp128::unpack_vertical;
use postings::bp128::VERTICAL_BP128_BLOCK_SIZE;
use postings::bp128_list::RoundedBP128PostingList;
use postings::bp128_list::VerticalBP128PostingList;

/// A score that grows with the frequency, as bits.
fn score(idf: f32) -> impl Fn(u32) -> u32 {
    move |tf| (idf * tf as f32 * 2.2 / (tf as f32 + 1.2)).to_bits()
}

#[test]
fn test_rounded_bp128_basic() {
    let doc_ids: Vec<u32> = vec![1, 5, 10, 15, 20];
    let term_freqs: Vec<u32> = vec![1, 2, 3, 4, 5];

    let posting_list = RoundedBP128PostingList::from_postings(&doc_ids, &term_freqs, score(1.0));
    assert_eq!(posting_list.doc_count, 5);

    let mut iter = posting_list.iterator();
    for (i, (&expected_doc, &expected_tf)) in doc_ids.iter().zip(term_freqs.iter()).enumerate()
    {
        assert_eq!(iter.doc(), expected_doc, "Doc mismatch at {}", i);
        assert_eq!(iter.term_freq(), expected_tf, "TF mismatch at {}", i);
        iter.advance();
    }
    assert_eq!(iter.doc(), u32::MAX);
}

#[test]
fn test_rounded_bp128_large_block() {
    // Test with a full 128-element block
    let doc_ids: Vec<u32> = (0..128).map(|i| i * 5 + 100).collect();
    let term_freqs: Vec<u32> = vec![1; 128];

    let posting_list = RoundedBP128PostingList::from_postings(&doc_ids, &term_freqs, score(1.0));
    let decoded = posting_list.blocks[0].decode_doc_ids();

    assert_eq!(decoded.len(), 128);
    for (i, (&expected, &actual)) in doc_ids.iter().zip(decoded.iter()).enumerate() {
        assert_eq!(expected, actual, "Mismatch at position {}", i);
    }
}

#[test]
fn test_rounded_bp128_serialization() {
    let doc_ids: Vec<u32> = (0..200).map(|i| i * 7 + 100).collect();
    let term_freqs: Vec<u32> = (0..200).map(|i| (i % 5) as u32 + 1).collect();

    let posting_list = RoundedBP128PostingList::from_postings(&doc_ids, &term_freqs, score(1.0));

    let mut buffer = Vec::new();
    posting_list.serialize(&mut buffer);

    let (restored, read) = RoundedBP128PostingList::deserialize(&buffer).unwrap();
    assert_eq!(read, buffer.len());
    assert_eq!(restored.doc_count, posting_list.doc_count);

    // Verify iteration produces same results
    let mut iter1 = posting_list.iterator();
    let mut iter2 = restored.iterator();

    while iter1.doc() != u32::MAX {
        assert_eq!(iter1.doc(), iter2.doc());
        assert_eq!(iter1.term_freq(), iter2.term_freq());
        iter1.advance();
        iter2.advance();
    }
}

#[test]
fn test_rounded_bp128_seek() {
    let doc_ids: Vec<u32> = vec![10, 20, 30, 100, 200, 300, 1000, 2000];
    let term_freqs: Vec<u32> = vec![1, 2, 3, 4, 5, 6, 7, 8];

    let posting_list = RoundedBP128PostingList::from_postings(&doc_ids, &term_freqs, score(1.0));
    let mut iter = posting_list.iterator();

    assert_eq!(iter.seek(25), 30);
    assert_eq!(iter.seek(100), 100);
    assert_eq!(iter.seek(500), 1000);
    assert_eq!(iter.seek(3000), u32::MAX);
}

#[test]
fn test_rounded_bit_widths() {
    // Test that bit widths are actually rounded
    let doc_ids: Vec<u32> = (0..128).map(|i| i * 100).collect(); // Large gaps -> needs >8 bits
    let term_freqs: Vec<u32> = vec![1; 128]; // Small TFs -> 0 bits (all zeros after -1)

    let posting_list = RoundedBP128PostingList::from_postings(&doc_ids, &term_freqs, score(1.0));
    let block = &posting_list.blocks[0];

    // Doc bit width should be rounded to 8, 16, or 32
    assert!(
        block.doc_bit_width == 0
            || block.doc_bit_width == 8
            || block.doc_bit_width == 16
            || block.doc_bit_width == 32,
        "Doc bit width {} is not rounded",
        block.doc_bit_width
    );

    // TF bit width should be rounded
    assert!(
        block.tf_bit_width == 0
            || block.tf_bit_width == 8
            || block.tf_bit_width == 16
            || block.tf_bit_width == 32,
        "TF bit width {} is not rounded",
        block.tf_bit_width
    );
}


#[test]
fn test_pack_unpack_vertical() {
    let mut values = [0u32; VERTICAL_BP128_BLOCK_SIZE];
    for (i, v) in values.iter_mut().enumerate() {
        *v = (i * 3) as u32;
    }

    let max_val = values.iter().max().copied().unwrap();
    let bit_width = bits_needed(max_val);

    let mut packed = Vec::new();
    pack_vertical(&values, bit_width, &mut packed);

    let mut unpacked = [0u32; VERTICAL_BP128_BLOCK_SIZE];
    unpack_vertical(&packed, bit_width, &mut unpacked);

    assert_eq!(values, unpacked);
}

#[test]
fn test_pack_unpack_vertical_various_widths() {
    for bit_width in 1..=20 {
        let mut values = [0u32; VERTICAL_BP128_BLOCK_SIZE];
        let max_val = (1u32 << bit_width) - 1;
        for (i, v) in values.iter_mut().enumerate() {
            *v = (i as u32) % (max_val + 1);
        }

        let mut packed = Vec::new();
        pack_vertical(&values, bit_width, &mut packed);

        let mut unpacked = [0u32; VERTICAL_BP128_BLOCK_SIZE];
        unpack_vertical(&packed, bit_width, &mut unpacked);

        assert_eq!(values, unpacked, "Failed for bit_width={}", bit_width);
    }
}

#[test]
fn test_simd_bp128_posting_list() {
    let doc_ids: Vec<u32> = (0..200).map(|i| i * 2).collect();
    let term_freqs: Vec<u32> = (0..200).map(|i| (i % 10) + 1).collect();

    let list = VerticalBP128PostingList::from_postings(&doc_ids, &term_freqs, score(1.0));

    assert_eq!(list.doc_count, 200);
    assert_eq!(list.blocks.len(), 2); // 128 + 72

    let mut iter = list.iterator();
    for (i, &expected_doc) in doc_ids.iter().enumerate() {
        assert_eq!(iter.doc(), expected_doc, "Doc mismatch at {}", i);
        assert_eq!(iter.term_freq(), term_freqs[i], "TF mismatch at {}", i);
        if i < doc_ids.len() - 1 {
            iter.advance();
        }
    }
}

#[test]
fn test_simd_bp128_seek() {
    let doc_ids: Vec<u32> = vec![10, 20, 30, 100, 200, 300, 1000, 2000];
    let term_freqs: Vec<u32> = vec![1, 2, 3, 4, 5, 6, 7, 8];

    let list = VerticalBP128PostingList::from_postings(&doc_ids, &term_freqs, score(1.0));
    let mut iter = list.iterator();

    assert_eq!(iter.seek(25), 30);
    assert_eq!(iter.seek(100), 100);
    assert_eq!(iter.seek(500), 1000);
    assert_eq!(iter.seek(3000), u32::MAX);
}

#[test]
fn test_simd_bp128_serialization() {
    let doc_ids: Vec<u32> = (0..300).map(|i| i * 3).collect();
    let term_freqs: Vec<u32> = (0..300).map(|i| (i % 5) + 1).collect();

    let list = VerticalBP128PostingList::from_postings(&doc_ids, &term_freqs, score(1.5));

    let mut buffer = Vec::new();
    list.serialize(&mut buffer);

    let (restored, read) = VerticalBP128PostingList::deserialize(&buffer).unwrap();
    assert_eq!(read, buffer.len());

    assert_eq!(restored.doc_count, list.doc_count);
    assert_eq!(restored.blocks.len(), list.blocks.len());

    let mut iter1 = list.iterator();
    let mut iter2 = restored.iterator();

    while iter1.doc() != u32::MAX {
        assert_eq!(iter1.doc(), iter2.doc());
        assert_eq!(iter1.term_freq(), iter2.term_freq());
        iter1.advance();
        iter2.advance();
    }
}

#[test]
fn test_vertical_layout_size() {
    // True vertical layout: BLOCK_SIZE * bit_width / 8 bytes (optimal)
    let mut values = [0u32; VERTICAL_BP128_BLOCK_SIZE];
    for (i, v) in values.iter_mut().enumerate() {
        *v = i as u32;
    }

    let bit_width = bits_needed(127); // 7 bits
    assert_eq!(bit_width, 7);

    let mut packed = Vec::new();
    pack_vertical(&values, bit_width, &mut packed);

    // True vertical layout: 128 * 7 / 8 = 112 bytes (optimal, no padding)
    let expected_bytes = (VERTICAL_BP128_BLOCK_SIZE * bit_width as usize) / 8;
    assert_eq!(expected_bytes, 112);
    assert_eq!(packed.len(), expected_bytes);
}

#[test]
fn test_simd_bp128_block_max() {
    // Create a large posting list that spans multiple blocks
    let doc_ids: Vec<u32> = (0..500).map(|i| i * 2).collect();
    // Vary term frequencies so different blocks have different max_tf
    let term_freqs: Vec<u32> = (0..500)
        .map(|i| {
            if i < 128 {
                1 // Block 0: max_tf = 1
            } else if i < 256 {
                5 // Block 1: max_tf = 5
            } else if i < 384 {
                10 // Block 2: max_tf = 10
            } else {
                3 // Block 3: max_tf = 3
            }
        })
        .collect();

    let list = VerticalBP128PostingList::from_postings(&doc_ids, &term_freqs, score(2.0));

    // Should have 4 blocks (500 docs / 128 per block)
    assert_eq!(list.blocks.len(), 4);
    assert_eq!(list.blocks[0].max_tf, 1);
    assert_eq!(list.blocks[1].max_tf, 5);
    assert_eq!(list.blocks[2].max_tf, 10);
    assert_eq!(list.blocks[3].max_tf, 3);

    // Block 2 should have highest score (max_tf = 10)
    assert!(
        f32::from_bits(list.blocks[2].max_block_score)
            > f32::from_bits(list.blocks[0].max_block_score)
    );
    assert!(
        f32::from_bits(list.blocks[2].max_block_score)
            > f32::from_bits(list.blocks[1].max_block_score)
    );
    assert!(
        f32::from_bits(list.blocks[2].max_block_score)
            > f32::from_bits(list.blocks[3].max_block_score)
    );

    // Global max_score should equal block 2's score
    assert_eq!(list.max_score, list.blocks[2].max_block_score);

    // Test iterator block-max methods
    let mut iter = list.iterator();
    assert_eq!(iter.current_block_max_tf(), 1); // Block 0

    // Seek to block 1
    iter.seek(256); // first doc in block 1
    assert_eq!(iter.current_block_max_tf(), 5);

    // Seek to block 2
    iter.seek(512); // first doc in block 2
    assert_eq!(iter.current_block_max_tf(), 10);

    // Test skip_to_block_with_doc
    let mut iter2 = list.iterator();
    let result = iter2.skip_to_block_with_doc(300);
    assert!(result.is_some());
    let (first_doc, score) = result.unwrap();
    assert!(first_doc <= 300);
    assert!(f32::from_bits(score) > 0.0);
}

#[test]
fn packed_lists_refuse_truncated_bytes() {
    let docs: Vec<u32> = (0..140).map(|i| i * 5).collect();
    let tfs: Vec<u32> = vec![2; 140];
    let mut bytes = Vec::new();
    VerticalBP128PostingList::from_postings(&docs, &tfs, score(1.0)).serialize(&mut bytes);
    for end in 0..bytes.len() {
        assert!(VerticalBP128PostingList::deserialize(&bytes[..end]).is_none());
    }
    let list = VerticalBP128PostingList::deserialize(&bytes).unwrap().0;
    assert!(list.has_valid_shape());
    assert_eq!(bytes.len(), 188);
    assert_eq!(list.size_bytes(), 184);
    assert_eq!(list.len(), 140);
}
