//! Compressed sets of documents and the posting lists over them.
use postings::error::ReadError;
use postings::container::Container;
use postings::roaring::RoaringBitmap;
use postings::roaring_list::RoaringPostingList;

/// A score that grows with the frequency, as bits.
fn score(idf: f32) -> impl Fn(u32) -> u32 {
    move |tf| (idf * tf as f32 * 2.2 / (tf as f32 + 1.2)).to_bits()
}

#[test]
fn test_roaring_basic() {
    let mut bitmap = RoaringBitmap::new();
    bitmap.insert(1);
    bitmap.insert(100);
    bitmap.insert(1000);
    bitmap.insert(100000);

    assert!(bitmap.contains(1));
    assert!(bitmap.contains(100));
    assert!(bitmap.contains(1000));
    assert!(bitmap.contains(100000));
    assert!(!bitmap.contains(2));
    assert!(!bitmap.contains(50000));

    assert_eq!(bitmap.cardinality(), 4);
}

#[test]
fn test_roaring_from_sorted() {
    let values: Vec<u32> = (0..10000).map(|i| i * 3).collect();
    let bitmap = RoaringBitmap::from_sorted_slice(&values);

    assert_eq!(bitmap.cardinality(), 10000);

    for &val in &values {
        assert!(bitmap.contains(val), "Missing value {}", val);
    }
}

#[test]
fn test_roaring_intersection() {
    let a = RoaringBitmap::from_sorted_slice(&[1, 2, 3, 100, 200, 300]);
    let b = RoaringBitmap::from_sorted_slice(&[2, 3, 4, 200, 300, 400]);

    let result = a.and(&b);

    assert_eq!(result.cardinality(), 4);
    assert!(result.contains(2));
    assert!(result.contains(3));
    assert!(result.contains(200));
    assert!(result.contains(300));
}

#[test]
fn test_roaring_union() {
    let a = RoaringBitmap::from_sorted_slice(&[1, 2, 3]);
    let b = RoaringBitmap::from_sorted_slice(&[3, 4, 5]);

    let result = a.or(&b);

    assert_eq!(result.cardinality(), 5);
    for i in 1..=5 {
        assert!(result.contains(i));
    }
}

#[test]
fn test_roaring_serialization() {
    let values: Vec<u32> = (0..1000).map(|i| i * 7).collect();
    let bitmap = RoaringBitmap::from_sorted_slice(&values);

    let mut buffer = Vec::new();
    bitmap.serialize(&mut buffer);

    let (restored, read) = RoaringBitmap::deserialize(&buffer, 0).unwrap();
    assert_eq!(read, buffer.len());

    assert_eq!(restored.cardinality(), bitmap.cardinality());
    for &val in &values {
        assert!(restored.contains(val));
    }
}

#[test]
fn test_roaring_posting_list() {
    let doc_ids: Vec<u32> = vec![1, 5, 10, 50, 100, 500, 1000];
    let term_freqs: Vec<u32> = vec![1, 1, 2, 1, 3, 1, 1];

    let list = RoaringPostingList::from_postings(&doc_ids, &term_freqs, score(1.0));

    assert_eq!(list.len(), 7);
    assert_eq!(list.default_tf, 1);
    assert_eq!(list.max_tf, 3);

    // Check TF lookups
    assert_eq!(list.get_tf(1), 1);
    assert_eq!(list.get_tf(10), 2);
    assert_eq!(list.get_tf(100), 3);
}

#[test]
fn test_roaring_iterator() {
    let values: Vec<u32> = vec![1, 10, 100, 1000, 10000];
    let bitmap = RoaringBitmap::from_sorted_slice(&values);

    let mut iter = bitmap.iter();
    let mut collected: Vec<u32> = Vec::new();
    while let Some(value) = iter.next() {
        collected.push(value);
    }
    assert_eq!(collected, values);
}

#[test]
fn test_roaring_block_max() {
    // Create posting list spanning multiple containers (high 16 bits)
    // Container 0: doc_ids 0-65535
    // Container 1: doc_ids 65536-131071
    // Container 2: doc_ids 131072-196607
    let mut doc_ids = Vec::new();
    let mut term_freqs = Vec::new();

    // Container 0: 100 docs with max_tf = 2
    for i in 0..100 {
        doc_ids.push(i * 100);
        term_freqs.push(if i == 50 { 2 } else { 1 });
    }

    // Container 1: 100 docs with max_tf = 5
    for i in 0..100 {
        doc_ids.push(65536 + i * 100);
        term_freqs.push(if i == 25 { 5 } else { 1 });
    }

    // Container 2: 100 docs with max_tf = 3
    for i in 0..100 {
        doc_ids.push(131072 + i * 100);
        term_freqs.push(if i == 75 { 3 } else { 1 });
    }

    let list = RoaringPostingList::from_postings(&doc_ids, &term_freqs, score(2.0));

    // Should have 3 blocks (one per container)
    assert_eq!(list.num_blocks(), 3);
    assert_eq!(list.blocks[0].container_key, 0);
    assert_eq!(list.blocks[1].container_key, 1);
    assert_eq!(list.blocks[2].container_key, 2);

    assert_eq!(list.blocks[0].max_tf, 2);
    assert_eq!(list.blocks[1].max_tf, 5);
    assert_eq!(list.blocks[2].max_tf, 3);

    // Block 1 should have highest score (max_tf = 5)
    assert!(
        f32::from_bits(list.blocks[1].max_block_score)
            > f32::from_bits(list.blocks[0].max_block_score)
    );
    assert!(
        f32::from_bits(list.blocks[1].max_block_score)
            > f32::from_bits(list.blocks[2].max_block_score)
    );

    // Global max_score should equal block 1's score
    assert_eq!(list.max_score, list.blocks[1].max_block_score);

    // Test iterator block-max methods
    let mut iter = list.iterator();
    iter.init();
    assert_eq!(iter.current_block_max_tf(), 2); // Block 0

    // Seek to block 1
    iter.seek(65536);
    assert_eq!(iter.current_block_max_tf(), 5);

    // Seek to block 2
    iter.seek(131072);
    assert_eq!(iter.current_block_max_tf(), 3);
}

#[test]
fn searches_follow_the_entries() {
    let docs = [5u32, 9, 70_000, 70_010, 200_000];
    let tfs = [1u32, 1, 2, 1, 1];
    let list = RoaringPostingList::from_postings(&docs, &tfs, score(1.0));
    let mut iter = list.iterator();
    iter.init();
    assert_eq!(iter.seek(6), 9);
    assert_eq!(iter.seek(10), 70_000);
    assert_eq!(iter.current_block, 1);
    assert_eq!(iter.advance(), 70_010);
    assert_eq!(iter.seek(3), 70_010);
    assert_eq!(iter.seek(70_011), 200_000);
    assert_eq!(iter.current_block, 2);
    assert_eq!(iter.seek(200_001), u32::MAX);
    assert!(iter.is_exhausted());
    assert_eq!(iter.current_block, 3);
}

#[test]
fn test_roaring_block_max_serialization() {
    let mut doc_ids = Vec::new();
    let mut term_freqs = Vec::new();

    // Two containers
    for i in 0..50 {
        doc_ids.push(i * 10);
        term_freqs.push((i % 5) + 1);
    }
    for i in 0..50 {
        doc_ids.push(65536 + i * 10);
        term_freqs.push((i % 3) + 1);
    }

    let list = RoaringPostingList::from_postings(&doc_ids, &term_freqs, score(1.5));

    let mut buffer = Vec::new();
    list.serialize(&mut buffer);

    let (restored, read) = RoaringPostingList::deserialize(&buffer).unwrap();
    assert_eq!(read, buffer.len());

    assert_eq!(restored.len(), list.len());
    assert_eq!(restored.max_tf, list.max_tf);
    assert_eq!(restored.max_score, list.max_score);
    assert_eq!(restored.num_blocks(), list.num_blocks());

    // Verify block metadata
    for (orig, rest) in list.blocks.iter().zip(restored.blocks.iter()) {
        assert_eq!(orig.container_key, rest.container_key);
        assert_eq!(orig.first_doc_id, rest.first_doc_id);
        assert_eq!(orig.last_doc_id, rest.last_doc_id);
        assert_eq!(orig.max_tf, rest.max_tf);
        assert_eq!(orig.max_block_score, rest.max_block_score);
    }

    // Verify iteration produces same results
    let mut iter1 = list.iterator();
    let mut iter2 = restored.iterator();
    iter1.init();
    iter2.init();

    while !iter1.is_exhausted() {
        assert_eq!(iter1.doc(), iter2.doc());
        assert_eq!(iter1.term_freq(), iter2.term_freq());
        iter1.advance();
        iter2.advance();
    }
    assert!(iter2.is_exhausted());
}

#[test]
fn set_operations_agree_over_arrays_bitmaps_and_runs() {
    let dense: Vec<u32> = (0..9000).collect();
    let sparse: Vec<u32> = (0..3000).map(|i| i * 40).collect();
    let odd: Vec<u32> = (0..5000).map(|i| i * 2 + 1).collect();
    let mut sets: Vec<(RoaringBitmap, &Vec<u32>)> = Vec::new();
    for values in [&dense, &sparse, &odd] {
        sets.push((RoaringBitmap::from_sorted_slice(values), values));
        let mut optimized = RoaringBitmap::from_sorted_slice(values);
        optimized.optimize();
        assert!(optimized.is_valid());
        sets.push((optimized, values));
    }
    for (a, x) in &sets {
        for (b, y) in &sets {
            let both: Vec<u32> = x.iter().copied().filter(|v| y.binary_search(v).is_ok()).collect();
            let mut any: Vec<u32> = x.iter().chain(y.iter()).copied().collect();
            any.sort_unstable();
            any.dedup();
            for (set, want) in [(a.and(b), both), (a.or(b), any)] {
                assert!(set.is_valid());
                assert_eq!(set.cardinality() as usize, want.len());
                let mut iter = set.iter();
                for value in want {
                    assert_eq!(iter.next(), Some(value));
                }
                assert_eq!(iter.next(), None);
            }
        }
    }
}

#[test]
fn optimizing_picks_the_smallest_form_of_every_chunk() {
    let mut set = RoaringBitmap::new();
    for low in 0..5u32 {
        set.insert(low);
        set.insert(0x1_0000 + low * 2);
    }
    set.insert(0x2_0007);
    for (_, container) in &set.containers {
        assert!(matches!(container, Container::Array(_)));
    }
    set.optimize();
    let highs: Vec<u16> = set.containers.iter().map(|entry| entry.0).collect();
    assert_eq!(highs, vec![0, 1, 2]);
    assert!(matches!(&set.containers[0].1, Container::Runs(runs) if *runs == vec![(0, 4)]));
    assert!(matches!(&set.containers[1].1, Container::Array(a) if *a == vec![0, 2, 4, 6, 8]));
    assert!(matches!(&set.containers[2].1, Container::Array(a) if *a == vec![7]));
}

#[test]
fn stored_sets_refuse_truncation_and_unknown_containers() {
    let mut bytes = Vec::new();
    RoaringBitmap::from_sorted_slice(&[1, 2, 70_000]).serialize(&mut bytes);
    for end in 0..bytes.len() {
        assert!(matches!(
            RoaringBitmap::deserialize(&bytes[..end], 0),
            Err(ReadError::Truncated)
        ));
    }
    let tag = bytes.iter().position(|&b| b == 0).unwrap();
    let mut unknown = false;
    for at in tag..bytes.len() {
        let mut bad = bytes.clone();
        bad[at] = 9;
        if let Err(ReadError::ContainerType) = RoaringBitmap::deserialize(&bad, 0) {
            unknown = true;
        }
    }
    assert!(unknown);
    assert!(RoaringBitmap::new().is_empty());
}

#[test]
fn the_form_of_a_chunk_follows_from_what_was_done_to_it() {
    let evens: Vec<u32> = (0..32_768).map(|i| i * 2).collect();
    let odds: Vec<u32> = (0..32_768).map(|i| i * 2 + 1).collect();
    let fourths: Vec<u32> = (0..16_384).map(|i| i * 4).collect();
    let run: Vec<u32> = (0..3_000).collect();
    let later: Vec<u32> = (1_000..4_000).collect();
    let far: Vec<u32> = (200_000..201_000).collect();
    let set = |values: &[u32]| RoaringBitmap::from_sorted_slice(values);
    let form = |set: &RoaringBitmap, k: usize| match &set.containers[k].1 {
        Container::Array(_) => 'a',
        Container::Bitmap(_) => 'b',
        Container::Runs(_) => 'r',
    };
    // A bitmap takes a number as it is; runs become an array.
    let mut bitmap = set(&evens);
    assert_eq!(form(&bitmap, 0), 'b');
    let size = bitmap.size_bytes();
    assert!(bitmap.insert(7));
    assert_eq!(form(&bitmap, 0), 'b');
    assert_eq!(bitmap.size_bytes(), size);
    let mut runs = set(&run);
    assert_eq!(form(&runs, 0), 'r');
    assert!(runs.insert(3_000));
    assert_eq!(form(&runs, 0), 'a');
    assert!(!runs.insert(3_000));
    assert!(runs.insert(200_000));
    assert_eq!((form(&runs, 0), form(&runs, 1)), ('a', 'a'));
    // Two bitmaps meet in the least form, other chunks in an array.
    assert_eq!(form(&set(&evens).and(&set(&fourths)), 0), 'b');
    assert!(set(&evens).and(&set(&odds)).containers.is_empty());
    assert_eq!(form(&set(&run).and(&set(&later)), 0), 'a');
    assert_eq!(set(&run).and(&set(&later)).cardinality(), 2_000);
    // Two bitmaps join to a bitmap, other chunks to the least form, and a
    // chunk that one set lacks is kept as it is.
    let all = set(&evens).or(&set(&odds));
    assert_eq!(form(&all, 0), 'b');
    assert_eq!(all.cardinality(), 65_536);
    assert_eq!(form(&set(&run).or(&set(&later)), 0), 'r');
    let both = set(&run).or(&set(&far));
    assert_eq!((form(&both, 0), form(&both, 1)), ('r', 'r'));
    assert_eq!(both.containers[1].0, 3);
}
