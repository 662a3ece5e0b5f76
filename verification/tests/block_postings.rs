//! Posting lists in blocks: building, storing, reading, merging, walking and
//! intersecting them.
use postings::block::verify_block_docs;
use postings::block::TERMINATED;
use postings::bounds::pack_bounds;
use postings::bounds::L1_INTERVAL;
use postings::codec::PostingCodec;
use postings::codec::BLOCK_SIZE;
use postings::error::PostingError;
use postings::footer::Footer;
use postings::footer::FLAG_L1_BOUNDS;
use postings::footer::FLAG_LEN_BOUNDS;
use postings::footer::FLAG_RATIO_BOUNDS;
use postings::footer::FOOTER_MAGIC;
use postings::footer::FOOTER_SIZE;
use postings::footer::FOOTER_V2_SIZE;
use postings::footer::L0_SIZE;
use postings::footer::L1_SIZE;
use postings::intersect::PostingIntersection;
use postings::iterator::BlockPostingIterator;
use postings::iterator::PostingDecodeScratch;
use postings::list::BlockPostingList;
use postings::merge::MergeError;
use postings::pack::pack;
use postings::pack::Layout;
use postings::posting::PostingList;
use postings::posting::PostingListIterator;
use std::cell::RefCell;

const MAX_LENGTH: u32 = 1 << 20;
const CURSOR_SIZE: usize = 8;

fn lengths_of(list: &PostingList, length: impl Fn(u32) -> u32) -> Vec<u32> {
    list.postings.iter().map(|p| length(p.doc_id)).collect()
}

fn block_payload(list: &BlockPostingList, block: usize) -> Vec<u8> {
    list.blocks[block].payload.clone()
}

fn stream_of(list: &BlockPostingList) -> Vec<u8> {
    let bytes = serialize_bpl(list);
    let footer = Footer::parse(&bytes).unwrap();
    bytes[..footer.l0_start()].to_vec()
}

fn l0_bytes(list: &BlockPostingList) -> Vec<u8> {
    let bytes = serialize_bpl(list);
    let footer = Footer::parse(&bytes).unwrap();
    bytes[footer.l0_start()..footer.l0_end()].to_vec()
}

fn read_l0_entry(list: &BlockPostingList, block: usize) -> (u32, u32, u32, u32) {
    let entries = l0_bytes(list);
    let word = |at: usize| {
        let at = block * L0_SIZE + at;
        u32::from_le_bytes([entries[at], entries[at + 1], entries[at + 2], entries[at + 3]])
    };
    (word(0), word(4), word(8), word(12))
}

fn word_bytes(words: &[u32]) -> Vec<u8> {
    words.iter().flat_map(|word| word.to_le_bytes()).collect()
}

/// Hand runs of postings before `end` to `visit` until it says stop.
fn visit_postings_until(
    cursor: &mut BlockPostingIterator<'_>,
    end: u32,
    visit: impl FnMut(&[u32], &[u32]) -> bool,
) {
    let visit = RefCell::new(visit);
    cursor.visit_postings_until(end, &|docs: &[u32], tfs: &[u32]| {
        let mut visit = visit.borrow_mut();
        (*visit)(docs, tfs)
    });
}

#[test]
fn document_runs_stop_where_the_visitor_refuses() {
    let mut list = PostingList::new();
    for i in 0..300u32 {
        list.push(i * 3, 1);
    }
    let blocks = BlockPostingList::from_posting_list(&list).unwrap();
    let mut cursor = blocks.iterator();
    let runs = RefCell::new(Vec::new());
    cursor.visit_doc_ids_until(600, &|docs: &[u32]| {
        runs.borrow_mut().push(docs.to_vec());
        true
    });
    assert_eq!(
        *runs.borrow(),
        vec![
            (0..128u32).map(|i| i * 3).collect::<Vec<u32>>(),
            (128..200u32).map(|i| i * 3).collect::<Vec<u32>>(),
        ]
    );
    assert_eq!(cursor.doc(), 600);
    cursor.visit_doc_ids_until(TERMINATED, &|docs: &[u32]| docs[0] != 768);
    assert_eq!(cursor.doc(), 768);
    cursor.visit_doc_ids_until(TERMINATED, &|docs: &[u32]| docs.len() == 44);
    assert_eq!(cursor.doc(), TERMINATED);
}

#[test]
fn compared_blocks_keep_their_matches() {
    let make = |docs: &[u32]| {
        let mut list = PostingList::new();
        for &doc in docs {
            list.push(doc, 1);
        }
        BlockPostingList::from_posting_list(&list).unwrap()
    };
    let a = make(&[1, 4, 6, 9, 12]);
    let b = make(&[2, 4, 7, 9, 10]);
    let mut left = a.iterator();
    let mut right = b.iterator();
    let mut intersection = PostingIntersection::with_costs(5, 5);
    assert_eq!(intersection.intersect_block(&mut left, &mut right), Some(4));
    assert_eq!(intersection.blocks, (0, 0));
    assert_eq!(intersection.pairs, vec![(1, 1), (3, 3)]);
    assert_eq!(intersection.ends, (4, 5));
    left.advance();
    assert_eq!(intersection.intersect_block(&mut left, &mut right), Some(9));
    assert_eq!((left.doc(), right.doc()), (9, 9));
    right.advance();
    assert_eq!(intersection.intersect_block(&mut left, &mut right), None);
    assert_eq!((left.doc(), right.doc()), (12, TERMINATED));
    assert_eq!(intersection.intersect_block(&mut left, &mut right), Some(TERMINATED));
    intersection.reset();
    assert_eq!(intersection.blocks, (usize::MAX, usize::MAX));
    assert!(PostingIntersection::with_costs(3, 13).seek_driven);
    assert!(!PostingIntersection::with_costs(3, 12).seek_driven);
    assert!(!PostingIntersection::with_costs(9, 2).left_is_rare);
}

#[test]
fn batched_intersection_preserves_monotone_seeks_frequencies_and_position_offsets() {
    for codec in [
        PostingCodec::Rounded,
        PostingCodec::Packed,
        PostingCodec::Pfor,
        PostingCodec::Simd4x,
    ] {
        let make = |divisor| {
            let mut postings = PostingList::new();
            for doc in 0..3001 {
                if doc % divisor != 1 {
                    postings.push(doc, 1 + doc % 7);
                }
            }
            BlockPostingList::from_posting_list_with_options(&postings, true, None, codec)
                .unwrap()
        };
        let a = make(3);
        let b = make(5);
        for (seek_driven, left_is_rare) in [(false, true), (true, true), (true, false)] {
            let mut left = a.iterator();
            let mut right = b.iterator();
            let mut reference_left = a.iterator();
            let mut reference_right = b.iterator();
            let mut intersection = PostingIntersection {
                seek_driven,
                left_is_rare,
                ..Default::default()
            };
            let mut target = 0;
            loop {
                left.seek(target);
                right.seek(target);
                let doc = loop {
                    if let Some(doc) = intersection.intersect_block(&mut left, &mut right) {
                        break doc;
                    }
                };
                let expected = (target..3001)
                    .find(|doc| doc % 3 != 1 && doc % 5 != 1)
                    .unwrap_or(TERMINATED);
                assert_eq!(doc, expected);
                assert_eq!(
                    intersection.intersect_block(&mut left, &mut right),
                    Some(doc)
                );
                if doc == TERMINATED {
                    break;
                }
                reference_left.seek(doc);
                reference_right.seek(doc);
                assert_eq!(left.term_freq(), reference_left.term_freq());
                assert_eq!(right.term_freq(), reference_right.term_freq());
                assert_eq!(left.position_cursor(), reference_left.position_cursor());
                assert_eq!(right.position_cursor(), reference_right.position_cursor());
                target = doc + if doc % 7 == 0 { 19 } else { 1 };
            }
            for target in [0, 200, 129, 3, 2048, 3000, 2] {
                intersection.reset();
                left.seek_physical(target);
                right.seek_physical(target);
                let doc = loop {
                    if let Some(doc) = intersection.intersect_block(&mut left, &mut right) {
                        break doc;
                    }
                };
                let expected = (target..3001)
                    .find(|doc| doc % 3 != 1 && doc % 5 != 1)
                    .unwrap_or(TERMINATED);
                assert_eq!(doc, expected);
                reference_left.seek_physical(doc);
                reference_right.seek_physical(doc);
                assert_eq!(left.position_cursor(), reference_left.position_cursor());
                assert_eq!(right.position_cursor(), reference_right.position_cursor());
            }
        }
    }
}

#[test]
fn compact_postings_preserve_payload_scores_and_copy_merges() {
    for codec in [
        PostingCodec::Rounded,
        PostingCodec::Packed,
        PostingCodec::Simd4x,
        PostingCodec::Pfor,
    ] {
        for count in [1, 2, 127, 128, 129, 1025] {
            let mut postings = PostingList::new();
            for doc in 0..count {
                postings.push(doc * 3, doc % 13);
            }
            let list = BlockPostingList::from_posting_list_with_ratio_bounds(
                &postings,
                true,
                Some(&lengths_of(&postings, |doc| doc % 100 + 1)),
                codec,
                MAX_LENGTH,
            )
            .unwrap();
            let mut old = Vec::new();
            list.serialize(&mut old).unwrap();
            let mut bytes = Vec::new();
            list.serialize_compact(&mut bytes).unwrap();
            let compact = BlockPostingList::deserialize(&bytes).unwrap();
            assert_eq!(compact.compact_headers, codec != PostingCodec::Pfor);
            if codec != PostingCodec::Pfor {
                assert_eq!(old.len() - bytes.len(), list.num_blocks() * 8);
            }
            let mut a = Vec::new();
            let mut b = Vec::new();
            for i in 0..list.num_blocks() {
                assert_eq!(block_payload(&list, i), block_payload(&compact, i));
                assert_eq!(list.pos_cursor(i), compact.pos_cursor(i));
                assert!(compact.decode_block_into(i, &mut a, &mut b));
                assert_eq!(
                    a,
                    postings.postings
                        [i * BLOCK_SIZE..(i * BLOCK_SIZE + BLOCK_SIZE).min(count as usize)]
                        .iter()
                        .map(|p| p.doc_id)
                        .collect::<Vec<_>>()
                );
                assert_eq!(b, a.iter().map(|doc| (doc / 3) % 13).collect::<Vec<_>>());
            }
            let mut repeated = Vec::new();
            compact.serialize(&mut repeated).unwrap();
            assert_eq!(bytes, repeated);
            for second in [&old, &bytes] {
                let mut merged = Vec::new();
                let (docs, len) = BlockPostingList::concatenate_streaming(
                    &[(&bytes, 0), (second, count * 3)],
                    &mut merged,
                )
                .unwrap();
                assert_eq!(len, merged.len());
                assert_eq!(docs, count * 2);
                let merged = BlockPostingList::deserialize(&merged).unwrap();
                for block in 0..merged.num_blocks() {
                    assert_eq!(
                        block_payload(&merged, block),
                        block_payload(&list, block % list.num_blocks())
                    );
                    assert!(merged.decode_block_into(block, &mut a, &mut b));
                }
            }
        }
    }
}

#[test]
fn compact_posting_metadata_rejects_bad_descriptors_and_content_checks_remain_observable() {
    let mut postings = PostingList::new();
    for doc in 0..257 {
        postings.push(doc * 2, 1);
    }
    let list = BlockPostingList::from_posting_list_with_options(
        &postings,
        true,
        None,
        PostingCodec::Rounded,
    )
    .unwrap();
    let mut bytes = Vec::new();
    list.serialize_compact(&mut bytes).unwrap();
    let footer = Footer::parse(&bytes).unwrap();
    for (at, value) in [
        (footer.l0_end(), 0),
        (footer.l0_end() + 1, 1),
        (footer.l0_end() + 2, 33),
        (footer.l0_end() + 3, 33),
        (footer.l1_bounds_end(), 1),
    ] {
        let mut corrupt = bytes.clone();
        corrupt[at] = value;
        assert!(
            BlockPostingList::deserialize(&corrupt).is_err(),
            "byte {at}"
        );
    }
    let mut corrupt = bytes.clone();
    corrupt[0] = 0;
    let compact = BlockPostingList::deserialize(&corrupt).unwrap();
    let mut docs = Vec::new();
    assert!(compact.decode_block_doc_ids_checked(0, &mut docs).is_err());
    assert!(docs.is_empty());
}


#[test]
fn block_decoding_overwrites_stale_values_across_lengths_and_codecs() {
    let mut docs = vec![u32::MAX; BLOCK_SIZE * 2];
    let mut tfs = docs.clone();
    for codec in [
        PostingCodec::Rounded,
        PostingCodec::Packed,
        PostingCodec::Pfor,
        PostingCodec::Simd4x,
    ] {
        for count in [128, 1, 127, 128, 17, 256, 257] {
            for freq in [0, 1, 255, 65536] {
                let mut postings = PostingList::new();
                for i in 0..count {
                    postings.push(i * 3 + 7, freq);
                }
                let list = BlockPostingList::from_posting_list_with_options(
                    &postings, true, None, codec,
                )
                .unwrap();
                for compact in [false, true] {
                    let mut bytes = Vec::new();
                    if compact {
                        list.serialize_compact(&mut bytes).unwrap();
                    } else {
                        list.serialize(&mut bytes).unwrap();
                    }
                    let list = BlockPostingList::deserialize(&bytes).unwrap();
                    for block in (0..list.num_blocks()).rev().chain(0..list.num_blocks()) {
                        docs.fill(u32::MAX);
                        tfs.fill(u32::MAX);
                        assert!(list.decode_block_into(block, &mut docs, &mut tfs));
                        let expected: Vec<_> = postings.postings[block * BLOCK_SIZE
                            ..postings.postings.len().min((block + 1) * BLOCK_SIZE)]
                            .iter()
                            .map(|p| p.doc_id)
                            .collect();
                        assert_eq!(docs, expected);
                        assert_eq!(tfs, vec![freq; expected.len()]);
                    }
                }
            }
        }
    }
}

#[test]
fn compact_membership_batches_preserve_resume_frequencies_and_position_prefixes() {
    for codec in [
        PostingCodec::Rounded,
        PostingCodec::Packed,
        PostingCodec::Pfor,
        PostingCodec::Simd4x,
    ] {
        let mut postings = PostingList::new();
        let mut expected = Vec::new();
        let mut prefix = 0u64;
        for i in 0..701u32 {
            let tf = i % 19 + 1;
            let doc = i * 13 + 5;
            postings.push(doc, tf);
            expected.push((doc, tf, prefix));
            prefix += u64::from(tf);
        }
        let list =
            BlockPostingList::from_posting_list_with_options(&postings, true, None, codec)
                .unwrap();
        let bytes = serialize_bpl(&list);
        let mut cursor = list.iterator();
        let mut docs = [0; BLOCK_SIZE];
        let mut consumed = 0;
        while cursor.doc() != TERMINATED {
            let count = cursor.fill_doc_batch(&mut docs);
            assert_eq!(
                &docs[..count],
                &expected[consumed..consumed + count]
                    .iter()
                    .map(|e| e.0)
                    .collect::<Vec<_>>()
            );
            consumed += count;
            if consumed < expected.len() {
                assert!(cursor.block_tfs.is_none(), "copy initialized TFs");
                assert_eq!(cursor.doc(), expected[consumed].0);
                assert_eq!(cursor.term_freq(), expected[consumed].1);
                assert_eq!(cursor.position_cursor_mut(), expected[consumed].2);
            }
        }
        assert_eq!(consumed, expected.len());
        assert_eq!(cursor.fill_doc_batch(&mut docs), 0);
        let mut cursor = list.iterator();
        for start in (0..10_000u32).step_by(BLOCK_SIZE) {
            let mut candidates: Vec<_> = (start..start + BLOCK_SIZE as u32).collect();
            let wanted: Vec<_> = candidates
                .iter()
                .copied()
                .filter(|doc| expected.iter().any(|e| e.0 == *doc))
                .collect();
            let kept = cursor.retain_doc_batch(&mut candidates);
            assert_eq!(&candidates[..kept], wanted, "{codec:?} start={start}");
            if cursor.doc() != TERMINATED {
                let entry = expected.iter().find(|e| e.0 == cursor.doc()).unwrap();
                assert_eq!(cursor.term_freq(), entry.1);
                assert_eq!(cursor.position_cursor_mut(), entry.2);
            }
        }
        assert_eq!(cursor.doc(), TERMINATED);
        assert_eq!(serialize_bpl(&list), bytes);
    }
}

#[test]
fn membership_words_preserve_unaligned_dense_sparse_windows_and_resume() {
    for codec in [
        PostingCodec::Rounded,
        PostingCodec::Packed,
        PostingCodec::Pfor,
        PostingCodec::Simd4x,
    ] {
        for stride in [1, 2, 3, 67, 129] {
            let docs: Vec<u32> = (0..10_000).step_by(stride).collect();
            let mut postings = PostingList::new();
            for &doc in &docs {
                postings.push(doc, 1 + doc % 7);
            }
            let list =
                BlockPostingList::from_posting_list_with_options(&postings, true, None, codec)
                    .unwrap();
            for start in [0, 1, 17, 63, 64, 127, 511] {
                let mut cursor = list.iterator();
                for base in [start, start + 4096, start + 8192] {
                    let mut bits = [u64::MAX; 64];
                    cursor.fill_doc_window(base, &mut bits);
                    let mut expected = [0u64; 64];
                    for &doc in &docs {
                        if (base..base + 4096).contains(&doc) {
                            let offset = (doc - base) as usize;
                            expected[offset / 64] |= 1u64 << (offset % 64);
                        }
                    }
                    assert_eq!(bits, expected, "{codec:?}, stride={stride}, base={base}");
                    let next = docs
                        .iter()
                        .copied()
                        .find(|&doc| doc >= base + 4096)
                        .unwrap_or(TERMINATED);
                    assert_eq!(cursor.doc(), next);
                    if next != TERMINATED {
                        assert_eq!(cursor.term_freq(), 1 + next % 7);
                    }
                }
            }
        }
    }
}

#[test]
fn document_only_navigation_defers_frequencies_and_resumes_exact_position_reads() {
    for codec in [
        PostingCodec::Rounded,
        PostingCodec::Packed,
        PostingCodec::Pfor,
        PostingCodec::Simd4x,
    ] {
        let mut postings = PostingList::new();
        let mut expected = Vec::new();
        let mut prefix = 0u64;
        for i in 0..701u32 {
            let tf = if i % 37 == 0 { u32::MAX } else { i % 23 + 1 };
            let doc = i * 13 + 5;
            postings.push(doc, tf);
            expected.push((doc, tf, prefix));
            prefix += u64::from(tf);
        }
        let list =
            BlockPostingList::from_posting_list_with_options(&postings, true, None, codec)
                .unwrap();
        let bytes = serialize_bpl(&list);
        for owned in [false, true] {
            let mut cursor = if owned {
                list.clone().into_iterator()
            } else {
                list.iterator()
            };
            assert!(
                cursor.block_tfs.is_none(),
                "{codec:?}: ID-only open decoded frequencies"
            );
            for target in [20, 205, 1800, 3900] {
                let entry = expected.iter().find(|e| e.0 >= target).unwrap();
                assert_eq!(cursor.seek(target), entry.0);
                assert!(
                    cursor.block_tfs.is_none(),
                    "ID-only seek decoded frequencies"
                );
            }
            let entry = expected.iter().find(|e| e.0 == cursor.doc()).unwrap();
            for _ in 0..4 {
                let shared = &cursor;
                assert_eq!(shared.term_freq(), entry.1);
                assert_eq!(shared.position_cursor(), entry.2);
            }
            assert_eq!(cursor.position_cursor(), entry.2);
            assert_eq!(cursor.term_freq(), entry.1);
            assert_eq!(cursor.position_cursor_mut(), entry.2);
            let mut bits = [0u64; 64];
            cursor.fill_doc_window(4096, &mut bits);
            for &(doc, _, _) in &expected {
                if (4096..8192).contains(&doc) {
                    assert_ne!(bits[(doc as usize - 4096) / 64] & (1 << (doc % 64)), 0);
                }
            }
            assert_eq!(
                bits.iter().map(|word| word.count_ones()).sum::<u32>(),
                expected
                    .iter()
                    .filter(|e| (4096..8192).contains(&e.0))
                    .count() as u32
            );
            assert!(
                cursor.block_tfs.is_none(),
                "membership windows decoded frequencies"
            );
            let entry = expected.iter().find(|e| e.0 == cursor.doc()).unwrap();
            assert_eq!(cursor.position_cursor_mut(), entry.2);
            assert_eq!(cursor.term_freq(), entry.1);
            let parked = cursor.doc();
            visit_postings_until(&mut cursor, TERMINATED, |docs, tfs| {
                for (&doc, &tf) in docs.iter().zip(tfs) {
                    assert_eq!(tf, expected.iter().find(|e| e.0 == doc).unwrap().1);
                }
                false
            });
            assert_eq!(cursor.doc(), parked);
            assert_eq!(cursor.position_cursor(), entry.2);
            let mut seen = Vec::new();
            visit_postings_until(&mut cursor, TERMINATED, |docs, tfs| {
                seen.extend(docs.iter().copied().zip(tfs.iter().copied()));
                true
            });
            assert_eq!(
                seen,
                expected
                    .iter()
                    .filter(|e| e.0 >= parked)
                    .map(|e| (e.0, e.1))
                    .collect::<Vec<_>>()
            );
            assert_eq!(cursor.doc(), TERMINATED);
            assert_eq!(cursor.term_freq(), 0);
            assert_eq!(cursor.seek(0), TERMINATED);
        }
        assert_eq!(serialize_bpl(&list), bytes);
    }
}

#[test]
fn document_navigation_defers_position_accounting_without_changing_cursors() {
    for codec in [
        PostingCodec::Rounded,
        PostingCodec::Packed,
        PostingCodec::Pfor,
        PostingCodec::Simd4x,
    ] {
        let mut postings = PostingList::new();
        let mut expected = Vec::new();
        let mut total = 0u64;
        for doc in 0..701u32 {
            expected.push(total);
            let tf = doc % 23 + 1;
            postings.push(doc * 7, tf);
            total += u64::from(tf);
        }
        let list =
            BlockPostingList::from_posting_list_with_options(&postings, true, None, codec)
                .unwrap();
        let mut cursor = list.iterator();
        for target in [7, 70, 777, 896, 1400, 3500, 4900] {
            assert_eq!(cursor.seek(target), target);
            assert!(
                cursor.position_offsets.is_none(),
                "navigation must not prepare unused position offsets"
            );
            assert_eq!(cursor.position_cursor(), expected[target as usize / 7]);
            assert_eq!(cursor.term_freq(), target / 7 % 23 + 1);
            assert_eq!(cursor.seek(target - 1), target);
        }
        assert_eq!(cursor.advance(), TERMINATED);
    }
}

#[test]
fn deferred_position_accounting_resumes_after_reads_windows_and_stopped_runs() {
    for codec in [
        PostingCodec::Rounded,
        PostingCodec::Packed,
        PostingCodec::Pfor,
        PostingCodec::Simd4x,
    ] {
        let docs: Vec<_> = (0..600u32).map(|doc| (doc * 11, u32::MAX - doc)).collect();
        let prefixes = expected_cursors(&docs);
        let mut input = PostingList::new();
        for &(doc, tf) in &docs {
            input.push(doc, tf);
        }
        let list = BlockPostingList::build(&input, true, None, codec, None, false).unwrap();
        let before = serialize_bpl(&list);
        let mut cursor = list.iterator();
        for at in [13, 25, 127, 128, 199] {
            cursor.seek(docs[at].0);
            assert_eq!(cursor.position_range(), (prefixes[at], docs[at].1));
            assert_eq!(cursor.position_range(), (prefixes[at], docs[at].1));
            assert_eq!(cursor.position_cursor_mut(), prefixes[at]);
            assert_eq!(cursor.position_cursor_mut(), prefixes[at]);
            assert_eq!(cursor.position_cursor(), prefixes[at]);
            cursor.seek(docs[at].0 - 1);
            assert_eq!(cursor.position_cursor_mut(), prefixes[at]);
        }
        visit_postings_until(&mut cursor, docs[220].0, |_, _| true);
        assert_eq!(cursor.position_cursor_mut(), prefixes[220]);
        visit_postings_until(&mut cursor, docs[250].0, |_, _| false);
        assert_eq!(cursor.position_cursor_mut(), prefixes[220]);
        let mut bits = [0u64; 4];
        cursor.fill_doc_window(docs[220].0, &mut bits);
        let at = docs.partition_point(|&(doc, _)| doc < docs[220].0 + 256);
        assert_eq!(cursor.position_cursor_mut(), prefixes[at]);
        cursor.skip_to_next_block();
        assert_eq!(cursor.position_cursor_mut(), prefixes[256]);
        assert_eq!(serialize_bpl(&list), before);
    }
}

#[test]
fn posting_runs_preserve_frequencies_positions_and_resumption_after_stop() {
    let docs: Vec<_> = (0..1027u32).map(|i| (i * 7, i % 31 + 1)).collect();
    let prefixes = expected_cursors(&docs);
    let mut list = PostingList::new();
    for &(doc, tf) in &docs {
        list.push(doc, tf);
    }
    for codec in [
        PostingCodec::Rounded,
        PostingCodec::Packed,
        PostingCodec::Pfor,
        PostingCodec::Simd4x,
    ] {
        let postings = BlockPostingList::build(&list, true, None, codec, None, false).unwrap();
        let bytes = serialize_bpl(&postings);
        let mut cursor = postings.iterator();
        cursor.seek(docs[17].0);
        let mut actual = Vec::new();
        let mut calls = 0;
        visit_postings_until(&mut cursor, TERMINATED, |ids, tfs| {
            calls += 1;
            assert_eq!(ids.len(), tfs.len());
            assert!(ids.len() <= BLOCK_SIZE);
            if calls == 3 {
                return false;
            }
            actual.extend(ids.iter().copied().zip(tfs.iter().copied()));
            true
        });
        assert_eq!(actual, docs[17..256]);
        assert_eq!(cursor.doc(), docs[256].0);
        assert_eq!(cursor.position_cursor(), prefixes[256]);
        visit_postings_until(&mut cursor, docs[331].0, |ids, tfs| {
            actual.extend(ids.iter().copied().zip(tfs.iter().copied()));
            true
        });
        assert_eq!(actual, docs[17..331]);
        assert_eq!(cursor.doc(), docs[331].0);
        assert_eq!(cursor.term_freq(), docs[331].1);
        assert_eq!(cursor.position_cursor(), prefixes[331]);
        visit_postings_until(&mut cursor, TERMINATED, |ids, tfs| {
            actual.extend(ids.iter().copied().zip(tfs.iter().copied()));
            true
        });
        assert_eq!(actual, docs[17..]);
        visit_postings_until(&mut cursor, TERMINATED, |_, _| panic!("already exhausted"));
        assert_eq!(cursor.doc(), TERMINATED);
        assert_eq!(serialize_bpl(&postings), bytes);
    }
}

#[test]
fn document_windows_preserve_posting_frequencies_positions_and_bytes() {
    for near_end in [false, true] {
        let base = if near_end { TERMINATED - 30_000 } else { 0 };
        let docs: Vec<_> = (0..5000u32).map(|i| (base + i * 5, i % 31 + 1)).collect();
        let prefixes = expected_cursors(&docs);
        let mut list = PostingList::new();
        for &(doc, tf) in &docs {
            list.push(doc, tf);
        }
        for codec in [
            PostingCodec::Rounded,
            PostingCodec::Packed,
            PostingCodec::Pfor,
            PostingCodec::Simd4x,
        ] {
            let postings =
                BlockPostingList::build(&list, true, None, codec, None, false).unwrap();
            let bytes = serialize_bpl(&postings);
            let mut cursor = postings.iterator();
            let mut actual = Vec::new();
            while cursor.doc() != TERMINATED {
                let base = cursor.doc();
                let mut bits = [u64::MAX; 64];
                cursor.fill_doc_window(base, &mut bits);
                for (index, word) in bits.into_iter().enumerate() {
                    for bit in 0..64 {
                        if word & (1 << bit) != 0 {
                            actual.push(base + index as u32 * 64 + bit);
                        }
                    }
                }
                let at = docs.partition_point(|&(doc, _)| doc < base.saturating_add(4096));
                assert_eq!(cursor.doc(), docs.get(at).map_or(TERMINATED, |p| p.0));
                if at < docs.len() {
                    assert_eq!(cursor.term_freq(), docs[at].1);
                    assert_eq!(cursor.position_cursor(), prefixes[at]);
                }
            }
            assert_eq!(actual, docs.iter().map(|p| p.0).collect::<Vec<_>>());
            assert_eq!(serialize_bpl(&postings), bytes);
        }
    }
}

#[test]
fn nearby_and_distant_seeks_preserve_postings_position_cursors_and_bytes() {
    let docs: Vec<_> = (0..32_769u32)
        .map(|i| (i * 5 + i % 3, i % 31 + 1))
        .collect();
    let prefixes = expected_cursors(&docs);
    let mut list = PostingList::new();
    for &(doc, tf) in &docs {
        list.push(doc, tf);
    }
    for codec in [
        PostingCodec::Rounded,
        PostingCodec::Packed,
        PostingCodec::Pfor,
        PostingCodec::Simd4x,
    ] {
        let postings = BlockPostingList::build(&list, true, None, codec, None, false).unwrap();
        let bytes = serialize_bpl(&postings);
        let lasts: Vec<_> = (0..postings.num_blocks())
            .map(|i| postings.block_last_doc(i).unwrap())
            .collect();
        for from in [0, 1, 7, 8, 64, 200, 256, 257] {
            for target in [0, 1, 100, 639, 640, 641, 700, 160_000, 163_840, TERMINATED] {
                let expected = (from..lasts.len()).find(|&i| lasts[i] >= target);
                assert_eq!(
                    postings.seek_block(target, from),
                    expected,
                    "{codec:?} from={from} target={target}"
                );
            }
        }
        let mut cursor = postings.iterator();
        let mut at = 0;
        for target in [
            0,
            1,
            20,
            19,
            639,
            640,
            641,
            700,
            160_000,
            161_000,
            160_000,
            docs.last().unwrap().0 - 1,
            docs.last().unwrap().0,
            TERMINATED,
            0,
        ] {
            while at < docs.len() && docs[at].0 < target {
                at += 1;
            }
            let expected = docs.get(at).map_or(TERMINATED, |&(doc, _)| doc);
            assert_eq!(cursor.seek(target), expected, "{codec:?} target={target}");
            if at < docs.len() {
                assert_eq!(cursor.term_freq(), docs[at].1);
                assert_eq!(cursor.position_cursor(), prefixes[at]);
            }
        }
        assert_eq!(serialize_bpl(&postings), bytes);
    }
}

#[test]
fn candidate_posting_probes_reuse_buffers_and_preserve_seek_and_position_cursors() {
    let mut list = PostingList::new();
    for i in 0..700 {
        list.push(i * 3, i % 7 + 1);
    }
    let postings = BlockPostingList::from_posting_list(&list).unwrap();
    let mut scratch = PostingDecodeScratch::default();
    let mut doc_buffer = None;
    for first in [0, 385, 900, 1800, 2100, 100, 2097] {
        let mut reference = postings.clone().into_iterator();
        let mut selected = postings
            .clone()
            .into_candidate_iterator(first, &mut scratch);
        assert_eq!(
            selected.current_block_idx(),
            postings.seek_block(first, 0).unwrap_or(0)
        );
        for target in (first..2200).step_by(17) {
            assert_eq!(selected.seek(target), reference.seek(target));
            assert_eq!(selected.term_freq(), reference.term_freq());
            if selected.doc() != TERMINATED {
                assert_eq!(selected.position_cursor(), reference.position_cursor());
            }
        }
        selected.cache_tfs();
        selected.recycle(&mut scratch);
        assert!(scratch.doc_ids.capacity() >= BLOCK_SIZE);
        // The frequency scratch is inline (no heap allocation to reuse);
        // the document buffer is the one heap allocation and must be.
        assert!(scratch.term_freqs.is_some());
        let address = scratch.doc_ids.as_ptr() as usize;
        if let Some(previous) = doc_buffer {
            assert_eq!(
                address, previous,
                "document scratch allocation must be reused"
            );
        }
        doc_buffer = Some(address);
    }
}

#[test]
fn test_posting_list_basic() {
    let mut list = PostingList::new();
    list.push(1, 2);
    list.push(5, 1);
    list.push(10, 3);

    assert_eq!(list.len(), 3);

    let mut iter = PostingListIterator::new(&list);
    assert_eq!(iter.doc(), 1);
    assert_eq!(iter.term_freq(), 2);

    assert_eq!(iter.advance(), 5);
    assert_eq!(iter.term_freq(), 1);

    assert_eq!(iter.advance(), 10);
    assert_eq!(iter.term_freq(), 3);

    assert_eq!(iter.advance(), TERMINATED);
}

#[test]
fn test_posting_list_seek() {
    let mut list = PostingList::new();
    for i in 0..100 {
        list.push(i * 2, 1);
    }

    let mut iter = PostingListIterator::new(&list);

    assert_eq!(iter.seek(50), 50);
    assert_eq!(iter.seek(51), 52);
    assert_eq!(iter.seek(200), TERMINATED);
}

#[test]
fn test_block_posting_list() {
    let mut list = PostingList::new();
    for i in 0..500 {
        list.push(i * 2, (i % 10) + 1);
    }

    let block_list = BlockPostingList::from_posting_list(&list).unwrap();
    assert_eq!(block_list.doc_count(), 500);

    let mut iter = block_list.iterator();
    assert_eq!(iter.doc(), 0);
    assert_eq!(iter.term_freq(), 1);

    // Test seek across blocks
    assert_eq!(iter.seek(500), 500);
    assert_eq!(iter.seek(998), 998);
    assert_eq!(iter.seek(1000), TERMINATED);
}

#[test]
fn test_block_posting_list_serialization() {
    let mut list = PostingList::new();
    for i in 0..300 {
        list.push(i * 3, i + 1);
    }

    let block_list = BlockPostingList::from_posting_list(&list).unwrap();

    let mut buffer = Vec::new();
    block_list.serialize(&mut buffer).unwrap();

    let deserialized = BlockPostingList::deserialize(&buffer[..]).unwrap();
    assert_eq!(deserialized.doc_count(), block_list.doc_count());

    // Verify iteration produces same results
    let mut iter1 = block_list.iterator();
    let mut iter2 = deserialized.iterator();

    while iter1.doc() != TERMINATED {
        assert_eq!(iter1.doc(), iter2.doc());
        assert_eq!(iter1.term_freq(), iter2.term_freq());
        iter1.advance();
        iter2.advance();
    }
    assert_eq!(iter2.doc(), TERMINATED);
}

/// Helper: collect all (doc_id, tf) from a BlockPostingIterator
fn collect_postings(bpl: &BlockPostingList) -> Vec<(u32, u32)> {
    let mut result = Vec::new();
    let mut it = bpl.iterator();
    while it.doc() != TERMINATED {
        result.push((it.doc(), it.term_freq()));
        it.advance();
    }
    result
}

/// Helper: build a BlockPostingList from (doc_id, tf) pairs
#[test]
fn deserialization_rejects_unsupported_width_instead_of_empty_results() {
    let list = build_bpl(&[(0, 1), (1, 2)]);
    let mut bytes = Vec::new();
    list.serialize(&mut bytes).unwrap();
    bytes[6] = 0xe1;
    let error = BlockPostingList::deserialize(&bytes).unwrap_err();
    assert_eq!(error, PostingError::DocWidth(33));
    assert!(error.message().contains("exceeds 32 bits"));
}

fn build_bpl(postings: &[(u32, u32)]) -> BlockPostingList {
    let mut pl = PostingList::new();
    for &(doc_id, tf) in postings {
        pl.push(doc_id, tf);
    }
    BlockPostingList::from_posting_list(&pl).unwrap()
}

/// Helper: serialize a BlockPostingList to bytes
fn serialize_bpl(bpl: &BlockPostingList) -> Vec<u8> {
    let mut buf = Vec::new();
    bpl.serialize(&mut buf).unwrap();
    buf
}

#[test]
fn test_concatenate_blocks_two_segments() {
    // Segment A: docs 0,2,4,...,198 (100 docs, tf=1..100)
    let a: Vec<(u32, u32)> = (0..100).map(|i| (i * 2, i + 1)).collect();
    let bpl_a = build_bpl(&a);

    // Segment B: docs 0,3,6,...,297 (100 docs, tf=2..101)
    let b: Vec<(u32, u32)> = (0..100).map(|i| (i * 3, i + 2)).collect();
    let bpl_b = build_bpl(&b);

    // Merge: segment B starts at doc_offset=200
    let merged =
        BlockPostingList::concatenate_blocks(&[(bpl_a.clone(), 0), (bpl_b.clone(), 200)])
            .unwrap();

    assert_eq!(merged.doc_count(), 200);

    let postings = collect_postings(&merged);
    assert_eq!(postings.len(), 200);

    // First 100 from A (unchanged)
    for (i, p) in postings.iter().enumerate().take(100) {
        assert_eq!(*p, (i as u32 * 2, i as u32 + 1));
    }
    // Next 100 from B (doc_id += 200)
    for i in 0..100 {
        assert_eq!(postings[100 + i], (i as u32 * 3 + 200, i as u32 + 2));
    }
}

#[test]
fn test_concatenate_streaming_matches_blocks() {
    // Build 3 segments with different doc distributions
    let seg_a: Vec<(u32, u32)> = (0..250).map(|i| (i * 2, (i % 7) + 1)).collect();
    let seg_b: Vec<(u32, u32)> = (0..180).map(|i| (i * 5, (i % 3) + 1)).collect();
    let seg_c: Vec<(u32, u32)> = (0..90).map(|i| (i * 10, (i % 11) + 1)).collect();

    let bpl_a = build_bpl(&seg_a);
    let bpl_b = build_bpl(&seg_b);
    let bpl_c = build_bpl(&seg_c);

    let offset_b = 1000u32;
    let offset_c = 2000u32;

    // Method 1: concatenate_blocks (in-memory reference)
    let ref_merged = BlockPostingList::concatenate_blocks(&[
        (bpl_a.clone(), 0),
        (bpl_b.clone(), offset_b),
        (bpl_c.clone(), offset_c),
    ])
    .unwrap();
    let mut ref_buf = Vec::new();
    ref_merged.serialize(&mut ref_buf).unwrap();

    // Method 2: concatenate_streaming (footer-based, writes to output)
    let bytes_a = serialize_bpl(&bpl_a);
    let bytes_b = serialize_bpl(&bpl_b);
    let bytes_c = serialize_bpl(&bpl_c);

    let sources: Vec<(&[u8], u32)> =
        vec![(&bytes_a, 0), (&bytes_b, offset_b), (&bytes_c, offset_c)];
    let mut stream_buf = Vec::new();
    let (doc_count, bytes_written) =
        BlockPostingList::concatenate_streaming(&sources, &mut stream_buf).unwrap();

    assert_eq!(doc_count, 520); // 250 + 180 + 90
    assert_eq!(bytes_written, stream_buf.len());

    // Deserialize both and verify identical postings
    let ref_postings = collect_postings(&BlockPostingList::deserialize(&ref_buf).unwrap());
    let stream_postings =
        collect_postings(&BlockPostingList::deserialize(&stream_buf).unwrap());

    assert_eq!(ref_postings.len(), stream_postings.len());
    for (i, (r, s)) in ref_postings.iter().zip(stream_postings.iter()).enumerate() {
        assert_eq!(r, s, "mismatch at posting {}", i);
    }
}

#[test]
fn test_concatenate_streaming_short_source_returns_corruption() {
    // A source shorter than the 24-byte footer (e.g. a corrupt TermInfo
    // (offset, len) pointing at truncated bytes) must fail loudly.
    // Silently skipping it pairs every later source with the wrong
    // metadata (metas[i] vs sources[i]) — panicking or emitting garbage.
    let seg_a: Vec<(u32, u32)> = (0..250).map(|i| (i * 2, (i % 7) + 1)).collect();
    let seg_c: Vec<(u32, u32)> = (0..90).map(|i| (i * 10, (i % 11) + 1)).collect();
    let bytes_a = serialize_bpl(&build_bpl(&seg_a));
    let bytes_c = serialize_bpl(&build_bpl(&seg_c));
    let short = vec![0u8; FOOTER_SIZE - 1]; // corrupt: shorter than footer

    let sources: Vec<(&[u8], u32)> = vec![(&bytes_a, 0), (&short, 1000), (&bytes_c, 2000)];
    let mut out = Vec::new();
    let result = BlockPostingList::concatenate_streaming(&sources, &mut out);
    assert!(
        matches!(result, Err(MergeError::Source(1, _))),
        "short/corrupt source must be a Corruption error, not silently skipped: {:?}",
        result.map(|r| r.0)
    );
}

#[test]
fn test_multi_round_merge() {
    // Simulate 3 rounds of merging (like tiered merge policy)
    //
    // Round 0: 4 small segments built independently
    // Round 1: merge pairs → 2 medium segments
    // Round 2: merge those → 1 large segment

    let segments: Vec<Vec<(u32, u32)>> = (0..4)
        .map(|seg| (0..200).map(|i| (i * 3, (i + seg * 7) % 10 + 1)).collect())
        .collect();

    let bpls: Vec<BlockPostingList> = segments.iter().map(|s| build_bpl(s)).collect();
    let serialized: Vec<Vec<u8>> = bpls.iter().map(serialize_bpl).collect();

    // Round 1: merge seg0+seg1 (offset=0,600), seg2+seg3 (offset=0,600)
    let mut merged_01 = Vec::new();
    let sources_01: Vec<(&[u8], u32)> = vec![(&serialized[0], 0), (&serialized[1], 600)];
    let (dc_01, _) =
        BlockPostingList::concatenate_streaming(&sources_01, &mut merged_01).unwrap();
    assert_eq!(dc_01, 400);

    let mut merged_23 = Vec::new();
    let sources_23: Vec<(&[u8], u32)> = vec![(&serialized[2], 0), (&serialized[3], 600)];
    let (dc_23, _) =
        BlockPostingList::concatenate_streaming(&sources_23, &mut merged_23).unwrap();
    assert_eq!(dc_23, 400);

    // Round 2: merge the two intermediate results (offset=0, 1200)
    let mut final_merged = Vec::new();
    let sources_final: Vec<(&[u8], u32)> = vec![(&merged_01, 0), (&merged_23, 1200)];
    let (dc_final, _) =
        BlockPostingList::concatenate_streaming(&sources_final, &mut final_merged).unwrap();
    assert_eq!(dc_final, 800);

    // Verify final result has all 800 postings with correct doc_ids
    let final_bpl = BlockPostingList::deserialize(&final_merged).unwrap();
    let postings = collect_postings(&final_bpl);
    assert_eq!(postings.len(), 800);

    // Verify doc_id ordering (must be monotonically non-decreasing within segments,
    // and segment boundaries at 0, 600, 1200, 1800)
    // Seg0: 0..597, Seg1: 600..1197, Seg2: 1200..1797, Seg3: 1800..2397
    assert_eq!(postings[0].0, 0); // first doc of seg0
    assert_eq!(postings[199].0, 597); // last doc of seg0 (199*3)
    assert_eq!(postings[200].0, 600); // first doc of seg1 (0+600)
    assert_eq!(postings[399].0, 1197); // last doc of seg1 (597+600)
    assert_eq!(postings[400].0, 1200); // first doc of seg2
    assert_eq!(postings[799].0, 2397); // last doc of seg3

    // Verify TFs preserved through two rounds of merging
    // Creation formula: tf = (i + seg * 7) % 10 + 1
    for seg in 0u32..4 {
        for i in 0u32..200 {
            let idx = (seg * 200 + i) as usize;
            assert_eq!(
                postings[idx].1,
                (i + seg * 7) % 10 + 1,
                "seg{} tf[{}]",
                seg,
                i
            );
        }
    }

    // Verify seek works on final merged result
    let mut it = final_bpl.iterator();
    assert_eq!(it.seek(600), 600);
    assert_eq!(it.seek(1200), 1200);
    assert_eq!(it.seek(2397), 2397);
    assert_eq!(it.seek(2398), TERMINATED);
}

#[test]
fn test_large_scale_merge() {
    // 5 segments × 2000 docs each = 10,000 total docs
    // Each segment has 16 blocks (2000/128 = 15.6 → 16 blocks)
    let num_segments = 5;
    let docs_per_segment = 2000;
    let docs_gap = 3; // doc_ids: 0, 3, 6, ...

    let segments: Vec<Vec<(u32, u32)>> = (0..num_segments)
        .map(|seg| {
            (0..docs_per_segment)
                .map(|i| (i as u32 * docs_gap, (i as u32 + seg as u32) % 20 + 1))
                .collect()
        })
        .collect();

    let bpls: Vec<BlockPostingList> = segments.iter().map(|s| build_bpl(s)).collect();

    // Verify each segment has multiple blocks
    for bpl in &bpls {
        assert!(
            bpl.num_blocks() >= 15,
            "expected >=15 blocks, got {}",
            bpl.num_blocks()
        );
    }

    let serialized: Vec<Vec<u8>> = bpls.iter().map(serialize_bpl).collect();

    // Compute offsets: each segment occupies max_doc+1 doc_id space
    let max_doc_per_seg = (docs_per_segment as u32 - 1) * docs_gap;
    let offsets: Vec<u32> = (0..num_segments)
        .map(|i| i as u32 * (max_doc_per_seg + 1))
        .collect();

    let sources: Vec<(&[u8], u32)> = serialized
        .iter()
        .zip(offsets.iter())
        .map(|(b, o)| (b.as_slice(), *o))
        .collect();

    let mut merged = Vec::new();
    let (doc_count, _) =
        BlockPostingList::concatenate_streaming(&sources, &mut merged).unwrap();
    assert_eq!(doc_count, (num_segments * docs_per_segment) as u32);

    // Deserialize and verify
    let merged_bpl = BlockPostingList::deserialize(&merged).unwrap();
    let postings = collect_postings(&merged_bpl);
    assert_eq!(postings.len(), num_segments * docs_per_segment);

    // Verify all doc_ids are strictly monotonically increasing across segment boundaries
    for i in 1..postings.len() {
        assert!(
            postings[i].0 > postings[i - 1].0 || (i % docs_per_segment == 0), // new segment can have lower absolute ID
            "doc_id not increasing at {}: {} vs {}",
            i,
            postings[i - 1].0,
            postings[i].0,
        );
    }

    // Verify seek across all block boundaries
    let mut it = merged_bpl.iterator();
    for (seg, &expected_first) in offsets.iter().enumerate() {
        assert_eq!(
            it.seek(expected_first),
            expected_first,
            "seek to segment {} start",
            seg
        );
    }
}

#[test]
fn test_merge_edge_cases() {
    // Single doc per segment
    let bpl_a = build_bpl(&[(0, 5)]);
    let bpl_b = build_bpl(&[(0, 3)]);

    let merged =
        BlockPostingList::concatenate_blocks(&[(bpl_a.clone(), 0), (bpl_b.clone(), 1)])
            .unwrap();
    assert_eq!(merged.doc_count(), 2);
    let p = collect_postings(&merged);
    assert_eq!(p, vec![(0, 5), (1, 3)]);

    // Exactly BLOCK_SIZE docs (single full block)
    let exact_block: Vec<(u32, u32)> = (0..BLOCK_SIZE as u32).map(|i| (i, i % 5 + 1)).collect();
    let bpl_exact = build_bpl(&exact_block);
    assert_eq!(bpl_exact.num_blocks(), 1);

    let bytes = serialize_bpl(&bpl_exact);
    let mut out = Vec::new();
    let sources: Vec<(&[u8], u32)> = vec![(&bytes, 0), (&bytes, BLOCK_SIZE as u32)];
    let (dc, _) = BlockPostingList::concatenate_streaming(&sources, &mut out).unwrap();
    assert_eq!(dc, BLOCK_SIZE as u32 * 2);

    let merged = BlockPostingList::deserialize(&out).unwrap();
    let postings = collect_postings(&merged);
    assert_eq!(postings.len(), BLOCK_SIZE * 2);
    // Second segment's docs offset by BLOCK_SIZE
    assert_eq!(postings[BLOCK_SIZE].0, BLOCK_SIZE as u32);

    // BLOCK_SIZE + 1 docs (two blocks: 128 + 1)
    let over_block: Vec<(u32, u32)> = (0..BLOCK_SIZE as u32 + 1).map(|i| (i * 2, 1)).collect();
    let bpl_over = build_bpl(&over_block);
    assert_eq!(bpl_over.num_blocks(), 2);
}

#[test]
fn test_streaming_roundtrip_single_source() {
    // Streaming merge with a single source should produce equivalent output to serialize
    let docs: Vec<(u32, u32)> = (0..500).map(|i| (i * 7, i % 15 + 1)).collect();
    let bpl = build_bpl(&docs);
    let direct = serialize_bpl(&bpl);

    let sources: Vec<(&[u8], u32)> = vec![(&direct, 0)];
    let mut streamed = Vec::new();
    BlockPostingList::concatenate_streaming(&sources, &mut streamed).unwrap();

    // Both should deserialize to identical postings
    let p1 = collect_postings(&BlockPostingList::deserialize(&direct).unwrap());
    let p2 = collect_postings(&BlockPostingList::deserialize(&streamed).unwrap());
    assert_eq!(p1, p2);
}

#[test]
fn test_max_tf_preserved_through_merge() {
    // Segment A: max_tf = 50
    let mut a = Vec::new();
    for i in 0..200 {
        a.push((i * 2, if i == 100 { 50 } else { 1 }));
    }
    let bpl_a = build_bpl(&a);
    assert_eq!(bpl_a.max_tf(), 50);

    // Segment B: max_tf = 30
    let mut b = Vec::new();
    for i in 0..200 {
        b.push((i * 2, if i == 50 { 30 } else { 2 }));
    }
    let bpl_b = build_bpl(&b);
    assert_eq!(bpl_b.max_tf(), 30);

    // After merge, max_tf should be max(50, 30) = 50
    let bytes_a = serialize_bpl(&bpl_a);
    let bytes_b = serialize_bpl(&bpl_b);
    let sources: Vec<(&[u8], u32)> = vec![(&bytes_a, 0), (&bytes_b, 1000)];
    let mut out = Vec::new();
    BlockPostingList::concatenate_streaming(&sources, &mut out).unwrap();

    let merged = BlockPostingList::deserialize(&out).unwrap();
    assert_eq!(merged.max_tf(), 50);
    assert_eq!(merged.doc_count(), 400);
}

// ── 2-level skip list format tests ──────────────────────────────────

#[test]
fn test_l0_l1_counts() {
    // 1 block (< L1_INTERVAL) → 1 L1 entry (partial group)
    let bpl = build_bpl(&(0..50u32).map(|i| (i, 1)).collect::<Vec<_>>());
    assert_eq!(bpl.num_blocks(), 1);
    assert_eq!(bpl.l1_docs.len(), 1);

    // Exactly L1_INTERVAL blocks → 1 L1 entry (full group)
    let n = BLOCK_SIZE * L1_INTERVAL;
    let bpl = build_bpl(&(0..n as u32).map(|i| (i * 2, 1)).collect::<Vec<_>>());
    assert_eq!(bpl.num_blocks(), L1_INTERVAL);
    assert_eq!(bpl.l1_docs.len(), 1);

    // L1_INTERVAL + 1 blocks → 2 L1 entries
    let n = BLOCK_SIZE * L1_INTERVAL + 1;
    let bpl = build_bpl(&(0..n as u32).map(|i| (i * 2, 1)).collect::<Vec<_>>());
    assert_eq!(bpl.num_blocks(), L1_INTERVAL + 1);
    assert_eq!(bpl.l1_docs.len(), 2);

    // 3 × L1_INTERVAL blocks → 3 L1 entries (all full groups)
    let n = BLOCK_SIZE * L1_INTERVAL * 3;
    let bpl = build_bpl(&(0..n as u32).map(|i| (i, 1)).collect::<Vec<_>>());
    assert_eq!(bpl.num_blocks(), L1_INTERVAL * 3);
    assert_eq!(bpl.l1_docs.len(), 3);
}

#[test]
fn test_l1_last_doc_values() {
    // 20 blocks: 2 full L1 groups (8+8) + 1 partial (4) → 3 L1 entries
    let n = BLOCK_SIZE * 20;
    let docs: Vec<(u32, u32)> = (0..n as u32).map(|i| (i * 3, 1)).collect();
    let bpl = build_bpl(&docs);
    assert_eq!(bpl.num_blocks(), 20);
    assert_eq!(bpl.l1_docs.len(), 3); // ceil(20/8) = 3

    // L1[0] = last_doc of block 7 (end of first group)
    let expected_l1_0 = bpl.block_last_doc(7).unwrap();
    assert_eq!(bpl.l1_docs.get(0).copied().unwrap(), expected_l1_0);

    // L1[1] = last_doc of block 15 (end of second group)
    let expected_l1_1 = bpl.block_last_doc(15).unwrap();
    assert_eq!(bpl.l1_docs.get(1).copied().unwrap(), expected_l1_1);

    // L1[2] = last_doc of block 19 (end of partial group)
    let expected_l1_2 = bpl.block_last_doc(19).unwrap();
    assert_eq!(bpl.l1_docs.get(2).copied().unwrap(), expected_l1_2);
}

#[test]
fn test_seek_block_basic() {
    // 20 blocks spanning large doc ID range
    let n = BLOCK_SIZE * 20;
    let docs: Vec<(u32, u32)> = (0..n as u32).map(|i| (i * 10, 1)).collect();
    let bpl = build_bpl(&docs);

    // Seek to doc 0 → block 0
    assert_eq!(bpl.seek_block(0, 0), Some(0));

    // Seek to the first doc of each block
    for blk in 0..20 {
        let first = bpl.block_first_doc(blk).unwrap();
        assert_eq!(
            bpl.seek_block(first, 0),
            Some(blk),
            "seek to block {} first_doc",
            blk
        );
    }

    // Seek to the last doc of each block
    for blk in 0..20 {
        let last = bpl.block_last_doc(blk).unwrap();
        assert_eq!(
            bpl.seek_block(last, 0),
            Some(blk),
            "seek to block {} last_doc",
            blk
        );
    }

    // Seek past all docs
    let max_doc = bpl.block_last_doc(19).unwrap();
    assert_eq!(bpl.seek_block(max_doc + 1, 0), None);

    // Seek with from_block > 0 (skip early blocks)
    let mid_doc = bpl.block_first_doc(10).unwrap();
    assert_eq!(bpl.seek_block(mid_doc, 10), Some(10));
    assert_eq!(
        bpl.seek_block(mid_doc, 11),
        Some(11).or(bpl.seek_block(mid_doc, 11))
    );
}

#[test]
fn test_seek_block_across_l1_boundaries() {
    // 24 blocks = 3 L1 groups of 8
    let n = BLOCK_SIZE * 24;
    let docs: Vec<(u32, u32)> = (0..n as u32).map(|i| (i * 5, 1)).collect();
    let bpl = build_bpl(&docs);
    assert_eq!(bpl.l1_docs.len(), 3);

    // Seek into each L1 group
    for group in 0..3 {
        let blk = group * L1_INTERVAL;
        let target = bpl.block_first_doc(blk).unwrap();
        assert_eq!(
            bpl.seek_block(target, 0),
            Some(blk),
            "seek to group {} block {}",
            group,
            blk
        );
    }

    // Seek to doc in the middle of group 2 (block 20)
    let target = bpl.block_first_doc(20).unwrap() + 1;
    assert_eq!(bpl.seek_block(target, 0), Some(20));
}

#[test]
fn block_len_matches_l0_offsets() {
    // Block lengths derive from neighbouring L0 offsets and add up to the stream.
    let bpl = build_bpl(&(0..1000).map(|i| (i * 3, 1 + i % 4)).collect::<Vec<_>>());
    let mut total = 0usize;
    for b in 0..bpl.num_blocks() {
        let (_, _, offset, _) = read_l0_entry(&bpl, b);
        assert_eq!(offset as usize, total, "block {b} offset");
        total += bpl.block_len(b);
    }
    assert_eq!(total, stream_of(&bpl).len());
}

/// Every codec round-trips doc ids and tfs exactly, `seek` agrees with
/// `Rounded`, and `Rounded` output is byte-identical to the historic
/// layout (codec id 0, widths 0/8/16/32).
#[test]
fn every_codec_round_trips_and_seeks() {
    let mut postings: Vec<(u32, u32)> = Vec::new();
    let mut doc = 0u32;
    for i in 0..5000u32 {
        // Mostly small gaps with rare huge ones (forces exceptions / wide
        // blocks), tfs mostly 1-3 with rare outliers.
        doc += if i % 97 == 0 { 100_000 } else { 1 + i % 7 };
        let tf = if i % 131 == 0 { 5000 } else { 1 + i % 3 };
        postings.push((doc, tf));
    }
    let mut list = PostingList::new();
    for &(d, tf) in &postings {
        list.push(d, tf);
    }
    let rounded = BlockPostingList::from_posting_list(&list).unwrap();
    let mut sizes = Vec::new();
    for codec in [
        PostingCodec::Rounded,
        PostingCodec::Packed,
        PostingCodec::Pfor,
        PostingCodec::Simd4x,
    ] {
        let bpl = BlockPostingList::from_posting_list_with_codec(&list, codec).unwrap();
        assert_eq!(collect_postings(&bpl), postings, "{codec:?}");
        for b in 0..bpl.num_blocks() {
            let count = (postings.len() - b * BLOCK_SIZE).min(BLOCK_SIZE);
            let expected_codec = if codec == PostingCodec::Simd4x && count < BLOCK_SIZE {
                PostingCodec::Rounded
            } else {
                codec
            };
            assert_eq!(bpl.block_codec(b), Some(expected_codec));
            assert_eq!(bpl.block_max_tf(b), rounded.block_max_tf(b));
        }
        // Serialized round trip (both copying and zero-copy paths).
        let bytes = serialize_bpl(&bpl);
        let back = BlockPostingList::deserialize(&bytes).unwrap();
        assert_eq!(collect_postings(&back), postings, "{codec:?} deserialize");
        let back =
            BlockPostingList::deserialize_zero_copy(bytes.clone()).unwrap();
        assert_eq!(collect_postings(&back), postings, "{codec:?} zero-copy");
        // Seeks land on the same docs as the reference layout.
        let mut a = rounded.iterator();
        let mut b = back.iterator();
        for target in (0..postings.last().unwrap().0 + 10).step_by(2_003) {
            assert_eq!(a.seek(target), b.seek(target), "{codec:?} seek {target}");
            assert_eq!(a.term_freq(), b.term_freq());
        }
        sizes.push((codec, bytes.len()));
    }
    let rounded_bytes = serialize_bpl(&rounded);
    assert_eq!(
        serialize_bpl(
            &BlockPostingList::from_posting_list_with_codec(&list, PostingCodec::Rounded)
                .unwrap()
        ),
        rounded_bytes,
        "Rounded must stay byte-identical"
    );
    // Header byte of a Rounded block: codec 0, rounded width.
    assert!(matches!(stream_of(&rounded)[6], 0 | 8 | 16 | 32));
    let size = |c: PostingCodec| sizes.iter().find(|(k, _)| *k == c).unwrap().1;
    assert!(size(PostingCodec::Packed) < size(PostingCodec::Rounded));
    assert!(size(PostingCodec::Pfor) < size(PostingCodec::Packed));
}

/// Blocks of different codecs merge by verbatim copy and decode correctly.
#[test]
fn mixed_codec_sources_concatenate() {
    let a: Vec<(u32, u32)> = (0..300u32).map(|i| (i * 5, 1 + i % 9)).collect();
    let b: Vec<(u32, u32)> = (0..300u32).map(|i| (i * 11 + 3, 2 + i % 5)).collect();
    let list_a = {
        let mut l = PostingList::new();
        a.iter().for_each(|&(d, t)| l.push(d, t));
        BlockPostingList::from_posting_list_with_codec(&l, PostingCodec::Pfor).unwrap()
    };
    let list_b = {
        let mut l = PostingList::new();
        b.iter().for_each(|&(d, t)| l.push(d, t));
        BlockPostingList::from_posting_list_with_codec(&l, PostingCodec::Packed).unwrap()
    };
    let offset_b = a.last().unwrap().0 + 1;
    let expected: Vec<(u32, u32)> = a
        .iter()
        .copied()
        .chain(b.iter().map(|&(d, t)| (d + offset_b, t)))
        .collect();

    let merged = BlockPostingList::concatenate_blocks(&[
        (list_a.clone(), 0),
        (list_b.clone(), offset_b),
    ])
    .unwrap();
    assert_eq!(collect_postings(&merged), expected);

    let bytes_a = serialize_bpl(&list_a);
    let bytes_b = serialize_bpl(&list_b);
    let mut out = Vec::new();
    let (docs, written) = BlockPostingList::concatenate_streaming(
        &[(bytes_a.as_slice(), 0), (bytes_b.as_slice(), offset_b)],
        &mut out,
    )
    .unwrap();
    assert_eq!(docs, 600);
    assert_eq!(written, out.len());
    let streamed = BlockPostingList::deserialize(&out).unwrap();
    assert_eq!(collect_postings(&streamed), expected);
    assert_eq!(streamed.block_codec(0), Some(PostingCodec::Pfor));
    assert_eq!(
        streamed.block_codec(streamed.num_blocks() - 1),
        Some(PostingCodec::Packed)
    );
}

#[test]
fn test_l0_entry_roundtrip() {
    // Verify L0 entries survive serialize → deserialize
    let docs: Vec<(u32, u32)> = (0..1000u32).map(|i| (i * 3, (i % 10) + 1)).collect();
    let bpl = build_bpl(&docs);

    let bytes = serialize_bpl(&bpl);
    let bpl2 = BlockPostingList::deserialize(&bytes).unwrap();

    assert_eq!(bpl.num_blocks(), bpl2.num_blocks());
    for blk in 0..bpl.num_blocks() {
        assert_eq!(
            read_l0_entry(&bpl, blk),
            read_l0_entry(&bpl2, blk),
            "L0 entry mismatch at block {}",
            blk
        );
    }

    // Verify L1 docs match
    assert_eq!(bpl.l1_docs, bpl2.l1_docs);
}

#[test]
fn posting_open_borrows_unaligned_group_directories_and_preserves_bytes_and_seeks() {
    for codec in [
        PostingCodec::Rounded,
        PostingCodec::Packed,
        PostingCodec::Pfor,
        PostingCodec::Simd4x,
    ] {
        let mut postings = PostingList::new();
        for i in 0..3457u32 {
            postings.push(i * 7 + 3, i % 13 + 1);
        }
        let built = BlockPostingList::from_posting_list_with_codec(&postings, codec).unwrap();
        let encoded = serialize_bpl(&built);
        for prefix in [1, 3, 7] {
            let mut padded = vec![0; prefix];
            padded.extend_from_slice(&encoded);
            let raw = &padded[prefix..];
            let footer = Footer::parse(raw).unwrap();
            let docs_bytes = &raw[footer.l1_start()..footer.l1_end()];
            let bounds_bytes = &raw[footer.l1_end()..footer.l1_bounds_end()];
            let opened = BlockPostingList::deserialize(raw).unwrap();
            assert_eq!(
                word_bytes(&opened.l1_docs),
                docs_bytes,
                "opening must keep group document metadata"
            );
            assert_eq!(
                word_bytes(&opened.l1_bounds),
                bounds_bytes,
                "opening must keep group bound metadata"
            );
            assert_eq!(serialize_bpl(&opened), encoded);
            for from in 0..=built.num_blocks() {
                for target in (0..=3457 * 7 + 4).step_by(37) {
                    let expected = (from..built.num_blocks())
                        .find(|&block| built.block_last_doc(block).unwrap() >= target);
                    assert_eq!(opened.seek_block(target, from), expected);
                }
            }
            assert_eq!(collect_postings(&opened), collect_postings(&built));
        }
    }
}

#[test]
fn test_zero_copy_deserialize_matches() {
    let docs: Vec<(u32, u32)> = (0..2000u32).map(|i| (i * 2, (i % 5) + 1)).collect();
    let bpl = build_bpl(&docs);
    let bytes = serialize_bpl(&bpl);

    let copied = BlockPostingList::deserialize(&bytes).unwrap();
    let zero_copy =
        BlockPostingList::deserialize_zero_copy(bytes.clone()).unwrap();

    // Same structure
    assert_eq!(copied.num_blocks(), zero_copy.num_blocks());
    assert_eq!(copied.l1_docs, zero_copy.l1_docs);
    assert_eq!(copied.doc_count, zero_copy.doc_count);
    assert_eq!(copied.max_tf, zero_copy.max_tf);

    // Same iteration
    let p1 = collect_postings(&copied);
    let p2 = collect_postings(&zero_copy);
    assert_eq!(p1, p2);
}

#[test]
fn test_l1_preserved_through_streaming_merge() {
    // Merge 3 segments, verify L1 is correctly rebuilt
    let seg_a = build_bpl(&(0..1000u32).map(|i| (i * 2, 1)).collect::<Vec<_>>());
    let seg_b = build_bpl(&(0..800u32).map(|i| (i * 3, 2)).collect::<Vec<_>>());
    let seg_c = build_bpl(&(0..500u32).map(|i| (i * 5, 3)).collect::<Vec<_>>());

    let bytes_a = serialize_bpl(&seg_a);
    let bytes_b = serialize_bpl(&seg_b);
    let bytes_c = serialize_bpl(&seg_c);

    let sources: Vec<(&[u8], u32)> = vec![(&bytes_a, 0), (&bytes_b, 10000), (&bytes_c, 20000)];
    let mut out = Vec::new();
    BlockPostingList::concatenate_streaming(&sources, &mut out).unwrap();

    let merged = BlockPostingList::deserialize(&out).unwrap();
    let expected_l1_count = merged.num_blocks().div_ceil(L1_INTERVAL);
    assert_eq!(merged.l1_docs.len(), expected_l1_count);

    // Verify L1 values are correct
    for (i, &l1_doc) in merged.l1_docs.iter().enumerate() {
        let last_block_in_group = ((i + 1) * L1_INTERVAL - 1).min(merged.num_blocks() - 1);
        let expected = merged.block_last_doc(last_block_in_group).unwrap();
        assert_eq!(l1_doc, expected, "L1[{}] mismatch", i);
    }

    // Verify seek_block works on merged result
    for blk in 0..merged.num_blocks() {
        let first = merged.block_first_doc(blk).unwrap();
        assert_eq!(merged.seek_block(first, 0), Some(blk));
    }
}

#[test]
fn test_seek_block_single_block() {
    // Edge case: single block (< L1_INTERVAL)
    let bpl = build_bpl(&[(0, 1), (10, 2), (20, 3)]);
    assert_eq!(bpl.num_blocks(), 1);
    assert_eq!(bpl.l1_docs.len(), 1);

    assert_eq!(bpl.seek_block(0, 0), Some(0));
    assert_eq!(bpl.seek_block(10, 0), Some(0));
    assert_eq!(bpl.seek_block(20, 0), Some(0));
    assert_eq!(bpl.seek_block(21, 0), None);
}

#[test]
fn test_footer_size() {
    // Verify serialized size = stream + L0 + L1 + FOOTER_SIZE
    let docs: Vec<(u32, u32)> = (0..500u32).map(|i| (i * 2, 1)).collect();
    let bpl = build_bpl(&docs);
    let bytes = serialize_bpl(&bpl);

    let expected = stream_of(&bpl).len()
        + bpl.num_blocks() * L0_SIZE
        + bpl.l1_docs.len() * (L1_SIZE + 4)
        + FOOTER_V2_SIZE;
    assert_eq!(bytes.len(), expected);
}

fn build_bpl_with_positions(postings: &[(u32, u32)]) -> BlockPostingList {
    let mut list = PostingList::new();
    for &(doc, tf) in postings {
        list.push(doc, tf);
    }
    BlockPostingList::from_posting_list_with(&list, true, None).unwrap()
}

/// Expected cursor of every posting: the cumulative tf before it.
fn expected_cursors(postings: &[(u32, u32)]) -> Vec<u64> {
    let mut acc = 0u64;
    postings
        .iter()
        .map(|&(_, tf)| {
            let c = acc;
            acc += tf as u64;
            c
        })
        .collect()
}

fn iterator_cursors(bpl: &BlockPostingList) -> Vec<u64> {
    let mut it = bpl.iterator();
    let mut out = Vec::new();
    while it.doc() != TERMINATED {
        out.push(it.position_cursor());
        it.advance();
    }
    out
}

#[test]
fn position_cursors_survive_serialization_and_seeks() {
    let docs: Vec<(u32, u32)> = (0..700u32).map(|i| (i * 3, i % 5 + 1)).collect();
    let bpl = build_bpl_with_positions(&docs);
    assert!(bpl.has_position_cursors());
    assert_eq!(
        bpl.total_positions(),
        docs.iter().map(|&(_, tf)| tf as u64).sum::<u64>()
    );
    assert_eq!(bpl.pos_cursor(0), Some(0));
    assert_eq!(
        bpl.pos_cursor(1),
        Some(docs[..128].iter().map(|&(_, tf)| tf as u64).sum::<u64>())
    );
    assert_eq!(iterator_cursors(&bpl), expected_cursors(&docs));

    let bytes = serialize_bpl(&bpl);
    assert_eq!(
        bytes.len(),
        stream_of(&bpl).len()
            + bpl.num_blocks() * (L0_SIZE + CURSOR_SIZE)
            + bpl.l1_docs.len() * (L1_SIZE + 4)
            + FOOTER_V2_SIZE
    );
    assert!(BlockPostingList::has_cursors_bytes(&bytes));
    let decoded =
        BlockPostingList::deserialize_zero_copy(bytes.clone()).unwrap();
    assert_eq!(iterator_cursors(&decoded), expected_cursors(&docs));
    assert_eq!(decoded.total_positions(), bpl.total_positions());

    // Seeking within and across blocks keeps the cursor exact.
    let mut it = decoded.iterator();
    let expected = expected_cursors(&docs);
    for (i, &(doc, _)) in docs.iter().enumerate().step_by(37) {
        assert_eq!(it.seek(doc), doc);
        assert_eq!(it.position_cursor(), expected[i], "cursor at doc {doc}");
    }
    let mut it = decoded.iterator();
    assert_eq!(it.seek(docs[600].0 + 1), docs[601].0);
    assert_eq!(it.position_cursor(), expected[601]);

    // Lists without positions carry no cursors (the iterator's prefix
    // sum is then relative to nothing and never consulted).
    let plain = build_bpl(&docs);
    assert!(!plain.has_position_cursors());
    assert_eq!(plain.pos_cursor(0), None);
    assert_eq!(plain.total_positions(), 0);
}

#[test]
fn length_bounds_are_packed_per_block_and_survive_merges() {
    let docs: Vec<(u32, u32)> = (0..300u32).map(|i| (i, i % 3 + 1)).collect();
    let length_of = |doc: u32| 10 + (doc % 50) * 7;
    let mut list = PostingList::new();
    for &(doc, tf) in &docs {
        list.push(doc, tf);
    }
    let bpl = BlockPostingList::from_posting_list_with(&list, true, Some(&lengths_of(&list, length_of))).unwrap();
    assert_eq!(bpl.min_len(), Some(10));
    assert_eq!(bpl.block_bounds(0), Some((3, Some(10))));
    // Block 2 covers docs 256..300: min length there is doc 256 (256 % 50 = 6 → 52).
    assert_eq!(bpl.block_bounds(2), Some((3, Some(52))));
    assert_eq!(bpl.block_max_tf(2), Some(3));

    let bytes = serialize_bpl(&bpl);
    let decoded = BlockPostingList::deserialize(&bytes).unwrap();
    assert_eq!(decoded.min_len(), Some(10));
    assert_eq!(decoded.block_bounds(2), Some((3, Some(52))));
    // Superblock bounds: one group of three blocks here, max tf 3 and
    // the smallest length of the whole list.
    assert_eq!(decoded.group_bounds(0), Some((3, 10)));
    assert_eq!(decoded.group_bounds(2), Some((3, 10)));
    assert_eq!(decoded.group_bounds(3), None);
    assert_eq!(decoded.group_last_doc(1), Some(299));
    assert_eq!(decoded.next_group_block(1), 3);

    // Without lengths the minimum is 1, which every real unit satisfies.
    let plain = build_bpl(&docs);
    assert_eq!(plain.min_len(), Some(1));
    assert_eq!(plain.block_bounds(0), Some((3, Some(1))));

    // Streaming merge keeps per-block bounds and takes the list minimum.
    let mut out = Vec::new();
    BlockPostingList::concatenate_streaming(&[(&bytes, 0), (&bytes, 1000)], &mut out).unwrap();
    let merged = BlockPostingList::deserialize(&out).unwrap();
    assert_eq!(merged.min_len(), Some(10));
    assert_eq!(merged.block_bounds(2), Some((3, Some(52))));
    assert_eq!(merged.block_bounds(3), Some((3, Some(10))));
    assert_eq!(merged.block_max_tf(5), Some(3));
    // Six blocks: one full group of eight would need more; here both
    // lists' blocks share group 0.
    assert_eq!(merged.group_bounds(5), Some((3, 10)));
    assert_eq!(merged.group_last_doc(5), Some(1299));
    assert_eq!(merged.next_group_block(5), 6);
}

#[test]
fn legacy_footer_without_magic_still_deserializes() {
    let docs: Vec<(u32, u32)> = (0..300u32).map(|i| (i * 2, 1 + i % 3)).collect();
    let bpl = build_bpl(&docs);
    let bytes = serialize_bpl(&bpl);
    // A real pre-magic layout has no L1 bounds or footer extension, and
    // stores f32 maxima rather than packed TF/length L0 words.
    let footer = Footer::parse(&bytes).unwrap();
    let mut legacy = bytes[..footer.l1_end()].to_vec();
    for block in 0..bpl.num_blocks() {
        let at = footer.l0_start() + block * L0_SIZE + 12;
        legacy[at..at + 4]
            .copy_from_slice(&(bpl.block_max_tf(block).unwrap() as f32).to_le_bytes());
    }
    legacy.extend_from_slice(
        &bytes[bytes.len() - FOOTER_V2_SIZE..bytes.len() - (FOOTER_V2_SIZE - FOOTER_SIZE)],
    );
    assert!(!BlockPostingList::has_cursors_bytes(&legacy));
    // Legacy lists carry an f32 max tf per block and no lengths.
    let decoded = BlockPostingList::deserialize(&legacy).unwrap();
    assert_eq!(collect_postings(&decoded), docs);
    assert_eq!(decoded.max_tf(), 3);
    assert!(!decoded.has_position_cursors());
    assert_eq!(decoded.min_len(), None);
    assert_eq!(decoded.group_bounds(0), None);
    // And the legacy bytes concatenate into a current-format list.
    let mut out = Vec::new();
    let (count, written) =
        BlockPostingList::concatenate_streaming(&[(&legacy, 0), (&legacy, 1000)], &mut out)
            .unwrap();
    assert_eq!(count, 600);
    assert_eq!(written, out.len());
    let merged = BlockPostingList::deserialize(&out).unwrap();
    assert_eq!(merged.doc_count(), 600);
    assert!(!merged.has_position_cursors());
}

#[test]
fn streaming_merge_rebases_position_cursors() {
    let a: Vec<(u32, u32)> = (0..200u32).map(|i| (i, i % 4 + 1)).collect();
    let b: Vec<(u32, u32)> = (0..150u32).map(|i| (i * 2, 2)).collect();
    let bytes_a = serialize_bpl(&build_bpl_with_positions(&a));
    let bytes_b = serialize_bpl(&build_bpl_with_positions(&b));
    let mut out = Vec::new();
    let (count, written) =
        BlockPostingList::concatenate_streaming(&[(&bytes_a, 0), (&bytes_b, 1000)], &mut out)
            .unwrap();
    assert_eq!(count, 350);
    assert_eq!(written, out.len());
    let merged = BlockPostingList::deserialize(&out).unwrap();
    assert!(merged.has_position_cursors());
    let all: Vec<(u32, u32)> = a
        .iter()
        .copied()
        .chain(b.iter().map(|&(d, tf)| (d + 1000, tf)))
        .collect();
    assert_eq!(collect_postings(&merged), all);
    assert_eq!(iterator_cursors(&merged), expected_cursors(&all));
    assert_eq!(
        merged.total_positions(),
        all.iter().map(|&(_, tf)| tf as u64).sum::<u64>()
    );
    // The in-memory reference agrees.
    let reference = BlockPostingList::concatenate_blocks(&[
        (build_bpl_with_positions(&a), 0),
        (build_bpl_with_positions(&b), 1000),
    ])
    .unwrap();
    assert_eq!(iterator_cursors(&reference), expected_cursors(&all));
    // Mixing lists with and without cursors is refused.
    let plain = serialize_bpl(&build_bpl(&b));
    assert!(
        BlockPostingList::concatenate_streaming(
            &[(&bytes_a, 0), (&plain, 1000)],
            &mut Vec::new()
        )
        .is_err()
    );
}

#[test]
fn test_seek_block_from_block_skips_earlier() {
    // 16 blocks: seek with from_block should skip earlier blocks
    let n = BLOCK_SIZE * 16;
    let docs: Vec<(u32, u32)> = (0..n as u32).map(|i| (i * 3, 1)).collect();
    let bpl = build_bpl(&docs);

    // Target is in block 5, but from_block=8 → should find block >= 8
    let target_in_5 = bpl.block_first_doc(5).unwrap() + 1;
    // from_block=8 means we only look at blocks 8+
    // target_in_5 < last_doc of block 8, so seek_block(target, 8) should return 8
    let result = bpl.seek_block(target_in_5, 8);
    assert!(result.is_some());
    assert!(result.unwrap() >= 8);
}
#[test]
fn saturated_tf_bounds_remain_upper_bounds_without_changing_encoded_bytes() {
    let docs: Vec<_> = (0..(BLOCK_SIZE * 18) as u32)
        .map(|doc| {
            (
                doc,
                if doc == (BLOCK_SIZE * 17) as u32 {
                    100_000
                } else {
                    1
                },
            )
        })
        .collect();
    let list = build_bpl(&docs);
    let bytes = serialize_bpl(&list);
    assert_eq!(list.max_tf(), 100_000);
    assert!(list.block_bounds(17).unwrap().0 >= 100_000);
    assert!(list.group_bounds(17).unwrap().0 >= 100_000);
    assert_eq!(list.block_bounds(0).unwrap().0, 1);
    let decoded = BlockPostingList::deserialize(&bytes).unwrap();
    assert!(decoded.block_bounds(17).unwrap().0 >= 100_000);
    assert!(decoded.group_bounds(17).unwrap().0 >= 100_000);
    assert_eq!(serialize_bpl(&decoded), bytes);
    assert_eq!(collect_postings(&decoded), docs);
}
#[test]
fn ratio_bounds_preserve_payload_bytes_and_copy_merge_with_legacy_blocks() {
    for codec in [
        PostingCodec::Rounded,
        PostingCodec::Packed,
        PostingCodec::Pfor,
        PostingCodec::Simd4x,
    ] {
        let mut postings = PostingList::new();
        for i in 0..1100 {
            postings.push(i * 3, 1 + i % 97);
        }
        let length = |id: u32| 10 + id % 997;
        let plain = BlockPostingList::from_posting_list_with_options(
            &postings,
            true,
            Some(&lengths_of(&postings, length)),
            codec,
        )
        .unwrap();
        let tight = BlockPostingList::from_posting_list_with_ratio_bounds(
            &postings,
            true,
            Some(&lengths_of(&postings, length)),
            codec,
            MAX_LENGTH,
        )
        .unwrap();
        assert_eq!(stream_of(&plain), stream_of(&tight));
        assert_eq!(l0_bytes(&plain), l0_bytes(&tight));
        assert_eq!(
            plain.cursors,
            tight.cursors
        );
        let mut raw = Vec::new();
        tight.serialize(&mut raw).unwrap();
        let decoded = BlockPostingList::deserialize(&raw).unwrap();
        assert!(decoded.has_ratio_bounds());
        for block in 0..tight.num_blocks() {
            assert!(f32::from_bits(decoded.block_length_ratio(block)) > 0.0);
            for posting in &postings.postings
                [block * BLOCK_SIZE..((block + 1) * BLOCK_SIZE).min(postings.len())]
            {
                assert!(
                    f32::from_bits(decoded.block_length_ratio(block)) as f64
                        <= length(posting.doc_id) as f64 / posting.term_freq as f64
                );
                assert!(
                    f32::from_bits(decoded.group_length_ratio(block))
                        <= f32::from_bits(decoded.block_length_ratio(block))
                );
            }
        }
        let merged = BlockPostingList::concatenate_blocks(&[
            (tight.clone(), 0),
            (plain.clone(), 10_000),
        ])
        .unwrap();
        let mut plain_raw = Vec::new();
        plain.serialize(&mut plain_raw).unwrap();
        let mut streaming = Vec::new();
        let (_, size) = BlockPostingList::concatenate_streaming(
            &[(&raw, 0), (&plain_raw, 10_000)],
            &mut streaming,
        )
        .unwrap();
        let mut expected = Vec::new();
        merged.serialize(&mut expected).unwrap();
        assert_eq!(streaming, expected);
        assert_eq!(streaming.len(), size);
        for block in 0..tight.num_blocks() {
            assert_eq!(
                merged.block_length_ratio(block),
                tight.block_length_ratio(block)
            );
            assert_eq!(f32::from_bits(merged.block_length_ratio(block + tight.num_blocks())), 0.0);
            let mut before = Vec::new();
            let mut after = Vec::new();
            let mut tfs_before = Vec::new();
            let mut tfs_after = Vec::new();
            tight.decode_block_into(block, &mut before, &mut tfs_before);
            merged.decode_block_into(block, &mut after, &mut tfs_after);
            assert_eq!((before, tfs_before), (after, tfs_after));
        }
        // Model an actual list without the optional extension: remove
        // its bytes as well as its flag. Unaddressed trailers are corrupt.
        let footer = Footer::parse(&raw).unwrap();
        raw.drain(footer.cursors_end()..footer.ratios_end());
        let flags = raw.len() - 12;
        raw[flags] &= !(FLAG_RATIO_BOUNDS as u8);
        let legacy_view = BlockPostingList::deserialize(&raw).unwrap();
        assert!(!legacy_view.has_ratio_bounds());
        assert_eq!(stream_of(&legacy_view), stream_of(&tight));
    }
}

#[test]
fn ratio_bounds_reject_truncation_nonfinite_negative_and_unknown_flags() {
    let mut postings = PostingList::new();
    postings.push(1, 3);
    let list = BlockPostingList::from_posting_list_with_ratio_bounds(
        &postings,
        false,
        Some(&lengths_of(&postings, |_| 7)),
        PostingCodec::Rounded,
        MAX_LENGTH,
    )
    .unwrap();
    let mut raw = Vec::new();
    list.serialize(&mut raw).unwrap();
    let footer = Footer::parse(&raw).unwrap();
    for bad in [f32::NAN, f32::INFINITY, -1.0] {
        let mut corrupt = raw.clone();
        corrupt[footer.cursors_end()..footer.cursors_end() + 4]
            .copy_from_slice(&bad.to_le_bytes());
        assert!(BlockPostingList::deserialize(&corrupt).is_err());
        assert!(
            BlockPostingList::concatenate_streaming(&[(&corrupt, 0)], &mut Vec::new()).is_err()
        );
    }
    let mut short = raw.clone();
    short.remove(footer.cursors_end());
    assert!(BlockPostingList::deserialize(&short).is_err());
    let at = raw.len() - 12;
    raw[at] |= 128;
    assert!(BlockPostingList::deserialize(&raw).is_err());
}

const ALL_CODECS: [PostingCodec; 4] = [
    PostingCodec::Rounded,
    PostingCodec::Packed,
    PostingCodec::Pfor,
    PostingCodec::Simd4x,
];

/// Byte offset of the first document delta of `block` in the stream.
fn first_delta_byte(list: &BlockPostingList, block: usize) -> usize {
    let (_, _, offset, _) = read_l0_entry(&list, block);
    let header = offset as usize;
    // Pfor arrays start with their exception count.
    header + 8 + usize::from(list.block_codec(block) == Some(PostingCodec::Pfor))
}

/// Structurally valid bytes whose block content disagrees with the L0
/// directory must end the cursor explicitly, never index out of range.
#[test]
fn content_corrupt_block_never_panics_or_truncates_silently() {
    for codec in ALL_CODECS {
        // Block 0: docs 0..128 (full); block 1: [200, 300] (a tail, so
        // Simd4x falls back to Rounded there).
        let mut postings = PostingList::new();
        for doc in 0..128 {
            postings.push(doc, doc % 5 + 1);
        }
        postings.push(200, 2);
        postings.push(300, 3);
        let list =
            BlockPostingList::from_posting_list_with_options(&postings, true, None, codec)
                .unwrap();
        let bytes = serialize_bpl(&list);
        let at = first_delta_byte(&list, 1);
        assert_eq!(
            bytes[at], 100,
            "{codec:?}: delta 300-200 at the first payload byte"
        );
        let mut corrupt = bytes.clone();
        corrupt[at] = 1; // block 1 now decodes to [200, 201]; L0 still says 200..=300
        let admitted = BlockPostingList::deserialize(&corrupt)
            .unwrap_or_else(|e| panic!("{codec:?}: structural admission must pass: {e:?}"));
        // Before the content check this indexed past the decoded block.
        let mut cursor = admitted.iterator();
        assert_eq!(cursor.seek(250), TERMINATED, "{codec:?}");
        assert_eq!(cursor.term_freq(), 0);
        assert_eq!(cursor.advance(), TERMINATED);
        let mut decoded = Vec::new();
        assert!(
            admitted
                .decode_block_doc_ids_only(0, &mut decoded)
                .is_some()
        );
        assert_eq!(decoded.len(), 128);
        assert!(
            admitted
                .decode_block_doc_ids_only(1, &mut decoded)
                .is_none(),
            "{codec:?}: a content-corrupt block must be reported, not decoded"
        );
        assert!(decoded.is_empty(), "no ids escape a corrupt block");
        assert!(!admitted.decode_block_into(1, &mut decoded, &mut Vec::new()));
        // Sequential traversal stops at the corrupt block instead of
        // yielding ids outside the directory range.
        assert_eq!(
            collect_postings(&admitted),
            collect_postings(&list)[..128],
            "{codec:?}"
        );
        let mut window = admitted.iterator();
        let mut bits = [0u64; 8];
        window.fill_doc_window(0, &mut bits);
        assert_eq!(bits[..2], [u64::MAX, u64::MAX]);
        assert_eq!(window.doc(), TERMINATED);
        // Untouched bytes still decode completely.
        assert_eq!(
            collect_postings(&BlockPostingList::deserialize(&bytes).unwrap()).len(),
            130
        );
    }
    // A full Simd4x block: corrupt one lane word after the reserved zero
    // first gap so the decoded ids drift below the directory's last id.
    let mut postings = PostingList::new();
    for doc in 0..128 {
        postings.push(doc, 1);
    }
    for i in 0..128 {
        postings.push(200 + i * 2, 1);
    }
    let list = BlockPostingList::from_posting_list_with_codec(&postings, PostingCodec::Simd4x)
        .unwrap();
    assert_eq!(list.block_codec(1), Some(PostingCodec::Simd4x));
    let mut bytes = serialize_bpl(&list);
    let at = first_delta_byte(&list, 1) + 1;
    assert_ne!(bytes[at], 0);
    bytes[at] = 0;
    let admitted = BlockPostingList::deserialize(&bytes).unwrap();
    let mut cursor = admitted.iterator();
    assert_eq!(cursor.seek(450), TERMINATED);
    assert!(
        admitted
            .decode_block_doc_ids_only(1, &mut Vec::new())
            .is_none()
    );
    assert_eq!(collect_postings(&admitted).len(), 128);
}

/// Single-block list whose tail (count < 128) is encoded with codec id 3,
/// as the first Simd4x prototype wrote; the builder now emits Rounded
/// tails but readers keep accepting these bytes.
fn simd_exact_tail_bytes(docs: &[(u32, u32)]) -> Vec<u8> {
    assert!(!docs.is_empty() && docs.len() < BLOCK_SIZE);
    let count = docs.len();
    let (first, last) = (docs[0].0, docs[count - 1].0);
    let gaps: Vec<u32> = docs.windows(2).map(|w| w[1].0 - w[0].0 - 1).collect();
    let tfs: Vec<u32> = docs.iter().map(|d| d.1).collect();
    let max_tf = tfs.iter().copied().max().unwrap();
    let width = |values: &[u32]| {
        (32 - values.iter().copied().max().unwrap_or(0).leading_zeros()) as u8
    };
    let (doc_bits, tf_bits) = (width(&gaps), width(&tfs));
    let mut payload = Vec::new();
    pack(Layout::Rows, &gaps, doc_bits, &mut payload);
    pack(Layout::Rows, &tfs, tf_bits, &mut payload);
    let mut bytes = Vec::new();
    bytes.extend_from_slice(&(count as u16).to_le_bytes());
    bytes.extend_from_slice(&first.to_le_bytes());
    bytes.push(PostingCodec::Simd4x.header_byte(doc_bits));
    bytes.push(tf_bits);
    bytes.extend_from_slice(&payload);
    let stream = bytes.len() as u64;
    for word in [first, last, 0, pack_bounds(max_tf, 1), last, pack_bounds(max_tf, 1)] {
        bytes.extend_from_slice(&word.to_le_bytes());
    }
    bytes.extend_from_slice(&stream.to_le_bytes());
    for word in [1, 1, count as u32, max_tf] {
        bytes.extend_from_slice(&word.to_le_bytes());
    }
    bytes.extend_from_slice(&0u64.to_le_bytes());
    let flags = FLAG_LEN_BOUNDS | FLAG_L1_BOUNDS;
    for word in [flags, 1, FOOTER_MAGIC] {
        bytes.extend_from_slice(&word.to_le_bytes());
    }
    bytes
}

#[test]
fn simd4x_exact_tail_blocks_decode_seek_and_copy_through_merge() {
    for count in [1usize, 2, 3, 17, 127] {
        let docs: Vec<(u32, u32)> = (0..count as u32)
            .map(|i| (i * 3 + 7, i % 4 + 1 + (i == 5) as u32 * 900))
            .collect();
        let bytes = simd_exact_tail_bytes(&docs);
        let list = BlockPostingList::deserialize(&bytes).unwrap();
        assert_eq!(
            list.block_codec(0),
            Some(PostingCodec::Simd4x),
            "count={count}"
        );
        assert_eq!(collect_postings(&list), docs, "count={count}");
        let mut cursor = list.iterator();
        for &(doc, tf) in &docs {
            assert_eq!(cursor.seek(doc.saturating_sub(1)), doc);
            assert_eq!(cursor.term_freq(), tf);
        }
        assert_eq!(cursor.seek(docs[count - 1].0 + 1), TERMINATED);
        assert_eq!(serialize_bpl(&list), bytes, "byte-identical round trip");
        // Merges copy the tail verbatim, keeping codec id 3.
        let mut out = Vec::new();
        let (merged_count, written) =
            BlockPostingList::concatenate_streaming(&[(&bytes, 0), (&bytes, 1000)], &mut out)
                .unwrap();
        assert_eq!((merged_count as usize, written), (2 * count, out.len()));
        let merged = BlockPostingList::deserialize(&out).unwrap();
        assert_eq!(merged.block_codec(1), Some(PostingCodec::Simd4x));
        let expected: Vec<(u32, u32)> = docs
            .iter()
            .copied()
            .chain(docs.iter().map(|&(d, t)| (d + 1000, t)))
            .collect();
        assert_eq!(collect_postings(&merged), expected, "count={count}");
        let typed =
            BlockPostingList::concatenate_blocks(&[(list.clone(), 0), (list.clone(), 1000)])
                .unwrap();
        assert_eq!(serialize_bpl(&typed), out);
        // Header corruption of the tail is still caught structurally.
        let mut short = bytes.clone();
        short[0] = (count + 1) as u8;
        assert!(BlockPostingList::deserialize(&short).is_err());
    }
}

/// A legacy 24-byte footer ending in a `max_tf` equal to the extended
/// footer magic is ambiguous; it must be rejected, never parsed as the
/// extended layout.
#[test]
fn legacy_footer_whose_max_tf_equals_the_magic_is_rejected_not_misread() {
    for count in [1u32, 2, 130, 700] {
        let mut postings = PostingList::new();
        for i in 0..count {
            postings.push(i * 2, if i == 0 { FOOTER_MAGIC } else { 1 });
        }
        let bpl = BlockPostingList::from_posting_list(&postings).unwrap();
        assert_eq!(bpl.max_tf(), FOOTER_MAGIC);
        let bytes = serialize_bpl(&bpl);
        let footer = Footer::parse(&bytes).unwrap();
        let mut legacy = bytes[..footer.l1_end()].to_vec();
        for block in 0..bpl.num_blocks() {
            let at = footer.l0_start() + block * L0_SIZE + 12;
            legacy[at..at + 4]
                .copy_from_slice(&(bpl.block_max_tf(block).unwrap() as f32).to_le_bytes());
        }
        legacy.extend_from_slice(
            &bytes[bytes.len() - FOOTER_V2_SIZE..bytes.len() - (FOOTER_V2_SIZE - FOOTER_SIZE)],
        );
        assert_eq!(
            u32::from_le_bytes(legacy[legacy.len() - 4..].try_into().unwrap()),
            FOOTER_MAGIC
        );
        assert!(
            BlockPostingList::deserialize(&legacy).is_err(),
            "count={count}: ambiguous footer must not be read as either layout"
        );
        assert!(!BlockPostingList::has_cursors_bytes(&legacy));
        let mut out = vec![0xab];
        assert!(BlockPostingList::concatenate_streaming(&[(&legacy, 0)], &mut out).is_err());
        assert_eq!(out, [0xab]);
        // The same postings with the extended footer read back exactly.
        assert_eq!(
            BlockPostingList::deserialize(&bytes).unwrap().max_tf(),
            FOOTER_MAGIC
        );
    }
}

#[test]
fn mixed_cursor_and_cursorless_sources_fail_loudly_before_output() {
    let docs: Vec<(u32, u32)> = (0..300u32).map(|i| (i * 2, i % 3 + 1)).collect();
    let with = build_bpl_with_positions(&docs);
    let without = build_bpl(&docs);
    assert!(with.has_position_cursors() && !without.has_position_cursors());
    for sources in [
        [(with.clone(), 0), (without.clone(), 1000)],
        [(without.clone(), 0), (with.clone(), 1000)],
    ] {
        let error = BlockPostingList::concatenate_blocks(&sources).unwrap_err();
        assert!(
            error
                .message()
                .contains("with and without position cursors"),
            "{error:?}"
        );
        let bytes: Vec<Vec<u8>> = sources.iter().map(|(s, _)| serialize_bpl(s)).collect();
        let mut out = vec![0xab];
        let result = BlockPostingList::concatenate_streaming(
            &[(&bytes[0], 0), (&bytes[1], 1000)],
            &mut out,
        );
        match result {
            Err(MergeError::Merge(refused)) => {
                let message = refused.message();
                assert!(
                    message.contains("with and without position cursors"),
                    "{message}"
                )
            }
            other => panic!("expected a loud corruption error, got {other:?}"),
        }
        assert_eq!(out, [0xab], "nothing is written for a rejected source set");
    }
}



#[test]
fn strict_gap_validation_agrees_with_full_scan_at_width_and_wrap_boundaries() {
    for count in 1..=BLOCK_SIZE {
        for width in 0..=32 {
            let mask = if width == 0 {
                0
            } else {
                u32::MAX >> (32 - width)
            };
            for first in [0u32, 17, u32::MAX / 2, u32::MAX - 1] {
                for pattern in 0..3 {
                    let mut docs = vec![first];
                    for i in 1..count {
                        let encoded = match pattern {
                            0 => mask,
                            1 => 0,
                            _ => (i as u32).wrapping_mul(0x9e3779b9) & mask,
                        };
                        docs.push(docs.last().unwrap().wrapping_add(encoded).wrapping_add(1));
                    }
                    let end = *docs.last().unwrap();
                    for last in [end, end.wrapping_add(1), end.wrapping_sub(1)] {
                        assert_eq!(
                            verify_block_docs(&docs, first, last, None, Some(width)),
                            verify_block_docs(&docs, first, last, None, None),
                            "count={count}, width={width}, first={first}, pattern={pattern}, last={last}"
                        );
                    }
                }
            }
        }
    }
}

#[test]
fn byte_gap_validation_agrees_with_decoded_order_for_tails_and_unsigned_wraps() {
    for count in 1..=BLOCK_SIZE {
        for first in [0u32, 17, u32::MAX - 400, u32::MAX - 1] {
            for pattern in 0..5 {
                let gaps: Vec<u8> = (1..count)
                    .map(|i| match pattern {
                        0 => 1,
                        1 => 255,
                        2 => {
                            if i == count / 2 {
                                0
                            } else {
                                1
                            }
                        }
                        3 => (i * 71) as u8,
                        _ => ((i * 71) as u8).max(1),
                    })
                    .collect();
                let mut docs = vec![first];
                for &gap in &gaps {
                    docs.push(docs.last().unwrap().wrapping_add(u32::from(gap)));
                }
                let end = *docs.last().unwrap();
                for last in [end, end.wrapping_add(1), end.wrapping_sub(1)] {
                    assert_eq!(
                        verify_block_docs(&docs, first, last, Some(&gaps), None),
                        verify_block_docs(&docs, first, last, None, None),
                        "count={count}, first={first}, pattern={pattern}, last={last}"
                    );
                }
            }
        }
    }
}

#[test]
fn compact_headers_save_four_bytes_a_block_and_four_more_a_cursor() {
    for codec in [
        PostingCodec::Rounded,
        PostingCodec::Packed,
        PostingCodec::Pfor,
        PostingCodec::Simd4x,
    ] {
        for with_positions in [false, true] {
            let mut postings = PostingList::new();
            for doc in 0..300 {
                postings.push(doc * 5, doc % 4 + 1);
            }
            let list = BlockPostingList::from_posting_list_with_options(
                &postings,
                with_positions,
                None,
                codec,
            )
            .unwrap();
            assert_eq!(list.num_blocks(), 3);
            let mut full = Vec::new();
            list.serialize(&mut full).unwrap();
            let mut compact = Vec::new();
            list.serialize_compact(&mut compact).unwrap();
            if codec == PostingCodec::Pfor {
                assert_eq!(compact, full);
                continue;
            }
            assert_eq!(
                full.len() - compact.len(),
                3 * if with_positions { 8 } else { 4 }
            );
            let read = BlockPostingList::deserialize(&compact).unwrap();
            for block in 0..3 {
                assert_eq!(read.pos_cursor(block), list.pos_cursor(block));
            }
            assert_eq!(collect_postings(&read), collect_postings(&list));
            let mut again = Vec::new();
            read.serialize(&mut again).unwrap();
            assert_eq!(again, compact);
        }
    }
}
