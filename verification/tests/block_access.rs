//! Reading single blocks by the directory, and writing lists block by block.
use postings::block_source::plan;
use postings::block_source::tail_len;
use postings::block_source::PostingBlockSource;
use postings::codec::PostingCodec;
use postings::deferred::check_range;
use postings::deferred::DeferredPosting;
use postings::deferred::PostingIntegrity;
use postings::deferred::ReaderError;
use postings::error::PostingError;
use postings::footer::Footer;
use postings::footer::FOOTER_SIZE;
use postings::footer::FOOTER_V2_SIZE;
use postings::list::BlockPostingList;
use postings::posting::PostingList;
use postings::query_list::QueryPostingList;
use postings::stream_writer::PostingStreamWriter;
use std::io::ErrorKind;
use std::io::Write;
use std::sync::atomic::AtomicBool;
use std::sync::atomic::Ordering;

const MAX_LENGTH: u32 = 1 << 20;

const CODECS: [PostingCodec; 4] = [
    PostingCodec::Rounded,
    PostingCodec::Packed,
    PostingCodec::Pfor,
    PostingCodec::Simd4x,
];

fn lengths_of(list: &PostingList, length: impl Fn(u32) -> u32) -> Vec<u32> {
    list.postings.iter().map(|p| length(p.doc_id)).collect()
}

fn serialized(list: &BlockPostingList) -> Vec<u8> {
    let mut bytes = Vec::new();
    list.serialize(&mut bytes).unwrap();
    bytes
}

/// A file that counts its reads.
struct CountedFile {
    bytes: Vec<u8>,
    reads: usize,
}

impl CountedFile {
    fn read(&mut self, start: usize, end: usize) -> Vec<u8> {
        self.reads += 1;
        self.bytes[start..end].to_vec()
    }

    fn open(&mut self, budget: usize) -> Result<PostingBlockSource, PostingError> {
        self.open_with(budget, || Ok(()))
    }

    fn open_with(
        &mut self,
        budget: usize,
        check: impl Fn() -> Result<(), PostingError>,
    ) -> Result<PostingBlockSource, PostingError> {
        let len = self.bytes.len();
        let tail = self.read(len - tail_len(len), len);
        let plan = plan(&tail, len, budget)?;
        let (start, end) = (plan.start, plan.end);
        let index = self.read(start, end);
        PostingBlockSource::open_with(plan, index, check)
    }

    fn block(
        &mut self,
        source: &PostingBlockSource,
        i: usize,
    ) -> Result<BlockPostingList, PostingError> {
        let (start, end) = source.block_range(i)?;
        let stream = self.read(start, end);
        source.read_block(i, &stream)
    }
}

#[test]
fn rebased_posting_blocks_copy_payload_bytes_for_every_codec_and_read_only_requested_blocks() {
    for codec in CODECS {
        let mut list = PostingList::new();
        for doc in 0..4096 {
            list.push(doc * 11, doc % 19 + 1);
        }
        let original = BlockPostingList::from_posting_list_with_ratio_bounds(
            &list,
            true,
            Some(&lengths_of(&list, |_| 37)),
            codec,
            MAX_LENGTH,
        )
        .unwrap();
        let mut file = CountedFile {
            bytes: serialized(&original),
            reads: 0,
        };
        let source = file.open(4096).unwrap();
        assert_eq!(file.reads, 2, "opening must read only footer and directory");
        let block = file.block(&source, 7).unwrap();
        assert_eq!(file.reads, 3);
        let first = block.block_first_doc(0).unwrap() - 200;
        let mut bytes = Vec::new();
        let mut output = PostingStreamWriter::new(1, true, codec, 40).unwrap();
        output.append(&block, first).unwrap();
        output.finish(false, &mut bytes).unwrap();
        let copied = BlockPostingList::deserialize(&bytes).unwrap();
        assert_eq!(copied.blocks[0].payload, block.blocks[0].payload);
        let mut ids = Vec::new();
        let mut tfs = Vec::new();
        assert!(copied.decode_block_into(0, &mut ids, &mut tfs));
        assert_eq!(
            ids,
            (7 * 128..8 * 128)
                .map(|doc| doc * 11 - 200)
                .collect::<Vec<_>>()
        );
        assert_eq!(
            tfs,
            (7 * 128..8 * 128)
                .map(|doc| doc % 19 + 1)
                .collect::<Vec<_>>()
        );
        assert_eq!(copied.total_positions(), block.total_positions());
        assert_eq!(copied.block_length_ratio(0), block.block_length_ratio(0));
        assert!(copied.has_ratio_bounds());
    }
}

#[test]
fn partial_posting_reads_reject_truncated_payloads_and_cancelled_directory_scans() {
    let mut list = PostingList::new();
    for doc in 0..128 {
        list.push(doc * 3, 256);
    }
    let block = BlockPostingList::from_posting_list_with_options(
        &list,
        false,
        None,
        PostingCodec::Rounded,
    )
    .unwrap();
    let mut bytes = serialized(&block);
    let flag = AtomicBool::new(true);
    let mut file = CountedFile {
        bytes: bytes.clone(),
        reads: 0,
    };
    let refused = file.open_with(4096, || {
        if flag.load(Ordering::Acquire) {
            Err(PostingError::Cancelled)
        } else {
            Ok(())
        }
    });
    assert_eq!(refused.err(), Some(PostingError::Cancelled));
    bytes[7] = 32; // Declared TF payload is longer than the encoded block.
    let mut file = CountedFile { bytes, reads: 0 };
    let source = file.open(4096).unwrap();
    assert!(file.block(&source, 0).is_err());
    let mut corrupt = vec![0; FOOTER_SIZE];
    corrupt[..8].copy_from_slice(&u64::MAX.to_le_bytes());
    assert!(Footer::parse(&corrupt).is_err());
}

#[test]
fn ratio_directory_budget_is_checked_before_copying_any_payload() {
    let mut postings = PostingList::new();
    postings.push(1, 3);
    let block = BlockPostingList::from_posting_list_with_ratio_bounds(
        &postings,
        true,
        Some(&[10]),
        PostingCodec::Rounded,
        MAX_LENGTH,
    )
    .unwrap();
    let mut bytes = Vec::new();
    let mut output = PostingStreamWriter::new(1, true, PostingCodec::Rounded, 32).unwrap();
    assert!(output.append(&block, 1).is_err());
    assert!(bytes.is_empty());
    let mut output = PostingStreamWriter::new(1, true, PostingCodec::Rounded, 40).unwrap();
    output.enable_ratio_bounds().unwrap();
    output.push(1, 3, 10).unwrap();
    assert_eq!(
        output.finish(true, &mut bytes).unwrap_err(),
        PostingError::Cancelled
    );
    assert!(bytes.is_empty());
}

#[test]
fn impact_compaction_admits_metadata_before_io_and_copies_complete_records() {
    let mut postings = PostingList::new();
    for doc in 0..512 {
        postings.push(doc * 3, doc % 8 + 1);
    }
    let original = BlockPostingList::from_posting_list_with_impact_bounds(
        &postings,
        true,
        Some(&lengths_of(&postings, |doc| (doc / 3 % 8 + 1).pow(2))),
        PostingCodec::Rounded,
        MAX_LENGTH,
    )
    .unwrap();
    let mut file = CountedFile {
        bytes: serialized(&original),
        reads: 0,
    };
    assert!(file.open(16).is_err());
    assert_eq!(file.reads, 1, "budget failure must precede metadata IO");
    let source = file.open(16 * 1024).unwrap();
    assert!(source.has_impact_bounds());
    let block = file.block(&source, 1).unwrap();
    assert_eq!(
        block.impacts.as_ref().unwrap().record(0),
        original.impacts.as_ref().unwrap().record(1)
    );
    let mut output = Vec::new();
    let mut writer = PostingStreamWriter::new(1, true, PostingCodec::Rounded, 40).unwrap();
    assert!(writer.append(&block, 7).is_err());
    assert!(output.is_empty());
    let mut writer = PostingStreamWriter::new(4, true, PostingCodec::Rounded, 16 * 1024).unwrap();
    writer.enable_impact_bounds().unwrap();
    writer.append(&block, 7).unwrap();
    for doc in 1000..1008 {
        let tf = doc % 8 + 1;
        writer.push(doc, tf, tf * tf).unwrap();
    }
    let (count, size) = writer.finish(false, &mut output).unwrap();
    assert_eq!(count, 136);
    assert_eq!(size as usize, output.len());
    let rebuilt = BlockPostingList::deserialize(&output).unwrap();
    assert_eq!(rebuilt.num_blocks(), 2);
    assert_eq!(
        rebuilt.impacts.as_ref().unwrap().record(0),
        block.impacts.as_ref().unwrap().record(0)
    );
    assert_eq!(rebuilt.block_impact_point_count(1), Some(8));
    let least = rebuilt
        .block_impact_points(1)
        .unwrap()
        .iter()
        .map(|&(tf, len)| (1.0 + f64::from(len)) / f64::from(tf))
        .fold(f64::INFINITY, f64::min);
    assert_eq!(least, 2.0);
    assert_eq!(rebuilt.blocks[0].payload, block.blocks[0].payload);
}

#[test]
fn cancelled_or_failed_impact_output_never_emits_a_valid_footer() {
    let mut bytes = Vec::new();
    let mut writer = PostingStreamWriter::new(1, false, PostingCodec::Rounded, 16 * 1024).unwrap();
    writer.enable_impact_bounds().unwrap();
    writer.push(1, 3, 11).unwrap();
    assert_eq!(
        writer.finish(true, &mut bytes).unwrap_err(),
        PostingError::Cancelled
    );
    assert!(BlockPostingList::deserialize(&bytes).is_err());
    // A medium of fixed size takes the block bytes but not the metadata.
    let mut whole = Vec::new();
    let mut writer = PostingStreamWriter::new(1, false, PostingCodec::Rounded, 16 * 1024).unwrap();
    writer.enable_impact_bounds().unwrap();
    writer.push(1, 3, 11).unwrap();
    assert!(writer.finish(false, &mut whole).is_ok());
    let mut bytes = [0u8; 20];
    let mut remaining = bytes.as_mut_slice();
    assert_eq!(
        remaining.write_all(&whole).unwrap_err().kind(),
        ErrorKind::WriteZero
    );
    assert!(BlockPostingList::deserialize(&bytes).is_err());
}

#[test]
fn incomplete_compaction_metadata_reads_return_errors_without_panicking() {
    let mut postings = PostingList::new();
    for doc in 0..256 {
        postings.push(doc, 3);
    }
    let list = BlockPostingList::from_posting_list_with_impact_bounds(
        &postings,
        false,
        Some(&lengths_of(&postings, |_| 11)),
        PostingCodec::Rounded,
        MAX_LENGTH,
    )
    .unwrap();
    let bytes = serialized(&list);
    let tail = &bytes[bytes.len() - FOOTER_V2_SIZE..];
    for returned in [0, 1] {
        let plan = plan(tail, bytes.len(), 16 * 1024).unwrap();
        let index = bytes[plan.start..plan.start + returned].to_vec();
        assert!(PostingBlockSource::open(plan, index).is_err());
    }
}

fn fixture(codec: PostingCodec) -> Vec<u8> {
    let mut postings = PostingList::new();
    for doc in 0..1291 {
        postings.push(doc * 7, doc % 13 + 1);
    }
    let list = BlockPostingList::from_posting_list_with_ratio_bounds(
        &postings,
        true,
        Some(&lengths_of(&postings, |doc| doc % 100 + 1)),
        codec,
        MAX_LENGTH,
    )
    .unwrap();
    serialized(&list)
}

fn read_deferred(file: &[u8], start: u64, end: u64) -> Result<DeferredPosting, ReaderError> {
    check_range(file.len() as u64, start, end)?;
    DeferredPosting::open(start, end, file[start as usize..end as usize].to_vec())
}

fn read(file: &[u8], start: u64, end: u64) -> Result<QueryPostingList, ReaderError> {
    Ok(read_deferred(file, start, end)?.into_list())
}

#[test]
fn expansion_decode_failures_remain_visible_to_all_segment_readers() {
    let mut bytes = fixture(PostingCodec::Rounded);
    bytes[..2].copy_from_slice(&129_u16.to_le_bytes());
    let mut integrity = PostingIntegrity::default();
    let list = read(&bytes, 0, bytes.len() as u64).unwrap();
    assert!(list
        .decode_block_doc_ids_only(0, &mut Vec::new(), &mut integrity)
        .is_none());
    assert!(integrity.check_integrity().is_err());
    integrity.record(99);
    assert_eq!(integrity.first_error, Some(0));
}

#[test]
fn deferred_views_preserve_bytes_and_outlive_their_reader_for_every_codec() {
    for codec in CODECS {
        let bytes = fixture(codec);
        let deferred = read_deferred(&bytes, 0, bytes.len() as u64).unwrap();
        assert_eq!(deferred.doc_count(), 1291);
        assert_eq!(deferred.first_doc(), Some(0));
        let list = deferred.into_list();
        assert_eq!(list.as_bytes(), bytes);
        let strict = BlockPostingList::deserialize(&bytes).unwrap();
        let mut integrity = PostingIntegrity::default();
        for block in 0..strict.num_blocks() {
            let (mut expected, mut actual) = (Vec::new(), Vec::new());
            let state = strict.decode_block_doc_ids_only(block, &mut expected);
            assert!(state.is_some());
            assert_eq!(
                list.decode_block_doc_ids_only(block, &mut actual, &mut integrity),
                state
            );
            assert_eq!(actual, expected);
        }
        integrity.check_integrity().unwrap();
        assert_eq!(serialized(&list.checked().unwrap()), bytes);
    }
}

#[test]
fn deferred_open_rejects_bad_envelopes_and_retains_the_segment_error_observer() {
    let mut bytes = fixture(PostingCodec::Rounded);
    bytes[..2].copy_from_slice(&129_u16.to_le_bytes());
    let len = bytes.len() as u64;
    let deferred = read_deferred(&bytes, 0, len).unwrap();
    let mut integrity = PostingIntegrity::default();
    assert!(integrity.check_integrity().is_ok());
    assert!(deferred
        .into_list()
        .decode_block_doc_ids_only(0, &mut Vec::new(), &mut integrity)
        .is_none());
    assert_eq!(
        integrity.check_integrity().unwrap_err(),
        ReaderError::Corrupt(0)
    );
    assert_eq!(
        read_deferred(&bytes, 0, len + 1).unwrap_err(),
        ReaderError::Range
    );
    assert!(matches!(
        read_deferred(&bytes, 0, len - 1).unwrap_err(),
        ReaderError::Footer(_)
    ));
    assert_eq!(
        DeferredPosting::open(0, len, bytes[1..].to_vec()).unwrap_err(),
        ReaderError::ShortRead
    );
}

#[test]
fn trusted_query_views_preserve_bytes_and_decoded_blocks_for_every_codec() {
    for codec in CODECS {
        let bytes = fixture(codec);
        let strict = BlockPostingList::deserialize(&bytes).unwrap();
        let list = read(&bytes, 0, bytes.len() as u64).unwrap();
        assert!(!list.verify_content);
        assert_eq!(list.as_bytes(), bytes);
        let mut integrity = PostingIntegrity::default();
        let (mut expected_docs, mut expected_tfs, mut docs, mut tfs) =
            (Vec::new(), Vec::new(), Vec::new(), Vec::new());
        assert_eq!(list.num_blocks(), strict.num_blocks());
        for block in 0..strict.num_blocks() {
            assert!(strict.decode_block_into(block, &mut expected_docs, &mut expected_tfs));
            assert!(list.decode_block_into(block, &mut docs, &mut tfs, &mut integrity));
            assert_eq!((&docs, &tfs), (&expected_docs, &expected_tfs));
            assert_eq!(list.block_first_doc(block), strict.block_first_doc(block));
            assert_eq!(list.block_last_doc(block), strict.block_last_doc(block));
        }
        assert!(!list.decode_block_into(strict.num_blocks(), &mut docs, &mut tfs, &mut integrity));
        integrity.check_integrity().unwrap();
        assert_eq!(serialized(&list.checked().unwrap()), bytes);
    }
}

#[test]
fn query_open_does_not_scan_block_headers_but_explicit_deserialization_does() {
    let mut bytes = fixture(PostingCodec::Rounded);
    bytes[6] = 0xe1; // Invalid codec width, outside the footer envelope.
    assert!(BlockPostingList::deserialize(&bytes).is_err());
    let len = bytes.len() as u64;
    let list = read(&bytes, 0, len).unwrap();
    let mut integrity = PostingIntegrity::default();
    assert!(list
        .decode_block_doc_ids_only(0, &mut Vec::new(), &mut integrity)
        .is_none());
    assert!(integrity.check_integrity().is_err());
    assert!(read(&bytes, 0, len + 1).is_err());
    // The other blocks stay usable.
    let (mut docs, mut tfs) = (Vec::new(), Vec::new());
    assert!(list.decode_block_into(1, &mut docs, &mut tfs, &mut integrity));
    assert_eq!((docs[0], tfs[0]), (128 * 7, 128 % 13 + 1));
    assert_eq!(integrity.first_error, Some(0));
}

#[test]
fn trusted_block_decode_bounds_output_before_entering_fixed_size_kernels() {
    for count in [0u16, 129, u16::MAX] {
        let mut bytes = fixture(PostingCodec::Simd4x);
        bytes[..2].copy_from_slice(&count.to_le_bytes());
        let list = read(&bytes, 0, bytes.len() as u64).unwrap();
        let mut integrity = PostingIntegrity::default();
        let mut docs = Vec::new();
        assert!(list
            .decode_block_doc_ids_only(0, &mut docs, &mut integrity)
            .is_none());
        assert_eq!(docs.capacity(), 0);
        assert!(integrity.check_integrity().is_err());
    }
}

#[test]
fn query_decode_trusts_document_order_while_explicit_deserialization_checks_it() {
    let mut bytes = fixture(PostingCodec::Rounded);
    assert_eq!(bytes[6], 8);
    bytes[8] = 0; // A duplicate ID is a writer invariant, not a query check.
    let strict = BlockPostingList::deserialize(&bytes).unwrap();
    assert!(strict
        .decode_block_doc_ids_only(0, &mut Vec::new())
        .is_none());
    let mut list = read(&bytes, 0, bytes.len() as u64).unwrap();
    let mut integrity = PostingIntegrity::default();
    let mut docs = Vec::new();
    assert!(list
        .decode_block_doc_ids_only(0, &mut docs, &mut integrity)
        .is_some());
    assert_eq!(docs[0], docs[1]);
    integrity.check_integrity().unwrap();
    list.verify_content = true;
    assert!(list
        .decode_block_doc_ids_only(0, &mut docs, &mut integrity)
        .is_none());
    assert!(docs.is_empty());
    assert_eq!(integrity.first_error, Some(0));
}

#[test]
fn trusted_cursors_walk_and_search_like_checked_ones() {
    for codec in CODECS {
        let bytes = fixture(codec);
        let list = read(&bytes, 0, bytes.len() as u64).unwrap();
        let strict = BlockPostingList::deserialize(&bytes).unwrap();
        let mut integrity = PostingIntegrity::default();
        let mut trusted = list.iterator(&mut integrity);
        let mut checked = strict.iterator();
        for target in [0, 1, 7, 889, 890, 896, 897, 5000, 9029, 9030] {
            assert_eq!(trusted.seek(target, &mut integrity), checked.seek(target));
            assert_eq!(trusted.term_freq(), Some(checked.term_freq()));
            if !checked.exhausted {
                assert_eq!(trusted.position_cursor(), Some(checked.position_cursor()));
            }
            assert_eq!(trusted.advance(&mut integrity), checked.advance());
            assert_eq!(trusted.doc(), checked.doc());
        }
        let mut trusted = list.iterator(&mut integrity);
        let mut checked = strict.iterator();
        for _ in 0..12 {
            assert_eq!(
                trusted.skip_to_next_block(&mut integrity),
                checked.skip_to_next_block()
            );
        }
        assert_eq!(trusted.position_cursor(), None);
        assert_eq!(list.pos_cursor(1), strict.pos_cursor(1));
        assert_eq!(list.seek_block(5000, 0), strict.seek_block(5000, 0));
        integrity.check_integrity().unwrap();
    }
}

#[test]
fn trusted_cursors_end_at_a_block_that_cannot_be_read() {
    let mut bytes = fixture(PostingCodec::Rounded);
    let strict = BlockPostingList::deserialize(&bytes).unwrap();
    let (start, _, _) = strict
        .decode_block_doc_ids_only(2, &mut Vec::new())
        .unwrap();
    bytes[start..start + 2].copy_from_slice(&129_u16.to_le_bytes());
    let list = read(&bytes, 0, bytes.len() as u64).unwrap();
    let mut integrity = PostingIntegrity::default();
    let mut cursor = list.iterator(&mut integrity);
    assert_eq!(cursor.seek(255 * 7, &mut integrity), 255 * 7);
    integrity.check_integrity().unwrap();
    assert_eq!(cursor.advance(&mut integrity), u32::MAX);
    assert_eq!(integrity.first_error, Some(2));
    let mut cursor = list.iterator(&mut integrity);
    assert_eq!(cursor.seek(500 * 7, &mut integrity), 500 * 7);
}

#[test]
fn loose_exceptions_are_patched_together_where_content_is_trusted() {
    // Two documents, a zero-width delta with two exceptions on one value.
    let mut postings = PostingList::new();
    postings.push(0, 1);
    postings.push(1, 1);
    let list =
        BlockPostingList::from_posting_list_with_codec(&postings, PostingCodec::Pfor).unwrap();
    let bytes = serialized(&list);
    let footer = Footer::parse(&bytes).unwrap();
    let payload = [2u8, 0, 0, 0, 0, 0, 0x80, 1, 2, 0, 1, 0, 0, 0, 0, 6, 0, 0, 0, 0, 3];
    let mut changed = payload.to_vec();
    changed.extend_from_slice(&bytes[footer.stream_len..]);
    let at = changed.len() - FOOTER_V2_SIZE;
    changed[at..at + 8].copy_from_slice(&(payload.len() as u64).to_le_bytes());
    assert!(BlockPostingList::deserialize(&changed).is_err());
    let view = read(&changed, 0, changed.len() as u64).unwrap();
    let mut integrity = PostingIntegrity::default();
    let (mut docs, mut tfs) = (Vec::new(), Vec::new());
    assert!(view.decode_block_into(0, &mut docs, &mut tfs, &mut integrity));
    assert_eq!((docs, tfs), (vec![0, 7], vec![1, 1]));
}

#[test]
fn an_empty_writer_stores_a_list_that_says_its_groups_are_bounded() {
    let mut bytes = vec![9];
    let writer = PostingStreamWriter::new(1, true, PostingCodec::Rounded, 64).unwrap();
    assert_eq!(writer.finish(false, &mut bytes).unwrap(), (0, 44));
    let stored = &bytes[1..];
    assert_eq!(stored.len(), FOOTER_V2_SIZE);
    let footer = Footer::parse_tail(stored, stored.len()).unwrap();
    assert!(footer.l1_bounds);
    assert!(footer.has_cursors);
    assert_eq!(footer.l0_count, 0);
    let read = BlockPostingList::deserialize(stored).unwrap();
    assert_eq!(read.num_blocks(), 0);
    assert_eq!(read.doc_count(), 0);
    // A list that was read is stored by what it holds: no group, no bounds.
    let again = serialized(&read);
    let footer = Footer::parse_tail(&again, again.len()).unwrap();
    assert!(!footer.l1_bounds);
    assert_eq!(again.len(), stored.len());
}

#[test]
fn a_posting_at_the_sentinel_is_refused_when_its_block_is_made() {
    let mut bytes = Vec::new();
    let mut writer = PostingStreamWriter::new(2, false, PostingCodec::Rounded, 64).unwrap();
    writer.push(5, 1, 1).unwrap();
    writer.push(u32::MAX, 1, 1).unwrap();
    assert_eq!(writer.doc_count(), 2);
    assert_eq!(
        writer.finish(false, &mut bytes).unwrap_err(),
        PostingError::AppendOrder
    );
    assert!(bytes.is_empty());
    let mut writer = PostingStreamWriter::new(0, false, PostingCodec::Rounded, 64).unwrap();
    writer.push(u32::MAX, 1, 1).unwrap();
    assert_eq!(
        writer.finish(false, &mut bytes).unwrap_err(),
        PostingError::AppendBlock
    );
    let mut writer = PostingStreamWriter::new(1, false, PostingCodec::Rounded, 64).unwrap();
    for doc in u32::MAX - 127..u32::MAX {
        writer.push(doc, 1, 1).unwrap();
    }
    assert_eq!(
        writer.push(u32::MAX, 1, 1).unwrap_err(),
        PostingError::AppendOrder
    );
}

#[test]
fn refusals_of_a_writer_and_a_source_say_what_they_lack() {
    assert_eq!(
        PostingStreamWriter::new(3, false, PostingCodec::Rounded, 95)
            .err()
            .unwrap(),
        PostingError::OutputBudget
    );
    let mut writer = PostingStreamWriter::new(1, true, PostingCodec::Rounded, 32).unwrap();
    assert_eq!(
        writer.enable_ratio_bounds().unwrap_err(),
        PostingError::RatioMemory
    );
    assert_eq!(
        writer.enable_impact_bounds().unwrap_err(),
        PostingError::ImpactMemory
    );
    let mut writer = PostingStreamWriter::new(1, true, PostingCodec::Pfor, 64).unwrap();
    assert_eq!(
        writer.enable_compact_headers().unwrap_err(),
        PostingError::CompactHeaders
    );
    assert_eq!(
        PostingError::RatioMemory.message(),
        "posting ratio directory exceeds compaction scratch budget"
    );
    assert_eq!(
        PostingError::CompactHeaders.message(),
        "select compact headers before appending fixed-width blocks"
    );
    let mut postings = PostingList::new();
    for doc in 0..300 {
        postings.push(doc * 2, 1);
    }
    let list = BlockPostingList::from_posting_list_with(&postings, true, None).unwrap();
    let bytes = serialized(&list);
    let tail = &bytes[bytes.len() - tail_len(bytes.len())..];
    assert_eq!(
        plan(&tail[1..], bytes.len(), 1 << 16).err().unwrap(),
        PostingError::FooterRead
    );
    assert_eq!(
        plan(tail, bytes.len(), 10).err().unwrap(),
        PostingError::SourceBudget
    );
    let wanted = plan(tail, bytes.len(), 1 << 16).unwrap();
    let index = bytes[wanted.start..wanted.end - 1].to_vec();
    assert_eq!(
        PostingBlockSource::open(wanted, index).err().unwrap(),
        PostingError::DirectoryRead
    );
    let wanted = plan(tail, bytes.len(), 1 << 16).unwrap();
    let mut index = bytes[wanted.start..wanted.end].to_vec();
    index[8] = 1;
    assert_eq!(
        PostingBlockSource::open(wanted, index).err().unwrap(),
        PostingError::SourceDirectory
    );
    let wanted = plan(tail, bytes.len(), 1 << 16).unwrap();
    let index = bytes[wanted.start..wanted.end].to_vec();
    let source = PostingBlockSource::open(wanted, index).unwrap();
    let (from, to) = source.block_range(1).unwrap();
    assert_eq!(
        source.read_block(1, &bytes[from..to - 1]).err().unwrap(),
        PostingError::BlockRead
    );
}
