//! Which format a list gets, and lists of several formats behind one face.
use postings::codec::PostingCodec;
use postings::error::ReadError;
use postings::format::CompressedPostingList;
use postings::format::CompressionStats;
use postings::format::IndexOptimization;
use postings::format::PostingFormat;

/// A score that grows with the frequency, as bits.
fn score(idf: f32) -> impl Fn(u32) -> u32 {
    move |tf| (idf * tf as f32 * 2.2 / (tf as f32 + 1.2)).to_bits()
}

#[test]
fn test_format_selection() {
    // Small list -> HorizontalBP128 (fastest encoding + decoding with SIMD)
    assert_eq!(
        PostingFormat::select(100, 1_000_000),
        PostingFormat::HorizontalBP128
    );

    // Medium list -> HorizontalBP128
    assert_eq!(
        PostingFormat::select(500, 1_000_000),
        PostingFormat::HorizontalBP128
    );

    assert_eq!(
        PostingFormat::select(5_000, 1_000_000),
        PostingFormat::HorizontalBP128
    );

    assert_eq!(
        PostingFormat::select(15_000, 10_000_000),
        PostingFormat::HorizontalBP128
    );

    // Large list (>=20K) -> Partitioned EF
    assert_eq!(
        PostingFormat::select(25_000, 10_000_000),
        PostingFormat::PartitionedEF
    );

    // Very frequent term (>1% of corpus AND >=20K docs) -> Roaring
    assert_eq!(
        PostingFormat::select(50_000, 1_000_000),
        PostingFormat::Roaring
    );
}

#[test]
fn every_mode_prefers_its_own_format() {
    let choose = PostingFormat::select_with_optimization;
    let size = IndexOptimization::SizeOptimized;
    assert_eq!(choose(25_000, 10_000_000, size), PostingFormat::PartitionedEF);
    assert_eq!(choose(20_000, 0, size), PostingFormat::PartitionedEF);
    assert_eq!(choose(19_999, 0, size), PostingFormat::OptP4D);
    assert_eq!(choose(127, 0, size), PostingFormat::HorizontalBP128);
    let fast = IndexOptimization::PerformanceOptimized;
    assert_eq!(choose(50_000, 1_000_000, fast), PostingFormat::Roaring);
    assert_eq!(choose(63, 1_000_000, fast), PostingFormat::HorizontalBP128);
    assert_eq!(PostingFormat::select(20_000, 0), PostingFormat::Roaring);
}

#[test]
fn names_are_read_in_any_case() {
    assert_eq!(
        IndexOptimization::parse("SIZE"),
        Some(IndexOptimization::SizeOptimized)
    );
    assert_eq!(IndexOptimization::parse("nonsense"), None);
    assert_eq!(PostingCodec::parse("PFOR"), Some(PostingCodec::Pfor));
    assert_eq!(PostingCodec::parse("PacKed"), Some(PostingCodec::Packed));
    assert_eq!(PostingCodec::parse("pac\u{212A}ed"), None);
    assert_eq!(PostingCodec::parse("other"), None);
    for codec in [
        PostingCodec::Rounded,
        PostingCodec::Packed,
        PostingCodec::Pfor,
        PostingCodec::Simd4x,
    ] {
        assert_eq!(PostingCodec::parse(codec.name()), Some(codec));
    }
}

#[test]
fn lists_of_both_formats_store_read_and_seek() {
    let doc_ids: Vec<u32> = (0..500).map(|i| i * 3).collect();
    let term_freqs: Vec<u32> = (0..500).map(|i| (i % 5) + 1).collect();
    for format in [PostingFormat::VerticalBP128, PostingFormat::Roaring] {
        let list = CompressedPostingList::from_postings_with_format(
            &doc_ids,
            &term_freqs,
            format,
            score(1.0),
        )
        .unwrap();
        assert_eq!(list.format(), format);
        assert_eq!(list.doc_count(), 500);
        assert_eq!(list.max_tf(), 5);
        let mut buffer = Vec::new();
        list.serialize(&mut buffer);
        let (restored, read) = CompressedPostingList::deserialize(&buffer).unwrap();
        assert_eq!(read, buffer.len());
        assert_eq!(restored.format(), format);
        let mut iter = restored.iterator();
        for (i, &doc) in doc_ids.iter().enumerate() {
            assert_eq!(iter.doc(), doc);
            assert_eq!(iter.term_freq(), term_freqs[i]);
            iter.advance();
        }
        assert!(iter.is_exhausted());
        let mut iter = restored.iterator();
        assert_eq!(iter.seek(100), 102);
        assert_eq!(iter.seek(500), 501);
        assert_eq!(iter.seek(3000), u32::MAX);
        buffer[0] = 200;
        assert!(matches!(
            CompressedPostingList::deserialize(&buffer),
            Err(ReadError::UnknownFormat(200))
        ));
    }
    assert!(CompressedPostingList::from_postings_with_format(
        &doc_ids,
        &term_freqs,
        PostingFormat::OptP4D,
        score(1.0)
    )
    .is_none());
    assert!(
        CompressedPostingList::from_postings(&doc_ids, &term_freqs, 1_000_000, score(1.0)).is_none()
    );
    let many: Vec<u32> = (0..25_000).collect();
    let ones = vec![1u32; 25_000];
    let frequent = CompressedPostingList::from_postings(&many, &ones, 1_000_000, score(1.0)).unwrap();
    assert_eq!(frequent.format(), PostingFormat::Roaring);
    assert_eq!(frequent.doc_count(), 25_000);
}

#[test]
fn statistics_count_terms_and_postings() {
    let mut stats = CompressionStats::default();
    stats.record(PostingFormat::Roaring, 70);
    stats.record(PostingFormat::VerticalBP128, 5);
    stats.record_inline(3);
    assert_eq!(stats.total_terms(), 3);
    assert_eq!(stats.total_postings(), 78);
}
