//! Headers and directories that are refused.
use postings::block::validate_block;
use postings::codec::PostingCodec;
use postings::footer::Footer;
use postings::footer::L0_SIZE;
use postings::list::BlockPostingList;
use postings::posting::PostingList;

#[test]
fn malformed_headers_and_directories_are_rejected_before_iteration() {
    let mut postings = PostingList::new();
    for i in 0..257 {
        postings.push(i * 2, i % 11 + 1);
    }
    for codec in [
        PostingCodec::Rounded,
        PostingCodec::Packed,
        PostingCodec::Pfor,
        PostingCodec::Simd4x,
    ] {
        let list = BlockPostingList::from_posting_list_with_codec(&postings, codec).unwrap();
        let mut original = Vec::new();
        list.serialize(&mut original).unwrap();
        let footer = Footer::parse(&original).unwrap();
        for (at, value) in [
            (0, 0),                               // zero first block count
            (1, 1),                               // count exceeds block capacity
            (2, 1),                               // first document disagrees with directory
            (6, 0xe1),                            // unsupported codec width
            (7, 33),                              // illegal frequency width
            (footer.l0_start() + 8, 1),           // first offset must be zero
            (footer.l0_start() + L0_SIZE + 8, 0), // overlapping blocks
            (footer.l0_end(), 1),                 // inconsistent L1 last document
        ] {
            let mut corrupt = original.clone();
            corrupt[at] = value;
            assert!(
                BlockPostingList::deserialize(&corrupt).is_err(),
                "codec={codec:?}, byte={at}"
            );
        }
        let reopened = BlockPostingList::deserialize(&original).unwrap();
        let mut encoded = Vec::new();
        reopened.serialize(&mut encoded).unwrap();
        assert_eq!(encoded, original);
        assert_eq!(reopened.iterator().doc(), 0);
    }
}

#[test]
fn malformed_pfor_exception_positions_and_values_are_rejected() {
    // Two documents, one zero-width delta exception; two one-bit TFs.
    let valid = [2, 0, 0, 0, 0, 0, 0x80, 1, 1, 0, 1, 0, 0, 0, 0, 3];
    assert_eq!(validate_block(&valid, 0, 1).unwrap(), 2);
    for (at, value) in [(8, 2), (9, 1), (10, 0), (7, 33)] {
        let mut corrupt = valid;
        corrupt[at] = value;
        assert!(validate_block(&corrupt, 0, 1).is_err(), "byte={at}");
    }
    for end in 0..valid.len() {
        assert!(validate_block(&valid[..end], 0, 1).is_err());
    }
}
