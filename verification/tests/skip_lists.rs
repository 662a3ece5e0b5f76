//! Variable-length integers, skip lists and blocks of documents.
use postings::gaps::pack_deltas_fixed;
use postings::gaps::read_doc_id_block;
use postings::gaps::unpack_deltas_fixed;
use postings::gaps::write_doc_id_block;
use postings::gaps::RoundedBitWidth;
use postings::skip::SkipEntry;
use postings::skip::SkipList;
use postings::vint::read_vint;
use postings::vint::write_vint;

#[test]
fn test_vint_roundtrip() {
    let values = [
        0u64,
        1,
        127,
        128,
        255,
        256,
        16383,
        16384,
        u32::MAX as u64,
        u64::MAX,
    ];

    for &value in &values {
        let mut buf = Vec::new();
        write_vint(&mut buf, value);
        let (read_value, end) = read_vint(&buf, 0).unwrap();
        assert_eq!(end, buf.len());
        assert_eq!(value, read_value, "Failed for value {}", value);
    }
}

#[test]
fn test_skip_list_roundtrip() {
    let mut skip_list = SkipList::new();
    skip_list.push(0, 127, 0);
    skip_list.push(128, 255, 100);
    skip_list.push(256, 500, 200);

    let mut buf = Vec::new();
    skip_list.write(&mut buf);

    let (restored, read) = SkipList::read(&buf).unwrap();
    assert_eq!(read, buf.len());
    assert_eq!(skip_list.len(), restored.len());

    for (a, b) in skip_list.iter().iter().zip(restored.iter()) {
        assert_eq!(a, b);
    }
}

#[test]
fn test_skip_list_find_block() {
    let mut skip_list = SkipList::new();
    skip_list.push(0, 99, 0);
    skip_list.push(100, 199, 100);
    skip_list.push(200, 299, 200);

    assert_eq!(skip_list.find_block(0), Some(0));
    assert_eq!(skip_list.find_block(50), Some(0));
    assert_eq!(skip_list.find_block(99), Some(0));
    assert_eq!(skip_list.find_block(100), Some(1));
    assert_eq!(skip_list.find_block(150), Some(1));
    assert_eq!(skip_list.find_block(250), Some(2));
    assert_eq!(skip_list.find_block(300), None);
}

#[test]
fn test_doc_id_block_roundtrip() {
    let doc_ids: Vec<u32> = vec![0, 5, 10, 100, 1000, 10000];

    let mut buf = Vec::new();
    let last = write_doc_id_block(&mut buf, &doc_ids);
    assert_eq!(last, 10000);

    let (restored, read) = read_doc_id_block(&buf).unwrap();
    assert_eq!(read, buf.len());
    assert_eq!(doc_ids, restored);
}

#[test]
fn test_doc_id_block_single() {
    let doc_ids: Vec<u32> = vec![42];

    let mut buf = Vec::new();
    write_doc_id_block(&mut buf, &doc_ids);

    let (restored, read) = read_doc_id_block(&buf).unwrap();
    assert_eq!(read, buf.len());
    assert_eq!(doc_ids, restored);
}

#[test]
fn skip_lists_refuse_truncation_and_keep_tuples() {
    let list = SkipList::from_tuples(&[(0, 9, 0), (10, 19, 40)]);
    assert_eq!(list.to_tuples(), vec![(0, 9, 0), (10, 19, 40)]);
    assert_eq!(list.get(1), Some(&SkipEntry::new(10, 19, 40)));
    assert_eq!(list.get(2), None);
    let mut bytes = Vec::new();
    list.write(&mut bytes);
    assert_eq!(bytes.len(), 28);
    assert_eq!(SkipEntry::read(&bytes, 16), Some(SkipEntry::new(10, 19, 40)));
    assert_eq!(SkipEntry::read(&bytes, 17), None);
    for end in 0..bytes.len() {
        assert!(SkipList::read(&bytes[..end]).is_none());
    }
    assert!(SkipList::default().is_empty());
    assert_eq!(SkipList::new().find_block(0), None);
}

#[test]
fn truncated_or_overflowing_integers_and_documents_are_refused() {
    assert_eq!(read_vint(&[0x80], 0), None);
    let mut long = vec![0x80u8; 9];
    long.push(2);
    assert_eq!(read_vint(&long, 0), None);
    assert_eq!(read_vint(&[0xAC, 0x02, 7], 0), Some((300, 2)));
    let mut bytes = Vec::new();
    write_vint(&mut bytes, 2);
    write_vint(&mut bytes, u32::MAX as u64);
    write_vint(&mut bytes, 1);
    assert!(read_doc_id_block(&bytes).is_none());
    let mut none = Vec::new();
    assert_eq!(write_doc_id_block(&mut none, &[]), 0);
    assert!(none.is_empty());
}

#[test]
fn fixed_width_gaps_round_up_to_whole_bytes() {
    for (gap, width, size) in [
        (1, RoundedBitWidth::Zero, 0),
        (256, RoundedBitWidth::Bits8, 1),
        (257, RoundedBitWidth::Bits16, 2),
        (65_537, RoundedBitWidth::Bits32, 4),
    ] {
        let docs: Vec<u32> = (0..20).map(|i| 5 + i * gap).collect();
        let (w, packed) = pack_deltas_fixed(&docs);
        assert_eq!(w, width);
        assert_eq!(packed.len(), 19 * size);
        assert_eq!(w.bytes_per_value(), size);
        let mut out = vec![9u32; 22];
        unpack_deltas_fixed(&packed, w, 5, 20, &mut out);
        assert_eq!(&out[..20], docs.as_slice());
        assert_eq!(&out[20..], &[9, 9]);
    }
    assert_eq!(RoundedBitWidth::from_u8(16), Some(RoundedBitWidth::Bits16));
    assert_eq!(RoundedBitWidth::from_u8(9), None);
}
