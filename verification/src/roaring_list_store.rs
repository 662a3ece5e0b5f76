//! Stored posting lists with sets of documents.
use crate::bytes;
use crate::container_store;
use crate::error::ReadError;
use crate::roaring::RoaringBitmap;
use crate::roaring_list::RoaringBlockInfo;
use crate::roaring_list::RoaringPostingList;
use crate::roaring_store;
use vstd::prelude::*;

verus! {

/// Bytes of a stored entry.
pub const BLOCK_INFO_SIZE: usize = 22;

impl RoaringBlockInfo {
    /// The stored entry.
    pub open spec fn stored(self) -> Seq<u8> {
        bytes::le16(self.container_key) + bytes::le32(self.first_doc_id) + bytes::le32(
            self.last_doc_id,
        ) + bytes::le32(self.max_tf) + bytes::le32(self.max_block_score) + bytes::le32(
            self.num_docs,
        )
    }

    /// The entry stored at byte `at`.
    pub open spec fn stored_at(b: Seq<u8>, at: int) -> RoaringBlockInfo {
        RoaringBlockInfo {
            container_key: bytes::u16_at(b, at),
            first_doc_id: bytes::u32_at(b, at + 2),
            last_doc_id: bytes::u32_at(b, at + 6),
            max_tf: bytes::u32_at(b, at + 10),
            max_block_score: bytes::u32_at(b, at + 14),
            num_docs: bytes::u32_at(b, at + 18),
        }
    }

    /// Append the stored entry.
    pub fn serialize(&self, out: &mut Vec<u8>)
        ensures
            final(out)@ == old(out)@ + self.stored(),
    {
        let ghost start = out@;
        bytes::put_u16(out, self.container_key);
        bytes::put_u32(out, self.first_doc_id);
        bytes::put_u32(out, self.last_doc_id);
        bytes::put_u32(out, self.max_tf);
        bytes::put_u32(out, self.max_block_score);
        bytes::put_u32(out, self.num_docs);
        proof {
            assert(out@ =~= start + self.stored());
        }
    }

    /// Read the entry at byte `at`, if it is all there.
    pub fn deserialize(b: &[u8], at: usize) -> (r: Option<RoaringBlockInfo>)
        ensures
            r == (if at + 22 <= b.len() {
                Some(RoaringBlockInfo::stored_at(b@, at as int))
            } else {
                None
            }),
    {
        if at > b.len() || b.len() - at < BLOCK_INFO_SIZE {
            return None;
        }
        Some(
            RoaringBlockInfo {
                container_key: bytes::get_u16(b, at),
                first_doc_id: bytes::get_u32(b, at + 2),
                last_doc_id: bytes::get_u32(b, at + 6),
                max_tf: bytes::get_u32(b, at + 10),
                max_block_score: bytes::get_u32(b, at + 14),
                num_docs: bytes::get_u32(b, at + 18),
            },
        )
    }
}

/// Pairs as parts of eight bytes.
pub open spec fn pair_parts(s: Seq<(u32, u32)>) -> Seq<Seq<u8>> {
    Seq::new(s.len(), |i: int| bytes::le32(s[i].0) + bytes::le32(s[i].1))
}

/// Entries as parts.
pub open spec fn info_parts(s: Seq<RoaringBlockInfo>) -> Seq<Seq<u8>> {
    Seq::new(s.len(), |i: int| s[i].stored())
}

/// Where the parts of a stored list lie: the end of the set, of the pairs and
/// of the entries.
pub open spec fn list_ends(b: Seq<u8>) -> Result<(int, int, int), ReadError> {
    match roaring_store::bitmap_end(b, 0) {
        Err(error) => Err(error),
        Ok(p) => {
            let pairs = bytes::u32_at(b, p + 12) as int;
            let q = p + 16 + 8 * pairs;
            let infos = bytes::u32_at(b, q) as int;
            let end = q + 4 + 22 * infos;
            if p + 16 > b.len() || q + 4 > b.len() || end > b.len() {
                Err(ReadError::Truncated)
            } else {
                Ok((p, q, end))
            }
        },
    }
}

impl RoaringPostingList {
    pub open spec fn storable(&self) -> bool {
        &&& self.doc_ids.storable()
        &&& self.term_freqs@.len() <= u32::MAX
        &&& self.blocks@.len() <= u32::MAX
    }

    /// The words between the set and the pairs.
    pub open spec fn middle(&self) -> Seq<u8> {
        bytes::le32(self.default_tf) + bytes::le32(self.max_tf) + bytes::le32(self.max_score)
            + bytes::le32(self.term_freqs@.len() as u32)
    }

    /// The stored list.
    pub open spec fn stored(&self) -> Seq<u8> {
        self.doc_ids.stored() + self.middle() + bytes::joined(pair_parts(self.term_freqs@))
            + bytes::le32(self.blocks@.len() as u32) + bytes::joined(info_parts(self.blocks@))
    }

    /// Whether this is the list stored at the start of `b`.
    pub open spec fn is_at_start(&self, b: Seq<u8>) -> bool {
        let (p, q, end) = list_ends(b)->Ok_0;
        &&& self.doc_ids.is_at(b, 0)
        &&& self.default_tf == bytes::u32_at(b, p)
        &&& self.max_tf == bytes::u32_at(b, p + 4)
        &&& self.max_score == bytes::u32_at(b, p + 8)
        &&& self.term_freqs@.len() == bytes::u32_at(b, p + 12)
        &&& forall|i: int|
            0 <= i < self.term_freqs@.len() ==> #[trigger] self.term_freqs@[i] == (
                bytes::u32_at(b, p + 16 + 8 * i),
                bytes::u32_at(b, p + 20 + 8 * i),
            )
        &&& self.blocks@.len() == bytes::u32_at(b, q)
        &&& forall|i: int|
            0 <= i < self.blocks@.len() ==> #[trigger] self.blocks@[i]
                == RoaringBlockInfo::stored_at(b, q + 4 + 22 * i)
    }

    /// Append the stored list.
    pub fn serialize(&self, out: &mut Vec<u8>)
        requires
            self.storable(),
        ensures
            final(out)@ == old(out)@ + self.stored(),
    {
        let ghost start = out@;
        self.doc_ids.serialize(out);
        bytes::put_u32(out, self.default_tf);
        bytes::put_u32(out, self.max_tf);
        bytes::put_u32(out, self.max_score);
        bytes::put_u32(out, self.term_freqs.len() as u32);
        proof {
            assert(out@ =~= start + (self.doc_ids.stored() + self.middle()));
        }
        put_pairs(self.term_freqs.as_slice(), out);
        bytes::put_u32(out, self.blocks.len() as u32);
        put_infos(self.blocks.as_slice(), out);
        proof {
            assert(out@ =~= start + self.stored());
        }
    }

    /// Read a stored list from the start of `b`. Gives it and its size. What
    /// was read need not make sense: see `is_valid`.
    pub fn deserialize(b: &[u8]) -> (r: Result<(RoaringPostingList, usize), ReadError>)
        ensures
            match (r, list_ends(b@)) {
                (Ok((l, n)), Ok((_p, _q, end))) => n == end && l.is_at_start(b@),
                (Err(error), Err(refused)) => error == refused,
                _ => false,
            },
    {
        let (doc_ids, p): (RoaringBitmap, usize) = match RoaringBitmap::deserialize(b, 0) {
            Ok(pair) => pair,
            Err(error) => {
                return Err(error);
            },
        };
        if b.len() - p < 16 {
            return Err(ReadError::Truncated);
        }
        let pairs: u32 = bytes::get_u32(b, p + 12);
        let room: usize = (b.len() - p - 16) / 8;
        if pairs as u64 > room as u64 {
            return Err(ReadError::Truncated);
        }
        let term_freqs = get_pairs(b, p + 16, pairs);
        let q: usize = p + 16 + 8 * pairs as usize;
        if b.len() - q < 4 {
            return Err(ReadError::Truncated);
        }
        let infos: u32 = bytes::get_u32(b, q);
        let room: usize = (b.len() - q - 4) / 22;
        if infos as u64 > room as u64 {
            return Err(ReadError::Truncated);
        }
        let blocks = get_infos(b, q + 4, infos);
        let l = RoaringPostingList {
            doc_ids,
            term_freqs,
            default_tf: bytes::get_u32(b, p),
            max_tf: bytes::get_u32(b, p + 4),
            blocks,
            max_score: bytes::get_u32(b, p + 8),
        };
        Ok((l, q + 4 + 22 * infos as usize))
    }
}

fn put_pairs(s: &[(u32, u32)], out: &mut Vec<u8>)
    ensures
        final(out)@ == old(out)@ + bytes::joined(pair_parts(s@)),
{
    let ghost start = out@;
    let ghost parts = pair_parts(s@);
    let mut i: usize = 0;
    proof {
        assert(start + bytes::joined(parts.take(0)) =~= start);
    }
    while i < s.len()
        invariant
            i <= s@.len(),
            parts == pair_parts(s@),
            out@ == start + bytes::joined(parts.take(i as int)),
        decreases s@.len() - i,
    {
        let (a, b): (u32, u32) = s[i];
        bytes::put_u32(out, a);
        bytes::put_u32(out, b);
        proof {
            assert(parts.take(i + 1).drop_last() =~= parts.take(i as int));
            assert(out@ =~= start + bytes::joined(parts.take(i + 1)));
        }
        i = i + 1;
    }
    proof {
        assert(parts.take(parts.len() as int) =~= parts);
    }
}

fn put_infos(s: &[RoaringBlockInfo], out: &mut Vec<u8>)
    ensures
        final(out)@ == old(out)@ + bytes::joined(info_parts(s@)),
{
    let ghost start = out@;
    let ghost parts = info_parts(s@);
    let mut i: usize = 0;
    proof {
        assert(start + bytes::joined(parts.take(0)) =~= start);
    }
    while i < s.len()
        invariant
            i <= s@.len(),
            parts == info_parts(s@),
            out@ == start + bytes::joined(parts.take(i as int)),
        decreases s@.len() - i,
    {
        s[i].serialize(out);
        proof {
            assert(parts.take(i + 1).drop_last() =~= parts.take(i as int));
            assert(out@ =~= start + bytes::joined(parts.take(i + 1)));
        }
        i = i + 1;
    }
    proof {
        assert(parts.take(parts.len() as int) =~= parts);
    }
}

fn get_pairs(b: &[u8], at: usize, n: u32) -> (r: Vec<(u32, u32)>)
    requires
        at + 8 * n <= b.len(),
    ensures
        r@.len() == n,
        forall|i: int|
            0 <= i < n ==> #[trigger] r@[i] == (
                bytes::u32_at(b@, at + 8 * i),
                bytes::u32_at(b@, at + 4 + 8 * i),
            ),
{
    let mut r: Vec<(u32, u32)> = Vec::new();
    let mut p: usize = at;
    let mut i: u32 = 0;
    while i < n
        invariant
            i <= n,
            at + 8 * n <= b.len(),
            p == at + 8 * i,
            r@.len() == i,
            forall|k: int|
                0 <= k < i ==> #[trigger] r@[k] == (
                    bytes::u32_at(b@, at + 8 * k),
                    bytes::u32_at(b@, at + 4 + 8 * k),
                ),
        decreases n - i,
    {
        r.push((bytes::get_u32(b, p), bytes::get_u32(b, p + 4)));
        p = p + 8;
        i = i + 1;
    }
    r
}

fn get_infos(b: &[u8], at: usize, n: u32) -> (r: Vec<RoaringBlockInfo>)
    requires
        at + 22 * n <= b.len(),
    ensures
        r@.len() == n,
        forall|i: int|
            0 <= i < n ==> #[trigger] r@[i] == RoaringBlockInfo::stored_at(b@, at + 22 * i),
{
    let mut r: Vec<RoaringBlockInfo> = Vec::new();
    let mut p: usize = at;
    let mut i: u32 = 0;
    while i < n
        invariant
            i <= n,
            at + 22 * n <= b.len(),
            p == at + 22 * i,
            r@.len() == i,
            forall|k: int|
                0 <= k < i ==> #[trigger] r@[k] == RoaringBlockInfo::stored_at(b@, at + 22 * k),
        decreases n - i,
    {
        r.push(
            RoaringBlockInfo {
                container_key: bytes::get_u16(b, p),
                first_doc_id: bytes::get_u32(b, p + 2),
                last_doc_id: bytes::get_u32(b, p + 6),
                max_tf: bytes::get_u32(b, p + 10),
                max_block_score: bytes::get_u32(b, p + 14),
                num_docs: bytes::get_u32(b, p + 18),
            },
        );
        p = p + 22;
        i = i + 1;
    }
    r
}

proof fn word_reads(b: Seq<u8>, at: int, x: u32)
    requires
        0 <= at,
        at + 4 <= b.len(),
        b.subrange(at, at + 4) == bytes::le32(x),
    ensures
        bytes::u32_at(b, at) == x,
{
    broadcast use bytes::group_word_sizes;

    bytes::le32_roundtrip(x);
    bytes::section_u32(b, at, bytes::le32(x), 0);
}

/// An entry is read where it was written.
proof fn info_reads(e: RoaringBlockInfo, b: Seq<u8>, at: int)
    requires
        0 <= at,
        at + 22 <= b.len(),
        b.subrange(at, at + 22) == e.stored(),
    ensures
        RoaringBlockInfo::stored_at(b, at) == e,
{
    broadcast use bytes::group_word_sizes;

    let s = e.stored();
    assert(s.subrange(0, 2) =~= bytes::le16(e.container_key));
    assert(s.subrange(2, 6) =~= bytes::le32(e.first_doc_id));
    assert(s.subrange(6, 10) =~= bytes::le32(e.last_doc_id));
    assert(s.subrange(10, 14) =~= bytes::le32(e.max_tf));
    assert(s.subrange(14, 18) =~= bytes::le32(e.max_block_score));
    assert(s.subrange(18, 22) =~= bytes::le32(e.num_docs));
    assert(b.subrange(at, at + 2) =~= s.subrange(0, 2));
    assert(b.subrange(at + 2, at + 6) =~= s.subrange(2, 6));
    assert(b.subrange(at + 6, at + 10) =~= s.subrange(6, 10));
    assert(b.subrange(at + 10, at + 14) =~= s.subrange(10, 14));
    assert(b.subrange(at + 14, at + 18) =~= s.subrange(14, 18));
    assert(b.subrange(at + 18, at + 22) =~= s.subrange(18, 22));
    container_store::half_reads(b, at, e.container_key);
    word_reads(b, at + 2, e.first_doc_id);
    word_reads(b, at + 6, e.last_doc_id);
    word_reads(b, at + 10, e.max_tf);
    word_reads(b, at + 14, e.max_block_score);
    word_reads(b, at + 18, e.num_docs);
}

/// A stored list, whatever follows it, is read back as it was.
pub proof fn roaring_list_roundtrip(l: RoaringPostingList, after: Seq<u8>)
    requires
        l.storable(),
    ensures
        ({
            let b = l.stored() + after;
            &&& list_ends(b) is Ok
            &&& list_ends(b)->Ok_0.2 == l.stored().len()
            &&& l.is_at_start(b)
        }),
{
    broadcast use bytes::group_word_sizes;

    let b = l.stored() + after;
    let set = l.doc_ids.stored();
    let all_pairs = bytes::joined(pair_parts(l.term_freqs@));
    let all_infos = bytes::joined(info_parts(l.blocks@));
    let n = l.term_freqs@.len() as int;
    let m = l.blocks@.len() as int;
    part_sizes(l.term_freqs@, l.blocks@);
    let p = set.len() as int;
    let q = p + 16 + 8 * n;
    assert(b.subrange(0, p) =~= set);
    roaring_store::bitmap_roundtrip(l.doc_ids, b, 0);
    assert(b.subrange(p, p + 4) =~= bytes::le32(l.default_tf));
    assert(b.subrange(p + 4, p + 8) =~= bytes::le32(l.max_tf));
    assert(b.subrange(p + 8, p + 12) =~= bytes::le32(l.max_score));
    assert(b.subrange(p + 12, p + 16) =~= bytes::le32(n as u32));
    word_reads(b, p, l.default_tf);
    word_reads(b, p + 4, l.max_tf);
    word_reads(b, p + 8, l.max_score);
    word_reads(b, p + 12, n as u32);
    assert(b.subrange(p + 16, q) =~= all_pairs);
    assert(b.subrange(q, q + 4) =~= bytes::le32(m as u32));
    word_reads(b, q, m as u32);
    assert(b.subrange(q + 4, q + 4 + 22 * m) =~= all_infos);
    assert forall|i: int| 0 <= i < n implies #[trigger] l.term_freqs@[i] == (
        bytes::u32_at(b, p + 16 + 8 * i),
        bytes::u32_at(b, p + 20 + 8 * i),
    ) by {
        pair_reads(l.term_freqs@, b, p + 16, i);
    }
    assert forall|i: int| 0 <= i < m implies #[trigger] l.blocks@[i]
        == RoaringBlockInfo::stored_at(b, q + 4 + 22 * i) by {
        entry_reads(l.blocks@, b, q + 4, i);
    }
    assert(l.stored().len() == q + 4 + 22 * m);
}

/// Size of the stored pairs and entries.
proof fn part_sizes(pairs: Seq<(u32, u32)>, infos: Seq<RoaringBlockInfo>)
    ensures
        bytes::joined(pair_parts(pairs)).len() == 8 * pairs.len(),
        bytes::joined(info_parts(infos)).len() == 22 * infos.len(),
{
    broadcast use bytes::group_word_sizes;

    let a = pair_parts(pairs);
    let b = info_parts(infos);
    assert forall|i: int| 0 <= i < a.len() implies (#[trigger] a[i]).len() == 8 by {}
    assert forall|i: int| 0 <= i < b.len() implies (#[trigger] b[i]).len() == 22 by {}
    bytes::joined_uniform(a, 8, a.len() as int);
    bytes::joined_uniform(b, 22, b.len() as int);
    bytes::joined_position(a, a.len() as int);
    bytes::joined_position(b, b.len() as int);
}

/// Pair `i` is read where it was written.
proof fn pair_reads(pairs: Seq<(u32, u32)>, b: Seq<u8>, at: int, i: int)
    requires
        0 <= at,
        0 <= i < pairs.len(),
        at + 8 * pairs.len() <= b.len(),
        b.subrange(at, at + 8 * pairs.len()) == bytes::joined(pair_parts(pairs)),
    ensures
        bytes::u32_at(b, at + 8 * i) == pairs[i].0,
        bytes::u32_at(b, at + 4 + 8 * i) == pairs[i].1,
{
    broadcast use bytes::group_word_sizes;

    let parts = pair_parts(pairs);
    let all = bytes::joined(parts);
    assert forall|k: int| 0 <= k < parts.len() implies (#[trigger] parts[k]).len() == 8 by {}
    bytes::joined_position(parts, i);
    bytes::joined_uniform(parts, 8, i);
    bytes::joined_uniform(parts, 8, i + 1);
    let part = parts[i];
    assert(all.subrange(8 * i, 8 * i + 8) == part);
    assert(part.subrange(0, 4) =~= bytes::le32(pairs[i].0));
    assert(part.subrange(4, 8) =~= bytes::le32(pairs[i].1));
    let here = all.subrange(8 * i, 8 * i + 8);
    assert(b.subrange(at + 8 * i, at + 4 + 8 * i) =~= here.subrange(0, 4));
    assert(b.subrange(at + 4 + 8 * i, at + 8 + 8 * i) =~= here.subrange(4, 8));
    word_reads(b, at + 8 * i, pairs[i].0);
    word_reads(b, at + 4 + 8 * i, pairs[i].1);
}

/// Entry `i` is read where it was written.
proof fn entry_reads(infos: Seq<RoaringBlockInfo>, b: Seq<u8>, at: int, i: int)
    requires
        0 <= at,
        0 <= i < infos.len(),
        at + 22 * infos.len() <= b.len(),
        b.subrange(at, at + 22 * infos.len()) == bytes::joined(info_parts(infos)),
    ensures
        RoaringBlockInfo::stored_at(b, at + 22 * i) == infos[i],
{
    broadcast use bytes::group_word_sizes;

    let parts = info_parts(infos);
    let all = bytes::joined(parts);
    assert forall|k: int| 0 <= k < parts.len() implies (#[trigger] parts[k]).len() == 22 by {}
    bytes::joined_position(parts, i);
    bytes::joined_uniform(parts, 22, i);
    bytes::joined_uniform(parts, 22, i + 1);
    assert(all.subrange(22 * i, 22 * i + 22) == parts[i]);
    assert(b.subrange(at + 22 * i, at + 22 * i + 22) =~= all.subrange(22 * i, 22 * i + 22));
    info_reads(infos[i], b, at + 22 * i);
}

} // verus!
