//! Where the blocks of a sparse posting list are, and how much they weigh at
//! most. Weights are held as the bits of single-precision numbers.
use crate::bytes;
use crate::sparse_config::INFINITY;
use crate::sparse_config::SIGN;
use vstd::prelude::*;

verus! {

/// A block: its documents, where it starts, how long it is and its largest
/// weight.
#[derive(Debug, Clone, Copy, PartialEq, Eq, Structural)]
pub struct SparseSkipEntry {
    pub first_doc: u32,
    pub last_doc: u32,
    pub offset: u64,
    pub length: u32,
    pub max_weight: u32,
}

impl SparseSkipEntry {
    /// Bytes of a stored entry.
    pub const SIZE: usize = 24;

    pub fn new(first_doc: u32, last_doc: u32, offset: u64, length: u32, max_weight: u32) -> (r:
        Self)
        ensures
            r == (SparseSkipEntry { first_doc, last_doc, offset, length, max_weight }),
    {
        SparseSkipEntry { first_doc, last_doc, offset, length, max_weight }
    }

    /// The stored entry.
    pub open spec fn stored(self) -> Seq<u8> {
        bytes::le32(self.first_doc) + bytes::le32(self.last_doc) + bytes::le64(self.offset)
            + bytes::le32(self.length) + bytes::le32(self.max_weight)
    }

    /// The entry stored at byte `at`.
    pub open spec fn stored_at(b: Seq<u8>, at: int) -> SparseSkipEntry {
        SparseSkipEntry {
            first_doc: bytes::u32_at(b, at),
            last_doc: bytes::u32_at(b, at + 4),
            offset: bytes::u64_at(b, at + 8),
            length: bytes::u32_at(b, at + 16),
            max_weight: bytes::u32_at(b, at + 20),
        }
    }

    fn load(b: &[u8], at: usize) -> (r: Self)
        requires
            at + 24 <= b.len(),
        ensures
            r == SparseSkipEntry::stored_at(b@, at as int),
    {
        SparseSkipEntry {
            first_doc: bytes::get_u32(b, at),
            last_doc: bytes::get_u32(b, at + 4),
            offset: bytes::get_u64(b, at + 8),
            length: bytes::get_u32(b, at + 16),
            max_weight: bytes::get_u32(b, at + 20),
        }
    }

    /// The entry at the start of `b`.
    pub fn from_bytes(b: &[u8]) -> (r: Self)
        requires
            b.len() >= 24,
        ensures
            r == SparseSkipEntry::stored_at(b@, 0),
    {
        Self::load(b, 0)
    }

    /// Entry `idx` of stored ones.
    pub fn read_at(skip_bytes: &[u8], idx: usize) -> (r: Self)
        requires
            24 * idx + 24 <= skip_bytes.len(),
        ensures
            r == SparseSkipEntry::stored_at(skip_bytes@, 24 * idx),
    {
        Self::load(skip_bytes, 24 * idx)
    }

    /// Append the stored entry.
    pub fn write_to_vec(&self, out: &mut Vec<u8>)
        ensures
            final(out)@ == old(out)@ + self.stored(),
    {
        let ghost before = out@;
        bytes::put_u32(out, self.first_doc);
        bytes::put_u32(out, self.last_doc);
        bytes::put_u64(out, self.offset);
        bytes::put_u32(out, self.length);
        bytes::put_u32(out, self.max_weight);
        proof {
            assert(out@ =~= before + self.stored());
        }
    }

    /// Append the stored entry.
    pub fn write(&self, out: &mut Vec<u8>)
        ensures
            final(out)@ == old(out)@ + self.stored(),
    {
        self.write_to_vec(out);
    }

    /// Read the entry at byte `at`, if it is all there.
    pub fn read(b: &[u8], at: usize) -> (r: Option<SparseSkipEntry>)
        ensures
            r == (if at + 24 <= b.len() {
                Some(SparseSkipEntry::stored_at(b@, at as int))
            } else {
                None
            }),
    {
        if at > b.len() || b.len() - at < 24 {
            return None;
        }
        Some(Self::load(b, at))
    }
}

/// An entry is read back where it was written.
pub proof fn sparse_entry_roundtrip(e: SparseSkipEntry, b: Seq<u8>, at: int)
    requires
        0 <= at,
        at + 24 <= b.len(),
        b.subrange(at, at + 24) == e.stored(),
    ensures
        e.stored().len() == 24,
        SparseSkipEntry::stored_at(b, at) == e,
{
    broadcast use bytes::group_word_sizes;

    let s = e.stored();
    assert(s.subrange(0, 4) =~= bytes::le32(e.first_doc));
    assert(s.subrange(4, 8) =~= bytes::le32(e.last_doc));
    assert(s.subrange(8, 16) =~= bytes::le64(e.offset));
    assert(s.subrange(16, 20) =~= bytes::le32(e.length));
    assert(s.subrange(20, 24) =~= bytes::le32(e.max_weight));
    bytes::le32_roundtrip(e.first_doc);
    bytes::le32_roundtrip(e.last_doc);
    bytes::le64_roundtrip(e.offset);
    bytes::le32_roundtrip(e.length);
    bytes::le32_roundtrip(e.max_weight);
    bytes::section_u32(s, 0, bytes::le32(e.first_doc), 0);
    bytes::section_u32(s, 4, bytes::le32(e.last_doc), 0);
    bytes::section_u64(s, 8, bytes::le64(e.offset), 0);
    bytes::section_u32(s, 16, bytes::le32(e.length), 0);
    bytes::section_u32(s, 20, bytes::le32(e.max_weight), 0);
    bytes::section_u32(b, at, s, 0);
    bytes::section_u32(b, at, s, 4);
    bytes::section_u64(b, at, s, 8);
    bytes::section_u32(b, at, s, 16);
    bytes::section_u32(b, at, s, 20);
}

/// Where a number stands among all numbers. Both zeros stand together.
pub open spec fn rank(bits: u32) -> int {
    if bits < SIGN {
        bits as int
    } else {
        SIGN - bits
    }
}

/// The larger of two numbers. What is not a number gives way to the other;
/// of two that stand together, the first.
pub open spec fn larger(a: u32, b: u32) -> u32 {
    if a % SIGN > INFINITY {
        b
    } else if b % SIGN > INFINITY || rank(b) <= rank(a) {
        a
    } else {
        b
    }
}

/// Whether the first number stands below the second.
pub fn ranks_below(a: u32, b: u32) -> (r: bool)
    ensures
        r == (rank(a) < rank(b)),
{
    if a < SIGN {
        b < SIGN && a < b
    } else if b < SIGN {
        a > SIGN || b > 0
    } else {
        b < a
    }
}

/// The larger of two numbers.
pub fn larger_of(a: u32, b: u32) -> (r: u32)
    ensures
        r == larger(a, b),
{
    if a % SIGN > INFINITY {
        b
    } else if b % SIGN > INFINITY || !ranks_below(a, b) {
        a
    } else {
        b
    }
}

/// The blocks of a sparse posting list in order, and the largest weight of
/// them all.
#[derive(Debug, Clone)]
pub struct SparseSkipList {
    entries: Vec<SparseSkipEntry>,
    global_max_weight: u32,
}

impl View for SparseSkipList {
    type V = Seq<SparseSkipEntry>;

    closed spec fn view(&self) -> Seq<SparseSkipEntry> {
        self.entries@
    }
}

impl Default for SparseSkipList {
    fn default() -> (r: Self)
        ensures
            r@ == Seq::<SparseSkipEntry>::empty(),
            r.top() == 0,
    {
        SparseSkipList { entries: Vec::new(), global_max_weight: 0 }
    }
}

/// Whether last documents never run backwards.
pub open spec fn sparse_lasts_ordered(s: Seq<SparseSkipEntry>) -> bool {
    forall|i: int, j: int| 0 <= i <= j < s.len() ==> s[i].last_doc <= s[j].last_doc
}

/// The entries as parts of the stored list.
pub open spec fn sparse_entry_parts(s: Seq<SparseSkipEntry>) -> Seq<Seq<u8>> {
    Seq::new(s.len(), |i: int| s[i].stored())
}

/// The stored list: the number of entries, the largest weight, the entries.
pub open spec fn stored_sparse_list(s: Seq<SparseSkipEntry>, top: u32) -> Seq<u8> {
    bytes::le32(s.len() as u32) + bytes::le32(top) + bytes::joined(sparse_entry_parts(s))
}

/// The entries that are stored after the head of a list.
pub open spec fn sparse_entries_at(b: Seq<u8>) -> Seq<SparseSkipEntry> {
    Seq::new(bytes::u32_at(b, 0) as nat, |i: int| SparseSkipEntry::stored_at(b, 8 + 24 * i))
}

impl SparseSkipList {
    /// The largest weight of all blocks.
    pub closed spec fn top(&self) -> u32 {
        self.global_max_weight
    }

    pub fn new() -> (r: Self)
        ensures
            r@ == Seq::<SparseSkipEntry>::empty(),
            r.top() == 0,
    {
        SparseSkipList { entries: Vec::new(), global_max_weight: 0 }
    }

    /// Add a block.
    pub fn push(
        &mut self,
        first_doc: u32,
        last_doc: u32,
        offset: u64,
        length: u32,
        max_weight: u32,
    )
        ensures
            final(self)@ == old(self)@.push(
                SparseSkipEntry { first_doc, last_doc, offset, length, max_weight },
            ),
            final(self).top() == larger(old(self).top(), max_weight),
    {
        self.global_max_weight = larger_of(self.global_max_weight, max_weight);
        self.entries.push(SparseSkipEntry { first_doc, last_doc, offset, length, max_weight });
    }

    pub fn len(&self) -> (r: usize)
        ensures
            r == self@.len(),
    {
        self.entries.len()
    }

    pub fn is_empty(&self) -> (r: bool)
        ensures
            r == (self@.len() == 0),
    {
        self.entries.len() == 0
    }

    /// Block `index`, if there is one.
    pub fn get(&self, index: usize) -> (r: Option<&SparseSkipEntry>)
        ensures
            r is Some <==> index < self@.len(),
            r matches Some(e) ==> *e == self@[index as int],
    {
        if index < self.entries.len() {
            Some(&self.entries[index])
        } else {
            None
        }
    }

    /// The largest weight of all blocks.
    pub fn global_max_weight(&self) -> (r: u32)
        ensures
            r == self.top(),
    {
        self.global_max_weight
    }

    /// The first block that ends at or after `target`. Last documents must
    /// not run backwards.
    pub fn find_block(&self, target: u32) -> (r: Option<usize>)
        requires
            sparse_lasts_ordered(self@),
        ensures
            match r {
                Some(b) => b < self@.len() && self@[b as int].last_doc >= target && forall|i: int|
                    0 <= i < b ==> (#[trigger] self@[i]).last_doc < target,
                None => forall|i: int|
                    0 <= i < self@.len() ==> (#[trigger] self@[i]).last_doc < target,
            },
    {
        let n: usize = self.entries.len();
        let mut lo: usize = 0;
        let mut hi: usize = n;
        while lo < hi
            invariant
                lo <= hi <= n == self@.len(),
                sparse_lasts_ordered(self@),
                forall|i: int| 0 <= i < lo ==> (#[trigger] self@[i]).last_doc < target,
                hi < n ==> self@[hi as int].last_doc >= target,
            decreases hi - lo,
        {
            let mid: usize = lo + (hi - lo) / 2;
            if self.entries[mid].last_doc < target {
                proof {
                    assert forall|i: int| 0 <= i < mid + 1 implies (#[trigger] self@[i]).last_doc
                        < target by {
                        assert(self@[i].last_doc <= self@[mid as int].last_doc);
                    }
                }
                lo = mid + 1;
            } else {
                hi = mid;
            }
        }
        if lo < n {
            Some(lo)
        } else {
            None
        }
    }

    /// The blocks in order.
    pub fn iter(&self) -> (r: &[SparseSkipEntry])
        ensures
            r@ == self@,
    {
        self.entries.as_slice()
    }

    /// Append the stored list.
    pub fn write(&self, out: &mut Vec<u8>)
        requires
            self@.len() <= u32::MAX,
        ensures
            final(out)@ == old(out)@ + stored_sparse_list(self@, self.top()),
    {
        let ghost start = out@;
        let ghost parts = sparse_entry_parts(self@);
        bytes::put_u32(out, self.entries.len() as u32);
        bytes::put_u32(out, self.global_max_weight);
        let ghost head = out@;
        let mut i: usize = 0;
        proof {
            assert(head + bytes::joined(parts.take(0)) =~= head);
        }
        while i < self.entries.len()
            invariant
                i <= self@.len(),
                parts == sparse_entry_parts(self@),
                out@ == head + bytes::joined(parts.take(i as int)),
            decreases self@.len() - i,
        {
            self.entries[i].write_to_vec(out);
            proof {
                assert(parts.take(i + 1).drop_last() =~= parts.take(i as int));
                assert(out@ =~= head + bytes::joined(parts.take(i + 1)));
            }
            i = i + 1;
        }
        proof {
            assert(parts.take(parts.len() as int) =~= parts);
            assert(out@ =~= start + stored_sparse_list(self@, self.top()));
        }
    }

    /// Read a stored list from the start of `b`. Gives the list and its size,
    /// or nothing if it is cut off.
    pub fn read(b: &[u8]) -> (r: Option<(SparseSkipList, usize)>)
        ensures
            r is Some <==> b.len() >= 8 && b.len() >= 8 + 24 * bytes::u32_at(b@, 0),
            r matches Some((l, n)) ==> {
                &&& n == 8 + 24 * bytes::u32_at(b@, 0)
                &&& l@ == sparse_entries_at(b@)
                &&& l.top() == bytes::u32_at(b@, 4)
            },
    {
        if b.len() < 8 {
            return None;
        }
        let count: u32 = bytes::get_u32(b, 0);
        let global_max_weight: u32 = bytes::get_u32(b, 4);
        let room: usize = (b.len() - 8) / 24;
        if count as u64 > room as u64 {
            return None;
        }
        let mut entries: Vec<SparseSkipEntry> = Vec::new();
        let mut at: usize = 8;
        let mut i: u32 = 0;
        while i < count
            invariant
                i <= count,
                8 + 24 * count <= b.len(),
                at == 8 + 24 * i,
                entries@.len() == i,
                forall|k: int|
                    0 <= k < i ==> #[trigger] entries@[k] == SparseSkipEntry::stored_at(
                        b@,
                        8 + 24 * k,
                    ),
            decreases count - i,
        {
            entries.push(SparseSkipEntry::load(b, at));
            at = at + 24;
            i = i + 1;
        }
        let l = SparseSkipList { entries, global_max_weight };
        proof {
            assert(l@ =~= sparse_entries_at(b@));
        }
        Some((l, at))
    }
}

/// A stored list, whatever follows it, is read back as it was.
pub proof fn sparse_skip_list_roundtrip(s: Seq<SparseSkipEntry>, top: u32, after: Seq<u8>)
    requires
        s.len() <= u32::MAX,
    ensures
        ({
            let b = stored_sparse_list(s, top) + after;
            &&& stored_sparse_list(s, top).len() == 8 + 24 * s.len()
            &&& bytes::u32_at(b, 0) == s.len()
            &&& bytes::u32_at(b, 4) == top
            &&& sparse_entries_at(b) == s
        }),
{
    broadcast use bytes::group_word_sizes;

    let b = stored_sparse_list(s, top) + after;
    let parts = sparse_entry_parts(s);
    let all = bytes::joined(parts);
    let n = s.len() as int;
    assert forall|i: int| 0 <= i < parts.len() implies (#[trigger] parts[i]).len() == 24 by {}
    bytes::joined_uniform(parts, 24, n);
    bytes::joined_position(parts, n);
    assert(b.subrange(0, 4) =~= bytes::le32(s.len() as u32));
    assert(b.subrange(4, 8) =~= bytes::le32(top));
    bytes::le32_roundtrip(s.len() as u32);
    bytes::le32_roundtrip(top);
    bytes::section_u32(b, 0, bytes::le32(s.len() as u32), 0);
    bytes::section_u32(b, 4, bytes::le32(top), 0);
    assert(b.subrange(8, 8 + 24 * n) =~= all);
    assert forall|i: int| 0 <= i < n implies s[i] == SparseSkipEntry::stored_at(b, 8 + 24 * i) by {
        bytes::joined_position(parts, i);
        bytes::joined_uniform(parts, 24, i);
        bytes::joined_uniform(parts, 24, i + 1);
        bytes::joined_len_monotone(parts, i + 1, n);
        assert(all.subrange(24 * i, 24 * i + 24) == parts[i]);
        assert(b.subrange(8 + 24 * i, 8 + 24 * i + 24) =~= all.subrange(24 * i, 24 * i + 24));
        sparse_entry_roundtrip(s[i], b, 8 + 24 * i);
    }
    assert(sparse_entries_at(b) =~= s);
}

} // verus!
