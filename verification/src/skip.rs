//! Skip lists, blocks of document numbers, and fixed-width gaps.
use crate::block;
use crate::bytes;
use vstd::prelude::*;

verus! {

/// A block of a posting list: its documents and where it starts.
#[derive(Debug, Clone, Copy, PartialEq, Eq, Structural)]
pub struct SkipEntry {
    pub first_doc: u32,
    pub last_doc: u32,
    pub offset: u32,
}

impl SkipEntry {
    pub fn new(first_doc: u32, last_doc: u32, offset: u32) -> (r: Self)
        ensures
            r == (SkipEntry { first_doc, last_doc, offset }),
    {
        SkipEntry { first_doc, last_doc, offset }
    }

    /// The stored entry.
    pub open spec fn stored(self) -> Seq<u8> {
        bytes::le32(self.first_doc) + bytes::le32(self.last_doc) + bytes::le32(self.offset)
    }

    /// The entry stored at byte `at`.
    pub open spec fn stored_at(b: Seq<u8>, at: int) -> SkipEntry {
        SkipEntry {
            first_doc: bytes::u32_at(b, at),
            last_doc: bytes::u32_at(b, at + 4),
            offset: bytes::u32_at(b, at + 8),
        }
    }

    /// Append the stored entry.
    pub fn write(&self, out: &mut Vec<u8>)
        ensures
            final(out)@ == old(out)@ + self.stored(),
    {
        let ghost before = out@;
        bytes::put_u32(out, self.first_doc);
        bytes::put_u32(out, self.last_doc);
        bytes::put_u32(out, self.offset);
        proof {
            assert(out@ =~= before + self.stored());
        }
    }

    /// Read the entry at byte `at`, if it is all there.
    pub fn read(b: &[u8], at: usize) -> (r: Option<SkipEntry>)
        ensures
            r == (if at + 12 <= b.len() {
                Some(SkipEntry::stored_at(b@, at as int))
            } else {
                None
            }),
    {
        if at > b.len() || b.len() - at < 12 {
            return None;
        }
        Some(
            SkipEntry {
                first_doc: bytes::get_u32(b, at),
                last_doc: bytes::get_u32(b, at + 4),
                offset: bytes::get_u32(b, at + 8),
            },
        )
    }
}

/// An entry is read back where it was written.
pub proof fn entry_roundtrip(e: SkipEntry, b: Seq<u8>, at: int)
    requires
        0 <= at,
        at + 12 <= b.len(),
        b.subrange(at, at + 12) == e.stored(),
    ensures
        SkipEntry::stored_at(b, at) == e,
{
    broadcast use bytes::group_word_sizes;

    let s = e.stored();
    assert(s.subrange(0, 4) =~= bytes::le32(e.first_doc));
    assert(s.subrange(4, 8) =~= bytes::le32(e.last_doc));
    assert(s.subrange(8, 12) =~= bytes::le32(e.offset));
    bytes::le32_roundtrip(e.first_doc);
    bytes::le32_roundtrip(e.last_doc);
    bytes::le32_roundtrip(e.offset);
    bytes::section_u32(s, 0, bytes::le32(e.first_doc), 0);
    bytes::section_u32(s, 4, bytes::le32(e.last_doc), 0);
    bytes::section_u32(s, 8, bytes::le32(e.offset), 0);
    bytes::section_u32(b, at, s, 0);
    bytes::section_u32(b, at, s, 4);
    bytes::section_u32(b, at, s, 8);
}

/// The blocks of a posting list in order.
#[derive(Debug, Clone)]
pub struct SkipList {
    pub entries: Vec<SkipEntry>,
}

impl View for SkipList {
    type V = Seq<SkipEntry>;

    open spec fn view(&self) -> Seq<SkipEntry> {
        self.entries@
    }
}

impl Default for SkipList {
    fn default() -> (r: Self)
        ensures
            r@ == Seq::<SkipEntry>::empty(),
    {
        SkipList { entries: Vec::new() }
    }
}

/// Whether last documents never run backwards.
pub open spec fn lasts_ordered(s: Seq<SkipEntry>) -> bool {
    forall|i: int, j: int| 0 <= i <= j < s.len() ==> s[i].last_doc <= s[j].last_doc
}

/// The entries as parts of the stored list.
pub open spec fn entry_parts(s: Seq<SkipEntry>) -> Seq<Seq<u8>> {
    Seq::new(s.len(), |i: int| s[i].stored())
}

/// The stored list: the number of entries, then the entries.
pub open spec fn stored_list(s: Seq<SkipEntry>) -> Seq<u8> {
    bytes::le32(s.len() as u32) + bytes::joined(entry_parts(s))
}

impl SkipList {
    pub fn new() -> (r: Self)
        ensures
            r@ == Seq::<SkipEntry>::empty(),
    {
        SkipList { entries: Vec::new() }
    }

    pub fn with_capacity(capacity: usize) -> (r: Self)
        ensures
            r@ == Seq::<SkipEntry>::empty(),
    {
        SkipList { entries: Vec::with_capacity(capacity) }
    }

    /// Add a block.
    pub fn push(&mut self, first_doc: u32, last_doc: u32, offset: u32)
        ensures
            final(self)@ == old(self)@.push(SkipEntry { first_doc, last_doc, offset }),
    {
        self.entries.push(SkipEntry::new(first_doc, last_doc, offset));
    }

    /// Number of blocks.
    pub fn len(&self) -> (r: usize)
        ensures
            r == self@.len(),
    {
        self.entries.len()
    }

    pub fn is_empty(&self) -> (r: bool)
        ensures
            r == (self@.len() == 0),
    {
        self.entries.len() == 0
    }

    /// Block `index`, if there is one.
    pub fn get(&self, index: usize) -> (r: Option<&SkipEntry>)
        ensures
            r is Some <==> index < self@.len(),
            r matches Some(e) ==> *e == self@[index as int],
    {
        if index < self.entries.len() {
            Some(&self.entries[index])
        } else {
            None
        }
    }

    /// The first block that ends at or after `target`. Last documents must
    /// not run backwards.
    pub fn find_block(&self, target: u32) -> (r: Option<usize>)
        requires
            lasts_ordered(self@),
        ensures
            match r {
                Some(b) => b < self@.len() && self@[b as int].last_doc >= target && forall|i: int|
                    0 <= i < b ==> (#[trigger] self@[i]).last_doc < target,
                None => forall|i: int|
                    0 <= i < self@.len() ==> (#[trigger] self@[i]).last_doc < target,
            },
    {
        let n: usize = self.entries.len();
        let mut lo: usize = 0;
        let mut hi: usize = n;
        while lo < hi
            invariant
                lo <= hi <= n == self@.len(),
                lasts_ordered(self@),
                forall|i: int| 0 <= i < lo ==> (#[trigger] self@[i]).last_doc < target,
                hi < n ==> self@[hi as int].last_doc >= target,
            decreases hi - lo,
        {
            let mid: usize = lo + (hi - lo) / 2;
            if self.entries[mid].last_doc < target {
                proof {
                    assert forall|i: int| 0 <= i < mid + 1 implies (#[trigger] self@[i]).last_doc
                        < target by {
                        assert(self@[i].last_doc <= self@[mid as int].last_doc);
                    }
                }
                lo = mid + 1;
            } else {
                hi = mid;
            }
        }
        if lo < n {
            Some(lo)
        } else {
            None
        }
    }

    /// The blocks in order.
    pub fn iter(&self) -> (r: &[SkipEntry])
        ensures
            r@ == self@,
    {
        self.entries.as_slice()
    }

    /// Append the stored list.
    pub fn write(&self, out: &mut Vec<u8>)
        requires
            self@.len() <= u32::MAX,
        ensures
            final(out)@ == old(out)@ + stored_list(self@),
    {
        let ghost start = out@;
        let ghost parts = entry_parts(self@);
        bytes::put_u32(out, self.entries.len() as u32);
        let ghost head = out@;
        let mut i: usize = 0;
        proof {
            assert(head + bytes::joined(parts.take(0)) =~= head);
        }
        while i < self.entries.len()
            invariant
                i <= self@.len(),
                parts == entry_parts(self@),
                out@ == head + bytes::joined(parts.take(i as int)),
            decreases self@.len() - i,
        {
            self.entries[i].write(out);
            proof {
                assert(parts.take(i + 1).drop_last() =~= parts.take(i as int));
                assert(out@ =~= head + bytes::joined(parts.take(i + 1)));
            }
            i = i + 1;
        }
        proof {
            assert(parts.take(parts.len() as int) =~= parts);
            assert(out@ =~= start + stored_list(self@));
        }
    }

    /// Read a stored list from the start of `b`. Gives the list and its size,
    /// or nothing if it is cut off.
    pub fn read(b: &[u8]) -> (r: Option<(SkipList, usize)>)
        ensures
            r is Some <==> b.len() >= 4 && b.len() >= 4 + 12 * bytes::u32_at(b@, 0),
            r matches Some((l, n)) ==> {
                &&& n == 4 + 12 * bytes::u32_at(b@, 0)
                &&& l@ == Seq::new(
                    bytes::u32_at(b@, 0) as nat,
                    |i: int| SkipEntry::stored_at(b@, 4 + 12 * i),
                )
            },
    {
        if b.len() < 4 {
            return None;
        }
        let count: u32 = bytes::get_u32(b, 0);
        let room: usize = (b.len() - 4) / 12;
        if count as u64 > room as u64 {
            return None;
        }
        let mut entries: Vec<SkipEntry> = Vec::new();
        let mut at: usize = 4;
        let mut i: u32 = 0;
        while i < count
            invariant
                i <= count,
                4 + 12 * count <= b.len(),
                at == 4 + 12 * i,
                entries@.len() == i,
                forall|k: int|
                    0 <= k < i ==> #[trigger] entries@[k] == SkipEntry::stored_at(b@, 4 + 12 * k),
            decreases count - i,
        {
            entries.push(
                SkipEntry {
                    first_doc: bytes::get_u32(b, at),
                    last_doc: bytes::get_u32(b, at + 4),
                    offset: bytes::get_u32(b, at + 8),
                },
            );
            at = at + 12;
            i = i + 1;
        }
        let l = SkipList { entries };
        proof {
            assert(l@ =~= Seq::new(
                bytes::u32_at(b@, 0) as nat,
                |i: int| SkipEntry::stored_at(b@, 4 + 12 * i),
            ));
        }
        Some((l, at))
    }

    /// A list from tuples.
    pub fn from_tuples(tuples: &[(u32, u32, u32)]) -> (r: Self)
        ensures
            r@ == Seq::new(
                tuples@.len(),
                |i: int|
                    SkipEntry {
                        first_doc: tuples@[i].0,
                        last_doc: tuples@[i].1,
                        offset: tuples@[i].2,
                    },
            ),
    {
        let mut r = SkipList::new();
        let mut i: usize = 0;
        while i < tuples.len()
            invariant
                i <= tuples@.len(),
                r@.len() == i,
                forall|k: int|
                    0 <= k < i ==> #[trigger] r@[k] == (SkipEntry {
                        first_doc: tuples@[k].0,
                        last_doc: tuples@[k].1,
                        offset: tuples@[k].2,
                    }),
            decreases tuples@.len() - i,
        {
            let (first, last, offset): (u32, u32, u32) = tuples[i];
            r.push(first, last, offset);
            i = i + 1;
        }
        proof {
            assert(r@ =~= Seq::new(
                tuples@.len(),
                |i: int|
                    SkipEntry {
                        first_doc: tuples@[i].0,
                        last_doc: tuples@[i].1,
                        offset: tuples@[i].2,
                    },
            ));
        }
        r
    }

    /// The blocks as tuples.
    pub fn to_tuples(&self) -> (r: Vec<(u32, u32, u32)>)
        ensures
            r@ == Seq::new(
                self@.len(),
                |i: int| (self@[i].first_doc, self@[i].last_doc, self@[i].offset),
            ),
    {
        let mut r: Vec<(u32, u32, u32)> = Vec::new();
        let mut i: usize = 0;
        while i < self.entries.len()
            invariant
                i <= self@.len(),
                r@.len() == i,
                forall|k: int|
                    0 <= k < i ==> #[trigger] r@[k] == (
                        self@[k].first_doc,
                        self@[k].last_doc,
                        self@[k].offset,
                    ),
            decreases self@.len() - i,
        {
            let e = &self.entries[i];
            r.push((e.first_doc, e.last_doc, e.offset));
            i = i + 1;
        }
        proof {
            assert(r@ =~= Seq::new(
                self@.len(),
                |i: int| (self@[i].first_doc, self@[i].last_doc, self@[i].offset),
            ));
        }
        r
    }
}

/// A stored list, whatever follows it, is read back as it was.
pub proof fn skip_list_roundtrip(s: Seq<SkipEntry>, after: Seq<u8>)
    requires
        s.len() <= u32::MAX,
    ensures
        ({
            let b = stored_list(s) + after;
            &&& stored_list(s).len() == 4 + 12 * s.len()
            &&& bytes::u32_at(b, 0) == s.len()
            &&& s == Seq::new(s.len(), |i: int| SkipEntry::stored_at(b, 4 + 12 * i))
        }),
{
    broadcast use bytes::group_word_sizes;

    let b = stored_list(s) + after;
    let parts = entry_parts(s);
    let all = bytes::joined(parts);
    let n = s.len() as int;
    assert forall|i: int| 0 <= i < parts.len() implies (#[trigger] parts[i]).len() == 12 by {}
    bytes::joined_uniform(parts, 12, n);
    bytes::joined_position(parts, n);
    assert(parts.take(n) =~= parts);
    assert(b.subrange(0, 4) =~= bytes::le32(s.len() as u32));
    bytes::le32_roundtrip(s.len() as u32);
    bytes::section_u32(b, 0, bytes::le32(s.len() as u32), 0);
    assert(b.subrange(4, 4 + 12 * n) =~= all);
    assert forall|i: int| 0 <= i < n implies s[i] == SkipEntry::stored_at(b, 4 + 12 * i) by {
        bytes::joined_position(parts, i);
        bytes::joined_uniform(parts, 12, i);
        bytes::joined_uniform(parts, 12, i + 1);
        assert(all.subrange(12 * i, 12 * i + 12) == parts[i]);
        assert(b.subrange(4 + 12 * i, 4 + 12 * i + 12) =~= all.subrange(12 * i, 12 * i + 12));
        entry_roundtrip(s[i], b, 4 + 12 * i);
    }
    assert(s =~= Seq::new(s.len(), |i: int| SkipEntry::stored_at(b, 4 + 12 * i)));
}

/// Tuples and back again.
pub proof fn tuples_roundtrip(s: Seq<SkipEntry>)
    ensures
        ({
            let t = Seq::new(s.len(), |i: int| (s[i].first_doc, s[i].last_doc, s[i].offset));
            s == Seq::new(
                t.len(),
                |i: int| SkipEntry { first_doc: t[i].0, last_doc: t[i].1, offset: t[i].2 },
            )
        }),
{
    let t = Seq::new(s.len(), |i: int| (s[i].first_doc, s[i].last_doc, s[i].offset));
    assert(s =~= Seq::new(
        t.len(),
        |i: int| SkipEntry { first_doc: t[i].0, last_doc: t[i].1, offset: t[i].2 },
    ));
}

} // verus!
