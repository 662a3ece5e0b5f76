//! Stored sets of 32-bit numbers.
use crate::bytes;
use crate::container::Container;
use crate::container_store;
use crate::error::ReadError;
use crate::roaring::RoaringBitmap;
use vstd::prelude::*;

verus! {

/// Chunks as parts of the stored set: the upper half, then the lower halves.
pub open spec fn chunk_parts(c: Seq<(u16, Container)>) -> Seq<Seq<u8>> {
    Seq::new(c.len(), |i: int| bytes::le16(c[i].0) + c[i].1.stored())
}

/// Where the first `n` chunks of the set stored at byte `at` end, or why they
/// are not there.
pub open spec fn chunks_end(b: Seq<u8>, at: int, n: int) -> Result<int, ReadError>
    decreases n,
{
    if n <= 0 {
        Ok(at + 4)
    } else {
        match chunks_end(b, at, n - 1) {
            Err(error) => Err(error),
            Ok(end) => if end + 2 > b.len() {
                Err(ReadError::Truncated)
            } else {
                container_store::container_end(b, end + 2)
            },
        }
    }
}

/// Where the set stored at byte `at` ends, or why there is none.
pub open spec fn bitmap_end(b: Seq<u8>, at: int) -> Result<int, ReadError> {
    if at + 4 > b.len() {
        Err(ReadError::Truncated)
    } else {
        chunks_end(b, at, bytes::u32_at(b, at) as int)
    }
}

impl RoaringBitmap {
    /// Whether the set can be stored.
    pub open spec fn storable(&self) -> bool {
        &&& self.containers@.len() <= u32::MAX
        &&& forall|i: int|
            0 <= i < self.containers@.len() ==> (#[trigger] self.containers@[i]).1.storable()
    }

    /// The stored set.
    pub open spec fn stored(&self) -> Seq<u8> {
        bytes::le32(self.containers@.len() as u32) + bytes::joined(chunk_parts(self.containers@))
    }

    /// Whether this is the set stored at byte `at`.
    pub open spec fn is_at(&self, b: Seq<u8>, at: int) -> bool {
        &&& self.containers@.len() == bytes::u32_at(b, at)
        &&& forall|i: int|
            0 <= i < self.containers@.len() ==> {
                let p = chunks_end(b, at, i)->Ok_0;
                &&& (#[trigger] self.containers@[i]).0 == bytes::u16_at(b, p)
                &&& self.containers@[i].1.is_at(b, p + 2)
            }
    }

    /// Append the stored set.
    pub fn serialize(&self, out: &mut Vec<u8>)
        requires
            self.storable(),
        ensures
            final(out)@ == old(out)@ + self.stored(),
    {
        let ghost start = out@;
        let ghost parts = chunk_parts(self.containers@);
        bytes::put_u32(out, self.containers.len() as u32);
        let ghost head = out@;
        let mut i: usize = 0;
        proof {
            assert(head + bytes::joined(parts.take(0)) =~= head);
        }
        while i < self.containers.len()
            invariant
                i <= self.containers@.len(),
                self.storable(),
                parts == chunk_parts(self.containers@),
                out@ == head + bytes::joined(parts.take(i as int)),
            decreases self.containers@.len() - i,
        {
            bytes::put_u16(out, self.containers[i].0);
            self.containers[i].1.serialize(out);
            proof {
                assert(parts.take(i + 1).drop_last() =~= parts.take(i as int));
                assert(out@ =~= head + bytes::joined(parts.take(i + 1)));
            }
            i = i + 1;
        }
        proof {
            assert(parts.take(parts.len() as int) =~= parts);
            assert(out@ =~= start + self.stored());
        }
    }

    /// Read the set at byte `at`. Gives it and where it ends. What was read
    /// need not make sense: see `is_valid`.
    pub fn deserialize(b: &[u8], at: usize) -> (r: Result<(RoaringBitmap, usize), ReadError>)
        ensures
            match (r, bitmap_end(b@, at as int)) {
                (Ok((s, end)), Ok(stop)) => end == stop && s.is_at(b@, at as int) && at + 4 <= end
                    <= b.len(),
                (Err(error), Err(refused)) => error == refused,
                _ => false,
            },
    {
        if at > b.len() || b.len() - at < 4 {
            return Err(ReadError::Truncated);
        }
        let count: u32 = bytes::get_u32(b, at);
        let mut containers: Vec<(u16, Container)> = Vec::new();
        let mut end: usize = at + 4;
        let mut i: u32 = 0;
        while i < count
            invariant
                i <= count,
                at + 4 <= end <= b.len(),
                count == bytes::u32_at(b@, at as int),
                chunks_end(b@, at as int, i as int) == Ok::<int, ReadError>(end as int),
                containers@.len() == i,
                forall|k: int|
                    0 <= k < i ==> {
                        let p = chunks_end(b@, at as int, k)->Ok_0;
                        &&& (#[trigger] containers@[k]).0 == bytes::u16_at(b@, p)
                        &&& containers@[k].1.is_at(b@, p + 2)
                    },
            decreases count - i,
        {
            proof {
                if chunks_end(b@, at as int, i + 1) is Err {
                    end_stays(b@, at as int, i + 1, count as int);
                }
            }
            if b.len() - end < 2 {
                return Err(ReadError::Truncated);
            }
            let high: u16 = bytes::get_u16(b, end);
            match Container::deserialize(b, end + 2) {
                Ok((c, next)) => {
                    containers.push((high, c));
                    end = next;
                },
                Err(error) => {
                    return Err(error);
                },
            }
            i = i + 1;
        }
        Ok((RoaringBitmap { containers }, end))
    }

    /// Approximate size of the first `n` chunks with the header.
    pub open spec fn size(&self, n: int) -> int
        decreases n,
    {
        if n <= 0 {
            4
        } else {
            self.size(n - 1) + 2 + self.containers@[n - 1].1.size()
        }
    }

    proof fn size_grows(&self, i: int, j: int)
        requires
            0 <= i <= j,
        ensures
            4 <= self.size(i) <= self.size(j),
        decreases j,
    {
        if i < j {
            self.size_grows(i, j - 1);
        } else if i > 0 {
            self.size_grows(i - 1, j - 1);
        }
    }

    /// Approximate size in bytes.
    pub fn size_bytes(&self) -> (r: usize)
        requires
            self.size(self.containers@.len() as int) <= usize::MAX,
        ensures
            r == self.size(self.containers@.len() as int),
    {
        let mut total: usize = 4;
        let mut i: usize = 0;
        while i < self.containers.len()
            invariant
                i <= self.containers@.len(),
                total == self.size(i as int),
                self.size(self.containers@.len() as int) <= usize::MAX,
            decreases self.containers@.len() - i,
        {
            proof {
                self.size_grows(i + 1, self.containers@.len() as int);
                self.size_grows(0, i as int);
            }
            total = total + 2 + self.containers[i].1.size_bytes();
            i = i + 1;
        }
        total
    }
}

proof fn end_stays(b: Seq<u8>, at: int, i: int, n: int)
    requires
        0 <= i <= n,
        chunks_end(b, at, i) is Err,
    ensures
        chunks_end(b, at, n) == chunks_end(b, at, i),
    decreases n,
{
    if i < n {
        end_stays(b, at, i, n - 1);
    }
}

/// A stored set is read where it was written, and is the set that was.
pub proof fn bitmap_roundtrip(s: RoaringBitmap, b: Seq<u8>, at: int)
    requires
        s.storable(),
        0 <= at,
        at + s.stored().len() <= b.len(),
        b.subrange(at, at + s.stored().len()) == s.stored(),
    ensures
        bitmap_end(b, at) == Ok::<int, ReadError>(at + s.stored().len()),
        s.is_at(b, at),
{
    broadcast use bytes::group_word_sizes;

    let whole = s.stored();
    let c = s.containers@;
    let parts = chunk_parts(c);
    let all = bytes::joined(parts);
    let n = c.len() as int;
    assert(whole.subrange(0, 4) =~= bytes::le32(n as u32));
    bytes::le32_roundtrip(n as u32);
    bytes::section_u32(whole, 0, bytes::le32(n as u32), 0);
    bytes::section_u32(b, at, whole, 0);
    assert(whole.subrange(4, whole.len() as int) =~= all);
    assert(b.subrange(at + 4, at + 4 + all.len()) =~= whole.subrange(4, whole.len() as int));
    bytes::joined_position(parts, n);
    chunks_read(c, b, at, n);
    assert forall|i: int| 0 <= i < n implies {
        let p = chunks_end(b, at, i)->Ok_0;
        &&& (#[trigger] c[i]).0 == bytes::u16_at(b, p)
        &&& c[i].1.is_at(b, p + 2)
    } by {
        chunks_read(c, b, at, i);
        chunk_reads(c, b, at, i);
    }
}

proof fn chunk_reads(c: Seq<(u16, Container)>, b: Seq<u8>, at: int, i: int)
    requires
        0 <= at,
        forall|k: int| 0 <= k < c.len() ==> (#[trigger] c[k]).1.storable(),
        0 <= i < c.len(),
        at + 4 + bytes::joined(chunk_parts(c)).len() <= b.len(),
        b.subrange(at + 4, at + 4 + bytes::joined(chunk_parts(c)).len()) == bytes::joined(
            chunk_parts(c),
        ),
    ensures
        ({
            let p = at + 4 + bytes::joined_len(chunk_parts(c), i);
            &&& p + 2 <= b.len()
            &&& c[i].0 == bytes::u16_at(b, p)
            &&& c[i].1.is_at(b, p + 2)
            &&& container_store::container_end(b, p + 2) == Ok::<int, ReadError>(
                at + 4 + bytes::joined_len(chunk_parts(c), i + 1),
            )
        }),
{
    let parts = chunk_parts(c);
    let all = bytes::joined(parts);
    let from = bytes::joined_len(parts, i);
    let to = bytes::joined_len(parts, i + 1);
    bytes::joined_position(parts, i);
    bytes::joined_len_monotone(parts, 0, i);
    bytes::joined_len_monotone(parts, i + 1, c.len() as int);
    let part = parts[i];
    assert(all.subrange(from, to) == part);
    let p = at + 4 + from;
    assert(b.subrange(p, p + part.len()) =~= all.subrange(from, to));
    assert(part.subrange(0, 2) =~= bytes::le16(c[i].0));
    assert(b.subrange(p, p + 2) =~= b.subrange(p, p + part.len()).subrange(0, 2));
    container_store::half_reads(b, p, c[i].0);
    let s = c[i].1.stored();
    assert(part.subrange(2, part.len() as int) =~= s);
    assert(b.subrange(p + 2, p + 2 + s.len()) =~= b.subrange(p, p + part.len()).subrange(
        2,
        part.len() as int,
    ));
    container_store::container_reads(c[i].1, b, p + 2);
}

proof fn chunks_read(c: Seq<(u16, Container)>, b: Seq<u8>, at: int, n: int)
    requires
        0 <= at,
        forall|k: int| 0 <= k < c.len() ==> (#[trigger] c[k]).1.storable(),
        0 <= n <= c.len(),
        at + 4 + bytes::joined(chunk_parts(c)).len() <= b.len(),
        b.subrange(at + 4, at + 4 + bytes::joined(chunk_parts(c)).len()) == bytes::joined(
            chunk_parts(c),
        ),
    ensures
        chunks_end(b, at, n) == Ok::<int, ReadError>(
            at + 4 + bytes::joined_len(chunk_parts(c), n),
        ),
    decreases n,
{
    if n > 0 {
        chunks_read(c, b, at, n - 1);
        chunk_reads(c, b, at, n - 1);
    }
}

} // verus!
