//! Stored sets of 16-bit numbers.
use crate::bytes;
use crate::container::Container;
use crate::error::ReadError;
use vstd::prelude::*;

verus! {

/// Numbers as parts of two bytes.
pub open spec fn half_parts(a: Seq<u16>) -> Seq<Seq<u8>> {
    Seq::new(a.len(), |i: int| bytes::le16(a[i]))
}

/// Words as parts of eight bytes.
pub open spec fn word_parts(words: Seq<u64>) -> Seq<Seq<u8>> {
    Seq::new(words.len(), |i: int| bytes::le64(words[i]))
}

/// Runs as parts of four bytes.
pub open spec fn run_parts(runs: Seq<(u16, u16)>) -> Seq<Seq<u8>> {
    Seq::new(runs.len(), |i: int| bytes::le16(runs[i].0) + bytes::le16(runs[i].1))
}

impl Container {
    /// Whether the set can be stored: an array of all numbers there are
    /// cannot.
    pub open spec fn storable(&self) -> bool {
        match self {
            Container::Array(a) => a@.len() <= 0xFFFF,
            Container::Bitmap(words) => words@.len() == 1024,
            Container::Runs(runs) => runs@.len() <= 0xFFFF,
        }
    }

    /// The stored set: a tag, then the parts.
    pub open spec fn stored(&self) -> Seq<u8> {
        match self {
            Container::Array(a) => seq![0u8] + bytes::le16(a@.len() as u16) + bytes::joined(
                half_parts(a@),
            ),
            Container::Bitmap(words) => seq![1u8] + bytes::joined(word_parts(words@)),
            Container::Runs(runs) => seq![2u8] + bytes::le16(runs@.len() as u16) + bytes::joined(
                run_parts(runs@),
            ),
        }
    }

    /// Whether this is the set stored at byte `at`.
    pub open spec fn is_at(&self, b: Seq<u8>, at: int) -> bool {
        match self {
            Container::Array(a) => {
                &&& b[at] == 0
                &&& a@.len() == bytes::u16_at(b, at + 1)
                &&& forall|i: int|
                    0 <= i < a@.len() ==> #[trigger] a@[i] == bytes::u16_at(b, at + 3 + 2 * i)
            },
            Container::Bitmap(words) => {
                &&& b[at] == 1
                &&& words@.len() == 1024
                &&& forall|i: int|
                    0 <= i < 1024 ==> #[trigger] words@[i] == bytes::u64_at(b, at + 1 + 8 * i)
            },
            Container::Runs(runs) => {
                &&& b[at] == 2
                &&& runs@.len() == bytes::u16_at(b, at + 1)
                &&& forall|i: int|
                    0 <= i < runs@.len() ==> #[trigger] runs@[i] == (
                        bytes::u16_at(b, at + 3 + 4 * i),
                        bytes::u16_at(b, at + 5 + 4 * i),
                    )
            },
        }
    }

    /// Append the stored set.
    pub fn serialize(&self, out: &mut Vec<u8>)
        requires
            self.storable(),
        ensures
            final(out)@ == old(out)@ + self.stored(),
    {
        let ghost start = out@;
        match self {
            Container::Array(a) => {
                out.push(0);
                bytes::put_u16(out, a.len() as u16);
                put_halves(a.as_slice(), out);
            },
            Container::Bitmap(words) => {
                out.push(1);
                put_words(words.as_slice(), out);
            },
            Container::Runs(runs) => {
                out.push(2);
                bytes::put_u16(out, runs.len() as u16);
                put_runs(runs.as_slice(), out);
            },
        }
        proof {
            assert(out@ =~= start + self.stored());
        }
    }

    /// Read the set at byte `at`. Gives it and where it ends.
    pub fn deserialize(b: &[u8], at: usize) -> (r: Result<(Container, usize), ReadError>)
        ensures
            match (r, container_end(b@, at as int)) {
                (Ok((c, end)), Ok(stop)) => end == stop && c.is_at(b@, at as int),
                (Err(error), Err(refused)) => error == refused,
                _ => false,
            },
    {
        if at >= b.len() {
            return Err(ReadError::Truncated);
        }
        let tag: u8 = b[at];
        if tag == 1 {
            if b.len() - at - 1 < 8192 {
                return Err(ReadError::Truncated);
            }
            let mut words: Vec<u64> = Vec::new();
            let mut i: usize = 0;
            while i < 1024
                invariant
                    i <= 1024,
                    at + 1 + 8192 <= b.len(),
                    words@.len() == i,
                    forall|k: int|
                        0 <= k < i ==> #[trigger] words@[k] == bytes::u64_at(b@, at + 1 + 8 * k),
                decreases 1024 - i,
            {
                words.push(bytes::get_u64(b, at + 1 + 8 * i));
                i = i + 1;
            }
            return Ok((Container::Bitmap(words), at + 8193));
        }
        if tag != 0 && tag != 2 {
            return Err(ReadError::ContainerType);
        }
        if b.len() - at < 3 {
            return Err(ReadError::Truncated);
        }
        let n: usize = bytes::get_u16(b, at + 1) as usize;
        let size: usize = if tag == 0 {
            2 * n
        } else {
            4 * n
        };
        if b.len() - at - 3 < size {
            return Err(ReadError::Truncated);
        }
        if tag == 0 {
            let mut a: Vec<u16> = Vec::new();
            let mut i: usize = 0;
            while i < n
                invariant
                    i <= n <= 0xFFFF,
                    at + 3 + 2 * n <= b.len(),
                    a@.len() == i,
                    forall|k: int|
                        0 <= k < i ==> #[trigger] a@[k] == bytes::u16_at(b@, at + 3 + 2 * k),
                decreases n - i,
            {
                a.push(bytes::get_u16(b, at + 3 + 2 * i));
                i = i + 1;
            }
            Ok((Container::Array(a), at + 3 + size))
        } else {
            let mut runs: Vec<(u16, u16)> = Vec::new();
            let mut i: usize = 0;
            while i < n
                invariant
                    i <= n <= 0xFFFF,
                    at + 3 + 4 * n <= b.len(),
                    runs@.len() == i,
                    forall|k: int|
                        0 <= k < i ==> #[trigger] runs@[k] == (
                            bytes::u16_at(b@, at + 3 + 4 * k),
                            bytes::u16_at(b@, at + 5 + 4 * k),
                        ),
                decreases n - i,
            {
                runs.push((bytes::get_u16(b, at + 3 + 4 * i), bytes::get_u16(b, at + 5 + 4 * i)));
                i = i + 1;
            }
            Ok((Container::Runs(runs), at + 3 + size))
        }
    }

    /// Approximate size in bytes.
    pub open spec fn size(&self) -> int {
        match self {
            Container::Array(a) => (2 * a@.len() + 4) as int,
            Container::Bitmap(_) => 8193,
            Container::Runs(runs) => (4 * runs@.len() + 4) as int,
        }
    }

    /// Approximate size in bytes.
    pub fn size_bytes(&self) -> (r: usize)
        requires
            self.size() <= usize::MAX,
        ensures
            r == self.size(),
    {
        match self {
            Container::Array(a) => a.len() * 2 + 4,
            Container::Bitmap(_) => 8193,
            Container::Runs(runs) => runs.len() * 4 + 4,
        }
    }
}

/// Where the set stored at byte `at` ends, or why there is none.
pub open spec fn container_end(b: Seq<u8>, at: int) -> Result<int, ReadError> {
    let n = bytes::u16_at(b, at + 1) as int;
    if at + 1 > b.len() {
        Err(ReadError::Truncated)
    } else if b[at] == 1 {
        if at + 8193 > b.len() {
            Err(ReadError::Truncated)
        } else {
            Ok(at + 8193)
        }
    } else if b[at] != 0 && b[at] != 2 {
        Err(ReadError::ContainerType)
    } else if at + 3 > b.len() {
        Err(ReadError::Truncated)
    } else {
        let size = if b[at] == 0 {
            2 * n
        } else {
            4 * n
        };
        if at + 3 + size > b.len() {
            Err(ReadError::Truncated)
        } else {
            Ok(at + 3 + size)
        }
    }
}

fn put_halves(a: &[u16], out: &mut Vec<u8>)
    ensures
        final(out)@ == old(out)@ + bytes::joined(half_parts(a@)),
{
    let ghost start = out@;
    let ghost parts = half_parts(a@);
    let mut i: usize = 0;
    proof {
        assert(start + bytes::joined(parts.take(0)) =~= start);
    }
    while i < a.len()
        invariant
            i <= a@.len(),
            parts == half_parts(a@),
            out@ == start + bytes::joined(parts.take(i as int)),
        decreases a@.len() - i,
    {
        bytes::put_u16(out, a[i]);
        proof {
            assert(parts.take(i + 1).drop_last() =~= parts.take(i as int));
            assert(out@ =~= start + bytes::joined(parts.take(i + 1)));
        }
        i = i + 1;
    }
    proof {
        assert(parts.take(parts.len() as int) =~= parts);
    }
}

fn put_words(words: &[u64], out: &mut Vec<u8>)
    ensures
        final(out)@ == old(out)@ + bytes::joined(word_parts(words@)),
{
    let ghost start = out@;
    let ghost parts = word_parts(words@);
    let mut i: usize = 0;
    proof {
        assert(start + bytes::joined(parts.take(0)) =~= start);
    }
    while i < words.len()
        invariant
            i <= words@.len(),
            parts == word_parts(words@),
            out@ == start + bytes::joined(parts.take(i as int)),
        decreases words@.len() - i,
    {
        bytes::put_u64(out, words[i]);
        proof {
            assert(parts.take(i + 1).drop_last() =~= parts.take(i as int));
            assert(out@ =~= start + bytes::joined(parts.take(i + 1)));
        }
        i = i + 1;
    }
    proof {
        assert(parts.take(parts.len() as int) =~= parts);
    }
}

fn put_runs(runs: &[(u16, u16)], out: &mut Vec<u8>)
    ensures
        final(out)@ == old(out)@ + bytes::joined(run_parts(runs@)),
{
    let ghost start = out@;
    let ghost parts = run_parts(runs@);
    let mut i: usize = 0;
    proof {
        assert(start + bytes::joined(parts.take(0)) =~= start);
    }
    while i < runs.len()
        invariant
            i <= runs@.len(),
            parts == run_parts(runs@),
            out@ == start + bytes::joined(parts.take(i as int)),
        decreases runs@.len() - i,
    {
        let (first, more): (u16, u16) = runs[i];
        bytes::put_u16(out, first);
        bytes::put_u16(out, more);
        proof {
            assert(parts.take(i + 1).drop_last() =~= parts.take(i as int));
            assert(out@ =~= start + bytes::joined(parts.take(i + 1)));
        }
        i = i + 1;
    }
    proof {
        assert(parts.take(parts.len() as int) =~= parts);
    }
}

/// A half word is read where it was written.
pub proof fn half_reads(b: Seq<u8>, at: int, x: u16)
    requires
        0 <= at,
        at + 2 <= b.len(),
        b.subrange(at, at + 2) == bytes::le16(x),
    ensures
        bytes::u16_at(b, at) == x,
{
    bytes::le16_roundtrip(x);
    assert(b[at] == b.subrange(at, at + 2)[0]);
    assert(b[at + 1] == b.subrange(at, at + 2)[1]);
}

/// Part `i` of parts of one size, in bytes that hold all of them from `at` on.
proof fn part_lies(parts: Seq<Seq<u8>>, size: int, b: Seq<u8>, at: int, i: int)
    requires
        0 <= at,
        0 <= size,
        forall|k: int| 0 <= k < parts.len() ==> (#[trigger] parts[k]).len() == size,
        at + bytes::joined(parts).len() <= b.len(),
        b.subrange(at, at + bytes::joined(parts).len()) == bytes::joined(parts),
        0 <= i < parts.len(),
    ensures
        bytes::joined(parts).len() == parts.len() * size,
        (i + 1) * size <= parts.len() * size,
        0 <= i * size,
        b.subrange(at + i * size, at + i * size + size) == parts[i],
{
    let all = bytes::joined(parts);
    bytes::joined_position(parts, i);
    bytes::joined_uniform(parts, size, i);
    bytes::joined_uniform(parts, size, i + 1);
    bytes::joined_uniform(parts, size, parts.len() as int);
    assert((i + 1) * size == i * size + size) by (nonlinear_arith);
    assert((i + 1) * size <= parts.len() * size) by (nonlinear_arith)
        requires
            i + 1 <= parts.len(),
            size >= 0,
    ;
    assert(0 <= i * size) by (nonlinear_arith)
        requires
            i >= 0,
            size >= 0,
    ;
    assert(b.subrange(at + i * size, at + i * size + size) =~= all.subrange(
        i * size,
        i * size + size,
    ));
}

/// Number of bytes of parts of one size.
proof fn parts_len(parts: Seq<Seq<u8>>, size: int)
    requires
        forall|k: int| 0 <= k < parts.len() ==> (#[trigger] parts[k]).len() == size,
    ensures
        bytes::joined(parts).len() == parts.len() * size,
{
    bytes::joined_position(parts, parts.len() as int);
    bytes::joined_uniform(parts, size, parts.len() as int);
}

/// A stored set is read where it was written.
pub proof fn container_reads(c: Container, b: Seq<u8>, at: int)
    requires
        c.storable(),
        0 <= at,
        at + c.stored().len() <= b.len(),
        b.subrange(at, at + c.stored().len()) == c.stored(),
    ensures
        container_end(b, at) == Ok::<int, ReadError>(at + c.stored().len()),
        c.is_at(b, at),
{
    broadcast use bytes::group_word_sizes;

    let s = c.stored();
    assert(b[at] == s[0]) by {
        assert(b.subrange(at, at + s.len())[0] == b[at]);
    }
    match c {
        Container::Array(a) => {
            let parts = half_parts(a@);
            parts_len(parts, 2);
            assert(b.subrange(at + 1, at + 3) =~= bytes::le16(a@.len() as u16)) by {
                assert(s.subrange(1, 3) =~= bytes::le16(a@.len() as u16));
                assert(b.subrange(at + 1, at + 3) =~= s.subrange(1, 3));
            }
            half_reads(b, at + 1, a@.len() as u16);
            assert(s.subrange(3, s.len() as int) =~= bytes::joined(parts));
            assert(b.subrange(at + 3, at + s.len()) =~= s.subrange(3, s.len() as int));
            assert forall|i: int| 0 <= i < a@.len() implies #[trigger] a@[i] == bytes::u16_at(
                b,
                at + 3 + 2 * i,
            ) by {
                part_lies(parts, 2, b, at + 3, i);
                half_reads(b, at + 3 + 2 * i, a@[i]);
            }
        },
        Container::Bitmap(words) => {
            let parts = word_parts(words@);
            parts_len(parts, 8);
            assert(s.subrange(1, s.len() as int) =~= bytes::joined(parts));
            assert(b.subrange(at + 1, at + s.len()) =~= s.subrange(1, s.len() as int));
            assert forall|i: int| 0 <= i < 1024 implies #[trigger] words@[i] == bytes::u64_at(
                b,
                at + 1 + 8 * i,
            ) by {
                part_lies(parts, 8, b, at + 1, i);
                bytes::le64_roundtrip(words@[i]);
                bytes::section_u64(b, at + 1 + 8 * i, bytes::le64(words@[i]), 0);
            }
        },
        Container::Runs(runs) => {
            let parts = run_parts(runs@);
            parts_len(parts, 4);
            assert(b.subrange(at + 1, at + 3) =~= bytes::le16(runs@.len() as u16)) by {
                assert(s.subrange(1, 3) =~= bytes::le16(runs@.len() as u16));
                assert(b.subrange(at + 1, at + 3) =~= s.subrange(1, 3));
            }
            half_reads(b, at + 1, runs@.len() as u16);
            assert(s.subrange(3, s.len() as int) =~= bytes::joined(parts));
            assert(b.subrange(at + 3, at + s.len()) =~= s.subrange(3, s.len() as int));
            assert forall|i: int| 0 <= i < runs@.len() implies #[trigger] runs@[i] == (
                bytes::u16_at(b, at + 3 + 4 * i),
                bytes::u16_at(b, at + 5 + 4 * i),
            ) by {
                part_lies(parts, 4, b, at + 3, i);
                let p = parts[i];
                assert(p.subrange(0, 2) =~= bytes::le16(runs@[i].0));
                assert(p.subrange(2, 4) =~= bytes::le16(runs@[i].1));
                assert(b.subrange(at + 3 + 4 * i, at + 5 + 4 * i) =~= p.subrange(0, 2));
                assert(b.subrange(at + 5 + 4 * i, at + 7 + 4 * i) =~= p.subrange(2, 4));
                half_reads(b, at + 3 + 4 * i, runs@[i].0);
                half_reads(b, at + 5 + 4 * i, runs@[i].1);
            }
        },
    }
}

} // verus!
