//! Little-endian integers inside byte sequences.
use vstd::prelude::*;

verus! {

/// The `u16` stored at byte `at`.
pub open spec fn u16_at(b: Seq<u8>, at: int) -> u16 {
    (b[at] + 0x100 * b[at + 1]) as u16
}

/// The `u32` stored at byte `at`.
#[verifier::opaque]
pub open spec fn u32_at(b: Seq<u8>, at: int) -> u32 {
    (b[at] + 0x100 * b[at + 1] + 0x1_0000 * b[at + 2] + 0x100_0000 * b[at + 3]) as u32
}

/// The `u64` stored at byte `at`.
#[verifier::opaque]
pub open spec fn u64_at(b: Seq<u8>, at: int) -> u64 {
    (u32_at(b, at) + 0x1_0000_0000 * u32_at(b, at + 4)) as u64
}

/// The two bytes of `x`.
pub open spec fn le16(x: u16) -> Seq<u8> {
    seq![(x % 0x100) as u8, (x / 0x100) as u8]
}

/// The four bytes of `x`.
#[verifier::opaque]
pub open spec fn le32(x: u32) -> Seq<u8> {
    seq![
        (x % 0x100) as u8,
        ((x / 0x100) % 0x100) as u8,
        ((x / 0x1_0000) % 0x100) as u8,
        (x / 0x100_0000) as u8,
    ]
}

/// The eight bytes of `x`.
#[verifier::opaque]
pub open spec fn le64(x: u64) -> Seq<u8> {
    le32((x % 0x1_0000_0000) as u32) + le32((x / 0x1_0000_0000) as u32)
}

/// The words of `xs`, one after the other.
pub open spec fn le32_all(xs: Seq<u32>) -> Seq<u8>
    decreases xs.len(),
{
    if xs.len() == 0 {
        Seq::empty()
    } else {
        le32_all(xs.drop_last()) + le32(xs.last())
    }
}

/// A word has four bytes.
pub broadcast proof fn le32_len(x: u32)
    ensures
        #[trigger] le32(x).len() == 4,
{
    reveal(le32);
}

/// A long word has eight bytes.
pub broadcast proof fn le64_len(x: u64)
    ensures
        #[trigger] le64(x).len() == 8,
{
    reveal(le64);
    reveal(le32);
}

/// Sizes of stored words.
pub broadcast group group_word_sizes {
    le32_len,
    le64_len,
}

/// Writing a `u16` and reading it back gives the same number.
pub proof fn le16_roundtrip(x: u16)
    ensures
        le16(x).len() == 2,
        u16_at(le16(x), 0) == x,
{
}

/// Writing a `u32` and reading it back gives the same number.
pub proof fn le32_roundtrip(x: u32)
    ensures
        le32(x).len() == 4,
        u32_at(le32(x), 0) == x,
{
    reveal(u32_at);
    reveal(le32);
}

/// Writing a `u64` and reading it back gives the same number.
pub proof fn le64_roundtrip(x: u64)
    ensures
        le64(x).len() == 8,
        u64_at(le64(x), 0) == x,
{
    reveal(u64_at);
    reveal(le64);
    let lo = (x % 0x1_0000_0000) as u32;
    let hi = (x / 0x1_0000_0000) as u32;
    le32_roundtrip(lo);
    le32_roundtrip(hi);
    broadcast use group_word_sizes;

    assert(le64(x).subrange(0, 4) =~= le32(lo));
    assert(le64(x).subrange(4, 8) =~= le32(hi));
    section_u32(le64(x), 0, le32(lo), 0);
    section_u32(le64(x), 4, le32(hi), 0);
}

/// Reading a `u32` and writing it back gives the same four bytes.
pub proof fn u32_at_roundtrip(b: Seq<u8>, at: int)
    requires
        0 <= at,
        at + 4 <= b.len(),
    ensures
        le32(u32_at(b, at)) == b.subrange(at, at + 4),
{
    reveal(u32_at);
    reveal(le32);
    let x = u32_at(b, at);
    digits_of(b[at], b[at + 1], b[at + 2], b[at + 3]);
    let s = b.subrange(at, at + 4);
    assert(s[0] == b[at] && s[1] == b[at + 1] && s[2] == b[at + 2] && s[3] == b[at + 3]);
    assert(le32(x)[0] == s[0]);
    assert(le32(x)[1] == s[1]);
    assert(le32(x)[2] == s[2]);
    assert(le32(x)[3] == s[3]);
    assert(le32(x) =~= s);
}

/// Four base-256 digits are recovered from their sum.
proof fn digits_of(a: u8, b: u8, c: u8, d: u8)
    ensures
        ({
            let x = (a + 0x100 * b + 0x1_0000 * c + 0x100_0000 * d) as u32;
            &&& (x % 0x100) as u8 == a
            &&& ((x / 0x100) % 0x100) as u8 == b
            &&& ((x / 0x1_0000) % 0x100) as u8 == c
            &&& (x / 0x100_0000) as u8 == d
        }),
{
    let x: int = a + 0x100 * b + 0x1_0000 * c + 0x100_0000 * d;
    assert(x % 0x100 == a);
    assert(x / 0x100 == b + 0x100 * c + 0x1_0000 * d);
    assert((x / 0x100) % 0x100 == b);
    assert(x / 0x1_0000 == c + 0x100 * d);
    assert((x / 0x1_0000) % 0x100 == c);
    assert(x / 0x100_0000 == d);
}

/// The words written by `le32_all` stand four bytes apart.
pub proof fn le32_all_index(xs: Seq<u32>, i: int)
    requires
        0 <= i < xs.len(),
    ensures
        le32_all(xs).len() == 4 * xs.len(),
        u32_at(le32_all(xs), 4 * i) == xs[i],
    decreases xs.len(),
{
    broadcast use group_word_sizes;

    reveal(u32_at);
    le32_all_len(xs);
    le32_all_len(xs.drop_last());
    if i == xs.len() - 1 {
        le32_roundtrip(xs.last());
    } else {
        le32_all_index(xs.drop_last(), i);
    }
}

/// `le32_all` writes four bytes a word.
pub proof fn le32_all_len(xs: Seq<u32>)
    ensures
        le32_all(xs).len() == 4 * xs.len(),
    decreases xs.len(),
{
    broadcast use group_word_sizes;

    if xs.len() > 0 {
        le32_all_len(xs.drop_last());
    }
}

/// A byte sequence whose words are `xs` is what `le32_all` writes.
pub proof fn le32_all_unique(b: Seq<u8>, xs: Seq<u32>)
    requires
        b.len() == 4 * xs.len(),
        forall|i: int| 0 <= i < xs.len() ==> #[trigger] xs[i] == u32_at(b, 4 * i),
    ensures
        le32_all(xs) == b,
    decreases xs.len(),
{
    reveal(u32_at);
    if xs.len() == 0 {
        assert(le32_all(xs) =~= b);
    } else {
        let n = xs.len() - 1;
        let front = b.subrange(0, 4 * n);
        assert forall|i: int| 0 <= i < xs.drop_last().len() implies
            #[trigger] xs.drop_last()[i] == u32_at(front, 4 * i) by {
            assert(xs[i] == u32_at(b, 4 * i));
        }
        le32_all_unique(front, xs.drop_last());
        u32_at_roundtrip(b, 4 * n);
        assert(xs[n] == u32_at(b, 4 * n));
        assert(b =~= front + b.subrange(4 * n, 4 * n + 4));
    }
}

/// Sum of the lengths of the first `n` parts.
pub open spec fn joined_len(parts: Seq<Seq<u8>>, n: int) -> int
    decreases n,
{
    if n <= 0 {
        0
    } else {
        joined_len(parts, n - 1) + parts[n - 1].len()
    }
}

/// Byte strings one after the other.
pub open spec fn joined(parts: Seq<Seq<u8>>) -> Seq<u8>
    decreases parts.len(),
{
    if parts.len() == 0 {
        Seq::empty()
    } else {
        joined(parts.drop_last()) + parts.last()
    }
}

/// Later parts start later.
pub proof fn joined_len_monotone(parts: Seq<Seq<u8>>, i: int, j: int)
    requires
        0 <= i <= j,
    ensures
        0 <= joined_len(parts, i) <= joined_len(parts, j),
    decreases j,
{
    if i < j {
        joined_len_monotone(parts, i, j - 1);
    } else if i > 0 {
        joined_len_monotone(parts, i - 1, j - 1);
    }
}

/// Every part stands where the lengths before it say.
pub proof fn joined_position(parts: Seq<Seq<u8>>, i: int)
    requires
        0 <= i <= parts.len(),
    ensures
        joined(parts.take(i)).len() == joined_len(parts, i),
        joined(parts.take(i)) == joined(parts).take(joined_len(parts, i)),
        joined(parts).len() == joined_len(parts, parts.len() as int),
        i < parts.len() ==> joined(parts).subrange(
            joined_len(parts, i),
            joined_len(parts, i + 1),
        ) == parts[i],
    decreases parts.len() - i,
{
    joined_prefix_len(parts, i);
    joined_prefix_len(parts, parts.len() as int);
    assert(parts.take(parts.len() as int) =~= parts);
    joined_len_monotone(parts, i, parts.len() as int);
    if i == parts.len() {
        assert(joined(parts).take(joined_len(parts, i)) =~= joined(parts));
    } else {
        joined_position(parts, i + 1);
        joined_len_monotone(parts, i + 1, parts.len() as int);
        assert(parts.take(i + 1).drop_last() =~= parts.take(i));
        let whole = joined(parts);
        let upto = whole.take(joined_len(parts, i + 1));
        assert(joined(parts.take(i + 1)) == joined(parts.take(i)) + parts[i]);
        assert(upto == joined(parts.take(i)) + parts[i]);
        assert(whole.take(joined_len(parts, i)) =~= upto.take(joined_len(parts, i)));
        assert(joined(parts.take(i)) =~= upto.take(joined_len(parts, i)));
        assert(whole.subrange(joined_len(parts, i), joined_len(parts, i + 1))
            =~= upto.subrange(joined_len(parts, i), joined_len(parts, i + 1)));
        assert(upto.subrange(joined_len(parts, i), joined_len(parts, i + 1))
            =~= parts[i]);
    }
}

proof fn joined_prefix_len(parts: Seq<Seq<u8>>, i: int)
    requires
        0 <= i <= parts.len(),
    ensures
        joined(parts.take(i)).len() == joined_len(parts, i),
    decreases i,
{
    if i > 0 {
        joined_prefix_len(parts, i - 1);
        assert(parts.take(i).drop_last() =~= parts.take(i - 1));
    }
}

/// Parts of one size stand at multiples of it.
pub proof fn joined_uniform(parts: Seq<Seq<u8>>, size: int, n: int)
    requires
        0 <= n <= parts.len(),
        forall|i: int| 0 <= i < parts.len() ==> (#[trigger] parts[i]).len() == size,
    ensures
        joined_len(parts, n) == n * size,
    decreases n,
{
    if n > 0 {
        joined_uniform(parts, size, n - 1);
        assert(parts[n - 1].len() == size);
        assert((n - 1) * size + size == n * size) by (nonlinear_arith);
    } else {
        assert(0 * size == 0) by (nonlinear_arith);
    }
}

/// A word inside a section is the word at the section's place.
pub proof fn section_u32(b: Seq<u8>, at: int, section: Seq<u8>, k: int)
    requires
        0 <= at,
        at + section.len() <= b.len(),
        b.subrange(at, at + section.len()) == section,
        0 <= k,
        k + 4 <= section.len(),
    ensures
        u32_at(b, at + k) == u32_at(section, k),
{
    reveal(u32_at);
    assert(section[k] == b[at + k]);
    assert(section[k + 1] == b[at + k + 1]);
    assert(section[k + 2] == b[at + k + 2]);
    assert(section[k + 3] == b[at + k + 3]);
}

/// A long word inside a section is the one at the section's place.
pub proof fn section_u64(b: Seq<u8>, at: int, section: Seq<u8>, k: int)
    requires
        0 <= at,
        at + section.len() <= b.len(),
        b.subrange(at, at + section.len()) == section,
        0 <= k,
        k + 8 <= section.len(),
    ensures
        u64_at(b, at + k) == u64_at(section, k),
{
    reveal(u64_at);
    section_u32(b, at, section, k);
    section_u32(b, at, section, k + 4);
}

/// Read a `u16`.
pub fn get_u16(b: &[u8], at: usize) -> (r: u16)
    requires
        at + 2 <= b.len(),
    ensures
        r == u16_at(b@, at as int),
{
    b[at] as u16 + 0x100 * (b[at + 1] as u16)
}

/// Read a `u32`.
pub fn get_u32(b: &[u8], at: usize) -> (r: u32)
    requires
        at + 4 <= b.len(),
    ensures
        r == u32_at(b@, at as int),
{
    proof {
        reveal(u32_at);
    }
    b[at] as u32 + 0x100 * (b[at + 1] as u32) + 0x1_0000 * (b[at + 2] as u32) + 0x100_0000 * (b[at
        + 3] as u32)
}

/// Read a `u64`.
pub fn get_u64(b: &[u8], at: usize) -> (r: u64)
    requires
        at + 8 <= b.len(),
    ensures
        r == u64_at(b@, at as int),
{
    proof {
        reveal(u64_at);
    }
    get_u32(b, at) as u64 + 0x1_0000_0000 * (get_u32(b, at + 4) as u64)
}

/// Append a `u16`.
pub fn put_u16(out: &mut Vec<u8>, x: u16)
    ensures
        final(out)@ == old(out)@ + le16(x),
{
    let ghost before = out@;
    out.push((x % 0x100) as u8);
    out.push((x / 0x100) as u8);
    proof {
        assert(out@ =~= before + le16(x));
    }
}

/// Append a `u32`.
pub fn put_u32(out: &mut Vec<u8>, x: u32)
    ensures
        final(out)@ == old(out)@ + le32(x),
{
    proof {
        reveal(le32);
    }
    let ghost before = out@;
    out.push((x % 0x100) as u8);
    out.push(((x / 0x100) % 0x100) as u8);
    out.push(((x / 0x1_0000) % 0x100) as u8);
    out.push((x / 0x100_0000) as u8);
    proof {
        assert(out@ =~= before + le32(x));
    }
}

/// Append a `u64`.
pub fn put_u64(out: &mut Vec<u8>, x: u64)
    ensures
        final(out)@ == old(out)@ + le64(x),
{
    proof {
        reveal(le64);
    }
    let ghost before = out@;
    put_u32(out, (x % 0x1_0000_0000) as u32);
    put_u32(out, (x / 0x1_0000_0000) as u32);
    proof {
        assert(out@ =~= before + le64(x));
    }
}

/// Append every word of `xs`.
pub fn put_u32_all(out: &mut Vec<u8>, xs: &[u32])
    ensures
        final(out)@ == old(out)@ + le32_all(xs@),
{
    let ghost before = out@;
    let mut i: usize = 0;
    proof {
        assert(before + le32_all(xs@.take(0)) =~= before);
    }
    while i < xs.len()
        invariant
            i <= xs.len(),
            out@ == before + le32_all(xs@.take(i as int)),
        decreases xs.len() - i,
    {
        put_u32(out, xs[i]);
        proof {
            let next = xs@.take(i + 1);
            assert(next.drop_last() =~= xs@.take(i as int));
            assert(out@ =~= before + le32_all(next));
        }
        i += 1;
    }
    proof {
        assert(xs@.take(xs@.len() as int) =~= xs@);
    }
}

/// Read `n` words from byte `at` on.
pub fn get_u32_all(b: &[u8], at: usize, n: usize) -> (xs: Vec<u32>)
    requires
        at + 4 * n <= b.len(),
    ensures
        xs.len() == n,
        forall|i: int| 0 <= i < n ==> #[trigger] xs@[i] == u32_at(b@, at + 4 * i),
        le32_all(xs@) == b@.subrange(at as int, at + 4 * n),
{
    let mut xs: Vec<u32> = Vec::new();
    let mut i: usize = 0;
    while i < n
        invariant
            i <= n,
            at + 4 * n <= b.len(),
            xs.len() == i,
            forall|k: int| 0 <= k < i ==> #[trigger] xs@[k] == u32_at(b@, at + 4 * k),
        decreases n - i,
    {
        xs.push(get_u32(b, at + 4 * i));
        i += 1;
    }
    proof {
        let part = b@.subrange(at as int, at + 4 * n);
        reveal(u32_at);
        assert forall|k: int| 0 <= k < xs.len() implies #[trigger] xs@[k] == u32_at(part, 4 * k) by {
            assert(xs@[k] == u32_at(b@, at + 4 * k));
        }
        le32_all_unique(part, xs@);
    }
    xs
}

/// Append a slice.
pub fn put_slice(out: &mut Vec<u8>, s: &[u8])
    ensures
        final(out)@ == old(out)@ + s@,
{
    let ghost before = out@;
    let mut i: usize = 0;
    while i < s.len()
        invariant
            i <= s.len(),
            out@ == before + s@.take(i as int),
        decreases s.len() - i,
    {
        out.push(s[i]);
        proof {
            assert(out@ =~= before + s@.take(i + 1));
        }
        i += 1;
    }
    proof {
        assert(s@.take(s@.len() as int) =~= s@);
    }
}

/// Copy the bytes from `from` up to `to`.
pub fn copy_range(b: &[u8], from: usize, to: usize) -> (r: Vec<u8>)
    requires
        from <= to <= b.len(),
    ensures
        r@ == b@.subrange(from as int, to as int),
{
    let mut r: Vec<u8> = Vec::with_capacity(to - from);
    let mut i: usize = from;
    while i < to
        invariant
            from <= i <= to <= b.len(),
            r@ == b@.subrange(from as int, i as int),
        decreases to - i,
    {
        r.push(b[i]);
        proof {
            assert(r@ =~= b@.subrange(from as int, i + 1));
        }
        i += 1;
    }
    r
}

} // verus!
