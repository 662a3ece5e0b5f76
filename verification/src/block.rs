//! One block of up to 128 postings: a header, delta-coded documents and term
//! frequencies.
use crate::bits;
use crate::bytes;
use crate::codec;
use crate::codec::PostingCodec;
use crate::error::PostingError;
use vstd::arithmetic::power2::*;
use vstd::prelude::*;

verus! {

/// The document number of an exhausted iterator.
pub const TERMINATED: u32 = 0xFFFF_FFFF;

/// One encoded block with its directory entry.
#[derive(Debug, Clone)]
pub struct PostingBlock {
    /// First document.
    pub first: u32,
    /// Last document.
    pub last: u32,
    /// The directory's bounds word.
    pub bounds: u32,
    /// Number of postings.
    pub count: u16,
    /// Codec number and width of the document gaps.
    pub doc_bits: u8,
    /// Width of the term frequencies.
    pub tf_bits: u8,
    /// The packed gaps followed by the packed frequencies.
    pub payload: Vec<u8>,
}

/// Whether every element is below the next.
pub open spec fn increasing(s: Seq<u32>) -> bool {
    forall|i: int, j: int| 0 <= i < j < s.len() ==> s[i] < s[j]
}

/// Whether decoded documents are in order and span a directory range.
pub open spec fn docs_valid(docs: Seq<u32>, first: u32, last: u32) -> bool {
    &&& docs.len() > 0
    &&& increasing(docs)
    &&& docs[0] == first
    &&& docs.last() == last
    &&& last != TERMINATED
}

/// Number of stored gaps: a full four-lane block reserves a first one.
pub open spec fn gap_count_spec(codec: PostingCodec, count: int) -> nat {
    if codec == PostingCodec::Simd4x && count == 128 {
        128
    } else {
        (count - 1) as nat
    }
}

/// Length of the gap array at the start of a payload.
pub open spec fn gap_len_spec(codec: PostingCodec, payload: Seq<u8>, count: int, w: u8) -> int {
    if gap_count_spec(codec, count) == 0 {
        0
    } else {
        codec::array_len(codec, payload, gap_count_spec(codec, count), w)
    }
}

impl PostingBlock {
    pub open spec fn codec(self) -> PostingCodec {
        PostingCodec::of_byte(self.doc_bits)
    }

    /// Width of the document gaps.
    pub open spec fn doc_width(self) -> u8 {
        (self.doc_bits % 64) as u8
    }

    /// Number of stored gaps.
    pub open spec fn gap_count(self) -> nat {
        gap_count_spec(self.codec(), self.count as int)
    }

    /// Bytes of the gap array.
    pub open spec fn gap_len(self) -> int {
        gap_len_spec(self.codec(), self.payload@, self.count as int, self.doc_width())
    }

    /// The stored gaps.
    pub open spec fn gap_values(self) -> Seq<u32> {
        codec::array_values(self.codec(), self.payload@, self.gap_count(), self.doc_width())
    }

    /// The term frequencies.
    pub open spec fn tfs(self) -> Seq<u32> {
        codec::array_values(
            self.codec(),
            self.payload@.skip(self.gap_len()),
            self.count as nat,
            self.tf_bits,
        )
    }

    /// Distance from document `k` to the next.
    pub open spec fn step(self, k: int) -> int {
        if self.codec() == PostingCodec::Simd4x {
            if self.count == 128 {
                self.gap_values()[k + 1] + 1
            } else {
                self.gap_values()[k] + 1
            }
        } else {
            self.gap_values()[k] as int
        }
    }

    /// First document plus the first `i` distances.
    pub open spec fn doc_sum(self, i: int) -> int
        decreases i,
    {
        if i <= 0 {
            self.first as int
        } else {
            self.doc_sum(i - 1) + self.step(i - 1)
        }
    }

    /// The documents, as 32-bit sums.
    pub open spec fn docs(self) -> Seq<u32> {
        Seq::new(self.count as nat, |i: int| (self.doc_sum(i) % 0x1_0000_0000) as u32)
    }

    /// Whether the documents can be read: the count and the width are in
    /// range, and the gap array is there.
    pub open spec fn docs_fit(self) -> bool {
        &&& 1 <= self.count <= 128
        &&& self.doc_width() <= 32
        &&& self.gap_count() > 0 ==> codec::array_fits(
            self.codec(),
            self.payload@,
            self.gap_count(),
            self.doc_width(),
        )
    }

    /// Whether the frequencies after the gap array can be read.
    pub open spec fn tfs_fit(self) -> bool {
        &&& self.gap_len() <= self.payload@.len()
        &&& codec::array_fits(
            self.codec(),
            self.payload@.skip(self.gap_len()),
            self.count as nat,
            self.tf_bits,
        )
    }

    /// Whether the block has the shape that its header and directory say.
    pub open spec fn wf(self) -> bool {
        &&& 1 <= self.count <= 128
        &&& self.first <= self.last
        &&& self.last != TERMINATED
        &&& self.count <= self.last - self.first + 1
        &&& self.doc_width() <= 32
        &&& self.codec() == PostingCodec::Rounded ==> codec::is_rounded(self.doc_width())
        &&& self.gap_count() > 0 ==> codec::check_array_spec(
            self.codec(),
            self.payload@,
            self.gap_count(),
            self.doc_width(),
        ) is Ok
        &&& 0 <= self.gap_len() <= self.payload@.len()
        &&& codec::check_array_spec(
            self.codec(),
            self.payload@.skip(self.gap_len()),
            self.count as nat,
            self.tf_bits,
        ) == Ok::<int, PostingError>(self.payload@.len() - self.gap_len())
    }

    /// Whether a reserved first gap is zero.
    pub open spec fn first_gap_is_zero(self) -> bool {
        self.codec() == PostingCodec::Simd4x && self.count == 128 ==> self.gap_values()[0] == 0
    }

    /// Whether the decoded documents are in order and span the directory
    /// range.
    pub open spec fn sound(self) -> bool {
        &&& self.first_gap_is_zero()
        &&& docs_valid(self.docs(), self.first, self.last)
    }

    /// The eight header bytes.
    pub open spec fn header(self) -> Seq<u8> {
        bytes::le16(self.count) + bytes::le32(self.first) + seq![self.doc_bits, self.tf_bits]
    }

    /// Header and payload.
    pub open spec fn framed(self) -> Seq<u8> {
        self.header() + self.payload@
    }

    /// The four bytes that a compact directory keeps of the header.
    pub open spec fn descriptor(self) -> Seq<u8> {
        bytes::le16(self.count) + seq![self.doc_bits, self.tf_bits]
    }
}

/// Posting count of a framed block, or why the block is refused.
#[verifier::opaque]
pub open spec fn check_block_spec(stream: Seq<u8>, first: u32, last: u32) -> Result<
    int,
    PostingError,
> {
    let count = bytes::u16_at(stream, 0) as int;
    let codec = PostingCodec::of_byte(stream[6]);
    let w = (stream[6] % 64) as u8;
    let payload = stream.skip(8);
    let n = gap_count_spec(codec, count);
    let gaps = if n == 0 {
        Ok(0int)
    } else {
        codec::check_array_spec(codec, payload, n, w)
    };
    if stream.len() < 8 {
        Err(PostingError::HeaderTruncated)
    } else if first > last || last == TERMINATED || count == 0 || count > 128 || count > last
        - first + 1 || bytes::u32_at(stream, 2) != first {
        Err(PostingError::HeaderMismatch)
    } else if w > 32 {
        Err(PostingError::DocWidth(w))
    } else if codec == PostingCodec::Rounded && !codec::is_rounded(w) {
        Err(PostingError::RoundedWidth)
    } else if gaps is Err {
        gaps
    } else if codec == PostingCodec::Simd4x && count == 128 && codec::array_values(
        codec,
        payload,
        n,
        w,
    )[0] != 0 {
        Err(PostingError::FirstGap)
    } else {
        let tfs = codec::check_array_spec(codec, payload.skip(gaps->Ok_0), count as nat, stream[7]);
        if tfs is Err {
            tfs
        } else if 8 + gaps->Ok_0 + tfs->Ok_0 != stream.len() {
            Err(PostingError::PayloadLength)
        } else {
            Ok(count)
        }
    }
}

/// Posting count of a compact descriptor, or why it is refused.
#[verifier::opaque]
pub open spec fn check_descriptor_spec(
    header: Seq<u8>,
    first: u32,
    last: u32,
    payload_bytes: int,
) -> Result<int, PostingError> {
    let count = bytes::u16_at(header, 0) as int;
    let codec = PostingCodec::of_byte(header[2]);
    let w = (header[2] % 64) as u8;
    let tw = header[3];
    if first > last || last == TERMINATED || count == 0 || count > 128 || count > last - first
        + 1 {
        Err(PostingError::CompactRange)
    } else if w > 32 {
        Err(PostingError::DocWidth(w))
    } else if codec == PostingCodec::Pfor || tw > 32 || (codec == PostingCodec::Rounded && (
    !codec::is_rounded(w) || !codec::is_rounded(tw))) {
        Err(PostingError::CompactCodec)
    } else if bits::packed_len(gap_count_spec(codec, count), w as nat) + bits::packed_len(
        count as nat,
        tw as nat,
    ) != payload_bytes {
        Err(PostingError::CompactLength)
    } else {
        Ok(count)
    }
}

/// Check a framed block against its directory range; gives its posting count.
pub fn validate_block(stream: &[u8], first: u32, last: u32) -> (r: Result<usize, PostingError>)
    ensures
        codec::same_outcome(r, check_block_spec(stream@, first, last)),
        r matches Ok(n) ==> n <= 128,
{
    proof {
        reveal(check_block_spec);
    }
    if stream.len() < 8 {
        return Err(PostingError::HeaderTruncated);
    }
    let count: usize = bytes::get_u16(stream, 0) as usize;
    if first > last || last == TERMINATED || count == 0 || count > 128 || count as u64 > last as u64
        - first as u64 + 1 || bytes::get_u32(stream, 2) != first {
        return Err(PostingError::HeaderMismatch);
    }
    let (codec, w): (PostingCodec, u8) = match PostingCodec::from_header_byte(stream[6]) {
        Ok(pair) => pair,
        Err(error) => {
            return Err(error);
        },
    };
    if codec == PostingCodec::Rounded && !(w == 0 || w == 8 || w == 16 || w == 32) {
        return Err(PostingError::RoundedWidth);
    }
    let payload = vstd::slice::slice_subrange(stream, 8, stream.len());
    proof {
        assert(payload@ =~= stream@.skip(8));
    }
    let n: usize = if codec == PostingCodec::Simd4x && count == 128 {
        128
    } else {
        count - 1
    };
    let gaps: usize = if n == 0 {
        0
    } else {
        match codec::check_array(codec, payload, n, w) {
            Ok(len) => len,
            Err(error) => {
                return Err(error);
            },
        }
    };
    if codec == PostingCodec::Simd4x && count == 128 {
        if crate::pack::unpack_one(crate::pack::Layout::Lanes, payload, w, 128, 0) != 0 {
            return Err(PostingError::FirstGap);
        }
    }
    let rest = vstd::slice::slice_subrange(payload, gaps, payload.len());
    proof {
        assert(rest@ =~= payload@.skip(gaps as int));
    }
    let tfs: usize = match codec::check_array(codec, rest, count, stream[7]) {
        Ok(len) => len,
        Err(error) => {
            return Err(error);
        },
    };
    if gaps + tfs != payload.len() {
        return Err(PostingError::PayloadLength);
    }
    Ok(count)
}

/// Check a compact descriptor against its directory range and payload length;
/// gives its posting count.
pub fn validate_descriptor(header: &[u8], first: u32, last: u32, payload_bytes: usize) -> (r: Result<
    usize,
    PostingError,
>)
    requires
        header.len() >= 4,
    ensures
        codec::same_outcome(
            r,
            check_descriptor_spec(header@, first, last, payload_bytes as int),
        ),
        r matches Ok(n) ==> n <= 128,
{
    proof {
        reveal(check_descriptor_spec);
    }
    let count: usize = bytes::get_u16(header, 0) as usize;
    if first > last || last == TERMINATED || count == 0 || count > 128 || count as u64 > last as u64
        - first as u64 + 1 {
        return Err(PostingError::CompactRange);
    }
    let (codec, w): (PostingCodec, u8) = match PostingCodec::from_header_byte(header[2]) {
        Ok(pair) => pair,
        Err(error) => {
            return Err(error);
        },
    };
    let tw: u8 = header[3];
    if codec == PostingCodec::Pfor || tw > 32 || (codec == PostingCodec::Rounded && (!(w == 0 || w
        == 8 || w == 16 || w == 32) || !(tw == 0 || tw == 8 || tw == 16 || tw == 32))) {
        return Err(PostingError::CompactCodec);
    }
    let n: usize = if codec == PostingCodec::Simd4x && count == 128 {
        128
    } else {
        count - 1
    };
    let gap_bytes: usize = bits::packed_bytes(n, w);
    let tf_bytes: usize = bits::packed_bytes(count, tw);
    proof {
        assert(n <= 128);
        assert(gap_bytes <= n * 32);
        assert(gap_bytes <= 4096);
        assert(tf_bytes <= 4096);
    }
    if gap_bytes + tf_bytes != payload_bytes {
        return Err(PostingError::CompactLength);
    }
    Ok(count)
}

/// A framed block that passes the check is well formed.
pub proof fn checked_block_wf(b: PostingBlock, stream: Seq<u8>)
    requires
        check_block_spec(stream, b.first, b.last) is Ok,
        b.count == bytes::u16_at(stream, 0),
        b.doc_bits == stream[6],
        b.tf_bits == stream[7],
        b.payload@ == stream.skip(8),
    ensures
        b.wf(),
        b.first_gap_is_zero(),
        b.framed() == stream,
        stream.len() >= 8,
        check_block_spec(stream, b.first, b.last)->Ok_0 == b.count,
{
    reveal(check_block_spec);
    let header = stream.take(8);
    assert(bytes::le16(b.count) =~= stream.subrange(0, 2)) by {
        let x: int = stream[0] + 0x100 * stream[1];
        assert(x % 0x100 == stream[0] && x / 0x100 == stream[1]);
    }
    bytes::u32_at_roundtrip(stream, 2);
    assert(b.framed() =~= stream);
}

/// A compact block that passes the check is well formed.
pub proof fn checked_descriptor_wf(b: PostingBlock, header: Seq<u8>)
    requires
        header.len() == 4,
        check_descriptor_spec(header, b.first, b.last, b.payload@.len() as int) is Ok,
        b.count == bytes::u16_at(header, 0),
        b.doc_bits == header[2],
        b.tf_bits == header[3],
    ensures
        b.wf(),
        b.codec() != PostingCodec::Pfor,
        b.descriptor() == header,
        check_descriptor_spec(header, b.first, b.last, b.payload@.len() as int)->Ok_0 == b.count,
{
    reveal(check_descriptor_spec);
    assert(bytes::le16(b.count) =~= header.subrange(0, 2)) by {
        let x: int = header[0] + 0x100 * header[1];
        assert(x % 0x100 == header[0] && x / 0x100 == header[1]);
    }
    assert(b.descriptor() =~= header);
    if b.gap_count() == 0 {
        assert(0 * b.doc_width() == 0) by (nonlinear_arith);
        assert(bits::packed_len(0, b.doc_width() as nat) == 0);
    }
}

/// A framed block that passes the check has a header.
pub proof fn checked_block_len(stream: Seq<u8>, first: u32, last: u32)
    requires
        check_block_spec(stream, first, last) is Ok,
    ensures
        stream.len() >= 8,
{
    reveal(check_block_spec);
}

/// The framed form of a well-formed block passes the check.
pub proof fn framed_block_checks(b: PostingBlock)
    requires
        b.wf(),
        b.first_gap_is_zero(),
    ensures
        check_block_spec(b.framed(), b.first, b.last) == Ok::<int, PostingError>(b.count as int),
        b.framed().len() == 8 + b.payload@.len(),
        b.framed().skip(8) == b.payload@,
{
    broadcast use bytes::group_word_sizes;

    reveal(check_block_spec);
    let s = b.framed();
    bytes::le16_roundtrip(b.count);
    bytes::le32_roundtrip(b.first);
    assert(bytes::u16_at(s, 0) == b.count);
    assert(bytes::u32_at(s, 2) == b.first) by {
        broadcast use bytes::group_word_sizes;

        assert(s.subrange(2, 6) =~= bytes::le32(b.first));
        bytes::section_u32(s, 2, bytes::le32(b.first), 0);
    }
    assert(s[6] == b.doc_bits && s[7] == b.tf_bits);
    assert(s.skip(8) =~= b.payload@);
}

/// The compact descriptor of a well-formed block passes the check.
pub proof fn descriptor_checks(b: PostingBlock)
    requires
        b.wf(),
        b.codec() != PostingCodec::Pfor,
    ensures
        check_descriptor_spec(b.descriptor(), b.first, b.last, b.payload@.len() as int) == Ok::<
            int,
            PostingError,
        >(b.count as int),
{
    reveal(check_descriptor_spec);
    let d = b.descriptor();
    bytes::le16_roundtrip(b.count);
    assert(bytes::u16_at(d, 0) == b.count);
    assert(d[2] == b.doc_bits && d[3] == b.tf_bits);
    if b.gap_count() == 0 {
        assert(0 * b.doc_width() == 0) by (nonlinear_arith);
        assert(bits::packed_len(0, b.doc_width() as nat) == 0);
    }
}

/// Prefix sums of positive steps stay in order as long as the ends do.
proof fn sums_in_order(docs: Seq<u32>, steps: spec_fn(int) -> int, bound: int)
    requires
        0 < docs.len() <= 128,
        0 < bound <= 0x200_0000,
        docs[0] <= docs.last(),
        forall|i: int| 0 <= i < docs.len() - 1 ==> 0 < #[trigger] steps(i) <= bound,
        forall|i: int|
            0 <= i < docs.len() - 1 ==> docs[i + 1] == (docs[i] + #[trigger] steps(i))
                % 0x1_0000_0000,
    ensures
        increasing(docs),
{
    let n = docs.len() as int;
    assert forall|i: int, j: int| 0 <= i < j < n implies docs[i] < docs[j] by {
        total_sum(docs, steps, bound, i);
        total_sum(docs, steps, bound, j);
        total_sum(docs, steps, bound, n - 1);
        sum_monotone(steps, bound, n, i, j);
        sum_monotone(steps, bound, n, j, n - 1);
    }
}

/// Sum of the first `i` steps.
spec fn step_sum(steps: spec_fn(int) -> int, i: int) -> int
    decreases i,
{
    if i <= 0 {
        0
    } else {
        step_sum(steps, i - 1) + steps(i - 1)
    }
}

proof fn sum_monotone(steps: spec_fn(int) -> int, bound: int, n: int, i: int, j: int)
    requires
        0 <= i <= j < n,
        forall|k: int| 0 <= k < n - 1 ==> 0 < #[trigger] steps(k) <= bound,
    ensures
        step_sum(steps, j) - step_sum(steps, i) >= j - i,
    decreases j,
{
    if i < j {
        sum_monotone(steps, bound, n, i, j - 1);
        assert(0 < steps(j - 1));
    }
}

proof fn total_sum(docs: Seq<u32>, steps: spec_fn(int) -> int, bound: int, i: int)
    requires
        0 <= i < docs.len() <= 128,
        0 < bound <= 0x200_0000,
        forall|i: int| 0 <= i < docs.len() - 1 ==> 0 < #[trigger] steps(i) <= bound,
        forall|i: int|
            0 <= i < docs.len() - 1 ==> docs[i + 1] == (docs[i] + #[trigger] steps(i))
                % 0x1_0000_0000,
    ensures
        0 <= step_sum(steps, i) <= i * 0x200_0000,
        docs[i] == (docs[0] + step_sum(steps, i)) % 0x1_0000_0000,
    decreases i,
{
    if i > 0 {
        total_sum(docs, steps, bound, i - 1);
        assert(0 < steps(i - 1) <= bound);
        assert(docs[i - 1 + 1] == (docs[i - 1] + steps(i - 1)) % 0x1_0000_0000);
    }
}

/// Whether documents are 32-bit prefix sums of `gaps`.
pub open spec fn gaps_of(docs: Seq<u32>, gaps: Seq<u8>) -> bool {
    &&& gaps.len() + 1 == docs.len()
    &&& forall|i: int|
        0 <= i < gaps.len() ==> docs[i + 1] == (docs[i] + #[trigger] gaps[i]) % 0x1_0000_0000
}

/// Distance to the next document, modulo `2^32`.
pub open spec fn gap_after(docs: Seq<u32>, i: int) -> int {
    (docs[i + 1] - docs[i]) % 0x1_0000_0000
}

/// Content check of decoded documents: strictly increasing and spanning
/// exactly the directory range. Byte-sized gaps, or gaps known to be positive
/// and below `2^25`, make the ends enough.
pub fn verify_block_docs(
    docs: &[u32],
    first: u32,
    last: u32,
    byte_gaps: Option<&[u8]>,
    strict_gap_width: Option<u8>,
) -> (r: bool)
    requires
        docs.len() <= 128,
        strict_gap_width is Some && strict_gap_width->Some_0 <= 25 ==> forall|i: int|
            0 <= i < docs.len() - 1 ==> 0 < #[trigger] gap_after(docs@, i) <= pow2(
                strict_gap_width->Some_0 as nat,
            ),
        !(strict_gap_width is Some && strict_gap_width->Some_0 <= 25) && byte_gaps is Some
            ==> gaps_of(docs@, byte_gaps->Some_0@),
    ensures
        r == docs_valid(docs@, first, last),
{
    let n: usize = docs.len();
    if n == 0 {
        return false;
    }
    let ends: bool = first <= last && last != TERMINATED && docs[0] == first && docs[n - 1] == last;
    let strict: bool = match strict_gap_width {
        Some(width) => width <= 25,
        None => false,
    };
    if strict {
        proof {
            if ends {
                let width = strict_gap_width->Some_0;
                let steps = |i: int| gap_after(docs@, i);
                lemma2_to64();
                if width < 25 {
                    lemma_pow2_strictly_increases(width as nat, 25);
                }
                assert forall|i: int| 0 <= i < docs.len() - 1 implies docs@[i + 1] == (docs@[i]
                    + #[trigger] steps(i)) % 0x1_0000_0000 by {
                    assert(0 < gap_after(docs@, i));
                }
                assert forall|i: int| 0 <= i < docs.len() - 1 implies 0 < #[trigger] steps(i)
                    <= 0x200_0000 by {
                    assert(0 < gap_after(docs@, i) <= pow2(width as nat));
                }
                sums_in_order(docs@, steps, 0x200_0000);
            } else if docs_valid(docs@, first, last) && n > 1 {
                assert(docs@[0] < docs@[n - 1]);
            }
        }
        return ends;
    }
    match byte_gaps {
        Some(gaps) => {
            let mut i: usize = 0;
            while i < gaps.len()
                invariant
                    i <= gaps.len(),
                    gaps_of(docs@, gaps@),
                    forall|k: int| 0 <= k < i ==> #[trigger] gaps@[k] != 0,
                decreases gaps.len() - i,
            {
                if gaps[i] == 0 {
                    proof {
                        assert(docs@[i + 1] == (docs@[i as int] + gaps@[i as int])
                            % 0x1_0000_0000);
                        assert(docs@[i as int] == docs@[i + 1]);
                    }
                    return false;
                }
                i += 1;
            }
            proof {
                if ends {
                    let steps = |i: int| gaps@[i] as int;
                    sums_in_order(docs@, steps, 0x200_0000);
                } else if docs_valid(docs@, first, last) && n > 1 {
                    assert(docs@[0] < docs@[n - 1]);
                }
            }
            ends
        },
        None => {
            let mut i: usize = 1;
            while i < n
                invariant
                    1 <= i <= n,
                    n == docs.len(),
                    forall|a: int, b: int| 0 <= a < b < i ==> docs@[a] < docs@[b],
                decreases n - i,
            {
                if docs[i - 1] >= docs[i] {
                    return false;
                }
                proof {
                    assert forall|a: int, b: int| 0 <= a < b < i + 1 implies docs@[a]
                        < docs@[b] by {
                        if b == i && a < i - 1 {
                            assert(docs@[a] < docs@[i - 1]);
                        }
                    }
                }
                i += 1;
            }
            proof {
                if !ends && docs_valid(docs@, first, last) && n > 1 {
                    assert(docs@[0] < docs@[n - 1]);
                }
            }
            ends
        },
    }
}

} // verus!
