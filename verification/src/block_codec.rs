//! Encoding and decoding of whole posting blocks.
use crate::bits;
use crate::block;
use crate::block::PostingBlock;
use crate::block::TERMINATED;
use crate::codec;
use crate::codec::PostingCodec;
use crate::encode;
use crate::error::PostingError;
use crate::pack;
use crate::pack::Layout;
use vstd::arithmetic::power2::*;
use vstd::prelude::*;

verus! {

/// The gaps that a block with these documents stores.
pub open spec fn stored_gaps(codec: PostingCodec, docs: Seq<u32>) -> Seq<u32> {
    if codec == PostingCodec::Simd4x {
        Seq::new(
            docs.len(),
            |i: int|
                if i == 0 {
                    0
                } else {
                    (docs[i] - docs[i - 1] - 1) as u32
                },
        )
    } else {
        Seq::new((docs.len() - 1) as nat, |i: int| (docs[i + 1] - docs[i]) as u32)
    }
}

/// The gap array of a block: absent for a single posting.
pub open spec fn gap_array(codec: PostingCodec, gaps: Seq<u32>) -> Seq<u8> {
    if gaps.len() == 0 {
        Seq::empty()
    } else {
        encode::encoded_array(codec, gaps)
    }
}

/// The width of the gap array of a block.
pub open spec fn gap_width(codec: PostingCodec, gaps: Seq<u32>) -> u8 {
    if gaps.len() == 0 {
        0
    } else {
        encode::encoded_width(codec, gaps)
    }
}

/// The block that `codec` makes of these documents and frequencies.
#[verifier::opaque]
pub open spec fn is_encoding(b: PostingBlock, codec: PostingCodec, docs: Seq<u32>, tfs: Seq<u32>) -> bool {
    let c = codec.for_count_spec(docs.len() as int);
    let gaps = stored_gaps(c, docs);
    &&& b.first == docs[0]
    &&& b.last == docs.last()
    &&& b.count == docs.len()
    &&& b.doc_bits == c.header_byte_spec(gap_width(c, gaps))
    &&& b.tf_bits == encode::encoded_width(c, tfs)
    &&& b.payload@ == gap_array(c, gaps) + encode::encoded_array(c, tfs)
}

/// Documents that a block can hold.
pub open spec fn encodable(docs: Seq<u32>) -> bool {
    &&& 1 <= docs.len() <= 128
    &&& block::increasing(docs)
    &&& docs.last() != TERMINATED
}

/// A byte-wide row is the byte itself.
proof fn byte_row(bytes: Seq<u8>, i: int)
    requires
        0 <= i < bytes.len(),
    ensures
        pack::unpacked(Layout::Rows, bytes, 8, i) == bytes[i],
{
    let f = |j: int| pack::stream_bit(bytes, Layout::Rows.position(8, i, j));
    let g = |j: int| bits::bit(bytes[i] as nat, j as nat);
    assert forall|j: int| 0 <= j < 8 implies #[trigger] f(j) == g(j) by {
        assert((i * 8 + j) / 8 == i);
        assert((i * 8 + j) % 8 == j);
    }
    bits::from_bits_ext(f, g, 8);
    bits::from_bits_of(bytes[i] as nat, 8);
    lemma2_to64();
}

/// Steps of strictly increasing documents add up to the documents.
proof fn sums_are_docs(b: PostingBlock, docs: Seq<u32>, i: int)
    requires
        0 <= i < docs.len(),
        b.first == docs[0],
        forall|k: int| 0 <= k < docs.len() - 1 ==> #[trigger] b.step(k) == docs[k + 1] - docs[k],
    ensures
        b.doc_sum(i) == docs[i],
    decreases i,
{
    if i > 0 {
        sums_are_docs(b, docs, i - 1);
        assert(b.step(i - 1) == docs[i - 1 + 1] - docs[i - 1]);
    }
}

/// A 32-bit sum can be reduced at every step.
proof fn wrapped_sum(a: int, s: int)
    ensures
        (a % 0x1_0000_0000 + s) % 0x1_0000_0000 == (a + s) % 0x1_0000_0000,
        0 <= s < 0x1_0000_0000 ==> ((a + s) % 0x1_0000_0000 - a % 0x1_0000_0000) % 0x1_0000_0000
            == s,
{
}

/// The header byte of a block gives its codec and width back.
proof fn header_parts(c: PostingCodec, w: u8)
    requires
        w <= 32,
    ensures
        PostingCodec::of_byte(c.header_byte_spec(w)) == c,
        c.header_byte_spec(w) % 64 == w,
{
}

/// Both arrays of an encoded block are where decoding looks for them.
proof fn encoded_arrays(b: PostingBlock, c: PostingCodec, gaps: Seq<u32>, tfs: Seq<u32>)
    requires
        1 <= tfs.len() <= 128,
        b.count == tfs.len(),
        gaps.len() == block::gap_count_spec(c, tfs.len() as int),
        b.doc_bits == c.header_byte_spec(gap_width(c, gaps)),
        b.tf_bits == encode::encoded_width(c, tfs),
        b.payload@ == gap_array(c, gaps) + encode::encoded_array(c, tfs),
        c == PostingCodec::Pfor ==> exists|w: u8| encode::is_pfor_width(tfs, w),
        c == PostingCodec::Pfor && gaps.len() > 0 ==> exists|w: u8|
            encode::is_pfor_width(gaps, w),
    ensures
        b.codec() == c,
        b.doc_width() <= 32,
        c == PostingCodec::Rounded ==> codec::is_rounded(b.doc_width()),
        gaps.len() > 0 ==> codec::check_array_spec(c, b.payload@, gaps.len(), b.doc_width()) is Ok,
        gaps.len() > 0 ==> b.gap_values() == gaps,
        b.gap_len() == gap_array(c, gaps).len(),
        codec::check_array_spec(c, b.payload@.skip(b.gap_len()), tfs.len(), b.tf_bits) == Ok::<
            int,
            PostingError,
        >(b.payload@.len() - b.gap_len()),
        b.tfs() == tfs,
{
    let ga = gap_array(c, gaps);
    let ta = encode::encoded_array(c, tfs);
    if gaps.len() > 0 {
        encode::array_roundtrip(c, gaps, ta);
    }
    header_parts(c, gap_width(c, gaps));
    assert(ta + Seq::<u8>::empty() =~= ta);
    encode::array_roundtrip(c, tfs, Seq::empty());
    assert(b.payload@.skip(ga.len() as int) =~= ta);
}

/// The gaps of increasing documents decode to those documents.
proof fn decoded_gaps(b: PostingBlock, docs: Seq<u32>)
    requires
        encodable(docs),
        b.first == docs[0],
        b.count == docs.len(),
        b.codec() == PostingCodec::Simd4x ==> docs.len() == 128,
        b.codec() == PostingCodec::Simd4x || docs.len() > 1 ==> b.gap_values() == stored_gaps(
            b.codec(),
            docs,
        ),
    ensures
        b.docs() == docs,
        b.first_gap_is_zero(),
{
    let n = docs.len() as int;
    assert forall|k: int| 0 <= k < n - 1 implies #[trigger] b.step(k) == docs[k + 1]
        - docs[k] by {
        assert(docs[k] < docs[k + 1]);
        let gaps = stored_gaps(b.codec(), docs);
        if b.codec() == PostingCodec::Simd4x {
            assert(gaps[k + 1] == (docs[k + 1] - docs[k] - 1) as u32);
        } else {
            assert(gaps[k] == (docs[k + 1] - docs[k]) as u32);
        }
    }
    assert forall|i: int| 0 <= i < n implies b.docs()[i] == docs[i] by {
        sums_are_docs(b, docs, i);
    }
    assert(b.docs() =~= docs);
}

/// A block decodes to the postings it was made of, and passes every check.
pub proof fn block_roundtrip(b: PostingBlock, codec: PostingCodec, docs: Seq<u32>, tfs: Seq<u32>)
    requires
        encodable(docs),
        tfs.len() == docs.len(),
        is_encoding(b, codec, docs, tfs),
        codec.for_count_spec(docs.len() as int) == PostingCodec::Pfor ==> exists|w: u8|
            encode::is_pfor_width(tfs, w),
        codec.for_count_spec(docs.len() as int) == PostingCodec::Pfor && docs.len() > 1
            ==> exists|w: u8|
            encode::is_pfor_width(stored_gaps(PostingCodec::Pfor, docs), w),
    ensures
        b.wf(),
        b.sound(),
        b.codec() == codec.for_count_spec(docs.len() as int),
        b.docs() == docs,
        b.tfs() == tfs,
{
    reveal(is_encoding);
    let c = codec.for_count_spec(docs.len() as int);
    encoded_arrays(b, c, stored_gaps(c, docs), tfs);
    decoded_gaps(b, docs);
    span_holds_count(docs, docs.len() - 1);
}

/// Strictly increasing documents need room for each of them.
proof fn span_holds_count(docs: Seq<u32>, i: int)
    requires
        block::increasing(docs),
        0 <= i < docs.len(),
    ensures
        docs[i] - docs[0] >= i,
    decreases i,
{
    if i > 0 {
        span_holds_count(docs, i - 1);
        assert(docs[i - 1] < docs[i]);
    }
}

/// Encode one block; the bounds word is stored as given.
pub fn encode_block(codec: PostingCodec, docs: &[u32], tfs: &[u32], bounds: u32) -> (b: PostingBlock)
    requires
        encodable(docs@),
        tfs.len() == docs.len(),
    ensures
        is_encoding(b, codec, docs@, tfs@),
        b.bounds == bounds,
        b.wf(),
        b.sound(),
        b.codec() == codec.for_count_spec(docs@.len() as int),
        b.docs() == docs@,
        b.tfs() == tfs@,
{
    let n: usize = docs.len();
    let c = codec.for_count(n);
    let mut gaps: Vec<u32> = Vec::with_capacity(n);
    if c == PostingCodec::Simd4x {
        gaps.push(0);
    }
    let mut i: usize = 1;
    while i < n
        invariant
            1 <= i <= n,
            n == docs.len(),
            block::increasing(docs@),
            gaps.len() == (if c == PostingCodec::Simd4x {
                i as int
            } else {
                i - 1
            }),
            forall|k: int|
                0 <= k < gaps.len() ==> #[trigger] gaps@[k] == (if c == PostingCodec::Simd4x {
                    if k == 0 {
                        0
                    } else {
                        docs@[k] - docs@[k - 1] - 1
                    }
                } else {
                    docs@[k + 1] - docs@[k]
                }),
        decreases n - i,
    {
        proof {
            assert(docs@[i - 1] < docs@[i as int]);
        }
        let gap: u32 = docs[i] - docs[i - 1];
        if c == PostingCodec::Simd4x {
            gaps.push(gap - 1);
        } else {
            gaps.push(gap);
        }
        i += 1;
    }
    proof {
        assert(gaps@ =~= stored_gaps(c, docs@));
    }
    let mut payload: Vec<u8> = Vec::new();
    let width: u8 = if gaps.len() == 0 {
        0
    } else {
        encode::encode_array(c, &gaps, &mut payload)
    };
    proof {
        assert(payload@ =~= gap_array(c, gaps@));
    }
    let tf_bits: u8 = encode::encode_array(c, tfs, &mut payload);
    let b = PostingBlock {
        first: docs[0],
        last: docs[n - 1],
        bounds,
        count: n as u16,
        doc_bits: c.header_byte(width),
        tf_bits,
        payload,
    };
    proof {
        reveal(is_encoding);
        block_roundtrip(b, codec, docs@, tfs@);
    }
    b
}

/// The document after `prev`, as a 32-bit sum.
fn next_doc(prev: u32, gap: u32, minus_one: bool) -> (r: u32)
    ensures
        r == (prev + gap + if minus_one {
            1int
        } else {
            0
        }) % 0x1_0000_0000,
{
    let next: u32 = prev.wrapping_add(gap);
    if minus_one {
        next.wrapping_add(1)
    } else {
        next
    }
}

impl PostingBlock {
    /// The codec and document width.
    pub fn parts(&self) -> (r: (PostingCodec, u8))
        requires
            self.doc_width() <= 32,
        ensures
            r == (self.codec(), self.doc_width()),
    {
        match PostingCodec::from_header_byte(self.doc_bits) {
            Ok(pair) => pair,
            Err(_) => (PostingCodec::Rounded, 0),
        }
    }

    /// Bytes of the gap array.
    pub fn gap_bytes(&self) -> (r: usize)
        requires
            self.docs_fit(),
        ensures
            r == self.gap_len(),
    {
        let (c, w): (PostingCodec, u8) = self.parts();
        let count: usize = self.count as usize;
        let n: usize = if c == PostingCodec::Simd4x && count == 128 {
            128
        } else {
            count - 1
        };
        if n == 0 {
            return 0;
        }
        let low: usize = bits::packed_bytes(n, w);
        if c == PostingCodec::Pfor {
            1 + low + 5 * (self.payload[0] as usize)
        } else {
            low
        }
    }

    /// Decode the stored gaps.
    fn decode_gaps(&self) -> (r: Vec<u32>)
        requires
            self.docs_fit(),
            self.gap_count() > 0,
        ensures
            r@ == self.gap_values(),
    {
        let (c, w): (PostingCodec, u8) = self.parts();
        let count: usize = self.count as usize;
        let n: usize = if c == PostingCodec::Simd4x && count == 128 {
            128
        } else {
            count - 1
        };
        codec::decode_array(c, self.payload.as_slice(), n, w)
    }

    /// Decode the documents without checking their order.
    pub fn decode_docs(&self) -> (docs: Vec<u32>)
        requires
            self.docs_fit(),
        ensures
            docs@ == self.docs(),
    {
        let count: usize = self.count as usize;
        let mut docs: Vec<u32> = Vec::with_capacity(count);
        docs.push(self.first);
        if count > 1 {
            let (c, _w): (PostingCodec, u8) = self.parts();
            let gaps = self.decode_gaps();
            let simd: bool = c == PostingCodec::Simd4x;
            let skip: usize = if simd && count == 128 {
                1
            } else {
                0
            };
            let mut i: usize = 1;
            while i < count
                invariant
                    1 <= i <= count,
                    count == self.count,
                    count <= 128,
                    c == self.codec(),
                    simd == (c == PostingCodec::Simd4x),
                    skip == (if simd && count == 128 {
                        1int
                    } else {
                        0
                    }),
                    gaps@ == self.gap_values(),
                    gaps.len() == self.gap_count(),
                    docs.len() == i,
                    forall|k: int|
                        0 <= k < i ==> #[trigger] docs@[k] == (self.doc_sum(k) % 0x1_0000_0000) as u32,
                decreases count - i,
            {
                let next: u32 = next_doc(docs[i - 1], gaps[i - 1 + skip], simd);
                proof {
                    assert(self.gap_values()[i - 1 + skip] == gaps@[i - 1 + skip]);
                    assert(docs@[i - 1] == (self.doc_sum(i - 1) % 0x1_0000_0000) as u32);
                    wrapped_sum(self.doc_sum(i - 1), self.step(i - 1));
                    assert(next == (docs@[i - 1] + self.step(i - 1)) % 0x1_0000_0000);
                }
                docs.push(next);
                i += 1;
            }
        }
        proof {
            assert(docs@ =~= self.docs());
        }
        docs
    }

    /// Decode the documents and check them against the directory range.
    pub fn decode_docs_checked(&self) -> (r: Result<Vec<u32>, PostingError>)
        requires
            self.wf(),
        ensures
            r is Ok <==> self.sound(),
            r matches Ok(docs) ==> docs@ == self.docs(),
            r matches Err(error) ==> error == (if self.first_gap_is_zero() {
                PostingError::DocsLeaveRange(self.first, self.last)
            } else {
                PostingError::FirstGap
            }),
    {
        let (c, w): (PostingCodec, u8) = self.parts();
        let count: usize = self.count as usize;
        if c == PostingCodec::Simd4x && count == 128 {
            if pack::unpack_one(Layout::Lanes, self.payload.as_slice(), w, 128, 0) != 0 {
                return Err(PostingError::FirstGap);
            }
        }
        let docs = self.decode_docs();
        let strict: Option<u8> = if c == PostingCodec::Simd4x {
            Some(w)
        } else {
            None
        };
        proof {
            assert(bits::packed_len((count - 1) as nat, 8) == count - 1);
        }
        let gaps: Option<&[u8]> = if self.doc_bits == 8 {
            Some(vstd::slice::slice_subrange(self.payload.as_slice(), 0, count - 1))
        } else {
            None
        };
        proof {
            if c == PostingCodec::Simd4x && w <= 25 {
                assert forall|i: int| 0 <= i < docs.len() - 1 implies 0 < #[trigger] block::gap_after(
                    docs@,
                    i,
                ) <= pow2(w as nat) by {
                    self.lane_gap(i);
                }
            }
            if self.doc_bits == 8 {
                let g = gaps->Some_0@;
                assert forall|i: int| 0 <= i < g.len() implies docs@[i + 1] == (docs@[i]
                    + #[trigger] g[i]) % 0x1_0000_0000 by {
                    byte_row(self.payload@, i);
                    assert(self.step(i) == g[i]);
                    assert(self.doc_sum(i + 1) == self.doc_sum(i) + self.step(i));
                    wrapped_sum(self.doc_sum(i), self.step(i));
                }
            }
        }
        if block::verify_block_docs(docs.as_slice(), self.first, self.last, gaps, strict) {
            Ok(docs)
        } else {
            Err(PostingError::DocsLeaveRange(self.first, self.last))
        }
    }

    /// A four-lane gap is positive and at most `2^w`.
    proof fn lane_gap(&self, i: int)
        requires
            self.wf(),
            self.codec() == PostingCodec::Simd4x,
            self.doc_width() <= 25,
            0 <= i < self.count - 1,
        ensures
            0 < block::gap_after(self.docs(), i) <= pow2(self.doc_width() as nat),
    {
        let w = self.doc_width() as nat;
        let k = if self.count == 128 {
            i + 1
        } else {
            i
        };
        pack::unpacked_bound(
            codec::array_layout(self.codec(), self.gap_count() as int),
            self.payload@,
            w,
            k,
        );
        lemma2_to64();
        if w < 25 {
            lemma_pow2_strictly_increases(w, 25);
        }
        let a = self.doc_sum(i);
        let s = self.step(i);
        assert(self.doc_sum(i + 1) == a + s);
        wrapped_sum(a, s);
    }

    /// Decode the term frequencies.
    pub fn decode_tfs(&self) -> (tfs: Vec<u32>)
        requires
            self.docs_fit(),
            self.tfs_fit(),
        ensures
            tfs@ == self.tfs(),
            tfs.len() == self.count,
    {
        let (c, _w): (PostingCodec, u8) = self.parts();
        let from: usize = self.gap_bytes();
        let rest = vstd::slice::slice_subrange(self.payload.as_slice(), from, self.payload.len());
        proof {
            assert(rest@ =~= self.payload@.skip(from as int));
        }
        codec::decode_array(c, rest, self.count as usize, self.tf_bits)
    }

    /// The block with its documents moved to start at `first`, and new bounds.
    pub fn moved(&self, first: u32, bounds: u32) -> (r: PostingBlock)
        requires
            first + (self.last - self.first) < TERMINATED,
            self.wf(),
        ensures
            is_rebased(r, *self, first - self.first),
            r.bounds == bounds,
            r.wf(),
    {
        let payload = crate::bytes::copy_range(self.payload.as_slice(), 0, self.payload.len());
        proof {
            assert(payload@ =~= self.payload@);
        }
        PostingBlock {
            first,
            last: first + (self.last - self.first),
            bounds,
            count: self.count,
            doc_bits: self.doc_bits,
            tf_bits: self.tf_bits,
            payload,
        }
    }

    /// The block with its documents moved up by `offset` and new bounds.
    pub fn rebased(&self, offset: u32, bounds: u32) -> (r: PostingBlock)
        requires
            self.last + offset < TERMINATED,
            self.wf(),
        ensures
            r.first == self.first + offset,
            r.last == self.last + offset,
            r.bounds == bounds,
            r.count == self.count,
            r.doc_bits == self.doc_bits,
            r.tf_bits == self.tf_bits,
            r.payload@ == self.payload@,
            r.wf(),
            r.first_gap_is_zero() == self.first_gap_is_zero(),
            r.tfs() == self.tfs(),
    {
        let payload = crate::bytes::copy_range(self.payload.as_slice(), 0, self.payload.len());
        proof {
            assert(payload@ =~= self.payload@);
        }
        PostingBlock {
            first: self.first + offset,
            last: self.last + offset,
            bounds,
            count: self.count,
            doc_bits: self.doc_bits,
            tf_bits: self.tf_bits,
            payload,
        }
    }
}

/// Whether two blocks hold the same arrays at bases `offset` apart.
pub open spec fn is_rebased(r: PostingBlock, b: PostingBlock, offset: int) -> bool {
    &&& r.first == b.first + offset
    &&& r.last == b.last + offset
    &&& r.count == b.count
    &&& r.doc_bits == b.doc_bits
    &&& r.tf_bits == b.tf_bits
    &&& r.payload@ == b.payload@
}

/// Rebasing a sound block moves every document up by the offset.
pub proof fn rebased_docs(b: PostingBlock, r: PostingBlock, offset: int)
    requires
        b.wf(),
        b.sound(),
        0 <= b.first + offset,
        b.last + offset < TERMINATED,
        is_rebased(r, b, offset),
    ensures
        r.wf(),
        r.sound(),
        r.tfs() == b.tfs(),
        r.docs().len() == b.docs().len(),
        forall|i: int| 0 <= i < b.count ==> #[trigger] r.docs()[i] == b.docs()[i] + offset,
{
    let n = b.count as int;
    assert(r.gap_values() == b.gap_values());
    assert forall|i: int| 0 <= i < n implies #[trigger] r.docs()[i] == b.docs()[i] + offset by {
        sum_shift(b, r, offset, i);
        exact_sum(b, i);
        if i < n - 1 {
            assert(b.docs()[i] < b.docs()[n - 1]);
        }
    }
    assert(b.docs()[0] == b.first);
    assert(b.docs()[n - 1] == b.last);
    assert(block::increasing(r.docs())) by {
        assert forall|i: int, j: int| 0 <= i < j < r.docs().len() implies r.docs()[i]
            < r.docs()[j] by {
            assert(b.docs()[i] < b.docs()[j]);
            assert(r.docs()[i] == b.docs()[i] + offset);
            assert(r.docs()[j] == b.docs()[j] + offset);
        }
    }
}

proof fn sum_shift(b: PostingBlock, r: PostingBlock, offset: int, i: int)
    requires
        is_rebased(r, b, offset),
    ensures
        r.doc_sum(i) == b.doc_sum(i) + offset,
    decreases i,
{
    if i > 0 {
        sum_shift(b, r, offset, i - 1);
        assert(r.gap_values() == b.gap_values());
    }
}

/// In a sound block the sums never wrap.
proof fn exact_sum(b: PostingBlock, i: int)
    requires
        b.wf(),
        b.sound(),
        0 <= i < b.count,
    ensures
        b.doc_sum(i) == b.docs()[i],
    decreases i,
{
    if i > 0 {
        exact_sum(b, i - 1);
        assert(b.docs()[i - 1] < b.docs()[i]);
        let s = b.step(i - 1);
        let a = b.doc_sum(i - 1);
        assert(0 <= s <= 0x1_0000_0000);
        assert(b.doc_sum(i) == a + s);
        assert(b.docs()[i] == ((a + s) % 0x1_0000_0000) as u32);
    }
}

} // verus!
