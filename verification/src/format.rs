//! Choice of posting format and codec, and lists in a format of their own.
use crate::block;
use crate::bits;
use crate::bp128_list;
use crate::bp128_list::VerticalBP128Iterator;
use crate::bp128_list::VerticalBP128PostingList;
use crate::bp128_store;
use crate::bytes;
use crate::codec;
use crate::codec::PostingCodec;
use crate::error::ReadError;
use crate::ratio;
use crate::roaring;
use crate::roaring_list;
use crate::roaring_list::RoaringPostingIterator;
use crate::roaring_list::RoaringPostingList;
use crate::roaring_list_store;
use vstd::arithmetic::power2::*;
use vstd::prelude::*;

verus! {

/// Lists up to this length are stored with their term.
pub const INLINE_THRESHOLD: usize = 3;

/// Lists from this length on are partitioned.
pub const PARTITIONED_EF_THRESHOLD: usize = 20_000;

/// What an index is tuned for.
#[derive(Debug, Clone, Copy, PartialEq, Eq, Structural)]
pub enum IndexOptimization {
    /// A balance of size and speed.
    Adaptive,
    /// The smallest index.
    SizeOptimized,
    /// The fastest queries.
    PerformanceOptimized,
}

impl Default for IndexOptimization {
    fn default() -> (r: Self)
        ensures
            r == IndexOptimization::Adaptive,
    {
        IndexOptimization::Adaptive
    }
}

impl IndexOptimization {
    /// Level of the dictionary's compression.
    pub fn zstd_level(&self) -> (r: i32)
        ensures
            r == (match self {
                IndexOptimization::Adaptive => 9i32,
                IndexOptimization::SizeOptimized => 22i32,
                IndexOptimization::PerformanceOptimized => 1i32,
            }),
    {
        match self {
            IndexOptimization::Adaptive => 9,
            IndexOptimization::SizeOptimized => 22,
            IndexOptimization::PerformanceOptimized => 1,
        }
    }

    /// Codec of posting blocks.
    pub fn default_posting_codec(&self) -> (r: PostingCodec)
        ensures
            r == (if *self == IndexOptimization::SizeOptimized {
                PostingCodec::Pfor
            } else {
                PostingCodec::Rounded
            }),
    {
        match self {
            IndexOptimization::SizeOptimized => PostingCodec::Pfor,
            _ => PostingCodec::Rounded,
        }
    }

    /// The mode with this name, in any case.
    pub open spec fn named(s: Seq<char>) -> Option<IndexOptimization> {
        if codec::names(s, "adaptive"@) || codec::names(s, "balanced"@) || codec::names(
            s,
            "default"@,
        ) {
            Some(IndexOptimization::Adaptive)
        } else if codec::names(s, "size"@) || codec::names(s, "size-optimized"@) || codec::names(
            s,
            "small"@,
        ) || codec::names(s, "compact"@) {
            Some(IndexOptimization::SizeOptimized)
        } else if codec::names(s, "performance"@) || codec::names(s, "perf"@) || codec::names(
            s,
            "fast"@,
        ) || codec::names(s, "speed"@) {
            Some(IndexOptimization::PerformanceOptimized)
        } else {
            None
        }
    }

    /// The mode with this name, in any case.
    pub fn parse(s: &str) -> (r: Option<Self>)
        ensures
            r == IndexOptimization::named(s@),
    {
        if codec::is_named(s, "adaptive") || codec::is_named(s, "balanced") || codec::is_named(
            s,
            "default",
        ) {
            Some(IndexOptimization::Adaptive)
        } else if codec::is_named(s, "size") || codec::is_named(s, "size-optimized")
            || codec::is_named(s, "small") || codec::is_named(s, "compact") {
            Some(IndexOptimization::SizeOptimized)
        } else if codec::is_named(s, "performance") || codec::is_named(s, "perf")
            || codec::is_named(s, "fast") || codec::is_named(s, "speed") {
            Some(IndexOptimization::PerformanceOptimized)
        } else {
            None
        }
    }
}

/// A posting format.
#[derive(Debug, Clone, Copy, PartialEq, Eq, Structural)]
pub enum PostingFormat {
    HorizontalBP128,
    VerticalBP128,
    EliasFano,
    PartitionedEF,
    Roaring,
    OptP4D,
}

/// The single-precision number nearest to a whole number, which is whole too.
pub open spec fn nearest_single(x: nat) -> int {
    let n = bits::bits_needed_spec(x);
    if n <= 24 {
        x as int
    } else {
        let unit = pow2((n - 24) as nat) as int;
        unit * ratio::nearest(x as int, unit)
    }
}

/// Whether the single-precision quotient of two counts is at least the
/// single-precision form of one hundredth. That is `10737418 / 2^30`, and a
/// quotient rounds to it or above from half a step below it on.
pub open spec fn is_frequent(doc_count: nat, total_docs: nat) -> bool {
    let total = if total_docs == 0 {
        1
    } else {
        total_docs
    };
    nearest_single(doc_count) * 0x8000_0000 >= 21_474_835 * nearest_single(total)
}

/// The format chosen for a list.
pub open spec fn chosen_format(
    doc_count: nat,
    total_docs: nat,
    optimization: IndexOptimization,
) -> PostingFormat {
    match optimization {
        IndexOptimization::Adaptive => if doc_count >= PARTITIONED_EF_THRESHOLD && is_frequent(
            doc_count,
            total_docs,
        ) {
            PostingFormat::Roaring
        } else if doc_count >= PARTITIONED_EF_THRESHOLD {
            PostingFormat::PartitionedEF
        } else {
            PostingFormat::HorizontalBP128
        },
        IndexOptimization::SizeOptimized => if doc_count >= PARTITIONED_EF_THRESHOLD {
            PostingFormat::PartitionedEF
        } else if doc_count >= 128 {
            PostingFormat::OptP4D
        } else {
            PostingFormat::HorizontalBP128
        },
        IndexOptimization::PerformanceOptimized => if doc_count >= 64 {
            PostingFormat::Roaring
        } else {
            PostingFormat::HorizontalBP128
        },
    }
}

/// The single-precision number nearest to a count.
fn round_single(x: usize) -> (r: u128)
    ensures
        r == nearest_single(x as nat),
        r <= 0x2_0000_0000_0000_0000,
{
    let whole: u128 = x as u128;
    let mut unit: u128 = 1;
    let mut n: u32 = 24;
    proof {
        lemma2_to64();
        bits::bits_needed_fits(x as nat, 64);
        assert(pow2(64) == 0x1_0000_0000_0000_0000) by {
            lemma2_to64_rest();
        }
        bits::bits_needed_fits(x as nat, 24);
    }
    // The number of bits is `n` once the number is below `limit`.
    let mut limit: u128 = 0x100_0000;
    while whole >= limit
        invariant
            24 <= n <= 64,
            unit == pow2((n - 24) as nat),
            limit == pow2(n as nat),
            whole == x,
            bits::bits_needed_spec(x as nat) <= 64,
            n > 24 ==> bits::bits_needed_spec(x as nat) > n - 1,
            unit <= limit <= 0x1_0000_0000_0000_0000,
        decreases 64 - n,
    {
        proof {
            bits::bits_needed_fits(x as nat, n as nat);
            lemma_pow2_unfold((n + 1) as nat);
            lemma_pow2_unfold((n + 1 - 24) as nat);
            lemma2_to64_rest();
            if n + 1 < 64 {
                lemma_pow2_strictly_increases((n + 1) as nat, 64);
            }
        }
        unit = unit * 2;
        limit = limit * 2;
        n = n + 1;
    }
    proof {
        bits::bits_needed_fits(x as nat, n as nat);
        lemma_pow2_pos((n - 24) as nat);
    }
    if n == 24 {
        return whole;
    }
    let q: u128 = whole / unit;
    let rest: u128 = whole % unit;
    let ghost bits_of = bits::bits_needed_spec(x as nat);
    proof {
        assert(bits_of == n);
        assert(q <= whole);
        assert(unit * q <= whole) by (nonlinear_arith)
            requires
                q == whole / unit,
                unit > 0,
                whole >= 0,
        ;
        assert(unit * (q + 1) == unit * q + unit) by (nonlinear_arith);
    }
    if 2 * rest < unit || (2 * rest == unit && q % 2 == 0) {
        unit * q
    } else {
        unit * (q + 1)
    }
}

impl PostingFormat {
    /// The format for a list of a corpus.
    pub fn select(doc_count: usize, total_docs: usize) -> (r: Self)
        ensures
            r == chosen_format(
                doc_count as nat,
                total_docs as nat,
                IndexOptimization::Adaptive,
            ),
    {
        PostingFormat::select_with_optimization(doc_count, total_docs, IndexOptimization::Adaptive)
    }

    /// The format for a list of a corpus in a mode.
    pub fn select_with_optimization(
        doc_count: usize,
        total_docs: usize,
        optimization: IndexOptimization,
    ) -> (r: Self)
        ensures
            r == chosen_format(doc_count as nat, total_docs as nat, optimization),
    {
        match optimization {
            IndexOptimization::Adaptive => {
                if doc_count < PARTITIONED_EF_THRESHOLD {
                    return PostingFormat::HorizontalBP128;
                }
                let total: usize = if total_docs == 0 {
                    1
                } else {
                    total_docs
                };
                let a: u128 = round_single(doc_count);
                let b: u128 = round_single(total);
                if a * 0x8000_0000 >= 21_474_835 * b {
                    PostingFormat::Roaring
                } else {
                    PostingFormat::PartitionedEF
                }
            },
            IndexOptimization::SizeOptimized => {
                if doc_count >= PARTITIONED_EF_THRESHOLD {
                    PostingFormat::PartitionedEF
                } else if doc_count >= 128 {
                    PostingFormat::OptP4D
                } else {
                    PostingFormat::HorizontalBP128
                }
            },
            IndexOptimization::PerformanceOptimized => {
                if doc_count >= 64 {
                    PostingFormat::Roaring
                } else {
                    PostingFormat::HorizontalBP128
                }
            },
        }
    }
}

/// A list in planes or with a set of documents.
#[derive(Debug)]
pub enum CompressedPostingList {
    VerticalBP128(VerticalBP128PostingList),
    Roaring(RoaringPostingList),
}

/// Tag of a stored list with a set of documents.
pub const FORMAT_ROARING: u8 = 2;

/// Tag of a stored list in planes.
pub const FORMAT_VERTICAL_BP128: u8 = 3;

impl CompressedPostingList {
    pub open spec fn wf(&self) -> bool {
        match self {
            CompressedPostingList::VerticalBP128(p) => p.wf(),
            CompressedPostingList::Roaring(p) => p.wf(),
        }
    }

    /// The format of the list.
    pub open spec fn kind(&self) -> PostingFormat {
        match self {
            CompressedPostingList::VerticalBP128(_) => PostingFormat::VerticalBP128,
            CompressedPostingList::Roaring(_) => PostingFormat::Roaring,
        }
    }

    /// The documents of the list.
    pub open spec fn docs(&self) -> Seq<u32> {
        match self {
            CompressedPostingList::VerticalBP128(p) => crate::posting::doc_ids(p.postings()),
            CompressedPostingList::Roaring(p) => p.doc_ids.all(),
        }
    }

    /// Whether this is the list built from documents and frequencies.
    pub open spec fn is_built<F: Fn(u32) -> u32>(
        &self,
        docs: Seq<u32>,
        tfs: Seq<u32>,
        score: F,
    ) -> bool {
        match self {
            CompressedPostingList::VerticalBP128(p) => p.is_built(docs, tfs, score),
            CompressedPostingList::Roaring(p) => p.is_built(docs, tfs, score),
        }
    }

    /// Largest term frequency.
    pub open spec fn top_tf(&self) -> u32 {
        match self {
            CompressedPostingList::VerticalBP128(p) => CompressedPostingList::block_max(
                *p,
                p.blocks@.len() as int,
            ),
            CompressedPostingList::Roaring(p) => p.max_tf,
        }
    }

    /// Build in the format for a list of a corpus, if it is one that is built
    /// here.
    pub fn from_postings<F: Fn(u32) -> u32>(
        doc_ids: &[u32],
        term_freqs: &[u32],
        total_docs: usize,
        score: F,
    ) -> (r: Option<Self>)
        requires
            doc_ids@.len() == term_freqs@.len(),
            doc_ids@.len() <= u32::MAX,
            block::increasing(doc_ids@),
            forall|tf: u32| #[trigger] score.requires((tf,)),
        ensures
            ({
                let format = chosen_format(
                    doc_ids@.len(),
                    total_docs as nat,
                    IndexOptimization::Adaptive,
                );
                &&& r is Some <==> format == PostingFormat::VerticalBP128 || format
                    == PostingFormat::Roaring
                &&& r matches Some(l) ==> l.kind() == format
            }),
            r matches Some(l) ==> l.is_built(doc_ids@, term_freqs@, score) && l.storable() && l.wf()
                && l.docs() == doc_ids@,
    {
        let format = PostingFormat::select(doc_ids.len(), total_docs);
        Self::from_postings_with_format(doc_ids, term_freqs, format, score)
    }

    /// Build in a format. Only planes and sets of documents are built here.
    pub fn from_postings_with_format<F: Fn(u32) -> u32>(
        doc_ids: &[u32],
        term_freqs: &[u32],
        format: PostingFormat,
        score: F,
    ) -> (r: Option<Self>)
        requires
            doc_ids@.len() == term_freqs@.len(),
            doc_ids@.len() <= u32::MAX,
            block::increasing(doc_ids@),
            forall|tf: u32| #[trigger] score.requires((tf,)),
        ensures
            r is Some <==> format == PostingFormat::VerticalBP128 || format
                == PostingFormat::Roaring,
            r matches Some(l) ==> l.kind() == format && l.is_built(doc_ids@, term_freqs@, score)
                && l.storable() && l.wf() && l.docs() == doc_ids@,
    {
        match format {
            PostingFormat::VerticalBP128 => {
                let p = VerticalBP128PostingList::from_postings(doc_ids, term_freqs, score);
                proof {
                    assert(crate::posting::doc_ids(p.postings()) =~= doc_ids@);
                }
                Some(CompressedPostingList::VerticalBP128(p))
            },
            PostingFormat::Roaring => {
                let p = RoaringPostingList::from_postings(doc_ids, term_freqs, score);
                Some(CompressedPostingList::Roaring(p))
            },
            _ => None,
        }
    }

    /// Number of documents.
    pub fn doc_count(&self) -> (r: u32)
        requires
            self.wf(),
            *self is Roaring ==> self.docs().len() <= u32::MAX,
        ensures
            r == (match self {
                CompressedPostingList::VerticalBP128(p) => p.doc_count as int,
                CompressedPostingList::Roaring(p) => p.doc_ids.all().len() as int,
            }),
    {
        match self {
            CompressedPostingList::VerticalBP128(p) => p.doc_count,
            CompressedPostingList::Roaring(p) => p.len(),
        }
    }

    /// Largest term frequency of the first `n` blocks.
    pub open spec fn block_max(p: VerticalBP128PostingList, n: int) -> u32
        decreases n,
    {
        if n <= 0 {
            0
        } else if p.blocks@[n - 1].max_tf > CompressedPostingList::block_max(p, n - 1) {
            p.blocks@[n - 1].max_tf
        } else {
            CompressedPostingList::block_max(p, n - 1)
        }
    }

    /// Largest term frequency.
    pub fn max_tf(&self) -> (r: u32)
        ensures
            r == self.top_tf(),
    {
        match self {
            CompressedPostingList::VerticalBP128(p) => {
                let mut top: u32 = 0;
                let mut i: usize = 0;
                while i < p.blocks.len()
                    invariant
                        i <= p.blocks@.len(),
                        top == CompressedPostingList::block_max(*p, i as int),
                    decreases p.blocks@.len() - i,
                {
                    if p.blocks[i].max_tf > top {
                        top = p.blocks[i].max_tf;
                    }
                    i = i + 1;
                }
                top
            },
            CompressedPostingList::Roaring(p) => p.max_tf,
        }
    }

    /// The format of the list.
    pub fn format(&self) -> (r: PostingFormat)
        ensures
            r == self.kind(),
    {
        match self {
            CompressedPostingList::VerticalBP128(_) => PostingFormat::VerticalBP128,
            CompressedPostingList::Roaring(_) => PostingFormat::Roaring,
        }
    }

    pub open spec fn storable(&self) -> bool {
        match self {
            CompressedPostingList::VerticalBP128(p) => p.storable(),
            CompressedPostingList::Roaring(p) => p.storable(),
        }
    }

    /// The stored list: a tag, then the list.
    pub open spec fn stored(&self) -> Seq<u8> {
        match self {
            CompressedPostingList::VerticalBP128(p) => seq![FORMAT_VERTICAL_BP128] + p.stored(),
            CompressedPostingList::Roaring(p) => seq![FORMAT_ROARING] + p.stored(),
        }
    }

    /// Append the stored list.
    pub fn serialize(&self, out: &mut Vec<u8>)
        requires
            self.storable(),
        ensures
            final(out)@ == old(out)@ + self.stored(),
    {
        let ghost start = out@;
        match self {
            CompressedPostingList::VerticalBP128(p) => {
                out.push(FORMAT_VERTICAL_BP128);
                p.serialize(out);
            },
            CompressedPostingList::Roaring(p) => {
                out.push(FORMAT_ROARING);
                p.serialize(out);
            },
        }
        proof {
            assert(out@ =~= start + self.stored());
        }
    }

    /// Whether `r` is what reading a stored list from the start of `b` gives.
    pub open spec fn is_read(
        b: Seq<u8>,
        r: Result<(CompressedPostingList, usize), ReadError>,
    ) -> bool {
        let rest = b.skip(1);
        if b.len() == 0 {
            r matches Err(error) && error == ReadError::Truncated
        } else if b[0] == FORMAT_VERTICAL_BP128 {
            let end = bp128_store::blocks_end(rest, bytes::u32_at(rest, 8) as int);
            match r {
                Ok((CompressedPostingList::VerticalBP128(p), n)) => rest.len() >= 12 && end == Some(
                    n - 1,
                ) && p.is_at_start(rest),
                Ok(_) => false,
                Err(error) => error == ReadError::Truncated && (rest.len() < 12 || end is None),
            }
        } else if b[0] == FORMAT_ROARING {
            match (r, roaring_list_store::list_ends(rest)) {
                (Ok((CompressedPostingList::Roaring(p), n)), Ok((_p, _q, end))) => n == end + 1
                    && p.is_at_start(rest),
                (Err(error), Err(refused)) => error == refused,
                _ => false,
            }
        } else {
            r matches Err(error) && error == ReadError::UnknownFormat(b[0])
        }
    }

    /// Read a stored list of one of the formats built here. Gives it and its
    /// size.
    pub fn deserialize(b: &[u8]) -> (r: Result<(CompressedPostingList, usize), ReadError>)
        ensures
            CompressedPostingList::is_read(b@, r),
    {
        if b.len() == 0 {
            return Err(ReadError::Truncated);
        }
        let rest = vstd::slice::slice_subrange(b, 1, b.len());
        proof {
            assert(rest@ =~= b@.skip(1));
        }
        if b[0] == FORMAT_VERTICAL_BP128 {
            match VerticalBP128PostingList::deserialize(rest) {
                Some((p, n)) => {
                    proof {
                        bp128_store::end_inside(rest@, bytes::u32_at(rest@, 8) as int);
                    }
                    Ok((CompressedPostingList::VerticalBP128(p), n + 1))
                },
                None => Err(ReadError::Truncated),
            }
        } else if b[0] == FORMAT_ROARING {
            match RoaringPostingList::deserialize(rest) {
                Ok((p, n)) => Ok((CompressedPostingList::Roaring(p), n + 1)),
                Err(error) => Err(error),
            }
        } else {
            Err(ReadError::UnknownFormat(b[0]))
        }
    }

    /// A cursor on the first posting.
    pub fn iterator(&self) -> (r: CompressedPostingIterator<'_>)
        requires
            self.wf(),
        ensures
            r.is_start(*self),
    {
        match self {
            CompressedPostingList::VerticalBP128(p) => CompressedPostingIterator::VerticalBP128(
                p.iterator(),
            ),
            CompressedPostingList::Roaring(p) => {
                let mut i = p.iterator();
                let ghost all = i.ahead();
                i.init();
                proof {
                    assert(i.pending() =~= all);
                }
                CompressedPostingIterator::Roaring(i)
            },
        }
    }
}

/// A cursor over a list in one of the formats built here.
pub enum CompressedPostingIterator<'a> {
    VerticalBP128(VerticalBP128Iterator<'a>),
    Roaring(RoaringPostingIterator<'a>),
}

impl<'a> CompressedPostingIterator<'a> {
    pub open spec fn wf(&self) -> bool {
        match self {
            CompressedPostingIterator::VerticalBP128(i) => i.wf(),
            CompressedPostingIterator::Roaring(i) => i.wf(),
        }
    }

    /// Whether this is a cursor on the first posting of a list.
    pub open spec fn is_start(&self, l: CompressedPostingList) -> bool {
        &&& self.wf()
        &&& match (l, *self) {
            (
                CompressedPostingList::VerticalBP128(p),
                CompressedPostingIterator::VerticalBP128(i),
            ) => *i.list == p && i.at() == bp128_list::load_at(i.runs(), 0) && i.rest()
                == p.postings(),
            (CompressedPostingList::Roaring(p), CompressedPostingIterator::Roaring(i)) => *i.list
                == p && i.pending() == p.doc_ids.all() && i.current_block == 0,
            _ => false,
        }
    }

    /// Whether this is `it` on the next posting.
    pub open spec fn is_next(&self, it: CompressedPostingIterator<'a>) -> bool {
        &&& self.wf()
        &&& match (it, *self) {
            (
                CompressedPostingIterator::VerticalBP128(a),
                CompressedPostingIterator::VerticalBP128(b),
            ) => a.list == b.list && b.at() == bp128_list::next_at(a.runs(), a.at()),
            (CompressedPostingIterator::Roaring(a), CompressedPostingIterator::Roaring(b)) => {
                &&& b.is_next(a)
                &&& b.current_block == (match b.current_doc {
                    Some(d) => roaring_list::key_from(
                        a.list.blocks@,
                        a.current_block as int,
                        roaring::high_of(d),
                    ),
                    None => a.current_block as int,
                })
            },
            _ => false,
        }
    }

    /// Whether this is `it` after a search for `target`.
    pub open spec fn is_sought(&self, it: CompressedPostingIterator<'a>, target: u32) -> bool {
        &&& self.wf()
        &&& match (it, *self) {
            (
                CompressedPostingIterator::VerticalBP128(a),
                CompressedPostingIterator::VerticalBP128(b),
            ) => a.list == b.list && b.at() == bp128_list::seek_at(a.blocks(), a.at(), target),
            (CompressedPostingIterator::Roaring(a), CompressedPostingIterator::Roaring(b)) =>
                b.is_sought(a, target),
            _ => false,
        }
    }

    /// Current document, or the end marker.
    pub open spec fn current(&self) -> u32 {
        match self {
            CompressedPostingIterator::VerticalBP128(i) => bp128_list::doc_at(i.runs(), i.at()),
            CompressedPostingIterator::Roaring(i) => match i.current_doc {
                Some(d) => d,
                None => u32::MAX,
            },
        }
    }

    /// Current document, or the end marker.
    pub fn doc(&self) -> (r: u32)
        requires
            self.wf(),
        ensures
            r == self.current(),
    {
        match self {
            CompressedPostingIterator::VerticalBP128(i) => i.doc(),
            CompressedPostingIterator::Roaring(i) => i.doc(),
        }
    }

    /// Current term frequency, zero past the end.
    pub fn term_freq(&self) -> (r: u32)
        requires
            self.wf(),
        ensures
            r == (match self {
                CompressedPostingIterator::VerticalBP128(i) => bp128_list::tf_at(
                    i.runs(),
                    i.at(),
                ),
                CompressedPostingIterator::Roaring(i) => match i.current_doc {
                    Some(d) => i.list.tf_of(d),
                    None => 0,
                },
            }),
    {
        match self {
            CompressedPostingIterator::VerticalBP128(i) => i.term_freq(),
            CompressedPostingIterator::Roaring(i) => i.term_freq(),
        }
    }

    /// Step to the next posting.
    pub fn advance(&mut self) -> (r: u32)
        requires
            old(self).wf(),
        ensures
            final(self).is_next(*old(self)),
            r == final(self).current(),
    {
        match self {
            CompressedPostingIterator::VerticalBP128(i) => i.advance(),
            CompressedPostingIterator::Roaring(i) => i.advance(),
        }
    }

    /// Move to the first posting at or after `target`, never back.
    pub fn seek(&mut self, target: u32) -> (r: u32)
        requires
            old(self).wf(),
        ensures
            final(self).is_sought(*old(self), target),
            r == final(self).current(),
    {
        match self {
            CompressedPostingIterator::VerticalBP128(i) => i.seek(target),
            CompressedPostingIterator::Roaring(i) => i.seek(target),
        }
    }

    /// Whether the cursor is past the end.
    pub fn is_exhausted(&self) -> (r: bool)
        requires
            self.wf(),
        ensures
            r == (self.current() == u32::MAX),
    {
        self.doc() == u32::MAX
    }
}

/// How often each format was used, and for how many postings.
#[derive(Debug, Clone, Copy, PartialEq, Eq, Structural)]
pub struct CompressionStats {
    pub bitpacked_count: u32,
    pub bitpacked_docs: u64,
    pub simd_bp128_count: u32,
    pub simd_bp128_docs: u64,
    pub elias_fano_count: u32,
    pub elias_fano_docs: u64,
    pub partitioned_ef_count: u32,
    pub partitioned_ef_docs: u64,
    pub roaring_count: u32,
    pub roaring_docs: u64,
    pub inline_count: u32,
    pub inline_docs: u64,
}

impl Default for CompressionStats {
    fn default() -> (r: Self)
        ensures
            r.terms() == 0,
            r.postings() == 0,
            r.bitpacked_count == 0 && r.simd_bp128_count == 0 && r.elias_fano_count == 0
                && r.partitioned_ef_count == 0 && r.roaring_count == 0 && r.inline_count == 0,
            r.bitpacked_docs == 0 && r.simd_bp128_docs == 0 && r.elias_fano_docs == 0
                && r.partitioned_ef_docs == 0 && r.roaring_docs == 0 && r.inline_docs == 0,
    {
        CompressionStats {
            bitpacked_count: 0,
            bitpacked_docs: 0,
            simd_bp128_count: 0,
            simd_bp128_docs: 0,
            elias_fano_count: 0,
            elias_fano_docs: 0,
            partitioned_ef_count: 0,
            partitioned_ef_docs: 0,
            roaring_count: 0,
            roaring_docs: 0,
            inline_count: 0,
            inline_docs: 0,
        }
    }
}

impl CompressionStats {
    /// Number of terms.
    pub open spec fn terms(self) -> int {
        self.bitpacked_count + self.simd_bp128_count + self.elias_fano_count
            + self.partitioned_ef_count + self.roaring_count + self.inline_count
    }

    /// Number of postings.
    pub open spec fn postings(self) -> int {
        self.bitpacked_docs + self.simd_bp128_docs + self.elias_fano_docs
            + self.partitioned_ef_docs + self.roaring_docs + self.inline_docs
    }

    /// Count a list in a format; patched lists count as packed ones.
    pub fn record(&mut self, format: PostingFormat, doc_count: u32)
        requires
            old(self).terms() < u32::MAX,
            old(self).postings() + doc_count <= u64::MAX,
        ensures
            final(self).terms() == old(self).terms() + 1,
            final(self).postings() == old(self).postings() + doc_count,
            *final(self) == (match format {
                PostingFormat::HorizontalBP128 | PostingFormat::OptP4D => CompressionStats {
                    bitpacked_count: (old(self).bitpacked_count + 1) as u32,
                    bitpacked_docs: (old(self).bitpacked_docs + doc_count) as u64,
                    ..*old(self)
                },
                PostingFormat::VerticalBP128 => CompressionStats {
                    simd_bp128_count: (old(self).simd_bp128_count + 1) as u32,
                    simd_bp128_docs: (old(self).simd_bp128_docs + doc_count) as u64,
                    ..*old(self)
                },
                PostingFormat::EliasFano => CompressionStats {
                    elias_fano_count: (old(self).elias_fano_count + 1) as u32,
                    elias_fano_docs: (old(self).elias_fano_docs + doc_count) as u64,
                    ..*old(self)
                },
                PostingFormat::PartitionedEF => CompressionStats {
                    partitioned_ef_count: (old(self).partitioned_ef_count + 1) as u32,
                    partitioned_ef_docs: (old(self).partitioned_ef_docs + doc_count) as u64,
                    ..*old(self)
                },
                PostingFormat::Roaring => CompressionStats {
                    roaring_count: (old(self).roaring_count + 1) as u32,
                    roaring_docs: (old(self).roaring_docs + doc_count) as u64,
                    ..*old(self)
                },
            }),
    {
        let docs: u64 = doc_count as u64;
        match format {
            PostingFormat::HorizontalBP128 | PostingFormat::OptP4D => {
                self.bitpacked_count = self.bitpacked_count + 1;
                self.bitpacked_docs = self.bitpacked_docs + docs;
            },
            PostingFormat::VerticalBP128 => {
                self.simd_bp128_count = self.simd_bp128_count + 1;
                self.simd_bp128_docs = self.simd_bp128_docs + docs;
            },
            PostingFormat::EliasFano => {
                self.elias_fano_count = self.elias_fano_count + 1;
                self.elias_fano_docs = self.elias_fano_docs + docs;
            },
            PostingFormat::PartitionedEF => {
                self.partitioned_ef_count = self.partitioned_ef_count + 1;
                self.partitioned_ef_docs = self.partitioned_ef_docs + docs;
            },
            PostingFormat::Roaring => {
                self.roaring_count = self.roaring_count + 1;
                self.roaring_docs = self.roaring_docs + docs;
            },
        }
    }

    /// Count a list stored with its term.
    pub fn record_inline(&mut self, doc_count: u32)
        requires
            old(self).terms() < u32::MAX,
            old(self).postings() + doc_count <= u64::MAX,
        ensures
            final(self).terms() == old(self).terms() + 1,
            final(self).postings() == old(self).postings() + doc_count,
            *final(self) == (CompressionStats {
                inline_count: (old(self).inline_count + 1) as u32,
                inline_docs: (old(self).inline_docs + doc_count) as u64,
                ..*old(self)
            }),
    {
        self.inline_count = self.inline_count + 1;
        self.inline_docs = self.inline_docs + doc_count as u64;
    }

    /// Number of terms.
    pub fn total_terms(&self) -> (r: u32)
        requires
            self.terms() <= u32::MAX,
        ensures
            r == self.terms(),
    {
        self.bitpacked_count + self.simd_bp128_count + self.elias_fano_count
            + self.partitioned_ef_count + self.roaring_count + self.inline_count
    }

    /// Number of postings.
    pub fn total_postings(&self) -> (r: u64)
        requires
            self.postings() <= u64::MAX,
        ensures
            r == self.postings(),
    {
        self.bitpacked_docs + self.simd_bp128_docs + self.elias_fano_docs
            + self.partitioned_ef_docs + self.roaring_docs + self.inline_docs
    }
}

} // verus!
