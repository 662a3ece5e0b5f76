//! A sparse posting list in one piece: the gaps between documents as
//! variable-length integers, then the weights.
use crate::block::TERMINATED;
use crate::bytes;
use crate::gaps;
use crate::sparse_block::SparseError;
use crate::sparse_config::WeightQuantization;
use crate::sparse_config::ONE;
use crate::sparse_weights;
use crate::sparse_weights::QuantizedWeights;
use crate::sparse_weights::Weight;
use crate::vint;
use vstd::prelude::*;

verus! {

/// Postings of a block.
pub const SPARSE_BLOCK_SIZE: usize = 128;

/// A document and the bits of its weight.
#[derive(Debug, Clone, Copy, PartialEq, Eq, Structural)]
pub struct SparsePosting {
    pub doc_id: u32,
    pub weight: u32,
}

/// A sparse posting list in one piece.
#[derive(Debug, Clone)]
pub struct SparsePostingList {
    quantization: WeightQuantization,
    scale: u32,
    min_val: u32,
    doc_count: u32,
    data: Vec<u8>,
}

/// The first `n` documents of a list and where their gaps end. Where a gap
/// cannot be read the document stays, and so does the end.
pub open spec fn docs_in(data: Seq<u8>, n: int) -> (Seq<u32>, int)
    decreases n,
{
    if n <= 0 {
        (Seq::empty(), 0)
    } else {
        let (docs, end) = docs_in(data, n - 1);
        let prev: u32 = if n == 1 {
            0
        } else {
            docs.last()
        };
        match vint::vint_at(data, end) {
            None => (docs.push(prev), end),
            Some((gap, next)) => (docs.push(((prev + gap) % 0x1_0000_0000) as u32), next),
        }
    }
}

proof fn docs_in_less(data: Seq<u8>, m: int, n: int)
    requires
        0 <= m <= n,
    ensures
        docs_in(data, n).0.len() == n,
        docs_in(data, m).0 == docs_in(data, n).0.take(m),
        0 <= docs_in(data, m).1 <= docs_in(data, n).1,
        docs_in(data, n).1 <= data.len(),
    decreases n,
{
    if n == 0 {
        assert(Seq::<u32>::empty().take(0) =~= Seq::empty());
    } else {
        let end = docs_in(data, n - 1).1;
        if vint::vint_at(data, end) is Some {
            vint::vint_from_bound(data, end, 0);
        }
        let docs = docs_in(data, n).0;
        if m < n {
            docs_in_less(data, m, n - 1);
            assert(docs.take(m) =~= docs.drop_last().take(m));
            assert(docs.drop_last() =~= docs_in(data, n - 1).0);
        } else {
            docs_in_less(data, n - 1, n - 1);
            assert(docs.take(n) =~= docs);
        }
    }
}

/// Weight `i` of weights that start at byte `at`; zero past the end.
pub open spec fn loose_weight(
    quant: WeightQuantization,
    scale: u32,
    min: u32,
    data: Seq<u8>,
    at: int,
    i: int,
) -> Weight {
    match quant {
        WeightQuantization::Float32 => if at + 4 * i + 4 <= data.len() {
            Weight::Single(bytes::u32_at(data, at + 4 * i))
        } else {
            Weight::Single(0)
        },
        WeightQuantization::Float16 => if at + 2 * i + 2 <= data.len() {
            Weight::Half(bytes::u16_at(data, at + 2 * i))
        } else {
            Weight::Single(0)
        },
        WeightQuantization::UInt8 => if at + i < data.len() {
            Weight::Code { code: data[at + i], scale, min }
        } else {
            Weight::Single(0)
        },
        WeightQuantization::UInt4 => if at + i / 2 < data.len() {
            Weight::Code {
                code: if i % 2 == 0 {
                    data[at + i / 2] % 16
                } else {
                    data[at + i / 2] / 16
                },
                scale,
                min,
            }
        } else {
            Weight::Single(0)
        },
    }
}

/// Weights as they are stored, without scale and offset.
pub open spec fn loose_codes(quant: WeightQuantization, codes: Seq<u16>) -> Seq<u8> {
    match quant {
        WeightQuantization::UInt8 => sparse_weights::code_bytes(codes),
        WeightQuantization::UInt4 => sparse_weights::code_pairs(codes),
        _ => bytes::joined(sparse_weights::half_parts(codes)),
    }
}

/// The documents and weights of postings.
pub open spec fn pair_docs(s: Seq<(u32, u32)>) -> Seq<u32> {
    Seq::new(s.len(), |i: int| s[i].0)
}

pub open spec fn pair_weights(s: Seq<(u32, u32)>) -> Seq<u32> {
    Seq::new(s.len(), |i: int| s[i].1)
}

impl SparsePostingList {
    /// The precision of the weights.
    pub closed spec fn quant(&self) -> WeightQuantization {
        self.quantization
    }

    /// The scale of coded weights.
    pub closed spec fn step(&self) -> u32 {
        self.scale
    }

    /// The offset of coded weights.
    pub closed spec fn base(&self) -> u32 {
        self.min_val
    }

    /// How many postings there are.
    pub closed spec fn count(&self) -> int {
        self.doc_count as int
    }

    /// The gaps and the weights.
    pub closed spec fn content(&self) -> Seq<u8> {
        self.data@
    }

    /// The documents.
    pub open spec fn docs(&self) -> Seq<u32> {
        docs_in(self.content(), self.count()).0
    }

    /// Weight `i`.
    pub open spec fn weight_of(&self, i: int) -> Weight {
        loose_weight(
            self.quant(),
            self.step(),
            self.base(),
            self.content(),
            docs_in(self.content(), self.count()).1,
            i,
        )
    }

    /// The postings.
    pub open spec fn rows(&self) -> Seq<(u32, Weight)> {
        Seq::new(self.count() as nat, |i: int| (self.docs()[i], self.weight_of(i)))
    }

    /// Whether the list is what postings are encoded as.
    pub open spec fn encodes<F: Fn(&[u32], WeightQuantization) -> QuantizedWeights>(
        &self,
        postings: Seq<(u32, u32)>,
        quant: WeightQuantization,
        quantize: F,
    ) -> bool {
        let gap_bytes = gaps::gap_bytes(pair_docs(postings), postings.len() as int);
        &&& self.quant() == quant
        &&& self.count() == postings.len()
        &&& if postings.len() == 0 {
            self.content().len() == 0 && self.step() == ONE && self.base() == 0
        } else if quant is Float32 {
            &&& self.content() == gap_bytes + bytes::le32_all(pair_weights(postings))
            &&& self.step() == ONE && self.base() == 0
        } else {
            exists|weights: &[u32], q: QuantizedWeights|
                {
                    &&& weights@ == pair_weights(postings)
                    &&& #[trigger] quantize.ensures((weights, quant), q)
                    &&& self.content() == gap_bytes + loose_codes(quant, q.codes@)
                    &&& self.step() == (if quant is Float16 {
                        ONE
                    } else {
                        q.scale
                    })
                    &&& self.base() == (if quant is Float16 {
                        0
                    } else {
                        q.min
                    })
                }
        }
    }

    /// Encode postings in order: document and the bits of the weight.
    pub fn from_postings<F: Fn(&[u32], WeightQuantization) -> QuantizedWeights>(
        postings: &[(u32, u32)],
        quantization: WeightQuantization,
        quantize: &F,
    ) -> (r: Self)
        requires
            gaps::ascending(pair_docs(postings@)),
            postings@.len() <= u32::MAX,
            sparse_weights::quantizes(*quantize),
        ensures
            r.encodes(postings@, quantization, *quantize),
    {
        let mut data: Vec<u8> = Vec::new();
        if postings.len() == 0 {
            return SparsePostingList {
                quantization,
                scale: ONE,
                min_val: 0,
                doc_count: 0,
                data,
            };
        }
        let doc_count: u32 = postings.len() as u32;
        let mut weights: Vec<u32> = Vec::new();
        let mut prev: u32 = 0;
        let mut i: usize = 0;
        let ghost docs = pair_docs(postings@);
        while i < postings.len()
            invariant
                i <= postings@.len(),
                docs == pair_docs(postings@),
                gaps::ascending(docs),
                prev == (if i == 0 {
                    0
                } else {
                    docs[i - 1]
                }),
                data@ == gaps::gap_bytes(docs, i as int),
                weights@ == pair_weights(postings@).take(i as int),
            decreases postings@.len() - i,
        {
            let (doc, weight): (u32, u32) = postings[i];
            proof {
                assert(doc == docs[i as int]);
                if i > 0 {
                    assert(docs[i - 1] <= docs[i as int]);
                }
            }
            vint::write_vint(&mut data, (doc - prev) as u64);
            weights.push(weight);
            proof {
                assert(pair_weights(postings@).take(i + 1) =~= pair_weights(postings@).take(
                    i as int,
                ).push(weight));
            }
            prev = doc;
            i = i + 1;
        }
        proof {
            assert(pair_weights(postings@).take(i as int) =~= pair_weights(postings@));
        }
        if matches!(quantization, WeightQuantization::Float32) {
            bytes::put_u32_all(&mut data, weights.as_slice());
            return SparsePostingList { quantization, scale: ONE, min_val: 0, doc_count, data };
        }
        let weight_slice: &[u32] = weights.as_slice();
        let q: QuantizedWeights = quantize(weight_slice, quantization);
        let ghost before = data@;
        let mut scale: u32 = q.scale;
        let mut min_val: u32 = q.min;
        match quantization {
            WeightQuantization::UInt8 => {
                sparse_weights::encode_bytes(q.codes.as_slice(), &mut data);
            },
            WeightQuantization::UInt4 => {
                sparse_weights::encode_pairs(q.codes.as_slice(), &mut data);
            },
            _ => {
                sparse_weights::encode_halves(q.codes.as_slice(), &mut data);
                scale = ONE;
                min_val = 0;
            },
        }
        let r = SparsePostingList { quantization, scale, min_val, doc_count, data };
        proof {
            assert(quantize.ensures((weight_slice, quantization), q));
            assert(r.content() == gaps::gap_bytes(docs, docs.len() as int) + loose_codes(
                quantization,
                q.codes@,
            ));
        }
        r
    }

    /// The stored list: precision, scale, offset, the number of postings,
    /// the size of the rest, the rest.
    pub open spec fn stored(&self) -> Seq<u8> {
        seq![self.quant().code()] + bytes::le32(self.step()) + bytes::le32(self.base())
            + bytes::le32(self.count() as u32) + bytes::le32(self.content().len() as u32)
            + self.content()
    }

    /// Append the stored list.
    pub fn serialize(&self, out: &mut Vec<u8>)
        requires
            self.content().len() <= u32::MAX,
        ensures
            final(out)@ == old(out)@ + self.stored(),
    {
        let ghost before = out@;
        out.push(self.quantization.to_u8());
        bytes::put_u32(out, self.scale);
        bytes::put_u32(out, self.min_val);
        bytes::put_u32(out, self.doc_count);
        bytes::put_u32(out, self.data.len() as u32);
        bytes::put_slice(out, self.data.as_slice());
        proof {
            assert(out@ =~= before + self.stored());
        }
    }

    /// What is wrong with the list at the start of `b`.
    pub open spec fn refusal(b: Seq<u8>) -> Option<SparseError> {
        if b.len() < 1 {
            Some(SparseError::TooSmall)
        } else if b[0] > 3 {
            Some(SparseError::Quantization)
        } else if b.len() < 17 || b.len() < 17 + bytes::u32_at(b, 13) {
            Some(SparseError::TooSmall)
        } else {
            None
        }
    }

    /// Whether the list is what the start of `b` holds.
    pub open spec fn is_at(&self, b: Seq<u8>) -> bool {
        &&& self.quant().code() == b[0]
        &&& self.step() == bytes::u32_at(b, 1)
        &&& self.base() == bytes::u32_at(b, 5)
        &&& self.count() == bytes::u32_at(b, 9)
        &&& self.content() == b.subrange(17, 17 + bytes::u32_at(b, 13))
    }

    /// Read a list from the start of `b`. Gives the list and its size.
    pub fn deserialize(b: &[u8]) -> (r: Result<(Self, usize), SparseError>)
        ensures
            match r {
                Ok((list, n)) => {
                    &&& Self::refusal(b@) is None
                    &&& list.is_at(b@)
                    &&& n == 17 + bytes::u32_at(b@, 13)
                },
                Err(e) => Self::refusal(b@) == Some(e),
            },
    {
        if b.len() < 1 {
            return Err(SparseError::TooSmall);
        }
        let quantization = match WeightQuantization::from_u8(b[0]) {
            Some(quant) => quant,
            None => {
                return Err(SparseError::Quantization);
            },
        };
        if b.len() < 17 {
            return Err(SparseError::TooSmall);
        }
        let len: u32 = bytes::get_u32(b, 13);
        if ((b.len() - 17) as u64) < len as u64 {
            return Err(SparseError::TooSmall);
        }
        let end: usize = 17 + len as usize;
        let list = SparsePostingList {
            quantization,
            scale: bytes::get_u32(b, 1),
            min_val: bytes::get_u32(b, 5),
            doc_count: bytes::get_u32(b, 9),
            data: bytes::copy_range(b, 17, end),
        };
        Ok((list, end))
    }

    pub fn doc_count(&self) -> (r: u32)
        ensures
            r == self.count(),
    {
        self.doc_count
    }

    pub fn quantization(&self) -> (r: WeightQuantization)
        ensures
            r == self.quant(),
    {
        self.quantization
    }

    /// Where the gaps end.
    fn weights_start(&self) -> (r: usize)
        ensures
            r == docs_in(self.content(), self.count()).1,
            r <= self.data.len(),
    {
        let data: &[u8] = self.data.as_slice();
        let mut at: usize = 0;
        let mut i: u32 = 0;
        while i < self.doc_count
            invariant
                i <= self.doc_count,
                data@ == self.data@,
                at <= data.len(),
                docs_in(self.data@, i as int).1 == at,
            decreases self.doc_count - i,
        {
            if let Some((_, next)) = vint::read_vint(data, at) {
                at = next;
            }
            i = i + 1;
        }
        at
    }

    /// A cursor at the first posting.
    pub fn iterator(&self) -> (r: SparsePostingIterator<'_>)
        ensures
            r.wf(),
            r.list() == self,
            r.at() == 0,
    {
        SparsePostingIterator::new(self)
    }

    /// Decode every posting.
    pub fn decode_all(&self) -> (out: Vec<(u32, Weight)>)
        ensures
            out@ == self.rows(),
    {
        let mut out: Vec<(u32, Weight)> = Vec::new();
        let mut it = self.iterator();
        while !it.exhausted
            invariant
                it.wf(),
                it.list() == self,
                out@.len() == it.at(),
                forall|k: int| 0 <= k < it.at() ==> #[trigger] out@[k] == self.rows()[k],
            decreases self.count() - it.at(),
        {
            out.push((it.doc_id, it.weight));
            it.advance();
        }
        proof {
            assert(out@ =~= self.rows());
        }
        out
    }
}

/// A cursor over a sparse posting list in one piece.
pub struct SparsePostingIterator<'a> {
    posting_list: &'a SparsePostingList,
    doc_id_offset: usize,
    weight_offset: usize,
    index: usize,
    doc_id: u32,
    weight: Weight,
    exhausted: bool,
}

impl<'a> SparsePostingIterator<'a> {
    /// The list.
    pub closed spec fn list(&self) -> &'a SparsePostingList {
        self.posting_list
    }

    /// How many postings are before the cursor.
    pub closed spec fn at(&self) -> int {
        self.index as int
    }

    /// Whether the cursor agrees with its list.
    pub closed spec fn wf(&self) -> bool {
        let list = self.posting_list;
        &&& self.index <= list.count()
        &&& self.exhausted == (self.index == list.count())
        &&& self.weight_offset == docs_in(list.data@, list.count()).1
        &&& !self.exhausted ==> {
            &&& self.doc_id == list.docs()[self.index as int]
            &&& self.weight == list.weight_of(self.index as int)
            &&& self.doc_id_offset == docs_in(list.data@, self.index + 1).1
        }
    }

    fn new(posting_list: &'a SparsePostingList) -> (r: Self)
        ensures
            r.wf(),
            r.list() == posting_list,
            r.at() == 0,
    {
        let weight_offset: usize = posting_list.weights_start();
        let mut it = SparsePostingIterator {
            posting_list,
            doc_id_offset: 0,
            weight_offset,
            index: 0,
            doc_id: 0,
            weight: Weight::Single(0),
            exhausted: posting_list.doc_count == 0,
        };
        if posting_list.doc_count > 0 {
            it.load_current();
        }
        it
    }

    /// Read the posting that `index` tells of; the gap before it has been
    /// read.
    #[verifier::rlimit(30)]
    fn load_current(&mut self)
        requires
            old(self).index < old(self).posting_list.count(),
            !old(self).exhausted,
            old(self).weight_offset == docs_in(
                old(self).posting_list.data@,
                old(self).posting_list.count(),
            ).1,
            old(self).doc_id_offset == docs_in(
                old(self).posting_list.data@,
                old(self).index as int,
            ).1,
            old(self).doc_id == (if old(self).index == 0 {
                0
            } else {
                old(self).posting_list.docs()[old(self).index - 1]
            }),
        ensures
            final(self).wf(),
            final(self).list() == old(self).list(),
            final(self).at() == old(self).at(),
    {
        let list: &'a SparsePostingList = self.posting_list;
        let data: &[u8] = list.data.as_slice();
        let i: usize = self.index;
        proof {
            docs_in_less(list.data@, i + 1, list.count());
            docs_in_less(list.data@, i as int, i + 1);
            let docs = docs_in(list.data@, list.count()).0;
            assert(docs.take(i + 1)[i as int] == docs[i as int]);
            if i > 0 {
                assert(docs.take(i as int).last() == docs[i - 1]);
            }
            docs_in_less(list.data@, i as int, list.count());
        }
        if let Some((gap, next)) = vint::read_vint(data, self.doc_id_offset) {
            let low: u32 = (gap % 0x1_0000_0000) as u32;
            let ghost prev = self.doc_id;
            self.doc_id = self.doc_id.wrapping_add(low);
            proof {
                gap_wraps(prev as int, gap as int);
                assert(self.doc_id == (prev + gap) % 0x1_0000_0000);
            }
            self.doc_id_offset = next;
        }
        self.weight = list.load_weight(self.weight_offset, i);
    }

    /// The document at the cursor, or the sentinel.
    pub fn doc(&self) -> (r: u32)
        requires
            self.wf(),
        ensures
            r == (if self.at() < self.list().count() {
                self.list().docs()[self.at()]
            } else {
                TERMINATED
            }),
    {
        if self.exhausted {
            TERMINATED
        } else {
            self.doc_id
        }
    }

    /// The weight at the cursor, or zero.
    pub fn weight(&self) -> (r: Weight)
        requires
            self.wf(),
        ensures
            r == (if self.at() < self.list().count() {
                self.list().weight_of(self.at())
            } else {
                Weight::Single(0)
            }),
    {
        if self.exhausted {
            Weight::Single(0)
        } else {
            self.weight
        }
    }

    /// Go to the next posting.
    pub fn advance(&mut self) -> (r: u32)
        requires
            old(self).wf(),
        ensures
            final(self).wf(),
            final(self).list() == old(self).list(),
            final(self).at() == (if old(self).at() < old(self).list().count() {
                old(self).at() + 1
            } else {
                old(self).at()
            }),
            r == (if final(self).at() < old(self).list().count() {
                old(self).list().docs()[final(self).at()]
            } else {
                TERMINATED
            }),
    {
        if self.exhausted {
            return TERMINATED;
        }
        self.index = self.index + 1;
        if self.index >= self.posting_list.doc_count as usize {
            self.exhausted = true;
            return TERMINATED;
        }
        self.load_current();
        self.doc_id
    }

    /// Go to the first posting from the cursor on whose document is at least
    /// `target`.
    pub fn seek(&mut self, target: u32) -> (r: u32)
        requires
            old(self).wf(),
        ensures
            final(self).wf(),
            final(self).list() == old(self).list(),
            old(self).at() <= final(self).at() <= old(self).list().count(),
            forall|i: int|
                old(self).at() <= i < final(self).at() ==> #[trigger] old(self).list().docs()[i]
                    < target,
            final(self).at() < old(self).list().count() ==> old(self).list().docs()[final(self).at()]
                >= target,
            r == (if final(self).at() < old(self).list().count() {
                old(self).list().docs()[final(self).at()]
            } else {
                TERMINATED
            }),
    {
        let ghost start = self.at();
        let ghost list = self.list();
        while !self.exhausted && self.doc_id < target
            invariant
                self.wf(),
                self.list() == list,
                start <= self.at() <= list.count(),
                forall|i: int| start <= i < self.at() ==> #[trigger] list.docs()[i] < target,
            decreases list.count() - self.at(),
        {
            self.advance();
        }
        self.doc()
    }
}

impl SparsePostingList {
    fn load_weight(&self, at: usize, i: usize) -> (r: Weight)
        requires
            at <= self.data.len(),
            i < self.doc_count,
        ensures
            r == loose_weight(
                self.quantization,
                self.scale,
                self.min_val,
                self.data@,
                at as int,
                i as int,
            ),
    {
        let data: &[u8] = self.data.as_slice();
        let room: usize = data.len() - at;
        match self.quantization {
            WeightQuantization::Float32 => if room / 4 > i {
                Weight::Single(bytes::get_u32(data, at + 4 * i))
            } else {
                Weight::Single(0)
            },
            WeightQuantization::Float16 => if room / 2 > i {
                Weight::Half(bytes::get_u16(data, at + 2 * i))
            } else {
                Weight::Single(0)
            },
            WeightQuantization::UInt8 => if room > i {
                Weight::Code { code: data[at + i], scale: self.scale, min: self.min_val }
            } else {
                Weight::Single(0)
            },
            WeightQuantization::UInt4 => if room > i / 2 {
                let byte: u8 = data[at + i / 2];
                let code: u8 = if i % 2 == 0 {
                    byte % 16
                } else {
                    byte / 16
                };
                Weight::Code { code, scale: self.scale, min: self.min_val }
            } else {
                Weight::Single(0)
            },
        }
    }
}

/// A list of postings in order holds their documents, and at full precision
/// their weights.
pub proof fn sparse_postings_hold<F: Fn(&[u32], WeightQuantization) -> QuantizedWeights>(
    list: &SparsePostingList,
    postings: Seq<(u32, u32)>,
    quant: WeightQuantization,
    quantize: F,
)
    requires
        gaps::ascending(pair_docs(postings)),
        list.encodes(postings, quant, quantize),
    ensures
        list.docs() == pair_docs(postings),
        quant is Float32 ==> list.rows() == Seq::new(
            postings.len(),
            |i: int| (postings[i].0, Weight::Single(postings[i].1)),
        ),
{
    let docs = pair_docs(postings);
    let n = postings.len() as int;
    let head = gaps::gap_bytes(docs, n);
    if n == 0 {
        assert(docs =~= Seq::empty());
    } else {
        let tail = list.content().skip(head.len() as int);
        if quant is Float32 {
            assert(tail =~= bytes::le32_all(pair_weights(postings)));
        } else {
            let (weights, q) = choose|weights: &[u32], q: QuantizedWeights|
                {
                    &&& weights@ == pair_weights(postings)
                    &&& #[trigger] quantize.ensures((weights, quant), q)
                    &&& list.content() == head + loose_codes(quant, q.codes@)
                };
            assert(tail =~= loose_codes(quant, q.codes@));
        }
        assert(list.content() =~= head + tail);
        gap_docs_read(docs, tail, n);
        assert(docs.take(n) =~= docs);
        if quant is Float32 {
            assert forall|i: int| 0 <= i < n implies #[trigger] list.weight_of(i)
                == Weight::Single(postings[i].1) by {
                bytes::le32_all_index(pair_weights(postings), i);
                assert(list.content().subrange(
                    head.len() as int,
                    (head.len() + tail.len()) as int,
                ) =~= tail);
                bytes::section_u32(list.content(), head.len() as int, tail, 4 * i);
            }
        }
    }
    if quant is Float32 {
        assert(list.rows() =~= Seq::new(
            postings.len(),
            |i: int| (postings[i].0, Weight::Single(postings[i].1)),
        ));
    }
}

proof fn gap_docs_read(docs: Seq<u32>, after: Seq<u8>, n: int)
    requires
        gaps::ascending(docs),
        0 <= n <= docs.len(),
    ensures
        docs_in(gaps::gap_bytes(docs, n) + after, n) == (
            docs.take(n),
            gaps::gap_bytes(docs, n).len() as int,
        ),
    decreases n,
{
    if n > 0 {
        let gap = gaps::gap_at(docs, n - 1);
        let rest = vint::vint(gap as nat) + after;
        if n > 1 {
            assert(docs[n - 2] <= docs[n - 1]);
        }
        gap_docs_read(docs, rest, n - 1);
        let b = gaps::gap_bytes(docs, n) + after;
        assert(b =~= gaps::gap_bytes(docs, n - 1) + rest);
        assert(b =~= gaps::gap_bytes(docs, n - 1) + vint::vint(gap as u64 as nat) + after);
        vint::vint_roundtrip(gaps::gap_bytes(docs, n - 1), gap as u64, after);
        assert(docs.take(n) =~= docs.take(n - 1).push(docs[n - 1]));
        if n > 1 {
            assert(docs.take(n - 1).last() == docs[n - 2]);
        }
    } else {
        assert(docs.take(0) =~= Seq::empty());
    }
}

/// A stored list, whatever follows it, is read back as it was.
pub proof fn sparse_postings_roundtrip(list: &SparsePostingList, after: Seq<u8>)
    requires
        list.content().len() <= u32::MAX,
        list.count() <= u32::MAX,
    ensures
        SparsePostingList::refusal(list.stored() + after) is None,
        list.is_at(list.stored() + after),
        17 + bytes::u32_at(list.stored() + after, 13) == list.stored().len(),
{
    broadcast use bytes::group_word_sizes;

    let b = list.stored() + after;
    let n = list.content().len() as u32;
    bytes::le32_roundtrip(list.step());
    bytes::le32_roundtrip(list.base());
    bytes::le32_roundtrip(list.count() as u32);
    bytes::le32_roundtrip(n);
    assert(b.subrange(1, 5) =~= bytes::le32(list.step()));
    assert(b.subrange(5, 9) =~= bytes::le32(list.base()));
    assert(b.subrange(9, 13) =~= bytes::le32(list.count() as u32));
    assert(b.subrange(13, 17) =~= bytes::le32(n));
    bytes::section_u32(b, 1, bytes::le32(list.step()), 0);
    bytes::section_u32(b, 5, bytes::le32(list.base()), 0);
    bytes::section_u32(b, 9, bytes::le32(list.count() as u32), 0);
    bytes::section_u32(b, 13, bytes::le32(n), 0);
    assert(b.subrange(17, 17 + n) =~= list.content());
}

/// A list of postings in order that a quantizer encoded reads back, for each
/// posting, its document and the code that the quantizer gave it: a half, or
/// a code within its bits under the scale and the offset.
pub proof fn sparse_codes_hold<F: Fn(&[u32], WeightQuantization) -> QuantizedWeights>(
    list: &SparsePostingList,
    postings: Seq<(u32, u32)>,
    quant: WeightQuantization,
    quantize: F,
)
    requires
        gaps::ascending(pair_docs(postings)),
        sparse_weights::quantizes(quantize),
        list.encodes(postings, quant, quantize),
        !(quant is Float32),
        postings.len() > 0,
    ensures
        list.rows().len() == postings.len(),
        exists|weights: &[u32], q: QuantizedWeights|
            {
                &&& weights@ == pair_weights(postings)
                &&& #[trigger] quantize.ensures((weights, quant), q)
                &&& q.codes@.len() == postings.len()
                &&& forall|i: int|
                    0 <= i < postings.len() ==> {
                        let row = #[trigger] list.rows()[i];
                        let code = q.codes@[i];
                        &&& row.0 == postings[i].0
                        &&& quant is Float16 ==> row.1 == Weight::Half(code)
                        &&& quant is UInt8 && code < 256 || quant is UInt4 && code < 16 ==> row.1
                            == (Weight::Code { code: code as u8, scale: q.scale, min: q.min })
                    }
            },
{
    let docs = pair_docs(postings);
    let n = postings.len() as int;
    let head = gaps::gap_bytes(docs, n);
    let (weights, q) = choose|weights: &[u32], q: QuantizedWeights|
        {
            &&& weights@ == pair_weights(postings)
            &&& #[trigger] quantize.ensures((weights, quant), q)
            &&& list.content() == head + loose_codes(quant, q.codes@)
            &&& list.step() == (if quant is Float16 {
                ONE
            } else {
                q.scale
            })
            &&& list.base() == (if quant is Float16 {
                0
            } else {
                q.min
            })
        };
    let tail = loose_codes(quant, q.codes@);
    sparse_postings_hold(list, postings, quant, quantize);
    gap_docs_read(docs, tail, n);
    assert forall|i: int| 0 <= i < n implies {
        let row = #[trigger] list.rows()[i];
        let code = q.codes@[i];
        &&& row.0 == postings[i].0
        &&& quant is Float16 ==> row.1 == Weight::Half(code)
        &&& quant is UInt8 && code < 256 || quant is UInt4 && code < 16 ==> row.1 == (Weight::Code {
            code: code as u8,
            scale: q.scale,
            min: q.min,
        })
    } by {
        loose_code_read(quant, q.scale, q.min, head, q.codes@, i);
        sparse_weights::coded_is_whole(quant, q.scale, q.min, q.codes@[i]);
        assert(list.docs()[i] == docs[i]);
    }
}

/// A code that stands after other bytes is read.
proof fn loose_code_read(
    quant: WeightQuantization,
    scale: u32,
    min: u32,
    head: Seq<u8>,
    codes: Seq<u16>,
    i: int,
)
    requires
        !(quant is Float32),
        0 <= i < codes.len(),
    ensures
        loose_weight(
            quant,
            scale,
            min,
            head + loose_codes(quant, codes),
            head.len() as int,
            i,
        ) == sparse_weights::coded(quant, scale, min, codes[i]),
{
    broadcast use bytes::group_word_sizes;

    let b = sparse_weights::stored_codes(quant, scale, min, codes);
    let data = head + loose_codes(quant, codes);
    let at = head.len() as int;
    sparse_weights::codes_read_back(quant, scale, min, codes, i);
    if quant is Float16 {
        assert(data[at + 2 * i] == b[2 * i]);
        assert(data[at + 2 * i + 1] == b[2 * i + 1]);
    } else if quant is UInt8 {
        assert(data[at + i] == b[8 + i]);
    } else {
        assert(data[at + i / 2] == b[8 + i / 2]);
    }
}

/// A sum wraps in the same way whether or not a part of it has wrapped.
proof fn gap_wraps(a: int, b: int)
    requires
        0 <= a,
        0 <= b,
    ensures
        (a + b % 0x1_0000_0000) % 0x1_0000_0000 == (a + b) % 0x1_0000_0000,
{
}

} // verus!
