//! A block of sparse postings: documents, ordinals and weights in three
//! parts under one header.
use crate::bytes;
use crate::encode;
use crate::gaps;
use crate::gaps::RoundedBitWidth;
use crate::sparse_config::WeightQuantization;
use crate::sparse_weights;
use crate::sparse_weights::QuantizedWeights;
use crate::sparse_weights::Weight;
use vstd::prelude::*;

verus! {

/// Postings of an ordinary block.
pub const BLOCK_SIZE: usize = 128;

/// Postings of the largest block.
pub const MAX_BLOCK_SIZE: usize = 256;

/// What is wrong with stored sparse postings.
#[derive(Debug, Clone, Copy, PartialEq, Eq, Structural)]
pub enum SparseError {
    /// No room for a header.
    TooSmall,
    /// A precision that there is not.
    Quantization,
    /// No postings in this many bytes.
    Empty(usize),
    /// The parts reach past the end.
    Overflow(PartSizes),
    /// A block outside the data that holds the blocks.
    Outside,
    /// The parts do not hold the postings that the header tells of.
    Shape,
    /// A part that is too large to be stored. Sizes of the documents, the
    /// ordinals and the weights.
    TooLarge(usize, usize, usize),
}

/// What the header of a stored block asks for, and what there is.
#[derive(Debug, Clone, Copy, PartialEq, Eq, Structural)]
pub struct PartSizes {
    pub count: u16,
    pub doc_ids: u16,
    pub ordinals: u16,
    pub weights: u16,
    pub need: usize,
    pub have: usize,
}

/// What a block holds and how.
#[derive(Debug, Clone, Copy, PartialEq, Eq, Structural)]
pub struct BlockHeader {
    pub count: u16,
    pub doc_id_bits: u8,
    pub ordinal_bits: u8,
    pub weight_quant: WeightQuantization,
    pub first_doc_id: u32,
    pub max_weight: u32,
}

impl BlockHeader {
    /// Bytes of a stored header.
    pub const SIZE: usize = 16;

    /// The stored header.
    pub open spec fn stored(self) -> Seq<u8> {
        bytes::le16(self.count) + seq![
            self.doc_id_bits,
            self.ordinal_bits,
            self.weight_quant.code(),
            0u8,
        ] + bytes::le16(0) + bytes::le32(self.first_doc_id) + bytes::le32(self.max_weight)
    }

    /// Whether a header is what the start of `b` holds.
    pub open spec fn is_at(self, b: Seq<u8>) -> bool {
        &&& self.count == bytes::u16_at(b, 0)
        &&& self.doc_id_bits == b[2]
        &&& self.ordinal_bits == b[3]
        &&& self.weight_quant.code() == b[4]
        &&& self.first_doc_id == bytes::u32_at(b, 8)
        &&& self.max_weight == bytes::u32_at(b, 12)
    }

    /// Append the stored header.
    pub fn write(&self, out: &mut Vec<u8>)
        ensures
            final(out)@ == old(out)@ + self.stored(),
    {
        let ghost before = out@;
        bytes::put_u16(out, self.count);
        out.push(self.doc_id_bits);
        out.push(self.ordinal_bits);
        out.push(self.weight_quant.to_u8());
        out.push(0);
        bytes::put_u16(out, 0);
        bytes::put_u32(out, self.first_doc_id);
        bytes::put_u32(out, self.max_weight);
        proof {
            assert(out@ =~= before + self.stored());
        }
    }

    /// Read a header from the start of `b`.
    pub fn read(b: &[u8]) -> (r: Result<Self, SparseError>)
        ensures
            match r {
                Ok(h) => b.len() >= 16 && h.is_at(b@),
                Err(e) => if b.len() < 16 {
                    e == SparseError::TooSmall
                } else {
                    b@[4] > 3 && e == SparseError::Quantization
                },
            },
    {
        if b.len() < 16 {
            return Err(SparseError::TooSmall);
        }
        let weight_quant = match WeightQuantization::from_u8(b[4]) {
            Some(quant) => quant,
            None => {
                return Err(SparseError::Quantization);
            },
        };
        Ok(
            BlockHeader {
                count: bytes::get_u16(b, 0),
                doc_id_bits: b[2],
                ordinal_bits: b[3],
                weight_quant,
                first_doc_id: bytes::get_u32(b, 8),
                max_weight: bytes::get_u32(b, 12),
            },
        )
    }
}

/// Whether a number of bits is a width of whole bytes.
pub open spec fn whole_width(bits: u8) -> bool {
    bits == 0 || bits == 8 || bits == 16 || bits == 32
}

/// The width of a number of bits.
pub open spec fn width_of(bits: u8) -> RoundedBitWidth {
    if bits == 0 {
        RoundedBitWidth::Zero
    } else if bits == 8 {
        RoundedBitWidth::Bits8
    } else if bits == 16 {
        RoundedBitWidth::Bits16
    } else {
        RoundedBitWidth::Bits32
    }
}

fn width_from(bits: u8) -> (r: RoundedBitWidth)
    ensures
        r == width_of(bits),
{
    if bits == 0 {
        RoundedBitWidth::Zero
    } else if bits == 8 {
        RoundedBitWidth::Bits8
    } else if bits == 16 {
        RoundedBitWidth::Bits16
    } else {
        RoundedBitWidth::Bits32
    }
}

fn bits_of(w: RoundedBitWidth) -> (r: u8)
    ensures
        r == 8 * w.size(),
        whole_width(r),
        width_of(r) == w,
{
    match w {
        RoundedBitWidth::Zero => 0,
        RoundedBitWidth::Bits8 => 8,
        RoundedBitWidth::Bits16 => 16,
        RoundedBitWidth::Bits32 => 32,
    }
}

/// Document `i`: the first one and the gaps up to it.
pub open spec fn doc_sum(w: RoundedBitWidth, b: Seq<u8>, first: u32, i: int) -> int
    decreases i,
{
    if i <= 0 {
        first as int
    } else {
        doc_sum(w, b, first, i - 1) + gaps::value_at(w, b, i - 1)
    }
}

/// A block of sparse postings.
#[derive(Debug, Clone)]
pub struct SparseBlock {
    pub header: BlockHeader,
    pub doc_ids_data: Vec<u8>,
    pub ordinals_data: Vec<u8>,
    pub weights_data: Vec<u8>,
    pub last_doc_id: u32,
}

/// A decoded posting: document, ordinal and weight.
pub type SparseRow = (u32, u16, Weight);

/// Whether parts hold the postings that a header tells of.
pub open spec fn parts_fit(
    h: BlockHeader,
    docs: Seq<u8>,
    ordinals: Seq<u8>,
    weights: Seq<u8>,
) -> bool {
    let n = h.count as int;
    &&& 1 <= n <= MAX_BLOCK_SIZE
    &&& whole_width(h.doc_id_bits)
    &&& whole_width(h.ordinal_bits)
    &&& (n - 1) * width_of(h.doc_id_bits).size() <= docs.len()
    &&& n * width_of(h.ordinal_bits).size() <= ordinals.len()
    &&& sparse_weights::weight_bytes(h.weight_quant, n) <= weights.len()
    &&& doc_sum(width_of(h.doc_id_bits), docs, h.first_doc_id, n - 1) <= u32::MAX
}

impl SparseBlock {
    /// How many postings there are.
    pub open spec fn count(&self) -> int {
        self.header.count as int
    }

    /// Document `i`.
    pub open spec fn doc_at(&self, i: int) -> int {
        doc_sum(
            width_of(self.header.doc_id_bits),
            self.doc_ids_data@,
            self.header.first_doc_id,
            i,
        )
    }

    /// Whether the parts agree with the header.
    /// Whether the parts hold the postings that the header tells of.
    pub open spec fn fits(&self) -> bool {
        parts_fit(self.header, self.doc_ids_data@, self.ordinals_data@, self.weights_data@)
    }

    /// Whether there is a weight for every posting.
    pub open spec fn weights_fit(&self) -> bool {
        sparse_weights::weight_bytes(self.header.weight_quant, self.count())
            <= self.weights_data@.len()
    }

    pub open spec fn wf(&self) -> bool {
        &&& self.fits()
        &&& self.last_doc_id == self.doc_at(self.count() - 1)
    }

    /// The documents.
    pub open spec fn docs(&self) -> Seq<u32> {
        Seq::new(self.count() as nat, |i: int| self.doc_at(i) as u32)
    }

    /// The ordinals.
    pub open spec fn ordinals(&self) -> Seq<u16> {
        Seq::new(
            self.count() as nat,
            |i: int|
                (gaps::value_at(width_of(self.header.ordinal_bits), self.ordinals_data@, i)
                    % 0x1_0000) as u16,
        )
    }

    /// The weights.
    pub open spec fn weights(&self) -> Seq<Weight> {
        sparse_weights::weights_of(self.header.weight_quant, self.weights_data@, self.count())
    }

    /// The postings.
    pub open spec fn rows(&self) -> Seq<SparseRow> {
        Seq::new(
            self.count() as nat,
            |i: int| (self.docs()[i], self.ordinals()[i], self.weights()[i]),
        )
    }
}

/// Documents never run backwards within a block.
pub proof fn doc_sum_monotone(w: RoundedBitWidth, b: Seq<u8>, first: u32, i: int, j: int)
    requires
        0 <= i <= j,
    ensures
        first <= doc_sum(w, b, first, i) <= doc_sum(w, b, first, j),
    decreases j,
{
    if i < j {
        doc_sum_monotone(w, b, first, i, j - 1);
    } else if i > 0 {
        doc_sum_monotone(w, b, first, i - 1, j - 1);
    }
}

/// The documents of a block are in order, from its first to its last.
pub proof fn block_docs_ascending(b: &SparseBlock)
    requires
        b.fits(),
    ensures
        gaps::ascending(b.docs()),
        b.docs().len() > 0,
        b.docs()[0] == b.header.first_doc_id,
        b.wf() ==> b.docs().last() == b.last_doc_id,
        forall|i: int| 0 <= i < b.count() ==> #[trigger] b.docs()[i] == b.doc_at(i),
{
    let w = width_of(b.header.doc_id_bits);
    assert forall|i: int| 0 <= i < b.count() implies #[trigger] b.docs()[i] == b.doc_at(i) by {
        doc_sum_monotone(w, b.doc_ids_data@, b.header.first_doc_id, i, b.count() - 1);
    }
    assert forall|i: int, j: int| 0 <= i <= j < b.count() implies b.docs()[i] <= b.docs()[j] by {
        doc_sum_monotone(w, b.doc_ids_data@, b.header.first_doc_id, i, j);
        assert(b.docs()[i] == b.doc_at(i) && b.docs()[j] == b.doc_at(j));
    }
}

/// The documents, ordinals and weights of postings.
pub open spec fn row_docs(s: Seq<(u32, u16, u32)>) -> Seq<u32> {
    Seq::new(s.len(), |i: int| s[i].0)
}

pub open spec fn row_ordinals(s: Seq<(u32, u16, u32)>) -> Seq<u32> {
    Seq::new(s.len(), |i: int| s[i].1 as u32)
}

pub open spec fn row_weights(s: Seq<(u32, u16, u32)>) -> Seq<u32> {
    Seq::new(s.len(), |i: int| s[i].2)
}

/// The gaps between documents; none where they run backwards.
pub open spec fn doc_gaps(docs: Seq<u32>) -> Seq<u32> {
    Seq::new(
        (docs.len() - 1) as nat,
        |i: int|
            if docs[i + 1] >= docs[i] {
                (docs[i + 1] - docs[i]) as u32
            } else {
                0u32
            },
    )
}

/// Whether a block has the documents and ordinals of postings.
pub open spec fn addresses(b: &SparseBlock, rows: Seq<(u32, u16, u32)>) -> bool {
    let gap_width = gaps::width_for(encode::seq_max(doc_gaps(row_docs(rows))));
    let ordinal_width = gaps::width_for(encode::seq_max(row_ordinals(rows)));
    &&& b.header.count == rows.len()
    &&& b.header.doc_id_bits == 8 * gap_width.size()
    &&& b.header.ordinal_bits == 8 * ordinal_width.size()
    &&& b.header.first_doc_id == rows[0].0
    &&& b.doc_ids_data@ == bytes::joined(gaps::fixed_parts(gap_width, doc_gaps(row_docs(rows))))
    &&& b.ordinals_data@ == bytes::joined(gaps::fixed_parts(ordinal_width, row_ordinals(rows)))
    &&& b.last_doc_id == rows.last().0
}

/// Whether a block is what postings are encoded as.
pub open spec fn encodes<F: Fn(&[u32], WeightQuantization) -> QuantizedWeights>(
    b: &SparseBlock,
    rows: Seq<(u32, u16, u32)>,
    quant: WeightQuantization,
    quantize: F,
) -> bool {
    &&& addresses(b, rows)
    &&& b.header.weight_quant == quant
    &&& b.header.max_weight == sparse_weights::top_weight(row_weights(rows))
    &&& exists|weights: &[u32]|
        weights@ == row_weights(rows) && #[trigger] sparse_weights::are_stored(
            weights,
            quant,
            quantize,
            b.weights_data@,
        )
    &&& b.weights_data@.len() == sparse_weights::weight_bytes(quant, rows.len() as int)
}

/// A block with the documents and ordinals of postings in order, and room
/// for their weights, holds those documents and ordinals.
pub proof fn addresses_read(b: &SparseBlock, rows: Seq<(u32, u16, u32)>)
    requires
        1 <= rows.len() <= MAX_BLOCK_SIZE,
        gaps::ascending(row_docs(rows)),
        addresses(b, rows),
        sparse_weights::weight_bytes(b.header.weight_quant, rows.len() as int)
            <= b.weights_data@.len(),
    ensures
        b.wf(),
        b.docs() == row_docs(rows),
        b.ordinals() == Seq::new(rows.len(), |i: int| rows[i].1),
{
    let docs = row_docs(rows);
    let dg = doc_gaps(docs);
    let ords = row_ordinals(rows);
    let gw = gaps::width_for(encode::seq_max(dg));
    let ow = gaps::width_for(encode::seq_max(ords));
    let n = rows.len() as int;
    assert(width_of(b.header.doc_id_bits) == gw);
    assert(width_of(b.header.ordinal_bits) == ow);
    assert forall|i: int| 0 <= i < dg.len() implies #[trigger] gaps::value_at(
        gw,
        b.doc_ids_data@,
        i,
    ) == dg[i] by {
        gaps::value_reads(gw, dg, i);
    }
    assert forall|i: int| 0 <= i < n implies #[trigger] gaps::value_at(ow, b.ordinals_data@, i)
        == ords[i] by {
        gaps::value_reads(ow, ords, i);
    }
    if dg.len() > 0 {
        gaps::value_reads(gw, dg, 0);
    } else {
        assert(0 * gw.size() == 0) by (nonlinear_arith);
    }
    gaps::value_reads(ow, ords, 0);
    assert forall|i: int| 0 <= i < n implies #[trigger] b.doc_at(i) == docs[i] by {
        sums_read(b, docs, i);
    }
    assert(b.doc_at(n - 1) == docs[n - 1]);
    assert(b.docs() =~= docs);
    assert(b.ordinals() =~= Seq::new(rows.len(), |i: int| rows[i].1));
}

/// A block that encodes postings in order holds their documents and
/// ordinals.
pub proof fn encoded_block_reads<F: Fn(&[u32], WeightQuantization) -> QuantizedWeights>(
    b: &SparseBlock,
    rows: Seq<(u32, u16, u32)>,
    quant: WeightQuantization,
    quantize: F,
)
    requires
        1 <= rows.len() <= MAX_BLOCK_SIZE,
        gaps::ascending(row_docs(rows)),
        encodes(b, rows, quant, quantize),
    ensures
        b.wf(),
        b.docs() == row_docs(rows),
        b.ordinals() == Seq::new(rows.len(), |i: int| rows[i].1),
{
    addresses_read(b, rows);
}

proof fn sums_read(b: &SparseBlock, docs: Seq<u32>, i: int)
    requires
        gaps::ascending(docs),
        0 <= i < docs.len(),
        b.header.first_doc_id == docs[0],
        forall|k: int|
            0 <= k < docs.len() - 1 ==> #[trigger] gaps::value_at(
                width_of(b.header.doc_id_bits),
                b.doc_ids_data@,
                k,
            ) == doc_gaps(docs)[k],
    ensures
        b.doc_at(i) == docs[i],
    decreases i,
{
    if i > 0 {
        sums_read(b, docs, i - 1);
        assert(docs[i - 1] <= docs[i]);
        assert(gaps::value_at(width_of(b.header.doc_id_bits), b.doc_ids_data@, i - 1) == doc_gaps(
            docs,
        )[i - 1]);
    }
}

/// The weights of a block that encodes postings: as they were at full
/// precision, else the codes that the quantizer gave.
pub proof fn encoded_weights_read<F: Fn(&[u32], WeightQuantization) -> QuantizedWeights>(
    b: &SparseBlock,
    rows: Seq<(u32, u16, u32)>,
    quant: WeightQuantization,
    quantize: F,
)
    requires
        1 <= rows.len() <= MAX_BLOCK_SIZE,
        sparse_weights::quantizes(quantize),
        encodes(b, rows, quant, quantize),
    ensures
        quant is Float32 ==> b.weights() == Seq::new(
            rows.len(),
            |i: int| Weight::Single(rows[i].2),
        ),
        !(quant is Float32) ==> exists|weights: &[u32], q: QuantizedWeights|
            {
                &&& weights@ == row_weights(rows)
                &&& #[trigger] quantize.ensures((weights, quant), q)
                &&& b.weights() == Seq::new(
                    rows.len(),
                    |i: int| sparse_weights::coded(quant, q.scale, q.min, q.codes@[i]),
                )
            },
{
    let weights = choose|weights: &[u32]|
        weights@ == row_weights(rows) && #[trigger] sparse_weights::are_stored(
            weights,
            quant,
            quantize,
            b.weights_data@,
        );
    if quant is Float32 {
        assert forall|i: int| 0 <= i < rows.len() implies #[trigger] b.weights()[i]
            == Weight::Single(rows[i].2) by {
            sparse_weights::numbers_read_back(weights@, i);
        }
        assert(b.weights() =~= Seq::new(rows.len(), |i: int| Weight::Single(rows[i].2)));
    } else {
        let q = choose|q: QuantizedWeights| #[trigger]
            quantize.ensures((weights, quant), q) && b.weights_data@
                == sparse_weights::stored_codes(quant, q.scale, q.min, q.codes@);
        assert forall|i: int| 0 <= i < rows.len() implies #[trigger] b.weights()[i]
            == sparse_weights::coded(quant, q.scale, q.min, q.codes@[i]) by {
            sparse_weights::codes_read_back(quant, q.scale, q.min, q.codes@, i);
        }
        assert(b.weights() =~= Seq::new(
            rows.len(),
            |i: int| sparse_weights::coded(quant, q.scale, q.min, q.codes@[i]),
        ));
    }
}

fn gaps_of(postings: &[(u32, u16, u32)]) -> (r: Vec<u32>)
    requires
        postings@.len() > 0,
    ensures
        r@ == doc_gaps(row_docs(postings@)),
{
    let mut out: Vec<u32> = Vec::new();
    let mut i: usize = 1;
    while i < postings.len()
        invariant
            1 <= i <= postings@.len(),
            out@.len() == i - 1,
            forall|k: int|
                0 <= k < i - 1 ==> #[trigger] out@[k] == doc_gaps(row_docs(postings@))[k],
        decreases postings@.len() - i,
    {
        let doc: u32 = postings[i].0;
        let prev: u32 = postings[i - 1].0;
        out.push(
            if doc >= prev {
                doc - prev
            } else {
                0
            },
        );
        i = i + 1;
    }
    proof {
        assert(out@ =~= doc_gaps(row_docs(postings@)));
    }
    out
}

fn ordinals_of(postings: &[(u32, u16, u32)]) -> (r: Vec<u32>)
    ensures
        r@ == row_ordinals(postings@),
{
    let mut out: Vec<u32> = Vec::new();
    let mut i: usize = 0;
    while i < postings.len()
        invariant
            i <= postings@.len(),
            out@.len() == i,
            forall|k: int| 0 <= k < i ==> #[trigger] out@[k] == postings@[k].1,
        decreases postings@.len() - i,
    {
        out.push(postings[i].1 as u32);
        i = i + 1;
    }
    proof {
        assert(out@ =~= row_ordinals(postings@));
    }
    out
}

fn weights_of_rows(postings: &[(u32, u16, u32)]) -> (r: Vec<u32>)
    ensures
        r@ == row_weights(postings@),
{
    let mut out: Vec<u32> = Vec::new();
    let mut i: usize = 0;
    while i < postings.len()
        invariant
            i <= postings@.len(),
            out@.len() == i,
            forall|k: int| 0 <= k < i ==> #[trigger] out@[k] == postings@[k].2,
        decreases postings@.len() - i,
    {
        out.push(postings[i].2);
        i = i + 1;
    }
    proof {
        assert(out@ =~= row_weights(postings@));
    }
    out
}

impl SparseBlock {
    /// A block with the documents and ordinals of postings.
    pub(crate) fn assemble(
        postings: &[(u32, u16, u32)],
        weight_quant: WeightQuantization,
        max_weight: u32,
        weights_data: Vec<u8>,
    ) -> (r: Self)
        requires
            1 <= postings@.len() <= MAX_BLOCK_SIZE,
        ensures
            addresses(&r, postings@),
            r.header.weight_quant == weight_quant,
            r.header.max_weight == max_weight,
            r.weights_data@ == weights_data@,
    {
        let count: usize = postings.len();
        let deltas: Vec<u32> = gaps_of(postings);
        let ordinals: Vec<u32> = ordinals_of(postings);
        let doc_width = RoundedBitWidth::from_max_value(encode::max_of(deltas.as_slice()));
        let ordinal_width = RoundedBitWidth::from_max_value(encode::max_of(ordinals.as_slice()));
        let header = BlockHeader {
            count: count as u16,
            doc_id_bits: bits_of(doc_width),
            ordinal_bits: bits_of(ordinal_width),
            weight_quant,
            first_doc_id: postings[0].0,
            max_weight,
        };
        SparseBlock {
            header,
            doc_ids_data: gaps::pack_fixed(deltas.as_slice(), doc_width),
            ordinals_data: gaps::pack_fixed(ordinals.as_slice(), ordinal_width),
            weights_data,
            last_doc_id: postings[count - 1].0,
        }
    }

    /// Encode from one to 256 postings: document, ordinal and the bits of
    /// the weight.
    pub fn from_postings<F: Fn(&[u32], WeightQuantization) -> QuantizedWeights>(
        postings: &[(u32, u16, u32)],
        weight_quant: WeightQuantization,
        quantize: &F,
    ) -> (r: Self)
        requires
            1 <= postings@.len() <= MAX_BLOCK_SIZE,
            sparse_weights::quantizes(*quantize),
        ensures
            encodes(&r, postings@, weight_quant, *quantize),
            gaps::ascending(row_docs(postings@)) ==> r.wf() && r.docs() == row_docs(postings@),
    {
        let weights: Vec<u32> = weights_of_rows(postings);
        let weight_slice: &[u32] = weights.as_slice();
        let weights_data: Vec<u8> = sparse_weights::encode_weights(
            weight_slice,
            weight_quant,
            quantize,
        );
        let max_weight: u32 = sparse_weights::max_weight(weight_slice);
        let r = Self::assemble(postings, weight_quant, max_weight, weights_data);
        proof {
            assert(sparse_weights::are_stored(
                weight_slice,
                weight_quant,
                *quantize,
                r.weights_data@,
            ));
            if gaps::ascending(row_docs(postings@)) {
                encoded_block_reads(&r, postings@, weight_quant, *quantize);
            }
        }
        r
    }

    /// The last document.
    pub fn last_doc_id(&self) -> (r: u32)
        ensures
            r == self.last_doc_id,
    {
        self.last_doc_id
    }

    /// Decode the documents in place of what `out` holds.
    pub fn decode_doc_ids_into(&self, out: &mut Vec<u32>)
        requires
            self.fits(),
        ensures
            final(out)@ == self.docs(),
    {
        out.clear();
        let count: usize = self.header.count as usize;
        let w = width_from(self.header.doc_id_bits);
        let mut doc: u32 = self.header.first_doc_id;
        out.push(doc);
        proof {
            block_docs_ascending(self);
        }
        let mut i: usize = 1;
        while i < count
            invariant
                1 <= i <= count,
                self.fits(),
                count == self.count(),
                w == width_of(self.header.doc_id_bits),
                doc == self.doc_at(i - 1),
                out@.len() == i,
                forall|k: int| 0 <= k < i ==> #[trigger] out@[k] == self.docs()[k],
                forall|k: int| 0 <= k < count ==> #[trigger] self.docs()[k] == self.doc_at(k),
            decreases count - i,
        {
            proof {
                assert(self.docs()[i as int] == self.doc_at(i as int));
                assert(i * w.size() <= (count - 1) * w.size()) by (nonlinear_arith)
                    requires
                        i <= count - 1,
                        w.size() >= 0,
                ;
                assert(self.doc_ids_data.len() == self.doc_ids_data@.len());
            }
            doc = doc + gaps::get_fixed(self.doc_ids_data.as_slice(), w, i - 1);
            out.push(doc);
            i = i + 1;
        }
        proof {
            assert(out@ =~= self.docs());
        }
    }

    /// The documents.
    pub fn decode_doc_ids(&self) -> (out: Vec<u32>)
        requires
            self.fits(),
        ensures
            out@ == self.docs(),
    {
        let mut out: Vec<u32> = Vec::new();
        self.decode_doc_ids_into(&mut out);
        out
    }

    /// Decode the ordinals in place of what `out` holds.
    pub fn decode_ordinals_into(&self, out: &mut Vec<u16>)
        requires
            self.fits(),
        ensures
            final(out)@ == self.ordinals(),
    {
        out.clear();
        let count: usize = self.header.count as usize;
        let w = width_from(self.header.ordinal_bits);
        let mut i: usize = 0;
        while i < count
            invariant
                i <= count,
                self.fits(),
                count == self.count(),
                w == width_of(self.header.ordinal_bits),
                out@.len() == i,
                forall|k: int| 0 <= k < i ==> #[trigger] out@[k] == self.ordinals()[k],
            decreases count - i,
        {
            proof {
                assert((i + 1) * w.size() <= count * w.size()) by (nonlinear_arith)
                    requires
                        i + 1 <= count,
                        w.size() >= 0,
                ;
                assert(self.ordinals_data.len() == self.ordinals_data@.len());
            }
            let v: u32 = gaps::get_fixed(self.ordinals_data.as_slice(), w, i);
            out.push((v % 0x1_0000) as u16);
            i = i + 1;
        }
        proof {
            assert(out@ =~= self.ordinals());
        }
    }

    /// The ordinals.
    pub fn decode_ordinals(&self) -> (out: Vec<u16>)
        requires
            self.fits(),
        ensures
            out@ == self.ordinals(),
    {
        let mut out: Vec<u16> = Vec::new();
        self.decode_ordinals_into(&mut out);
        out
    }

    /// Decode the weights in place of what `out` holds.
    pub fn decode_weights_into(&self, out: &mut Vec<Weight>)
        requires
            self.weights_fit(),
        ensures
            final(out)@ == self.weights(),
    {
        out.clear();
        proof {
            assert(self.weights_data.len() == self.weights_data@.len());
        }
        sparse_weights::decode_weights_into(
            self.weights_data.as_slice(),
            self.header.weight_quant,
            self.header.count as usize,
            out,
        );
        proof {
            assert(out@ =~= self.weights());
        }
    }

    /// The weights.
    pub fn decode_weights(&self) -> (out: Vec<Weight>)
        requires
            self.weights_fit(),
        ensures
            out@ == self.weights(),
    {
        let mut out: Vec<Weight> = Vec::new();
        self.decode_weights_into(&mut out);
        out
    }

    /// Whether every part can be stored.
    pub open spec fn storable(&self) -> bool {
        &&& self.doc_ids_data@.len() <= 0xFFFF
        &&& self.ordinals_data@.len() <= 0xFFFF
        &&& self.weights_data@.len() <= 0xFFFF
    }

    /// The stored block: the header, the sizes of the parts, the parts.
    pub open spec fn stored(&self) -> Seq<u8> {
        self.header.stored() + bytes::le16(self.doc_ids_data@.len() as u16) + bytes::le16(
            self.ordinals_data@.len() as u16,
        ) + bytes::le16(self.weights_data@.len() as u16) + bytes::le16(0) + self.doc_ids_data@
            + self.ordinals_data@ + self.weights_data@
    }

    /// The refusal of a part that is too large.
    pub open spec fn too_large(&self) -> SparseError {
        SparseError::TooLarge(
            self.doc_ids_data@.len() as usize,
            self.ordinals_data@.len() as usize,
            self.weights_data@.len() as usize,
        )
    }

    /// Append the stored block.
    pub fn write(&self, out: &mut Vec<u8>) -> (r: Result<(), SparseError>)
        ensures
            match r {
                Ok(()) => self.storable() && final(out)@ == old(out)@ + self.stored(),
                Err(e) => !self.storable() && e == self.too_large() && final(out)@ == old(out)@,
            },
    {
        if self.doc_ids_data.len() > 0xFFFF || self.ordinals_data.len() > 0xFFFF
            || self.weights_data.len() > 0xFFFF {
            return Err(
                SparseError::TooLarge(
                    self.doc_ids_data.len(),
                    self.ordinals_data.len(),
                    self.weights_data.len(),
                ),
            );
        }
        let ghost before = out@;
        self.header.write(out);
        bytes::put_u16(out, self.doc_ids_data.len() as u16);
        bytes::put_u16(out, self.ordinals_data.len() as u16);
        bytes::put_u16(out, self.weights_data.len() as u16);
        bytes::put_u16(out, 0);
        bytes::put_slice(out, self.doc_ids_data.as_slice());
        bytes::put_slice(out, self.ordinals_data.as_slice());
        bytes::put_slice(out, self.weights_data.as_slice());
        proof {
            assert(out@ =~= before + self.stored());
        }
        Ok(())
    }
}

/// Where the parts of a stored block end.
pub open spec fn docs_end(b: Seq<u8>) -> int {
    24 + bytes::u16_at(b, 16)
}

pub open spec fn ordinals_end(b: Seq<u8>) -> int {
    docs_end(b) + bytes::u16_at(b, 18)
}

pub open spec fn block_end(b: Seq<u8>) -> int {
    ordinals_end(b) + bytes::u16_at(b, 20)
}

/// Whether a block is what the start of `b` holds.
pub open spec fn block_is_at(block: &SparseBlock, b: Seq<u8>) -> bool {
    &&& block.header.is_at(b)
    &&& block.doc_ids_data@ == b.subrange(24, docs_end(b))
    &&& block.ordinals_data@ == b.subrange(docs_end(b), ordinals_end(b))
    &&& block.weights_data@ == b.subrange(ordinals_end(b), block_end(b))
}

/// What is wrong with the block at the start of `b`.
pub open spec fn block_refusal(b: Seq<u8>) -> Option<SparseError> {
    if b.len() < 24 {
        Some(SparseError::TooSmall)
    } else if b[4] > 3 {
        Some(SparseError::Quantization)
    } else if bytes::u16_at(b, 0) == 0 {
        Some(SparseError::Empty(b.len() as usize))
    } else if block_end(b) > b.len() {
        Some(
            SparseError::Overflow(
                PartSizes {
                    count: bytes::u16_at(b, 0),
                    doc_ids: bytes::u16_at(b, 16),
                    ordinals: bytes::u16_at(b, 18),
                    weights: bytes::u16_at(b, 20),
                    need: block_end(b) as usize,
                    have: b.len() as usize,
                },
            ),
        )
    } else if exists|h: BlockHeader| #[trigger]
        h.is_at(b) && parts_fit(
            h,
            b.subrange(24, docs_end(b)),
            b.subrange(docs_end(b), ordinals_end(b)),
            b.subrange(ordinals_end(b), block_end(b)),
        ) {
        None
    } else {
        Some(SparseError::Shape)
    }
}

/// The last document of parts that have room for the documents, if it is
/// one.
fn compute_last_doc(header: &BlockHeader, data: &[u8]) -> (r: Option<u32>)
    requires
        1 <= header.count,
        (header.count - 1) * width_of(header.doc_id_bits).size() <= data.len(),
    ensures
        ({
            let last = doc_sum(
                width_of(header.doc_id_bits),
                data@,
                header.first_doc_id,
                header.count - 1,
            );
            match r {
                Some(doc) => doc == last,
                None => last > u32::MAX,
            }
        }),
{
    let count: usize = header.count as usize;
    let w = width_from(header.doc_id_bits);
    let mut sum: u64 = header.first_doc_id as u64;
    let mut i: usize = 1;
    while i < count
        invariant
            1 <= i <= count,
            count == header.count,
            w == width_of(header.doc_id_bits),
            (count - 1) * w.size() <= data.len(),
            sum == doc_sum(w, data@, header.first_doc_id, i - 1),
            sum <= i * 0xFFFF_FFFF,
        decreases count - i,
    {
        proof {
            assert(i * w.size() <= (count - 1) * w.size()) by (nonlinear_arith)
                requires
                    i <= count - 1,
                    w.size() >= 0,
            ;
        }
        sum = sum + gaps::get_fixed(data, w, i - 1) as u64;
        i = i + 1;
    }
    if sum <= 0xFFFF_FFFF {
        Some(sum as u32)
    } else {
        None
    }
}

fn room_for(count: u16, bits: u8, len: usize) -> (r: bool)
    requires
        whole_width(bits),
    ensures
        r == (count * width_of(bits).size() <= len),
{
    let size: usize = width_from(bits).bytes_per_value();
    proof {
        assert(count * size <= 0xFFFF * 4) by (nonlinear_arith)
            requires
                count <= 0xFFFF,
                size <= 4,
        ;
    }
    count as usize * size <= len
}

fn whole(bits: u8) -> (r: bool)
    ensures
        r == whole_width(bits),
{
    bits == 0 || bits == 8 || bits == 16 || bits == 32
}

fn weight_room(quant: WeightQuantization, count: u16, len: usize) -> (r: bool)
    ensures
        r == (sparse_weights::weight_bytes(quant, count as int) <= len),
{
    let n: usize = count as usize;
    let need: usize = match quant {
        WeightQuantization::Float32 => 4 * n,
        WeightQuantization::Float16 => 2 * n,
        WeightQuantization::UInt8 => 8 + n,
        WeightQuantization::UInt4 => 8 + (n + 1) / 2,
    };
    need <= len
}

impl SparseBlock {
    /// Whether the parts hold the postings that the header tells of.
    pub fn is_readable(&self) -> (r: bool)
        ensures
            r == self.fits(),
    {
        let h: &BlockHeader = &self.header;
        if h.count == 0 || h.count > 256 || !whole(h.doc_id_bits) || !whole(h.ordinal_bits)
            || !room_for(h.count - 1, h.doc_id_bits, self.doc_ids_data.len()) || !room_for(
            h.count,
            h.ordinal_bits,
            self.ordinals_data.len(),
        ) || !self.has_weights() {
            return false;
        }
        compute_last_doc(h, self.doc_ids_data.as_slice()).is_some()
    }

    /// Whether there is a weight for every posting.
    pub fn has_weights(&self) -> (r: bool)
        ensures
            r == self.weights_fit(),
    {
        weight_room(self.header.weight_quant, self.header.count, self.weights_data.len())
    }

    /// Read a block from the start of `b`. Gives the block and its size.
    pub fn read(b: &[u8]) -> (r: Result<(Self, usize), SparseError>)
        ensures
            match r {
                Ok((block, n)) => {
                    &&& block_refusal(b@) is None
                    &&& block.wf()
                    &&& block_is_at(&block, b@)
                    &&& n == block_end(b@)
                },
                Err(e) => block_refusal(b@) == Some(e),
            },
    {
        if b.len() < 24 {
            return Err(SparseError::TooSmall);
        }
        let header: BlockHeader = match BlockHeader::read(b) {
            Ok(header) => header,
            Err(e) => {
                return Err(e);
            },
        };
        if header.count == 0 {
            return Err(SparseError::Empty(b.len()));
        }
        let doc_ids: u16 = bytes::get_u16(b, 16);
        let ordinals: u16 = bytes::get_u16(b, 18);
        let weights: u16 = bytes::get_u16(b, 20);
        let ord_start: usize = 24 + doc_ids as usize;
        let wt_start: usize = ord_start + ordinals as usize;
        let end: usize = wt_start + weights as usize;
        if end > b.len() {
            return Err(
                SparseError::Overflow(
                    PartSizes {
                        count: header.count,
                        doc_ids,
                        ordinals,
                        weights,
                        need: end,
                        have: b.len(),
                    },
                ),
            );
        }
        let doc_ids_data: Vec<u8> = bytes::copy_range(b, 24, ord_start);
        let ordinals_data: Vec<u8> = bytes::copy_range(b, ord_start, wt_start);
        let weights_data: Vec<u8> = bytes::copy_range(b, wt_start, end);
        proof {
            assert forall|h: BlockHeader| #[trigger] h.is_at(b@) implies h == header by {}
        }
        if header.count > 256 || !whole(header.doc_id_bits) || !whole(header.ordinal_bits)
            || !room_for(header.count - 1, header.doc_id_bits, doc_ids_data.len())
            || !room_for(header.count, header.ordinal_bits, ordinals_data.len()) || !weight_room(
            header.weight_quant,
            header.count,
            weights_data.len(),
        ) {
            return Err(SparseError::Shape);
        }
        let last_doc_id: u32 = match compute_last_doc(&header, doc_ids_data.as_slice()) {
            Some(doc) => doc,
            None => {
                return Err(SparseError::Shape);
            },
        };
        proof {
            assert(header.is_at(b@));
        }
        Ok((SparseBlock { header, doc_ids_data, ordinals_data, weights_data, last_doc_id }, end))
    }

    /// The block that the start of `b` holds.
    pub fn from_owned_bytes(b: &[u8]) -> (r: Result<Self, SparseError>)
        ensures
            match r {
                Ok(block) => {
                    &&& block_refusal(b@) is None
                    &&& block.wf()
                    &&& block_is_at(&block, b@)
                },
                Err(e) => block_refusal(b@) == Some(e),
            },
    {
        match Self::read(b) {
            Ok((block, _)) => Ok(block),
            Err(e) => Err(e),
        }
    }

    /// Whether another block differs only in where its documents start.
    pub open spec fn is_moved(&self, of: &SparseBlock, offset: u32) -> bool {
        &&& self.header == BlockHeader {
            first_doc_id: (of.header.first_doc_id + offset) as u32,
            ..of.header
        }
        &&& self.doc_ids_data@ == of.doc_ids_data@
        &&& self.ordinals_data@ == of.ordinals_data@
        &&& self.weights_data@ == of.weights_data@
        &&& self.last_doc_id == of.last_doc_id + offset
    }

    /// The block with every document moved up. Only the header changes.
    pub fn with_doc_offset(&self, doc_offset: u32) -> (r: Self)
        requires
            self.header.first_doc_id + doc_offset <= u32::MAX,
            self.last_doc_id + doc_offset <= u32::MAX,
        ensures
            r.is_moved(self, doc_offset),
    {
        let r = SparseBlock {
            header: BlockHeader {
                count: self.header.count,
                doc_id_bits: self.header.doc_id_bits,
                ordinal_bits: self.header.ordinal_bits,
                weight_quant: self.header.weight_quant,
                first_doc_id: self.header.first_doc_id + doc_offset,
                max_weight: self.header.max_weight,
            },
            doc_ids_data: bytes::copy_range(
                self.doc_ids_data.as_slice(),
                0,
                self.doc_ids_data.len(),
            ),
            ordinals_data: bytes::copy_range(
                self.ordinals_data.as_slice(),
                0,
                self.ordinals_data.len(),
            ),
            weights_data: bytes::copy_range(
                self.weights_data.as_slice(),
                0,
                self.weights_data.len(),
            ),
            last_doc_id: self.last_doc_id + doc_offset,
        };
        proof {
            assert(r.doc_ids_data@ =~= self.doc_ids_data@);
            assert(r.ordinals_data@ =~= self.ordinals_data@);
            assert(r.weights_data@ =~= self.weights_data@);
        }
        r
    }
}

/// A moved block has the same postings with every document moved up.
pub proof fn moved_rows(b: &SparseBlock, of: &SparseBlock, offset: u32)
    requires
        of.wf(),
        of.last_doc_id + offset <= u32::MAX,
        b.is_moved(of, offset),
    ensures
        b.wf(),
        b.rows() == Seq::new(
            of.rows().len(),
            |i: int| ((of.rows()[i].0 + offset) as u32, of.rows()[i].1, of.rows()[i].2),
        ),
{
    let w = width_of(of.header.doc_id_bits);
    block_docs_ascending(of);
    assert forall|i: int| 0 <= i < of.count() implies #[trigger] b.doc_at(i) == of.doc_at(i)
        + offset by {
        sum_moves(w, of.doc_ids_data@, of.header.first_doc_id, offset, i);
    }
    assert(b.doc_at(b.count() - 1) == of.doc_at(b.count() - 1) + offset);
    assert(b.wf());
    block_docs_ascending(b);
    assert forall|i: int| 0 <= i < of.count() implies #[trigger] b.rows()[i] == (
        (of.rows()[i].0 + offset) as u32,
        of.rows()[i].1,
        of.rows()[i].2,
    ) by {
        assert(b.docs()[i] == b.doc_at(i));
        assert(of.docs()[i] == of.doc_at(i));
    }
    assert(b.rows() =~= Seq::new(
        of.rows().len(),
        |i: int| ((of.rows()[i].0 + offset) as u32, of.rows()[i].1, of.rows()[i].2),
    ));
}

proof fn sum_moves(w: RoundedBitWidth, b: Seq<u8>, first: u32, offset: u32, i: int)
    requires
        first + offset <= u32::MAX,
    ensures
        doc_sum(w, b, (first + offset) as u32, i) == doc_sum(w, b, first, i) + offset,
    decreases i,
{
    if i > 0 {
        sum_moves(w, b, first, offset, i - 1);
    }
}

/// A stored block, whatever follows it, is read back as it was.
pub proof fn sparse_block_roundtrip(b: &SparseBlock, after: Seq<u8>)
    requires
        b.wf(),
        b.storable(),
    ensures
        block_refusal(b.stored() + after) is None,
        block_is_at(b, b.stored() + after),
        block_end(b.stored() + after) == b.stored().len(),
{
    broadcast use bytes::group_word_sizes;

    let all = b.stored() + after;
    let h = b.header.stored();
    bytes::le16_roundtrip(b.header.count);
    bytes::le16_roundtrip(b.doc_ids_data@.len() as u16);
    bytes::le16_roundtrip(b.ordinals_data@.len() as u16);
    bytes::le16_roundtrip(b.weights_data@.len() as u16);
    bytes::le32_roundtrip(b.header.first_doc_id);
    bytes::le32_roundtrip(b.header.max_weight);
    assert(h.len() == 16);
    assert(all.subrange(8, 12) =~= bytes::le32(b.header.first_doc_id));
    assert(all.subrange(12, 16) =~= bytes::le32(b.header.max_weight));
    bytes::section_u32(all, 8, bytes::le32(b.header.first_doc_id), 0);
    bytes::section_u32(all, 12, bytes::le32(b.header.max_weight), 0);
    assert(all[0] == bytes::le16(b.header.count)[0] && all[1] == bytes::le16(b.header.count)[1]);
    let dl = b.doc_ids_data@.len() as u16;
    let ol = b.ordinals_data@.len() as u16;
    let wl = b.weights_data@.len() as u16;
    assert(all[16] == bytes::le16(dl)[0] && all[17] == bytes::le16(dl)[1]);
    assert(all[18] == bytes::le16(ol)[0] && all[19] == bytes::le16(ol)[1]);
    assert(all[20] == bytes::le16(wl)[0] && all[21] == bytes::le16(wl)[1]);
    assert(all.subrange(24, 24 + dl) =~= b.doc_ids_data@);
    assert(all.subrange(24 + dl, 24 + dl + ol) =~= b.ordinals_data@);
    assert(all.subrange(24 + dl + ol, 24 + dl + ol + wl) =~= b.weights_data@);
    assert(b.header.is_at(all));
}

} // verus!
