//! Posting blocks of 128 with gaps and frequencies packed at one width each:
//! in rows of 8, 16 or 32 bits, or in planes of single bits.
use crate::bits;
use crate::block;
use crate::bytes;
use crate::codec;
use crate::encode;
use crate::pack;
use crate::pack::Layout;
use crate::posting::Posting;
use vstd::arithmetic::power2::*;
use vstd::prelude::*;

verus! {

/// Postings of a full block.
pub const VERTICAL_BP128_BLOCK_SIZE: usize = 128;

/// Postings of a full block.
pub const ROUNDED_BP128_BLOCK_SIZE: usize = 128;

/// Append 128 values in planes: bit `b` of all of them in 16 bytes, for every
/// `b` below the width.
pub fn pack_vertical(values: &[u32; 128], bit_width: u8, output: &mut Vec<u8>)
    requires
        bit_width <= 32,
    ensures
        final(output)@ == old(output)@ + pack::pack_spec(
            Layout::Planes,
            values@,
            bit_width as nat,
        ),
{
    let slice: &[u32] = vstd::array::array_as_slice(values);
    pack::pack(Layout::Planes, slice, bit_width, output);
}

/// Read 128 values in planes.
pub fn unpack_vertical(input: &[u8], bit_width: u8, output: &mut [u32; 128])
    requires
        bit_width <= 32,
        input.len() >= 16 * bit_width,
    ensures
        final(output)@ == pack::unpack_spec(Layout::Planes, input@, bit_width as nat, 128),
{
    proof {
        plane_bytes(bit_width);
    }
    let mut i: usize = 0;
    while i < 128
        invariant
            i <= 128,
            bit_width <= 32,
            input.len() >= bits::packed_len(128, bit_width as nat),
            forall|k: int|
                0 <= k < i ==> #[trigger] output@[k] == pack::unpacked(
                    Layout::Planes,
                    input@,
                    bit_width as nat,
                    k,
                ),
        decreases 128 - i,
    {
        output[i] = pack::unpack_one(Layout::Planes, input, bit_width, 128, i);
        i = i + 1;
    }
    proof {
        assert(output@ =~= pack::unpack_spec(Layout::Planes, input@, bit_width as nat, 128));
    }
}

/// Planes of 128 values take 16 bytes for every bit.
proof fn plane_bytes(w: u8)
    requires
        w <= 32,
    ensures
        bits::packed_len(128, w as nat) == 16 * w,
{
    assert(128 * (w as nat) == 128 * w) by (nonlinear_arith);
}

/// Document `i` of gaps in a layout; one less than each gap is stored.
pub open spec fn gap_sum(layout: Layout, data: Seq<u8>, w: nat, first: u32, i: int) -> int
    decreases i,
{
    if i <= 0 {
        first as int
    } else {
        gap_sum(layout, data, w, first, i - 1) + pack::unpacked(layout, data, w, i - 1) + 1
    }
}

/// The documents of gaps in a layout.
pub open spec fn gap_docs(layout: Layout, data: Seq<u8>, w: nat, first: u32, n: nat) -> Seq<u32> {
    Seq::new(n, |i: int| (gap_sum(layout, data, w, first, i) % 0x1_0000_0000) as u32)
}

/// Decode documents from gaps in a layout of `slots` values.
fn decode_gaps(
    layout: Layout,
    data: &[u8],
    w: u8,
    slots: usize,
    first: u32,
    n: usize,
) -> (docs: Vec<u32>)
    requires
        w <= 32,
        layout.admits(slots as int),
        n > 0 ==> n - 1 <= slots,
        n > 1 ==> data.len() >= bits::packed_len(slots as nat, w as nat),
    ensures
        docs@ == gap_docs(layout, data@, w as nat, first, n as nat),
{
    let mut docs: Vec<u32> = Vec::new();
    let ghost want = gap_docs(layout, data@, w as nat, first, n as nat);
    if n == 0 {
        proof {
            assert(docs@ =~= want);
        }
        return docs;
    }
    docs.push(first);
    let mut current: u32 = first;
    let mut i: usize = 1;
    while i < n
        invariant
            1 <= i <= n,
            w <= 32,
            layout.admits(slots as int),
            n - 1 <= slots,
            n > 1 ==> data.len() >= bits::packed_len(slots as nat, w as nat),
            docs@.len() == i,
            gap_sum(layout, data@, w as nat, first, i - 1) >= 0,
            current == gap_sum(layout, data@, w as nat, first, i - 1) % 0x1_0000_0000,
            want == gap_docs(layout, data@, w as nat, first, n as nat),
            forall|k: int| 0 <= k < i ==> #[trigger] docs@[k] == want[k],
        decreases n - i,
    {
        let delta: u32 = pack::unpack_one(layout, data, w, slots, i - 1);
        let ghost sum = gap_sum(layout, data@, w as nat, first, i - 1);
        current = current.wrapping_add(delta).wrapping_add(1);
        proof {
            assert(current == (sum % 0x1_0000_0000 + delta + 1) % 0x1_0000_0000);
            assert(current == (sum + delta + 1) % 0x1_0000_0000);
        }
        docs.push(current);
        i = i + 1;
    }
    proof {
        assert(docs@ =~= want);
    }
    docs
}

/// Read `count` documents from gaps in planes into the start of an array.
pub fn unpack_vertical_d1(
    input: &[u8],
    bit_width: u8,
    first_doc_id: u32,
    output: &mut [u32; 128],
    count: usize,
)
    requires
        bit_width <= 32,
        input.len() >= 16 * bit_width,
        count <= 128,
    ensures
        final(output)@ == gap_docs(
            Layout::Planes,
            input@,
            bit_width as nat,
            first_doc_id,
            count as nat,
        ) + old(output)@.skip(count as int),
{
    proof {
        plane_bytes(bit_width);
    }
    let ghost before = output@;
    let docs = decode_gaps(Layout::Planes, input, bit_width, 128, first_doc_id, count);
    let mut i: usize = 0;
    while i < count
        invariant
            i <= count <= 128,
            count == docs@.len(),
            before.len() == 128,
            forall|k: int| 0 <= k < i ==> #[trigger] output@[k] == docs@[k],
            forall|k: int| i <= k < 128 ==> output@[k] == before[k],
        decreases count - i,
    {
        output[i] = docs[i];
        i = i + 1;
    }
    proof {
        assert(output@ =~= docs@ + before.skip(count as int));
    }
}

/// A block of up to 128 postings, in planes if `VERTICAL`, else in rows of
/// whole bytes.
#[derive(Debug)]
pub struct BP128Block<const VERTICAL: bool> {
    /// Packed gaps, each less one.
    pub doc_data: Vec<u8>,
    pub doc_bit_width: u8,
    /// Packed frequencies, each less one.
    pub tf_data: Vec<u8>,
    pub tf_bit_width: u8,
    pub first_doc_id: u32,
    pub last_doc_id: u32,
    pub num_docs: u16,
    /// Largest term frequency.
    pub max_tf: u32,
    /// Bits of the largest score, a single-precision number.
    pub max_block_score: u32,
}

pub type RoundedBP128Block = BP128Block<false>;

pub type VerticalBP128Block = BP128Block<true>;

/// Where values lie in a block.
pub open spec fn layout_of(vertical: bool) -> Layout {
    if vertical {
        Layout::Planes
    } else {
        Layout::Rows
    }
}

/// Number of values that the packed form of `n` has room for.
pub open spec fn slots_of(vertical: bool, n: int) -> int {
    if vertical {
        128
    } else {
        n
    }
}

/// Whether a block can have a width.
pub open spec fn width_ok(vertical: bool, w: u8) -> bool {
    if vertical {
        w <= 32
    } else {
        codec::is_rounded(w)
    }
}

/// The width that a block gives to values.
pub open spec fn block_width(vertical: bool, values: Seq<u32>) -> nat {
    if vertical {
        encode::exact_width(values)
    } else {
        encode::rounded_width(encode::exact_width(values))
    }
}

/// Values with zeros up to the slots that the packed form has.
pub open spec fn padded(vertical: bool, values: Seq<u32>) -> Seq<u32> {
    Seq::new(
        slots_of(vertical, values.len() as int) as nat,
        |i: int|
            if i < values.len() {
                values[i]
            } else {
                0
            },
    )
}

/// The packed form of values.
pub open spec fn block_data(vertical: bool, values: Seq<u32>) -> Seq<u8> {
    pack::pack_spec(layout_of(vertical), padded(vertical, values), block_width(vertical, values))
}

/// What is stored of the gaps: one less than each.
pub open spec fn less_one_gaps(docs: Seq<u32>) -> Seq<u32> {
    Seq::new((docs.len() - 1) as nat, |i: int| (docs[i + 1] - docs[i] - 1) as u32)
}

/// What is stored of the frequencies: one less than each, but not below zero.
pub open spec fn less_one_tfs(tfs: Seq<u32>) -> Seq<u32> {
    Seq::new(
        tfs.len(),
        |i: int|
            if tfs[i] == 0 {
                0
            } else {
                (tfs[i] - 1) as u32
            },
    )
}

/// Frequencies that a block gives back: it cannot tell zero from one.
pub open spec fn at_least_one(tfs: Seq<u32>) -> Seq<u32> {
    Seq::new(
        tfs.len(),
        |i: int|
            if tfs[i] == 0 {
                1
            } else {
                tfs[i]
            },
    )
}

impl<const VERTICAL: bool> BP128Block<VERTICAL> {
    /// Number of gap slots.
    pub open spec fn doc_slots(&self) -> int {
        slots_of(VERTICAL, self.num_docs - 1)
    }

    /// Number of frequency slots.
    pub open spec fn tf_slots(&self) -> int {
        slots_of(VERTICAL, self.num_docs as int)
    }

    /// Whether the widths are possible and the packed forms long enough.
    pub open spec fn shape_ok(&self) -> bool {
        &&& 0 < self.num_docs <= 128
        &&& width_ok(VERTICAL, self.doc_bit_width)
        &&& width_ok(VERTICAL, self.tf_bit_width)
        &&& self.doc_data.len() >= bits::packed_len(
            self.doc_slots() as nat,
            self.doc_bit_width as nat,
        )
        &&& self.tf_data.len() >= bits::packed_len(
            self.tf_slots() as nat,
            self.tf_bit_width as nat,
        )
    }

    /// The documents.
    pub open spec fn docs(&self) -> Seq<u32> {
        gap_docs(
            layout_of(VERTICAL),
            self.doc_data@,
            self.doc_bit_width as nat,
            self.first_doc_id,
            self.num_docs as nat,
        )
    }

    /// The term frequencies.
    pub open spec fn tfs(&self) -> Seq<u32> {
        Seq::new(
            self.num_docs as nat,
            |i: int|
                ((pack::unpacked(
                    layout_of(VERTICAL),
                    self.tf_data@,
                    self.tf_bit_width as nat,
                    i,
                ) + 1) % 0x1_0000_0000) as u32,
        )
    }

    /// The postings.
    pub open spec fn postings(&self) -> Seq<Posting> {
        Seq::new(
            self.num_docs as nat,
            |i: int| Posting { doc_id: self.docs()[i], term_freq: self.tfs()[i] },
        )
    }

    /// Whether the block can be decoded.
    pub fn has_valid_shape(&self) -> (r: bool)
        ensures
            r == self.shape_ok(),
    {
        if self.num_docs == 0 || self.num_docs > 128 {
            return false;
        }
        let (dw, tw): (u8, u8) = (self.doc_bit_width, self.tf_bit_width);
        if VERTICAL {
            if dw > 32 || tw > 32 {
                return false;
            }
        } else if !((dw == 0 || dw == 8 || dw == 16 || dw == 32) && (tw == 0 || tw == 8 || tw == 16
            || tw == 32)) {
            return false;
        }
        let n: usize = self.num_docs as usize;
        let (gaps, freqs): (usize, usize) = if VERTICAL {
            (128, 128)
        } else {
            (n - 1, n)
        };
        self.doc_data.len() >= bits::packed_bytes(gaps, dw) && self.tf_data.len()
            >= bits::packed_bytes(freqs, tw)
    }

    /// Decode the documents.
    pub fn decode_doc_ids(&self) -> (r: Vec<u32>)
        requires
            self.shape_ok(),
        ensures
            r@ == self.docs(),
    {
        let n: usize = self.num_docs as usize;
        let (layout, slots): (Layout, usize) = if VERTICAL {
            (Layout::Planes, 128)
        } else {
            (Layout::Rows, n - 1)
        };
        decode_gaps(
            layout,
            self.doc_data.as_slice(),
            self.doc_bit_width,
            slots,
            self.first_doc_id,
            n,
        )
    }

    /// Decode the documents into the start of a buffer; gives their number.
    pub fn decode_doc_ids_into(&self, output: &mut [u32]) -> (n: usize)
        requires
            self.shape_ok(),
            old(output)@.len() >= self.num_docs,
        ensures
            n == self.num_docs,
            final(output)@ == self.docs() + old(output)@.skip(n as int),
    {
        let docs = self.decode_doc_ids();
        copy_into(docs.as_slice(), output);
        docs.len()
    }

    /// Decode the term frequencies.
    pub fn decode_term_freqs(&self) -> (r: Vec<u32>)
        requires
            self.shape_ok(),
        ensures
            r@ == self.tfs(),
    {
        let n: usize = self.num_docs as usize;
        let (layout, slots): (Layout, usize) = if VERTICAL {
            (Layout::Planes, 128)
        } else {
            (Layout::Rows, n)
        };
        let mut r: Vec<u32> = Vec::new();
        let mut i: usize = 0;
        while i < n
            invariant
                i <= n == self.num_docs,
                self.shape_ok(),
                layout == layout_of(VERTICAL),
                slots == self.tf_slots(),
                r@.len() == i,
                forall|k: int| 0 <= k < i ==> #[trigger] r@[k] == self.tfs()[k],
            decreases n - i,
        {
            let stored: u32 = pack::unpack_one(
                layout,
                self.tf_data.as_slice(),
                self.tf_bit_width,
                slots,
                i,
            );
            r.push(stored.wrapping_add(1));
            i = i + 1;
        }
        proof {
            assert(r@ =~= self.tfs());
        }
        r
    }

    /// Decode the term frequencies into the start of a buffer; gives their
    /// number.
    pub fn decode_term_freqs_into(&self, output: &mut [u32]) -> (n: usize)
        requires
            self.shape_ok(),
            old(output)@.len() >= self.num_docs,
        ensures
            n == self.num_docs,
            final(output)@ == self.tfs() + old(output)@.skip(n as int),
    {
        let tfs = self.decode_term_freqs();
        copy_into(tfs.as_slice(), output);
        tfs.len()
    }

    /// Encode up to 128 postings. Rows need frequencies of at least one;
    /// planes take zero for one. The score is the bits of what `score` says
    /// of the largest frequency.
    pub fn create_block<F: Fn(u32) -> u32>(doc_ids: &[u32], term_freqs: &[u32], score: &F) -> (b:
        Self)
        requires
            0 < doc_ids@.len() <= 128,
            doc_ids@.len() == term_freqs@.len(),
            block::increasing(doc_ids@),
            !VERTICAL ==> forall|i: int|
                0 <= i < term_freqs@.len() ==> (#[trigger] term_freqs@[i]) >= 1,
            forall|tf: u32| #[trigger] score.requires((tf,)),
        ensures
            b.shape_ok(),
            b.docs() == doc_ids@,
            b.tfs() == at_least_one(term_freqs@),
            b.first_doc_id == doc_ids@[0],
            b.last_doc_id == doc_ids@.last(),
            b.num_docs == doc_ids@.len(),
            b.max_tf == encode::seq_max(term_freqs@),
            score.ensures((b.max_tf,), b.max_block_score),
            b.doc_bit_width == block_width(VERTICAL, less_one_gaps(doc_ids@)),
            b.tf_bit_width == block_width(VERTICAL, less_one_tfs(term_freqs@)),
            b.doc_data@ == block_data(VERTICAL, less_one_gaps(doc_ids@)),
            b.tf_data@ == block_data(VERTICAL, less_one_tfs(term_freqs@)),
            b.doc_data@.len() <= 512,
            b.tf_data@.len() <= 512,
    {
        let n: usize = doc_ids.len();
        let deltas = stored_gaps(doc_ids);
        let tfs = stored_tfs(term_freqs);
        let max_tf: u32 = encode::max_of(term_freqs);
        let max_block_score: u32 = score(max_tf);
        let (doc_bit_width, doc_data): (u8, Vec<u8>) = pack_block(VERTICAL, deltas.as_slice());
        let (tf_bit_width, tf_data): (u8, Vec<u8>) = pack_block(VERTICAL, tfs.as_slice());
        let b: BP128Block<VERTICAL> = BP128Block {
            doc_data,
            doc_bit_width,
            tf_data,
            tf_bit_width,
            first_doc_id: doc_ids[0],
            last_doc_id: doc_ids[n - 1],
            num_docs: n as u16,
            max_tf,
            max_block_score,
        };
        proof {
            created_docs(b, doc_ids@);
            created_tfs(b, term_freqs@);
        }
        b
    }
}

/// A packed form takes no more than 128 whole words.
proof fn packed_room(slots: nat, w: nat)
    requires
        slots <= 128,
        w <= 32,
    ensures
        bits::packed_len(slots, w) <= 512,
{
    assert(slots * w <= 128 * 32) by (nonlinear_arith)
        requires
            slots <= 128,
            w <= 32,
    ;
}

/// The documents of an encoded block.
proof fn created_docs<const VERTICAL: bool>(b: BP128Block<VERTICAL>, docs: Seq<u32>)
    requires
        0 < docs.len() <= 128,
        block::increasing(docs),
        b.num_docs == docs.len(),
        b.first_doc_id == docs[0],
        b.doc_bit_width == block_width(VERTICAL, less_one_gaps(docs)),
        b.doc_data@ == block_data(VERTICAL, less_one_gaps(docs)),
    ensures
        b.docs() == docs,
        b.doc_data.len() == bits::packed_len(b.doc_slots() as nat, b.doc_bit_width as nat),
        b.doc_data@.len() <= 512,
{
    block_reads(VERTICAL, less_one_gaps(docs));
    packed_room(b.doc_slots() as nat, b.doc_bit_width as nat);
    assert forall|k: int| 0 <= k < docs.len() implies (#[trigger] b.docs()[k]) == docs[k] by {
        sums_read(VERTICAL, b.doc_data@, b.doc_bit_width as nat, docs, k);
    }
    assert(b.docs() =~= docs);
}

/// The frequencies of an encoded block.
proof fn created_tfs<const VERTICAL: bool>(b: BP128Block<VERTICAL>, tfs: Seq<u32>)
    requires
        0 < tfs.len() <= 128,
        b.num_docs == tfs.len(),
        b.tf_bit_width == block_width(VERTICAL, less_one_tfs(tfs)),
        b.tf_data@ == block_data(VERTICAL, less_one_tfs(tfs)),
    ensures
        b.tfs() == at_least_one(tfs),
        b.tf_data.len() == bits::packed_len(b.tf_slots() as nat, b.tf_bit_width as nat),
        b.tf_data@.len() <= 512,
{
    block_reads(VERTICAL, less_one_tfs(tfs));
    packed_room(b.tf_slots() as nat, b.tf_bit_width as nat);
    assert forall|k: int| 0 <= k < tfs.len() implies (#[trigger] b.tfs()[k]) == at_least_one(
        tfs,
    )[k] by {
        assert(pack::unpacked(
            layout_of(VERTICAL),
            b.tf_data@,
            b.tf_bit_width as nat,
            k,
        ) == less_one_tfs(tfs)[k]);
    }
    assert(b.tfs() =~= at_least_one(tfs));
}

/// One less than each gap.
fn stored_gaps(doc_ids: &[u32]) -> (r: Vec<u32>)
    requires
        doc_ids@.len() > 0,
        block::increasing(doc_ids@),
    ensures
        r@ == less_one_gaps(doc_ids@),
{
    let ghost gaps = less_one_gaps(doc_ids@);
    let mut deltas: Vec<u32> = Vec::new();
    let mut i: usize = 1;
    while i < doc_ids.len()
        invariant
            1 <= i <= doc_ids@.len(),
            block::increasing(doc_ids@),
            gaps == less_one_gaps(doc_ids@),
            deltas@.len() == i - 1,
            forall|k: int| 0 <= k < i - 1 ==> #[trigger] deltas@[k] == gaps[k],
        decreases doc_ids@.len() - i,
    {
        proof {
            assert(doc_ids@[i - 1] < doc_ids@[i as int]);
        }
        deltas.push(doc_ids[i] - doc_ids[i - 1] - 1);
        i = i + 1;
    }
    proof {
        assert(deltas@ =~= gaps);
    }
    deltas
}

/// One less than each frequency, but not below zero.
fn stored_tfs(term_freqs: &[u32]) -> (r: Vec<u32>)
    ensures
        r@ == less_one_tfs(term_freqs@),
{
    let ghost freqs = less_one_tfs(term_freqs@);
    let mut tfs: Vec<u32> = Vec::new();
    let mut i: usize = 0;
    while i < term_freqs.len()
        invariant
            i <= term_freqs@.len(),
            freqs == less_one_tfs(term_freqs@),
            tfs@.len() == i,
            forall|k: int| 0 <= k < i ==> #[trigger] tfs@[k] == freqs[k],
        decreases term_freqs@.len() - i,
    {
        tfs.push(
            if term_freqs[i] == 0 {
                0
            } else {
                term_freqs[i] - 1
            },
        );
        i = i + 1;
    }
    proof {
        assert(tfs@ =~= freqs);
    }
    tfs
}

/// Copy values over the start of a buffer.
fn copy_into(values: &[u32], output: &mut [u32])
    requires
        values@.len() <= old(output)@.len(),
    ensures
        final(output)@ == values@ + old(output)@.skip(values@.len() as int),
{
    let ghost before = output@;
    let n: usize = values.len();
    let mut i: usize = 0;
    while i < n
        invariant
            i <= n == values@.len(),
            n <= before.len(),
            output@.len() == before.len(),
            forall|k: int| 0 <= k < i ==> #[trigger] output@[k] == values@[k],
            forall|k: int| i <= k < before.len() ==> output@[k] == before[k],
        decreases n - i,
    {
        output[i] = values[i];
        i = i + 1;
    }
    proof {
        assert(output@ =~= values@ + before.skip(n as int));
    }
}

/// Pack values at the width of a block.
fn pack_block(vertical: bool, values: &[u32]) -> (r: (u8, Vec<u8>))
    requires
        values@.len() <= 128,
    ensures
        r.0 == block_width(vertical, values@),
        r.0 <= 32,
        width_ok(vertical, r.0),
        r.1@ == block_data(vertical, values@),
{
    let exact: u8 = bits::bits_needed(encode::max_of(values));
    let w: u8 = if vertical {
        exact
    } else {
        encode::round_bit_width(exact)
    };
    let mut all: Vec<u32> = Vec::new();
    let slots: usize = if vertical {
        128
    } else {
        values.len()
    };
    let ghost want = padded(vertical, values@);
    while all.len() < slots
        invariant
            all@.len() <= slots == want.len(),
            values@.len() <= slots,
            want == padded(vertical, values@),
            forall|k: int| 0 <= k < all@.len() ==> #[trigger] all@[k] == want[k],
        decreases slots - all@.len(),
    {
        let i: usize = all.len();
        all.push(
            if i < values.len() {
                values[i]
            } else {
                0
            },
        );
    }
    proof {
        assert(all@ =~= want);
    }
    let layout = if vertical {
        Layout::Planes
    } else {
        Layout::Rows
    };
    let mut data: Vec<u8> = Vec::new();
    pack::pack(layout, all.as_slice(), w, &mut data);
    proof {
        assert(data@ =~= block_data(vertical, values@));
    }
    (w, data)
}

/// Packed values are read back.
proof fn block_reads(vertical: bool, values: Seq<u32>)
    requires
        values.len() <= 128,
    ensures
        ({
            let w = block_width(vertical, values);
            let data = block_data(vertical, values);
            &&& w <= 32
            &&& data.len() == bits::packed_len(
                slots_of(vertical, values.len() as int) as nat,
                w,
            )
            &&& forall|i: int|
                0 <= i < values.len() ==> #[trigger] pack::unpacked(
                    layout_of(vertical),
                    data,
                    w,
                    i,
                ) == values[i]
        }),
{
    let w = block_width(vertical, values);
    let all = padded(vertical, values);
    let layout = layout_of(vertical);
    let max = encode::seq_max(values) as nat;
    lemma2_to64();
    bits::bits_needed_fits(max, 32);
    bits::bits_needed_fits(max, w);
    lemma_pow2_pos(w);
    assert forall|i: int| 0 <= i < all.len() implies (#[trigger] all[i]) < pow2(w) by {
        if i < values.len() {
            encode::seq_max_bound(values, i);
        }
    }
    pack::pack_roundtrip(layout, all, w);
    assert forall|i: int| 0 <= i < values.len() implies #[trigger] pack::unpacked(
        layout,
        block_data(vertical, values),
        w,
        i,
    ) == values[i] by {
        assert(pack::unpack_spec(layout, pack::pack_spec(layout, all, w), w, all.len())[i]
            == all[i]);
    }
}

proof fn sums_read(vertical: bool, data: Seq<u8>, w: nat, docs: Seq<u32>, i: int)
    requires
        block::increasing(docs),
        0 <= i < docs.len(),
        forall|k: int|
            0 <= k < docs.len() - 1 ==> #[trigger] pack::unpacked(layout_of(vertical), data, w, k)
                == less_one_gaps(docs)[k],
    ensures
        gap_sum(layout_of(vertical), data, w, docs[0], i) == docs[i],
    decreases i,
{
    if i > 0 {
        sums_read(vertical, data, w, docs, i - 1);
        assert(docs[i - 1] < docs[i]);
        assert(pack::unpacked(layout_of(vertical), data, w, i - 1) == less_one_gaps(docs)[i - 1]);
    }
}

} // verus!
