//! Document numbers as gaps: as variable-length integers, and at a fixed
//! width.
use crate::block;
use crate::bytes;
use crate::encode;
use crate::vint;
use vstd::prelude::*;

verus! {

/// Whether documents never run backwards.
pub open spec fn ascending(s: Seq<u32>) -> bool {
    forall|i: int, j: int| 0 <= i <= j < s.len() ==> s[i] <= s[j]
}

/// Document `i` as it is stored: the first as it is, the others as gaps.
pub open spec fn gap_at(docs: Seq<u32>, i: int) -> int {
    if i == 0 {
        docs[0] as int
    } else {
        docs[i] - docs[i - 1]
    }
}

/// The stored gaps of the first `n` documents.
pub open spec fn gap_bytes(docs: Seq<u32>, n: int) -> Seq<u8>
    decreases n,
{
    if n <= 0 {
        Seq::empty()
    } else {
        gap_bytes(docs, n - 1) + vint::vint(gap_at(docs, n - 1) as nat)
    }
}

/// A stored block of documents: their number, then the gaps. No documents
/// take no bytes.
pub open spec fn stored_docs(docs: Seq<u32>) -> Seq<u8> {
    if docs.len() == 0 {
        Seq::empty()
    } else {
        vint::vint(docs.len() as nat) + gap_bytes(docs, docs.len() as int)
    }
}

/// Append a block of documents. Gives the last of them, or zero.
pub fn write_doc_id_block(out: &mut Vec<u8>, doc_ids: &[u32]) -> (r: u32)
    requires
        ascending(doc_ids@),
    ensures
        final(out)@ == old(out)@ + stored_docs(doc_ids@),
        r == (if doc_ids@.len() == 0 {
            0
        } else {
            doc_ids@.last()
        }),
{
    let ghost start = out@;
    if doc_ids.len() == 0 {
        proof {
            assert(out@ =~= start + stored_docs(doc_ids@));
        }
        return 0;
    }
    vint::write_vint(out, doc_ids.len() as u64);
    let ghost head = out@;
    let mut prev: u32 = 0;
    let mut i: usize = 0;
    proof {
        assert(head + gap_bytes(doc_ids@, 0) =~= head);
    }
    while i < doc_ids.len()
        invariant
            i <= doc_ids@.len(),
            ascending(doc_ids@),
            prev == (if i == 0 {
                0
            } else {
                doc_ids@[i - 1]
            }),
            out@ == head + gap_bytes(doc_ids@, i as int),
        decreases doc_ids@.len() - i,
    {
        let doc: u32 = doc_ids[i];
        vint::write_vint(out, (doc - prev) as u64);
        proof {
            assert(out@ =~= head + gap_bytes(doc_ids@, i + 1));
        }
        prev = doc;
        i = i + 1;
    }
    proof {
        assert(out@ =~= start + stored_docs(doc_ids@));
    }
    prev
}

/// The first `n` documents stored from byte `at` on and where they end;
/// nothing if they are cut off or a document overflows.
pub open spec fn docs_at(b: Seq<u8>, at: int, n: int) -> Option<(Seq<u32>, int)>
    decreases n,
{
    if n <= 0 {
        Some((Seq::empty(), at))
    } else {
        match docs_at(b, at, n - 1) {
            None => None,
            Some((docs, end)) => match vint::vint_at(b, end) {
                None => None,
                Some((v, next)) => {
                    let gap = (v % 0x1_0000_0000) as int;
                    let doc = if n == 1 {
                        gap
                    } else {
                        docs.last() + gap
                    };
                    if doc > u32::MAX {
                        None
                    } else {
                        Some((docs.push(doc as u32), next))
                    }
                },
            },
        }
    }
}

/// The block of documents stored at the start of `b`, and its size.
pub open spec fn read_docs(b: Seq<u8>) -> Option<(Seq<u32>, int)> {
    match vint::vint_at(b, 0) {
        None => None,
        Some((n, at)) => docs_at(b, at, n as int),
    }
}

proof fn docs_at_more(b: Seq<u8>, at: int, m: int, n: int)
    requires
        0 <= m <= n,
        docs_at(b, at, m) is None,
    ensures
        docs_at(b, at, n) is None,
    decreases n,
{
    if m < n {
        docs_at_more(b, at, m, n - 1);
    }
}

/// Read a block of documents from the start of `b`.
pub fn read_doc_id_block(b: &[u8]) -> (r: Option<(Vec<u32>, usize)>)
    ensures
        match (r, read_docs(b@)) {
            (Some((docs, n)), Some((want, end))) => docs@ == want && n == end,
            (None, None) => true,
            _ => false,
        },
{
    let (count, start): (u64, usize) = match vint::read_vint(b, 0) {
        Some(pair) => pair,
        None => {
            return None;
        },
    };
    let mut docs: Vec<u32> = Vec::new();
    let mut at: usize = start;
    let mut prev: u32 = 0;
    let mut i: u64 = 0;
    while i < count
        invariant
            i <= count,
            start <= at <= b.len(),
            vint::vint_at(b@, 0) == Some((count as nat, start as int)),
            docs_at(b@, start as int, i as int) == Some((docs@, at as int)),
            docs@.len() == i,
            prev == (if i == 0 {
                0
            } else {
                docs@.last()
            }),
        decreases count - i,
    {
        proof {
            if docs_at(b@, start as int, i + 1) is None {
                docs_at_more(b@, start as int, i + 1, count as int);
            }
        }
        let (value, next): (u64, usize) = match vint::read_vint(b, at) {
            Some(pair) => pair,
            None => {
                return None;
            },
        };
        let gap: u32 = (value % 0x1_0000_0000) as u32;
        let doc: u32 = match prev.checked_add(gap) {
            Some(doc) => doc,
            None => {
                return None;
            },
        };
        docs.push(doc);
        prev = doc;
        at = next;
        i = i + 1;
    }
    Some((docs, at))
}

/// A block of documents, whatever follows it, is read back as it was.
pub proof fn doc_id_block_roundtrip(docs: Seq<u32>, after: Seq<u8>)
    requires
        ascending(docs),
        0 < docs.len() <= u64::MAX,
    ensures
        read_docs(stored_docs(docs) + after) == Some((docs, stored_docs(docs).len() as int)),
{
    let b = stored_docs(docs) + after;
    let n = docs.len() as int;
    let head = vint::vint(n as nat);
    assert(b =~= Seq::empty() + vint::vint(n as u64 as nat) + (gap_bytes(docs, n) + after));
    vint::vint_roundtrip(Seq::empty(), n as u64, gap_bytes(docs, n) + after);
    gaps_read(docs, head, after, n);
    assert(b =~= head + gap_bytes(docs, n) + after);
    assert(docs.take(n) =~= docs);
}

proof fn gaps_read(docs: Seq<u32>, before: Seq<u8>, after: Seq<u8>, n: int)
    requires
        ascending(docs),
        0 <= n <= docs.len(),
    ensures
        docs_at(before + gap_bytes(docs, n) + after, before.len() as int, n) == Some(
            (docs.take(n), (before.len() + gap_bytes(docs, n).len()) as int),
        ),
    decreases n,
{
    let at = before.len() as int;
    if n > 0 {
        let gap = gap_at(docs, n - 1);
        let rest = vint::vint(gap as nat) + after;
        if n > 1 {
            assert(docs[n - 2] <= docs[n - 1]);
        }
        gaps_read(docs, before, rest, n - 1);
        let b = before + gap_bytes(docs, n) + after;
        assert(b =~= before + gap_bytes(docs, n - 1) + rest);
        assert(b =~= (before + gap_bytes(docs, n - 1)) + vint::vint(gap as u64 as nat) + after);
        vint::vint_roundtrip(before + gap_bytes(docs, n - 1), gap as u64, after);
        assert(docs.take(n) =~= docs.take(n - 1).push(docs[n - 1]));
        if n > 1 {
            assert(docs.take(n - 1).last() == docs[n - 2]);
        }
    } else {
        assert(docs.take(0) =~= Seq::empty());
    }
}

/// A width of whole bytes.
#[derive(Debug, Clone, Copy, PartialEq, Eq, Structural)]
pub enum RoundedBitWidth {
    /// All values are zero.
    Zero,
    Bits8,
    Bits16,
    Bits32,
}

/// The narrowest width that holds a value.
pub open spec fn width_for(max: u32) -> RoundedBitWidth {
    if max == 0 {
        RoundedBitWidth::Zero
    } else if max <= 255 {
        RoundedBitWidth::Bits8
    } else if max <= 65535 {
        RoundedBitWidth::Bits16
    } else {
        RoundedBitWidth::Bits32
    }
}

impl RoundedBitWidth {
    /// Bytes of a value.
    pub open spec fn size(self) -> int {
        match self {
            RoundedBitWidth::Zero => 0,
            RoundedBitWidth::Bits8 => 1,
            RoundedBitWidth::Bits16 => 2,
            RoundedBitWidth::Bits32 => 4,
        }
    }

    /// Determine the width needed for a largest value.
    pub fn from_max_value(max_val: u32) -> (r: Self)
        ensures
            r == width_for(max_val),
    {
        if max_val == 0 {
            RoundedBitWidth::Zero
        } else if max_val <= 255 {
            RoundedBitWidth::Bits8
        } else if max_val <= 65535 {
            RoundedBitWidth::Bits16
        } else {
            RoundedBitWidth::Bits32
        }
    }

    /// Bytes of a value.
    pub fn bytes_per_value(&self) -> (r: usize)
        ensures
            r == self.size(),
    {
        match self {
            RoundedBitWidth::Zero => 0,
            RoundedBitWidth::Bits8 => 1,
            RoundedBitWidth::Bits16 => 2,
            RoundedBitWidth::Bits32 => 4,
        }
    }

    /// The width of a number of bits, if it is one of the four.
    pub fn from_u8(v: u8) -> (r: Option<Self>)
        ensures
            r is Some <==> v == 0 || v == 8 || v == 16 || v == 32,
            r matches Some(w) ==> 8 * w.size() == v,
    {
        if v == 0 {
            Some(RoundedBitWidth::Zero)
        } else if v == 8 {
            Some(RoundedBitWidth::Bits8)
        } else if v == 16 {
            Some(RoundedBitWidth::Bits16)
        } else if v == 32 {
            Some(RoundedBitWidth::Bits32)
        } else {
            None
        }
    }
}

/// The bytes of a value at a width.
pub open spec fn value_bytes(w: RoundedBitWidth, v: u32) -> Seq<u8> {
    match w {
        RoundedBitWidth::Zero => Seq::empty(),
        RoundedBitWidth::Bits8 => seq![v as u8],
        RoundedBitWidth::Bits16 => bytes::le16(v as u16),
        RoundedBitWidth::Bits32 => bytes::le32(v),
    }
}

/// Value `i` at a width.
pub open spec fn value_at(w: RoundedBitWidth, b: Seq<u8>, i: int) -> u32 {
    match w {
        RoundedBitWidth::Zero => 0,
        RoundedBitWidth::Bits8 => b[i] as u32,
        RoundedBitWidth::Bits16 => bytes::u16_at(b, 2 * i) as u32,
        RoundedBitWidth::Bits32 => bytes::u32_at(b, 4 * i),
    }
}

/// What is stored of the gap before document `i + 1`: documents differ, so
/// one less than the gap.
pub open spec fn fixed_gaps(docs: Seq<u32>) -> Seq<u32> {
    Seq::new(
        if docs.len() == 0 {
            0
        } else {
            (docs.len() - 1) as nat
        },
        |i: int| (docs[i + 1] - docs[i] - 1) as u32,
    )
}

/// The values at a width, one after the other.
pub open spec fn fixed_parts(w: RoundedBitWidth, values: Seq<u32>) -> Seq<Seq<u8>> {
    Seq::new(values.len(), |i: int| value_bytes(w, values[i]))
}

/// Pack the gaps between documents at the narrowest width that fits.
pub fn pack_deltas_fixed(doc_ids: &[u32]) -> (r: (RoundedBitWidth, Vec<u8>))
    requires
        block::increasing(doc_ids@),
    ensures
        r.0 == width_for(encode::seq_max(fixed_gaps(doc_ids@))),
        r.1@ == bytes::joined(fixed_parts(r.0, fixed_gaps(doc_ids@))),
{
    let ghost gaps = fixed_gaps(doc_ids@);
    let mut packed: Vec<u8> = Vec::new();
    if doc_ids.len() <= 1 {
        proof {
            assert(gaps =~= Seq::empty());
            assert(fixed_parts(RoundedBitWidth::Zero, gaps) =~= Seq::empty());
            assert(packed@ =~= Seq::empty());
        }
        return (RoundedBitWidth::Zero, packed);
    }
    let mut deltas: Vec<u32> = Vec::new();
    let mut i: usize = 1;
    while i < doc_ids.len()
        invariant
            1 <= i <= doc_ids@.len(),
            block::increasing(doc_ids@),
            gaps == fixed_gaps(doc_ids@),
            deltas@.len() == i - 1,
            forall|k: int| 0 <= k < i - 1 ==> #[trigger] deltas@[k] == gaps[k],
        decreases doc_ids@.len() - i,
    {
        proof {
            assert(doc_ids@[i - 1] < doc_ids@[i as int]);
        }
        deltas.push(doc_ids[i] - doc_ids[i - 1] - 1);
        i = i + 1;
    }
    proof {
        assert(deltas@ =~= gaps);
    }
    let w = RoundedBitWidth::from_max_value(encode::max_of(deltas.as_slice()));
    (w, pack_fixed(deltas.as_slice(), w))
}

/// Pack values at a width that holds the largest of them.
pub fn pack_fixed(values: &[u32], w: RoundedBitWidth) -> (packed: Vec<u8>)
    requires
        w == width_for(encode::seq_max(values@)),
    ensures
        packed@ == bytes::joined(fixed_parts(w, values@)),
{
    let ghost parts = fixed_parts(w, values@);
    let mut packed: Vec<u8> = Vec::new();
    let mut k: usize = 0;
    proof {
        assert(packed@ =~= bytes::joined(parts.take(0)));
    }
    while k < values.len()
        invariant
            k <= values@.len(),
            parts == fixed_parts(w, values@),
            w == width_for(encode::seq_max(values@)),
            packed@ == bytes::joined(parts.take(k as int)),
        decreases values@.len() - k,
    {
        let value: u32 = values[k];
        let ghost before = packed@;
        proof {
            encode::seq_max_bound(values@, k as int);
        }
        match w {
            RoundedBitWidth::Zero => {},
            RoundedBitWidth::Bits8 => {
                packed.push(value as u8);
            },
            RoundedBitWidth::Bits16 => {
                bytes::put_u16(&mut packed, value as u16);
            },
            RoundedBitWidth::Bits32 => {
                bytes::put_u32(&mut packed, value);
            },
        }
        proof {
            assert(parts.take(k + 1).drop_last() =~= parts.take(k as int));
            assert(packed@ =~= before + parts[k as int]);
            assert(packed@ =~= bytes::joined(parts.take(k + 1)));
        }
        k = k + 1;
    }
    proof {
        assert(parts.take(parts.len() as int) =~= parts);
    }
    packed
}

/// Value `i` at a width.
pub fn get_fixed(packed: &[u8], w: RoundedBitWidth, i: usize) -> (r: u32)
    requires
        (i + 1) * w.size() <= packed.len(),
    ensures
        r == value_at(w, packed@, i as int),
{
    proof {
        let size = w.size();
        assert(size == 1 ==> (i + 1) * size == i + 1) by (nonlinear_arith);
        assert(size == 2 ==> (i + 1) * size == 2 * i + 2) by (nonlinear_arith);
        assert(size == 4 ==> (i + 1) * size == 4 * i + 4) by (nonlinear_arith);
    }
    match w {
        RoundedBitWidth::Zero => 0,
        RoundedBitWidth::Bits8 => packed[i] as u32,
        RoundedBitWidth::Bits16 => bytes::get_u16(packed, 2 * i) as u32,
        RoundedBitWidth::Bits32 => bytes::get_u32(packed, 4 * i),
    }
}

/// Document `i` of packed gaps, modulo the number of documents there are.
pub open spec fn fixed_sum(w: RoundedBitWidth, b: Seq<u8>, first: u32, i: int) -> int
    decreases i,
{
    if i <= 0 {
        first as int
    } else {
        fixed_sum(w, b, first, i - 1) + value_at(w, b, i - 1) + 1
    }
}

/// The documents of packed gaps.
pub open spec fn fixed_docs(w: RoundedBitWidth, b: Seq<u8>, first: u32, count: int) -> Seq<u32> {
    Seq::new(
        count as nat,
        |i: int| (fixed_sum(w, b, first, i) % 0x1_0000_0000) as u32,
    )
}

/// Unpack documents into the start of a buffer.
pub fn unpack_deltas_fixed(
    packed: &[u8],
    bit_width: RoundedBitWidth,
    first_doc_id: u32,
    count: usize,
    output: &mut [u32],
)
    requires
        count <= old(output)@.len(),
        count > 0 ==> (count - 1) * bit_width.size() <= packed.len(),
    ensures
        final(output)@ == fixed_docs(bit_width, packed@, first_doc_id, count as int) + old(
            output,
        )@.skip(count as int),
{
    let ghost before = output@;
    let ghost want = fixed_docs(bit_width, packed@, first_doc_id, count as int);
    if count == 0 {
        proof {
            assert(output@ =~= want + before.skip(0));
        }
        return;
    }
    output[0] = first_doc_id;
    let mut carry: u32 = first_doc_id;
    let mut i: usize = 1;
    while i < count
        invariant
            1 <= i <= count <= before.len(),
            output@.len() == before.len(),
            (count - 1) * bit_width.size() <= packed.len(),
            carry == fixed_sum(bit_width, packed@, first_doc_id, i - 1) % 0x1_0000_0000,
            fixed_sum(bit_width, packed@, first_doc_id, i - 1) >= 0,
            want == fixed_docs(bit_width, packed@, first_doc_id, count as int),
            forall|k: int| 0 <= k < i ==> #[trigger] output@[k] == want[k],
            forall|k: int| i <= k < before.len() ==> output@[k] == before[k],
        decreases count - i,
    {
        proof {
            assert(i * bit_width.size() <= (count - 1) * bit_width.size()) by (nonlinear_arith)
                requires
                    i <= count - 1,
                    bit_width.size() >= 0,
            ;
        }
        let delta: u32 = get_fixed(packed, bit_width, i - 1);
        let ghost sum = fixed_sum(bit_width, packed@, first_doc_id, i - 1);
        carry = carry.wrapping_add(delta).wrapping_add(1);
        proof {
            assert(delta == value_at(bit_width, packed@, i - 1));
            assert(carry == (sum % 0x1_0000_0000 + delta + 1) % 0x1_0000_0000);
            assert(carry == (sum + delta + 1) % 0x1_0000_0000);
        }
        output[i] = carry;
        i = i + 1;
    }
    proof {
        assert(output@ =~= want + before.skip(count as int));
    }
}

/// Packed gaps give back the documents.
pub proof fn fixed_roundtrip(docs: Seq<u32>)
    requires
        block::increasing(docs),
        docs.len() > 0,
    ensures
        ({
            let w = width_for(encode::seq_max(fixed_gaps(docs)));
            let b = bytes::joined(fixed_parts(w, fixed_gaps(docs)));
            &&& b.len() == (docs.len() - 1) * w.size()
            &&& fixed_docs(w, b, docs[0], docs.len() as int) == docs
        }),
{
    let gaps = fixed_gaps(docs);
    let w = width_for(encode::seq_max(gaps));
    let parts = fixed_parts(w, gaps);
    let b = bytes::joined(parts);
    broadcast use bytes::group_word_sizes;

    assert forall|i: int| 0 <= i < parts.len() implies (#[trigger] parts[i]).len() == w.size() by {}
    bytes::joined_uniform(parts, w.size(), parts.len() as int);
    bytes::joined_position(parts, parts.len() as int);
    assert forall|i: int| 0 <= i < gaps.len() implies value_at(w, b, i) == gaps[i] by {
        value_reads(w, gaps, i);
    }
    assert forall|i: int| 0 <= i < docs.len() implies (#[trigger] fixed_docs(
        w,
        b,
        docs[0],
        docs.len() as int,
    )[i]) == docs[i] by {
        sum_reads(w, b, docs, i);
    }
    assert(fixed_docs(w, b, docs[0], docs.len() as int) =~= docs);
}

proof fn sum_reads(w: RoundedBitWidth, b: Seq<u8>, docs: Seq<u32>, i: int)
    requires
        block::increasing(docs),
        0 <= i < docs.len(),
        forall|k: int| 0 <= k < docs.len() - 1 ==> #[trigger] value_at(w, b, k) == fixed_gaps(
            docs,
        )[k],
    ensures
        fixed_sum(w, b, docs[0], i) == docs[i],
    decreases i,
{
    if i > 0 {
        sum_reads(w, b, docs, i - 1);
        assert(docs[i - 1] < docs[i]);
        assert(value_at(w, b, i - 1) == fixed_gaps(docs)[i - 1]);
    }
}

/// A packed value is read back, and every value takes the width's size.
pub proof fn value_reads(w: RoundedBitWidth, gaps: Seq<u32>, i: int)
    requires
        0 <= i < gaps.len(),
        w == width_for(encode::seq_max(gaps)),
    ensures
        bytes::joined(fixed_parts(w, gaps)).len() == gaps.len() * w.size(),
        value_at(w, bytes::joined(fixed_parts(w, gaps)), i) == gaps[i],
{
    broadcast use bytes::group_word_sizes;

    let parts = fixed_parts(w, gaps);
    let b = bytes::joined(parts);
    encode::seq_max_bound(gaps, i);
    assert forall|k: int| 0 <= k < parts.len() implies (#[trigger] parts[k]).len() == w.size() by {}
    bytes::joined_uniform(parts, w.size(), i);
    bytes::joined_uniform(parts, w.size(), i + 1);
    bytes::joined_uniform(parts, w.size(), parts.len() as int);
    bytes::joined_position(parts, i);
    bytes::joined_position(parts, parts.len() as int);
    bytes::joined_len_monotone(parts, i + 1, parts.len() as int);
    let s = parts[i];
    let size = w.size();
    assert(i * size + size == (i + 1) * size) by (nonlinear_arith);
    assert(size == 1 ==> i * size == i) by (nonlinear_arith);
    assert(size == 2 ==> i * size == 2 * i) by (nonlinear_arith);
    assert(size == 4 ==> i * size == 4 * i) by (nonlinear_arith);
    match w {
        RoundedBitWidth::Zero => {},
        RoundedBitWidth::Bits8 => {
            assert(b.subrange(i, i + 1)[0] == s[0]);
        },
        RoundedBitWidth::Bits16 => {
            assert(b.subrange(2 * i, 2 * i + 2) == s);
            assert(b[2 * i] == s[0] && b[2 * i + 1] == s[1]);
            bytes::le16_roundtrip(gaps[i] as u16);
        },
        RoundedBitWidth::Bits32 => {
            assert(b.subrange(4 * i, 4 * i + 4) == s);
            bytes::le32_roundtrip(gaps[i]);
            bytes::section_u32(b, 4 * i, s, 0);
        },
    }
}

} // verus!
