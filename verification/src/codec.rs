//! Codecs of the packed arrays inside one posting block.
use crate::bits;
use crate::bytes;
use crate::error::PostingError;
use crate::pack;
use crate::pack::Layout;
use vstd::arithmetic::power2::*;
use vstd::prelude::*;

verus! {

/// Postings in one full block.
pub const BLOCK_SIZE: usize = 128;

/// Encoding of the packed arrays inside one posting block.
#[derive(Debug, Clone, Copy, PartialEq, Eq, Structural)]
pub enum PostingCodec {
    /// Widths rounded up to 0, 8, 16 or 32 bits.
    Rounded,
    /// Exact bit widths.
    Packed,
    /// Exact width of the low bits, with up to a tenth of the values patched.
    Pfor,
    /// Four interleaved lanes for full blocks, exact rows for tails.
    /// Documents are stored as gap minus one.
    Simd4x,
}

impl Default for PostingCodec {
    fn default() -> (r: Self)
        ensures
            r == PostingCodec::Rounded,
    {
        PostingCodec::Rounded
    }
}

/// Whether `s`, with ASCII capitals in lower case, is `word`.
pub open spec fn names(s: Seq<char>, word: Seq<char>) -> bool {
    &&& s.len() == word.len()
    &&& forall|i: int| 0 <= i < s.len() ==> lower(#[trigger] s[i]) == word[i]
}

/// A character with ASCII capitals in lower case.
pub open spec fn lower(c: char) -> char {
    if 'A' <= c && c <= 'Z' {
        (c as u8 + 32) as char
    } else {
        c
    }
}

/// A character with ASCII capitals in lower case.
fn lower_char(c: char) -> (r: char)
    ensures
        r == lower(c),
{
    if 'A' <= c && c <= 'Z' {
        ((c as u8) + 32) as char
    } else {
        c
    }
}

/// Whether `s`, with ASCII capitals in lower case, is `word`.
pub fn is_named(s: &str, word: &str) -> (r: bool)
    ensures
        r == names(s@, word@),
{
    let n: usize = s.unicode_len();
    if n != word.unicode_len() {
        return false;
    }
    let mut i: usize = 0;
    while i < n
        invariant
            i <= n,
            n == s@.len(),
            n == word@.len(),
            forall|k: int| 0 <= k < i ==> lower(#[trigger] s@[k]) == word@[k],
        decreases n - i,
    {
        if lower_char(s.get_char(i)) != word.get_char(i) {
            proof {
                assert(lower(s@[i as int]) != word@[i as int]);
            }
            return false;
        }
        i += 1;
    }
    true
}

impl PostingCodec {
    /// The codec's number in the top two bits of a block header.
    pub open spec fn code(self) -> u8 {
        match self {
            PostingCodec::Rounded => 0,
            PostingCodec::Packed => 1,
            PostingCodec::Pfor => 2,
            PostingCodec::Simd4x => 3,
        }
    }

    /// The codec that a header byte names.
    pub open spec fn of_byte(b: u8) -> PostingCodec {
        if b / 64 == 0 {
            PostingCodec::Rounded
        } else if b / 64 == 1 {
            PostingCodec::Packed
        } else if b / 64 == 2 {
            PostingCodec::Pfor
        } else {
            PostingCodec::Simd4x
        }
    }

    /// The codec and width of a header byte; a width above 32 is refused.
    pub fn from_header_byte(doc_bits: u8) -> (r: Result<(Self, u8), PostingError>)
        ensures
            r == (if doc_bits % 64 > 32 {
                Err(PostingError::DocWidth((doc_bits % 64) as u8))
            } else {
                Ok((PostingCodec::of_byte(doc_bits), (doc_bits % 64) as u8))
            }),
    {
        let width: u8 = doc_bits % 64;
        let codec = match doc_bits / 64 {
            0 => PostingCodec::Rounded,
            1 => PostingCodec::Packed,
            2 => PostingCodec::Pfor,
            _ => PostingCodec::Simd4x,
        };
        if width > 32 {
            return Err(PostingError::DocWidth(width));
        }
        Ok((codec, width))
    }

    /// The codec that encodes a block of `count` postings: the four-lane
    /// layout needs a full block, so its tails are rounded.
    pub open spec fn for_count_spec(self, count: int) -> PostingCodec {
        if self == PostingCodec::Simd4x && count < 128 {
            PostingCodec::Rounded
        } else {
            self
        }
    }

    /// The codec that encodes a block of `count` postings.
    pub fn for_count(self, count: usize) -> (r: Self)
        ensures
            r == self.for_count_spec(count as int),
    {
        if self == PostingCodec::Simd4x && count < BLOCK_SIZE {
            PostingCodec::Rounded
        } else {
            self
        }
    }

    /// The header byte of this codec at `width`.
    pub open spec fn header_byte_spec(self, width: u8) -> u8 {
        (64 * self.code() + width) as u8
    }

    /// The header byte of this codec at `width`.
    pub fn header_byte(self, width: u8) -> (r: u8)
        requires
            width < 64,
        ensures
            r == self.header_byte_spec(width),
            PostingCodec::of_byte(r) == self,
            r % 64 == width,
    {
        let code: u8 = match self {
            PostingCodec::Rounded => 0,
            PostingCodec::Packed => 1,
            PostingCodec::Pfor => 2,
            PostingCodec::Simd4x => 3,
        };
        64 * code + width
    }

    /// The codec with this name, in any case.
    pub open spec fn named(s: Seq<char>) -> Option<PostingCodec> {
        if names(s, "rounded"@) || names(s, "default"@) {
            Some(PostingCodec::Rounded)
        } else if names(s, "packed"@) || names(s, "bp128"@) || names(s, "exact"@) {
            Some(PostingCodec::Packed)
        } else if names(s, "pfor"@) || names(s, "optp4d"@) || names(s, "patched"@) {
            Some(PostingCodec::Pfor)
        } else if names(s, "simd4x"@) {
            Some(PostingCodec::Simd4x)
        } else {
            None
        }
    }

    /// The codec with this name, in any case.
    pub fn parse(s: &str) -> (r: Option<Self>)
        ensures
            r == PostingCodec::named(s@),
    {
        if is_named(s, "rounded") || is_named(s, "default") {
            Some(PostingCodec::Rounded)
        } else if is_named(s, "packed") || is_named(s, "bp128") || is_named(s, "exact") {
            Some(PostingCodec::Packed)
        } else if is_named(s, "pfor") || is_named(s, "optp4d") || is_named(s, "patched") {
            Some(PostingCodec::Pfor)
        } else if is_named(s, "simd4x") {
            Some(PostingCodec::Simd4x)
        } else {
            None
        }
    }

    /// The codec's own name.
    pub open spec fn own_name(self) -> Seq<char> {
        match self {
            PostingCodec::Rounded => "rounded"@,
            PostingCodec::Packed => "packed"@,
            PostingCodec::Pfor => "pfor"@,
            PostingCodec::Simd4x => "simd4x"@,
        }
    }

    /// The codec's own name.
    pub fn name(&self) -> (r: &'static str)
        ensures
            r@ == self.own_name(),
    {
        match self {
            PostingCodec::Rounded => "rounded",
            PostingCodec::Packed => "packed",
            PostingCodec::Pfor => "pfor",
            PostingCodec::Simd4x => "simd4x",
        }
    }
}

/// A codec's own name names it.
pub proof fn own_name_parses(c: PostingCodec)
    ensures
        PostingCodec::named(c.own_name()) == Some(c),
{
    reveal_strlit("rounded");
    reveal_strlit("default");
    reveal_strlit("packed");
    reveal_strlit("bp128");
    reveal_strlit("exact");
    reveal_strlit("pfor");
    reveal_strlit("optp4d");
    reveal_strlit("patched");
    reveal_strlit("simd4x");
    let s = c.own_name();
    assert forall|i: int| 0 <= i < s.len() implies lower(#[trigger] s[i]) == s[i] by {}
    assert(names(s, s));
    assert(lower(s[0]) == s[0]);
}

/// The bit layout of an array of `n` values.
pub open spec fn array_layout(codec: PostingCodec, n: int) -> Layout {
    if codec == PostingCodec::Simd4x && n == 128 {
        Layout::Lanes
    } else {
        Layout::Rows
    }
}

/// Whether a rounded array may have this width.
pub open spec fn is_rounded(w: u8) -> bool {
    w == 0 || w == 8 || w == 16 || w == 32
}

/// Position of exception `k` in an exception table.
pub open spec fn exception_pos(table: Seq<u8>, k: int) -> int {
    table[5 * k] as int
}

/// High bits of exception `k` in an exception table.
pub open spec fn exception_high(table: Seq<u8>, k: int) -> u32 {
    bytes::u32_at(table, 5 * k + 1)
}

/// Whether exception `k` patches a value of the array, after the previous
/// exception, with high bits that fit above `w` low bits.
pub open spec fn exception_ok(table: Seq<u8>, n: int, w: nat, k: int) -> bool {
    &&& exception_pos(table, k) < n
    &&& k > 0 ==> exception_pos(table, k - 1) < exception_pos(table, k)
    &&& exception_high(table, k) != 0
    &&& exception_high(table, k) * pow2(w) <= u32::MAX
}

/// The high bits that the first `k` exceptions put on value `i`, together.
pub open spec fn patch_of(table: Seq<u8>, i: int, k: int) -> u32
    decreases k,
{
    if k <= 0 {
        0
    } else if exception_pos(table, k - 1) == i {
        patch_of(table, i, k - 1) | exception_high(table, k - 1)
    } else {
        patch_of(table, i, k - 1)
    }
}

/// The exception table of a patched array of `n` values.
pub open spec fn table_of(input: Seq<u8>, n: nat, w: nat) -> Seq<u8> {
    let at = 1 + bits::packed_len(n, w);
    input.subrange(at as int, at + 5 * input[0])
}

/// Length of an array of `n` values at width `w`, or why it is refused.
pub open spec fn check_array_spec(codec: PostingCodec, input: Seq<u8>, n: nat, w: u8) -> Result<
    int,
    PostingError,
> {
    if w > 32 {
        Err(PostingError::Width)
    } else if codec == PostingCodec::Rounded && !is_rounded(w) {
        Err(PostingError::RoundedWidth)
    } else if codec == PostingCodec::Pfor && input.len() == 0 {
        Err(PostingError::BlockTruncated)
    } else if array_len(codec, input, n, w) > input.len() {
        Err(PostingError::PayloadTruncated)
    } else if codec == PostingCodec::Pfor && (input[0] > n || (w == 32 && input[0] != 0)) {
        Err(PostingError::ExceptionCount)
    } else if codec == PostingCodec::Pfor && !(forall|k: int|
        0 <= k < input[0] ==> exception_ok(table_of(input, n, w as nat), n as int, w as nat, k)) {
        Err(PostingError::Exception)
    } else {
        Ok(array_len(codec, input, n, w))
    }
}

/// Length of an array of `n` values at width `w`.
pub open spec fn array_len(codec: PostingCodec, input: Seq<u8>, n: nat, w: u8) -> int {
    if codec == PostingCodec::Pfor {
        1 + bits::packed_len(n, w as nat) + 5 * input[0]
    } else {
        bits::packed_len(n, w as nat) as int
    }
}

/// Low bits with high bits above them. At full width there is no room.
pub open spec fn patched(low: u32, high: u32, w: u8) -> u32 {
    if w < 32 {
        low | (high << (w as u32))
    } else {
        low
    }
}

/// Whether an array of `n` values at width `w` can be read from the start of
/// some bytes.
pub open spec fn array_fits(codec: PostingCodec, input: Seq<u8>, n: nat, w: u8) -> bool {
    &&& w <= 32
    &&& codec == PostingCodec::Rounded ==> is_rounded(w)
    &&& codec == PostingCodec::Pfor ==> input.len() > 0
    &&& array_len(codec, input, n, w) <= input.len()
}

/// Value `i` of an array.
pub open spec fn array_value(codec: PostingCodec, input: Seq<u8>, n: nat, w: u8, i: int) -> u32 {
    if codec == PostingCodec::Pfor {
        patched(
            pack::unpacked(Layout::Rows, input.skip(1), w as nat, i),
            patch_of(table_of(input, n, w as nat), i, input[0] as int),
            w,
        )
    } else {
        pack::unpacked(array_layout(codec, n as int), input, w as nat, i)
    }
}

/// The values of an array.
pub open spec fn array_values(codec: PostingCodec, input: Seq<u8>, n: nat, w: u8) -> Seq<u32> {
    Seq::new(n, |i: int| array_value(codec, input, n, w, i))
}

/// Outcome of an executable check against its specification.
pub open spec fn same_outcome(r: Result<usize, PostingError>, s: Result<int, PostingError>) -> bool {
    match (r, s) {
        (Ok(a), Ok(b)) => a == b,
        (Err(a), Err(b)) => a == b,
        _ => false,
    }
}

/// `2^w`.
pub fn power(w: u8) -> (r: u64)
    requires
        w <= 32,
    ensures
        r == pow2(w as nat),
        0 < r <= 0x1_0000_0000,
{
    let mut r: u64 = 1;
    let mut i: u8 = 0;
    proof {
        lemma2_to64();
    }
    while i < w
        invariant
            i <= w <= 32,
            r == pow2(i as nat),
        decreases w - i,
    {
        proof {
            pack::pow2_word(i as nat);
            lemma_pow2_unfold((i + 1) as nat);
        }
        r *= 2;
        i += 1;
    }
    proof {
        pack::pow2_word(w as nat);
    }
    r
}

/// Check one packed array and give its length.
pub fn check_array(codec: PostingCodec, input: &[u8], n: usize, w: u8) -> (r: Result<
    usize,
    PostingError,
>)
    requires
        n <= 128,
    ensures
        same_outcome(r, check_array_spec(codec, input@, n as nat, w)),
{
    if w > 32 {
        return Err(PostingError::Width);
    }
    if codec == PostingCodec::Rounded && !(w == 0 || w == 8 || w == 16 || w == 32) {
        return Err(PostingError::RoundedWidth);
    }
    let low: usize = bits::packed_bytes(n, w);
    if codec != PostingCodec::Pfor {
        if low > input.len() {
            return Err(PostingError::PayloadTruncated);
        }
        return Ok(low);
    }
    if input.len() == 0 {
        return Err(PostingError::BlockTruncated);
    }
    let exceptions: usize = input[0] as usize;
    let at: usize = 1 + low;
    let len: usize = at + exceptions * 5;
    if len > input.len() {
        return Err(PostingError::PayloadTruncated);
    }
    if exceptions > n || (w == 32 && exceptions != 0) {
        return Err(PostingError::ExceptionCount);
    }
    let ghost table = table_of(input@, n as nat, w as nat);
    let p: u64 = power(w);
    let mut k: usize = 0;
    while k < exceptions
        invariant
            k <= exceptions,
            exceptions == input@[0],
            at == 1 + bits::packed_len(n as nat, w as nat),
            len == at + exceptions * 5,
            len <= input.len(),
            n <= 128,
            w <= 32,
            p == pow2(w as nat),
            p <= 0x1_0000_0000,
            table == table_of(input@, n as nat, w as nat),
            table.len() == exceptions * 5,
            check_array_spec(codec, input@, n as nat, w) == (if forall|q: int|
                0 <= q < input@[0] ==> exception_ok(table, n as int, w as nat, q) {
                Ok::<int, PostingError>(len as int)
            } else {
                Err(PostingError::Exception)
            }),
            forall|q: int| 0 <= q < k ==> exception_ok(table, n as int, w as nat, q),
        decreases exceptions - k,
    {
        let e: usize = at + 5 * k;
        let pos: usize = input[e] as usize;
        let high: u32 = bytes::get_u32(input, e + 1);
        proof {
            assert(exception_pos(table, k as int) == pos);
            assert(exception_high(table, k as int) == high) by {
                reveal(bytes::u32_at);
            }
            assert(high as u64 * p <= 0xFFFF_FFFF * 0x1_0000_0000) by (nonlinear_arith)
                requires
                    high <= 0xFFFF_FFFF,
                    p <= 0x1_0000_0000,
            ;
            if k > 0 {
                assert(exception_pos(table, k - 1) == input@[e - 5]);
            }
        }
        if pos >= n || (k > 0 && pos <= input[e - 5] as usize) || high == 0 || high as u64 * p
            > 0xFFFF_FFFF {
            proof {
                assert(!exception_ok(table, n as int, w as nat, k as int));
            }
            return Err(PostingError::Exception);
        }
        k += 1;
    }
    Ok(len)
}

/// Patched bits never carry out of the word.
proof fn patched_fits(low: int, high: int, w: nat)
    requires
        w <= 32,
        0 <= low < pow2(w),
        0 <= high,
        high * pow2(w) <= u32::MAX,
    ensures
        low + pow2(w) * high <= u32::MAX,
{
    lemma_pow2_adds(w, (32 - w) as nat);
    lemma2_to64();
    let p = pow2(w) as int;
    let q = pow2((32 - w) as nat) as int;
    assert(p * q == 0x1_0000_0000);
    assert(low + p * high <= u32::MAX) by (nonlinear_arith)
        requires
            0 <= low < p,
            high * p <= 0xFFFF_FFFF,
            p * q == 0x1_0000_0000,
            0 <= high,
    {
        assert(high < q) by (nonlinear_arith)
            requires
                high * p <= 0xFFFF_FFFF,
                p * q == 0x1_0000_0000,
                p > 0,
        ;
        assert((high + 1) * p <= q * p) by (nonlinear_arith)
            requires
                high + 1 <= q,
                p > 0,
        ;
    }
}

/// High bits that fit are added to the low bits.
pub proof fn patched_is_sum(low: u32, high: u32, w: u8)
    requires
        w <= 32,
        w == 32 ==> high == 0,
        low < pow2(w as nat),
        high * pow2(w as nat) <= u32::MAX,
    ensures
        patched(low, high, w) == low + pow2(w as nat) * high,
{
    if w < 32 {
        let s = w as u32;
        vstd::bits::lemma_u32_shl_is_mul(high, s);
        lemma_pow2_strictly_increases(w as nat, 32);
        lemma2_to64();
        vstd::bits::lemma_u32_shl_is_mul(1, s);
        patched_fits(low as int, high as int, w as nat);
        assert(low | (high << s) == low + (high << s)) by (bit_vector)
            requires
                low < 1u32 << s,
                s < 32,
        ;
        assert(high * pow2(w as nat) == pow2(w as nat) * high) by (nonlinear_arith);
    } else {
        assert(pow2(w as nat) * 0 == 0) by (nonlinear_arith);
    }
}

/// Decode one packed array. Exceptions outside the array are passed over.
pub fn decode_array(codec: PostingCodec, input: &[u8], n: usize, w: u8) -> (values: Vec<u32>)
    requires
        n <= 128,
        array_fits(codec, input@, n as nat, w),
    ensures
        values@ == array_values(codec, input@, n as nat, w),
{
    if codec != PostingCodec::Pfor {
        let layout = if codec == PostingCodec::Simd4x && n == 128 {
            Layout::Lanes
        } else {
            Layout::Rows
        };
        let values = pack::unpack(layout, input, w, n);
        proof {
            assert(values@ =~= array_values(codec, input@, n as nat, w));
        }
        return values;
    }
    let exceptions: usize = input[0] as usize;
    let at: usize = 1 + bits::packed_bytes(n, w);
    let ghost table = table_of(input@, n as nat, w as nat);
    let rest = vstd::slice::slice_subrange(input, 1, input.len());
    proof {
        assert(rest@ =~= input@.skip(1));
    }
    let mut values = pack::unpack(Layout::Rows, rest, w, n);
    let ghost low = values@;
    if w < 32 {
        let shift: u32 = w as u32;
        proof {
            assert forall|i: int| 0 <= i < n implies #[trigger] values@[i] == patched(
                low[i],
                patch_of(table, i, 0),
                w,
            ) by {
                let v = low[i];
                assert(v | (0u32 << shift) == v) by (bit_vector);
            }
        }
        let mut k: usize = 0;
        while k < exceptions
            invariant
                k <= exceptions,
                exceptions == input@[0],
                at == 1 + bits::packed_len(n as nat, w as nat),
                at + exceptions * 5 <= input.len(),
                n <= 128,
                w < 32,
                shift == w as u32,
                table == table_of(input@, n as nat, w as nat),
                table.len() == exceptions * 5,
                values.len() == n,
                low == pack::unpack_spec(Layout::Rows, input@.skip(1), w as nat, n as nat),
                forall|i: int|
                    0 <= i < n ==> #[trigger] values@[i] == patched(
                        low[i],
                        patch_of(table, i, k as int),
                        w,
                    ),
            decreases exceptions - k,
        {
            let e: usize = at + 5 * k;
            let pos: usize = input[e] as usize;
            let high: u32 = bytes::get_u32(input, e + 1);
            proof {
                assert(exception_pos(table, k as int) == pos);
                assert(exception_high(table, k as int) == high) by {
                    reveal(bytes::u32_at);
                }
            }
            if pos < n {
                let ghost v = low[pos as int];
                let ghost h = patch_of(table, pos as int, k as int);
                values.set(pos, values[pos] | (high << shift));
                proof {
                    assert((v | (h << shift)) | (high << shift) == v | ((h | high) << shift))
                        by (bit_vector);
                }
            }
            k += 1;
        }
    }
    proof {
        assert(values@ =~= array_values(codec, input@, n as nat, w));
    }
    values
}

} // verus!
