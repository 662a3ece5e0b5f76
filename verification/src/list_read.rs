//! Reading stored posting lists.
//!
//! Every section is checked before a list is made of it; payloads are checked
//! for their shape, not decoded.
use crate::block;
use crate::block::PostingBlock;
use crate::bounds;
use crate::bytes;
use crate::codec;
use crate::error::PostingError;
use crate::footer;
use crate::footer::Footer;
use crate::impacts;
use crate::impacts::ImpactTable;
use crate::list;
use crate::list::BlockPostingList;
use crate::ratio;
use vstd::prelude::*;

verus! {

/// First document of block `i`.
pub open spec fn first_at(raw: Seq<u8>, f: Footer, i: int) -> u32 {
    bytes::u32_at(raw, f.stream_len + 16 * i)
}

/// Last document of block `i`.
pub open spec fn last_at(raw: Seq<u8>, f: Footer, i: int) -> u32 {
    bytes::u32_at(raw, f.stream_len + 16 * i + 4)
}

/// Start of block `i` in the stream.
pub open spec fn start_at(raw: Seq<u8>, f: Footer, i: int) -> int {
    bytes::u32_at(raw, f.stream_len + 16 * i + 8) as int
}

/// End of block `i` in the stream.
pub open spec fn end_at(raw: Seq<u8>, f: Footer, i: int) -> int {
    if i + 1 == f.l0_count {
        f.stream_len as int
    } else {
        start_at(raw, f, i + 1)
    }
}

/// The bytes of block `i` in the stream.
pub open spec fn stored_block(raw: Seq<u8>, f: Footer, i: int) -> Seq<u8> {
    raw.subrange(start_at(raw, f, i), end_at(raw, f, i))
}

/// The compact descriptor of block `i`.
pub open spec fn descriptor_at(raw: Seq<u8>, f: Footer, i: int) -> Seq<u8> {
    raw.subrange(f.l0_end_spec() + 4 * i, f.l0_end_spec() + 4 * i + 4)
}

/// Position cursor of block `i`.
pub open spec fn cursor_at(raw: Seq<u8>, f: Footer, i: int) -> u64 {
    if f.short_cursors {
        bytes::u32_at(raw, f.l1_bounds_end_spec() + 4 * i) as u64
    } else {
        bytes::u64_at(raw, f.l1_bounds_end_spec() + 8 * i)
    }
}

/// Whether `b` is block `i` of the stored list.
pub open spec fn is_block_at(b: PostingBlock, raw: Seq<u8>, f: Footer, i: int) -> bool {
    &&& b.first == first_at(raw, f, i)
    &&& b.last == last_at(raw, f, i)
    &&& b.bounds == bytes::u32_at(raw, f.stream_len + 16 * i + 12)
    &&& if f.compact_headers {
        let d = descriptor_at(raw, f, i);
        &&& b.count == bytes::u16_at(d, 0)
        &&& b.doc_bits == d[2]
        &&& b.tf_bits == d[3]
        &&& b.payload@ == stored_block(raw, f, i)
    } else {
        let s = stored_block(raw, f, i);
        &&& b.count == bytes::u16_at(s, 0)
        &&& b.doc_bits == s[6]
        &&& b.tf_bits == s[7]
        &&& b.payload@ == s.skip(8)
    }
}

/// Whether the directory entry of block `i` is out of order or out of the
/// stream.
pub open spec fn bad_entry(raw: Seq<u8>, f: Footer, i: int) -> bool {
    ||| i == 0 && start_at(raw, f, i) != 0
    ||| i > 0 && first_at(raw, f, i) <= last_at(raw, f, i - 1)
    ||| end_at(raw, f, i) < start_at(raw, f, i)
    ||| !f.compact_headers && end_at(raw, f, i) == start_at(raw, f, i)
    ||| end_at(raw, f, i) > f.stream_len
}

/// Posting count of block `i`, or why the block is refused.
pub open spec fn shape_at(raw: Seq<u8>, f: Footer, i: int) -> Result<int, PostingError> {
    if f.compact_headers {
        block::check_descriptor_spec(
            descriptor_at(raw, f, i),
            first_at(raw, f, i),
            last_at(raw, f, i),
            end_at(raw, f, i) - start_at(raw, f, i),
        )
    } else {
        block::check_block_spec(stored_block(raw, f, i), first_at(raw, f, i), last_at(raw, f, i))
    }
}

/// Whether the group entry that closes with block `i` is wrong.
pub open spec fn bad_group(raw: Seq<u8>, f: Footer, i: int) -> bool {
    ((i + 1) % 8 == 0 || i + 1 == f.l0_count) && bytes::u32_at(
        raw,
        f.l1_start_spec() + 4 * (i / 8),
    ) != last_at(raw, f, i)
}

/// Whether the position cursor of block `i` is wrong.
pub open spec fn bad_cursor(raw: Seq<u8>, f: Footer, i: int) -> bool {
    f.has_cursors && ((i == 0 && cursor_at(raw, f, i) != 0) || (i > 0 && cursor_at(raw, f, i)
        < cursor_at(raw, f, i - 1)) || cursor_at(raw, f, i) > f.total_positions)
}

/// Posting count of block `i`, or the first refusal among its entries.
pub open spec fn block_check(raw: Seq<u8>, f: Footer, i: int) -> Result<int, PostingError> {
    if bad_entry(raw, f, i) {
        Err(PostingError::Directory)
    } else if shape_at(raw, f, i) is Err {
        shape_at(raw, f, i)
    } else if bad_group(raw, f, i) {
        Err(PostingError::GroupDirectory)
    } else if bad_cursor(raw, f, i) {
        Err(PostingError::Cursor)
    } else {
        shape_at(raw, f, i)
    }
}

/// Posting count of the first `n` blocks, or the first refusal.
pub open spec fn blocks_check(raw: Seq<u8>, f: Footer, n: int) -> Result<int, PostingError>
    decreases n,
{
    if n <= 0 {
        Ok(0)
    } else {
        match blocks_check(raw, f, n - 1) {
            Err(error) => Err(error),
            Ok(total) => match block_check(raw, f, n - 1) {
                Err(error) => Err(error),
                Ok(count) => Ok(total + count),
            },
        }
    }
}

/// Whether the counts of a footer contradict each other.
pub open spec fn bad_counts(f: Footer) -> bool {
    ||| f.l1_count != bounds::group_count(f.l0_count as int)
    ||| (f.l0_count == 0) != (f.doc_count == 0)
    ||| !f.compact_headers && (f.l0_count == 0) != (f.stream_len == 0)
    ||| f.doc_count < f.l0_count
    ||| f.doc_count > 128 * f.l0_count
}

/// Whether directories and blocks agree with the footer.
pub open spec fn list_check(raw: Seq<u8>, f: Footer) -> Result<(), PostingError> {
    if bad_counts(f) {
        Err(PostingError::Counts)
    } else {
        match blocks_check(raw, f, f.l0_count as int) {
            Err(error) => Err(error),
            Ok(total) => if total != f.doc_count {
                Err(PostingError::CountMismatch)
            } else {
                Ok(())
            },
        }
    }
}

/// Ratio word `i`.
pub open spec fn ratio_at(raw: Seq<u8>, f: Footer, i: int) -> u32 {
    bytes::u32_at(raw, f.cursors_end_spec() + 4 * i)
}

/// Whether all ratio words are acceptable.
pub open spec fn ratios_check(raw: Seq<u8>, f: Footer) -> bool {
    forall|i: int|
        0 <= i < f.l0_count + f.l1_count ==> ratio::ratio_ok(#[trigger] ratio_at(raw, f, i))
}

/// The stored envelopes.
pub open spec fn impact_section(raw: Seq<u8>, f: Footer) -> Seq<u8> {
    raw.subrange(f.ratios_end_spec(), raw.len() - 44)
}

/// The footer of a stored list, or why the list is refused.
pub open spec fn bytes_check(raw: Seq<u8>) -> Result<Footer, PostingError> {
    match footer::parse_tail_spec(raw, raw.len() as int) {
        Err(error) => Err(error),
        Ok(f) => match list_check(raw, f) {
            Err(error) => Err(error),
            Ok(_) => if f.ratio_bounds && !ratios_check(raw, f) {
                Err(PostingError::RatioBound)
            } else if f.impact_bounds && impacts::table_check(
                impact_section(raw, f),
                f.impact_count(),
            ) is Err {
                Err(impacts::table_check(impact_section(raw, f), f.impact_count())->Err_0)
            } else {
                Ok(f)
            },
        },
    }
}

/// Whether `l` is the list stored in `raw` under footer `f`.
pub open spec fn is_read(l: BlockPostingList, raw: Seq<u8>, f: Footer) -> bool {
    &&& l.compact_headers == f.compact_headers
    &&& l.short_cursors == f.short_cursors
    &&& l.blocks@.len() == f.l0_count
    &&& forall|i: int| 0 <= i < f.l0_count ==> is_block_at(#[trigger] l.blocks@[i], raw, f, i)
    &&& bytes::le32_all(l.l1_docs@) == raw.subrange(f.l1_start_spec(), f.l1_end_spec())
    &&& bytes::le32_all(l.l1_bounds@) == raw.subrange(f.l1_end_spec(), f.l1_bounds_end_spec())
    &&& l.doc_count == f.doc_count
    &&& l.max_tf == f.max_tf
    &&& l.total_positions == f.total_positions
    &&& l.len_bounds == f.len_bounds
    &&& l.min_len == f.min_len
    &&& match l.cursors {
        Some(c) => f.has_cursors && c@.len() == f.l0_count && forall|i: int|
            0 <= i < f.l0_count ==> #[trigger] c@[i] == cursor_at(raw, f, i),
        None => !f.has_cursors,
    }
    &&& match l.ratios {
        Some(r) => f.ratio_bounds && bytes::le32_all(r@) == raw.subrange(
            f.cursors_end_spec(),
            f.ratios_end_spec(),
        ),
        None => !f.ratio_bounds,
    }
    &&& match l.impacts {
        Some(t) => f.impact_bounds && t@.len() == f.impact_count() && impacts::table_bytes(t@)
            == impact_section(raw, f),
        None => !f.impact_bounds,
    }
}

proof fn refused_blocks(raw: Seq<u8>, f: Footer, n: int, m: int)
    requires
        0 <= n <= m,
        blocks_check(raw, f, n) is Err,
    ensures
        blocks_check(raw, f, m) == blocks_check(raw, f, n),
    decreases m,
{
    if n < m {
        refused_blocks(raw, f, n, m - 1);
    }
}

pub proof fn checked_block(raw: Seq<u8>, f: Footer, n: int, i: int)
    requires
        0 <= i < n,
        blocks_check(raw, f, n) is Ok,
    ensures
        block_check(raw, f, i) is Ok,
        blocks_check(raw, f, i) is Ok,
        blocks_check(raw, f, i + 1)->Ok_0 == blocks_check(raw, f, i)->Ok_0 + block_check(
            raw,
            f,
            i,
        )->Ok_0,
    decreases n,
{
    if i < n - 1 {
        checked_block(raw, f, n - 1, i);
    }
}

/// Where the sections of an accepted footer end.
pub proof fn parsed_extent(raw: Seq<u8>)
    requires
        footer::parse_tail_spec(raw, raw.len() as int) is Ok,
    ensures
        ({
            let f = footer::parse_tail_spec(raw, raw.len() as int)->Ok_0;
            &&& f.ratios_end_spec() <= raw.len() - 24
            &&& f.l0_count <= u32::MAX && f.l1_count <= u32::MAX
            &&& f.short_cursors ==> f.has_cursors && f.total_positions <= u32::MAX
            &&& f.impact_bounds ==> {
                &&& f.len_bounds && f.ratio_bounds
                &&& f.group_impact_bounds ==> f.l1_bounds
                &&& f.ratios_end_spec() + 4 * (f.impact_count() + 1) <= raw.len() - 44
            }
        }),
{
    reveal(footer::parse_tail_spec);
}

/// Read the directory entry of block `i`.
fn read_l0(raw: &[u8], at: usize) -> (r: (u32, u32, u32, u32))
    requires
        at + 16 <= raw.len(),
    ensures
        r.0 == bytes::u32_at(raw@, at as int),
        r.1 == bytes::u32_at(raw@, at + 4),
        r.2 == bytes::u32_at(raw@, at + 8),
        r.3 == bytes::u32_at(raw@, at + 12),
{
    (
        bytes::get_u32(raw, at),
        bytes::get_u32(raw, at + 4),
        bytes::get_u32(raw, at + 8),
        bytes::get_u32(raw, at + 12),
    )
}

/// Check the shape of one block.
fn check_shape(
    raw: &[u8],
    f: &Footer,
    i: usize,
    first: u32,
    last: u32,
    start: usize,
    end: usize,
) -> (r: Result<usize, PostingError>)
    requires
        i < f.l0_count,
        f.ratios_end_spec() <= raw.len(),
        first == first_at(raw@, *f, i as int),
        last == last_at(raw@, *f, i as int),
        start == start_at(raw@, *f, i as int),
        end == end_at(raw@, *f, i as int),
        start <= end <= f.stream_len,
    ensures
        codec::same_outcome(r, shape_at(raw@, *f, i as int)),
        r matches Ok(n) ==> n <= 128,
{
    proof {
        f.sections_in_order();
    }
    if f.compact_headers {
        let d: usize = f.l0_end() + 4 * i;
        let header = vstd::slice::slice_subrange(raw, d, d + 4);
        block::validate_descriptor(header, first, last, end - start)
    } else {
        let stream = vstd::slice::slice_subrange(raw, start, end);
        block::validate_block(stream, first, last)
    }
}

/// Check one block with its directory, group and cursor entries.
fn check_block(raw: &[u8], f: &Footer, i: usize) -> (r: Result<usize, PostingError>)
    requires
        i < f.l0_count,
        f.l1_count == bounds::group_count(f.l0_count as int),
        f.ratios_end_spec() <= raw.len(),
        f.l0_count <= u32::MAX,
    ensures
        codec::same_outcome(r, block_check(raw@, *f, i as int)),
        r matches Ok(n) ==> n <= 128,
{
    proof {
        f.sections_in_order();
    }
    let at: usize = f.stream_len + 16 * i;
    let (first, last, offset, _bounds): (u32, u32, u32, u32) = read_l0(raw, at);
    let start: usize = offset as usize;
    let end: usize = if i + 1 == f.l0_count {
        f.stream_len
    } else {
        bytes::get_u32(raw, at + 16 + 8) as usize
    };
    if (i == 0 && start != 0) || (i > 0 && first <= bytes::get_u32(raw, at - 16 + 4)) || end < start
        || (!f.compact_headers && end == start) || end > f.stream_len {
        return Err(PostingError::Directory);
    }
    let count: usize = match check_shape(raw, f, i, first, last, start, end) {
        Ok(n) => n,
        Err(error) => {
            return Err(error);
        },
    };
    if (i + 1) % 8 == 0 || i + 1 == f.l0_count {
        let g: usize = f.l1_start() + 4 * (i / 8);
        if bytes::get_u32(raw, g) != last {
            return Err(PostingError::GroupDirectory);
        }
    }
    if f.has_cursors {
        let c: u64 = read_cursor(raw, f, i);
        if (i == 0 && c != 0) || (i > 0 && c < read_cursor(raw, f, i - 1)) || c
            > f.total_positions {
            return Err(PostingError::Cursor);
        }
    }
    Ok(count)
}

/// Read the position cursor of block `i`.
pub(crate) fn read_cursor(raw: &[u8], f: &Footer, i: usize) -> (c: u64)
    requires
        i < f.l0_count,
        f.has_cursors,
        f.ratios_end_spec() <= raw.len(),
    ensures
        c == cursor_at(raw@, *f, i as int),
{
    proof {
        f.sections_in_order();
    }
    if f.short_cursors {
        bytes::get_u32(raw, f.l1_bounds_end() + 4 * i) as u64
    } else {
        bytes::get_u64(raw, f.l1_bounds_end() + 8 * i)
    }
}

/// Check the directories and blocks of a stored list.
pub fn validate_list(raw: &[u8], f: &Footer) -> (r: Result<(), PostingError>)
    requires
        f.ratios_end_spec() <= raw.len(),
        f.l0_count <= u32::MAX,
        f.l1_count <= u32::MAX,
    ensures
        r == list_check(raw@, *f),
{
    let groups: usize = f.l0_count / 8 + if f.l0_count % 8 == 0 {
        0
    } else {
        1
    };
    if f.l1_count != groups || (f.l0_count == 0) != (f.doc_count == 0) || (!f.compact_headers && (
    f.l0_count == 0) != (f.stream_len == 0)) || (f.doc_count as u64) < f.l0_count as u64 || (
    f.doc_count as u64) > f.l0_count as u64 * 128 {
        return Err(PostingError::Counts);
    }
    let mut total: u64 = 0;
    let mut i: usize = 0;
    while i < f.l0_count
        invariant
            i <= f.l0_count <= u32::MAX,
            f.l1_count == bounds::group_count(f.l0_count as int),
            f.ratios_end_spec() <= raw.len(),
            !bad_counts(*f),
            total <= 128 * i,
            blocks_check(raw@, *f, i as int) == Ok::<int, PostingError>(total as int),
        decreases f.l0_count - i,
    {
        match check_block(raw, f, i) {
            Ok(count) => {
                total = total + count as u64;
            },
            Err(error) => {
                proof {
                    assert(blocks_check(raw@, *f, i + 1) is Err);
                    refused_blocks(raw@, *f, i + 1, f.l0_count as int);
                }
                return Err(error);
            },
        }
        i += 1;
    }
    if total != f.doc_count as u64 {
        return Err(PostingError::CountMismatch);
    }
    Ok(())
}

/// Read block `i` of a checked list.
fn read_block(raw: &[u8], f: &Footer, i: usize) -> (b: PostingBlock)
    requires
        i < f.l0_count,
        f.ratios_end_spec() <= raw.len(),
        f.l0_count <= u32::MAX,
        block_check(raw@, *f, i as int) is Ok,
    ensures
        is_block_at(b, raw@, *f, i as int),
        b.wf(),
        f.compact_headers ==> b.codec() != crate::codec::PostingCodec::Pfor,
        !f.compact_headers ==> b.first_gap_is_zero(),
        b.count == block_check(raw@, *f, i as int)->Ok_0,
        b.payload@.len() + list::header_len(f.compact_headers) == end_at(raw@, *f, i as int)
            - start_at(raw@, *f, i as int),
{
    proof {
        f.sections_in_order();
    }
    let at: usize = f.stream_len + 16 * i;
    let (first, last, offset, bounds): (u32, u32, u32, u32) = read_l0(raw, at);
    let start: usize = offset as usize;
    let end: usize = if i + 1 == f.l0_count {
        f.stream_len
    } else {
        bytes::get_u32(raw, at + 16 + 8) as usize
    };
    if f.compact_headers {
        let d: usize = f.l0_end() + 4 * i;
        let header = vstd::slice::slice_subrange(raw, d, d + 4);
        let b = PostingBlock {
            first,
            last,
            bounds,
            count: bytes::get_u16(header, 0),
            doc_bits: header[2],
            tf_bits: header[3],
            payload: bytes::copy_range(raw, start, end),
        };
        proof {
            block::checked_descriptor_wf(b, header@);
        }
        b
    } else {
        let stream = vstd::slice::slice_subrange(raw, start, end);
        proof {
            block::checked_block_len(stream@, first, last);
        }
        let payload = bytes::copy_range(stream, 8, stream.len());
        proof {
            assert(payload@ =~= stream@.skip(8));
        }
        let b = PostingBlock {
            first,
            last,
            bounds,
            count: bytes::get_u16(stream, 0),
            doc_bits: stream[6],
            tf_bits: stream[7],
            payload,
        };
        proof {
            block::checked_block_wf(b, stream@);
        }
        b
    }
}

/// What reading the first `n` blocks has established.
spec fn read_prefix(blocks: Seq<PostingBlock>, raw: Seq<u8>, f: Footer) -> bool {
    let n = blocks.len() as int;
    &&& list::blocks_ok(blocks)
    &&& f.compact_headers ==> list::no_pfor(blocks)
    &&& !f.compact_headers ==> list::first_gaps_ok(blocks)
    &&& list::offsets_fit(blocks, f.compact_headers)
    &&& list::total_count(blocks, n) == blocks_check(raw, f, n)->Ok_0
    &&& n > 0 ==> list::stream_upto(blocks, n, f.compact_headers) == end_at(raw, f, n - 1)
    &&& forall|i: int| 0 <= i < n ==> is_block_at(#[trigger] blocks[i], raw, f, i)
}

proof fn read_push(blocks: Seq<PostingBlock>, b: PostingBlock, raw: Seq<u8>, f: Footer)
    requires
        read_prefix(blocks, raw, f),
        blocks.len() < f.l0_count,
        blocks_check(raw, f, f.l0_count as int) is Ok,
        is_block_at(b, raw, f, blocks.len() as int),
        b.wf(),
        f.compact_headers ==> b.codec() != crate::codec::PostingCodec::Pfor,
        !f.compact_headers ==> b.first_gap_is_zero(),
        b.count == block_check(raw, f, blocks.len() as int)->Ok_0,
        b.payload@.len() + list::header_len(f.compact_headers) == end_at(
            raw,
            f,
            blocks.len() as int,
        ) - start_at(raw, f, blocks.len() as int),
    ensures
        read_prefix(blocks.push(b), raw, f),
{
    let n = blocks.len() as int;
    let all = blocks.push(b);
    let c = f.compact_headers;
    list::prefix_functions(blocks, all, n);
    checked_block(raw, f, f.l0_count as int, n);
    assert(list::stream_upto(all, n, c) == start_at(raw, f, n)) by {
        if n > 0 {
            checked_block(raw, f, f.l0_count as int, n - 1);
        }
    }
    assert forall|k: int| 0 <= k < all.len() implies #[trigger] list::stream_upto(all, k, c)
        <= u32::MAX by {
        list::prefix_functions(blocks, all, k);
        if k < n {
            assert(list::stream_upto(blocks, k, c) <= u32::MAX);
        }
    }
    assert forall|k: int| 0 <= k < all.len() implies (#[trigger] all[k]).wf() && is_block_at(
        all[k],
        raw,
        f,
        k,
    ) && (c ==> all[k].codec() != crate::codec::PostingCodec::Pfor) && (!c
        ==> all[k].first_gap_is_zero()) by {
        if k < n {
            assert(all[k] == blocks[k]);
        }
    }
    assert forall|p: int, q: int| 0 <= p < q < all.len() implies all[p].last < all[q].first by {
        if q < n {
            assert(blocks[p].last < blocks[q].first);
        } else {
            assert(is_block_at(blocks[n - 1], raw, f, n - 1));
            if p < n - 1 {
                assert(blocks[p].last < blocks[n - 1].first);
                assert(blocks[n - 1].wf());
            }
        }
    }
}

/// The group entries of a checked list are the blocks' last documents.
proof fn group_entries(raw: Seq<u8>, f: Footer, blocks: Seq<PostingBlock>, docs: Seq<u32>)
    requires
        blocks_check(raw, f, f.l0_count as int) is Ok,
        f.l1_count == bounds::group_count(f.l0_count as int),
        blocks.len() == f.l0_count,
        forall|i: int| 0 <= i < f.l0_count ==> is_block_at(#[trigger] blocks[i], raw, f, i),
        docs.len() == f.l1_count,
        forall|g: int|
            0 <= g < docs.len() ==> #[trigger] docs[g] == bytes::u32_at(
                raw,
                f.l1_start_spec() + 4 * g,
            ),
    ensures
        docs == list::group_docs(blocks),
{
    assert forall|g: int| 0 <= g < docs.len() implies docs[g] == list::group_docs(blocks)[g] by {
        let i = bounds::group_end(f.l0_count as int, g) - 1;
        checked_block(raw, f, f.l0_count as int, i);
        assert(is_block_at(blocks[i], raw, f, i));
        assert(i / 8 == g);
    }
    assert(docs =~= list::group_docs(blocks));
}

/// Position cursors of a checked list never run backwards.
proof fn cursors_in_order(raw: Seq<u8>, f: Footer, i: int, j: int)
    requires
        blocks_check(raw, f, f.l0_count as int) is Ok,
        f.has_cursors,
        0 <= i <= j < f.l0_count,
    ensures
        cursor_at(raw, f, i) <= cursor_at(raw, f, j) <= f.total_positions,
        cursor_at(raw, f, 0) == 0,
    decreases j - i,
{
    checked_block(raw, f, f.l0_count as int, j);
    checked_block(raw, f, f.l0_count as int, 0);
    if i < j {
        cursors_in_order(raw, f, i, j - 1);
    }
}

/// Read the blocks of a checked list.
fn read_blocks(raw: &[u8], f: &Footer) -> (blocks: Vec<PostingBlock>)
    requires
        f.ratios_end_spec() <= raw.len(),
        f.l0_count <= u32::MAX,
        blocks_check(raw@, *f, f.l0_count as int) is Ok,
    ensures
        blocks@.len() == f.l0_count,
        read_prefix(blocks@, raw@, *f),
{
    let mut blocks: Vec<PostingBlock> = Vec::new();
    let mut i: usize = 0;
    while i < f.l0_count
        invariant
            i <= f.l0_count <= u32::MAX,
            f.ratios_end_spec() <= raw.len(),
            blocks_check(raw@, *f, f.l0_count as int) is Ok,
            blocks.len() == i,
            read_prefix(blocks@, raw@, *f),
        decreases f.l0_count - i,
    {
        proof {
            checked_block(raw@, *f, f.l0_count as int, i as int);
        }
        let b = read_block(raw, f, i);
        proof {
            read_push(blocks@, b, raw@, *f);
        }
        blocks.push(b);
        i += 1;
    }
    blocks
}

/// Read the position cursors of a checked list.
fn read_cursors(raw: &[u8], f: &Footer) -> (c: Vec<u64>)
    requires
        f.ratios_end_spec() <= raw.len(),
        f.has_cursors,
        blocks_check(raw@, *f, f.l0_count as int) is Ok,
    ensures
        c@.len() == f.l0_count,
        forall|i: int| 0 <= i < f.l0_count ==> #[trigger] c@[i] == cursor_at(raw@, *f, i),
        list::cursors_ok(c@, f.total_positions),
{
    let mut c: Vec<u64> = Vec::new();
    let mut i: usize = 0;
    while i < f.l0_count
        invariant
            i <= f.l0_count,
            f.ratios_end_spec() <= raw.len(),
            f.has_cursors,
            c.len() == i,
            forall|k: int| 0 <= k < i ==> #[trigger] c@[k] == cursor_at(raw@, *f, k),
        decreases f.l0_count - i,
    {
        c.push(read_cursor(raw, f, i));
        i += 1;
    }
    proof {
        assert forall|a: int, b: int| 0 <= a <= b < c.len() implies c@[a] <= c@[b] by {
            cursors_in_order(raw@, *f, a, b);
        }
        assert forall|a: int| 0 <= a < c.len() implies #[trigger] c@[a] <= f.total_positions by {
            cursors_in_order(raw@, *f, a, a);
        }
        if c.len() > 0 {
            cursors_in_order(raw@, *f, 0, 0);
        }
    }
    c
}

/// Read the envelopes of a checked list.
fn read_impacts(raw: &[u8], f: &Footer) -> (t: ImpactTable)
    requires
        f.ratios_end_spec() + 4 * (f.impact_count() + 1) <= raw.len() - 44,
        impacts::table_check(impact_section(raw@, *f), f.impact_count()) is Ok,
    ensures
        t@.len() == f.impact_count(),
        impacts::table_bytes(t@) == impact_section(raw@, *f),
        t.wf(),
{
    let section = vstd::slice::slice_subrange(raw, f.ratios_end(), raw.len() - 44);
    ImpactTable::from_validated(section, f.impact_record_count())
}

/// Read the ratios; nothing if one of them is negative or not finite.
fn read_ratios(raw: &[u8], f: &Footer) -> (r: Option<Vec<u32>>)
    requires
        f.ratios_end_spec() <= raw.len(),
        f.ratio_bounds,
    ensures
        r is Some <==> ratios_check(raw@, *f),
        r matches Some(words) ==> {
            &&& words@.len() == f.l0_count + f.l1_count
            &&& bytes::le32_all(words@) == raw@.subrange(f.cursors_end_spec(), f.ratios_end_spec())
            &&& forall|i: int| 0 <= i < words@.len() ==> ratio::ratio_ok(#[trigger] words@[i])
        },
{
    proof {
        f.sections_in_order();
    }
    let words = bytes::get_u32_all(raw, f.cursors_end(), f.l0_count + f.l1_count);
    if ratio::validate_ratios(words.as_slice()) {
        proof {
            assert forall|i: int| 0 <= i < f.l0_count + f.l1_count implies ratio::ratio_ok(
                #[trigger] ratio_at(raw@, *f, i),
            ) by {
                assert(ratio::ratio_ok(words@[i]));
            }
        }
        Some(words)
    } else {
        proof {
            let i = choose|i: int| 0 <= i < words.len() && !ratio::ratio_ok(#[trigger] words@[i]);
            assert(!ratio::ratio_ok(ratio_at(raw@, *f, i)));
        }
        None
    }
}

impl BlockPostingList {
    /// Check a stored list; gives its footer.
    pub fn validate_bytes(raw: &[u8]) -> (r: Result<Footer, PostingError>)
        ensures
            r == bytes_check(raw@),
    {
        let n: usize = raw.len();
        let f = match Footer::parse(raw) {
            Ok(f) => f,
            Err(error) => {
                return Err(error);
            },
        };
        proof {
            parsed_extent(raw@);
            f.sections_in_order();
        }
        match validate_list(raw, &f) {
            Ok(_) => {},
            Err(error) => {
                return Err(error);
            },
        }
        if f.ratio_bounds {
            match read_ratios(raw, &f) {
                Some(_) => {},
                None => {
                    return Err(PostingError::RatioBound);
                },
            }
        }
        if f.impact_bounds {
            let section = vstd::slice::slice_subrange(raw, f.ratios_end(), n - 44);
            match ImpactTable::validate(section, f.impact_record_count()) {
                Ok(_) => {},
                Err(error) => {
                    return Err(error);
                },
            }
        }
        Ok(f)
    }

    /// Read a stored list, of either footer.
    pub fn deserialize(raw: &[u8]) -> (r: Result<Self, PostingError>)
        ensures
            match (r, bytes_check(raw@)) {
                (Ok(l), Ok(f)) => l.wf() && is_read(l, raw@, f),
                (Err(e), Err(e2)) => e == e2,
                _ => false,
            },
    {
        let f = match BlockPostingList::validate_bytes(raw) {
            Ok(f) => f,
            Err(error) => {
                return Err(error);
            },
        };
        proof {
            parsed_extent(raw@);
        }
        Ok(BlockPostingList::from_layout(raw, &f))
    }

    /// Read a stored list out of an owned buffer.
    pub fn deserialize_zero_copy(raw: Vec<u8>) -> (r: Result<Self, PostingError>)
        ensures
            match (r, bytes_check(raw@)) {
                (Ok(l), Ok(f)) => l.wf() && is_read(l, raw@, f),
                (Err(e), Err(e2)) => e == e2,
                _ => false,
            },
    {
        BlockPostingList::deserialize(raw.as_slice())
    }

    /// The list in checked bytes.
    fn from_layout(raw: &[u8], f: &Footer) -> (l: Self)
        requires
            f.ratios_end_spec() + 24 <= raw.len(),
            f.l0_count <= u32::MAX,
            f.l1_count == bounds::group_count(f.l0_count as int),
            blocks_check(raw@, *f, f.l0_count as int) == Ok::<int, PostingError>(
                f.doc_count as int,
            ),
            f.short_cursors ==> f.has_cursors && f.total_positions <= u32::MAX,
            f.ratio_bounds ==> ratios_check(raw@, *f),
            f.impact_bounds ==> {
                &&& f.len_bounds && f.ratio_bounds
                &&& f.group_impact_bounds ==> f.l1_bounds
                &&& f.ratios_end_spec() + 4 * (f.impact_count() + 1) <= raw.len() - 44
                &&& impacts::table_check(impact_section(raw@, *f), f.impact_count()) is Ok
            },
        ensures
            l.wf(),
            is_read(l, raw@, *f),
    {
        proof {
            f.sections_in_order();
        }
        let blocks = read_blocks(raw, f);
        let l1_docs = bytes::get_u32_all(raw, f.l1_start(), f.l1_count);
        proof {
            group_entries(raw@, *f, blocks@, l1_docs@);
        }
        let l1_bounds: Vec<u32> = bytes::get_u32_all(
            raw,
            f.l1_end(),
            if f.l1_bounds {
                f.l1_count
            } else {
                0
            },
        );
        let cursors: Option<Vec<u64>> = if f.has_cursors {
            Some(read_cursors(raw, f))
        } else {
            None
        };
        let ratios: Option<Vec<u32>> = if f.ratio_bounds {
            read_ratios(raw, f)
        } else {
            None
        };
        let impacts: Option<ImpactTable> = if f.impact_bounds {
            Some(read_impacts(raw, f))
        } else {
            None
        };
        BlockPostingList {
            compact_headers: f.compact_headers,
            short_cursors: f.short_cursors,
            blocks,
            l1_docs,
            l1_bounds,
            ratios,
            impacts,
            doc_count: f.doc_count,
            max_tf: f.max_tf,
            cursors,
            total_positions: f.total_positions,
            len_bounds: f.len_bounds,
            min_len: f.min_len,
        }
    }

    /// Whether stored bytes carry position cursors, by their footer alone.
    pub fn has_cursors_bytes(raw: &[u8]) -> (r: bool)
        ensures
            r == (match footer::parse_tail_spec(raw@, raw@.len() as int) {
                Ok(f) => f.has_cursors,
                Err(_) => false,
            }),
    {
        match Footer::parse(raw) {
            Ok(f) => f.has_cursors,
            Err(_) => false,
        }
    }
}

} // verus!
