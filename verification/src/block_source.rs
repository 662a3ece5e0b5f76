//! Access to the blocks of a stored list by its directory: the payload stays
//! outside until a block is asked for.
//!
//! Reading is left to the caller. Each step says which bytes it needs, and
//! takes the bytes that came.
use crate::block;
use crate::block::PostingBlock;
use crate::block::TERMINATED;
use crate::bounds;
use crate::bytes;
use crate::error::PostingError;
use crate::footer;
use crate::footer::Footer;
use crate::impacts;
use crate::impacts::ImpactTable;
use crate::list;
use crate::list::BlockPostingList;
use crate::ratio;
use vstd::prelude::*;

verus! {

/// Most bytes of an encoded block.
pub const MAX_BLOCK_BYTES: usize = 4160;

/// Where the directory of a stored list lies.
#[derive(Debug)]
pub struct IndexPlan {
    pub footer: Footer,
    pub start: usize,
    pub end: usize,
}

/// A stored list with its directory at hand.
#[derive(Debug)]
pub struct PostingBlockSource {
    pub footer: Footer,
    /// The bytes from the end of the stream to the end of the directory.
    pub index: Vec<u8>,
    pub impacts: Option<ImpactTable>,
}

/// End of the directory of a list of `len` bytes.
pub open spec fn index_end(f: Footer, len: int) -> int {
    if f.impact_bounds {
        len - 44
    } else {
        f.ratios_end_spec()
    }
}

/// The footer in the last bytes of a list of `len` bytes, or why the list
/// cannot be opened within a budget.
pub open spec fn plan_check(tail: Seq<u8>, len: int, budget: int) -> Result<Footer, PostingError> {
    let want = if len < 44 {
        len
    } else {
        44
    };
    if tail.len() != want {
        Err(PostingError::FooterRead)
    } else {
        match footer::parse_tail_spec(tail, len) {
            Err(error) => Err(error),
            Ok(f) => if index_end(f, len) - f.stream_len > budget {
                Err(PostingError::SourceBudget)
            } else {
                Ok(f)
            },
        }
    }
}

/// Number of last bytes that `plan` wants of a list of `len` bytes.
pub fn tail_len(len: usize) -> (r: usize)
    ensures
        r == (if len < 44 {
            len
        } else {
            44
        }),
{
    if len < 44 {
        len
    } else {
        44
    }
}

/// What an accepted footer says of the sections.
pub proof fn tail_extent(tail: Seq<u8>, len: int)
    requires
        footer::parse_tail_spec(tail, len) is Ok,
        tail.len() <= len,
    ensures
        ({
            let f = footer::parse_tail_spec(tail, len)->Ok_0;
            &&& f.stream_len <= f.ratios_end_spec() <= len
            &&& f.l0_count <= u32::MAX && f.l1_count <= u32::MAX
            &&& f.impact_bounds ==> {
                &&& f.len_bounds && f.ratio_bounds
                &&& len >= 44
                &&& f.ratios_end_spec() + 4 * (f.impact_count() + 1) <= len - 44
            }
        }),
{
    reveal(footer::parse_tail_spec);
    let f = footer::parse_tail_spec(tail, len)->Ok_0;
    f.sections_in_order();
}

/// Read the footer in the last bytes of a list, and say where its directory
/// lies.
pub fn plan(tail: &[u8], len: usize, budget: usize) -> (r: Result<IndexPlan, PostingError>)
    ensures
        match (r, plan_check(tail@, len as int, budget as int)) {
            (Ok(p), Ok(f)) => p.footer == f && p.start == f.stream_len && p.end == index_end(
                f,
                len as int,
            ) && p.start <= p.end <= len && p.wf(),
            (Err(error), Err(refused)) => error == refused,
            _ => false,
        },
{
    if tail.len() != tail_len(len) {
        return Err(PostingError::FooterRead);
    }
    let f = match Footer::parse_tail(tail, len) {
        Ok(f) => f,
        Err(error) => {
            return Err(error);
        },
    };
    proof {
        tail_extent(tail@, len as int);
        f.sections_in_order();
    }
    let end: usize = if f.impact_bounds {
        len - 44
    } else {
        f.ratios_end()
    };
    let start: usize = f.stream_len;
    if end - start > budget {
        return Err(PostingError::SourceBudget);
    }
    Ok(IndexPlan { footer: f, start, end })
}

impl IndexPlan {
    /// Whether the directory holds the sections of the footer.
    pub open spec fn wf(&self) -> bool {
        &&& self.start == self.footer.stream_len
        &&& self.footer.ratios_end_spec() <= self.end
        &&& self.footer.l0_count <= u32::MAX && self.footer.l1_count <= u32::MAX
        &&& self.footer.impact_bounds ==> self.footer.len_bounds && self.footer.ratio_bounds
    }
}

/// First document of block `i`.
pub open spec fn first_in(index: Seq<u8>, i: int) -> u32 {
    bytes::u32_at(index, 16 * i)
}

/// Last document of block `i`.
pub open spec fn last_in(index: Seq<u8>, i: int) -> u32 {
    bytes::u32_at(index, 16 * i + 4)
}

/// Start of block `i` in the stream.
pub open spec fn start_in(index: Seq<u8>, i: int) -> u32 {
    bytes::u32_at(index, 16 * i + 8)
}

/// End of block `i` in the stream.
pub open spec fn end_in(f: Footer, index: Seq<u8>, i: int) -> int {
    if i + 1 == f.l0_count {
        f.stream_len as int
    } else {
        start_in(index, i + 1) as int
    }
}

/// Position cursor `i`.
pub open spec fn cursor_in(f: Footer, index: Seq<u8>, i: int) -> u64 {
    let base = f.l1_bounds_end_spec() - f.stream_len;
    if f.short_cursors {
        bytes::u32_at(index, base + 4 * i) as u64
    } else {
        bytes::u64_at(index, base + 8 * i)
    }
}

/// Ratio bits `i`.
pub open spec fn ratio_in(f: Footer, index: Seq<u8>, i: int) -> u32 {
    bytes::u32_at(index, f.cursors_end_spec() - f.stream_len + 4 * i)
}

/// The compact descriptor of block `i`.
pub open spec fn descriptor_in(f: Footer, index: Seq<u8>, i: int) -> Seq<u8> {
    index.subrange(16 * f.l0_count + 4 * i, 16 * f.l0_count + 4 * i + 4)
}

/// The stored envelopes.
pub open spec fn impacts_in(f: Footer, index: Seq<u8>) -> Seq<u8> {
    index.skip(f.ratios_end_spec() - f.stream_len)
}

/// Positions of block `i`, or why its cursors are refused.
pub open spec fn span_check(f: Footer, index: Seq<u8>, i: int) -> Result<(u64, u64), PostingError> {
    let start = cursor_in(f, index, i);
    let end = if i + 1 == f.l0_count {
        f.total_positions
    } else {
        cursor_in(f, index, i + 1)
    };
    if !f.has_cursors {
        Ok((0, 0))
    } else if start > end || end > f.total_positions || (i == 0 && start != 0) {
        Err(PostingError::SourceCursors)
    } else {
        Ok((start, end))
    }
}

/// Whether directory entry `i` is out of order or out of the stream.
pub open spec fn bad_entry(f: Footer, index: Seq<u8>, i: int) -> bool {
    ||| i == 0 && start_in(index, i) != 0
    ||| first_in(index, i) > last_in(index, i)
    ||| last_in(index, i) == TERMINATED
    ||| i > 0 && first_in(index, i) <= last_in(index, i - 1)
    ||| i > 0 && start_in(index, i) < start_in(index, i - 1)
    ||| i > 0 && !f.compact_headers && start_in(index, i) == start_in(index, i - 1)
    ||| start_in(index, i) > f.stream_len
    ||| !f.compact_headers && start_in(index, i) == f.stream_len
}

/// Whether the first `n` directory entries are accepted, or why not.
pub open spec fn entries_check(f: Footer, index: Seq<u8>, n: int) -> Result<(), PostingError>
    decreases n,
{
    if n <= 0 {
        Ok(())
    } else if entries_check(f, index, n - 1) is Err {
        entries_check(f, index, n - 1)
    } else if bad_entry(f, index, n - 1) {
        Err(PostingError::SourceDirectory)
    } else {
        match span_check(f, index, n - 1) {
            Err(error) => Err(error),
            Ok(_) => Ok(()),
        }
    }
}

/// Whether a directory is accepted, or why not.
pub open spec fn index_check(f: Footer, index: Seq<u8>) -> Result<(), PostingError> {
    if f.ratio_bounds && !(forall|i: int|
        0 <= i < f.l0_count + f.l1_count ==> ratio::ratio_ok(#[trigger] ratio_in(f, index, i))) {
        Err(PostingError::RatioBound)
    } else if f.impact_bounds && impacts::table_check(
        impacts_in(f, index),
        f.impact_count(),
    ) is Err {
        impacts::table_check(impacts_in(f, index), f.impact_count())
    } else if f.l1_count != bounds::group_count(f.l0_count as int) || (f.l0_count == 0) != (
    f.doc_count == 0) || f.doc_count > 128 * f.l0_count {
        Err(PostingError::SourceCounts)
    } else {
        entries_check(f, index, f.l0_count as int)
    }
}

proof fn entries_refused(f: Footer, index: Seq<u8>, i: int, n: int)
    requires
        0 <= i <= n,
        entries_check(f, index, i) is Err,
    ensures
        entries_check(f, index, n) == entries_check(f, index, i),
    decreases n,
{
    if i < n {
        entries_refused(f, index, i, n - 1);
    }
}

proof fn entries_prefix(f: Footer, index: Seq<u8>, i: int, n: int)
    requires
        0 <= i < n,
        entries_check(f, index, n) is Ok,
    ensures
        !bad_entry(f, index, i),
        span_check(f, index, i) is Ok,
    decreases n,
{
    if i < n - 1 {
        entries_prefix(f, index, i, n - 1);
    }
}

/// Check the stored ratios.
fn ratios_accepted(f: &Footer, index: &[u8]) -> (r: bool)
    requires
        f.ratio_bounds,
        f.ratios_end_spec() <= usize::MAX,
        f.ratios_end_spec() - f.stream_len <= index.len(),
        f.l0_count <= u32::MAX,
        f.l1_count <= u32::MAX,
    ensures
        r == (forall|i: int|
            0 <= i < f.l0_count + f.l1_count ==> ratio::ratio_ok(#[trigger] ratio_in(*f, index@, i))),
{
    proof {
        f.sections_in_order();
    }
    let base: usize = f.cursors_end() - f.stream_len;
    let n: usize = f.l0_count + f.l1_count;
    let mut i: usize = 0;
    while i < n
        invariant
            i <= n == f.l0_count + f.l1_count,
            base == f.cursors_end_spec() - f.stream_len,
            base + 4 * n <= index.len(),
            forall|k: int| 0 <= k < i ==> ratio::ratio_ok(#[trigger] ratio_in(*f, index@, k)),
        decreases n - i,
    {
        let word: u32 = bytes::get_u32(index, base + 4 * i);
        if !(word <= 0x7F7F_FFFF || word == 0x8000_0000) {
            proof {
                assert(!ratio::ratio_ok(ratio_in(*f, index@, i as int)));
            }
            return false;
        }
        i = i + 1;
    }
    true
}

/// Whether a check has said to go on.
pub open spec fn goes_on<C: Fn() -> Result<(), PostingError>>(check: C) -> bool {
    exists|go: Result<(), PostingError>| #[trigger] call_ensures(check, (), go) && go is Ok
}

impl PostingBlockSource {
    /// What an opened source holds.
    pub open spec fn wf(&self) -> bool {
        let f = self.footer;
        &&& f.ratios_end_spec() <= usize::MAX
        &&& f.ratios_end_spec() - f.stream_len <= self.index.len()
        &&& f.l0_count <= u32::MAX && f.l1_count <= u32::MAX
        &&& f.impact_bounds ==> f.len_bounds && f.ratio_bounds
        &&& index_check(f, self.index@) is Ok
        &&& match self.impacts {
            Some(t) => f.impact_bounds && t.wf() && t@.len() == f.impact_count()
                && impacts::table_bytes(t@) == impacts_in(f, self.index@),
            None => !f.impact_bounds,
        }
    }

    /// Open a list by its directory.
    pub fn open(plan: IndexPlan, index: Vec<u8>) -> (r: Result<PostingBlockSource, PostingError>)
        requires
            plan.wf(),
        ensures
            r matches Ok(s) ==> s.wf() && s.footer == plan.footer && s.index@ == index@,
            match r {
                Ok(_) => index.len() == plan.end - plan.start && index_check(
                    plan.footer,
                    index@,
                ) is Ok,
                Err(error) => if index.len() != plan.end - plan.start {
                    error == PostingError::DirectoryRead
                } else {
                    index_check(plan.footer, index@) == Err::<(), PostingError>(error)
                },
            },
    {
        let go = || -> (r: Result<(), PostingError>)
            ensures
                r is Ok,
            { Ok(()) };
        PostingBlockSource::open_with(plan, index, go)
    }

    /// Open a list by its directory, asking `check` now and then whether to go
    /// on. Its refusal ends the work.
    pub fn open_with<C: Fn() -> Result<(), PostingError>>(
        plan: IndexPlan,
        index: Vec<u8>,
        check: C,
    ) -> (r: Result<PostingBlockSource, PostingError>)
        requires
            plan.wf(),
            call_requires(check, ()),
        ensures
            r matches Ok(s) ==> s.wf() && s.footer == plan.footer && s.index@ == index@,
            match r {
                Ok(_) => {
                    &&& index.len() == plan.end - plan.start
                    &&& index_check(plan.footer, index@) is Ok
                    &&& plan.footer.l0_count > 0 ==> goes_on(check)
                },
                Err(error) => if index.len() != plan.end - plan.start {
                    error == PostingError::DirectoryRead
                } else {
                    index_check(plan.footer, index@) == Err::<(), PostingError>(error)
                        || call_ensures(check, (), Err(error))
                },
            },
    {
        let f = plan.footer;
        proof {
            f.sections_in_order();
        }
        if index.len() != plan.end - plan.start {
            return Err(PostingError::DirectoryRead);
        }
        if f.ratio_bounds && !ratios_accepted(&f, index.as_slice()) {
            return Err(PostingError::RatioBound);
        }
        let impacts: Option<ImpactTable> = if f.impact_bounds {
            let from: usize = f.ratios_end() - f.stream_len;
            let section = vstd::slice::slice_subrange(index.as_slice(), from, index.len());
            proof {
                assert(section@ =~= impacts_in(f, index@));
            }
            if f.group_impact_bounds && f.l0_count > usize::MAX - f.l1_count {
                proof {
                    assert(4 * (f.impact_count() + 1) > usize::MAX);
                }
                return Err(PostingError::ImpactOverflow);
            }
            let count: usize = f.impact_record_count();
            match ImpactTable::validate_with(section, count, &check) {
                Ok(_) => {},
                Err(error) => {
                    return Err(error);
                },
            }
            Some(ImpactTable::from_validated(section, count))
        } else {
            None
        };
        let groups: usize = f.l0_count / 8 + if f.l0_count % 8 == 0 {
            0
        } else {
            1
        };
        if f.l1_count != groups || (f.l0_count == 0) != (f.doc_count == 0) || f.doc_count as u64
            > 128 * (f.l0_count as u64) {
            return Err(PostingError::SourceCounts);
        }
        let source = PostingBlockSource { footer: f, index, impacts };
        match source.check_entries(&check) {
            Ok(_) => Ok(source),
            Err(error) => Err(error),
        }
    }

    /// Check the directory entries.
    fn check_entries<C: Fn() -> Result<(), PostingError>>(&self, check: &C) -> (r: Result<
        (),
        PostingError,
    >)
        requires
            call_requires(*check, ()),
            self.footer.ratios_end_spec() <= usize::MAX,
            self.footer.ratios_end_spec() - self.footer.stream_len <= self.index.len(),
            self.footer.l0_count <= u32::MAX,
            self.footer.l1_count <= u32::MAX,
        ensures
            r == entries_check(self.footer, self.index@, self.footer.l0_count as int) || (r is Err
                && call_ensures(*check, (), r)),
            r is Ok && self.footer.l0_count > 0 ==> goes_on(*check),
    {
        let f = &self.footer;
        let n: usize = f.l0_count;
        proof {
            f.sections_in_order();
        }
        let mut previous: Option<(u32, u32)> = None;
        let mut i: usize = 0;
        while i < n
            invariant
                i <= n == f.l0_count,
                *f == self.footer,
                16 * n <= self.index.len(),
                self.footer.ratios_end_spec() <= usize::MAX,
                self.footer.ratios_end_spec() - self.footer.stream_len <= self.index.len(),
                self.footer.l0_count <= u32::MAX,
                self.footer.l1_count <= u32::MAX,
                entries_check(*f, self.index@, i as int) is Ok,
                call_requires(*check, ()),
                i > 0 ==> goes_on(*check),
                match previous {
                    None => i == 0,
                    Some((last, start)) => i > 0 && last == last_in(self.index@, i - 1) && start
                        == start_in(self.index@, i - 1),
                },
            decreases n - i,
        {
            proof {
                if entries_check(*f, self.index@, i + 1) is Err {
                    entries_refused(*f, self.index@, i + 1, n as int);
                }
            }
            if i % 4096 == 0 {
                let go = check();
                proof {
                    assert(call_ensures(*check, (), go));
                    assert(go is Ok ==> goes_on(*check));
                }
                match go {
                    Ok(_) => {},
                    Err(error) => {
                        return Err(error);
                    },
                }
            }
            let (first, last, start, _word): (u32, u32, u32, u32) = self.entry(i);
            if (i == 0 && start != 0) || first > last || last == TERMINATED || start as u64
                > f.stream_len as u64 || (!f.compact_headers && start as u64 == f.stream_len as u64) {
                return Err(PostingError::SourceDirectory);
            }
            if let Some((old_last, old_start)) = previous {
                if first <= old_last || start < old_start || (!f.compact_headers && start
                    == old_start) {
                    return Err(PostingError::SourceDirectory);
                }
            }
            match self.position_span(i) {
                Ok(_) => {},
                Err(error) => {
                    return Err(error);
                },
            }
            previous = Some((last, start));
            i = i + 1;
        }
        Ok(())
    }

    /// Directory entry of a block.
    fn entry(&self, i: usize) -> (r: (u32, u32, u32, u32))
        requires
            i < self.footer.l0_count,
            16 * self.footer.l0_count <= self.index.len(),
        ensures
            r.0 == first_in(self.index@, i as int),
            r.1 == last_in(self.index@, i as int),
            r.2 == start_in(self.index@, i as int),
            r.3 == bytes::u32_at(self.index@, 16 * i + 12),
    {
        let b = self.index.as_slice();
        (
            bytes::get_u32(b, 16 * i),
            bytes::get_u32(b, 16 * i + 4),
            bytes::get_u32(b, 16 * i + 8),
            bytes::get_u32(b, 16 * i + 12),
        )
    }

    /// Whether block headers are in the directory.
    pub fn is_compact(&self) -> (r: bool)
        ensures
            r == self.footer.compact_headers,
    {
        self.footer.compact_headers
    }

    /// Number of blocks.
    pub fn len(&self) -> (r: usize)
        ensures
            r == self.footer.l0_count,
    {
        self.footer.l0_count
    }

    pub fn has_ratio_bounds(&self) -> (r: bool)
        ensures
            r == self.footer.ratio_bounds,
    {
        self.footer.ratio_bounds
    }

    pub fn has_impact_bounds(&self) -> (r: bool)
        ensures
            r == self.impacts is Some,
    {
        self.impacts.is_some()
    }

    pub fn has_positions(&self) -> (r: bool)
        ensures
            r == self.footer.has_cursors,
    {
        self.footer.has_cursors
    }

    /// Number of postings.
    pub fn doc_count(&self) -> (r: u32)
        ensures
            r == self.footer.doc_count,
    {
        self.footer.doc_count
    }

    /// First and last document of a block.
    pub fn bounds(&self, i: usize) -> (r: (u32, u32))
        requires
            self.wf(),
            i < self.footer.l0_count,
        ensures
            r == (first_in(self.index@, i as int), last_in(self.index@, i as int)),
    {
        proof {
            self.footer.sections_in_order();
        }
        let (first, last, _start, _word): (u32, u32, u32, u32) = self.entry(i);
        (first, last)
    }

    /// Position cursor of a block.
    fn cursor(&self, i: usize) -> (r: u64)
        requires
            i < self.footer.l0_count,
            self.footer.has_cursors,
            self.footer.ratios_end_spec() <= usize::MAX,
            self.footer.ratios_end_spec() - self.footer.stream_len <= self.index.len(),
        ensures
            r == cursor_in(self.footer, self.index@, i as int),
    {
        let f = &self.footer;
        proof {
            f.sections_in_order();
        }
        let base: usize = f.l1_bounds_end() - f.stream_len;
        if f.short_cursors {
            bytes::get_u32(self.index.as_slice(), base + 4 * i) as u64
        } else {
            bytes::get_u64(self.index.as_slice(), base + 8 * i)
        }
    }

    /// Range of a block's positions in the position stream.
    pub fn position_span(&self, i: usize) -> (r: Result<(u64, u64), PostingError>)
        requires
            i < self.footer.l0_count,
            self.footer.ratios_end_spec() <= usize::MAX,
            self.footer.ratios_end_spec() - self.footer.stream_len <= self.index.len(),
        ensures
            r == span_check(self.footer, self.index@, i as int),
    {
        if !self.footer.has_cursors {
            return Ok((0, 0));
        }
        let start: u64 = self.cursor(i);
        let end: u64 = if i + 1 == self.footer.l0_count {
            self.footer.total_positions
        } else {
            self.cursor(i + 1)
        };
        if start > end || end > self.footer.total_positions || (i == 0 && start != 0) {
            return Err(PostingError::SourceCursors);
        }
        Ok((start, end))
    }

    /// Range of a block in the stream.
    pub fn block_range(&self, i: usize) -> (r: Result<(usize, usize), PostingError>)
        requires
            self.wf(),
            i < self.footer.l0_count,
        ensures
            ({
                let from = start_in(self.index@, i as int) as int;
                let to = end_in(self.footer, self.index@, i as int);
                match r {
                    Ok((a, b)) => a == from && b == to && from <= to <= from + MAX_BLOCK_BYTES && to
                        <= self.footer.stream_len,
                    Err(error) => error == PostingError::BlockExtent && (to < from || to - from
                        > MAX_BLOCK_BYTES),
                }
            }),
    {
        proof {
            self.footer.sections_in_order();
            entries_prefix(
                self.footer,
                self.index@,
                i as int,
                self.footer.l0_count as int,
            );
            if i + 1 < self.footer.l0_count {
                entries_prefix(
                    self.footer,
                    self.index@,
                    i + 1,
                    self.footer.l0_count as int,
                );
            }
        }
        let (_f, _l, start, _w): (u32, u32, u32, u32) = self.entry(i);
        let from: usize = start as usize;
        let to: usize = if i + 1 == self.footer.l0_count {
            self.footer.stream_len
        } else {
            let (_f, _l, next, _w): (u32, u32, u32, u32) = self.entry(i + 1);
            next as usize
        };
        if to < from || to - from > MAX_BLOCK_BYTES {
            return Err(PostingError::BlockExtent);
        }
        Ok((from, to))
    }

    /// The framed form of a block: compact blocks get their header back.
    pub open spec fn framed(&self, i: int, stream: Seq<u8>) -> Seq<u8> {
        if self.footer.compact_headers {
            let d = descriptor_in(self.footer, self.index@, i);
            d.take(2) + bytes::le32(first_in(self.index@, i)) + d.skip(2) + stream
        } else {
            stream
        }
    }

    /// Posting count of a block whose bytes were read, or why it is refused.
    pub open spec fn block_check(&self, i: int, stream: Seq<u8>) -> Result<int, PostingError> {
        let from = start_in(self.index@, i) as int;
        let to = end_in(self.footer, self.index@, i);
        let first = first_in(self.index@, i);
        let last = last_in(self.index@, i);
        if to < from || to - from > MAX_BLOCK_BYTES {
            Err(PostingError::BlockExtent)
        } else if stream.len() != to - from {
            Err(PostingError::BlockRead)
        } else if self.footer.compact_headers && block::check_descriptor_spec(
            descriptor_in(self.footer, self.index@, i),
            first,
            last,
            stream.len() as int,
        ) is Err {
            block::check_descriptor_spec(
                descriptor_in(self.footer, self.index@, i),
                first,
                last,
                stream.len() as int,
            )
        } else {
            block::check_block_spec(self.framed(i, stream), first, last)
        }
    }

    /// Whether `l` is the one-block list of block `i`, its bytes being
    /// `stream`.
    pub open spec fn is_block_list(&self, l: BlockPostingList, i: int, stream: Seq<u8>) -> bool {
        let f = self.footer;
        let framed = self.framed(i, stream);
        let span = span_check(f, self.index@, i)->Ok_0;
        &&& l.wf()
        &&& !l.compact_headers && !l.short_cursors
        &&& l.len() == 1
        &&& l.blocks@[0].first == first_in(self.index@, i)
        &&& l.blocks@[0].last == last_in(self.index@, i)
        &&& l.blocks@[0].bounds == bytes::u32_at(self.index@, 16 * i + 12)
        &&& l.blocks@[0].framed() == framed
        &&& l.l1_bounds@.len() == 0
        &&& match l.ratios {
            Some(words) => f.ratio_bounds && words@ == seq![
                ratio_in(f, self.index@, i),
                ratio_in(f, self.index@, i),
            ],
            None => !f.ratio_bounds,
        }
        &&& match l.impacts {
            Some(t) => self.impacts matches Some(all) && t@ == seq![all@[i]] && all@[i].len() > 0,
            None => match self.impacts {
                Some(all) => all@[i].len() == 0,
                None => true,
            },
        }
        &&& l.max_tf == f.max_tf
        &&& match l.cursors {
            Some(c) => f.has_cursors && c@ == seq![0u64],
            None => !f.has_cursors,
        }
        &&& l.total_positions == span.1 - span.0
        &&& l.len_bounds == f.len_bounds
        &&& l.min_len == f.min_len
    }

    /// The one-block list of a block whose bytes were read.
    pub fn read_block(&self, i: usize, stream: &[u8]) -> (r: Result<BlockPostingList, PostingError>)
        requires
            self.wf(),
            i < self.footer.l0_count,
        ensures
            match (r, self.block_check(i as int, stream@)) {
                (Ok(l), Ok(count)) => self.is_block_list(l, i as int, stream@) && l.doc_count
                    == count,
                (Err(error), Err(refused)) => error == refused,
                _ => false,
            },
    {
        let (from, to): (usize, usize) = match self.block_range(i) {
            Ok(range) => range,
            Err(error) => {
                return Err(error);
            },
        };
        if stream.len() != to - from {
            return Err(PostingError::BlockRead);
        }
        let (first, last): (u32, u32) = self.bounds(i);
        let framed: Vec<u8> = match self.frame(i, first, last, stream) {
            Ok(framed) => framed,
            Err(error) => {
                return Err(error);
            },
        };
        let count: usize = match block::validate_block(framed.as_slice(), first, last) {
            Ok(count) => count,
            Err(error) => {
                return Err(error);
            },
        };
        Ok(self.block_list(i, first, last, framed.as_slice(), count))
    }

    /// The framed form of a block, its compact descriptor checked.
    fn frame(&self, i: usize, first: u32, last: u32, stream: &[u8]) -> (r: Result<
        Vec<u8>,
        PostingError,
    >)
        requires
            self.wf(),
            i < self.footer.l0_count,
            first == first_in(self.index@, i as int),
            last == last_in(self.index@, i as int),
        ensures
            ({
                let check = block::check_descriptor_spec(
                    descriptor_in(self.footer, self.index@, i as int),
                    first,
                    last,
                    stream@.len() as int,
                );
                match r {
                    Ok(framed) => framed@ == self.framed(i as int, stream@) && (
                    self.footer.compact_headers ==> check is Ok),
                    Err(error) => self.footer.compact_headers && check == Err::<int, PostingError>(
                        error,
                    ),
                }
            }),
    {
        proof {
            self.footer.sections_in_order();
        }
        let mut framed: Vec<u8> = Vec::new();
        if self.footer.compact_headers {
            let at: usize = 16 * self.footer.l0_count + 4 * i;
            let d = bytes::copy_range(self.index.as_slice(), at, at + 4);
            proof {
                assert(d@ =~= descriptor_in(self.footer, self.index@, i as int));
            }
            match block::validate_descriptor(d.as_slice(), first, last, stream.len()) {
                Ok(_) => {},
                Err(error) => {
                    return Err(error);
                },
            }
            framed.push(d[0]);
            framed.push(d[1]);
            bytes::put_u32(&mut framed, first);
            framed.push(d[2]);
            framed.push(d[3]);
            bytes::put_slice(&mut framed, stream);
            proof {
                broadcast use bytes::group_word_sizes;

                assert(framed@ =~= self.framed(i as int, stream@));
            }
        } else {
            bytes::put_slice(&mut framed, stream);
            proof {
                assert(framed@ =~= stream@);
            }
        }
        Ok(framed)
    }

    /// The one-block list of a framed block that was checked.
    fn block_list(&self, i: usize, first: u32, last: u32, framed: &[u8], count: usize) -> (l:
        BlockPostingList)
        requires
            self.wf(),
            i < self.footer.l0_count,
            first == first_in(self.index@, i as int),
            last == last_in(self.index@, i as int),
            block::check_block_spec(framed@, first, last) == Ok::<int, PostingError>(count as int),
        ensures
            forall|stream: Seq<u8>|
                #![trigger self.framed(i as int, stream)]
                self.framed(i as int, stream) == framed@ ==> self.is_block_list(
                    l,
                    i as int,
                    stream,
                ),
            l.doc_count == count,
    {
        proof {
            block::checked_block_len(framed@, first, last);
            self.footer.sections_in_order();
            entries_prefix(self.footer, self.index@, i as int, self.footer.l0_count as int);
        }
        let payload = bytes::copy_range(framed, 8, framed.len());
        proof {
            assert(payload@ =~= framed@.skip(8));
        }
        let (_first, _last, _start, word): (u32, u32, u32, u32) = self.entry(i);
        let b = PostingBlock {
            first,
            last,
            bounds: word,
            count: bytes::get_u16(framed, 0),
            doc_bits: framed[6],
            tf_bits: framed[7],
            payload,
        };
        proof {
            block::checked_block_wf(b, framed@);
        }
        let (start, end): (u64, u64) = match self.position_span(i) {
            Ok(span) => span,
            Err(_) => (0, 0),
        };
        let ratios: Option<Vec<u32>> = if self.footer.ratio_bounds {
            let at: usize = self.footer.cursors_end() - self.footer.stream_len + 4 * i;
            let ratio: u32 = bytes::get_u32(self.index.as_slice(), at);
            let mut words: Vec<u32> = Vec::new();
            words.push(ratio);
            words.push(ratio);
            proof {
                assert(ratio == ratio_in(self.footer, self.index@, i as int));
                assert(words@ =~= seq![ratio, ratio]);
            }
            Some(words)
        } else {
            None
        };
        let impacts: Option<ImpactTable> = self.block_impacts(i);
        let mut blocks: Vec<PostingBlock> = Vec::new();
        blocks.push(b);
        let cursors: Option<Vec<u64>> = if self.footer.has_cursors {
            let mut c: Vec<u64> = Vec::new();
            c.push(0);
            proof {
                assert(c@ =~= seq![0u64]);
            }
            Some(c)
        } else {
            None
        };
        let l1_docs = list::group_last_docs(blocks.as_slice());
        let count = b_count(&blocks);
        proof {
            assert(list::total_count(blocks@, 1) == list::total_count(blocks@, 0) + b.count);
            assert(list::stream_upto(blocks@, 0, false) == 0);
        }
        BlockPostingList {
            compact_headers: false,
            short_cursors: false,
            blocks,
            l1_docs,
            l1_bounds: Vec::new(),
            ratios,
            impacts,
            doc_count: count,
            max_tf: self.footer.max_tf,
            cursors,
            total_positions: end - start,
            len_bounds: self.footer.len_bounds,
            min_len: self.footer.min_len,
        }
    }

    /// The envelope of a block, if it is known.
    fn block_impacts(&self, i: usize) -> (r: Option<ImpactTable>)
        requires
            self.wf(),
            i < self.footer.l0_count,
        ensures
            match r {
                Some(t) => self.impacts matches Some(all) && t@ == seq![all@[i as int]]
                    && all@[i as int].len() > 0 && t.wf(),
                None => match self.impacts {
                    Some(all) => all@[i as int].len() == 0,
                    None => true,
                },
            },
    {
        match &self.impacts {
            None => None,
            Some(t) => match t.record(i) {
                None => None,
                Some(record) => {
                    if record.len() == 0 {
                        return None;
                    }
                    let copy = bytes::copy_range(record, 0, record.len());
                    proof {
                        assert(copy@ =~= record@);
                        impacts::record_len(record@);
                    }
                    let mut records: Vec<Vec<u8>> = Vec::new();
                    records.push(copy);
                    let one = ImpactTable { records };
                    proof {
                        assert(one@ =~= seq![record@]);
                        assert(bytes::joined_len(one@, 1) == bytes::joined_len(one@, 0)
                            + record@.len());
                    }
                    Some(one)
                },
            },
        }
    }
}

/// Posting count of the first block.
fn b_count(blocks: &Vec<PostingBlock>) -> (r: u32)
    requires
        blocks.len() > 0,
    ensures
        r == blocks@[0].count,
{
    blocks[0].count as u32
}

} // verus!
