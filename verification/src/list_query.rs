//! Directory queries and block decoding of posting lists.
use crate::block;
use crate::block::PostingBlock;
use crate::block_codec;
use crate::bounds;
use crate::codec::PostingCodec;
use crate::encode;
use crate::envelope::Point;
use crate::error::PostingError;
use crate::impacts;
use crate::list;
use crate::list::BlockPostingList;
use crate::list_build;
use crate::posting;
use crate::posting::Posting;
use vstd::prelude::*;

verus! {

/// Whether `b` is the first block from `from` on that ends at or after
/// `target`.
pub open spec fn is_seek(blocks: Seq<PostingBlock>, target: u32, from: int, b: int) -> bool {
    &&& from <= b < blocks.len()
    &&& blocks[b].last >= target
    &&& forall|i: int| from <= i < b ==> (#[trigger] blocks[i]).last < target
}

/// The first block from `from` on that ends at or after `target`.
pub open spec fn seek_spec(blocks: Seq<PostingBlock>, target: u32, from: int) -> Option<int>
    decreases blocks.len() - from,
{
    if from < 0 || from >= blocks.len() {
        None
    } else if blocks[from].last >= target {
        Some(from)
    } else {
        seek_spec(blocks, target, from + 1)
    }
}

/// `seek_spec` finds the block that `is_seek` describes, and only that.
pub proof fn seek_spec_is(blocks: Seq<PostingBlock>, target: u32, from: int)
    requires
        0 <= from,
    ensures
        match seek_spec(blocks, target, from) {
            Some(b) => is_seek(blocks, target, from, b),
            None => forall|i: int| from <= i < blocks.len() ==> (#[trigger] blocks[i]).last < target,
        },
        forall|b: int|
            is_seek(blocks, target, from, b) ==> seek_spec(blocks, target, from) == Some(b),
    decreases blocks.len() - from,
{
    if from < blocks.len() {
        seek_spec_is(blocks, target, from + 1);
        assert forall|b: int| is_seek(blocks, target, from, b) implies seek_spec(
            blocks,
            target,
            from,
        ) == Some(b) by {
            if blocks[from].last >= target {
                if b > from {
                    assert(blocks[from].last < target);
                }
            } else {
                assert(is_seek(blocks, target, from + 1, b));
            }
        }
        if blocks[from].last < target {
            match seek_spec(blocks, target, from + 1) {
                Some(b) => {
                    assert(is_seek(blocks, target, from, b));
                },
                None => {},
            }
        }
    }
}

/// Last documents of blocks in order are in order.
proof fn lasts_in_order(blocks: Seq<PostingBlock>, i: int, j: int)
    requires
        list::blocks_ok(blocks),
        0 <= i < j < blocks.len(),
    ensures
        blocks[i].last < blocks[j].last,
{
    assert(blocks[i].last < blocks[j].first);
    assert(blocks[j].wf());
}

impl BlockPostingList {
    /// Smallest scoring length of the list, where it is stored.
    pub fn min_len(&self) -> (r: Option<u32>)
        ensures
            r == (if self.len_bounds {
                Some(self.min_len)
            } else {
                None
            }),
    {
        if self.len_bounds {
            Some(self.min_len)
        } else {
            None
        }
    }

    /// Whether ratios are stored.
    pub fn has_ratio_bounds(&self) -> (r: bool)
        ensures
            r == self.ratios is Some,
    {
        self.ratios.is_some()
    }

    /// Whether envelopes are stored.
    pub fn has_impact_bounds(&self) -> (r: bool)
        ensures
            r == self.impacts is Some,
    {
        self.impacts.is_some()
    }

    /// Whether envelopes of groups are stored.
    pub fn has_group_impact_bounds(&self) -> (r: bool)
        ensures
            r == self.has_group_impacts(),
    {
        match &self.impacts {
            Some(t) => t.record_count() > self.blocks.len(),
            None => false,
        }
    }

    /// Points of a stored record; an unknown one has none.
    pub open spec fn point_count(&self, record: int) -> Option<usize> {
        match self.impacts {
            Some(t) => if record < t@.len() {
                Some(
                    if t@[record].len() == 0 {
                        0
                    } else {
                        t@[record][0] as usize
                    },
                )
            } else {
                None
            },
            None => None,
        }
    }

    fn record_size(&self, record: usize) -> (r: Option<usize>)
        ensures
            r == self.point_count(record as int),
    {
        match &self.impacts {
            Some(t) => match t.record(record) {
                Some(bytes) => Some(
                    if bytes.len() == 0 {
                        0
                    } else {
                        bytes[0] as usize
                    },
                ),
                None => None,
            },
            None => None,
        }
    }

    /// Number of envelope points of a block; zero if unknown.
    pub fn block_impact_point_count(&self, block: usize) -> (r: Option<usize>)
        ensures
            r == (if block >= self.len() {
                None
            } else {
                self.point_count(block as int)
            }),
    {
        if block >= self.blocks.len() {
            return None;
        }
        self.record_size(block)
    }

    /// Number of envelope points of the group of a block; zero if unknown.
    pub fn group_impact_point_count(&self, block: usize) -> (r: Option<usize>)
        requires
            self.wf(),
        ensures
            r == (if block >= self.len() {
                None
            } else {
                self.point_count(self.len() + block as int / 8)
            }),
    {
        let n: usize = self.blocks.len();
        if block >= n {
            return None;
        }
        proof {
            list::total_count_grows(self.blocks@, 0, self.len());
        }
        if n > usize::MAX - block / 8 {
            return None;
        }
        self.record_size(n + block / 8)
    }

    fn record_points(&self, record: usize) -> (r: Option<Vec<Point>>)
        requires
            self.wf(),
        ensures
            match (r, self.envelope(record as int)) {
                (Some(points), Some(want)) => points@ == want,
                (None, None) => true,
                _ => false,
            },
    {
        match &self.impacts {
            Some(t) => match t.record(record) {
                Some(bytes) => {
                    if bytes.len() == 0 {
                        return None;
                    }
                    let mut points: Vec<Point> = Vec::new();
                    proof {
                        assert(t@[record as int] == bytes@);
                    }
                    impacts::push_points(bytes, &mut points);
                    proof {
                        assert(points@ =~= impacts::record_points(bytes@));
                    }
                    Some(points)
                },
                None => None,
            },
            None => None,
        }
    }

    /// The points of a stored record that is known.
    pub open spec fn envelope(&self, record: int) -> Option<Seq<Point>> {
        match self.impacts {
            Some(t) => if record < t@.len() && t@[record].len() > 0 {
                Some(impacts::record_points(t@[record]))
            } else {
                None
            },
            None => None,
        }
    }

    /// The envelope points of a block: the least value of any linear cost of
    /// its postings is reached at one of them.
    pub fn block_impact_points(&self, block: usize) -> (r: Option<Vec<Point>>)
        requires
            self.wf(),
        ensures
            match (r, self.envelope(block as int)) {
                (Some(points), Some(want)) => block < self.len() && points@ == want,
                (None, want) => block >= self.len() || want is None,
                _ => false,
            },
    {
        if block >= self.blocks.len() {
            return None;
        }
        self.record_points(block)
    }

    /// The envelope points of the group of a block.
    pub fn group_impact_points(&self, block: usize) -> (r: Option<Vec<Point>>)
        requires
            self.wf(),
        ensures
            match (r, self.envelope(self.len() + block as int / 8)) {
                (Some(points), Some(want)) => block < self.len() && points@ == want,
                (None, want) => block >= self.len() || want is None,
                _ => false,
            },
    {
        let n: usize = self.blocks.len();
        if block >= n {
            return None;
        }
        if n > usize::MAX - block / 8 {
            return None;
        }
        self.record_points(n + block / 8)
    }

    /// Whether block headers are stored in the directory.
    pub fn has_compact_headers(&self) -> (r: bool)
        ensures
            r == self.compact_headers,
    {
        self.compact_headers
    }

    /// Ratio bits of a block; zero where none is stored.
    pub fn block_length_ratio(&self, block: usize) -> (r: u32)
        requires
            self.wf(),
            block < self.len(),
        ensures
            r == (match self.ratios {
                Some(words) => words@[block as int],
                None => 0,
            }),
    {
        match &self.ratios {
            Some(words) => words[block],
            None => 0,
        }
    }

    /// Ratio bits of the group of a block; zero where none is stored.
    pub fn group_length_ratio(&self, block: usize) -> (r: u32)
        requires
            self.wf(),
            block < self.len(),
        ensures
            r == (match self.ratios {
                Some(words) => words@[self.len() + block as int / 8],
                None => 0,
            }),
    {
        match &self.ratios {
            Some(words) => {
                let groups: usize = words.len() - self.blocks.len();
                proof {
                    assert(block / 8 < groups);
                }
                words[self.blocks.len() + block / 8]
            },
            None => 0,
        }
    }

    /// What a packed frequency stands for: a saturated one for the list's
    /// largest.
    pub open spec fn unsaturated(&self, tf: u32) -> u32 {
        if tf == 0xFFFF && self.max_tf > tf {
            self.max_tf
        } else {
            tf
        }
    }

    /// Largest frequency and smallest length of a block.
    pub open spec fn block_bounds_spec(&self, i: int) -> (u32, Option<u32>) {
        let (tf, len) = bounds::unpack_bounds_spec(self.blocks@[i].bounds, self.len_bounds);
        (
            if self.len_bounds {
                self.unsaturated(tf)
            } else {
                tf
            },
            len,
        )
    }

    /// Largest frequency and smallest length of a block.
    pub fn block_bounds(&self, block_idx: usize) -> (r: Option<(u32, Option<u32>)>)
        ensures
            r == (if block_idx >= self.len() {
                None
            } else {
                Some(self.block_bounds_spec(block_idx as int))
            }),
    {
        if block_idx >= self.blocks.len() {
            return None;
        }
        let (tf, len): (u32, Option<u32>) = bounds::unpack_bounds(
            self.blocks[block_idx].bounds,
            self.len_bounds,
        );
        let max_tf: u32 = if self.len_bounds && tf == 0xFFFF && self.max_tf > tf {
            self.max_tf
        } else {
            tf
        };
        Some((max_tf, len))
    }

    /// Largest frequency and smallest length of the group of a block, where
    /// group bounds are stored.
    pub fn group_bounds(&self, block_idx: usize) -> (r: Option<(u32, u32)>)
        requires
            self.wf(),
        ensures
            r == (if block_idx >= self.len() || self.l1_bounds@.len() == 0 {
                None
            } else {
                let (tf, len) = bounds::unpack_bounds_spec(
                    self.l1_bounds@[block_idx as int / 8],
                    true,
                );
                Some((self.unsaturated(tf), len->Some_0))
            }),
    {
        if block_idx >= self.blocks.len() || self.l1_bounds.len() == 0 {
            return None;
        }
        let word: u32 = self.l1_bounds[block_idx / 8];
        let tf: u32 = word % 0x1_0000;
        let max_tf: u32 = if tf == 0xFFFF && self.max_tf > tf {
            self.max_tf
        } else {
            tf
        };
        Some((max_tf, word / 0x1_0000))
    }

    /// Last document of the group of a block.
    pub fn group_last_doc(&self, block_idx: usize) -> (r: Option<u32>)
        ensures
            r == (if block_idx as int / 8 < self.l1_docs@.len() {
                Some(self.l1_docs@[block_idx as int / 8])
            } else {
                None
            }),
    {
        if block_idx / 8 < self.l1_docs.len() {
            Some(self.l1_docs[block_idx / 8])
        } else {
            None
        }
    }

    /// Whether a block opens a group.
    pub fn is_group_start(&self, block_idx: usize) -> (r: bool)
        ensures
            r == (block_idx % 8 == 0),
    {
        block_idx % 8 == 0
    }

    /// The block after the group of a block, or the block count.
    pub fn next_group_block(&self, block_idx: usize) -> (r: usize)
        requires
            block_idx <= usize::MAX - 8,
        ensures
            r == (if 8 * (block_idx as int / 8 + 1) < self.len() {
                8 * (block_idx as int / 8 + 1)
            } else {
                self.len()
            }),
    {
        let next: usize = (block_idx / 8 + 1) * 8;
        if next < self.blocks.len() {
            next
        } else {
            self.blocks.len()
        }
    }

    /// Whether position cursors are there.
    pub fn has_position_cursors(&self) -> (r: bool)
        ensures
            r == self.cursors is Some,
    {
        self.cursors.is_some()
    }

    /// Number of positions; zero without cursors.
    pub fn total_positions(&self) -> (r: u64)
        ensures
            r == self.total_positions,
    {
        self.total_positions
    }

    /// Number of positions before a block.
    pub fn pos_cursor(&self, block_idx: usize) -> (r: Option<u64>)
        ensures
            r == (match self.cursors {
                Some(c) => if block_idx < c@.len() {
                    Some(c@[block_idx as int])
                } else {
                    None
                },
                None => None,
            }),
    {
        match &self.cursors {
            Some(c) => if block_idx < c.len() {
                Some(c[block_idx])
            } else {
                None
            },
            None => None,
        }
    }

    /// Number of postings.
    pub fn doc_count(&self) -> (r: u32)
        ensures
            r == self.doc_count,
    {
        self.doc_count
    }

    /// Largest term frequency.
    pub fn max_tf(&self) -> (r: u32)
        ensures
            r == self.max_tf,
    {
        self.max_tf
    }

    /// Number of blocks.
    pub fn num_blocks(&self) -> (r: usize)
        ensures
            r == self.len(),
    {
        self.blocks.len()
    }

    /// Largest term frequency of a block.
    pub fn block_max_tf(&self, block_idx: usize) -> (r: Option<u32>)
        ensures
            r == (if block_idx >= self.len() {
                None
            } else {
                Some(self.block_bounds_spec(block_idx as int).0)
            }),
    {
        match self.block_bounds(block_idx) {
            Some((tf, _)) => Some(tf),
            None => None,
        }
    }

    /// Codec of a block.
    pub fn block_codec(&self, block_idx: usize) -> (r: Option<PostingCodec>)
        requires
            self.wf(),
        ensures
            r == (if block_idx >= self.len() {
                None
            } else {
                Some(self.blocks@[block_idx as int].codec())
            }),
    {
        if block_idx >= self.blocks.len() {
            return None;
        }
        proof {
            assert(self.blocks@[block_idx as int].wf());
        }
        let (c, _w): (PostingCodec, u8) = self.blocks[block_idx].parts();
        Some(c)
    }

    /// Stream bytes of a block.
    pub fn block_len(&self, block_idx: usize) -> (r: usize)
        requires
            self.wf(),
            block_idx < self.len(),
        ensures
            r == list::stream_upto(self.blocks@, block_idx + 1, self.compact_headers)
                - list::stream_upto(self.blocks@, block_idx as int, self.compact_headers),
    {
        proof {
            assert(self.blocks@[block_idx as int].wf());
            list::payload_bound(self.blocks@[block_idx as int]);
        }
        if self.compact_headers {
            self.blocks[block_idx].payload.len()
        } else {
            8 + self.blocks[block_idx].payload.len()
        }
    }

    /// First document of a block.
    pub fn block_first_doc(&self, block_idx: usize) -> (r: Option<u32>)
        ensures
            r == (if block_idx >= self.len() {
                None
            } else {
                Some(self.blocks@[block_idx as int].first)
            }),
    {
        if block_idx >= self.blocks.len() {
            return None;
        }
        Some(self.blocks[block_idx].first)
    }

    /// Last document of a block.
    pub fn block_last_doc(&self, block_idx: usize) -> (r: Option<u32>)
        ensures
            r == (if block_idx >= self.len() {
                None
            } else {
                Some(self.blocks@[block_idx as int].last)
            }),
    {
        if block_idx >= self.blocks.len() {
            return None;
        }
        Some(self.blocks[block_idx].last)
    }

    /// Last documents of groups in order are in order.
    proof fn groups_in_order(&self, g: int, h: int)
        requires
            self.wf(),
            0 <= g < h < self.l1_docs@.len(),
        ensures
            self.l1_docs@[g] < self.l1_docs@[h],
    {
        let n = self.len();
        lasts_in_order(
            self.blocks@,
            bounds::group_end(n, g) - 1,
            bounds::group_end(n, h) - 1,
        );
    }

    /// First group from `from_group` on that ends at or after `target`, found
    /// by a gallop and a search; the number of groups where there is none.
    fn seek_group(&self, target: u32, from_group: usize) -> (r: usize)
        requires
            self.wf(),
            from_group < self.l1_docs.len(),
        ensures
            from_group <= r <= self.l1_docs@.len(),
            forall|g: int| from_group <= g < r ==> self.l1_docs@[g] < target,
            r < self.l1_docs@.len() ==> self.l1_docs@[r as int] >= target,
    {
        let groups: usize = self.l1_docs.len();
        if self.l1_docs[from_group] >= target {
            return from_group;
        }
        // The group before `lo` ends before the target.
        let mut lo: usize = from_group + 1;
        let mut step: usize = 1;
        while step < groups - from_group && self.l1_docs[from_group + step] < target
            invariant
                groups == self.l1_docs@.len(),
                from_group < lo <= groups,
                self.l1_docs@[lo - 1] < target,
                lo <= from_group + step,
                1 <= step,
            decreases usize::MAX - step,
        {
            lo = from_group + step + 1;
            step = if step <= usize::MAX / 2 {
                step * 2
            } else {
                usize::MAX
            };
        }
        let mut hi: usize = if step < groups - from_group {
            from_group + step
        } else {
            groups
        };
        proof {
            assert forall|g: int| from_group <= g < lo implies self.l1_docs@[g] < target by {
                if g < lo - 1 {
                    self.groups_in_order(g, lo - 1);
                }
            }
        }
        while lo < hi
            invariant
                self.wf(),
                groups == self.l1_docs@.len(),
                from_group <= lo <= hi <= groups,
                forall|g: int| from_group <= g < lo ==> self.l1_docs@[g] < target,
                hi < groups ==> self.l1_docs@[hi as int] >= target,
            decreases hi - lo,
        {
            let mid: usize = lo + (hi - lo) / 2;
            if self.l1_docs[mid] < target {
                proof {
                    assert forall|g: int| from_group <= g < mid + 1 implies self.l1_docs@[g]
                        < target by {
                        if g < mid {
                            self.groups_in_order(g, mid as int);
                        }
                    }
                }
                lo = mid + 1;
            } else {
                hi = mid;
            }
        }
        lo
    }

    /// First block between two that ends at or after `target`, where the last
    /// of them does.
    fn seek_between(&self, target: u32, start: usize, last: usize) -> (r: usize)
        requires
            self.wf(),
            start <= last < self.blocks.len(),
            self.blocks@[last as int].last >= target,
        ensures
            is_seek(self.blocks@, target, start as int, r as int),
            r <= last,
    {
        let mut a: usize = start;
        let mut b: usize = last;
        while a < b
            invariant
                list::blocks_ok(self.blocks@),
                start <= a <= b <= last < self.blocks@.len(),
                self.blocks@[b as int].last >= target,
                forall|i: int| start <= i < a ==> (#[trigger] self.blocks@[i]).last < target,
            decreases b - a,
        {
            let mid: usize = a + (b - a) / 2;
            if self.blocks[mid].last < target {
                proof {
                    assert forall|i: int| start <= i < mid + 1 implies (
                    #[trigger] self.blocks@[i]).last < target by {
                        if a <= i < mid {
                            lasts_in_order(self.blocks@, i, mid as int);
                        }
                    }
                }
                a = mid + 1;
            } else {
                b = mid;
            }
        }
        a
    }

    /// Find the first block from `from_block` on that ends at or after
    /// `target`: the given block, then a gallop over the groups, then a
    /// search within one group.
    pub fn seek_block(&self, target: u32, from_block: usize) -> (r: Option<usize>)
        requires
            self.wf(),
        ensures
            match (r, seek_spec(self.blocks@, target, from_block as int)) {
                (Some(a), Some(b)) => a == b,
                (None, None) => true,
                _ => false,
            },
            r matches Some(b) ==> is_seek(self.blocks@, target, from_block as int, b as int),
    {
        let n: usize = self.blocks.len();
        let ghost bs = self.blocks@;
        proof {
            seek_spec_is(bs, target, from_block as int);
        }
        if from_block >= n {
            return None;
        }
        if self.blocks[from_block].last >= target {
            proof {
                assert(is_seek(bs, target, from_block as int, from_block as int));
            }
            return Some(from_block);
        }
        let groups: usize = self.l1_docs.len();
        let from_group: usize = from_block / 8;
        let lo: usize = self.seek_group(target, from_group);
        proof {
            assert forall|i: int| from_block <= i < n && i < lo * 8 implies (
            #[trigger] bs[i]).last < target by {
                let g = i / 8;
                assert(self.l1_docs@[g] < target);
                let z = bounds::group_end(n as int, g) - 1;
                if i < z {
                    lasts_in_order(bs, i, z);
                }
            }
        }
        if lo >= groups {
            return None;
        }
        let start: usize = if lo * 8 > from_block + 1 {
            lo * 8
        } else {
            from_block + 1
        };
        let end: usize = if n - lo * 8 > 8 {
            lo * 8 + 8
        } else {
            n
        };
        proof {
            let z = bounds::group_end(n as int, lo as int);
            assert(end == z);
            assert(self.l1_docs@[lo as int] == bs[z - 1].last);
            if start >= end {
                assert(end - 1 <= from_block);
                if end - 1 < from_block {
                    lasts_in_order(bs, end - 1, from_block as int);
                }
            }
        }
        let r: usize = self.seek_between(target, start, end - 1);
        proof {
            assert(is_seek(bs, target, from_block as int, r as int));
        }
        Some(r)
    }

    /// Decode a block into two buffers. Nothing is decoded, and `false`
    /// returned, for a block that is not there or whose documents leave the
    /// directory range.
    pub fn decode_block_into(&self, block_idx: usize, doc_ids: &mut Vec<u32>, tfs: &mut Vec<u32>)
        -> (r: bool)
        requires
            self.wf(),
        ensures
            r == (block_idx < self.len() && self.blocks@[block_idx as int].sound()),
            r ==> final(doc_ids)@ == self.blocks@[block_idx as int].docs() && final(tfs)@
                == self.blocks@[block_idx as int].tfs(),
            !r ==> final(tfs)@ == old(tfs)@,
            !r && block_idx < self.len() ==> final(doc_ids)@.len() == 0,
            block_idx >= self.len() ==> final(doc_ids)@ == old(doc_ids)@,
    {
        match self.decode_checked(block_idx, doc_ids) {
            Ok(true) => {
                proof {
                    assert(self.blocks@[block_idx as int].wf());
                }
                let mut values = self.blocks[block_idx].decode_tfs();
                tfs.clear();
                tfs.append(&mut values);
                proof {
                    assert(tfs@ =~= self.blocks@[block_idx as int].tfs());
                }
                true
            },
            _ => false,
        }
    }

    /// Where a block is addressed: its number under compact headers, else the
    /// start of its header in the stream.
    pub open spec fn handle(&self, i: int) -> int {
        if self.compact_headers {
            i
        } else {
            list::stream_upto(self.blocks@, i, false)
        }
    }

    /// Where a block is addressed.
    fn handle_of(&self, block_idx: usize) -> (r: usize)
        requires
            self.wf(),
            block_idx < self.len(),
        ensures
            r == self.handle(block_idx as int),
    {
        if self.compact_headers {
            return block_idx;
        }
        let mut at: usize = 0;
        let mut i: usize = 0;
        while i < block_idx
            invariant
                self.wf(),
                !self.compact_headers,
                i <= block_idx < self.len(),
                at == list::stream_upto(self.blocks@, i as int, false),
            decreases block_idx - i,
        {
            proof {
                assert(list::stream_upto(self.blocks@, i + 1, false) <= u32::MAX);
            }
            at = at + 8 + self.blocks[i].payload.len();
            i = i + 1;
        }
        at
    }

    /// Different blocks have different addresses.
    proof fn handles_differ(&self, i: int, j: int)
        requires
            0 <= i < j,
        ensures
            self.handle(i) < self.handle(j),
        decreases j,
    {
        if !self.compact_headers && i < j - 1 {
            self.handles_differ(i, j - 1);
        }
    }

    /// The block at an address.
    fn block_of(&self, handle: usize) -> (r: usize)
        requires
            self.wf(),
            exists|i: int| 0 <= i < self.len() && handle == #[trigger] self.handle(i),
        ensures
            r < self.len(),
            handle == self.handle(r as int),
    {
        if self.compact_headers {
            return handle;
        }
        let ghost want = choose|i: int| 0 <= i < self.len() && handle == #[trigger] self.handle(i);
        let mut at: usize = 0;
        let mut i: usize = 0;
        while at != handle
            invariant
                self.wf(),
                !self.compact_headers,
                i <= want < self.len(),
                handle == self.handle(want),
                at == self.handle(i as int),
            decreases want - i,
        {
            proof {
                assert(self.blocks.len() == self.blocks@.len());
                if i < want {
                    assert(list::stream_upto(self.blocks@, i + 1, false) <= u32::MAX);
                }
            }
            at = at + 8 + self.blocks[i].payload.len();
            i = i + 1;
        }
        i
    }

    /// Decode just the documents of a block. Gives what
    /// `decode_block_tfs_deferred` needs later: where the block is addressed,
    /// where its frequencies start, and its posting count.
    pub fn decode_block_doc_ids_only(&self, block_idx: usize, doc_ids: &mut Vec<u32>) -> (r: Option<
        (usize, usize, usize),
    >)
        requires
            self.wf(),
        ensures
            r is Some <==> block_idx < self.len() && self.blocks@[block_idx as int].sound(),
            r matches Some((handle, tf_start, count)) ==> {
                let b = self.blocks@[block_idx as int];
                &&& handle == self.handle(block_idx as int)
                &&& tf_start == list::header_len(self.compact_headers) + b.gap_len()
                &&& count == b.count
                &&& final(doc_ids)@ == b.docs()
            },
            r is None && block_idx < self.len() ==> final(doc_ids)@.len() == 0,
            block_idx >= self.len() ==> final(doc_ids)@ == old(doc_ids)@,
    {
        match self.decode_block_doc_ids_checked(block_idx, doc_ids) {
            Ok(state) => state,
            Err(_) => None,
        }
    }

    /// Decode and check the documents of a block, if it is there.
    pub(crate) fn decode_checked(&self, block_idx: usize, doc_ids: &mut Vec<u32>) -> (r: Result<
        bool,
        PostingError,
    >)
        requires
            self.wf(),
        ensures
            r is Err <==> block_idx < self.len() && !self.blocks@[block_idx as int].sound(),
            r matches Err(error) ==> error == (
            if self.blocks@[block_idx as int].first_gap_is_zero() {
                PostingError::DocsLeaveRange(
                    self.blocks@[block_idx as int].first,
                    self.blocks@[block_idx as int].last,
                )
            } else {
                PostingError::FirstGap
            }) && final(doc_ids)@.len() == 0,
            r matches Ok(there) ==> there == (block_idx < self.len()) && final(doc_ids)@ == (
            if there {
                self.blocks@[block_idx as int].docs()
            } else {
                old(doc_ids)@
            }),
    {
        if block_idx >= self.blocks.len() {
            return Ok(false);
        }
        let b = &self.blocks[block_idx];
        proof {
            assert(self.blocks@[block_idx as int].wf());
        }
        doc_ids.clear();
        match b.decode_docs_checked() {
            Ok(mut docs) => {
                doc_ids.append(&mut docs);
                proof {
                    assert(doc_ids@ =~= b.docs());
                }
                Ok(true)
            },
            Err(error) => Err(error),
        }
    }

    /// Decode and check the documents of a block. A block whose documents
    /// leave the directory range is an error.
    pub fn decode_block_doc_ids_checked(&self, block_idx: usize, doc_ids: &mut Vec<u32>)
        -> (r: Result<Option<(usize, usize, usize)>, PostingError>)
        requires
            self.wf(),
        ensures
            r is Err <==> block_idx < self.len() && !self.blocks@[block_idx as int].sound(),
            r matches Err(error) ==> error == (
            if self.blocks@[block_idx as int].first_gap_is_zero() {
                PostingError::DocsLeaveRange(
                    self.blocks@[block_idx as int].first,
                    self.blocks@[block_idx as int].last,
                )
            } else {
                PostingError::FirstGap
            }) && final(doc_ids)@.len() == 0,
            r matches Ok(None) ==> block_idx >= self.len() && final(doc_ids)@ == old(doc_ids)@,
            r matches Ok(Some((handle, tf_start, count))) ==> {
                let b = self.blocks@[block_idx as int];
                &&& block_idx < self.len()
                &&& handle == self.handle(block_idx as int)
                &&& tf_start == list::header_len(self.compact_headers) + b.gap_len()
                &&& count == b.count
                &&& final(doc_ids)@ == b.docs()
            },
    {
        match self.decode_checked(block_idx, doc_ids) {
            Ok(true) => {},
            Ok(false) => {
                return Ok(None);
            },
            Err(error) => {
                return Err(error);
            },
        }
        let b = &self.blocks[block_idx];
        proof {
            assert(self.blocks@[block_idx as int].wf());
            list::payload_bound(self.blocks@[block_idx as int]);
        }
        let header: usize = if self.compact_headers {
            0
        } else {
            8
        };
        Ok(Some((self.handle_of(block_idx), header + b.gap_bytes(), b.count as usize)))
    }

    /// Whether an address, the start of the frequencies and a count are those
    /// of block `i`.
    pub open spec fn is_state(&self, i: int, handle: usize, tf_start: usize, count: usize) -> bool {
        &&& 0 <= i < self.len()
        &&& handle == self.handle(i)
        &&& tf_start == list::header_len(self.compact_headers) + self.blocks@[i].gap_len()
        &&& count == self.blocks@[i].count
    }

    /// Decode the term frequencies of a block whose documents were decoded.
    pub fn decode_block_tfs_deferred(
        &self,
        block_offset: usize,
        tf_start: usize,
        count: usize,
        tfs: &mut Vec<u32>,
    )
        requires
            self.wf(),
            exists|i: int| self.is_state(i, block_offset, tf_start, count),
        ensures
            forall|i: int| #[trigger]
                self.is_state(i, block_offset, tf_start, count) ==> final(tfs)@
                    == self.blocks@[i].tfs(),
    {
        proof {
            let i = choose|i: int| self.is_state(i, block_offset, tf_start, count);
            assert(block_offset == self.handle(i));
        }
        let at: usize = self.block_of(block_offset);
        proof {
            assert(self.blocks@[at as int].wf());
            assert forall|i: int| #[trigger]
                self.is_state(i, block_offset, tf_start, count) implies i == at by {
                if i < at {
                    self.handles_differ(i, at as int);
                } else if i > at {
                    self.handles_differ(at as int, i);
                }
            }
        }
        let mut values = self.blocks[at].decode_tfs();
        tfs.clear();
        tfs.append(&mut values);
        proof {
            assert(tfs@ =~= self.blocks@[at as int].tfs());
        }
    }
}

/// The bounds of a built list hold: no posting of a block has a larger
/// frequency than its bound, and none a smaller scoring length.
pub proof fn built_bounds_hold(
    l: BlockPostingList,
    s: Seq<Posting>,
    with_positions: bool,
    lengths: Option<Seq<u32>>,
    codec: PostingCodec,
    limit: Option<u32>,
    impact_bounds: bool,
    i: int,
    k: int,
)
    requires
        list_build::is_built(l, s, with_positions, lengths, codec, limit, impact_bounds),
        0 <= i < l.len(),
        128 * i <= k < list_build::chunk_end(s.len() as int, i),
    ensures
        s[k].term_freq <= l.block_bounds_spec(i).0,
        l.block_bounds_spec(i).1->Some_0 <= list_build::unit_length(lengths, limit, k),
        s[k].term_freq <= l.max_tf,
{
    let b = l.blocks@[i];
    assert(list_build::is_built_block(b, s, lengths, limit, codec, i));
    let part = list_build::chunk(s, i);
    let tfs = posting::term_freqs(part);
    assert(tfs[k - 128 * i] == s[k].term_freq);
    encode::seq_max_bound(tfs, k - 128 * i);
    encode::seq_max_bound(posting::term_freqs(s), k);
    min_length_holds(lengths, limit, 128 * i, list_build::chunk_end(s.len() as int, i), k);
}

proof fn min_length_holds(lengths: Option<Seq<u32>>, limit: Option<u32>, from: int, to: int, k: int)
    requires
        from <= k < to,
    ensures
        list_build::min_length(lengths, limit, from, to) <= list_build::unit_length(
            lengths,
            limit,
            k,
        ),
    decreases to - from,
{
    if k < to - 1 {
        min_length_holds(lengths, limit, from, to - 1, k);
    }
}

} // verus!
