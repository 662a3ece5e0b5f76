//! Output of posting lists block by block, with a bounded directory.
use crate::block;
use crate::block::PostingBlock;
use crate::block::TERMINATED;
use crate::block_codec;
use crate::bounds;
use crate::bytes;
use crate::codec::PostingCodec;
use crate::envelope::Point;
use crate::error::PostingError;
use crate::impact_builder;
use crate::impact_builder::ImpactBuilder;
use crate::impacts;
use crate::impacts::ImpactTable;
use crate::list;
use crate::list::BlockPostingList;
use crate::list_build;
use crate::merge;
use crate::posting;
use crate::posting::Posting;
use crate::posting::PostingList;
use crate::ratio;
use vstd::prelude::*;

verus! {

/// Bits of positive infinity in single precision.
pub const INFINITE: u32 = 0x7F80_0000;

/// Room for one block's envelope while it is made.
pub const IMPACT_SCRATCH_BYTES: usize = 4096;

/// Copies encoded blocks and gathers single postings into new ones. Only the
/// directory is made anew.
pub struct PostingStreamWriter {
    /// Whether block headers go to the directory.
    pub compact: bool,
    /// The blocks so far.
    pub blocks: Vec<PostingBlock>,
    /// Number of positions before every block, where positions are kept.
    pub cursors: Vec<u64>,
    /// Ratio bits of the blocks, once they are kept.
    pub ratios: Vec<u32>,
    pub has_ratios: bool,
    /// Envelopes of the blocks, once they are kept.
    pub impacts: Option<ImpactBuilder>,
    /// Postings that wait for a full block.
    pub pending: PostingList,
    pub pending_lengths: Vec<u32>,
    pub pending_ratio: u32,
    pub min_pending_length: u32,
    pub with_positions: bool,
    pub blocks_limit: usize,
    /// Stream length of the blocks so far.
    pub written: u64,
    pub docs: u32,
    pub max_tf: u32,
    pub min_len: u32,
    pub positions: u64,
    pub codec: PostingCodec,
    pub directory_budget: usize,
}

/// A size, or the largest there is.
pub open spec fn saturated(x: int) -> int {
    if x > usize::MAX {
        usize::MAX as int
    } else {
        x
    }
}

/// The points of postings: their frequencies and lengths.
pub open spec fn pending_points(postings: Seq<Posting>, lengths: Seq<u32>) -> Seq<Point> {
    Seq::new(postings.len(), |i: int| (postings[i].term_freq, lengths[i]))
}

impl PostingStreamWriter {
    /// What the parts of a writer agree on.
    pub open spec fn wf(&self) -> bool {
        &&& list::blocks_ok(self.blocks@)
        &&& self.compact ==> list::no_pfor(self.blocks@) && self.codec != PostingCodec::Pfor
        &&& list::offsets_fit(self.blocks@, self.compact)
        &&& self.written == list::stream_upto(self.blocks@, self.blocks@.len() as int, self.compact)
        &&& self.docs == list::total_count(self.blocks@, self.blocks@.len() as int)
        &&& self.blocks@.len() <= self.blocks_limit
        &&& self.with_positions ==> self.cursors@.len() == self.blocks@.len() && list::cursors_ok(
            self.cursors@,
            self.positions,
        )
        &&& self.blocks@.len() == 0 ==> self.positions == 0
        &&& self.with_positions && self.blocks@.len() > 0 ==> self.cursors@[0] == 0
        &&& self.has_ratios ==> self.ratios@.len() == self.blocks@.len() && forall|i: int|
            0 <= i < self.ratios@.len() ==> ratio::ratio_ok(#[trigger] self.ratios@[i])
        &&& self.impacts matches Some(b) ==> {
            &&& b.wf()
            &&& b@.len() == self.blocks@.len()
            &&& b.blocks == self.blocks_limit + bounds::group_count(self.blocks_limit as int)
            &&& self.has_ratios
        }
        &&& self.pending@.len() <= 128
        &&& posting::ascending(self.pending@)
        &&& self.pending_lengths@.len() == self.pending@.len()
        &&& self.pending@.len() > 0 && self.has_ratios ==> ratio::ratio_ok(self.pending_ratio)
    }

    /// The postings of the blocks and those that wait.
    pub open spec fn postings(&self) -> Seq<Posting> {
        list::flat(self.blocks@, self.blocks@.len() as int) + self.pending@
    }

    /// Directory bytes of the most blocks there may be, with ratios.
    pub open spec fn ratio_bytes(&self) -> int {
        saturated(
            self.blocks_limit * (20 + (if self.compact {
                4int
            } else {
                0
            }) + (if self.with_positions {
                8int
            } else {
                0
            })) + 12 * bounds::group_count(self.blocks_limit as int),
        )
    }

    /// Why ratios cannot be kept, if they cannot.
    pub open spec fn ratio_refusal(&self) -> Option<PostingError> {
        if self.ratio_bytes() > self.directory_budget {
            Some(PostingError::RatioMemory)
        } else {
            None
        }
    }

    /// Why envelopes cannot be kept, if they cannot.
    pub open spec fn impact_refusal(&self) -> Option<PostingError> {
        let n = self.blocks_limit + bounds::group_count(self.blocks_limit as int);
        if self.impacts is Some {
            None
        } else if saturated(
            self.ratio_bytes() + saturated(impact_builder::budget_spec(n)) + IMPACT_SCRATCH_BYTES,
        ) > self.directory_budget {
            Some(PostingError::ImpactMemory)
        } else if n > usize::MAX {
            Some(PostingError::ImpactGroupCount)
        } else if 81 * n > u32::MAX {
            Some(PostingError::ImpactPayload)
        } else if impact_builder::budget_spec(n) > usize::MAX {
            Some(PostingError::ImpactOverflow)
        } else {
            None
        }
    }

    /// The ratios, with zeros for blocks from before they were kept.
    pub open spec fn kept_ratios(&self) -> Seq<u32> {
        if self.has_ratios {
            self.ratios@
        } else {
            Seq::new(self.blocks@.len(), |i: int| 0u32)
        }
    }

    /// The envelopes, unknown for blocks from before they were kept.
    pub open spec fn kept_records(&self) -> Seq<Seq<u8>> {
        match self.impacts {
            Some(b) => b@,
            None => Seq::new(self.blocks@.len(), |i: int| Seq::<u8>::empty()),
        }
    }

    /// Whether only what is kept of the blocks differs, the blocks and
    /// postings being those of `w`.
    pub open spec fn same_content(&self, w: PostingStreamWriter) -> bool {
        &&& self.compact == w.compact
        &&& self.blocks@ == w.blocks@
        &&& self.cursors@ == w.cursors@
        &&& self.pending@ == w.pending@
        &&& self.pending_lengths@ == w.pending_lengths@
        &&& self.min_pending_length == w.min_pending_length
        &&& self.with_positions == w.with_positions
        &&& self.blocks_limit == w.blocks_limit
        &&& self.written == w.written
        &&& self.docs == w.docs
        &&& self.max_tf == w.max_tf
        &&& self.min_len == w.min_len
        &&& self.positions == w.positions
        &&& self.codec == w.codec
        &&& self.directory_budget == w.directory_budget
    }

    /// A writer for at most `max_blocks` blocks.
    pub fn new(max_blocks: usize, with_positions: bool, codec: PostingCodec, budget: usize) -> (r:
        Result<PostingStreamWriter, PostingError>)
        ensures
            r is Err <==> saturated(32 * max_blocks) > budget,
            r matches Err(error) ==> error == PostingError::OutputBudget,
            r matches Ok(w) ==> {
                &&& w.wf()
                &&& w.postings() == Seq::<Posting>::empty()
                &&& !w.compact && !w.has_ratios && w.impacts is None
                &&& w.with_positions == with_positions
                &&& w.blocks_limit == max_blocks
                &&& w.codec == codec
                &&& w.directory_budget == budget
                &&& w.blocks@.len() == 0 && w.pending@.len() == 0
                &&& w.max_tf == 0 && w.min_len == u32::MAX && w.positions == 0
                &&& w.pending_ratio == INFINITE && w.min_pending_length == u32::MAX
            },
    {
        if budget < usize::MAX && max_blocks > budget / 32 {
            return Err(PostingError::OutputBudget);
        }
        let w = PostingStreamWriter {
            compact: false,
            blocks: Vec::new(),
            cursors: Vec::new(),
            ratios: Vec::new(),
            has_ratios: false,
            impacts: None,
            pending: PostingList::new(),
            pending_lengths: Vec::new(),
            pending_ratio: INFINITE,
            min_pending_length: u32::MAX,
            with_positions,
            blocks_limit: max_blocks,
            written: 0,
            docs: 0,
            max_tf: 0,
            min_len: u32::MAX,
            positions: 0,
            codec,
            directory_budget: budget,
        };
        proof {
            assert(w.postings() =~= Seq::<Posting>::empty());
        }
        Ok(w)
    }

    /// Keep block headers in the directory. This is to be chosen before any
    /// output, and not with patched blocks.
    pub fn enable_compact_headers(&mut self) -> (r: Result<(), PostingError>)
        requires
            old(self).wf(),
        ensures
            final(self).wf(),
            r is Err <==> old(self).blocks@.len() > 0 || old(self).pending@.len() > 0 || old(
                self,
            ).codec == PostingCodec::Pfor,
            r matches Err(error) ==> error == PostingError::CompactHeaders,
            r is Err ==> *final(self) == *old(self),
            r is Ok ==> *final(self) == (PostingStreamWriter { compact: true, ..*old(self) }),
    {
        if self.blocks.len() > 0 || self.pending.len() > 0 || self.codec == PostingCodec::Pfor {
            return Err(PostingError::CompactHeaders);
        }
        self.compact = true;
        Ok(())
    }

    /// Directory bytes of the most blocks there may be, with ratios.
    pub fn ratio_directory_bytes(&self) -> (r: usize)
        ensures
            r == self.ratio_bytes(),
    {
        let mut per_block: u128 = 20;
        if self.compact {
            per_block = per_block + 4;
        }
        if self.with_positions {
            per_block = per_block + 8;
        }
        let limit: u128 = self.blocks_limit as u128;
        let groups: u128 = (limit + 7) / 8;
        proof {
            assert(limit * per_block <= limit * 32) by (nonlinear_arith)
                requires
                    0 <= per_block <= 32,
                    0 <= limit,
            ;
        }
        let total: u128 = limit * per_block + 12 * groups;
        if total > usize::MAX as u128 {
            usize::MAX
        } else {
            total as usize
        }
    }

    /// Keep ratios from now on.
    pub fn enable_ratio_bounds(&mut self) -> (r: Result<(), PostingError>)
        requires
            old(self).wf(),
        ensures
            final(self).wf(),
            r is Err <==> old(self).ratio_refusal() is Some,
            r matches Err(error) ==> Some(error) == old(self).ratio_refusal() && *final(self)
                == *old(self),
            r is Ok ==> {
                &&& final(self).same_content(*old(self))
                &&& final(self).has_ratios
                &&& final(self).ratios@ == old(self).kept_ratios()
                &&& final(self).impacts == old(self).impacts
                &&& final(self).pending_ratio == (if !old(self).has_ratios && old(
                    self,
                ).pending@.len() > 0 {
                    0
                } else {
                    old(self).pending_ratio
                })
            },
    {
        if self.ratio_directory_bytes() > self.directory_budget {
            return Err(PostingError::RatioMemory);
        }
        if !self.has_ratios {
            if self.pending.len() > 0 {
                self.pending_ratio = 0;
            }
            let mut zeros: Vec<u32> = Vec::new();
            while zeros.len() < self.blocks.len()
                invariant
                    zeros@.len() <= self.blocks@.len(),
                    forall|i: int| 0 <= i < zeros@.len() ==> zeros@[i] == 0,
                decreases self.blocks@.len() - zeros@.len(),
            {
                zeros.push(0);
            }
            self.ratios = zeros;
            self.has_ratios = true;
            proof {
                assert(self.ratios@ =~= old(self).kept_ratios());
            }
        }
        Ok(())
    }

    /// Keep envelopes, and ratios, from now on.
    pub fn enable_impact_bounds(&mut self) -> (r: Result<(), PostingError>)
        requires
            old(self).wf(),
        ensures
            final(self).wf(),
            r is Err <==> old(self).impact_refusal() is Some,
            r matches Err(error) ==> Some(error) == old(self).impact_refusal(),
            final(self).same_content(*old(self)),
            final(self).kept_ratios() == old(self).kept_ratios(),
            final(self).kept_records() == old(self).kept_records(),
            r is Ok ==> final(self).impacts is Some && final(self).has_ratios,
            r is Ok ==> final(self).pending_ratio == (if !old(self).has_ratios && old(
                self,
            ).pending@.len() > 0 {
                0
            } else {
                old(self).pending_ratio
            }),
            old(self).impacts is Some ==> *final(self) == *old(self),
    {
        if self.impacts.is_some() {
            return Ok(());
        }
        let n_budget: usize = match ImpactBuilder::budget_with_groups(self.blocks_limit) {
            Some(n) => n,
            None => usize::MAX,
        };
        let required: u128 = self.ratio_directory_bytes() as u128 + n_budget as u128
            + IMPACT_SCRATCH_BYTES as u128;
        let required: usize = if required > usize::MAX as u128 {
            usize::MAX
        } else {
            required as usize
        };
        if required > self.directory_budget {
            return Err(PostingError::ImpactMemory);
        }
        match self.enable_ratio_bounds() {
            Ok(_) => {},
            Err(error) => {
                return Err(error);
            },
        }
        let mut impacts = match ImpactBuilder::with_groups(self.blocks_limit) {
            Ok(b) => b,
            Err(error) => {
                return Err(error);
            },
        };
        let empty: Vec<u8> = Vec::new();
        let mut i: usize = 0;
        while i < self.blocks.len()
            invariant
                i <= self.blocks@.len() <= self.blocks_limit,
                empty@.len() == 0,
                impacts.wf(),
                impacts@.len() == i,
                impacts.blocks == self.blocks_limit + bounds::group_count(
                    self.blocks_limit as int,
                ),
                forall|k: int| 0 <= k < i ==> #[trigger] impacts@[k] == Seq::<u8>::empty(),
            decreases self.blocks@.len() - i,
        {
            proof {
                assert(empty@ =~= Seq::<u8>::empty());
                impacts::record_len(Seq::<u8>::empty());
            }
            let _ = impacts.append(empty.as_slice());
            i = i + 1;
        }
        proof {
            assert(impacts@ =~= old(self).kept_records());
        }
        self.impacts = Some(impacts);
        Ok(())
    }

    /// Why a block cannot be appended at a document, if it cannot.
    pub open spec fn append_refusal(&self, l: BlockPostingList, first: u32) -> Option<PostingError> {
        let b = l.blocks@[0];
        if l.len() != 1 || (self.compact && b.codec() == PostingCodec::Pfor) || (l.cursors is Some)
            != self.with_positions || self.blocks@.len() == self.blocks_limit {
            Some(PostingError::AppendBlock)
        } else if l.impacts is Some && self.impact_refusal() is Some {
            self.impact_refusal()
        } else if l.impacts is None && l.ratios is Some && self.ratio_refusal() is Some {
            self.ratio_refusal()
        } else if first + (b.last - b.first) > u32::MAX {
            Some(PostingError::AppendAddress)
        } else if self.written > u32::MAX || first + (b.last - b.first) == TERMINATED || (
        self.blocks@.len() > 0 && first <= self.blocks@.last().last) {
            Some(PostingError::AppendOrder)
        } else if self.docs + l.doc_count > u32::MAX {
            Some(PostingError::AppendCount)
        } else if self.positions + l.total_positions > u64::MAX {
            Some(PostingError::AppendPositions)
        } else {
            None
        }
    }

    /// Why postings that wait cannot be written where the last of them is at
    /// the sentinel, `record` being their envelope.
    pub open spec fn end_refusal(&self, record: Seq<u8>) -> PostingError {
        if self.blocks@.len() == self.blocks_limit {
            PostingError::AppendBlock
        } else if self.has_ratios && (self.impacts is None || record.len() == 0)
            && self.ratio_refusal() is Some {
            self.ratio_refusal()->Some_0
        } else {
            PostingError::AppendOrder
        }
    }

    /// Whether this is `w` with the block of `l` appended at a document.
    pub open spec fn is_appended(&self, w: PostingStreamWriter, l: BlockPostingList, first: u32) -> bool {
        let b = l.blocks@[0];
        let (tf, len) = bounds::unpack_bounds_spec(b.bounds, l.len_bounds);
        let own: u32 = match len {
            Some(x) => x,
            None => 1,
        };
        &&& self.blocks@.len() == w.blocks@.len() + 1
        &&& self.blocks@.drop_last() == w.blocks@
        &&& block_codec::is_rebased(self.blocks@.last(), b, first - b.first)
        &&& self.blocks@.last().bounds == bounds::repacked(b.bounds, l.len_bounds)
        &&& self.with_positions ==> self.cursors@ == w.cursors@.push(w.positions)
        &&& self.has_ratios == (w.has_ratios || l.ratios is Some || l.impacts is Some)
        &&& self.has_ratios ==> self.ratios@ == w.kept_ratios().push(
            match l.ratios {
                Some(words) => words@[0],
                None => 0,
            },
        )
        &&& (self.impacts is Some) == (w.impacts is Some || l.impacts is Some)
        &&& self.impacts matches Some(built) ==> built@ == w.kept_records().push(
            match l.impacts {
                Some(t) => t@[0],
                None => Seq::empty(),
            },
        )
        &&& self.docs == w.docs + l.doc_count
        &&& self.positions == w.positions + l.total_positions
        &&& self.max_tf == (if l.max_tf > w.max_tf {
            l.max_tf
        } else {
            w.max_tf
        })
        &&& self.min_len == (if own < w.min_len {
            own
        } else {
            w.min_len
        })
        &&& self.compact == w.compact
        &&& self.with_positions == w.with_positions
        &&& self.blocks_limit == w.blocks_limit
        &&& self.codec == w.codec
        &&& self.directory_budget == w.directory_budget
        &&& self.pending@ == w.pending@
        &&& self.pending_lengths@ == w.pending_lengths@
        &&& self.min_pending_length == w.min_pending_length
        &&& self.pending_ratio == (if self.has_ratios && !w.has_ratios && w.pending@.len() > 0 {
            0
        } else {
            w.pending_ratio
        })
        &&& self.written == w.written + list::header_len(w.compact) + b.payload@.len()
    }

    /// Append the block of a list of one, its documents moved to start at
    /// `first`. On refusal no block is added.
    fn append_block(&mut self, l: &BlockPostingList, first: u32) -> (r: Result<(), PostingError>)
        requires
            old(self).wf(),
            l.wf(),
        ensures
            final(self).wf(),
            r matches Err(error) ==> Some(error) == old(self).append_refusal(*l, first)
                && final(self).same_content(*old(self)),
            r is Ok ==> old(self).append_refusal(*l, first) is None && final(self).is_appended(
                *old(self),
                *l,
                first,
            ),
    {
        if l.blocks.len() != 1 {
            return Err(PostingError::AppendBlock);
        }
        let ghost b = l.blocks@[0];
        proof {
            assert(b.wf());
            assert(list::total_count(l.blocks@, 1) == list::total_count(l.blocks@, 0) + b.count);
        }
        let (c, _w): (PostingCodec, u8) = l.blocks[0].parts();
        if (self.compact && c == PostingCodec::Pfor) || l.cursors.is_some() != self.with_positions
            || self.blocks.len() == self.blocks_limit {
            return Err(PostingError::AppendBlock);
        }
        if l.impacts.is_some() {
            match self.enable_impact_bounds() {
                Ok(_) => {},
                Err(error) => {
                    return Err(error);
                },
            }
        } else if l.ratios.is_some() {
            match self.enable_ratio_bounds() {
                Ok(_) => {},
                Err(error) => {
                    return Err(error);
                },
            }
        }
        let ghost w = *self;
        let span: u32 = l.blocks[0].last - l.blocks[0].first;
        if first > u32::MAX - span {
            return Err(PostingError::AppendAddress);
        }
        if self.written > 0xFFFF_FFFF || first + span == TERMINATED || (self.blocks.len() > 0
            && first <= self.blocks[self.blocks.len() - 1].last) {
            return Err(PostingError::AppendOrder);
        }
        let docs: u32 = match self.docs.checked_add(l.doc_count) {
            Some(n) => n,
            None => {
                return Err(PostingError::AppendCount);
            },
        };
        let positions: u64 = match self.positions.checked_add(l.total_positions) {
            Some(n) => n,
            None => {
                return Err(PostingError::AppendPositions);
            },
        };
        self.commit_block(l, first, docs, positions);
        Ok(())
    }

    /// Append a block that was checked.
    fn commit_block(&mut self, l: &BlockPostingList, first: u32, docs: u32, positions: u64)
        requires
            old(self).wf(),
            l.wf(),
            l.len() == 1,
            old(self).compact ==> l.blocks@[0].codec() != PostingCodec::Pfor,
            (l.cursors is Some) == old(self).with_positions,
            old(self).blocks@.len() < old(self).blocks_limit,
            l.impacts is Some ==> old(self).impacts is Some,
            l.ratios is Some ==> old(self).has_ratios,
            first + (l.blocks@[0].last - l.blocks@[0].first) < TERMINATED,
            old(self).written <= u32::MAX,
            old(self).blocks@.len() > 0 ==> first > old(self).blocks@.last().last,
            docs == old(self).docs + l.doc_count,
            positions == old(self).positions + l.total_positions,
        ensures
            final(self).wf(),
            final(self).is_appended(*old(self), *l, first),
            final(self).pending_ratio == old(self).pending_ratio,
    {
        let ghost b = l.blocks@[0];
        proof {
            assert(b.wf());
            assert(list::total_count(l.blocks@, 1) == list::total_count(l.blocks@, 0) + b.count);
            list::payload_bound(b);
        }
        let (tf, len): (u32, Option<u32>) = bounds::unpack_bounds(l.blocks[0].bounds, l.len_bounds);
        let own: u32 = match len {
            Some(x) => x,
            None => 1,
        };
        let block = l.blocks[0].moved(first, bounds::pack_bounds(tf, own));
        let ghost before = self.blocks@;
        proof {
            list::push_block(before, block, self.compact);
        }
        if self.has_ratios {
            self.ratios.push(l.block_length_ratio(0));
        }
        self.append_record(l);
        if self.with_positions {
            self.cursors.push(self.positions);
        }
        let header: u64 = if self.compact {
            0
        } else {
            8
        };
        self.written = self.written + header + block.payload.len() as u64;
        self.blocks.push(block);
        self.docs = docs;
        self.positions = positions;
        if l.max_tf > self.max_tf {
            self.max_tf = l.max_tf;
        }
        if own < self.min_len {
            self.min_len = own;
        }
        proof {
            assert(self.blocks@.drop_last() =~= before);
            assert(block.codec() == b.codec());
        }
    }

    /// Add the envelope of a block, where envelopes are kept.
    fn append_record(&mut self, l: &BlockPostingList)
        requires
            l.wf(),
            l.len() == 1,
            old(self).blocks@.len() < old(self).blocks_limit,
            old(self).impacts matches Some(b) ==> b.wf() && b@.len() == old(self).blocks@.len()
                && b.blocks == old(self).blocks_limit + bounds::group_count(
                old(self).blocks_limit as int,
            ),
        ensures
            *final(self) == (PostingStreamWriter { impacts: final(self).impacts, ..*old(self) }),
            (final(self).impacts is Some) == (old(self).impacts is Some),
            final(self).impacts matches Some(b) ==> b.wf() && b.blocks == old(
                self,
            ).impacts->Some_0.blocks && b@ == old(self).impacts->Some_0@.push(
                match l.impacts {
                    Some(t) => t@[0],
                    None => Seq::empty(),
                },
            ),
    {
        let mut slot: Option<ImpactBuilder> = None;
        std::mem::swap(&mut slot, &mut self.impacts);
        if let Some(b) = slot {
            let mut builder = b;
            let empty: Vec<u8> = Vec::new();
            proof {
                assert(empty@ =~= Seq::<u8>::empty());
                impacts::record_len(Seq::<u8>::empty());
            }
            let record: &[u8] = match &l.impacts {
                Some(t) => match t.record(0) {
                    Some(record) => record,
                    None => empty.as_slice(),
                },
                None => empty.as_slice(),
            };
            proof {
                assert(impacts::record_check(record@) is Ok);
                impacts::record_len(record@);
            }
            let _ = builder.append(record);
            self.impacts = Some(builder);
        }
    }

    /// Whether `l` is the one-block list of the postings that wait: bounded by
    /// their smallest length, and with their smallest ratio and their
    /// envelope where these are kept.
    pub open spec fn is_flush_list(&self, l: BlockPostingList) -> bool {
        &&& l.wf()
        &&& l.sound()
        &&& l@ == self.pending@
        &&& list_build::is_built(
            (BlockPostingList { ratios: None, impacts: None, ..l }),
            self.pending@,
            self.with_positions,
            Some(Seq::new(self.pending@.len(), |i: int| self.min_pending_length)),
            self.codec,
            None,
            false,
        )
        &&& match l.ratios {
            Some(words) => self.has_ratios && words@ == seq![self.pending_ratio, self.pending_ratio],
            None => !self.has_ratios,
        }
        &&& if self.impacts is Some {
            exists|record: Seq<u8>|
                {
                    &&& impacts::is_record_of(
                        record,
                        pending_points(self.pending@, self.pending_lengths@),
                    )
                    &&& #[trigger] merge::kept_records(seq![record]) == (match l.impacts {
                        Some(t) => Some(t@),
                        None => None,
                    })
                }
        } else {
            l.impacts is None
        }
    }

    /// Whether this is `w` after the postings that wait were written, or why
    /// they could not be.
    pub open spec fn is_flushed(&self, w: PostingStreamWriter, r: Result<(), PostingError>) -> bool {
        if w.pending@.len() == 0 {
            r is Ok && *self == w
        } else if w.pending@.last().doc_id == TERMINATED {
            exists|record: Seq<u8>|
                {
                    &&& #[trigger] impacts::is_record_of(
                        record,
                        pending_points(w.pending@, w.pending_lengths@),
                    )
                    &&& r == Err::<(), PostingError>(w.end_refusal(record))
                }
        } else {
            exists|l: BlockPostingList|
                {
                    &&& #[trigger] w.is_flush_list(l)
                    &&& match w.append_refusal(l, w.pending@[0].doc_id) {
                        Some(refused) => r == Err::<(), PostingError>(refused),
                        None => r is Ok,
                    }
                    &&& r is Ok ==> {
                        &&& self.pending@.len() == 0
                        &&& self.min_pending_length == u32::MAX
                        &&& self.pending_ratio == INFINITE
                        &&& (PostingStreamWriter {
                            pending: w.pending,
                            pending_lengths: w.pending_lengths,
                            min_pending_length: w.min_pending_length,
                            pending_ratio: w.pending_ratio,
                            ..*self
                        }).is_appended(w, l, w.pending@[0].doc_id)
                    }
                }
        }
    }

    /// The list of the postings that wait, with nothing but block bounds.
    fn plain_list(&self) -> (l: BlockPostingList)
        requires
            self.wf(),
            self.pending@.len() > 0,
            self.pending@.last().doc_id != TERMINATED,
        ensures
            l.wf(),
            l.sound(),
            l@ == self.pending@,
            list_build::is_built(
                l,
                self.pending@,
                self.with_positions,
                Some(Seq::new(self.pending@.len(), |i: int| self.min_pending_length)),
                self.codec,
                None,
                false,
            ),
    {
        let n: usize = self.pending.len();
        let ghost mins = Seq::new(self.pending@.len(), |i: int| self.min_pending_length);
        let mut lengths: Vec<u32> = Vec::new();
        while lengths.len() < n
            invariant
                lengths@.len() <= n,
                n == self.pending@.len(),
                forall|i: int| 0 <= i < lengths@.len() ==> lengths@[i] == self.min_pending_length,
            decreases n - lengths@.len(),
        {
            lengths.push(self.min_pending_length);
        }
        proof {
            assert(lengths@ =~= mins);
            not_too_long(self.pending@, self.codec);
        }
        BlockPostingList::from_posting_list_with_options(
            &self.pending,
            self.with_positions,
            Some(lengths.as_slice()),
            self.codec,
        ).unwrap()
    }

    /// The one-block list of the postings that wait.
    fn flush_list(&self) -> (l: BlockPostingList)
        requires
            self.wf(),
            self.pending@.len() > 0,
            self.pending@.last().doc_id != TERMINATED,
        ensures
            self.is_flush_list(l),
    {
        let mut l = self.plain_list();
        let ghost plain = l;
        proof {
            assert(plain.len() == 1);
            assert(plain.len_bounds);
        }
        if self.has_ratios {
            let mut words: Vec<u32> = Vec::new();
            words.push(self.pending_ratio);
            words.push(self.pending_ratio);
            proof {
                assert(words@ =~= seq![self.pending_ratio, self.pending_ratio]);
            }
            l.ratios = Some(words);
        }
        if self.impacts.is_some() {
            l.impacts = self.pending_envelope();
        }
        proof {
            assert((BlockPostingList { ratios: None, impacts: None, ..l }) == plain);
            attached(plain, l);
        }
        l
    }

    /// The envelope of the postings that wait, if they have one.
    fn pending_envelope(&self) -> (r: Option<ImpactTable>)
        requires
            self.wf(),
        ensures
            exists|record: Seq<u8>|
                {
                    &&& impacts::is_record_of(
                        record,
                        pending_points(self.pending@, self.pending_lengths@),
                    )
                    &&& #[trigger] merge::kept_records(seq![record]) == (match r {
                        Some(t) => Some(t@),
                        None => None,
                    })
                },
            r matches Some(t) ==> t.wf() && t@.len() == 1,
    {
        let ghost all = pending_points(self.pending@, self.pending_lengths@);
        let mut points: Vec<Point> = Vec::new();
        let mut i: usize = 0;
        while i < self.pending.postings.len()
            invariant
                i <= self.pending.postings@.len(),
                self.pending.postings@ == self.pending@,
                self.pending_lengths@.len() == self.pending@.len(),
                all == pending_points(self.pending@, self.pending_lengths@),
                points@.len() == i,
                forall|k: int| 0 <= k < i ==> #[trigger] points@[k] == all[k],
            decreases self.pending.postings@.len() - i,
        {
            points.push((self.pending.postings[i].term_freq, self.pending_lengths[i]));
            i = i + 1;
        }
        proof {
            assert(points@ =~= all);
        }
        let record = impact_builder::encode_record(points.as_slice());
        proof {
            impacts::record_len(record@);
        }
        let mut records: Vec<Vec<u8>> = Vec::new();
        let known: bool = record.len() > 0;
        records.push(record);
        let t = ImpactTable { records };
        proof {
            assert(t@ =~= seq![record@]);
            assert(bytes::joined_len(t@, 1) == bytes::joined_len(t@, 0) + record@.len());
            assert(seq![record@][0] == record@);
        }
        if known {
            proof {
                assert(merge::kept_records(seq![record@]) == Some(t@));
            }
            Some(t)
        } else {
            proof {
                assert(merge::kept_records(seq![record@]) is None);
            }
            None
        }
    }

    /// Refuse postings that wait, the last of which is at the sentinel.
    fn refuse_end(&self) -> (error: PostingError)
        requires
            self.wf(),
        ensures
            exists|record: Seq<u8>|
                {
                    &&& #[trigger] impacts::is_record_of(
                        record,
                        pending_points(self.pending@, self.pending_lengths@),
                    )
                    &&& error == self.end_refusal(record)
                },
    {
        let envelope = self.pending_envelope();
        let known: bool = envelope.is_some();
        proof {
            let points = pending_points(self.pending@, self.pending_lengths@);
            let kept = match envelope {
                Some(t) => Some(t@),
                None => None,
            };
            let record = choose|record: Seq<u8>|
                impacts::is_record_of(record, points) && #[trigger] merge::kept_records(
                    seq![record],
                ) == kept;
            assert(seq![record][0] == record);
            assert(known == (record.len() > 0));
            assert(impacts::is_record_of(record, points));
        }
        if self.blocks.len() == self.blocks_limit {
            PostingError::AppendBlock
        } else if self.has_ratios && (self.impacts.is_none() || !known)
            && self.ratio_directory_bytes() > self.directory_budget {
            PostingError::RatioMemory
        } else {
            PostingError::AppendOrder
        }
    }

    /// Write the postings that wait as a block.
    #[verifier::spinoff_prover]
    #[verifier::rlimit(40)]
    fn flush_pending(&mut self) -> (r: Result<(), PostingError>)
        requires
            old(self).wf(),
        ensures
            final(self).wf(),
            final(self).is_flushed(*old(self), r),
            r is Err ==> final(self).same_content(*old(self)),
            r is Ok ==> final(self).pending@.len() == 0 && final(self).postings() == old(
                self,
            ).postings(),
            r is Ok && list::all_sound(old(self).blocks@) ==> list::all_sound(final(self).blocks@),
    {
        if self.pending.len() == 0 {
            return Ok(());
        }
        if self.pending.postings[self.pending.postings.len() - 1].doc_id == TERMINATED {
            return Err(self.refuse_end());
        }
        let l = self.flush_list();
        let first: u32 = self.pending.postings[0].doc_id;
        let ghost w = *self;
        match self.append_block(&l, first) {
            Ok(_) => {},
            Err(error) => {
                return Err(error);
            },
        }
        let ghost appended = *self;
        self.pending = PostingList::new();
        self.pending_lengths = Vec::new();
        self.min_pending_length = u32::MAX;
        self.pending_ratio = INFINITE;
        proof {
            flushed_first(w, l);
            one_block(l);
            appended_postings(appended, w, l, first);
            assert(self.postings() =~= list::flat(self.blocks@, self.blocks@.len() as int));
            assert(merge::shifted(w.pending@, 0) =~= w.pending@);
        }
        Ok(())
    }

    /// Whether this is `w` with one more posting that waits.
    pub open spec fn is_pushed(&self, w: PostingStreamWriter, doc: u32, tf: u32, length: u32) -> bool {
        let one: u32 = if length == 0 {
            1
        } else {
            length
        };
        let own = ratio::lower_ratio(one, tf);
        &&& self.pending@ == w.pending@.push(Posting { doc_id: doc, term_freq: tf })
        &&& self.pending_lengths@ == w.pending_lengths@.push(
            if length == 0 {
                tf
            } else {
                length
            },
        )
        &&& *self == (PostingStreamWriter {
            pending: self.pending,
            pending_lengths: self.pending_lengths,
            pending_ratio: if w.has_ratios && own < w.pending_ratio {
                own
            } else {
                w.pending_ratio
            },
            min_pending_length: if one < w.min_pending_length {
                one
            } else {
                w.min_pending_length
            },
            ..w
        })
    }

    /// Gather a posting. Postings are made into a block as soon as they fill
    /// one; the bytes of all blocks are written when the writer is finished.
    /// A posting at the sentinel is refused when its block is made.
    pub fn push(&mut self, doc: u32, tf: u32, length: u32) -> (r: Result<(), PostingError>)
        requires
            old(self).wf(),
            old(self).pending@.len() < 128,
            old(self).pending@.len() > 0 ==> old(self).pending@.last().doc_id < doc,
        ensures
            final(self).wf(),
            r is Ok ==> final(self).pending@.len() < 128,
            r is Ok ==> final(self).postings() == old(self).postings().push(
                Posting { doc_id: doc, term_freq: tf },
            ),
            r is Ok && list::all_sound(old(self).blocks@) ==> list::all_sound(final(self).blocks@),
            exists|mid: PostingStreamWriter|
                {
                    &&& #[trigger] mid.is_pushed(*old(self), doc, tf, length)
                    &&& if mid.pending@.len() == 128 {
                        final(self).is_flushed(mid, r)
                    } else {
                        r is Ok && *final(self) == mid
                    }
                },
    {
        let ghost w = *self;
        let ghost added = Posting { doc_id: doc, term_freq: tf };
        proof {
            assert(w.postings().push(added) =~= list::flat(w.blocks@, w.blocks@.len() as int)
                + w.pending@.push(added));
        }
        self.pending_lengths.push(
            if length == 0 {
                tf
            } else {
                length
            },
        );
        self.pending.push(doc, tf);
        let one: u32 = if length == 0 {
            1
        } else {
            length
        };
        if self.has_ratios {
            let own: u32 = ratio::lower_length_ratio(one, tf);
            if own < self.pending_ratio {
                self.pending_ratio = own;
            }
        }
        if one < self.min_pending_length {
            self.min_pending_length = one;
        }
        let ghost mid = *self;
        proof {
            assert(mid.is_pushed(w, doc, tf, length));
            assert(mid.postings() == w.postings().push(added));
        }
        if self.pending.len() == 128 {
            return self.flush_pending();
        }
        Ok(())
    }

    /// Why the bounds that a list has cannot be kept, if they cannot.
    pub open spec fn enable_refusal(&self, l: BlockPostingList) -> Option<PostingError> {
        if l.impacts is Some {
            self.impact_refusal()
        } else if l.ratios is Some {
            self.ratio_refusal()
        } else {
            None
        }
    }

    /// Whether this is `w`, now keeping the bounds that a list has.
    pub open spec fn is_enabled(&self, w: PostingStreamWriter, l: BlockPostingList) -> bool {
        &&& self.same_content(w)
        &&& self.kept_ratios() == w.kept_ratios()
        &&& self.kept_records() == w.kept_records()
        &&& self.has_ratios == (w.has_ratios || l.ratios is Some || l.impacts is Some)
        &&& (self.impacts is Some) == (w.impacts is Some || l.impacts is Some)
        &&& self.pending_ratio == (if self.has_ratios && !w.has_ratios && w.pending@.len() > 0 {
            0
        } else {
            w.pending_ratio
        })
    }

    /// Append the block of a list of one, after the postings that wait, its
    /// documents moved to start at `first`.
    pub fn append(&mut self, l: &BlockPostingList, first: u32) -> (r: Result<(), PostingError>)
        requires
            old(self).wf(),
            l.wf(),
        ensures
            final(self).wf(),
            r is Ok ==> final(self).pending@.len() == 0,
            r is Ok && l.sound() ==> final(self).postings() == old(self).postings()
                + merge::shifted(l@, first - l.blocks@[0].first),
            r is Ok && l.sound() && list::all_sound(old(self).blocks@) ==> list::all_sound(
                final(self).blocks@,
            ),
            match old(self).enable_refusal(*l) {
                Some(refused) => r == Err::<(), PostingError>(refused),
                None => exists|
                    mid: PostingStreamWriter,
                    after: PostingStreamWriter,
                    flushed: Result<(), PostingError>,
                |
                    {
                        &&& mid.is_enabled(*old(self), *l)
                        &&& #[trigger] after.is_flushed(mid, flushed)
                        &&& match flushed {
                            Err(error) => r == Err::<(), PostingError>(error),
                            Ok(_) => match after.append_refusal(*l, first) {
                                Some(refused) => r == Err::<(), PostingError>(refused),
                                None => r is Ok && final(self).is_appended(after, *l, first),
                            },
                        }
                    },
            },
    {
        if l.impacts.is_some() {
            match self.enable_impact_bounds() {
                Ok(_) => {},
                Err(error) => {
                    return Err(error);
                },
            }
        } else if l.ratios.is_some() {
            match self.enable_ratio_bounds() {
                Ok(_) => {},
                Err(error) => {
                    return Err(error);
                },
            }
        }
        let ghost mid = *self;
        proof {
            assert(mid.kept_ratios() =~= old(self).kept_ratios());
            assert(mid.is_enabled(*old(self), *l));
        }
        let flushed = self.flush_pending();
        let ghost after = *self;
        proof {
            assert(after.is_flushed(mid, flushed));
        }
        match flushed {
            Ok(_) => {},
            Err(error) => {
                return Err(error);
            },
        }
        let r = self.append_block(l, first);
        proof {
            if r is Ok && l.sound() {
                one_block(*l);
                appended_postings(*self, after, *l, first);
                let head = list::flat(after.blocks@, after.blocks@.len() as int);
                assert(after.postings() =~= head);
                assert(self.postings() =~= list::flat(self.blocks@, self.blocks@.len() as int));
            }
        }
        r
    }

    /// Number of postings, with those that wait.
    pub fn doc_count(&self) -> (r: u32)
        requires
            self.wf(),
            self.postings().len() <= u32::MAX,
        ensures
            r == self.postings().len(),
    {
        proof {
            list::flat_len(self.blocks@, self.blocks@.len() as int);
        }
        self.docs + self.pending.doc_count()
    }

    /// Number of positions, with those of the postings that wait.
    pub fn total_positions(&self) -> (r: u64)
        requires
            self.positions + list_build::tf_sum(self.pending@, self.pending@.len() as int)
                <= u64::MAX,
        ensures
            r == self.positions + (if self.with_positions {
                list_build::tf_sum(self.pending@, self.pending@.len() as int)
            } else {
                0
            }),
    {
        let mut total: u64 = self.positions;
        if self.with_positions {
            let mut i: usize = 0;
            while i < self.pending.postings.len()
                invariant
                    i <= self.pending@.len(),
                    self.pending.postings@ == self.pending@,
                    total == self.positions + list_build::tf_sum(self.pending@, i as int),
                    self.positions + list_build::tf_sum(self.pending@, self.pending@.len() as int)
                        <= u64::MAX,
                decreases self.pending@.len() - i,
            {
                proof {
                    sum_grows(self.pending@, i + 1, self.pending@.len() as int);
                }
                total = total + self.pending.postings[i].term_freq as u64;
                i = i + 1;
            }
        }
        total
    }

    /// Whether `l` is the list of all blocks of a writer without postings
    /// that wait.
    pub open spec fn is_finished(&self, l: BlockPostingList) -> bool {
        let n = self.blocks@.len() as int;
        &&& l.wf()
        &&& l.compact_headers == self.compact
        &&& l.blocks@ == self.blocks@
        &&& l.l1_bounds@ == bounds::group_words(list::bound_words(self.blocks@))
        &&& match l.ratios {
            Some(words) => self.has_ratios && words@ == ratio::with_groups(self.ratios@),
            None => !self.has_ratios,
        }
        &&& match self.impacts {
            Some(b) => exists|records: Seq<Seq<u8>>|
                {
                    &&& records.len() == n + bounds::group_count(n)
                    &&& records.take(n) == b@
                    &&& forall|g: int|
                        0 <= g < bounds::group_count(n) ==> impact_builder::is_group_record(
                            #[trigger] records[n + g],
                            b@,
                            n,
                            g,
                            None,
                        )
                    &&& #[trigger] merge::kept_records(records) == (match l.impacts {
                        Some(t) => Some(t@),
                        None => None,
                    })
                },
            None => l.impacts is None,
        }
        &&& match l.cursors {
            Some(c) => self.with_positions && c@ == self.cursors@,
            None => !self.with_positions,
        }
        &&& l.doc_count == self.docs
        &&& l.max_tf == self.max_tf
        &&& l.total_positions == self.positions
        &&& l.len_bounds
        &&& l.min_len == (if n == 0 {
            1
        } else {
            self.min_len
        })
    }

    /// Write the postings that wait, then the whole list. Gives the number of
    /// postings and of bytes. A cancelled writer writes nothing.
    pub fn finish(self, cancelled: bool, out: &mut Vec<u8>) -> (r: Result<(u32, u64), PostingError>)
        requires
            self.wf(),
        ensures
            cancelled ==> r == Err::<(u32, u64), PostingError>(PostingError::Cancelled),
            r is Err ==> final(out)@ == old(out)@,
            !cancelled ==> exists|after: PostingStreamWriter, flushed: Result<(), PostingError>|
                {
                    &&& #[trigger] after.is_flushed(self, flushed)
                    &&& match flushed {
                        Err(error) => r == Err::<(u32, u64), PostingError>(error),
                        Ok(_) => r matches Ok((docs, n)) && after.wf() && docs == after.docs
                            && final(out)@.len() == old(out)@.len() + n && exists|
                            l: BlockPostingList,
                        |
                            {
                                &&& #[trigger] after.is_finished(l)
                                &&& final(out)@ == old(out)@ + l.streamed(after.compact)
                                &&& l@ == self.postings()
                                &&& list::all_sound(self.blocks@) ==> l.sound()
                            },
                    }
                },
    {
        if cancelled {
            return Err(PostingError::Cancelled);
        }
        let mut w = self;
        let flushed = w.flush_pending();
        let ghost after = w;
        proof {
            assert(after.is_flushed(self, flushed));
        }
        match flushed {
            Ok(_) => {},
            Err(error) => {
                return Err(error);
            },
        }
        proof {
            assert(after.postings() =~= list::flat(after.blocks@, after.blocks@.len() as int));
        }
        let docs: u32 = w.docs;
        let compact: bool = w.compact;
        let before: usize = out.len();
        let l = w.into_list();
        match l.serialize_streamed(out, compact) {
            Ok(_) => {},
            Err(error) => {
                return Err(error);
            },
        }
        proof {
            assert(after.is_finished(l));
            assert(l@ == self.postings());
        }
        Ok((docs, (out.len() - before) as u64))
    }

    /// The list of all blocks.
    fn into_list(self) -> (l: BlockPostingList)
        requires
            self.wf(),
        ensures
            self.is_finished(l),
    {
        let n: usize = self.blocks.len();
        let l1_docs = list::group_last_docs(self.blocks.as_slice());
        let words = list::words_of(self.blocks.as_slice());
        let l1_bounds = bounds::group_bounds_from_l0(words.as_slice());
        let ratios: Option<Vec<u32>> = if self.has_ratios {
            let mut ratios = self.ratios;
            ratio::append_ratio_groups(&mut ratios);
            Some(ratios)
        } else {
            None
        };
        let impacts: Option<ImpactTable> = match self.impacts {
            Some(b) => finish_impacts(b, n),
            None => None,
        };
        BlockPostingList {
            compact_headers: self.compact,
            short_cursors: false,
            blocks: self.blocks,
            l1_docs,
            l1_bounds,
            ratios,
            impacts,
            doc_count: self.docs,
            max_tf: self.max_tf,
            cursors: if self.with_positions {
                Some(self.cursors)
            } else {
                None
            },
            total_positions: self.positions,
            len_bounds: true,
            min_len: if n == 0 {
                1
            } else {
                self.min_len
            },
        }
    }
}

/// The envelopes of `n` blocks, then those of their groups.
fn finish_impacts(b: ImpactBuilder, n: usize) -> (r: Option<ImpactTable>)
    requires
        b.wf(),
        b@.len() == n,
        n + bounds::group_count(n as int) <= b.blocks,
    ensures
        exists|records: Seq<Seq<u8>>|
            {
                &&& records.len() == n + bounds::group_count(n as int)
                &&& records.take(n as int) == b@
                &&& forall|g: int|
                    0 <= g < bounds::group_count(n as int) ==> impact_builder::is_group_record(
                        #[trigger] records[n + g],
                        b@,
                        n as int,
                        g,
                        None,
                    )
                &&& #[trigger] merge::kept_records(records) == (match r {
                    Some(t) => Some(t@),
                    None => None,
                })
            },
        r matches Some(t) ==> t.wf() && t@.len() == n + bounds::group_count(n as int) && 4 * (
        t@.len() + 1) <= usize::MAX,
{
    let ghost start = b@;
    let groups: usize = n / 8 + if n % 8 == 0 {
        0
    } else {
        1
    };
    let mut copies: Vec<Option<Vec<u8>>> = Vec::new();
    while copies.len() < groups
        invariant
            copies@.len() <= groups,
            forall|g: int| 0 <= g < copies@.len() ==> (#[trigger] copies@[g]) is None,
        decreases groups - copies@.len(),
    {
        copies.push(None);
    }
    let mut builder = b;
    let done = builder.append_groups_with(n, &copies);
    let ghost all = builder@;
    proof {
        assert(done is Ok);
        assert forall|g: int| 0 <= g < bounds::group_count(n as int) implies
            impact_builder::is_group_record(#[trigger] all[n + g], start, n as int, g, None) by {
            assert(impact_builder::copy_view(copies@[g]) is None);
        }
    }
    let r = builder.finish();
    proof {
        let t: Option<Seq<Seq<u8>>> = if r is Some {
            Some(r->Some_0@)
        } else {
            None
        };
        assert(merge::kept_records(all) == t);
    }
    r
}

/// Ratios and an envelope can be put on a list of one block.
proof fn attached(plain: BlockPostingList, l: BlockPostingList)
    requires
        plain.wf(),
        plain.sound(),
        plain.len() == 1,
        plain.len_bounds,
        plain == (BlockPostingList { ratios: None, impacts: None, ..l }),
        l.ratios matches Some(words) ==> words@.len() == 2 && ratio::ratio_ok(words@[0])
            && ratio::ratio_ok(words@[1]),
        l.impacts matches Some(t) ==> l.ratios is Some && t.wf() && t@.len() == 1,
    ensures
        l.wf(),
        l.sound(),
        l@ == plain@,
{
    assert(l.blocks == plain.blocks);
    if l.ratios is Some {
        let words = l.ratios->Some_0@;
        assert forall|i: int| 0 <= i < words.len() implies ratio::ratio_ok(#[trigger] words[i]) by {
            assert(i == 0 || i == 1);
        }
    }
}

/// A list of one block never outgrows its offsets.
proof fn not_too_long(s: Seq<Posting>, codec: PostingCodec)
    requires
        s.len() <= 128,
    ensures
        !list_build::too_long(s, codec),
{
    assert forall|i: int| 0 <= i < list_build::block_count(s.len() as int) implies
        #[trigger] list_build::built_upto(s, codec, i) <= u32::MAX by {
        assert(i == 0);
    }
}

/// The postings of a list of one block are those of the block.
proof fn one_block(l: BlockPostingList)
    requires
        l.len() == 1,
    ensures
        l@ == list::block_postings(l.blocks@[0]),
{
    assert(list::flat(l.blocks@, 1) == list::flat(l.blocks@, 0) + list::block_postings(
        l.blocks@[0],
    ));
    assert(l@ =~= list::block_postings(l.blocks@[0]));
}

/// The block of the postings that wait starts at the first of them.
proof fn flushed_first(w: PostingStreamWriter, l: BlockPostingList)
    requires
        w.is_flush_list(l),
        0 < w.pending@.len() <= 128,
    ensures
        l.len() == 1,
        l.blocks@[0].wf(),
        l.blocks@[0].sound(),
        l.blocks@[0].first == w.pending@[0].doc_id,
{
    assert(l.len() == 1);
    one_block(l);
    let b = l.blocks@[0];
    assert(b.wf() && b.sound());
    assert(list::block_postings(b)[0].doc_id == b.docs()[0]);
}

/// An appended block adds its postings, moved.
proof fn appended_postings(
    after: PostingStreamWriter,
    w: PostingStreamWriter,
    l: BlockPostingList,
    first: u32,
)
    requires
        l.wf(),
        l.sound(),
        l.len() == 1,
        after.wf(),
        after.is_appended(w, l, first),
    ensures
        list::flat(after.blocks@, after.blocks@.len() as int) == list::flat(
            w.blocks@,
            w.blocks@.len() as int,
        ) + merge::shifted(l@, first - l.blocks@[0].first),
        list::all_sound(w.blocks@) ==> list::all_sound(after.blocks@),
{
    let b = l.blocks@[0];
    let n = w.blocks@.len() as int;
    assert(b.wf() && b.sound());
    one_block(l);
    assert(after.blocks@[n] == after.blocks@.last());
    assert(after.blocks@[n].wf());
    merge::block_moves(b, after.blocks@[n], first - b.first);
    assert forall|i: int| 0 <= i < n implies after.blocks@[i] == w.blocks@[i] by {
        assert(after.blocks@.drop_last()[i] == after.blocks@[i]);
    }
    list::prefix_functions(w.blocks@, after.blocks@, n);
    if list::all_sound(w.blocks@) {
        assert forall|i: int| 0 <= i < after.blocks@.len() implies (
        #[trigger] after.blocks@[i]).sound() by {
            if i < n {
                assert(w.blocks@[i].sound());
            }
        }
    }
}

proof fn sum_grows(s: Seq<Posting>, i: int, j: int)
    requires
        0 <= i <= j,
    ensures
        list_build::tf_sum(s, i) <= list_build::tf_sum(s, j),
    decreases j,
{
    if i < j {
        sum_grows(s, i, j - 1);
    }
}

} // verus!
