//! Storing posting lists.
use crate::block;
use crate::block::PostingBlock;
use crate::bounds;
use crate::bytes;
use crate::codec::PostingCodec;
use crate::error::PostingError;
use crate::footer::FOOTER_MAGIC;
use crate::impacts;
use crate::list;
use crate::list::BlockPostingList;
use vstd::prelude::*;

verus! {

/// The stream form of every block.
pub open spec fn stream_parts(blocks: Seq<PostingBlock>, compact: bool) -> Seq<Seq<u8>> {
    Seq::new(
        blocks.len(),
        |i: int|
            if compact {
                blocks[i].payload@
            } else {
                blocks[i].framed()
            },
    )
}

/// The directory entry of block `i`.
pub open spec fn entry_bytes(blocks: Seq<PostingBlock>, i: int, compact: bool) -> Seq<u8> {
    bytes::le32(blocks[i].first) + bytes::le32(blocks[i].last) + bytes::le32(
        list::stream_upto(blocks, i, compact) as u32,
    ) + bytes::le32(blocks[i].bounds)
}

/// The directory entries.
pub open spec fn entry_parts(blocks: Seq<PostingBlock>, compact: bool) -> Seq<Seq<u8>> {
    Seq::new(blocks.len(), |i: int| entry_bytes(blocks, i, compact))
}

/// The compact descriptors; none where blocks carry their headers.
pub open spec fn descriptor_parts(blocks: Seq<PostingBlock>, compact: bool) -> Seq<Seq<u8>> {
    if compact {
        Seq::new(blocks.len(), |i: int| blocks[i].descriptor())
    } else {
        Seq::empty()
    }
}

/// The stored position cursors.
pub open spec fn cursor_parts(cursors: Option<Vec<u64>>, short: bool) -> Seq<Seq<u8>> {
    match cursors {
        Some(c) => Seq::new(
            c@.len(),
            |i: int|
                if short {
                    bytes::le32(c@[i] as u32)
                } else {
                    bytes::le64(c@[i])
                },
        ),
        None => Seq::empty(),
    }
}

/// Words of an optional section.
pub open spec fn optional_words(words: Option<Vec<u32>>) -> Seq<u8> {
    match words {
        Some(w) => bytes::le32_all(w@),
        None => Seq::empty(),
    }
}

/// One where a condition holds.
pub open spec fn one_if(b: bool) -> int {
    if b {
        1
    } else {
        0
    }
}

impl BlockPostingList {
    /// Whether position cursors are stored in four bytes.
    pub open spec fn stores_short(&self, compact: bool) -> bool {
        compact && self.cursors is Some && self.total_positions <= u32::MAX
    }

    /// Whether envelopes of groups are there.
    pub open spec fn has_group_impacts(&self) -> bool {
        self.impacts matches Some(t) && t@.len() > self.len()
    }

    /// The stored flags.
    pub open spec fn flags(&self, compact: bool) -> u32 {
        (one_if(self.cursors is Some) + 2 * one_if(self.len_bounds) + 4 * one_if(
            self.l1_bounds@.len() > 0,
        ) + 8 * one_if(self.ratios is Some) + 16 * one_if(self.impacts is Some) + 32 * one_if(
            self.has_group_impacts(),
        ) + 64 * one_if(compact) + 128 * one_if(self.stores_short(compact))) as u32
    }

    /// The flags of a list that was written block by block. They always say
    /// that there are bounds of groups, be it of no group.
    pub open spec fn streamed_flags(&self, compact: bool) -> u32 {
        (self.flags(compact) + 4 * one_if(self.l1_bounds@.len() == 0)) as u32
    }

    /// The stored flags, with the flag of group bounds as given.
    pub open spec fn flags_if(&self, compact: bool, grouped: bool) -> u32 {
        if grouped {
            self.streamed_flags(compact)
        } else {
            self.flags(compact)
        }
    }

    /// The stored footer with the given flags.
    #[verifier::opaque]
    pub open spec fn footer_with(&self, compact: bool, flags: u32) -> Seq<u8> {
        bytes::le64(list::stream_upto(self.blocks@, self.len(), compact) as u64) + bytes::le32(
            self.len() as u32,
        ) + bytes::le32(self.l1_docs@.len() as u32) + bytes::le32(self.doc_count) + bytes::le32(
            self.max_tf,
        ) + bytes::le64(self.total_positions) + bytes::le32(flags) + bytes::le32(
            if self.len_bounds {
                self.min_len
            } else {
                0
            },
        ) + bytes::le32(FOOTER_MAGIC)
    }

    /// The stored footer.
    pub open spec fn footer_bytes(&self, compact: bool) -> Seq<u8> {
        self.footer_with(compact, self.flags(compact))
    }

    /// The stored envelopes.
    pub open spec fn impact_bytes(&self) -> Seq<u8> {
        match self.impacts {
            Some(t) => impacts::table_bytes(t@),
            None => Seq::empty(),
        }
    }

    /// The sections of the stored list, the footer last.
    pub open spec fn stored_parts(&self, compact: bool) -> Seq<Seq<u8>> {
        seq![
            bytes::joined(stream_parts(self.blocks@, compact)),
            bytes::joined(entry_parts(self.blocks@, compact)),
            bytes::joined(descriptor_parts(self.blocks@, compact)),
            bytes::le32_all(self.l1_docs@),
            bytes::le32_all(self.l1_bounds@),
            bytes::joined(cursor_parts(self.cursors, self.stores_short(compact))),
            optional_words(self.ratios),
            self.impact_bytes(),
            self.footer_bytes(compact),
        ]
    }

    /// The stored list.
    #[verifier::opaque]
    pub open spec fn stored(&self, compact: bool) -> Seq<u8> {
        bytes::joined(self.stored_parts(compact))
    }

    /// The stored list as it is written block by block.
    #[verifier::opaque]
    pub open spec fn streamed(&self, compact: bool) -> Seq<u8> {
        bytes::joined(
            self.stored_parts(compact).update(
                8,
                self.footer_with(compact, self.streamed_flags(compact)),
            ),
        )
    }

    /// Store the list in its own layout.
    pub fn serialize(&self, out: &mut Vec<u8>) -> (r: Result<(), PostingError>)
        requires
            self.wf(),
        ensures
            r is Ok,
            final(out)@ == old(out)@ + self.stored(self.compact_headers),
    {
        self.serialize_layout(out, self.compact_headers)
    }

    /// Store the list with block headers in the directory, unless it holds
    /// patched blocks.
    pub fn serialize_compact(&self, out: &mut Vec<u8>) -> (r: Result<(), PostingError>)
        requires
            self.wf(),
        ensures
            r is Ok,
            final(out)@ == old(out)@ + self.stored(list::no_pfor(self.blocks@)),
    {
        let mut compact: bool = true;
        let mut i: usize = 0;
        while i < self.blocks.len() && compact
            invariant
                i <= self.blocks.len(),
                self.wf(),
                compact ==> forall|k: int|
                    0 <= k < i ==> (#[trigger] self.blocks@[k]).codec() != PostingCodec::Pfor,
                !compact ==> exists|k: int|
                    0 <= k < self.blocks@.len() && (#[trigger] self.blocks@[k]).codec()
                        == PostingCodec::Pfor,
            decreases self.blocks.len() - i,
        {
            proof {
                assert(self.blocks@[i as int].wf());
            }
            let (c, _w): (PostingCodec, u8) = self.blocks[i].parts();
            if c == PostingCodec::Pfor {
                compact = false;
            }
            i += 1;
        }
        proof {
            assert(compact == list::no_pfor(self.blocks@));
            if compact {
                compact_fits(self.blocks@, self.compact_headers);
            }
        }
        self.serialize_layout(out, compact)
    }

    /// Store the list in the given layout. It is refused if a block would
    /// start past the 32-bit offsets.
    pub fn serialize_layout(&self, out: &mut Vec<u8>, compact: bool) -> (r: Result<
        (),
        PostingError,
    >)
        requires
            self.wf(),
        ensures
            r is Ok <==> list::offsets_fit(self.blocks@, compact),
            r matches Err(error) ==> error == PostingError::StreamTooLong,
            r is Err ==> final(out)@ == old(out)@,
            r is Ok ==> final(out)@ == old(out)@ + self.stored(compact),
    {
        proof {
            reveal(BlockPostingList::stored);
            assert(self.stored_parts(compact).update(8, self.footer_bytes(compact))
                =~= self.stored_parts(compact));
        }
        self.put_sections(out, compact, self.l1_bounds.len() > 0)
    }

    /// Store the list as if it had been written block by block. It is refused
    /// if a block would start past the 32-bit offsets.
    pub(crate) fn serialize_streamed(&self, out: &mut Vec<u8>, compact: bool) -> (r: Result<
        (),
        PostingError,
    >)
        requires
            self.wf(),
        ensures
            r is Ok <==> list::offsets_fit(self.blocks@, compact),
            r matches Err(error) ==> error == PostingError::StreamTooLong,
            r is Err ==> final(out)@ == old(out)@,
            r is Ok ==> final(out)@ == old(out)@ + self.streamed(compact),
    {
        proof {
            reveal(BlockPostingList::streamed);
        }
        self.put_sections(out, compact, true)
    }

    /// Store the list with the flag of group bounds as given.
    fn put_sections(&self, out: &mut Vec<u8>, compact: bool, grouped: bool) -> (r: Result<
        (),
        PostingError,
    >)
        requires
            self.wf(),
            self.l1_bounds@.len() > 0 ==> grouped,
        ensures
            r is Ok <==> list::offsets_fit(self.blocks@, compact),
            r matches Err(error) ==> error == PostingError::StreamTooLong,
            r is Err ==> final(out)@ == old(out)@,
            r is Ok ==> final(out)@ == old(out)@ + bytes::joined(
                self.stored_parts(compact).update(
                    8,
                    self.footer_with(compact, self.flags_if(compact, grouped)),
                ),
            ),
    {
        let n: usize = self.blocks.len();
        let ghost bs = self.blocks@;
        proof {
            list::total_count_grows(bs, 0, n as int);
        }
        let (stream_len, fits): (u64, bool) = measure(self.blocks.as_slice(), compact);
        if !fits {
            return Err(PostingError::StreamTooLong);
        }
        let ghost start = out@;
        let ghost parts = self.stored_parts(compact).update(
            8,
            self.footer_with(compact, self.flags_if(compact, grouped)),
        );
        proof {
            assert(start + bytes::joined(parts.take(0)) =~= start);
            assert(bytes::joined(Seq::<Seq<u8>>::empty()) =~= Seq::<u8>::empty());
        }
        put_stream(self.blocks.as_slice(), compact, out);
        proof {
            next_part(start, parts, 0);
        }
        put_entries(self.blocks.as_slice(), compact, out);
        proof {
            next_part(start, parts, 1);
        }
        if compact {
            put_descriptors(self.blocks.as_slice(), out);
        }
        proof {
            next_part(start, parts, 2);
        }
        bytes::put_u32_all(out, self.l1_docs.as_slice());
        proof {
            next_part(start, parts, 3);
        }
        bytes::put_u32_all(out, self.l1_bounds.as_slice());
        proof {
            next_part(start, parts, 4);
        }
        let short: bool = compact && self.cursors.is_some() && self.total_positions <= 0xFFFF_FFFF;
        match &self.cursors {
            Some(c) => put_cursors(c.as_slice(), short, out),
            None => {},
        }
        proof {
            next_part(start, parts, 5);
        }
        match &self.ratios {
            Some(words) => bytes::put_u32_all(out, words.as_slice()),
            None => {},
        }
        proof {
            next_part(start, parts, 6);
        }
        match &self.impacts {
            Some(t) => {
                let table = t.bytes();
                bytes::put_slice(out, table.as_slice());
            },
            None => {},
        }
        proof {
            next_part(start, parts, 7);
        }
        let foot = self.write_footer(stream_len, compact, short, grouped);
        bytes::put_slice(out, foot.as_slice());
        proof {
            next_part(start, parts, 8);
            assert(parts.take(9) =~= parts);
        }
        Ok(())
    }

    /// The flags of the stored list.
    fn stored_flags(&self, compact: bool, short: bool, grouped: bool) -> (flags: u32)
        requires
            short == self.stores_short(compact),
            self.l1_bounds@.len() > 0 ==> grouped,
        ensures
            flags == self.flags_if(compact, grouped),
    {
        let n: usize = self.blocks.len();
        let groups: bool = match &self.impacts {
            Some(t) => t.record_count() > n,
            None => false,
        };
        let mut flags: u32 = 0;
        if self.cursors.is_some() {
            flags = flags + 1;
        }
        if self.len_bounds {
            flags = flags + 2;
        }
        if grouped {
            flags = flags + 4;
        }
        if self.ratios.is_some() {
            flags = flags + 8;
        }
        if self.impacts.is_some() {
            flags = flags + 16;
        }
        if groups {
            flags = flags + 32;
        }
        if compact {
            flags = flags + 64;
        }
        if short {
            flags = flags + 128;
        }
        flags
    }

    /// The footer of the stored list.
    fn write_footer(
        &self,
        stream_len: u64,
        compact: bool,
        short: bool,
        grouped: bool,
    ) -> (foot: Vec<u8>)
        requires
            self.len() <= u32::MAX,
            self.l1_docs@.len() <= u32::MAX,
            stream_len == list::stream_upto(self.blocks@, self.len(), compact),
            short == self.stores_short(compact),
            self.l1_bounds@.len() > 0 ==> grouped,
        ensures
            foot@ == self.footer_with(compact, self.flags_if(compact, grouped)),
    {
        proof {
            reveal(BlockPostingList::footer_with);
        }
        let flags: u32 = self.stored_flags(compact, short, grouped);
        let mut foot: Vec<u8> = Vec::new();
        bytes::put_u64(&mut foot, stream_len);
        proof {
            assert(foot@ =~= bytes::le64(stream_len));
        }
        bytes::put_u32(&mut foot, self.blocks.len() as u32);
        bytes::put_u32(&mut foot, self.l1_docs.len() as u32);
        bytes::put_u32(&mut foot, self.doc_count);
        bytes::put_u32(&mut foot, self.max_tf);
        bytes::put_u64(&mut foot, self.total_positions);
        bytes::put_u32(&mut foot, flags);
        bytes::put_u32(
            &mut foot,
            if self.len_bounds {
                self.min_len
            } else {
                0
            },
        );
        bytes::put_u32(&mut foot, FOOTER_MAGIC);
        foot
    }
}

/// One more part on the parts before it.
proof fn next_part(start: Seq<u8>, parts: Seq<Seq<u8>>, k: int)
    requires
        0 <= k < parts.len(),
    ensures
        start + bytes::joined(parts.take(k)) + parts[k] == start + bytes::joined(parts.take(k + 1)),
        parts[k].len() == 0 ==> start + bytes::joined(parts.take(k)) == start + bytes::joined(
            parts.take(k + 1),
        ),
{
    assert(parts.take(k + 1).drop_last() =~= parts.take(k));
    assert(start + bytes::joined(parts.take(k)) + parts[k] =~= start + bytes::joined(
        parts.take(k + 1),
    ));
    assert(parts[k].len() == 0 ==> start + bytes::joined(parts.take(k)) + parts[k] =~= start
        + bytes::joined(parts.take(k)));
}

/// The compact layout never needs larger offsets.
proof fn compact_fits(blocks: Seq<PostingBlock>, compact: bool)
    requires
        list::offsets_fit(blocks, compact),
    ensures
        list::offsets_fit(blocks, true),
{
    assert forall|i: int| 0 <= i < blocks.len() implies #[trigger] list::stream_upto(
        blocks,
        i,
        true,
    ) <= u32::MAX by {
        assert(list::stream_upto(blocks, i, compact) <= u32::MAX);
        compact_shorter(blocks, i);
    }
}

proof fn compact_shorter(blocks: Seq<PostingBlock>, i: int)
    ensures
        list::stream_upto(blocks, i, true) <= list::stream_upto(blocks, i, false),
    decreases i,
{
    if i > 0 {
        compact_shorter(blocks, i - 1);
    }
}

/// Stream length in a layout, and whether all offsets fit in 32 bits.
pub fn measure(blocks: &[PostingBlock], compact: bool) -> (r: (u64, bool))
    requires
        blocks@.len() <= u32::MAX,
        list::blocks_ok(blocks@),
    ensures
        r.0 == list::stream_upto(blocks@, blocks@.len() as int, compact),
        r.1 == list::offsets_fit(blocks@, compact),
{
    let header: u64 = if compact {
        0
    } else {
        8
    };
    let mut at: u64 = 0;
    let mut fits: bool = true;
    let mut i: usize = 0;
    while i < blocks.len()
        invariant
            i <= blocks.len(),
            blocks@.len() <= u32::MAX,
            list::blocks_ok(blocks@),
            header == list::header_len(compact),
            at == list::stream_upto(blocks@, i as int, compact),
            at <= 4008 * i,
            fits == (forall|k: int|
                0 <= k < i ==> #[trigger] list::stream_upto(blocks@, k, compact) <= u32::MAX),
        decreases blocks.len() - i,
    {
        let ghost before = fits;
        if at > 0xFFFF_FFFF {
            fits = false;
        }
        proof {
            assert(blocks@[i as int].wf());
            list::payload_bound(blocks@[i as int]);
            if fits {
                assert forall|k: int| 0 <= k < i + 1 implies #[trigger] list::stream_upto(
                    blocks@,
                    k,
                    compact,
                ) <= u32::MAX by {}
            } else if before {
                assert(list::stream_upto(blocks@, i as int, compact) > u32::MAX);
            }
        }
        at = at + header + blocks[i].payload.len() as u64;
        i += 1;
    }
    (at, fits)
}

/// Append the blocks.
fn put_stream(blocks: &[PostingBlock], compact: bool, out: &mut Vec<u8>)
    ensures
        final(out)@ == old(out)@ + bytes::joined(stream_parts(blocks@, compact)),
{
    let ghost start = out@;
    let ghost parts = stream_parts(blocks@, compact);
    let mut i: usize = 0;
    proof {
        assert(start + bytes::joined(parts.take(0)) =~= start);
    }
    while i < blocks.len()
        invariant
            i <= blocks.len(),
            parts == stream_parts(blocks@, compact),
            out@ == start + bytes::joined(parts.take(i as int)),
        decreases blocks.len() - i,
    {
        let b = &blocks[i];
        let ghost now = out@;
        if !compact {
            bytes::put_u16(out, b.count);
            bytes::put_u32(out, b.first);
            out.push(b.doc_bits);
            out.push(b.tf_bits);
        }
        bytes::put_slice(out, b.payload.as_slice());
        proof {
            assert(parts.take(i + 1).drop_last() =~= parts.take(i as int));
            assert(parts.take(i + 1).last() == parts[i as int]);
            assert(out@ =~= now + parts[i as int]);
            assert(out@ =~= start + bytes::joined(parts.take(i + 1)));
        }
        i += 1;
    }
    proof {
        assert(parts.take(parts.len() as int) =~= parts);
    }
}

/// Append the directory entries.
fn put_entries(blocks: &[PostingBlock], compact: bool, out: &mut Vec<u8>)
    requires
        list::offsets_fit(blocks@, compact),
        list::blocks_ok(blocks@),
    ensures
        final(out)@ == old(out)@ + bytes::joined(entry_parts(blocks@, compact)),
{
    let ghost start = out@;
    let ghost parts = entry_parts(blocks@, compact);
    let header: u64 = if compact {
        0
    } else {
        8
    };
    let mut at: u64 = 0;
    let mut i: usize = 0;
    proof {
        assert(start + bytes::joined(parts.take(0)) =~= start);
    }
    while i < blocks.len()
        invariant
            i <= blocks.len(),
            list::offsets_fit(blocks@, compact),
            list::blocks_ok(blocks@),
            header == list::header_len(compact),
            parts == entry_parts(blocks@, compact),
            at == list::stream_upto(blocks@, i as int, compact),
            out@ == start + bytes::joined(parts.take(i as int)),
        decreases blocks.len() - i,
    {
        let b = &blocks[i];
        proof {
            assert(list::stream_upto(blocks@, i as int, compact) <= u32::MAX);
            assert(blocks@[i as int].wf());
            list::payload_bound(blocks@[i as int]);
        }
        let ghost now = out@;
        bytes::put_u32(out, b.first);
        bytes::put_u32(out, b.last);
        bytes::put_u32(out, at as u32);
        bytes::put_u32(out, b.bounds);
        proof {
            assert(parts.take(i + 1).drop_last() =~= parts.take(i as int));
            assert(parts.take(i + 1).last() == parts[i as int]);
            assert(out@ =~= now + parts[i as int]);
            assert(out@ =~= start + bytes::joined(parts.take(i + 1)));
        }
        at = at + header + b.payload.len() as u64;
        i += 1;
    }
    proof {
        assert(parts.take(parts.len() as int) =~= parts);
    }
}

/// Append the compact descriptors.
fn put_descriptors(blocks: &[PostingBlock], out: &mut Vec<u8>)
    ensures
        final(out)@ == old(out)@ + bytes::joined(descriptor_parts(blocks@, true)),
{
    let ghost start = out@;
    let ghost parts = descriptor_parts(blocks@, true);
    let mut i: usize = 0;
    proof {
        assert(start + bytes::joined(parts.take(0)) =~= start);
    }
    while i < blocks.len()
        invariant
            i <= blocks.len(),
            parts == descriptor_parts(blocks@, true),
            out@ == start + bytes::joined(parts.take(i as int)),
        decreases blocks.len() - i,
    {
        let b = &blocks[i];
        let ghost now = out@;
        bytes::put_u16(out, b.count);
        out.push(b.doc_bits);
        out.push(b.tf_bits);
        proof {
            assert(parts.take(i + 1).drop_last() =~= parts.take(i as int));
            assert(parts.take(i + 1).last() == parts[i as int]);
            assert(out@ =~= now + parts[i as int]);
            assert(out@ =~= start + bytes::joined(parts.take(i + 1)));
        }
        i += 1;
    }
    proof {
        assert(parts.take(parts.len() as int) =~= parts);
    }
}

/// Append the position cursors.
fn put_cursors(cursors: &[u64], short: bool, out: &mut Vec<u8>)
    requires
        short ==> forall|i: int| 0 <= i < cursors@.len() ==> #[trigger] cursors@[i] <= u32::MAX,
    ensures
        forall|c: Vec<u64>|
            c@ == cursors@ ==> final(out)@ == old(out)@ + bytes::joined(
                #[trigger] cursor_parts(Some(c), short),
            ),
{
    let ghost start = out@;
    let ghost parts = Seq::new(
        cursors@.len(),
        |i: int|
            if short {
                bytes::le32(cursors@[i] as u32)
            } else {
                bytes::le64(cursors@[i])
            },
    );
    let mut i: usize = 0;
    proof {
        assert(start + bytes::joined(parts.take(0)) =~= start);
    }
    while i < cursors.len()
        invariant
            i <= cursors.len(),
            short ==> forall|i: int| 0 <= i < cursors@.len() ==> #[trigger] cursors@[i] <= u32::MAX,
            parts.len() == cursors@.len(),
            forall|k: int|
                0 <= k < parts.len() ==> #[trigger] parts[k] == (if short {
                    bytes::le32(cursors@[k] as u32)
                } else {
                    bytes::le64(cursors@[k])
                }),
            out@ == start + bytes::joined(parts.take(i as int)),
        decreases cursors.len() - i,
    {
        let ghost now = out@;
        if short {
            bytes::put_u32(out, cursors[i] as u32);
        } else {
            bytes::put_u64(out, cursors[i]);
        }
        proof {
            assert(parts.take(i + 1).drop_last() =~= parts.take(i as int));
            assert(parts.take(i + 1).last() == parts[i as int]);
            assert(out@ =~= start + bytes::joined(parts.take(i + 1)));
        }
        i += 1;
    }
    proof {
        assert(parts.take(parts.len() as int) =~= parts);
        assert forall|c: Vec<u64>| c@ == cursors@ implies out@ == start + bytes::joined(
            #[trigger] cursor_parts(Some(c), short),
        ) by {
            assert(cursor_parts(Some(c), short) =~= parts);
        }
    }
}

} // verus!
