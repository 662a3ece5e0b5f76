//! Reading a list block by block gives the blocks of the whole list, and
//! what a writer finished is read back.
use crate::block;
use crate::block_source;
use crate::block_source::PostingBlockSource;
use crate::bytes;
use crate::error::PostingError;
use crate::footer;
use crate::footer::Footer;
use crate::list;
use crate::list::BlockPostingList;
use crate::list_laws;
use crate::list_read;
use crate::stream_writer::PostingStreamWriter;
use vstd::prelude::*;

verus! {

/// The directory of a stored list.
pub open spec fn index_of(raw: Seq<u8>, f: Footer) -> Seq<u8> {
    raw.subrange(f.stream_len as int, block_source::index_end(f, raw.len() as int))
}

/// The directory of a list that is accepted as a whole is accepted by
/// itself.
pub proof fn accepted_list_opens(raw: Seq<u8>, f: Footer)
    requires
        list_read::bytes_check(raw) == Ok::<Footer, PostingError>(f),
    ensures
        block_source::index_check(f, index_of(raw, f)) is Ok,
{
    let index = index_of(raw, f);
    list_read::parsed_extent(raw);
    f.sections_in_order();
    assert(list_read::list_check(raw, f) is Ok);
    if f.ratio_bounds {
        assert forall|i: int| 0 <= i < f.l0_count + f.l1_count implies crate::ratio::ratio_ok(
            #[trigger] block_source::ratio_in(f, index, i),
        ) by {
            bytes::section_u32(
                raw,
                f.stream_len as int,
                index,
                f.cursors_end_spec() - f.stream_len + 4 * i,
            );
            assert(crate::ratio::ratio_ok(list_read::ratio_at(raw, f, i)));
        }
    }
    if f.impact_bounds {
        assert(block_source::impacts_in(f, index) =~= list_read::impact_section(raw, f));
    }
    entries_open(raw, f, f.l0_count as int);
}

/// The words of a directory entry.
proof fn entry_words(raw: Seq<u8>, f: Footer, i: int)
    requires
        list_read::bytes_check(raw) == Ok::<Footer, PostingError>(f),
        0 <= i < f.l0_count,
    ensures
        ({
            let index = index_of(raw, f);
            &&& block_source::first_in(index, i) == list_read::first_at(raw, f, i)
            &&& block_source::last_in(index, i) == list_read::last_at(raw, f, i)
            &&& block_source::start_in(index, i) == list_read::start_at(raw, f, i)
            &&& bytes::u32_at(index, 16 * i + 12) == bytes::u32_at(
                raw,
                f.stream_len + 16 * i + 12,
            )
            &&& f.has_cursors ==> block_source::cursor_in(f, index, i) == list_read::cursor_at(
                raw,
                f,
                i,
            )
        }),
{
    let index = index_of(raw, f);
    list_read::parsed_extent(raw);
    f.sections_in_order();
    bytes::section_u32(raw, f.stream_len as int, index, 16 * i);
    bytes::section_u32(raw, f.stream_len as int, index, 16 * i + 4);
    bytes::section_u32(raw, f.stream_len as int, index, 16 * i + 8);
    bytes::section_u32(raw, f.stream_len as int, index, 16 * i + 12);
    if f.has_cursors {
        let base = f.l1_bounds_end_spec() - f.stream_len;
        if f.short_cursors {
            bytes::section_u32(raw, f.stream_len as int, index, base + 4 * i);
        } else {
            bytes::section_u64(raw, f.stream_len as int, index, base + 8 * i);
        }
    }
}

proof fn entries_open(raw: Seq<u8>, f: Footer, n: int)
    requires
        list_read::bytes_check(raw) == Ok::<Footer, PostingError>(f),
        0 <= n <= f.l0_count,
    ensures
        block_source::entries_check(f, index_of(raw, f), n) is Ok,
    decreases n,
{
    if n > 0 {
        let i = n - 1;
        entries_open(raw, f, i);
        entry_words(raw, f, i);
        list_read::checked_block(raw, f, f.l0_count as int, i);
        reveal(block::check_descriptor_spec);
        reveal(block::check_block_spec);
        if i > 0 {
            entry_words(raw, f, i - 1);
            list_read::checked_block(raw, f, f.l0_count as int, i - 1);
        }
        if i + 1 < f.l0_count {
            entry_words(raw, f, i + 1);
            list_read::checked_block(raw, f, f.l0_count as int, i + 1);
        }
    }
}

/// A block that is read by the directory of an accepted list is the block of
/// the whole list.
pub proof fn source_block_agrees(
    raw: Seq<u8>,
    f: Footer,
    l: BlockPostingList,
    source: PostingBlockSource,
    i: int,
)
    requires
        list_read::bytes_check(raw) == Ok::<Footer, PostingError>(f),
        list_read::is_read(l, raw, f),
        l.wf(),
        source.footer == f,
        source.index@ == index_of(raw, f),
        0 <= i < f.l0_count,
        l.blocks@[i].sound(),
    ensures
        source.framed(i, list_read::stored_block(raw, f, i)) == l.blocks@[i].framed(),
        source.block_check(i, list_read::stored_block(raw, f, i)) == Ok::<int, PostingError>(
            l.blocks@[i].count as int,
        ),
{
    broadcast use bytes::group_word_sizes;

    let index = index_of(raw, f);
    let b = l.blocks@[i];
    let stream = list_read::stored_block(raw, f, i);
    list_read::parsed_extent(raw);
    f.sections_in_order();
    entry_words(raw, f, i);
    if i + 1 < f.l0_count {
        entry_words(raw, f, i + 1);
    }
    list_read::checked_block(raw, f, f.l0_count as int, i);
    assert(list_read::is_block_at(b, raw, f, i));
    assert(b.wf());
    list::payload_bound(b);
    block::framed_block_checks(b);
    if f.compact_headers {
        let d = block_source::descriptor_in(f, index, i);
        assert(d =~= list_read::descriptor_at(raw, f, i));
        block::checked_descriptor_wf(b, d);
        assert(source.framed(i, stream) =~= b.framed());
    } else {
        block::checked_block_wf(b, stream);
    }
}

/// The list that a writer finished is accepted where it is stored, and
/// reading it gives back everything that was written.
pub proof fn written_reads_back(w: PostingStreamWriter, l: BlockPostingList, r: BlockPostingList)
    requires
        w.wf(),
        w.pending@.len() == 0,
        list::all_sound(w.blocks@),
        w.is_finished(l),
        l.streamed(w.compact).len() <= usize::MAX,
        list_read::is_read(
            r,
            l.streamed(w.compact),
            list_laws::streamed_footer(l, w.compact),
        ),
        r.wf(),
    ensures
        list_read::bytes_check(l.streamed(w.compact)) is Ok,
        r@ == w.postings(),
        r.sound(),
{
    assert forall|i: int| 0 <= i < l.len() implies (
    #[trigger] l.blocks@[i]).first_gap_is_zero() by {
        assert(w.blocks@[i].sound());
    }
    list_laws::streamed_sections(l, w.compact);
    assert(list_laws::storable(l, w.compact));
    list_laws::streamed_read_roundtrip(l, w.compact, r);
    assert(w.postings() =~= list::flat(w.blocks@, w.blocks@.len() as int));
}

/// The directory of a list with a valid footer is planned just where it fits
/// the budget, and the plan spans it.
pub proof fn directories_within_budget(raw: Seq<u8>, tail: Seq<u8>, f: Footer, budget: int)
    requires
        footer::parse_tail_spec(tail, raw.len() as int) == Ok::<Footer, PostingError>(f),
        tail.len() == (if raw.len() < 44 {
            raw.len()
        } else {
            44
        }),
    ensures
        index_of(raw, f).len() <= budget ==> block_source::plan_check(
            tail,
            raw.len() as int,
            budget,
        ) == Ok::<Footer, PostingError>(f),
        index_of(raw, f).len() > budget ==> block_source::plan_check(
            tail,
            raw.len() as int,
            budget,
        ) == Err::<Footer, PostingError>(PostingError::SourceBudget),
{
    block_source::tail_extent(tail, raw.len() as int);
}

} // verus!
