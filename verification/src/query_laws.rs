//! What a list opened by its footer shares with the checked list.
use crate::block;
use crate::block::PostingBlock;
use crate::cursor;
use crate::cursor::Position;
use crate::error::PostingError;
use crate::footer::Footer;
use crate::list::BlockPostingList;
use crate::list_query;
use crate::list_read;
use crate::query_iterator;
use crate::query_list;
use crate::query_list::QueryPostingList;
use vstd::prelude::*;

verus! {

/// Of a list that a full check accepts, every block can be decoded, and to
/// the postings of the checked list. Where content is verified, the blocks
/// that can be decoded are those whose documents are right.
pub proof fn trusted_agrees_with_checked(
    q: QueryPostingList,
    l: BlockPostingList,
    b: PostingBlock,
    i: int,
)
    requires
        is_checked(q, l),
        0 <= i < l.blocks@.len(),
        query_list::is_stored_at(b, q.raw(), q.tail(), i),
    ensures
        query_list::placed(q.raw(), q.tail(), i),
        b.docs_fit(),
        b.tfs_fit(),
        b.docs() == l.blocks@[i].docs(),
        b.tfs() == l.blocks@[i].tfs(),
        q.holds(i, b) <==> (q.verify_content ==> l.blocks@[i].sound()),
{
    let raw = q.raw();
    let f = q.tail();
    let c = l.blocks@[i];
    list_read::checked_block(raw, f, f.l0_count as int, i);
    list_read::parsed_extent(raw);
    f.sections_in_order();
    reveal(block::check_block_spec);
    assert(list_read::stored_block(raw, f, i).len() == list_read::end_at(raw, f, i)
        - list_read::start_at(raw, f, i));
    assert(list_read::is_block_at(c, raw, f, i));
    assert(c.wf());
    assert(b.first == c.first);
    assert(b.payload@ == c.payload@);
    query_list::same_docs(b, c);
    assert(b.tfs() =~= c.tfs());
    assert(b.gap_values() == c.gap_values());
}

/// Whether `l` is what the full check makes of a list.
pub open spec fn is_checked(q: QueryPostingList, l: BlockPostingList) -> bool {
    &&& q.wf()
    &&& l.wf()
    &&& list_read::bytes_check(q.raw()) == Ok::<Footer, PostingError>(q.tail())
    &&& list_read::is_read(l, q.raw(), q.tail())
}

/// A block of the checked list is what is stored.
proof fn checked_is_stored(q: QueryPostingList, l: BlockPostingList, i: int)
    requires
        is_checked(q, l),
        0 <= i < l.blocks@.len(),
    ensures
        query_list::is_stored_at(l.blocks@[i], q.raw(), q.tail(), i),
{
    let raw = q.raw();
    let f = q.tail();
    list_read::checked_block(raw, f, f.l0_count as int, i);
    reveal(block::check_block_spec);
    assert(list_read::is_block_at(l.blocks@[i], raw, f, i));
}

/// Of a sound list every block is read as in the checked list.
proof fn sound_block_agrees(q: QueryPostingList, l: BlockPostingList, i: int)
    requires
        is_checked(q, l),
        l.sound(),
        0 <= i < l.blocks@.len(),
    ensures
        q.decodes(i),
        query_iterator::docs_of(q, i) == l.blocks@[i].docs(),
        list_read::last_at(q.raw(), q.tail(), i) == l.blocks@[i].last,
{
    checked_is_stored(q, l, i);
    trusted_agrees_with_checked(q, l, l.blocks@[i], i);
    assert(l.blocks@[i].sound());
    assert(q.holds(i, l.blocks@[i]));
    let x = choose|x: PostingBlock| #[trigger] q.holds(i, x);
    trusted_agrees_with_checked(q, l, x, i);
}

proof fn searches_agree(q: QueryPostingList, l: BlockPostingList, target: u32, from: int)
    requires
        is_checked(q, l),
        l.sound(),
        0 <= from,
    ensures
        query_iterator::block_for(q, target, from) == list_query::seek_spec(
            l.blocks@,
            target,
            from,
        ),
    decreases l.blocks@.len() - from,
{
    if from < l.blocks@.len() {
        sound_block_agrees(q, l, from);
        searches_agree(q, l, target, from + 1);
    }
}

/// A cursor over a list whose content is trusted goes where the cursor over
/// the checked list goes, if the list is sound.
pub proof fn trusted_walk_agrees(
    q: QueryPostingList,
    l: BlockPostingList,
    at: Position,
    target: u32,
)
    requires
        is_checked(q, l),
        l.sound(),
        cursor::valid_at(l.blocks@, at),
    ensures
        query_iterator::load_at(q, 0) == cursor::load_at(l.blocks@, 0),
        query_iterator::doc_at(q, at) == cursor::doc_at(l.blocks@, at),
        query_iterator::next_at(q, at) == cursor::next_at(l.blocks@, at),
        query_iterator::seek_at(q, at, target) == cursor::seek_at(l.blocks@, at, target),
{
    let blocks = l.blocks@;
    loads_agree(q, l, 0);
    if let Some((b, k)) = at {
        sound_block_agrees(q, l, b);
        loads_agree(q, l, b + 1);
        assert(blocks[b].wf() && blocks[b].sound());
        let docs = blocks[b].docs();
        assert(docs.last() == blocks[b].last);
        searches_agree(q, l, target, b + 1);
        list_query::seek_spec_is(blocks, target, b + 1);
        if let Some(c) = list_query::seek_spec(blocks, target, b + 1) {
            sound_block_agrees(q, l, c);
            assert(blocks[c].wf() && blocks[c].sound());
            cursor::within_valid(blocks, c, target, 0);
        }
    }
}

proof fn loads_agree(q: QueryPostingList, l: BlockPostingList, b: int)
    requires
        is_checked(q, l),
        l.sound(),
        0 <= b,
    ensures
        query_iterator::load_at(q, b) == cursor::load_at(l.blocks@, b),
{
    if b < l.blocks@.len() {
        sound_block_agrees(q, l, b);
        assert(l.blocks@[b].sound());
    }
}

/// A list that is read as it is queried has the directory of one that was
/// checked whole: the range of every block, its place among the positions,
/// and the totals.
pub proof fn trusted_directory_agrees(q: QueryPostingList, l: BlockPostingList, i: int)
    requires
        is_checked(q, l),
        0 <= i < l.blocks@.len(),
    ensures
        q.tail().l0_count == l.blocks@.len(),
        q.tail().doc_count == l.doc_count,
        list_read::first_at(q.raw(), q.tail(), i) == l.blocks@[i].first,
        list_read::last_at(q.raw(), q.tail(), i) == l.blocks@[i].last,
        q.tail().has_cursors <==> l.cursors is Some,
        l.cursors matches Some(c) ==> list_read::cursor_at(q.raw(), q.tail(), i) == c@[i],
{
}

/// The first block that could not be read stays noted, and what is noted is
/// such a block.
pub proof fn first_fault_stays(
    q: QueryPostingList,
    before: Option<usize>,
    b: int,
    k: int,
    target: u32,
)
    ensures
        before is Some ==> query_iterator::noted_load(q, before, b) == before
            && query_iterator::noted_settle(q, before, b, k) == before
            && query_iterator::noted_seek(q, before, Some((b, k)), target) == before,
        query_iterator::noted_load(q, None, b) matches Some(n) ==> n == b && !q.decodes(b),
        query_iterator::noted_settle(q, None, b, k) matches Some(n) ==> n == b + 1 && !q.decodes(
            b + 1,
        ),
        query_iterator::noted_seek(q, None, Some((b, k)), target) matches Some(n) ==> !q.decodes(
            n as int,
        ),
{
}

} // verus!
