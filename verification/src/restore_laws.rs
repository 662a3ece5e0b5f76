//! A list that was read is stored as the bytes that it was read from.
use crate::block::PostingBlock;
use crate::list;
use crate::list::BlockPostingList;
use crate::list_laws;
use crate::list_read;
use crate::list_write;
use vstd::prelude::*;

verus! {

/// Reading a stored list and storing it again gives the same bytes.
pub proof fn restore_gives_same_bytes(l: BlockPostingList, compact: bool, r: BlockPostingList)
    requires
        list_laws::storable(l, compact),
        list_read::is_read(r, l.stored(compact), list_laws::written_footer(l, compact)),
        r.wf(),
    ensures
        r.compact_headers == compact,
        r.stored(r.compact_headers) == l.stored(compact),
{
    list_laws::store_read_roundtrip(l, compact, r);
    same_list_same_bytes(l, r, compact);
}

/// Lists with the same blocks and metadata are stored as the same bytes.
pub proof fn same_list_same_bytes(l: BlockPostingList, r: BlockPostingList, compact: bool)
    requires
        list_laws::same_list(l, r),
    ensures
        l.stored(compact) == r.stored(compact),
        l.streamed(compact) == r.streamed(compact),
{
    streams_match(l.blocks@, r.blocks@, compact, l.len());
    let a = l.stored_parts(compact);
    let b = r.stored_parts(compact);
    assert(list_write::stream_parts(l.blocks@, compact) =~= list_write::stream_parts(
        r.blocks@,
        compact,
    ));
    assert(list_write::entry_parts(l.blocks@, compact) =~= list_write::entry_parts(
        r.blocks@,
        compact,
    )) by {
        assert forall|i: int| 0 <= i < l.len() implies list_write::entry_bytes(
            l.blocks@,
            i,
            compact,
        ) == list_write::entry_bytes(r.blocks@, i, compact) by {
            streams_match(l.blocks@, r.blocks@, compact, i);
            assert(list_laws::same_block(l.blocks@[i], r.blocks@[i]));
        }
    }
    assert(list_write::descriptor_parts(l.blocks@, compact) =~= list_write::descriptor_parts(
        r.blocks@,
        compact,
    )) by {
        assert forall|i: int| 0 <= i < l.len() implies l.blocks@[i].descriptor()
            == r.blocks@[i].descriptor() by {
            assert(list_laws::same_block(l.blocks@[i], r.blocks@[i]));
        }
    }
    assert(l.stores_short(compact) == r.stores_short(compact));
    assert(list_write::cursor_parts(l.cursors, l.stores_short(compact))
        =~= list_write::cursor_parts(r.cursors, r.stores_short(compact)));
    assert(l.footer_bytes(compact) =~= r.footer_bytes(compact)) by {
        reveal(BlockPostingList::footer_with);
    }
    assert(l.footer_with(compact, l.streamed_flags(compact)) =~= r.footer_with(
        compact,
        r.streamed_flags(compact),
    )) by {
        reveal(BlockPostingList::footer_with);
    }
    assert(a =~= b);
    reveal(BlockPostingList::stored);
    reveal(BlockPostingList::streamed);
}

proof fn streams_match(a: Seq<PostingBlock>, b: Seq<PostingBlock>, compact: bool, n: int)
    requires
        a.len() == b.len(),
        n <= a.len(),
        forall|i: int| 0 <= i < a.len() ==> list_laws::same_block(#[trigger] a[i], b[i]),
    ensures
        list::stream_upto(a, n, compact) == list::stream_upto(b, n, compact),
        forall|i: int| 0 <= i < n ==> (#[trigger] a[i]).framed() == b[i].framed(),
    decreases n,
{
    if n > 0 {
        streams_match(a, b, compact, n - 1);
        assert(list_laws::same_block(a[n - 1], b[n - 1]));
    }
}

} // verus!
