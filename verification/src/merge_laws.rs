//! A merge of lists can be stored and read back.
use crate::block_codec;
use crate::list;
use crate::list::BlockPostingList;
use crate::list_laws;
use crate::list_read;
use crate::merge;
use vstd::prelude::*;

verus! {

/// Whether a list's position cursors start where its positions do.
pub open spec fn starts_at_zero(l: BlockPostingList) -> bool {
    &&& l.len() == 0 ==> l.total_positions == 0
    &&& l.cursors matches Some(c) ==> c@.len() > 0 ==> c@[0] == 0
}

/// The first cursor of the entries is zero.
proof fn first_cursor(sources: Seq<(BlockPostingList, u32)>, n: int)
    requires
        0 <= n <= sources.len(),
        merge::all_wf(sources),
        forall|i: int| 0 <= i < sources.len() ==> starts_at_zero((#[trigger] sources[i]).0),
    ensures
        merge::entries(sources, n).len() == 0 ==> merge::positions_before(sources, n) == 0,
        merge::entries(sources, n).len() > 0 ==> merge::entries(sources, n)[0].cursor == 0,
    decreases n,
{
    if n > 0 {
        first_cursor(sources, n - 1);
        let m = merge::entries(sources, n - 1).len();
        let es = merge::entries(sources, n);
        assert(sources[n - 1].0.wf());
        assert(starts_at_zero(sources[n - 1].0));
        if es.len() > 0 {
            if m > 0 {
                assert(es[0] == merge::entries(sources, n - 1)[0]);
            } else {
                assert(es[0] == merge::entry_of(sources, n - 1, 0));
            }
        }
    }
}

/// Reserved first gaps stay zero.
proof fn entry_gaps(sources: Seq<(BlockPostingList, u32)>, n: int, i: int)
    requires
        0 <= n <= sources.len(),
        forall|k: int|
            0 <= k < sources.len() ==> list::first_gaps_ok((#[trigger] sources[k]).0.blocks@),
        0 <= i < merge::entries(sources, n).len(),
    ensures
        merge::entries(sources, n)[i].block.first_gap_is_zero(),
    decreases n,
{
    if n > 0 {
        let m = merge::entries(sources, n - 1).len();
        if i < m {
            entry_gaps(sources, n - 1, i);
        } else {
            let l = sources[n - 1].0;
            assert(list::first_gaps_ok(sources[n - 1].0.blocks@));
            assert(merge::entries(sources, n)[i].block == l.blocks@[i - m]);
        }
    }
}

/// What a merge writes is accepted by the reader.
pub proof fn merge_reads_back(
    r: BlockPostingList,
    sources: Seq<(BlockPostingList, u32)>,
    compact: bool,
)
    requires
        merge::all_wf(sources),
        merge::is_merged(r, sources, compact),
        r.wf(),
        forall|i: int| 0 <= i < sources.len() ==> starts_at_zero((#[trigger] sources[i]).0),
        !compact ==> forall|i: int|
            0 <= i < sources.len() ==> list::first_gaps_ok((#[trigger] sources[i]).0.blocks@),
        r.stored(compact).len() <= usize::MAX,
    ensures
        list_laws::storable(r, compact),
        list_read::bytes_check(r.stored(compact)) is Ok,
        list_read::bytes_check(r.streamed(compact)) is Ok,
{
    reveal(merge::is_merged);
    let n = sources.len() as int;
    let es = merge::all_entries(sources);
    first_cursor(sources, n);
    if !compact {
        assert forall|i: int| 0 <= i < r.blocks@.len() implies (
        #[trigger] r.blocks@[i]).first_gap_is_zero() by {
            entry_gaps(sources, n, i);
            assert(block_codec::is_rebased(r.blocks@[i], es[i].block, es[i].offset as int));
        }
    }
    list_laws::stored_is_accepted(r, compact);
    list_laws::streamed_is_accepted(r, compact);
}

} // verus!
