//! How the compact form of a list compares with the full one.
use crate::block::PostingBlock;
use crate::built_laws;
use crate::codec::PostingCodec;
use crate::error::PostingError;
use crate::footer::Footer;
use crate::list;
use crate::list::BlockPostingList;
use crate::list_build;
use crate::list_laws;
use crate::list_read;
use crate::posting::Posting;
use crate::restore_laws;
use vstd::prelude::*;

verus! {

/// Without block headers the stream is shorter by eight bytes a block.
proof fn headers_saved(blocks: Seq<PostingBlock>, n: int)
    requires
        0 <= n,
    ensures
        list::stream_upto(blocks, n, false) == list::stream_upto(blocks, n, true) + 8 * n,
    decreases n,
{
    if n > 0 {
        headers_saved(blocks, n - 1);
    }
}

/// The compact form of a list saves four bytes for every block, and four more
/// where there are position cursors that fit.
pub proof fn compact_saves(l: BlockPostingList)
    requires
        l.wf(),
        l.total_positions <= u32::MAX,
    ensures
        l.stored(false).len() - l.stored(true).len() == l.len() * (if l.cursors is Some {
            8int
        } else {
            4int
        }),
{
    list_laws::stored_size(l, false);
    list_laws::stored_size(l, true);
    headers_saved(l.blocks@, l.len());
}

/// What `serialize_compact` stores of a built list: the full form if a block
/// is patched, else one that is shorter by four bytes a block, and four more
/// with position cursors. It is accepted, what is read from it has the same
/// blocks and cursors, and storing that gives the same bytes.
pub proof fn compact_form_holds(
    l: BlockPostingList,
    s: Seq<Posting>,
    with_positions: bool,
    lengths: Option<Seq<u32>>,
    codec: PostingCodec,
    limit: Option<u32>,
    impact_bounds: bool,
    r: BlockPostingList,
)
    requires
        list_build::is_built(l, s, with_positions, lengths, codec, limit, impact_bounds),
        l.wf(),
        l.sound(),
        l@ == s,
        l.total_positions <= u32::MAX,
        l.stored(false).len() <= usize::MAX,
        ({
            let compact = list::no_pfor(l.blocks@);
            &&& list_read::is_read(r, l.stored(compact), list_laws::written_footer(l, compact))
            &&& r.wf()
        }),
    ensures
        ({
            let compact = list::no_pfor(l.blocks@);
            let full = l.stored(l.compact_headers);
            let kept = l.stored(compact);
            &&& !compact ==> kept == full
            &&& compact ==> full.len() - kept.len() == l.len() * (if l.cursors is Some {
                8int
            } else {
                4int
            })
            &&& list_read::bytes_check(kept) == Ok::<Footer, PostingError>(
                list_laws::written_footer(l, compact),
            )
            &&& list_laws::same_list(l, r)
            &&& r@ == s
            &&& r.sound()
            &&& r.stored(r.compact_headers) == kept
        }),
{
    let compact = list::no_pfor(l.blocks@);
    compact_saves(l);
    assert(l.len() * (if l.cursors is Some {
        8int
    } else {
        4int
    }) >= 0) by (nonlinear_arith)
        requires
            l.len() >= 0,
    ;
    built_laws::built_reads_back(
        l,
        s,
        with_positions,
        lengths,
        codec,
        limit,
        impact_bounds,
        compact,
        r,
    );
    built_laws::built_is_storable(
        l,
        s,
        with_positions,
        lengths,
        codec,
        limit,
        impact_bounds,
        compact,
    );
    list_laws::store_read_roundtrip(l, compact, r);
    restore_laws::restore_gives_same_bytes(l, compact, r);
}

} // verus!
