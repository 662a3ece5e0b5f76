//! What walks over a list visit, and where they lead.
use crate::batch;
use crate::block::PostingBlock;
use crate::block::TERMINATED;
use crate::cursor;
use crate::cursor::Position;
use crate::intersect_laws;
use crate::list;
use crate::list_query;
use crate::posting;
use crate::posting::Posting;
use crate::visit;
use vstd::prelude::*;

verus! {

/// The postings of one run.
pub open spec fn run_postings(blocks: Seq<PostingBlock>, at: Position, end: u32) -> Seq<Posting> {
    Seq::new(
        visit::run_docs(blocks, at, end).len(),
        |i: int|
            Posting {
                doc_id: visit::run_docs(blocks, at, end)[i],
                term_freq: visit::run_tfs(blocks, at, end)[i],
            },
    )
}

/// The postings of the first `n` runs.
pub open spec fn visited(blocks: Seq<PostingBlock>, at: Position, end: u32, n: int) -> Seq<Posting>
    decreases n,
{
    if n <= 0 {
        Seq::empty()
    } else {
        visited(blocks, at, end, n - 1) + run_postings(
            blocks,
            visit::after_runs(blocks, at, end, n - 1),
            end,
        )
    }
}

/// Runs give the postings from a position on, each once and in order, up to
/// an end. What they leave is the rest.
pub proof fn runs_give_postings(blocks: Seq<PostingBlock>, at: Position, end: u32, n: int)
    requires
        list::blocks_ok(blocks),
        cursor::valid_at(blocks, at),
        0 <= n,
    ensures
        ({
            let to = visit::after_runs(blocks, at, end, n);
            &&& cursor::valid_at(blocks, to)
            &&& cursor::rest_at(blocks, at) == visited(blocks, at, end, n) + cursor::rest_at(
                blocks,
                to,
            )
            &&& forall|i: int|
                0 <= i < visited(blocks, at, end, n).len() ==> (#[trigger] visited(
                    blocks,
                    at,
                    end,
                    n,
                )[i]).doc_id < end
        }),
    decreases n,
{
    if n <= 0 {
        assert(Seq::<Posting>::empty() + cursor::rest_at(blocks, at) =~= cursor::rest_at(
            blocks,
            at,
        ));
    } else {
        runs_give_postings(blocks, at, end, n - 1);
        let from = visit::after_runs(blocks, at, end, n - 1);
        let to = visit::after_runs(blocks, at, end, n);
        let before = visited(blocks, at, end, n - 1);
        let run = run_postings(blocks, from, end);
        run_gives_postings(blocks, from, end);
        assert(before + (run + cursor::rest_at(blocks, to)) =~= before + run + cursor::rest_at(
            blocks,
            to,
        ));
        let all = visited(blocks, at, end, n);
        assert forall|i: int| 0 <= i < all.len() implies (#[trigger] all[i]).doc_id < end by {
            if i < before.len() {
                assert(all[i] == before[i]);
            } else {
                assert(all[i] == run[i - before.len()]);
            }
        }
    }
}

/// One run gives the postings of a block from a position on, up to an end.
proof fn run_gives_postings(blocks: Seq<PostingBlock>, at: Position, end: u32)
    requires
        list::blocks_ok(blocks),
        cursor::valid_at(blocks, at),
    ensures
        ({
            let to = visit::after_run(blocks, at, end);
            let run = run_postings(blocks, at, end);
            &&& cursor::valid_at(blocks, to)
            &&& cursor::rest_at(blocks, at) == run + cursor::rest_at(blocks, to)
            &&& forall|i: int| 0 <= i < run.len() ==> (#[trigger] run[i]).doc_id < end
        }),
{
    let to = visit::after_run(blocks, at, end);
    let run = run_postings(blocks, at, end);
    let rest = cursor::rest_at(blocks, at);
    match at {
        None => {
            assert(run + cursor::rest_at(blocks, to) =~= rest);
        },
        Some((b, k)) => {
            let docs = blocks[b].docs();
            let tfs = blocks[b].tfs();
            assert(blocks[b].wf());
            cursor::lower_from_is(docs, end, k);
            let stop = visit::run_stop(blocks, b, k, end);
            cursor::block_rest(blocks, b, k, stop);
            let own = list::block_postings(blocks[b]);
            assert forall|i: int| 0 <= i < stop - k implies rest[i] == #[trigger] run[i] by {
                assert(rest[i] == own[k + i]);
                assert(run[i].doc_id == docs[k + i] && run[i].term_freq == tfs[k + i]);
            }
            assert(rest =~= run + rest.skip(stop - k));
        },
    }
}

/// Documents ahead of a position of a sound list increase.
pub proof fn rest_is_increasing(blocks: Seq<PostingBlock>, at: Position, i: int, j: int)
    requires
        list::blocks_ok(blocks),
        list::all_sound(blocks),
        cursor::valid_at(blocks, at),
        0 <= i < j < cursor::rest_at(blocks, at).len(),
    ensures
        cursor::rest_at(blocks, at)[i].doc_id < cursor::rest_at(blocks, at)[j].doc_id,
{
    let (b, k) = at->Some_0;
    let all = cursor::readable(blocks, b);
    assert(cursor::rest_at(blocks, at) =~= all.skip(k));
    cursor::rest_increasing(blocks, b, k + i, k + j);
}

/// A walk that has reached its end has every posting before the end behind
/// it and none ahead.
pub proof fn reached_is_past(blocks: Seq<PostingBlock>, at: Position, end: u32, i: int)
    requires
        list::blocks_ok(blocks),
        list::all_sound(blocks),
        cursor::valid_at(blocks, at),
        visit::reached(blocks, at, end),
        0 <= i < cursor::rest_at(blocks, at).len(),
    ensures
        cursor::rest_at(blocks, at)[i].doc_id >= end,
{
    cursor::next_rest(blocks, at);
    if i > 0 {
        rest_is_increasing(blocks, at, 0, i);
    }
}

/// Whether a position is that of the first posting not before a target.
pub open spec fn is_first_from(
    all: Seq<Posting>,
    blocks: Seq<PostingBlock>,
    to: Position,
    target: u32,
) -> bool {
    &&& cursor::valid_at(blocks, to)
    &&& exists|m: int| #[trigger]
        cursor::drops_before(all, cursor::rest_at(blocks, to), m, target)
    &&& to is Some ==> cursor::doc_at(blocks, to) >= target
}

/// A seek over the whole of a sound list goes to its first posting not before
/// the target, from wherever it starts.
#[verifier::rlimit(30)]
pub proof fn physical_seek_finds(blocks: Seq<PostingBlock>, at: Position, target: u32)
    requires
        list::blocks_ok(blocks),
        list::all_sound(blocks),
        cursor::valid_at(blocks, at),
    ensures
        is_first_from(
            list::flat(blocks, blocks.len() as int),
            blocks,
            cursor::physical_at(blocks, at, target),
            target,
        ),
{
    if at is Some && target >= cursor::doc_at(blocks, at) {
        seek_finds_in_all(blocks, at, target);
    } else if blocks.len() > 0 {
        search_finds_in_all(blocks, target);
    } else {
        let all = list::flat(blocks, 0);
        let to = cursor::physical_at(blocks, at, target);
        assert(all.skip(0) =~= all);
        assert(cursor::drops_before(all, cursor::rest_at(blocks, to), 0, target));
    }
}

/// A position of a sound list has all postings ahead but those before its
/// document.
proof fn rest_drops_before(blocks: Seq<PostingBlock>, at: Position, target: u32) -> (before: int)
    requires
        list::blocks_ok(blocks),
        list::all_sound(blocks),
        cursor::valid_at(blocks, at),
        at is Some,
        target >= cursor::doc_at(blocks, at),
    ensures
        cursor::drops_before(
            list::flat(blocks, blocks.len() as int),
            cursor::rest_at(blocks, at),
            before,
            target,
        ),
{
    let all = list::flat(blocks, blocks.len() as int);
    let (b, k) = at->Some_0;
    let rest = cursor::rest_at(blocks, at);
    cursor::rest_of_sound(blocks, b);
    cursor::rest_of_sound(blocks, 0);
    let before = list::flat(blocks, b).len() + k;
    assert(rest =~= cursor::readable(blocks, b).skip(k));
    assert(rest =~= all.skip(before));
    cursor::next_rest(blocks, at);
    assert(all[before] == rest[0]);
    assert(cursor::readable(blocks, 0) =~= all);
    assert forall|i: int| 0 <= i < before implies (#[trigger] all[i]).doc_id < target by {
        cursor::rest_increasing(blocks, 0, i, before);
    }
    before
}

proof fn seek_finds_in_all(blocks: Seq<PostingBlock>, at: Position, target: u32)
    requires
        list::blocks_ok(blocks),
        list::all_sound(blocks),
        cursor::valid_at(blocks, at),
        at is Some,
        target >= cursor::doc_at(blocks, at),
    ensures
        is_first_from(
            list::flat(blocks, blocks.len() as int),
            blocks,
            cursor::seek_at(blocks, at, target),
            target,
        ),
{
    let before = rest_drops_before(blocks, at, target);
    let n = cursor::seek_rest(blocks, at, target);
    cursor::seek_valid(blocks, at, target);
    cursor::drops_join(
        list::flat(blocks, blocks.len() as int),
        cursor::rest_at(blocks, at),
        cursor::rest_at(blocks, cursor::seek_at(blocks, at, target)),
        before,
        n,
        target,
    );
}

proof fn search_finds_in_all(blocks: Seq<PostingBlock>, target: u32)
    requires
        list::blocks_ok(blocks),
        list::all_sound(blocks),
        blocks.len() > 0,
    ensures
        is_first_from(
            list::flat(blocks, blocks.len() as int),
            blocks,
            match list_query::seek_spec(blocks, target, 0) {
                Some(c) => cursor::within(blocks, c, target),
                None => None,
            },
            target,
        ),
{
    let all = list::flat(blocks, blocks.len() as int);
    let start: Position = Some((0int, 0int));
    assert(blocks[0].wf());
    cursor::rest_of_sound(blocks, 0);
    assert(cursor::readable(blocks, 0) =~= all);
    assert(cursor::rest_at(blocks, start) =~= all);
    let n = cursor::seek_rest(blocks, start, target);
    cursor::seek_valid(blocks, start, target);
    from_start(blocks, target);
    assert(cursor::drops_before(
        all,
        cursor::rest_at(blocks, cursor::seek_at(blocks, start, target)),
        n,
        target,
    ));
}

/// A seek from the first posting goes where a search of all blocks does.
proof fn from_start(blocks: Seq<PostingBlock>, target: u32)
    requires
        list::blocks_ok(blocks),
        list::all_sound(blocks),
        blocks.len() > 0,
    ensures
        cursor::seek_at(blocks, Some((0int, 0int)), target) == (match list_query::seek_spec(
            blocks,
            target,
            0,
        ) {
            Some(c) => cursor::within(blocks, c, target),
            None => None,
        }),
{
    assert(blocks[0].wf());
    let docs = blocks[0].docs();
    if docs.len() > 1 {
        assert(docs[0] < docs[docs.len() - 1]);
    }
    cursor::lower_from_is(docs, target, 0);
}

/// A cursor opened at a first target has every posting ahead that is not
/// before the target.
pub proof fn candidates_are_ahead(blocks: Seq<PostingBlock>, target: u32) -> (m: int)
    requires
        list::blocks_ok(blocks),
        list::all_sound(blocks),
    ensures
        ({
            let to = match list_query::seek_spec(blocks, target, 0) {
                Some(b) => cursor::load_at(blocks, b),
                None => None,
            };
            &&& cursor::valid_at(blocks, to)
            &&& cursor::drops_before(
                list::flat(blocks, blocks.len() as int),
                cursor::rest_at(blocks, to),
                m,
                target,
            )
        }),
{
    let all = list::flat(blocks, blocks.len() as int);
    list_query::seek_spec_is(blocks, target, 0);
    let c = match list_query::seek_spec(blocks, target, 0) {
        Some(b) => b,
        None => blocks.len() as int,
    };
    cursor::rest_of_sound(blocks, c);
    let before = list::flat(blocks, c);
    assert(all.skip(before.len() as int) =~= cursor::readable(blocks, c));
    if c < blocks.len() {
        assert(blocks[c].wf());
    }
    assert forall|i: int| 0 <= i < before.len() implies (#[trigger] all[i]).doc_id < target by {
        assert(all[i] == before[i]);
        flat_below(blocks, c, target, i);
    }
    before.len() as int
}

proof fn flat_below(blocks: Seq<PostingBlock>, c: int, target: u32, i: int)
    requires
        list::blocks_ok(blocks),
        list::all_sound(blocks),
        0 <= c <= blocks.len(),
        forall|b: int| 0 <= b < c ==> (#[trigger] blocks[b]).last < target,
        0 <= i < list::flat(blocks, c).len(),
    ensures
        list::flat(blocks, c)[i].doc_id < target,
    decreases c,
{
    let less = list::flat(blocks, c - 1);
    if i < less.len() {
        flat_below(blocks, c - 1, target, i);
    } else {
        let b = blocks[c - 1];
        assert(b.wf() && b.sound());
        let docs = b.docs();
        let k = i - less.len();
        assert(list::flat(blocks, c)[i] == list::block_postings(b)[k]);
        if k < docs.len() - 1 {
            assert(docs[k] < docs[docs.len() - 1]);
        }
    }
}

/// A window over the documents from a base on has just those that are ahead,
/// and leaves those past it ahead.
#[verifier::rlimit(30)]
pub proof fn window_has_ahead(
    blocks: Seq<PostingBlock>,
    at: Position,
    base: u32,
    end: u32,
    doc: u32,
)
    requires
        list::blocks_ok(blocks),
        list::all_sound(blocks),
        cursor::valid_at(blocks, at),
        base <= end,
        base <= doc,
        doc < end || end == TERMINATED,
    ensures
        ({
            let ahead = cursor::rest_at(blocks, at);
            let from = cursor::rest_at(blocks, cursor::seek_at(blocks, at, base));
            let n = batch::count_before(from, end);
            &&& 0 <= n <= from.len()
            &&& posting::doc_ids(from.take(n)).contains(doc) <==> intersect_laws::has_doc(
                ahead,
                doc,
            )
            &&& exists|m: int| #[trigger] cursor::drops_before(ahead, from.skip(n), m, end)
            &&& n < from.len() ==> from[n].doc_id >= end
        }),
{
    let ahead = cursor::rest_at(blocks, at);
    let to = cursor::seek_at(blocks, at, base);
    let from = cursor::rest_at(blocks, to);
    let docs = posting::doc_ids(from);
    let n = batch::count_before(from, end);
    let m = cursor::seek_rest(blocks, at, base);
    cursor::seek_valid(blocks, at, base);
    cursor::lower_from_is(docs, end, 0);
    let taken = posting::doc_ids(from.take(n));
    if taken.contains(doc) {
        let i = choose|i: int| 0 <= i < taken.len() && taken[i] == doc;
        assert(ahead[m + i].doc_id == doc);
    }
    if intersect_laws::has_doc(ahead, doc) {
        let i = choose|i: int| 0 <= i < ahead.len() && #[trigger] ahead[i].doc_id == doc;
        assert(i >= m);
        let k = i - m;
        assert(from[k].doc_id == doc);
        if k >= n {
            assert(docs[n] >= end);
            if n < k {
                rest_is_increasing(blocks, to, n, k);
            }
            assert(doc >= end);
            doc_is_below(blocks, to, k);
        }
        assert(taken[k] == doc);
    }
    assert(from.skip(n) =~= ahead.skip(m + n));
    assert forall|i: int| 0 <= i < m + n implies (#[trigger] ahead[i]).doc_id < end by {
        if i >= m {
            assert(docs[i - m] < end);
            assert(from[i - m] == ahead[i]);
        }
    }
    assert(cursor::drops_before(ahead, from.skip(n), m + n, end));
}

proof fn doc_is_below(blocks: Seq<PostingBlock>, at: Position, i: int)
    requires
        list::blocks_ok(blocks),
        list::all_sound(blocks),
        cursor::valid_at(blocks, at),
        0 <= i < cursor::rest_at(blocks, at).len(),
    ensures
        cursor::rest_at(blocks, at)[i].doc_id < TERMINATED,
{
    let (b, k) = at->Some_0;
    cursor::rest_of_sound(blocks, b);
    let all = list::flat(blocks, blocks.len() as int);
    let x = list::flat(blocks, b).len() + k + i;
    assert(cursor::rest_at(blocks, at) =~= cursor::readable(blocks, b).skip(k));
    assert(all[x] == cursor::rest_at(blocks, at)[i]);
    assert forall|b: int| 0 <= b < blocks.len() implies (#[trigger] blocks[b]).last
        < TERMINATED by {
        assert(blocks[b].wf());
    }
    flat_below(blocks, blocks.len() as int, TERMINATED, x);
}

} // verus!
