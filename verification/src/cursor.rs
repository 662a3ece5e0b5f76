//! Positions in a block posting list, and where navigation leads.
//!
//! A position is a block and an index within it; an exhausted cursor has
//! none. A block whose content is not sound ends every walk that reaches it.
use crate::block;
use crate::block::PostingBlock;
use crate::block::TERMINATED;
use crate::list;
use crate::list_query;
use crate::posting::Posting;
use vstd::prelude::*;

verus! {

/// Block and index of a cursor, or nothing once it is exhausted.
pub type Position = Option<(int, int)>;

/// Index of the first value from `i` on that is at least `target`.
pub open spec fn lower_from(docs: Seq<u32>, target: u32, i: int) -> int
    decreases docs.len() - i,
{
    if i >= docs.len() || docs[i] >= target {
        i
    } else {
        lower_from(docs, target, i + 1)
    }
}

/// The postings from block `from` on, up to the first block that is not
/// sound.
pub open spec fn readable(blocks: Seq<PostingBlock>, from: int) -> Seq<Posting>
    decreases blocks.len() - from,
{
    if from < 0 || from >= blocks.len() || !blocks[from].sound() {
        Seq::empty()
    } else {
        list::block_postings(blocks[from]) + readable(blocks, from + 1)
    }
}

/// The postings from a position on.
pub open spec fn rest_at(blocks: Seq<PostingBlock>, at: Position) -> Seq<Posting> {
    match at {
        None => Seq::empty(),
        Some((b, k)) => list::block_postings(blocks[b]).skip(k) + readable(blocks, b + 1),
    }
}

/// Whether a position is in a sound block.
pub open spec fn valid_at(blocks: Seq<PostingBlock>, at: Position) -> bool {
    match at {
        None => true,
        Some((b, k)) => 0 <= b < blocks.len() && blocks[b].sound() && 0 <= k < blocks[b].count,
    }
}

/// Document at a position.
pub open spec fn doc_at(blocks: Seq<PostingBlock>, at: Position) -> u32 {
    match at {
        None => TERMINATED,
        Some((b, k)) => blocks[b].docs()[k],
    }
}

/// Term frequency at a position.
pub open spec fn tf_at(blocks: Seq<PostingBlock>, at: Position) -> u32 {
    match at {
        None => 0,
        Some((b, k)) => blocks[b].tfs()[k],
    }
}

/// The start of a block, if it is there and sound.
pub open spec fn load_at(blocks: Seq<PostingBlock>, b: int) -> Position {
    if 0 <= b < blocks.len() && blocks[b].sound() {
        Some((b, 0))
    } else {
        None
    }
}

/// Index `k` of block `b`, or the start of the next block where `b` ends
/// there.
pub open spec fn block_at(blocks: Seq<PostingBlock>, b: int, k: int) -> Position {
    if k < blocks[b].count {
        Some((b, k))
    } else {
        load_at(blocks, b + 1)
    }
}

/// Whether a position is at or after another one.
pub open spec fn moved_on(from: Position, to: Position) -> bool {
    match (from, to) {
        (_, None) => true,
        (None, Some(_)) => false,
        (Some((b, k)), Some((c, j))) => b < c || b == c && k <= j,
    }
}

/// The position after the next posting.
pub open spec fn next_at(blocks: Seq<PostingBlock>, at: Position) -> Position {
    match at {
        None => None,
        Some((b, k)) => if k + 1 < blocks[b].count {
            Some((b, k + 1))
        } else {
            load_at(blocks, b + 1)
        },
    }
}

/// The first posting of block `b` with a document of at least `target`.
pub open spec fn within(blocks: Seq<PostingBlock>, b: int, target: u32) -> Position {
    if blocks[b].sound() {
        Some((b, lower_from(blocks[b].docs(), target, 0)))
    } else {
        None
    }
}

/// Where seeking `target` leads: it never goes back.
pub open spec fn seek_at(blocks: Seq<PostingBlock>, at: Position, target: u32) -> Position {
    match at {
        None => None,
        Some((b, k)) => if target <= blocks[b].docs()[k] {
            at
        } else if target <= blocks[b].last {
            Some((b, lower_from(blocks[b].docs(), target, k)))
        } else {
            match list_query::seek_spec(blocks, target, b + 1) {
                Some(c) => within(blocks, c, target),
                None => None,
            }
        },
    }
}

/// Where seeking leads when going back is allowed.
pub open spec fn physical_at(blocks: Seq<PostingBlock>, at: Position, target: u32) -> Position {
    if at is Some && target >= doc_at(blocks, at) {
        seek_at(blocks, at, target)
    } else {
        match list_query::seek_spec(blocks, target, 0) {
            Some(c) => within(blocks, c, target),
            None => None,
        }
    }
}

/// The block that a cursor in block `b` has opened last, once it was sent to
/// block `c`: there may be none.
pub open spec fn opened(blocks: Seq<PostingBlock>, b: int, c: int) -> int {
    if c < blocks.len() {
        c
    } else {
        b
    }
}

/// The block opened last once a search that started in block `b` looked for
/// `target` from block `from` on.
pub open spec fn opened_by_search(blocks: Seq<PostingBlock>, b: int, target: u32, from: int) -> int {
    match list_query::seek_spec(blocks, target, from) {
        Some(c) => c,
        None => b,
    }
}

/// The block opened last after a step.
pub open spec fn next_opened(blocks: Seq<PostingBlock>, at: Position, b: int) -> int {
    match at {
        None => b,
        Some((b, k)) => if k + 1 < blocks[b].count {
            b
        } else {
            opened(blocks, b, b + 1)
        },
    }
}

/// The block opened last after seeking `target`.
pub open spec fn seek_opened(blocks: Seq<PostingBlock>, at: Position, b: int, target: u32) -> int {
    match at {
        None => b,
        Some((b, _)) => if target <= blocks[b].last {
            b
        } else {
            opened_by_search(blocks, b, target, b + 1)
        },
    }
}

/// `lower_from` is the first index that qualifies.
pub proof fn lower_from_is(docs: Seq<u32>, target: u32, i: int)
    requires
        0 <= i <= docs.len(),
    ensures
        i <= lower_from(docs, target, i) <= docs.len(),
        forall|j: int| i <= j < lower_from(docs, target, i) ==> docs[j] < target,
        lower_from(docs, target, i) < docs.len() ==> docs[lower_from(docs, target, i)] >= target,
    decreases docs.len() - i,
{
    if i < docs.len() && docs[i] < target {
        lower_from_is(docs, target, i + 1);
    }
}

/// An index with smaller values before it and a larger one at it is the first
/// that qualifies.
pub proof fn lower_from_unique(docs: Seq<u32>, target: u32, i: int, at: int)
    requires
        0 <= i <= at <= docs.len(),
        forall|j: int| i <= j < at ==> docs[j] < target,
        at < docs.len() ==> docs[at] >= target,
    ensures
        lower_from(docs, target, i) == at,
    decreases docs.len() - i,
{
    if i < at {
        assert(docs[i] < target);
        lower_from_unique(docs, target, i + 1, at);
    }
}

/// From a later start the first index that qualifies is the later of the two.
pub proof fn lower_from_later(docs: Seq<u32>, target: u32, i: int, j: int)
    requires
        block::increasing(docs),
        0 <= i <= j <= docs.len(),
    ensures
        lower_from(docs, target, j) == (if j <= lower_from(docs, target, i) {
            lower_from(docs, target, i)
        } else {
            j
        }),
{
    let at = lower_from(docs, target, i);
    lower_from_is(docs, target, i);
    if j <= at {
        lower_from_unique(docs, target, j, at);
    } else {
        if j < docs.len() {
            assert(docs[at] < docs[j]);
        }
        lower_from_unique(docs, target, j, j);
    }
}

/// Moving within a block, or out of it, takes the postings passed over off
/// the rest.
pub proof fn block_rest(blocks: Seq<PostingBlock>, b: int, k: int, n: int)
    requires
        list::blocks_ok(blocks),
        valid_at(blocks, Some((b, k))),
        k <= n <= blocks[b].count,
    ensures
        valid_at(blocks, block_at(blocks, b, n)),
        moved_on(Some((b, k)), block_at(blocks, b, n)),
        n - k <= rest_at(blocks, Some((b, k))).len(),
        rest_at(blocks, block_at(blocks, b, n)) == rest_at(blocks, Some((b, k))).skip(n - k),
{
    let p = list::block_postings(blocks[b]);
    let r = readable(blocks, b + 1);
    if n < blocks[b].count {
        assert((p.skip(k) + r).skip(n - k) =~= p.skip(n) + r);
    } else {
        assert((p.skip(k) + r).skip(n - k) =~= r);
        if b + 1 < blocks.len() && blocks[b + 1].sound() {
            assert(blocks[b + 1].wf());
            let q = list::block_postings(blocks[b + 1]);
            assert(q.skip(0) =~= q);
        }
    }
}

/// Stepping and seeking never go back.
pub proof fn moves_on(blocks: Seq<PostingBlock>, at: Position, target: u32)
    requires
        valid_at(blocks, at),
    ensures
        moved_on(at, at),
        moved_on(at, next_at(blocks, at)),
        moved_on(at, seek_at(blocks, at, target)),
{
    if let Some((b, k)) = at {
        lower_from_is(blocks[b].docs(), target, k);
        list_query::seek_spec_is(blocks, target, b + 1);
    }
}

/// A search inside a block that ends at or after the target stays inside.
pub proof fn within_valid(blocks: Seq<PostingBlock>, b: int, target: u32, from: int)
    requires
        list::blocks_ok(blocks),
        0 <= b < blocks.len(),
        blocks[b].sound(),
        blocks[b].last >= target,
        0 <= from < blocks[b].count,
    ensures
        from <= lower_from(blocks[b].docs(), target, from) < blocks[b].count,
        blocks[b].docs()[lower_from(blocks[b].docs(), target, from)] >= target,
{
    lower_from_is(blocks[b].docs(), target, from);
}

/// Seeking leads to a valid position.
pub proof fn seek_valid(blocks: Seq<PostingBlock>, at: Position, target: u32)
    requires
        list::blocks_ok(blocks),
        valid_at(blocks, at),
    ensures
        valid_at(blocks, seek_at(blocks, at, target)),
        seek_at(blocks, at, target) is Some ==> doc_at(blocks, seek_at(blocks, at, target))
            >= target,
{
    match at {
        None => {},
        Some((b, k)) => {
            if target > blocks[b].docs()[k] {
                if target <= blocks[b].last {
                    within_valid(blocks, b, target, k);
                } else {
                    list_query::seek_spec_is(blocks, target, b + 1);
                    match list_query::seek_spec(blocks, target, b + 1) {
                        Some(c) => {
                            if blocks[c].sound() {
                                assert(blocks[c].wf());
                                within_valid(blocks, c, target, 0);
                            }
                        },
                        None => {},
                    }
                }
            }
        },
    }
}

/// Stepping leads to a valid position and takes one posting off the rest.
pub proof fn next_rest(blocks: Seq<PostingBlock>, at: Position)
    requires
        list::blocks_ok(blocks),
        valid_at(blocks, at),
        at is Some,
    ensures
        valid_at(blocks, next_at(blocks, at)),
        rest_at(blocks, at).len() > 0,
        rest_at(blocks, at)[0].doc_id == doc_at(blocks, at),
        rest_at(blocks, at)[0].term_freq == tf_at(blocks, at),
        rest_at(blocks, next_at(blocks, at)) == rest_at(blocks, at).skip(1),
{
    let (b, k) = at->Some_0;
    let p = list::block_postings(blocks[b]);
    let r = readable(blocks, b + 1);
    assert(rest_at(blocks, at)[0] == p[k]);
    if k + 1 < blocks[b].count {
        assert((p.skip(k) + r).skip(1) =~= p.skip(k + 1) + r);
    } else {
        assert((p.skip(k) + r).skip(1) =~= r);
        if b + 1 < blocks.len() && blocks[b + 1].sound() {
            assert(blocks[b + 1].wf());
            let q = list::block_postings(blocks[b + 1]);
            assert(q.skip(0) =~= q);
        }
    }
}

/// The start of a sound list gives all its postings.
pub proof fn rest_of_sound(blocks: Seq<PostingBlock>, from: int)
    requires
        list::blocks_ok(blocks),
        list::all_sound(blocks),
        0 <= from <= blocks.len(),
    ensures
        list::flat(blocks, blocks.len() as int) == list::flat(blocks, from) + readable(blocks, from),
        rest_at(blocks, load_at(blocks, from)) == readable(blocks, from),
    decreases blocks.len() - from,
{
    if from < blocks.len() {
        rest_of_sound(blocks, from + 1);
        assert(blocks[from].sound());
        let q = list::block_postings(blocks[from]);
        assert(q.skip(0) =~= q);
        assert(list::flat(blocks, from) + q + readable(blocks, from + 1) =~= list::flat(
            blocks,
            from,
        ) + (q + readable(blocks, from + 1)));
    } else {
        assert(list::flat(blocks, from) + readable(blocks, from) =~= list::flat(blocks, from));
    }
}

/// Blocks that end before the target hold no posting at or after it.
proof fn skipped_blocks(blocks: Seq<PostingBlock>, from: int, to: int, target: u32) -> (m: int)
    requires
        list::blocks_ok(blocks),
        list::all_sound(blocks),
        0 <= from <= to <= blocks.len(),
        forall|i: int| from <= i < to ==> (#[trigger] blocks[i]).last < target,
    ensures
        0 <= m <= readable(blocks, from).len(),
        readable(blocks, from).skip(m) == readable(blocks, to),
        forall|i: int| 0 <= i < m ==> (#[trigger] readable(blocks, from)[i]).doc_id < target,
    decreases to - from,
{
    if from == to {
        assert(readable(blocks, from).skip(0) =~= readable(blocks, from));
        0
    } else {
        let n = skipped_blocks(blocks, from + 1, to, target);
        let b = blocks[from];
        assert(b.wf() && b.sound());
        let q = list::block_postings(b);
        let r = readable(blocks, from + 1);
        assert((q + r).skip(q.len() + n) =~= r.skip(n));
        assert forall|i: int| 0 <= i < q.len() + n implies (#[trigger] (q + r)[i]).doc_id
            < target by {
            if i < q.len() {
                let docs = b.docs();
                assert(docs[docs.len() - 1] == b.last);
                if i < docs.len() - 1 {
                    assert(docs[i] < docs[docs.len() - 1]);
                }
            } else {
                assert((q + r)[i] == r[i - q.len()]);
            }
        }
        q.len() + n
    }
}

/// Whether `after` is `rest` without its first `m` postings, all of which are
/// before `target`.
pub open spec fn drops_before(rest: Seq<Posting>, after: Seq<Posting>, m: int, target: u32) -> bool {
    &&& 0 <= m <= rest.len()
    &&& after == rest.skip(m)
    &&& forall|i: int| 0 <= i < m ==> (#[trigger] rest[i]).doc_id < target
}

/// Dropping twice is dropping once.
pub proof fn drops_join(a: Seq<Posting>, b: Seq<Posting>, c: Seq<Posting>, m: int, n: int, target: u32)
    requires
        drops_before(a, b, m, target),
        drops_before(b, c, n, target),
    ensures
        drops_before(a, c, m + n, target),
{
    assert(a.skip(m + n) =~= a.skip(m).skip(n));
    assert forall|i: int| 0 <= i < m + n implies (#[trigger] a[i]).doc_id < target by {
        if i >= m {
            assert(a[i] == b[i - m]);
        }
    }
}

/// Moving forward within a block drops the postings passed over.
proof fn drops_within(blocks: Seq<PostingBlock>, b: int, k: int, j: int, target: u32)
    requires
        0 <= b < blocks.len(),
        blocks[b].wf(),
        0 <= k <= j <= blocks[b].count,
        forall|i: int| k <= i < j ==> (#[trigger] blocks[b].docs()[i]) < target,
    ensures
        drops_before(
            rest_at(blocks, Some((b, k))),
            rest_at(blocks, Some((b, j))),
            j - k,
            target,
        ),
{
    let p = list::block_postings(blocks[b]);
    let r = readable(blocks, b + 1);
    assert((p.skip(k) + r).skip(j - k) =~= p.skip(j) + r);
    assert forall|i: int| 0 <= i < j - k implies (#[trigger] (p.skip(k) + r)[i]).doc_id
        < target by {
        assert((p.skip(k) + r)[i] == p[k + i]);
        assert(blocks[b].docs()[k + i] < target);
    }
}

/// In a sound list, seeking drops just the postings before the target.
pub proof fn seek_rest(blocks: Seq<PostingBlock>, at: Position, target: u32) -> (m: int)
    requires
        list::blocks_ok(blocks),
        list::all_sound(blocks),
        valid_at(blocks, at),
    ensures
        drops_before(
            rest_at(blocks, at),
            rest_at(blocks, seek_at(blocks, at, target)),
            m,
            target,
        ),
        rest_at(blocks, seek_at(blocks, at, target)).len() > 0 ==> rest_at(
            blocks,
            seek_at(blocks, at, target),
        )[0].doc_id >= target,
{
    let rest = rest_at(blocks, at);
    seek_valid(blocks, at, target);
    let to = seek_at(blocks, at, target);
    if to is Some {
        next_rest(blocks, to);
    }
    assert(rest.skip(0) =~= rest);
    match at {
        None => 0,
        Some((b, k)) => {
            assert(blocks[b].wf());
            if target <= blocks[b].docs()[k] {
                0
            } else if target <= blocks[b].last {
                let j = lower_from(blocks[b].docs(), target, k);
                lower_from_is(blocks[b].docs(), target, k);
                drops_within(blocks, b, k, j, target);
                j - k
            } else {
                seek_later_rest(blocks, b, k, target)
            }
        },
    }
}

/// Seeking past the end of a block drops the rest of it, the blocks before
/// the one found, and what stands before the target in that one.
proof fn seek_later_rest(blocks: Seq<PostingBlock>, b: int, k: int, target: u32) -> (m: int)
    requires
        list::blocks_ok(blocks),
        list::all_sound(blocks),
        valid_at(blocks, Some((b, k))),
        target > blocks[b].last,
    ensures
        drops_before(
            rest_at(blocks, Some((b, k))),
            rest_at(
                blocks,
                match list_query::seek_spec(blocks, target, b + 1) {
                    Some(c) => within(blocks, c, target),
                    None => None,
                },
            ),
            m,
            target,
        ),
{
    let n = blocks.len() as int;
    let at: Position = Some((b, k));
    let count = blocks[b].count as int;
    let docs = blocks[b].docs();
    assert(blocks[b].wf() && blocks[b].sound());
    assert forall|i: int| k <= i < count implies (#[trigger] docs[i]) < target by {
        assert(docs[docs.len() - 1] == blocks[b].last);
        if i < docs.len() - 1 {
            assert(docs[i] < docs[docs.len() - 1]);
        }
    }
    drops_within(blocks, b, k, count, target);
    assert(list::block_postings(blocks[b]).skip(count) =~= Seq::empty());
    assert(rest_at(blocks, Some((b, count))) =~= readable(blocks, b + 1));
    list_query::seek_spec_is(blocks, target, b + 1);
    match list_query::seek_spec(blocks, target, b + 1) {
        Some(c) => {
            let m = skipped_blocks(blocks, b + 1, c, target);
            drops_join(
                rest_at(blocks, at),
                readable(blocks, b + 1),
                readable(blocks, c),
                count - k,
                m,
                target,
            );
            assert(blocks[c].wf() && blocks[c].sound());
            let j = lower_from(blocks[c].docs(), target, 0);
            lower_from_is(blocks[c].docs(), target, 0);
            drops_within(blocks, c, 0, j, target);
            assert(list::block_postings(blocks[c]).skip(0) =~= list::block_postings(blocks[c]));
            drops_join(
                rest_at(blocks, at),
                readable(blocks, c),
                rest_at(blocks, Some((c, j))),
                count - k + m,
                j,
                target,
            );
            count - k + m + j
        },
        None => {
            let m = skipped_blocks(blocks, b + 1, n, target);
            drops_join(
                rest_at(blocks, at),
                readable(blocks, b + 1),
                readable(blocks, n),
                count - k,
                m,
                target,
            );
            count - k + m
        },
    }
}

/// The rest of a sound list is in document order.
pub proof fn rest_increasing(blocks: Seq<PostingBlock>, from: int, i: int, j: int)
    requires
        list::blocks_ok(blocks),
        list::all_sound(blocks),
        0 <= from,
        0 <= i < j < readable(blocks, from).len(),
    ensures
        readable(blocks, from)[i].doc_id < readable(blocks, from)[j].doc_id,
        readable(blocks, from)[j].doc_id >= blocks[from].first,
    decreases blocks.len() - from,
{
    let b = blocks[from];
    assert(b.wf() && b.sound());
    let q = list::block_postings(b);
    let r = readable(blocks, from + 1);
    let docs = b.docs();
    let all = q + r;
    if j < q.len() {
        assert(docs[i] < docs[j]);
        if j > 0 {
            assert(docs[0] < docs[j]);
        }
    } else {
        readable_from(blocks, from + 1, j - q.len());
        assert(all[j] == r[j - q.len()]);
        assert(blocks[from].last < blocks[from + 1].first);
        if i < q.len() {
            if i < docs.len() - 1 {
                assert(docs[i] < docs[docs.len() - 1]);
            }
            assert(all[i].doc_id <= b.last);
        } else {
            rest_increasing(blocks, from + 1, i - q.len(), j - q.len());
            assert(all[i] == r[i - q.len()]);
        }
    }
}

/// A readable posting is at or after the first document of its block.
pub proof fn readable_from(blocks: Seq<PostingBlock>, from: int, j: int)
    requires
        list::blocks_ok(blocks),
        list::all_sound(blocks),
        0 <= from,
        0 <= j < readable(blocks, from).len(),
    ensures
        from < blocks.len(),
        readable(blocks, from)[j].doc_id >= blocks[from].first,
    decreases blocks.len() - from,
{
    let b = blocks[from];
    assert(b.wf() && b.sound());
    let q = list::block_postings(b);
    let r = readable(blocks, from + 1);
    let docs = b.docs();
    if j < q.len() {
        if j > 0 {
            assert(docs[0] < docs[j]);
        }
    } else {
        readable_from(blocks, from + 1, j - q.len());
        assert((q + r)[j] == r[j - q.len()]);
        assert(blocks[from].last < blocks[from + 1].first);
    }
}

/// Sum of the first `n` term frequencies.
pub open spec fn prefix_sum(tfs: Seq<u32>, n: int) -> int
    decreases n,
{
    if n <= 0 {
        0
    } else {
        prefix_sum(tfs, n - 1) + tfs[n - 1]
    }
}

/// A longer prefix has no smaller sum.
pub proof fn prefix_sum_grows(tfs: Seq<u32>, i: int, j: int)
    requires
        0 <= i <= j,
    ensures
        0 <= prefix_sum(tfs, i) <= prefix_sum(tfs, j),
    decreases j,
{
    if i < j {
        prefix_sum_grows(tfs, i, j - 1);
    } else if i > 0 {
        prefix_sum_grows(tfs, i - 1, i - 1);
    }
}

/// Position after seeking the first `i` documents in turn.
pub open spec fn probe_at(blocks: Seq<PostingBlock>, at: Position, docs: Seq<u32>, i: int) -> Position
    decreases i,
{
    if i <= 0 {
        at
    } else {
        seek_at(blocks, probe_at(blocks, at, docs, i - 1), docs[i - 1])
    }
}

/// Whether probe `i` finds its document.
pub open spec fn probe_hits(blocks: Seq<PostingBlock>, at: Position, docs: Seq<u32>, i: int) -> bool {
    let to = probe_at(blocks, at, docs, i + 1);
    to is Some && doc_at(blocks, to) == docs[i]
}

/// The postings found by the first `i` probes.
pub open spec fn hits(blocks: Seq<PostingBlock>, at: Position, docs: Seq<u32>, i: int) -> Seq<Posting>
    decreases i,
{
    if i <= 0 {
        Seq::empty()
    } else if probe_hits(blocks, at, docs, i - 1) {
        hits(blocks, at, docs, i - 1).push(
            Posting {
                doc_id: docs[i - 1],
                term_freq: tf_at(blocks, probe_at(blocks, at, docs, i)),
            },
        )
    } else {
        hits(blocks, at, docs, i - 1)
    }
}

/// An exhausted cursor finds nothing more.
pub proof fn exhausted_probes(blocks: Seq<PostingBlock>, at: Position, docs: Seq<u32>, i: int, n: int)
    requires
        0 <= i <= n,
        probe_at(blocks, at, docs, i) is None,
    ensures
        probe_at(blocks, at, docs, n) is None,
        hits(blocks, at, docs, n) == hits(blocks, at, docs, i),
    decreases n - i,
{
    if i < n {
        exhausted_probes(blocks, at, docs, i, n - 1);
    }
}

/// No more hits than probes.
pub proof fn hits_len(blocks: Seq<PostingBlock>, at: Position, docs: Seq<u32>, i: int)
    requires
        0 <= i,
    ensures
        hits(blocks, at, docs, i).len() <= i,
    decreases i,
{
    if i > 0 {
        hits_len(blocks, at, docs, i - 1);
    }
}

/// Probes leave a valid position.
pub proof fn probe_valid(blocks: Seq<PostingBlock>, at: Position, docs: Seq<u32>, i: int)
    requires
        list::blocks_ok(blocks),
        valid_at(blocks, at),
        0 <= i,
    ensures
        valid_at(blocks, probe_at(blocks, at, docs, i)),
    decreases i,
{
    if i > 0 {
        probe_valid(blocks, at, docs, i - 1);
        seek_valid(blocks, probe_at(blocks, at, docs, i - 1), docs[i - 1]);
    }
}

/// The next posting has a larger document.
pub proof fn next_larger(blocks: Seq<PostingBlock>, at: Position)
    requires
        list::blocks_ok(blocks),
        valid_at(blocks, at),
        at is Some,
    ensures
        next_at(blocks, at) is Some ==> doc_at(blocks, next_at(blocks, at)) > doc_at(blocks, at),
{
    let (b, k) = at->Some_0;
    let docs = blocks[b].docs();
    assert(blocks[b].wf());
    if k + 1 < blocks[b].count {
        assert(docs[k] < docs[k + 1]);
    } else if b + 1 < blocks.len() && blocks[b + 1].sound() {
        assert(blocks[b + 1].wf());
        assert(blocks[b].last < blocks[b + 1].first);
    }
}

} // verus!
