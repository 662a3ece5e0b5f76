//! What intersections and batches of probes keep.
use crate::block::PostingBlock;
use crate::block::TERMINATED;
use crate::cursor;
use crate::cursor::Position;
use crate::gaps;
use crate::intersect;
use crate::intersect::PostingIntersection;
use crate::list;
use crate::posting;
use crate::posting::Posting;
use vstd::prelude::*;

verus! {

/// Whether a document is among postings.
pub open spec fn has_doc(s: Seq<Posting>, doc: u32) -> bool {
    exists|i: int| 0 <= i < s.len() && #[trigger] s[i].doc_id == doc
}

/// Whether `after` is a suffix of `s`.
pub open spec fn is_suffix(after: Seq<Posting>, s: Seq<Posting>) -> bool {
    exists|m: int| 0 <= m <= s.len() && after == #[trigger] s.skip(m)
}

/// Whether two cursors that moved on still have every document that they had
/// in common.
pub open spec fn keeps_common(
    left: Seq<Posting>,
    right: Seq<Posting>,
    left_after: Seq<Posting>,
    right_after: Seq<Posting>,
) -> bool {
    &&& is_suffix(left_after, left)
    &&& is_suffix(right_after, right)
    &&& forall|doc: u32|
        #![trigger has_doc(left, doc)]
        #![trigger has_doc(left_after, doc)]
        has_doc(left, doc) && has_doc(right, doc) ==> has_doc(left_after, doc) && has_doc(
            right_after,
            doc,
        )
}

/// All postings from a valid position of a sound list are at or after its
/// document.
proof fn rest_from(blocks: Seq<PostingBlock>, at: Position, i: int)
    requires
        list::blocks_ok(blocks),
        list::all_sound(blocks),
        cursor::valid_at(blocks, at),
        0 <= i < cursor::rest_at(blocks, at).len(),
    ensures
        at is Some,
        cursor::rest_at(blocks, at)[i].doc_id >= cursor::doc_at(blocks, at),
        i > 0 ==> cursor::rest_at(blocks, at)[i].doc_id > cursor::doc_at(blocks, at),
{
    let (b, k) = at->Some_0;
    assert(blocks[b].wf());
    let p = list::block_postings(blocks[b]);
    let r = cursor::readable(blocks, b + 1);
    let docs = blocks[b].docs();
    let all = p.skip(k) + r;
    if i < p.len() - k {
        assert(all[i] == p[k + i]);
        if i > 0 {
            assert(docs[k] < docs[k + i]);
        }
    } else {
        let j = i - (p.len() - k);
        assert(all[i] == r[j]);
        cursor::readable_from(blocks, b + 1, j);
        assert(blocks[b].last < blocks[b + 1].first);
        if k < docs.len() - 1 {
            assert(docs[k] < docs[docs.len() - 1]);
        }
    }
}

/// Dropping postings before a target that the other cursor has reached loses
/// no common document.
proof fn drop_keeps_common(
    left: Seq<Posting>,
    after: Seq<Posting>,
    m: int,
    target: u32,
    right: Seq<Posting>,
)
    requires
        cursor::drops_before(left, after, m, target),
        forall|i: int| 0 <= i < right.len() ==> (#[trigger] right[i]).doc_id >= target,
    ensures
        keeps_common(left, right, after, right),
        keeps_common(right, left, right, after),
{
    assert(right.skip(0) =~= right);
    assert(is_suffix(right, right));
    assert(is_suffix(after, left));
    assert forall|doc: u32| has_doc(left, doc) && has_doc(right, doc) implies has_doc(
        after,
        doc,
    ) by {
        let i = choose|i: int| 0 <= i < left.len() && #[trigger] left[i].doc_id == doc;
        let j = choose|j: int| 0 <= j < right.len() && #[trigger] right[j].doc_id == doc;
        assert(right[j].doc_id >= target);
        assert(i >= m);
        assert(after[i - m].doc_id == doc);
    }
}

/// Keeping what is common, twice.
proof fn keeps_common_joins(
    l0: Seq<Posting>,
    r0: Seq<Posting>,
    l1: Seq<Posting>,
    r1: Seq<Posting>,
    l2: Seq<Posting>,
    r2: Seq<Posting>,
)
    requires
        keeps_common(l0, r0, l1, r1),
        keeps_common(l1, r1, l2, r2),
    ensures
        keeps_common(l0, r0, l2, r2),
{
    suffix_joins(l0, l1, l2);
    suffix_joins(r0, r1, r2);
    assert forall|doc: u32| has_doc(l0, doc) && has_doc(r0, doc) implies has_doc(l2, doc)
        && has_doc(r2, doc) by {
        assert(has_doc(l1, doc) && has_doc(r1, doc));
    }
}

proof fn suffix_joins(a: Seq<Posting>, b: Seq<Posting>, c: Seq<Posting>)
    requires
        is_suffix(b, a),
        is_suffix(c, b),
    ensures
        is_suffix(c, a),
{
    let m = choose|m: int| 0 <= m <= a.len() && b == #[trigger] a.skip(m);
    let n = choose|n: int| 0 <= n <= b.len() && c == #[trigger] b.skip(n);
    assert(a.skip(m + n) =~= a.skip(m).skip(n));
}

/// Moving one of two cursors to where the other has come loses nothing, and
/// shortens what is ahead if it was behind.
proof fn seek_keeps(bs: Seq<PostingBlock>, at: Position, os: Seq<PostingBlock>, other: Position)
    requires
        list::blocks_ok(bs),
        list::all_sound(bs),
        cursor::valid_at(bs, at),
        at is Some,
        list::blocks_ok(os),
        list::all_sound(os),
        cursor::valid_at(os, other),
    ensures
        ({
            let target = cursor::doc_at(os, other);
            let here = cursor::rest_at(bs, at);
            let there = cursor::rest_at(os, other);
            let after = cursor::rest_at(bs, cursor::seek_at(bs, at, target));
            &&& keeps_common(here, there, after, there)
            &&& keeps_common(there, here, there, after)
            &&& after.len() <= here.len()
            &&& cursor::doc_at(bs, at) < target ==> after.len() < here.len()
        }),
{
    let target = cursor::doc_at(os, other);
    let here = cursor::rest_at(bs, at);
    let there = cursor::rest_at(os, other);
    let after = cursor::rest_at(bs, cursor::seek_at(bs, at, target));
    let m = cursor::seek_rest(bs, at, target);
    assert forall|i: int| 0 <= i < there.len() implies (#[trigger] there[i]).doc_id >= target by {
        rest_from(os, other, i);
    }
    drop_keeps_common(here, after, m, target, there);
    cursor::next_rest(bs, at);
    if cursor::doc_at(bs, at) < target && m == 0 {
        assert(here.skip(0) =~= here);
        assert(after[0].doc_id >= target);
    }
}

/// A cursor whose block ends before a target is behind it.
proof fn left_behind(bs: Seq<PostingBlock>, at: Position, target: u32)
    requires
        list::blocks_ok(bs),
        cursor::valid_at(bs, at),
        at is Some,
        bs[at->Some_0.0].last < target,
    ensures
        cursor::doc_at(bs, at) < target,
{
    let (b, k) = at->Some_0;
    let docs = bs[b].docs();
    assert(bs[b].wf());
    assert(docs[docs.len() - 1] == bs[b].last);
    if k < docs.len() - 1 {
        assert(docs[k] < docs[docs.len() - 1]);
    }
}

/// A posting ahead is in the current block, or past its last document.
proof fn rest_doc(blocks: Seq<PostingBlock>, b: int, k: int, x: int)
    requires
        list::blocks_ok(blocks),
        list::all_sound(blocks),
        cursor::valid_at(blocks, Some((b, k))),
        0 <= x < cursor::rest_at(blocks, Some((b, k))).len(),
    ensures
        ({
            let doc = cursor::rest_at(blocks, Some((b, k)))[x].doc_id;
            let docs = blocks[b].docs();
            if x < docs.len() - k {
                doc == docs[k + x] && doc <= docs[docs.len() - 1]
            } else {
                doc > docs[docs.len() - 1]
            }
        }),
{
    assert(blocks[b].wf());
    let docs = blocks[b].docs();
    let p = list::block_postings(blocks[b]);
    let r = cursor::readable(blocks, b + 1);
    let all = p.skip(k) + r;
    if x < docs.len() - k {
        assert(all[x] == p[k + x]);
        if k + x < docs.len() - 1 {
            assert(docs[k + x] < docs[docs.len() - 1]);
        }
    } else {
        let y = x - (docs.len() - k);
        assert(all[x] == r[y]);
        cursor::readable_from(blocks, b + 1, y);
        assert(blocks[b].last < blocks[b + 1].first);
    }
}

/// Dropping postings of which neither list has the other's loses no common
/// document.
proof fn drop_both_keeps(left: Seq<Posting>, m: int, right: Seq<Posting>, n: int)
    requires
        0 <= m <= left.len(),
        0 <= n <= right.len(),
        forall|x: int, y: int|
            0 <= x < left.len() && 0 <= y < right.len() && (x < m || y < n) ==> (
            #[trigger] left[x]).doc_id != (#[trigger] right[y]).doc_id,
    ensures
        keeps_common(left, right, left.skip(m), right.skip(n)),
{
    let l = left.skip(m);
    let r = right.skip(n);
    assert(is_suffix(l, left));
    assert(is_suffix(r, right));
    assert forall|doc: u32| has_doc(left, doc) && has_doc(right, doc) implies has_doc(l, doc)
        && has_doc(r, doc) by {
        let x = choose|x: int| 0 <= x < left.len() && #[trigger] left[x].doc_id == doc;
        let y = choose|y: int| 0 <= y < right.len() && #[trigger] right[y].doc_id == doc;
        assert(l[x - m].doc_id == doc);
        assert(r[y - n].doc_id == doc);
    }
}

/// Comparing two blocks loses no common document.
proof fn compared_keeps(
    left: Seq<PostingBlock>,
    at: (int, int),
    right: Seq<PostingBlock>,
    other_at: (int, int),
    r: Option<u32>,
    to: Position,
    other_to: Position,
)
    requires
        list::blocks_ok(left),
        list::all_sound(left),
        list::blocks_ok(right),
        list::all_sound(right),
        cursor::valid_at(left, Some(at)),
        cursor::valid_at(right, Some(other_at)),
        cursor::doc_at(left, Some(at)) <= right[other_at.0].last,
        intersect::compared(left, at, right, other_at, r, to, other_to),
    ensures
        cursor::valid_at(left, to),
        cursor::valid_at(right, other_to),
        keeps_common(
            cursor::rest_at(left, Some(at)),
            cursor::rest_at(right, Some(other_at)),
            cursor::rest_at(left, to),
            cursor::rest_at(right, other_to),
        ),
        r matches Some(doc) ==> {
            &&& to is Some
            &&& other_to is Some
            &&& doc == cursor::doc_at(left, to)
            &&& doc == cursor::doc_at(right, other_to)
        },
        r is None ==> cursor::rest_at(left, to).len() + cursor::rest_at(right, other_to).len()
            < cursor::rest_at(left, Some(at)).len() + cursor::rest_at(right, Some(other_at)).len(),
{
    let (lb, i) = at;
    let (rb, j) = other_at;
    assert(left[lb].wf());
    assert(right[rb].wf());
    let l = left[lb].docs();
    let s = right[rb].docs();
    let (a, b) = match r {
        Some(doc) => choose|a: int, b: int|
            {
                &&& #[trigger] intersect::common(l, s, i, j, a, b)
                &&& doc == l[a]
                &&& to == Some((lb, a))
                &&& other_to == Some((rb, b))
                &&& forall|c: int, d: int| #[trigger]
                    intersect::common(l, s, i, j, c, d) ==> a <= c && b <= d
            },
        None => (intersect::past(l, s, i), intersect::past(s, l, j)),
    };
    cursor::lower_from_is(l, (s[s.len() - 1] + 1) as u32, i);
    cursor::lower_from_is(s, (l[l.len() - 1] + 1) as u32, j);
    cursor::block_rest(left, lb, i, a);
    cursor::block_rest(right, rb, j, b);
    let here = cursor::rest_at(left, Some(at));
    let there = cursor::rest_at(right, Some(other_at));
    assert forall|x: int, y: int|
        0 <= x < here.len() && 0 <= y < there.len() && (x < a - i || y < b - j) implies (
    #[trigger] here[x]).doc_id != (#[trigger] there[y]).doc_id by {
        rest_doc(left, lb, i, x);
        rest_doc(right, rb, j, y);
        if x < a - i {
            assert(l[i + x] <= s[s.len() - 1]) by {
                if r is Some {
                    assert(l[i + x] < l[a]);
                    if b < s.len() - 1 {
                        assert(s[b] < s[s.len() - 1]);
                    }
                }
            }
        }
        if y < b - j {
            assert(s[j + y] <= l[l.len() - 1]) by {
                if r is Some {
                    assert(s[j + y] < s[b]);
                    if a < l.len() - 1 {
                        assert(l[a] < l[l.len() - 1]);
                    }
                }
            }
        }
        if here[x].doc_id == there[y].doc_id {
            assert(intersect::common(l, s, i, j, i + x, j + y));
        }
    }
    drop_both_keeps(here, a - i, there, b - j);
}

/// A step of an intersection over sound lists loses no document that the two
/// cursors have in common. Where it finds one both stand on it; where it does
/// not, it has moved on; and it says the end just where a cursor has ended.
pub proof fn step_keeps_common(
    scratch: PostingIntersection,
    left: Seq<PostingBlock>,
    at: Position,
    right: Seq<PostingBlock>,
    other_at: Position,
    r: Option<u32>,
    to: Position,
    other_to: Position,
)
    requires
        list::blocks_ok(left),
        list::all_sound(left),
        list::blocks_ok(right),
        list::all_sound(right),
        cursor::valid_at(left, at),
        cursor::valid_at(right, other_at),
        scratch.steps(left, at, right, other_at, r, to, other_to),
    ensures
        cursor::valid_at(left, to),
        cursor::valid_at(right, other_to),
        keeps_common(
            cursor::rest_at(left, at),
            cursor::rest_at(right, other_at),
            cursor::rest_at(left, to),
            cursor::rest_at(right, other_to),
        ),
        r == Some(TERMINATED) <==> at is None || other_at is None,
        r matches Some(doc) ==> doc == TERMINATED || {
            &&& to is Some
            &&& other_to is Some
            &&& doc == cursor::doc_at(left, to)
            &&& doc == cursor::doc_at(right, other_to)
        },
        r is None ==> cursor::rest_at(left, to).len() + cursor::rest_at(right, other_to).len()
            < cursor::rest_at(left, at).len() + cursor::rest_at(right, other_at).len(),
{
    let here = cursor::rest_at(left, at);
    let there = cursor::rest_at(right, other_at);
    assert(here.skip(0) =~= here);
    assert(there.skip(0) =~= there);
    assert(is_suffix(here, here));
    assert(is_suffix(there, there));
    if let (Some((lb, i)), Some((rb, j))) = (at, other_at) {
        let x = cursor::doc_at(left, at);
        let y = cursor::doc_at(right, other_at);
        before_end(left, at);
        before_end(right, other_at);
        cursor::seek_valid(left, at, y);
        cursor::seek_valid(right, other_at, x);
        if x == y {
        } else if scratch.seek_driven {
            if scratch.left_is_rare {
                aligned_keeps(left, at, right, other_at, r, to, other_to);
            } else {
                aligned_keeps(right, other_at, left, at, r, other_to, to);
            }
            before_end(left, to);
        } else if left[lb].last < y {
            seek_keeps(left, at, right, other_at);
            left_behind(left, at, y);
        } else if right[rb].last < x {
            seek_keeps(right, other_at, left, at);
            left_behind(right, other_at, x);
        } else {
            compared_keeps(left, (lb, i), right, (rb, j), r, to, other_to);
            before_end(left, to);
        }
    }
}

/// A document at a position is before the end marker.
proof fn before_end(blocks: Seq<PostingBlock>, at: Position)
    requires
        list::blocks_ok(blocks),
        cursor::valid_at(blocks, at),
    ensures
        at is Some ==> cursor::doc_at(blocks, at) < TERMINATED,
{
    if let Some((b, k)) = at {
        assert(blocks[b].wf());
        let docs = blocks[b].docs();
        if k < docs.len() - 1 {
            assert(docs[k] < docs[docs.len() - 1]);
        }
    }
}

/// Seeking one cursor to the other and back loses no common document.
proof fn aligned_keeps(
    lead: Seq<PostingBlock>,
    at: Position,
    other: Seq<PostingBlock>,
    other_at: Position,
    r: Option<u32>,
    to: Position,
    other_to: Position,
)
    requires
        list::blocks_ok(lead),
        list::all_sound(lead),
        list::blocks_ok(other),
        list::all_sound(other),
        cursor::valid_at(lead, at),
        cursor::valid_at(other, other_at),
        at is Some,
        other_at is Some,
        cursor::doc_at(lead, at) != cursor::doc_at(other, other_at),
        intersect::aligned(lead, at, other, other_at, r, to, other_to),
    ensures
        cursor::valid_at(lead, to),
        cursor::valid_at(other, other_to),
        ({
            let l = cursor::rest_at(lead, at);
            let o = cursor::rest_at(other, other_at);
            let l2 = cursor::rest_at(lead, to);
            let o2 = cursor::rest_at(other, other_to);
            &&& keeps_common(l, o, l2, o2)
            &&& keeps_common(o, l, o2, l2)
            &&& r is None ==> l2.len() + o2.len() < l.len() + o.len()
        }),
        r matches Some(doc) ==> {
            &&& to is Some
            &&& other_to is Some
            &&& doc == cursor::doc_at(lead, to)
            &&& doc == cursor::doc_at(other, other_to)
        },
{
    let candidate = cursor::doc_at(lead, at);
    let found = cursor::doc_at(other, other_to);
    let l = cursor::rest_at(lead, at);
    let o = cursor::rest_at(other, other_at);
    let o2 = cursor::rest_at(other, other_to);
    before_end(lead, at);
    cursor::seek_valid(other, other_at, candidate);
    seek_keeps(other, other_at, lead, at);
    if found != candidate {
        cursor::seek_valid(lead, at, found);
        seek_keeps(lead, at, other, other_to);
        let l2 = cursor::rest_at(lead, to);
        keeps_common_joins(l, o, l, o2, l2, o2);
        keeps_common_joins(o, l, o2, l, o2, l2);
    }
}

/// When an intersection parks two cursors on a document, it is the first that
/// the lists ahead had in common.
pub proof fn first_common(
    left: Seq<PostingBlock>,
    left_from: Position,
    left_to: Position,
    right: Seq<PostingBlock>,
    right_from: Position,
    right_to: Position,
    doc: u32,
)
    requires
        list::blocks_ok(left),
        list::all_sound(left),
        list::blocks_ok(right),
        list::all_sound(right),
        cursor::valid_at(left, left_to),
        cursor::valid_at(right, right_to),
        left_to is Some,
        right_to is Some,
        cursor::doc_at(left, left_to) == cursor::doc_at(right, right_to),
        keeps_common(
            cursor::rest_at(left, left_from),
            cursor::rest_at(right, right_from),
            cursor::rest_at(left, left_to),
            cursor::rest_at(right, right_to),
        ),
        has_doc(cursor::rest_at(left, left_from), doc),
        has_doc(cursor::rest_at(right, right_from), doc),
    ensures
        doc >= cursor::doc_at(left, left_to),
{
    let l = cursor::rest_at(left, left_to);
    assert(has_doc(l, doc));
    let i = choose|i: int| 0 <= i < l.len() && #[trigger] l[i].doc_id == doc;
    rest_from(left, left_to, i);
}

/// A batch of probes in order finds just the documents that the list ahead
/// holds.
pub proof fn probes_find_members(
    blocks: Seq<PostingBlock>,
    at: Position,
    docs: Seq<u32>,
    i: int,
)
    requires
        list::blocks_ok(blocks),
        list::all_sound(blocks),
        cursor::valid_at(blocks, at),
        gaps::ascending(docs),
        0 <= i < docs.len(),
    ensures
        cursor::probe_hits(blocks, at, docs, i) <==> has_doc(cursor::rest_at(blocks, at), docs[i]),
{
    let all = cursor::rest_at(blocks, at);
    let m = probe_drops(blocks, at, docs, i);
    let here = cursor::probe_at(blocks, at, docs, i);
    cursor::probe_valid(blocks, at, docs, i);
    let n = cursor::seek_rest(blocks, here, docs[i]);
    let to = cursor::probe_at(blocks, at, docs, i + 1);
    cursor::probe_valid(blocks, at, docs, i + 1);
    let after = cursor::rest_at(blocks, to);
    cursor::drops_join(all, cursor::rest_at(blocks, here), after, m, n, docs[i]);
    head_decides(blocks, to, all, m + n, docs[i]);
}

/// Where all before a target is dropped, the head tells whether the target
/// was there.
proof fn head_decides(
    blocks: Seq<PostingBlock>,
    to: Position,
    all: Seq<Posting>,
    m: int,
    target: u32,
)
    requires
        list::blocks_ok(blocks),
        list::all_sound(blocks),
        cursor::valid_at(blocks, to),
        cursor::drops_before(all, cursor::rest_at(blocks, to), m, target),
        cursor::rest_at(blocks, to).len() > 0 ==> cursor::rest_at(blocks, to)[0].doc_id >= target,
    ensures
        to is Some && cursor::doc_at(blocks, to) == target <==> has_doc(all, target),
{
    let after = cursor::rest_at(blocks, to);
    if to is Some {
        cursor::next_rest(blocks, to);
        assert(all[m] == after[0]);
    }
    if has_doc(all, target) {
        let k = choose|k: int| 0 <= k < all.len() && #[trigger] all[k].doc_id == target;
        assert(k >= m);
        assert(after[k - m] == all[k]);
        rest_from(blocks, to, k - m);
    }
}

/// Probes in order have dropped nothing that a later one looks for.
proof fn probe_drops(blocks: Seq<PostingBlock>, at: Position, docs: Seq<u32>, i: int) -> (m: int)
    requires
        list::blocks_ok(blocks),
        list::all_sound(blocks),
        cursor::valid_at(blocks, at),
        gaps::ascending(docs),
        0 <= i < docs.len(),
    ensures
        cursor::drops_before(
            cursor::rest_at(blocks, at),
            cursor::rest_at(blocks, cursor::probe_at(blocks, at, docs, i)),
            m,
            docs[i],
        ),
    decreases i,
{
    let all = cursor::rest_at(blocks, at);
    if i == 0 {
        assert(all.skip(0) =~= all);
        0
    } else {
        let m = probe_drops(blocks, at, docs, i - 1);
        let here = cursor::probe_at(blocks, at, docs, i - 1);
        cursor::probe_valid(blocks, at, docs, i - 1);
        let n = cursor::seek_rest(blocks, here, docs[i - 1]);
        assert(docs[i - 1] <= docs[i]);
        let rest = cursor::rest_at(blocks, here);
        cursor::drops_join(
            all,
            rest,
            cursor::rest_at(blocks, cursor::probe_at(blocks, at, docs, i)),
            m,
            n,
            docs[i - 1],
        );
        m + n
    }
}

/// Of candidates in order, a batch of probes of a sound list keeps exactly
/// those that the list ahead holds, in their order and as often as they come,
/// and each under a posting of the list.
pub proof fn batch_keeps_members(blocks: Seq<PostingBlock>, at: Position, docs: Seq<u32>)
    requires
        list::blocks_ok(blocks),
        list::all_sound(blocks),
        cursor::valid_at(blocks, at),
        gaps::ascending(docs),
    ensures
        ({
            let ahead = cursor::rest_at(blocks, at);
            let found = cursor::hits(blocks, at, docs, docs.len() as int);
            &&& posting::doc_ids(found) == docs.filter(|doc: u32| has_doc(ahead, doc))
            &&& forall|k: int| 0 <= k < found.len() ==> ahead.contains(#[trigger] found[k])
        }),
{
    hits_are_members(blocks, at, docs, docs.len() as int);
    assert(docs.take(docs.len() as int) =~= docs);
}

/// The first `n` probes keep the members among the first `n` candidates.
proof fn hits_are_members(blocks: Seq<PostingBlock>, at: Position, docs: Seq<u32>, n: int)
    requires
        list::blocks_ok(blocks),
        list::all_sound(blocks),
        cursor::valid_at(blocks, at),
        gaps::ascending(docs),
        0 <= n <= docs.len(),
    ensures
        ({
            let ahead = cursor::rest_at(blocks, at);
            let found = cursor::hits(blocks, at, docs, n);
            &&& posting::doc_ids(found) == docs.take(n).filter(|doc: u32| has_doc(ahead, doc))
            &&& forall|k: int| 0 <= k < found.len() ==> ahead.contains(#[trigger] found[k])
        }),
    decreases n,
{
    reveal(Seq::filter);
    let ahead = cursor::rest_at(blocks, at);
    let p = |doc: u32| has_doc(ahead, doc);
    let found = cursor::hits(blocks, at, docs, n);
    if n == 0 {
        assert(docs.take(0).filter(p) =~= Seq::empty());
        assert(posting::doc_ids(found) =~= Seq::empty());
    } else {
        hits_are_members(blocks, at, docs, n - 1);
        probes_find_members(blocks, at, docs, n - 1);
        let before = cursor::hits(blocks, at, docs, n - 1);
        assert(docs.take(n).drop_last() =~= docs.take(n - 1));
        if cursor::probe_hits(blocks, at, docs, n - 1) {
            assert(posting::doc_ids(found) =~= posting::doc_ids(before).push(docs[n - 1]));
            hit_is_ahead(blocks, at, docs, n - 1);
            assert forall|k: int| 0 <= k < found.len() implies ahead.contains(
                #[trigger] found[k],
            ) by {
                if k < before.len() {
                    assert(found[k] == before[k]);
                }
            }
        }
    }
}

/// A probe that hits stands on a posting of the list ahead.
proof fn hit_is_ahead(blocks: Seq<PostingBlock>, at: Position, docs: Seq<u32>, i: int)
    requires
        list::blocks_ok(blocks),
        list::all_sound(blocks),
        cursor::valid_at(blocks, at),
        gaps::ascending(docs),
        0 <= i < docs.len(),
        cursor::probe_hits(blocks, at, docs, i),
    ensures
        cursor::rest_at(blocks, at).contains(
            Posting {
                doc_id: docs[i],
                term_freq: cursor::tf_at(blocks, cursor::probe_at(blocks, at, docs, i + 1)),
            },
        ),
{
    let all = cursor::rest_at(blocks, at);
    let m = probe_drops(blocks, at, docs, i);
    let here = cursor::probe_at(blocks, at, docs, i);
    cursor::probe_valid(blocks, at, docs, i);
    let n = cursor::seek_rest(blocks, here, docs[i]);
    let to = cursor::probe_at(blocks, at, docs, i + 1);
    cursor::probe_valid(blocks, at, docs, i + 1);
    let after = cursor::rest_at(blocks, to);
    cursor::drops_join(all, cursor::rest_at(blocks, here), after, m, n, docs[i]);
    cursor::next_rest(blocks, to);
    assert(all[m + n] == after[0]);
}

} // verus!
