//! What lists built from postings promise: they are read back from where they
//! are stored, searches find the first document that qualifies, and their
//! largest frequency is that of the postings.
use crate::block;
use crate::bp128::BP128Block;
use crate::bp128_list;
use crate::bp128_list::BP128Iterator;
use crate::bp128_list::BP128PostingList;
use crate::bp128_store;
use crate::container::Container;
use crate::cursor;
use crate::encode;
use crate::error::ReadError;
use crate::format::CompressedPostingIterator;
use crate::format::CompressedPostingList;
use crate::posting;
use crate::roaring;
use crate::roaring_laws;
use crate::roaring_list::RoaringPostingIterator;
use crate::roaring_list::RoaringPostingList;
use crate::roaring_list_store;
use vstd::prelude::*;

verus! {

/// Blocks that are read from the same place hold the same.
proof fn same_packed_block<const VERTICAL: bool>(
    x: BP128Block<VERTICAL>,
    y: BP128Block<VERTICAL>,
    b: Seq<u8>,
    at: int,
)
    requires
        x.is_at(b, at),
        y.is_at(b, at),
    ensures
        x.docs() == y.docs(),
        x.tfs() == y.tfs(),
        x.postings() == y.postings(),
        x.shape_ok() == y.shape_ok(),
        x.storable() == y.storable(),
        x.first_doc_id == y.first_doc_id && x.last_doc_id == y.last_doc_id && x.num_docs
            == y.num_docs && x.doc_bit_width == y.doc_bit_width && x.tf_bit_width == y.tf_bit_width
            && x.max_tf == y.max_tf && x.max_block_score == y.max_block_score,
        x.doc_data@ == y.doc_data@ && x.tf_data@ == y.tf_data@,
{
    assert(x.docs() =~= y.docs());
    assert(x.tfs() =~= y.tfs());
    assert(x.postings() =~= y.postings());
}

proof fn same_top<const VERTICAL: bool>(
    a: Seq<BP128Block<VERTICAL>>,
    b: Seq<BP128Block<VERTICAL>>,
    n: int,
)
    requires
        0 <= n <= a.len(),
        n <= b.len(),
        forall|i: int| 0 <= i < n ==> (#[trigger] a[i]).max_block_score == b[i].max_block_score,
    ensures
        bp128_list::top_score(a, 0, n) == bp128_list::top_score(b, 0, n),
    decreases n,
{
    if n > 0 {
        same_top(a, b, n - 1);
    }
}

/// A packed list built from postings is read back, whatever follows it, as a
/// list that is built from them.
pub proof fn built_packed_reads_back<const VERTICAL: bool, F: Fn(u32) -> u32>(
    l: BP128PostingList<VERTICAL>,
    docs: Seq<u32>,
    tfs: Seq<u32>,
    score: F,
    after: Seq<u8>,
    q: BP128PostingList<VERTICAL>,
)
    requires
        l.is_built(docs, tfs, score),
        l.storable(),
        q.is_at_start(l.stored() + after),
    ensures
        ({
            let b = l.stored() + after;
            bp128_store::blocks_end(b, crate::bytes::u32_at(b, 8) as int) == Some(
                l.stored().len() as int,
            )
        }),
        (l.stored() + after).len() >= 12,
        q.is_built(docs, tfs, score),
        q.storable(),
{
    let b = l.stored() + after;
    bp128_store::list_roundtrip(l, after);
    let n = l.blocks@.len() as int;
    assert forall|i: int| 0 <= i < n implies {
        let x = #[trigger] q.blocks@[i];
        let y = l.blocks@[i];
        &&& x.docs() == y.docs()
        &&& x.tfs() == y.tfs()
        &&& x.postings() == y.postings()
        &&& x.shape_ok()
        &&& x.storable()
        &&& x.max_block_score == y.max_block_score
        &&& x.first_doc_id == y.first_doc_id
        &&& x.last_doc_id == y.last_doc_id
        &&& bp128_list::is_built_block(x, docs, tfs, score, i)
    } by {
        let at = bp128_store::blocks_end(b, i)->Some_0;
        assert(l.blocks@[i].is_at(b, at));
        assert(q.blocks@[i].is_at(b, at));
        assert(l.blocks@[i].shape_ok() && l.blocks@[i].storable());
        assert(bp128_list::is_built_block(l.blocks@[i], docs, tfs, score, i));
        same_packed_block(q.blocks@[i], l.blocks@[i], b, at);
    }
    assert(bp128_list::runs(q.blocks@) =~= bp128_list::runs(l.blocks@));
    same_top(q.blocks@, l.blocks@, n);
    assert(bp128_list::ordered(q.blocks@)) by {
        assert forall|i: int| 0 <= i < n implies block::increasing((#[trigger] q.blocks@[i]).docs())
            && q.blocks@[i].docs()[0] == q.blocks@[i].first_doc_id && q.blocks@[i].docs().last()
            == q.blocks@[i].last_doc_id by {
            assert(block::increasing(l.blocks@[i].docs()));
        }
    }
}

/// Chunks that are read from the same place hold the same, in the same form.
proof fn same_container(x: Container, y: Container, b: Seq<u8>, at: int)
    requires
        x.is_at(b, at),
        y.is_at(b, at),
    ensures
        x.values() == y.values(),
        x.wf() == y.wf(),
        x.storable() == y.storable(),
        x is Array == y is Array && x is Bitmap == y is Bitmap && x is Runs == y is Runs,
        x is Runs ==> x->Runs_0@ == y->Runs_0@,
{
    match (x, y) {
        (Container::Array(a), Container::Array(c)) => {
            assert(a@ =~= c@);
        },
        (Container::Bitmap(a), Container::Bitmap(c)) => {
            assert(a@ =~= c@);
        },
        (Container::Runs(a), Container::Runs(c)) => {
            assert(a@ =~= c@);
        },
        _ => {},
    }
}

proof fn same_all(a: Seq<(u16, Container)>, b: Seq<(u16, Container)>, n: int)
    requires
        a.len() == b.len(),
        0 <= n <= a.len(),
        forall|i: int|
            0 <= i < a.len() ==> (#[trigger] a[i]).0 == b[i].0 && a[i].1.values()
                == b[i].1.values(),
    ensures
        roaring::all_from(a, n) == roaring::all_from(b, n),
    decreases a.len() - n,
{
    if n < a.len() {
        same_all(a, b, n + 1);
        assert(a[n].0 == b[n].0);
        assert(roaring::chunk(a[n]) =~= roaring::chunk(b[n]));
    }
}

/// A list with a set of documents built from postings is read back, whatever
/// follows it, as a list that is built from them.
pub proof fn built_set_reads_back<F: Fn(u32) -> u32>(
    l: RoaringPostingList,
    docs: Seq<u32>,
    tfs: Seq<u32>,
    score: F,
    after: Seq<u8>,
    q: RoaringPostingList,
)
    requires
        l.is_built(docs, tfs, score),
        l.storable(),
        q.is_at_start(l.stored() + after),
    ensures
        roaring_list_store::list_ends(l.stored() + after) is Ok,
        roaring_list_store::list_ends(l.stored() + after)->Ok_0.2 == l.stored().len(),
        q.is_built(docs, tfs, score),
        q.storable(),
{
    let b = l.stored() + after;
    roaring_list_store::roaring_list_roundtrip(l, after);
    let x = q.doc_ids.containers@;
    let y = l.doc_ids.containers@;
    assert forall|i: int| 0 <= i < x.len() implies {
        &&& (#[trigger] x[i]).0 == y[i].0
        &&& x[i].1.values() == y[i].1.values()
        &&& x[i].1.wf()
        &&& x[i].1.values().len() > 0
        &&& x[i].1.storable()
        &&& crate::container_ops::is_optimal(x[i].1, x[i].1.values())
    } by {
        let at = crate::roaring_store::chunks_end(b, 0, i)->Ok_0 + 2;
        assert(y[i].1.wf() && y[i].1.storable() && y[i].1.values().len() > 0);
        assert(crate::container_ops::is_optimal(y[i].1, y[i].1.values()));
        assert(x[i].1.is_at(b, at));
        assert(y[i].1.is_at(b, at));
        same_container(x[i].1, y[i].1, b, at);
    }
    assert forall|i: int, j: int| 0 <= i < j < x.len() implies (#[trigger] x[i]).0 < (
    #[trigger] x[j]).0 by {
        assert(y[i].0 < y[j].0);
    }
    same_all(x, y, 0);
    assert(q.term_freqs@ =~= l.term_freqs@);
    assert(q.blocks@ =~= l.blocks@);
    assert forall|i: int| 0 <= i < docs.len() implies q.tf_of(#[trigger] docs[i]) == tfs[i] by {
        assert(l.tf_of(docs[i]) == tfs[i]);
    }
}

/// A compressed list built from postings is read back, whatever follows it, as
/// a list of the same format that is built from them, of the size that it
/// takes.
pub proof fn built_reads_back<F: Fn(u32) -> u32>(
    l: CompressedPostingList,
    docs: Seq<u32>,
    tfs: Seq<u32>,
    score: F,
    after: Seq<u8>,
    r: Result<(CompressedPostingList, usize), ReadError>,
)
    requires
        l.is_built(docs, tfs, score),
        l.storable(),
        CompressedPostingList::is_read(l.stored() + after, r),
    ensures
        r matches Ok((q, n)) && n == l.stored().len() && q.kind() == l.kind() && q.is_built(
            docs,
            tfs,
            score,
        ) && q.storable(),
{
    let b = l.stored() + after;
    match l {
        CompressedPostingList::VerticalBP128(p) => {
            assert(b.skip(1) =~= p.stored() + after);
            bp128_store::list_roundtrip(p, after);
            if let Ok((CompressedPostingList::VerticalBP128(q), _)) = r {
                built_packed_reads_back(p, docs, tfs, score, after, q);
            }
        },
        CompressedPostingList::Roaring(p) => {
            assert(b.skip(1) =~= p.stored() + after);
            roaring_list_store::roaring_list_roundtrip(p, after);
            if let Ok((CompressedPostingList::Roaring(q), _)) = r {
                built_set_reads_back(p, docs, tfs, score, after, q);
            }
        },
    }
}

/// The documents from a cursor on.
pub open spec fn pending(it: CompressedPostingIterator<'_>) -> Seq<u32> {
    match it {
        CompressedPostingIterator::VerticalBP128(i) => posting::doc_ids(i.rest()),
        CompressedPostingIterator::Roaring(i) => i.pending(),
    }
}

/// Whether the directory of a list is right for what is ahead of a cursor.
pub open spec fn in_step(it: CompressedPostingIterator<'_>) -> bool {
    &&& it.wf()
    &&& match it {
        CompressedPostingIterator::VerticalBP128(i) => bp128_list::ordered(i.blocks()),
        CompressedPostingIterator::Roaring(i) => {
            &&& roaring_laws::hold(i.list.blocks@, i.current_block as int, i.pending())
            &&& block::increasing(i.pending())
        },
    }
}

/// A cursor on the first posting of a built list has all its documents ahead,
/// and the directory is right for them.
pub proof fn built_list_starts<F: Fn(u32) -> u32>(
    l: CompressedPostingList,
    docs: Seq<u32>,
    tfs: Seq<u32>,
    score: F,
    it: CompressedPostingIterator<'_>,
)
    requires
        block::increasing(docs),
        l.is_built(docs, tfs, score),
        it.is_start(l),
    ensures
        in_step(it),
        pending(it) == docs,
{
    match l {
        CompressedPostingList::VerticalBP128(p) => {
            assert(posting::doc_ids(p.postings()) =~= docs);
        },
        CompressedPostingList::Roaring(p) => {
            roaring_laws::built_entries_hold(p.blocks@, docs, tfs, score);
        },
    }
}

/// A search passes over just the documents before the target: it leads to the
/// first one ahead that is at or after it.
pub proof fn compressed_seek_finds(
    it: CompressedPostingIterator<'_>,
    to: CompressedPostingIterator<'_>,
    target: u32,
) -> (m: int)
    requires
        in_step(it),
        to.is_sought(it, target),
    ensures
        in_step(to),
        0 <= m <= pending(it).len(),
        pending(to) == pending(it).skip(m),
        forall|i: int| 0 <= i < m ==> (#[trigger] pending(it)[i]) < target,
        pending(to).len() > 0 ==> pending(to)[0] >= target && to.current() == pending(to)[0],
        pending(to).len() == 0 ==> to.current() == u32::MAX,
{
    match (it, to) {
        (
            CompressedPostingIterator::VerticalBP128(a),
            CompressedPostingIterator::VerticalBP128(b),
        ) => {
            a.facts();
            b.facts();
            let m = bp128_list::seek_rest(a.blocks(), a.at(), target);
            assert(pending(to) =~= pending(it).skip(m));
            assert forall|i: int| 0 <= i < m implies (#[trigger] pending(it)[i]) < target by {
                assert(a.rest()[i].doc_id < target);
            }
            if b.at() is Some {
                bp128_list::next_rest(b.runs(), b.at());
            }
            m
        },
        (CompressedPostingIterator::Roaring(a), CompressedPostingIterator::Roaring(b)) => {
            if a.list.blocks@.len() > 0 {
                roaring_laws::roaring_seek_finds(a, b, target)
            } else {
                if a.pending().len() > 0 {
                    assert(roaring_laws::bounded(
                        a.list.blocks@,
                        a.current_block as int,
                        a.pending()[0],
                    ));
                }
                assert(b.pending() =~= a.pending().skip(0));
                0
            }
        },
        _ => 0,
    }
}

/// A step passes over one document.
pub proof fn compressed_step_follows(
    it: CompressedPostingIterator<'_>,
    to: CompressedPostingIterator<'_>,
)
    requires
        in_step(it),
        to.is_next(it),
        pending(it).len() > 0,
    ensures
        in_step(to),
        pending(to) == pending(it).skip(1),
        pending(to).len() > 0 ==> to.current() == pending(to)[0],
        pending(to).len() == 0 ==> to.current() == u32::MAX,
{
    match (it, to) {
        (
            CompressedPostingIterator::VerticalBP128(a),
            CompressedPostingIterator::VerticalBP128(b),
        ) => {
            a.facts();
            b.facts();
            bp128_list::next_rest(a.runs(), a.at());
            assert(pending(to) =~= pending(it).skip(1));
            if b.at() is Some {
                bp128_list::next_rest(b.runs(), b.at());
            }
        },
        (CompressedPostingIterator::Roaring(a), CompressedPostingIterator::Roaring(b)) => {
            roaring_laws::roaring_step_holds(a, b);
        },
        _ => {},
    }
}

/// The largest frequency of a built list is that of its postings.
pub proof fn built_top_tf<F: Fn(u32) -> u32>(
    l: CompressedPostingList,
    docs: Seq<u32>,
    tfs: Seq<u32>,
    score: F,
)
    requires
        docs.len() == tfs.len(),
        l.is_built(docs, tfs, score),
    ensures
        l.top_tf() == encode::seq_max(tfs),
{
    if let CompressedPostingList::VerticalBP128(p) = l {
        let n = p.blocks@.len() as int;
        blocks_top(p, docs, tfs, score, n);
        assert(tfs.take(tfs.len() as int) =~= tfs);
    }
}

proof fn blocks_top<F: Fn(u32) -> u32>(
    p: BP128PostingList<true>,
    docs: Seq<u32>,
    tfs: Seq<u32>,
    score: F,
    n: int,
)
    requires
        docs.len() == tfs.len(),
        p.is_built(docs, tfs, score),
        0 <= n <= p.blocks@.len(),
    ensures
        CompressedPostingList::block_max(p, n) == encode::seq_max(
            tfs.take(
                if n == 0 {
                    0
                } else {
                    bp128_list::chunk_end(docs.len() as int, n - 1)
                },
            ),
        ),
    decreases n,
{
    if n > 0 {
        blocks_top(p, docs, tfs, score, n - 1);
        assert(bp128_list::is_built_block(p.blocks@[n - 1], docs, tfs, score, n - 1));
        let from = 128 * (n - 1);
        let end = bp128_list::chunk_end(docs.len() as int, n - 1);
        if n > 1 {
            assert(bp128_list::chunk_end(docs.len() as int, n - 2) == from);
        }
        joined_top(tfs, from, end);
    }
}

/// The largest of two stretches.
proof fn joined_top(s: Seq<u32>, from: int, end: int)
    requires
        0 <= from <= end <= s.len(),
    ensures
        encode::seq_max(s.take(end)) == (if encode::seq_max(s.subrange(from, end))
            > encode::seq_max(s.take(from)) {
            encode::seq_max(s.subrange(from, end))
        } else {
            encode::seq_max(s.take(from))
        }),
    decreases end - from,
{
    if from < end {
        joined_top(s, from, end - 1);
        assert(s.take(end).drop_last() =~= s.take(end - 1));
        assert(s.subrange(from, end).drop_last() =~= s.subrange(from, end - 1));
    } else {
        assert(s.subrange(from, end) =~= Seq::empty());
    }
}

/// Whether an iterator walks over a list.
pub open spec fn walks(it: CompressedPostingIterator<'_>, l: CompressedPostingList) -> bool {
    match (it, l) {
        (
            CompressedPostingIterator::VerticalBP128(i),
            CompressedPostingList::VerticalBP128(p),
        ) => *i.list == p,
        (CompressedPostingIterator::Roaring(i), CompressedPostingList::Roaring(p)) => *i.list == p,
        _ => false,
    }
}

/// The frequency that an iterator reads.
pub open spec fn current_tf(it: CompressedPostingIterator<'_>) -> u32 {
    match it {
        CompressedPostingIterator::VerticalBP128(i) => bp128_list::tf_at(i.runs(), i.at()),
        CompressedPostingIterator::Roaring(i) => match i.current_doc {
            Some(d) => i.list.tf_of(d),
            None => 0,
        },
    }
}

/// An iterator over a built list that has come to a posting reads its
/// document and its frequency, where packed blocks hold no frequency of zero
/// but one instead.
#[verifier::rlimit(30)]
pub proof fn compressed_reads_posting<F: Fn(u32) -> u32>(
    l: CompressedPostingList,
    docs: Seq<u32>,
    tfs: Seq<u32>,
    score: F,
    it: CompressedPostingIterator<'_>,
    i: int,
)
    requires
        block::increasing(docs),
        docs.len() == tfs.len(),
        l.is_built(docs, tfs, score),
        in_step(it),
        walks(it, l),
        0 <= i < docs.len(),
        pending(it) == docs.skip(i),
    ensures
        it.current() == docs[i],
        current_tf(it) == tfs[i] || tfs[i] == 0 && it is VerticalBP128 && current_tf(it) == 1,
{
    match it {
        CompressedPostingIterator::VerticalBP128(j) => {
            built_packed_reads_posting(j, docs, tfs, score, i);
        },
        CompressedPostingIterator::Roaring(j) => {
            set_reads_posting(j, docs, tfs, score, i);
        },
    }
}

/// An iterator over a built set reads its next posting.
proof fn set_reads_posting<F: Fn(u32) -> u32>(
    it: RoaringPostingIterator<'_>,
    docs: Seq<u32>,
    tfs: Seq<u32>,
    score: F,
    i: int,
)
    requires
        it.list.is_built(docs, tfs, score),
        0 <= i < docs.len(),
        it.pending() == docs.skip(i),
    ensures
        it.current_doc == Some(docs[i]),
        it.list.tf_of(docs[i]) == tfs[i],
{
    let ahead = docs.skip(i);
    assert(ahead.len() > 0 && ahead[0] == docs[i]);
    assert(it.pending().len() > 0 && it.pending()[0] == docs[i]);
    assert(it.current_doc is Some);
    assert(it.pending() == seq![it.current_doc->Some_0] + it.ahead());
}

/// An iterator over built packed blocks reads its next posting.
proof fn built_packed_reads_posting<const VERTICAL: bool, F: Fn(u32) -> u32>(
    it: BP128Iterator<'_, VERTICAL>,
    docs: Seq<u32>,
    tfs: Seq<u32>,
    score: F,
    i: int,
)
    requires
        it.wf(),
        docs.len() == tfs.len(),
        it.list.is_built(docs, tfs, score),
        0 <= i < docs.len(),
        posting::doc_ids(it.rest()) == docs.skip(i),
    ensures
        bp128_list::doc_at(it.runs(), it.at()) == docs[i],
        bp128_list::tf_at(it.runs(), it.at()) == (if tfs[i] == 0 {
            1
        } else {
            tfs[i]
        }),
{
    assert(posting::doc_ids(it.rest()).len() == docs.len() - i);
    packed_reads_posting(it, i);
}

/// An iterator over packed blocks with all but some first postings ahead
/// reads the next of them.
proof fn packed_reads_posting<const VERTICAL: bool>(it: BP128Iterator<'_, VERTICAL>, i: int)
    requires
        it.wf(),
        0 <= i < it.list.postings().len(),
        it.rest().len() == it.list.postings().len() - i,
    ensures
        bp128_list::doc_at(it.runs(), it.at()) == it.list.postings()[i].doc_id,
        bp128_list::tf_at(it.runs(), it.at()) == it.list.postings()[i].term_freq,
{
    let runs = it.runs();
    let all = it.list.postings();
    it.facts();
    let (b, k) = it.at()->Some_0;
    bp128_list::next_rest(runs, it.at());
    bp128_list::start_rest(runs, b);
    let head = bp128_list::flat(runs, b);
    let tail = bp128_list::flat_from(runs, b + 1);
    assert(all == head + (runs[b] + tail));
    assert(it.rest() == runs[b].skip(k) + tail);
    assert(head.len() + k == i);
    assert(all[i] == runs[b][k]);
    assert(it.rest()[0] == runs[b][k]);
}

} // verus!
