//! Posting lists over chunked sets: documents as a set, and the term
//! frequencies that are not the most common one.
use crate::block;
use crate::bp128_list;
use crate::encode;
use crate::roaring;
use crate::roaring::RoaringBitmap;
use crate::roaring::RoaringIterator;
use std::collections::HashMap;
use vstd::prelude::*;

verus! {

/// Documents of a chunk at most.
pub const ROARING_BLOCK_SIZE: usize = 65536;

/// Bounds of the postings of one chunk.
#[derive(Debug, Clone, Copy, PartialEq, Eq, Structural)]
pub struct RoaringBlockInfo {
    /// Upper half of the documents.
    pub container_key: u16,
    pub first_doc_id: u32,
    pub last_doc_id: u32,
    pub max_tf: u32,
    /// Bits of the largest score, a single-precision number.
    pub max_block_score: u32,
    pub num_docs: u32,
}

/// A posting list with a set of documents.
#[derive(Debug)]
pub struct RoaringPostingList {
    pub doc_ids: RoaringBitmap,
    /// Documents whose frequency is not the default one, and theirs.
    pub term_freqs: Vec<(u32, u32)>,
    pub default_tf: u32,
    pub max_tf: u32,
    /// Bounds, one entry per chunk.
    pub blocks: Vec<RoaringBlockInfo>,
    /// Bits of the largest score of a chunk.
    pub max_score: u32,
}

/// How many of the first `n` frequencies are `tf`.
pub open spec fn tf_count(tfs: Seq<u32>, tf: u32, n: int) -> int
    decreases n,
{
    if n <= 0 {
        0
    } else {
        tf_count(tfs, tf, n - 1) + if tfs[n - 1] == tf {
            1int
        } else {
            0
        }
    }
}

/// Whether no frequency is more common than `tf`.
pub open spec fn is_most_common(tfs: Seq<u32>, tf: u32) -> bool {
    &&& tfs.contains(tf)
    &&& forall|x: u32|
        #[trigger] tf_count(tfs, x, tfs.len() as int) <= tf_count(tfs, tf, tfs.len() as int)
}

/// The postings among the first `n` whose frequency is not `tf`.
pub open spec fn others(docs: Seq<u32>, tfs: Seq<u32>, tf: u32, n: int) -> Seq<(u32, u32)>
    decreases n,
{
    if n <= 0 {
        Seq::empty()
    } else if tfs[n - 1] != tf {
        others(docs, tfs, tf, n - 1).push((docs[n - 1], tfs[n - 1]))
    } else {
        others(docs, tfs, tf, n - 1)
    }
}

/// Whether posting `i` starts a chunk.
pub open spec fn starts_chunk(docs: Seq<u32>, i: int) -> bool {
    i == 0 || roaring::high_of(docs[i - 1]) != roaring::high_of(docs[i])
}

/// Where the chunks of the first `n` postings start.
pub open spec fn chunk_starts(docs: Seq<u32>, n: int) -> Seq<int>
    decreases n,
{
    if n <= 0 {
        Seq::empty()
    } else if starts_chunk(docs, n - 1) {
        chunk_starts(docs, n - 1).push(n - 1)
    } else {
        chunk_starts(docs, n - 1)
    }
}

proof fn others_len(docs: Seq<u32>, tfs: Seq<u32>, tf: u32, n: int)
    requires
        0 <= n,
    ensures
        others(docs, tfs, tf, n).len() <= n,
    decreases n,
{
    if n > 0 {
        others_len(docs, tfs, tf, n - 1);
    }
}

proof fn starts_len(docs: Seq<u32>, n: int)
    requires
        0 <= n,
    ensures
        chunk_starts(docs, n).len() <= n,
    decreases n,
{
    if n > 0 {
        starts_len(docs, n - 1);
    }
}

/// Whether `b` bounds the postings from `from` up to `to`.
pub open spec fn is_chunk_info<F: Fn(u32) -> u32>(
    b: RoaringBlockInfo,
    docs: Seq<u32>,
    tfs: Seq<u32>,
    from: int,
    to: int,
    score: F,
) -> bool {
    &&& b.container_key == roaring::high_of(docs[from])
    &&& b.first_doc_id == docs[from]
    &&& b.last_doc_id == docs[to - 1]
    &&& b.num_docs == to - from
    &&& b.max_tf == encode::seq_max(tfs.subrange(from, to))
    &&& score.ensures((b.max_tf,), b.max_block_score)
}

/// End of the chunk that starts with `starts[k]`.
pub open spec fn chunk_stop(starts: Seq<int>, k: int, n: int) -> int {
    if k + 1 < starts.len() {
        starts[k + 1]
    } else {
        n
    }
}

/// Largest score of the entries from `from` up to `to`.
pub open spec fn top_score(blocks: Seq<RoaringBlockInfo>, from: int, to: int) -> u32
    decreases to - from,
{
    if to <= from {
        0
    } else {
        bp128_list::larger_score(top_score(blocks, from, to - 1), blocks[to - 1].max_block_score)
    }
}

/// Whether documents of pairs are in order.
pub open spec fn pairs_ordered(s: Seq<(u32, u32)>) -> bool {
    forall|i: int, j: int| 0 <= i < j < s.len() ==> (#[trigger] s[i]).0 < (#[trigger] s[j]).0
}

/// Frequency of a document among the first `n` pairs.
pub open spec fn lookup(s: Seq<(u32, u32)>, n: int, doc_id: u32) -> Option<u32>
    decreases n,
{
    if n <= 0 {
        None
    } else if s[n - 1].0 == doc_id {
        Some(s[n - 1].1)
    } else {
        lookup(s, n - 1, doc_id)
    }
}

proof fn lookup_is(s: Seq<(u32, u32)>, n: int, doc_id: u32)
    requires
        0 <= n <= s.len(),
        pairs_ordered(s),
    ensures
        forall|k: int| 0 <= k < n && (#[trigger] s[k]).0 == doc_id ==> lookup(s, n, doc_id) == Some(
            s[k].1,
        ),
        (forall|k: int| 0 <= k < n ==> (#[trigger] s[k]).0 != doc_id) ==> lookup(s, n, doc_id)
            is None,
    decreases n,
{
    if n > 0 {
        lookup_is(s, n - 1, doc_id);
        assert forall|k: int| 0 <= k < n && (#[trigger] s[k]).0 == doc_id implies lookup(
            s,
            n,
            doc_id,
        ) == Some(s[k].1) by {
            if k < n - 1 {
                assert(s[k].0 < s[n - 1].0);
            }
        }
    }
}

/// The pairs of `others` are in order.
proof fn others_ordered(docs: Seq<u32>, tfs: Seq<u32>, tf: u32, n: int)
    requires
        block::increasing(docs),
        docs.len() == tfs.len(),
        0 <= n <= docs.len(),
    ensures
        pairs_ordered(others(docs, tfs, tf, n)),
        forall|k: int|
            0 <= k < others(docs, tfs, tf, n).len() ==> n > 0 && (#[trigger] others(
                docs,
                tfs,
                tf,
                n,
            )[k]).0 <= docs[n - 1],
    decreases n,
{
    if n > 0 {
        others_ordered(docs, tfs, tf, n - 1);
        if n > 1 {
            assert(docs[n - 2] < docs[n - 1]);
        }
        let before = others(docs, tfs, tf, n - 1);
        let after = others(docs, tfs, tf, n);
        assert forall|x: int, y: int| 0 <= x < y < after.len() implies (#[trigger] after[x]).0 < (
        #[trigger] after[y]).0 by {
            if y < before.len() {
                assert(before[x].0 < before[y].0);
            } else {
                assert(before[x].0 <= docs[n - 2]);
            }
        }
        assert forall|k: int| 0 <= k < after.len() implies (#[trigger] after[k]).0 <= docs[n
            - 1] by {
            if k < before.len() {
                assert(before[k].0 <= docs[n - 2]);
            }
        }
    }
}

/// Pairs added later do not change what is found among the first.
proof fn lookup_same(a: Seq<(u32, u32)>, b: Seq<(u32, u32)>, n: int, doc_id: u32)
    requires
        0 <= n <= a.len(),
        n <= b.len(),
        forall|k: int| 0 <= k < n ==> a[k] == b[k],
    ensures
        lookup(a, n, doc_id) == lookup(b, n, doc_id),
    decreases n,
{
    if n > 0 {
        lookup_same(a, b, n - 1, doc_id);
    }
}

/// What is found among the pairs of `others`.
proof fn others_lookup(docs: Seq<u32>, tfs: Seq<u32>, tf: u32, n: int, i: int)
    requires
        block::increasing(docs),
        docs.len() == tfs.len(),
        0 <= n <= docs.len(),
        0 <= i < docs.len(),
    ensures
        ({
            let s = others(docs, tfs, tf, n);
            lookup(s, s.len() as int, docs[i]) == (if i < n && tfs[i] != tf {
                Some(tfs[i])
            } else {
                None
            })
        }),
    decreases n,
{
    if n > 0 {
        others_lookup(docs, tfs, tf, n - 1, i);
        let before = others(docs, tfs, tf, n - 1);
        let after = others(docs, tfs, tf, n);
        if i < n - 1 {
            assert(docs[i] < docs[n - 1]);
        } else if i > n - 1 {
            assert(docs[n - 1] < docs[i]);
        }
        if tfs[n - 1] != tf {
            lookup_same(before, after, before.len() as int, docs[i]);
        }
    }
}

impl RoaringPostingList {
    pub open spec fn wf(&self) -> bool {
        &&& self.doc_ids.wf()
        &&& pairs_ordered(self.term_freqs@)
    }

    /// Term frequency of a document.
    pub open spec fn tf_of(&self, doc_id: u32) -> u32 {
        match lookup(self.term_freqs@, self.term_freqs@.len() as int, doc_id) {
            Some(tf) => tf,
            None => self.default_tf,
        }
    }

    /// Whether this is the list built from documents and frequencies.
    pub open spec fn is_built<F: Fn(u32) -> u32>(
        &self,
        docs: Seq<u32>,
        tfs: Seq<u32>,
        score: F,
    ) -> bool {
        let n = docs.len() as int;
        let starts = chunk_starts(docs, n);
        &&& self.wf()
        &&& self.doc_ids.all() == docs
        &&& roaring::all_optimal(self.doc_ids.containers@)
        &&& docs.len() == 0 ==> self.default_tf == 1
        &&& docs.len() > 0 ==> is_most_common(tfs, self.default_tf)
        &&& self.term_freqs@ == others(docs, tfs, self.default_tf, n)
        &&& forall|i: int| 0 <= i < docs.len() ==> self.tf_of(#[trigger] docs[i]) == tfs[i]
        &&& self.max_tf == encode::seq_max(tfs)
        &&& self.blocks@.len() == starts.len()
        &&& forall|k: int|
            0 <= k < starts.len() ==> is_chunk_info(
                #[trigger] self.blocks@[k],
                docs,
                tfs,
                starts[k],
                chunk_stop(starts, k, n),
                score,
            )
        &&& self.max_score == top_score(self.blocks@, 0, self.blocks@.len() as int)
    }

    /// Build from documents and frequencies. The score of a chunk is the bits
    /// of what `score` says of its largest frequency.
    pub fn from_postings<F: Fn(u32) -> u32>(doc_ids: &[u32], term_freqs: &[u32], score: F) -> (r:
        Self)
        requires
            doc_ids@.len() == term_freqs@.len(),
            doc_ids@.len() <= u32::MAX,
            block::increasing(doc_ids@),
            forall|tf: u32| #[trigger] score.requires((tf,)),
        ensures
            r.is_built(doc_ids@, term_freqs@, score),
            r.storable(),
    {
        let n: usize = doc_ids.len();
        proof {
            assert forall|i: int, j: int| 0 <= i <= j < doc_ids@.len() implies doc_ids@[i]
                <= doc_ids@[j] by {
                if i < j {
                    assert(doc_ids@[i] < doc_ids@[j]);
                }
            }
        }
        let set = RoaringBitmap::from_sorted_slice(doc_ids);
        proof {
            assert forall|v: u32| set.all().contains(v) <==> doc_ids@.contains(v) by {
                assert(set.has(v) <==> doc_ids@.contains(v));
            }
            roaring::same_members(set.all(), doc_ids@);
        }
        let default_tf: u32 = if n == 0 {
            1
        } else {
            most_common(term_freqs)
        };
        let exceptions = differing(doc_ids, term_freqs, default_tf);
        let (blocks, max_score): (Vec<RoaringBlockInfo>, u32) = chunk_infos(
            doc_ids,
            term_freqs,
            &score,
        );
        let r = RoaringPostingList {
            doc_ids: set,
            term_freqs: exceptions,
            default_tf,
            max_tf: encode::max_of(term_freqs),
            blocks,
            max_score,
        };
        proof {
            others_ordered(doc_ids@, term_freqs@, default_tf, n as int);
            assert forall|i: int| 0 <= i < doc_ids@.len() implies r.tf_of(#[trigger] doc_ids@[i])
                == term_freqs@[i] by {
                others_lookup(doc_ids@, term_freqs@, default_tf, n as int, i);
            }
            roaring::optimal_storable(r.doc_ids);
            others_len(doc_ids@, term_freqs@, default_tf, n as int);
            starts_len(doc_ids@, n as int);
        }
        r
    }

    /// Term frequency of a document.
    pub fn get_tf(&self, doc_id: u32) -> (r: u32)
        requires
            self.wf(),
        ensures
            r == self.tf_of(doc_id),
    {
        let s = self.term_freqs.as_slice();
        let n: usize = s.len();
        proof {
            lookup_is(s@, n as int, doc_id);
        }
        let mut lo: usize = 0;
        let mut hi: usize = n;
        while lo < hi
            invariant
                lo <= hi <= n == s@.len(),
                pairs_ordered(s@),
                forall|k: int| 0 <= k < lo ==> (#[trigger] s@[k]).0 < doc_id,
                forall|k: int| hi <= k < n ==> (#[trigger] s@[k]).0 >= doc_id,
            decreases hi - lo,
        {
            let mid: usize = lo + (hi - lo) / 2;
            if s[mid].0 < doc_id {
                proof {
                    assert forall|k: int| 0 <= k < mid + 1 implies (#[trigger] s@[k]).0
                        < doc_id by {
                        if k < mid {
                            assert(s@[k].0 < s@[mid as int].0);
                        }
                    }
                }
                lo = mid + 1;
            } else {
                proof {
                    assert forall|k: int| mid <= k < n implies (#[trigger] s@[k]).0 >= doc_id by {
                        if k > mid {
                            assert(s@[mid as int].0 < s@[k].0);
                        }
                    }
                }
                hi = mid;
            }
        }
        if lo < n && s[lo].0 == doc_id {
            return s[lo].1;
        }
        proof {
            assert forall|k: int| 0 <= k < n implies (#[trigger] s@[k]).0 != doc_id by {
                if k > lo {
                    assert(s@[lo as int].0 < s@[k].0);
                }
            }
        }
        self.default_tf
    }

    /// Number of documents.
    pub fn len(&self) -> (r: u32)
        requires
            self.wf(),
            self.doc_ids.all().len() <= u32::MAX,
        ensures
            r == self.doc_ids.all().len(),
    {
        self.doc_ids.cardinality()
    }

    pub fn is_empty(&self) -> (r: bool)
        requires
            self.wf(),
        ensures
            r == (self.doc_ids.all().len() == 0),
    {
        self.doc_ids.is_empty()
    }

    /// Number of chunks with bounds.
    pub fn num_blocks(&self) -> (r: usize)
        ensures
            r == self.blocks@.len(),
    {
        self.blocks.len()
    }

    /// The entry that bounds a document, if there is one. Entries must be in
    /// order.
    pub fn block_for_doc(&self, doc_id: u32) -> (r: Option<usize>)
        requires
            forall|i: int, j: int|
                0 <= i < j < self.blocks@.len() ==> (#[trigger] self.blocks@[i]).container_key < (
                #[trigger] self.blocks@[j]).container_key,
        ensures
            match r {
                Some(k) => k < self.blocks@.len() && self.blocks@[k as int].container_key
                    == roaring::high_of(doc_id),
                None => forall|k: int|
                    0 <= k < self.blocks@.len() ==> (#[trigger] self.blocks@[k]).container_key
                        != roaring::high_of(doc_id),
            },
    {
        let key: u16 = (doc_id / 0x1_0000) as u16;
        let n: usize = self.blocks.len();
        let mut lo: usize = 0;
        let mut hi: usize = n;
        while lo < hi
            invariant
                lo <= hi <= n == self.blocks@.len(),
                forall|i: int, j: int|
                    0 <= i < j < self.blocks@.len() ==> (#[trigger] self.blocks@[i]).container_key
                        < (#[trigger] self.blocks@[j]).container_key,
                forall|k: int| 0 <= k < lo ==> (#[trigger] self.blocks@[k]).container_key < key,
                forall|k: int| hi <= k < n ==> (#[trigger] self.blocks@[k]).container_key >= key,
            decreases hi - lo,
        {
            let mid: usize = lo + (hi - lo) / 2;
            if self.blocks[mid].container_key < key {
                proof {
                    assert forall|k: int| 0 <= k < mid + 1 implies (
                    #[trigger] self.blocks@[k]).container_key < key by {
                        if k < mid {
                            assert(self.blocks@[k].container_key
                                < self.blocks@[mid as int].container_key);
                        }
                    }
                }
                lo = mid + 1;
            } else {
                proof {
                    assert forall|k: int| mid <= k < n implies (
                    #[trigger] self.blocks@[k]).container_key >= key by {
                        if k > mid {
                            assert(self.blocks@[mid as int].container_key
                                < self.blocks@[k].container_key);
                        }
                    }
                }
                hi = mid;
            }
        }
        if lo < n && self.blocks[lo].container_key == key {
            Some(lo)
        } else {
            proof {
                assert forall|k: int| 0 <= k < n implies (#[trigger] self.blocks@[k]).container_key
                    != key by {
                    if k > lo {
                        assert(self.blocks@[lo as int].container_key
                            < self.blocks@[k].container_key);
                    }
                }
            }
            None
        }
    }

    /// Whether what was read makes sense.
    pub fn is_valid(&self) -> (r: bool)
        ensures
            r == self.wf(),
    {
        if !self.doc_ids.is_valid() {
            return false;
        }
        let n: usize = self.term_freqs.len();
        let mut i: usize = 1;
        while i < n
            invariant
                1 <= i,
                n == self.term_freqs@.len(),
                forall|x: int, y: int|
                    0 <= x < y < i && y < n ==> (#[trigger] self.term_freqs@[x]).0 < (
                    #[trigger] self.term_freqs@[y]).0,
            decreases n - i,
        {
            if self.term_freqs[i - 1].0 >= self.term_freqs[i].0 {
                proof {
                    assert(!(self.term_freqs@[i - 1].0 < self.term_freqs@[i as int].0));
                }
                return false;
            }
            proof {
                assert forall|x: int, y: int| 0 <= x < y < i + 1 && y < n implies (
                #[trigger] self.term_freqs@[x]).0 < (#[trigger] self.term_freqs@[y]).0 by {
                    if y == i && x < i - 1 {
                        assert(self.term_freqs@[x].0 < self.term_freqs@[i - 1].0);
                    }
                }
            }
            i = i + 1;
        }
        true
    }

    /// A cursor before the first posting.
    pub fn iterator(&self) -> (r: RoaringPostingIterator<'_>)
        requires
            self.wf(),
        ensures
            r.wf(),
            *r.list == *self,
            r.current_doc is None,
            r.current_block == 0,
            r.ahead() == self.doc_ids.all(),
    {
        RoaringPostingIterator {
            list: self,
            doc_iter: self.doc_ids.iter(),
            current_doc: None,
            current_block: 0,
        }
    }
}

/// A most common frequency.
fn most_common(tfs: &[u32]) -> (r: u32)
    requires
        0 < tfs@.len() <= u32::MAX,
    ensures
        is_most_common(tfs@, r),
{
    broadcast use vstd::std_specs::hash::group_hash_axioms;

    let n: usize = tfs.len();
    let mut counts: HashMap<u32, u32> = HashMap::new();
    let mut i: usize = 0;
    while i < n
        invariant
            i <= n == tfs@.len(),
            n <= u32::MAX,
            forall|x: u32| #[trigger] counts@.dom().contains(x) <==> tf_count(tfs@, x, i as int) > 0,
            forall|x: u32| #[trigger] counts@.dom().contains(x) ==> counts@[x] == tf_count(
                tfs@,
                x,
                i as int,
            ),
        decreases n - i,
    {
        let tf: u32 = tfs[i];
        proof {
            count_bound(tfs@, tf, i as int);
        }
        let seen: u32 = match counts.get(&tf) {
            Some(c) => *c,
            None => 0,
        };
        proof {
            count_bound(tfs@, tf, i as int);
            assert(seen == tf_count(tfs@, tf, i as int));
        }
        let ghost before = counts@;
        counts.insert(tf, seen + 1);
        proof {
            assert forall|x: u32| #[trigger] counts@.dom().contains(x) <==> tf_count(
                tfs@,
                x,
                i + 1,
            ) > 0 by {
                count_bound(tfs@, x, i as int);
                assert(before.dom().contains(x) <==> tf_count(tfs@, x, i as int) > 0);
            }
            assert forall|x: u32| #[trigger] counts@.dom().contains(x) implies counts@[x]
                == tf_count(tfs@, x, i + 1) by {
                if x != tf {
                    assert(before.dom().contains(x));
                }
            }
        }
        i = i + 1;
    }
    let mut best: u32 = tfs[0];
    let mut most: u32 = 0;
    let mut j: usize = 0;
    while j < n
        invariant
            j <= n == tfs@.len(),
            tfs@.contains(best),
            forall|x: u32|
                #[trigger] counts@.dom().contains(x) <==> tf_count(tfs@, x, n as int) > 0,
            forall|x: u32| #[trigger] counts@.dom().contains(x) ==> counts@[x] == tf_count(
                tfs@,
                x,
                n as int,
            ),
            j > 0 ==> most == tf_count(tfs@, best, n as int),
            j == 0 ==> most == 0,
            forall|k: int| 0 <= k < j ==> tf_count(tfs@, #[trigger] tfs@[k], n as int) <= most,
        decreases n - j,
    {
        let tf: u32 = tfs[j];
        proof {
            member_counts(tfs@, j as int, n as int);
            assert(counts@.dom().contains(tf));
        }
        let own: u32 = match counts.get(&tf) {
            Some(c) => *c,
            None => 0,
        };
        if own > most {
            most = own;
            best = tf;
        }
        j = j + 1;
    }
    proof {
        assert forall|x: u32| #[trigger] tf_count(tfs@, x, n as int) <= tf_count(
            tfs@,
            best,
            n as int,
        ) by {
            count_bound(tfs@, x, n as int);
            if tf_count(tfs@, x, n as int) > 0 {
                let k = counted_member(tfs@, x, n as int);
                assert(tf_count(tfs@, tfs@[k], n as int) <= most);
            }
        }
    }
    best
}

proof fn count_bound(tfs: Seq<u32>, tf: u32, n: int)
    requires
        0 <= n <= tfs.len(),
    ensures
        0 <= tf_count(tfs, tf, n) <= n,
    decreases n,
{
    if n > 0 {
        count_bound(tfs, tf, n - 1);
    }
}

proof fn member_counts(tfs: Seq<u32>, k: int, n: int)
    requires
        0 <= k < n <= tfs.len(),
    ensures
        tf_count(tfs, tfs[k], n) > 0,
    decreases n,
{
    count_bound(tfs, tfs[k], n - 1);
    if k < n - 1 {
        member_counts(tfs, k, n - 1);
    }
}

proof fn counted_member(tfs: Seq<u32>, tf: u32, n: int) -> (k: int)
    requires
        0 <= n <= tfs.len(),
        tf_count(tfs, tf, n) > 0,
    ensures
        0 <= k < n,
        tfs[k] == tf,
    decreases n,
{
    if tfs[n - 1] == tf {
        n - 1
    } else {
        counted_member(tfs, tf, n - 1)
    }
}

/// The postings whose frequency is not the default one.
fn differing(docs: &[u32], tfs: &[u32], default_tf: u32) -> (r: Vec<(u32, u32)>)
    requires
        docs@.len() == tfs@.len(),
    ensures
        r@ == others(docs@, tfs@, default_tf, docs@.len() as int),
{
    let mut r: Vec<(u32, u32)> = Vec::new();
    let mut i: usize = 0;
    while i < docs.len()
        invariant
            i <= docs@.len(),
            docs@.len() == tfs@.len(),
            r@ == others(docs@, tfs@, default_tf, i as int),
        decreases docs@.len() - i,
    {
        if tfs[i] != default_tf {
            r.push((docs[i], tfs[i]));
        }
        i = i + 1;
    }
    r
}

/// No chunk starts inside a run of one upper half.
proof fn no_start(docs: Seq<u32>, i: int, j: int)
    requires
        0 <= i < j <= docs.len(),
        forall|k: int| i <= k < j ==> roaring::high_of(#[trigger] docs[k]) == roaring::high_of(
            docs[i],
        ),
    ensures
        chunk_starts(docs, j) == chunk_starts(docs, i + 1),
    decreases j - i,
{
    if j > i + 1 {
        no_start(docs, i, j - 1);
        assert(roaring::high_of(docs[j - 1]) == roaring::high_of(docs[j - 2]));
    }
}

/// Bounds of every chunk, and the largest score.
fn chunk_infos<F: Fn(u32) -> u32>(docs: &[u32], tfs: &[u32], score: &F) -> (r: (
    Vec<RoaringBlockInfo>,
    u32,
))
    requires
        docs@.len() == tfs@.len(),
        docs@.len() <= u32::MAX,
        forall|tf: u32| #[trigger] score.requires((tf,)),
    ensures
        ({
            let n = docs@.len() as int;
            let starts = chunk_starts(docs@, n);
            &&& r.0@.len() == starts.len()
            &&& forall|k: int|
                0 <= k < starts.len() ==> is_chunk_info(
                    #[trigger] r.0@[k],
                    docs@,
                    tfs@,
                    starts[k],
                    chunk_stop(starts, k, n),
                    *score,
                )
        }),
        r.1 == top_score(r.0@, 0, r.0@.len() as int),
{
    let n: usize = docs.len();
    let mut blocks: Vec<RoaringBlockInfo> = Vec::new();
    let mut max_score: u32 = 0;
    let mut i: usize = 0;
    while i < n
        invariant
            i <= n == docs@.len(),
            docs@.len() == tfs@.len(),
            n <= u32::MAX,
            forall|tf: u32| #[trigger] score.requires((tf,)),
            i < n ==> starts_chunk(docs@, i as int),
            blocks@.len() == chunk_starts(docs@, i as int).len(),
            max_score == top_score(blocks@, 0, blocks@.len() as int),
            forall|k: int|
                0 <= k < blocks@.len() ==> is_chunk_info(
                    #[trigger] blocks@[k],
                    docs@,
                    tfs@,
                    chunk_starts(docs@, i as int)[k],
                    chunk_stop(chunk_starts(docs@, i as int), k, i as int),
                    *score,
                ),
        decreases n - i,
    {
        let key: u16 = (docs[i] / 0x1_0000) as u16;
        let mut j: usize = i;
        while j < n && (docs[j] / 0x1_0000) as u16 == key
            invariant
                i <= j <= n == docs@.len(),
                i < n,
                key == roaring::high_of(docs@[i as int]),
                forall|k: int| i <= k < j ==> roaring::high_of(#[trigger] docs@[k]) == key,
                j == i ==> roaring::high_of(docs@[j as int]) == key,
            decreases n - j,
        {
            j = j + 1;
        }
        let part = vstd::slice::slice_subrange(tfs, i, j);
        let max_tf: u32 = encode::max_of(part);
        let own: u32 = score(max_tf);
        let ghost before = blocks@;
        let info = RoaringBlockInfo {
            container_key: key,
            first_doc_id: docs[i],
            last_doc_id: docs[j - 1],
            max_tf,
            max_block_score: own,
            num_docs: (j - i) as u32,
        };
        blocks.push(info);
        proof {
            let m = before.len() as int;
            no_start(docs@, i as int, j as int);
            let old_starts = chunk_starts(docs@, i as int);
            let starts = chunk_starts(docs@, j as int);
            assert(starts == old_starts.push(i as int));
            top_same(before, blocks@, m);
            assert forall|k: int| 0 <= k < blocks@.len() implies is_chunk_info(
                #[trigger] blocks@[k],
                docs@,
                tfs@,
                starts[k],
                chunk_stop(starts, k, j as int),
                *score,
            ) by {
                if k < m {
                    assert(blocks@[k] == before[k]);
                    assert(chunk_stop(starts, k, j as int) == chunk_stop(
                        old_starts,
                        k,
                        i as int,
                    ));
                } else {
                    assert(part@ == tfs@.subrange(i as int, j as int));
                }
            }
        }
        if own <= 0x7F80_0000 && own > max_score {
            max_score = own;
        }
        i = j;
    }
    (blocks, max_score)
}

proof fn top_same(a: Seq<RoaringBlockInfo>, b: Seq<RoaringBlockInfo>, n: int)
    requires
        0 <= n <= a.len(),
        n <= b.len(),
        forall|i: int| 0 <= i < n ==> a[i] == b[i],
    ensures
        top_score(a, 0, n) == top_score(b, 0, n),
    decreases n,
{
    if n > 0 {
        top_same(a, b, n - 1);
    }
}

/// First entry from `from` on whose last document is at least `target`.
pub open spec fn block_from(blocks: Seq<RoaringBlockInfo>, from: int, target: u32) -> int
    decreases blocks.len() - from,
{
    if from >= blocks.len() || blocks[from].last_doc_id >= target {
        from
    } else {
        block_from(blocks, from + 1, target)
    }
}

/// First entry from `from` on whose upper half is at least `key`.
pub open spec fn key_from(blocks: Seq<RoaringBlockInfo>, from: int, key: u16) -> int
    decreases blocks.len() - from,
{
    if from >= blocks.len() || blocks[from].container_key >= key {
        from
    } else {
        key_from(blocks, from + 1, key)
    }
}

/// A cursor over a posting list with a set of documents.
pub struct RoaringPostingIterator<'a> {
    pub list: &'a RoaringPostingList,
    pub doc_iter: RoaringIterator<'a>,
    pub current_doc: Option<u32>,
    pub current_block: usize,
}

impl<'a> RoaringPostingIterator<'a> {
    pub open spec fn wf(&self) -> bool {
        &&& self.list.wf()
        &&& self.doc_iter.wf()
        &&& *self.doc_iter.bitmap == self.list.doc_ids
        &&& self.current_block <= self.list.blocks@.len()
    }

    /// The documents after the current one.
    pub open spec fn ahead(&self) -> Seq<u32> {
        self.doc_iter.rest()
    }

    /// The current document and those after it.
    pub open spec fn pending(&self) -> Seq<u32> {
        match self.current_doc {
            Some(d) => seq![d] + self.ahead(),
            None => Seq::empty(),
        }
    }

    /// Current document, or the end marker.
    pub fn doc(&self) -> (r: u32)
        ensures
            r == (match self.current_doc {
                Some(d) => d,
                None => u32::MAX,
            }),
    {
        match self.current_doc {
            Some(d) => d,
            None => u32::MAX,
        }
    }

    /// Term frequency of the current document, zero without one.
    pub fn term_freq(&self) -> (r: u32)
        requires
            self.wf(),
        ensures
            r == (match self.current_doc {
                Some(d) => self.list.tf_of(d),
                None => 0,
            }),
    {
        match self.current_doc {
            Some(d) => self.list.get_tf(d),
            None => 0,
        }
    }

    /// Whether this is `it` on the next document.
    pub open spec fn is_next(&self, it: RoaringPostingIterator<'a>) -> bool {
        &&& self.wf()
        &&& *self.list == *it.list
        &&& match self.current_doc {
            Some(d) => it.ahead().len() > 0 && d == it.ahead()[0] && self.ahead()
                == it.ahead().skip(1),
            None => it.ahead().len() == 0 && self.ahead().len() == 0,
        }
    }

    /// Step to the next document, and to the entry that bounds it.
    pub fn advance(&mut self) -> (r: u32)
        requires
            old(self).wf(),
        ensures
            final(self).is_next(*old(self)),
            r == (match final(self).current_doc {
                Some(d) => d,
                None => u32::MAX,
            }),
            final(self).current_block == (match final(self).current_doc {
                Some(d) => key_from(
                    old(self).list.blocks@,
                    old(self).current_block as int,
                    roaring::high_of(d),
                ),
                None => old(self).current_block as int,
            }),
    {
        self.current_doc = self.doc_iter.next();
        if let Some(doc) = self.current_doc {
            let key: u16 = (doc / 0x1_0000) as u16;
            let n: usize = self.list.blocks.len();
            let mut b: usize = self.current_block;
            while b < n && self.list.blocks[b].container_key < key
                invariant
                    b <= n == self.list.blocks@.len(),
                    key_from(self.list.blocks@, b as int, key) == key_from(
                        self.list.blocks@,
                        self.current_block as int,
                        key,
                    ),
                decreases n - b,
            {
                b = b + 1;
            }
            self.current_block = b;
        }
        self.doc()
    }

    /// Stand on the first document.
    pub fn init(&mut self)
        requires
            old(self).wf(),
        ensures
            final(self).is_next(*old(self)),
            final(self).current_block == 0,
    {
        self.current_doc = self.doc_iter.next();
        self.current_block = 0;
    }

    /// Whether this is `it` without the documents before `target`, from the
    /// current one on.
    pub open spec fn is_past(&self, it: RoaringPostingIterator<'a>, target: u32) -> bool {
        &&& self.wf()
        &&& *self.list == *it.list
        &&& self.current_doc matches Some(d) ==> d >= target
        &&& it.current_doc is None ==> self.ahead() == it.ahead()
        &&& it.current_doc is Some && self.current_doc is None ==> self.ahead().len() == 0
        &&& exists|m: int|
            0 <= m <= it.pending().len() && self.pending() == #[trigger] it.pending().skip(m)
                && forall|i: int| 0 <= i < m ==> (#[trigger] it.pending()[i]) < target
    }

    /// The document before which all is passed over in a search for `target`:
    /// an entry that begins later may push it on.
    pub open spec fn goal(&self, target: u32) -> u32 {
        let blocks = self.list.blocks@;
        let b = block_from(blocks, self.current_block as int, target);
        let doc = match self.current_doc {
            Some(d) => d,
            None => u32::MAX,
        };
        if b < blocks.len() && blocks[b].first_doc_id > target && (blocks[b].container_key
            > roaring::high_of(target) || blocks[b].container_key == roaring::high_of(target)
            && blocks[b].first_doc_id > doc) {
            blocks[b].first_doc_id
        } else {
            target
        }
    }

    /// What a search for `target` does. Past the last entry there is no
    /// current document; what was ahead is kept.
    pub open spec fn is_sought(&self, it: RoaringPostingIterator<'a>, target: u32) -> bool {
        let blocks = it.list.blocks@;
        let b = block_from(blocks, it.current_block as int, target);
        &&& self.current_block == b
        &&& if blocks.len() > 0 && b >= blocks.len() {
            &&& self.wf()
            &&& *self.list == *it.list
            &&& self.current_doc is None
            &&& self.ahead() == it.ahead()
        } else {
            self.is_past(it, it.goal(target))
        }
    }

    /// Drop documents before `target`.
    fn drop_before(&mut self, target: u32)
        requires
            old(self).wf(),
        ensures
            final(self).is_past(*old(self), target),
            final(self).current_block == old(self).current_block,
    {
        let ghost all = self.pending();
        let ghost mut m: int = 0;
        proof {
            assert(all.skip(0) =~= all);
        }
        loop
            invariant_except_break
                self.wf(),
                *self.list == *old(self).list,
                self.current_block == old(self).current_block,
                all == old(self).pending(),
                0 <= m <= all.len(),
                self.pending() == all.skip(m),
                forall|i: int| 0 <= i < m ==> (#[trigger] all[i]) < target,
                old(self).current_doc is None ==> self.current_doc is None && self.ahead() == old(
                    self,
                ).ahead(),
                old(self).current_doc is Some && self.current_doc is None ==> self.ahead().len()
                    == 0,
            ensures
                self.wf(),
                *self.list == *old(self).list,
                self.current_block == old(self).current_block,
                0 <= m <= all.len(),
                self.pending() == all.skip(m),
                forall|i: int| 0 <= i < m ==> (#[trigger] all[i]) < target,
                old(self).current_doc is None ==> self.ahead() == old(self).ahead(),
                old(self).current_doc is Some && self.current_doc is None ==> self.ahead().len()
                    == 0,
                self.current_doc matches Some(d) ==> d >= target,
            decreases all.len() - m,
        {
            match self.current_doc {
                None => {
                    break ;
                },
                Some(doc) => {
                    if doc >= target {
                        break ;
                    }
                    proof {
                        assert(self.pending().len() > 0);
                        assert(self.pending()[0] == doc);
                        assert(all[m] == doc);
                    }
                    let ghost rest = self.ahead();
                    self.current_doc = self.doc_iter.next();
                    proof {
                        assert(all.skip(m).skip(1) =~= all.skip(m + 1));
                        assert((seq![doc] + rest).skip(1) =~= rest);
                        if self.current_doc is Some {
                            assert(seq![self.current_doc->Some_0] + self.ahead() =~= rest);
                        } else {
                            assert(rest =~= Seq::empty());
                        }
                        m = m + 1;
                    }
                },
            }
        }
        proof {
            assert(self.pending() == old(self).pending().skip(m));
        }
    }

    /// Move to the first document at or after `target`, never back, with the
    /// entries as a skip list.
    pub fn seek(&mut self, target: u32) -> (r: u32)
        requires
            old(self).wf(),
        ensures
            final(self).is_sought(*old(self), target),
            r == (match final(self).current_doc {
                Some(d) => d,
                None => u32::MAX,
            }),
    {
        let n: usize = self.list.blocks.len();
        let b: usize = self.block_for(target);
        if n > 0 && b >= n {
            self.current_block = b;
            self.current_doc = None;
            return u32::MAX;
        }
        let mut goal: u32 = target;
        if b < n {
            let key: u16 = (target / 0x1_0000) as u16;
            let first: u32 = self.list.blocks[b].first_doc_id;
            let entry: u16 = self.list.blocks[b].container_key;
            if first > target && (entry > key || entry == key && first > self.doc()) {
                goal = first;
            }
        }
        self.drop_before(goal);
        self.current_block = b;
        self.doc()
    }

    /// First entry from the current one on that ends at or after `target`.
    fn block_for(&self, target: u32) -> (r: usize)
        requires
            self.wf(),
        ensures
            r == block_from(self.list.blocks@, self.current_block as int, target),
            r <= self.list.blocks@.len(),
    {
        let n: usize = self.list.blocks.len();
        let mut b: usize = self.current_block;
        while b < n && self.list.blocks[b].last_doc_id < target
            invariant
                b <= n == self.list.blocks@.len(),
                block_from(self.list.blocks@, b as int, target) == block_from(
                    self.list.blocks@,
                    self.current_block as int,
                    target,
                ),
            decreases n - b,
        {
            b = b + 1;
        }
        b
    }

    pub fn is_exhausted(&self) -> (r: bool)
        ensures
            r == self.current_doc is None,
    {
        self.current_doc.is_none()
    }

    /// Score of the current entry, zero without one.
    pub fn current_block_max_score(&self) -> (r: u32)
        ensures
            r == (if self.current_doc is None || self.current_block >= self.list.blocks@.len() {
                0
            } else {
                self.list.blocks@[self.current_block as int].max_block_score
            }),
    {
        if self.current_doc.is_none() || self.current_block >= self.list.blocks.len() {
            return 0;
        }
        self.list.blocks[self.current_block].max_block_score
    }

    /// Largest term frequency of the current entry, zero without one.
    pub fn current_block_max_tf(&self) -> (r: u32)
        ensures
            r == (if self.current_doc is None || self.current_block >= self.list.blocks@.len() {
                0
            } else {
                self.list.blocks@[self.current_block as int].max_tf
            }),
    {
        if self.current_doc.is_none() || self.current_block >= self.list.blocks.len() {
            return 0;
        }
        self.list.blocks[self.current_block].max_tf
    }

    /// Largest score of the entries from the current one on.
    pub fn max_remaining_score(&self) -> (r: u32)
        requires
            self.wf(),
        ensures
            r == (if self.current_doc is None {
                0
            } else {
                top_score(
                    self.list.blocks@,
                    self.current_block as int,
                    self.list.blocks@.len() as int,
                )
            }),
    {
        if self.current_doc.is_none() {
            return 0;
        }
        let n: usize = self.list.blocks.len();
        let mut top: u32 = 0;
        let mut i: usize = self.current_block;
        while i < n
            invariant
                self.current_block <= i <= n == self.list.blocks@.len(),
                top == top_score(self.list.blocks@, self.current_block as int, i as int),
            decreases n - i,
        {
            let own: u32 = self.list.blocks[i].max_block_score;
            if own <= 0x7F80_0000 && own > top {
                top = own;
            }
            i = i + 1;
        }
        top
    }

    /// Skip to the first entry from the current one on that ends at or after
    /// `target`, and to its first document. Gives that document and the score.
    pub fn skip_to_block_with_doc(&mut self, target: u32) -> (r: Option<(u32, u32)>)
        requires
            old(self).wf(),
        ensures
            final(self).wf(),
            *final(self).list == *old(self).list,
            ({
                let blocks = old(self).list.blocks@;
                let b = block_from(blocks, old(self).current_block as int, target);
                if blocks.len() == 0 {
                    r is None && *final(self) == *old(self)
                } else if b >= blocks.len() {
                    &&& r is None
                    &&& final(self).current_doc is None
                    &&& final(self).current_block == b
                    &&& final(self).ahead() == old(self).ahead()
                } else {
                    &&& r == Some((blocks[b].first_doc_id, blocks[b].max_block_score))
                    &&& final(self).current_block == b
                    &&& final(self).is_past(*old(self), blocks[b].first_doc_id)
                }
            }),
    {
        if self.list.blocks.len() == 0 {
            return None;
        }
        let b: usize = self.block_for(target);
        if b >= self.list.blocks.len() {
            self.current_block = b;
            self.current_doc = None;
            return None;
        }
        let info = self.list.blocks[b];
        self.drop_before(info.first_doc_id);
        self.current_block = b;
        Some((info.first_doc_id, info.max_block_score))
    }
}

} // verus!
