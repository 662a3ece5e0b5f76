//! Uncompressed postings.
use crate::block;
use crate::block::TERMINATED;
use vstd::prelude::*;

verus! {

/// A document and how often the term occurs in it.
#[derive(Debug, Clone, Copy, PartialEq, Eq, Structural)]
pub struct Posting {
    pub doc_id: u32,
    pub term_freq: u32,
}

/// The documents of a sequence of postings.
pub open spec fn doc_ids(s: Seq<Posting>) -> Seq<u32> {
    Seq::new(s.len(), |i: int| s[i].doc_id)
}

/// The term frequencies of a sequence of postings.
pub open spec fn term_freqs(s: Seq<Posting>) -> Seq<u32> {
    Seq::new(s.len(), |i: int| s[i].term_freq)
}

/// Whether documents increase.
pub open spec fn ascending(s: Seq<Posting>) -> bool {
    forall|i: int, j: int| 0 <= i < j < s.len() ==> s[i].doc_id < s[j].doc_id
}

/// Whether documents increase and stay below the sentinel.
pub open spec fn sorted(s: Seq<Posting>) -> bool {
    &&& ascending(s)
    &&& s.len() > 0 ==> s.last().doc_id != TERMINATED
}

/// A list of postings in document order.
#[derive(Debug, Clone, Default)]
pub struct PostingList {
    pub postings: Vec<Posting>,
}

impl View for PostingList {
    type V = Seq<Posting>;

    open spec fn view(&self) -> Seq<Posting> {
        self.postings@
    }
}

impl PostingList {
    pub fn new() -> (r: Self)
        ensures
            r@ == Seq::<Posting>::empty(),
    {
        PostingList { postings: Vec::new() }
    }

    pub fn with_capacity(capacity: usize) -> (r: Self)
        ensures
            r@ == Seq::<Posting>::empty(),
    {
        PostingList { postings: Vec::with_capacity(capacity) }
    }

    /// Add a posting after all documents so far.
    pub fn push(&mut self, doc_id: u32, term_freq: u32)
        requires
            old(self)@.len() > 0 ==> old(self)@.last().doc_id < doc_id,
        ensures
            final(self)@ == old(self)@.push(Posting { doc_id, term_freq }),
    {
        self.postings.push(Posting { doc_id, term_freq });
    }

    /// Add a posting; the frequency is added to the last one if that has the
    /// same document.
    pub fn add(&mut self, doc_id: u32, term_freq: u32)
        requires
            old(self)@.len() > 0 && old(self)@.last().doc_id == doc_id
                ==> old(self)@.last().term_freq + term_freq <= u32::MAX,
        ensures
            final(self)@ == (if old(self)@.len() > 0 && old(self)@.last().doc_id == doc_id {
                old(self)@.update(
                    old(self)@.len() - 1,
                    (Posting {
                        doc_id,
                        term_freq: (old(self)@.last().term_freq + term_freq) as u32,
                    }),
                )
            } else {
                old(self)@.push(Posting { doc_id, term_freq })
            }),
    {
        let n: usize = self.postings.len();
        if n > 0 && self.postings[n - 1].doc_id == doc_id {
            let total: u32 = self.postings[n - 1].term_freq + term_freq;
            self.postings.set(n - 1, Posting { doc_id, term_freq: total });
            return;
        }
        self.postings.push(Posting { doc_id, term_freq });
    }

    /// Number of documents; a list of more documents than a `u32` counts
    /// cannot be in order.
    pub fn doc_count(&self) -> (r: u32)
        requires
            self@.len() <= u32::MAX,
        ensures
            r == self@.len(),
    {
        self.postings.len() as u32
    }

    pub fn len(&self) -> (r: usize)
        ensures
            r == self@.len(),
    {
        self.postings.len()
    }

    pub fn is_empty(&self) -> (r: bool)
        ensures
            r == (self@.len() == 0),
    {
        self.postings.len() == 0
    }

    /// The postings in order.
    pub fn iter(&self) -> (r: &[Posting])
        ensures
            r@ == self@,
    {
        self.postings.as_slice()
    }
}

/// A cursor over an uncompressed posting list.
pub struct PostingListIterator<'a> {
    pub postings: &'a [Posting],
    pub position: usize,
}

impl<'a> PostingListIterator<'a> {
    /// The document at the cursor, or the sentinel.
    pub open spec fn current(&self) -> u32 {
        if self.position < self.postings@.len() {
            self.postings@[self.position as int].doc_id
        } else {
            TERMINATED
        }
    }

    pub fn new(posting_list: &'a PostingList) -> (r: Self)
        ensures
            r.postings@ == posting_list@,
            r.position == 0,
    {
        PostingListIterator { postings: posting_list.postings.as_slice(), position: 0 }
    }

    /// Current document, or the sentinel once exhausted.
    pub fn doc(&self) -> (r: u32)
        ensures
            r == self.current(),
    {
        if self.position < self.postings.len() {
            self.postings[self.position].doc_id
        } else {
            TERMINATED
        }
    }

    /// Current term frequency, or zero once exhausted.
    pub fn term_freq(&self) -> (r: u32)
        ensures
            r == (if self.position < self.postings@.len() {
                self.postings@[self.position as int].term_freq
            } else {
                0
            }),
    {
        if self.position < self.postings.len() {
            self.postings[self.position].term_freq
        } else {
            0
        }
    }

    /// Step to the next posting and give its document.
    pub fn advance(&mut self) -> (r: u32)
        requires
            old(self).position < usize::MAX,
        ensures
            final(self).postings == old(self).postings,
            final(self).position == old(self).position + 1,
            r == final(self).current(),
    {
        self.position += 1;
        self.doc()
    }

    /// Step to the first remaining document that is at least `target`.
    pub fn seek(&mut self, target: u32) -> (r: u32)
        requires
            old(self).position <= old(self).postings@.len(),
            block::increasing(doc_ids(old(self).postings@)),
        ensures
            final(self).postings == old(self).postings,
            old(self).position <= final(self).position <= final(self).postings@.len(),
            forall|i: int|
                old(self).position <= i < final(self).position
                    ==> final(self).postings@[i].doc_id < target,
            final(self).position < final(self).postings@.len() ==> final(self).current()
                >= target,
            r == final(self).current(),
    {
        let mut lo: usize = self.position;
        let mut hi: usize = self.postings.len();
        let ghost docs = doc_ids(self.postings@);
        while lo < hi
            invariant
                old(self).position <= lo <= hi <= self.postings@.len(),
                self.postings == old(self).postings,
                docs == doc_ids(self.postings@),
                block::increasing(docs),
                forall|i: int| old(self).position <= i < lo ==> docs[i] < target,
                forall|i: int| hi <= i < self.postings@.len() ==> docs[i] >= target,
            decreases hi - lo,
        {
            let mid: usize = lo + (hi - lo) / 2;
            if self.postings[mid].doc_id < target {
                proof {
                    assert forall|i: int| old(self).position <= i < mid + 1 implies docs[i]
                        < target by {
                        assert(docs[mid as int] < target);
                        if i < mid {
                            assert(docs[i] < docs[mid as int]);
                        }
                    }
                }
                lo = mid + 1;
            } else {
                proof {
                    assert forall|i: int| mid <= i < self.postings@.len() implies docs[i]
                        >= target by {
                        assert(docs[mid as int] >= target);
                        if mid < i {
                            assert(docs[mid as int] < docs[i]);
                        }
                    }
                }
                hi = mid;
            }
        }
        self.position = lo;
        proof {
            assert forall|i: int| old(self).position <= i < lo implies self.postings@[i].doc_id
                < target by {
                assert(docs[i] < target);
            }
            if lo < self.postings@.len() {
                assert(docs[lo as int] >= target);
            }
        }
        self.doc()
    }

    /// Postings from the cursor on.
    pub fn size_hint(&self) -> (r: usize)
        ensures
            r == (if self.position <= self.postings@.len() {
                self.postings@.len() - self.position
            } else {
                0
            }),
    {
        self.postings.len().saturating_sub(self.position)
    }
}

/// The first index of a sorted slice whose value is at least `target`,
/// searched from `from` on.
pub fn lower_bound(docs: &[u32], from: usize, target: u32) -> (at: usize)
    requires
        from <= docs.len(),
        block::increasing(docs@),
    ensures
        from <= at <= docs.len(),
        forall|i: int| from <= i < at ==> docs@[i] < target,
        forall|i: int| at <= i < docs.len() ==> docs@[i] >= target,
{
    let mut lo: usize = from;
    let mut hi: usize = docs.len();
    while lo < hi
        invariant
            from <= lo <= hi <= docs.len(),
            block::increasing(docs@),
            forall|i: int| from <= i < lo ==> docs@[i] < target,
            forall|i: int| hi <= i < docs.len() ==> docs@[i] >= target,
        decreases hi - lo,
    {
        let mid: usize = lo + (hi - lo) / 2;
        if docs[mid] < target {
            proof {
                assert forall|i: int| from <= i < mid + 1 implies docs@[i] < target by {
                    if i < mid {
                        assert(docs@[i] < docs@[mid as int]);
                    }
                }
            }
            lo = mid + 1;
        } else {
            proof {
                assert forall|i: int| mid <= i < docs.len() implies docs@[i] >= target by {
                    if mid < i {
                        assert(docs@[mid as int] < docs@[i]);
                    }
                }
            }
            hi = mid;
        }
    }
    lo
}

} // verus!
