//! Intersection of two posting cursors.
use crate::block;
use crate::block::PostingBlock;
use crate::block::TERMINATED;
use crate::cursor;
use crate::cursor::Position;
use crate::iterator::BlockPostingIterator;
use vstd::prelude::*;

verus! {

/// Whether the values at `a` and `b`, from `i` and `j` on, are the same.
pub open spec fn common(l: Seq<u32>, r: Seq<u32>, i: int, j: int, a: int, b: int) -> bool {
    i <= a < l.len() && j <= b < r.len() && l[a] == r[b]
}

/// Whether a pair of indices is in a list, from `next` on.
pub open spec fn listed(pairs: Seq<(u8, u8)>, next: int, a: int, b: int) -> bool {
    exists|i: int| next <= i < pairs.len() && (#[trigger] pairs[i]).0 == a && pairs[i].1 == b
}

/// Whether pairs of indices are matches, in order.
pub open spec fn matched(pairs: Seq<(u8, u8)>, l: Seq<u32>, r: Seq<u32>) -> bool {
    &&& forall|i: int|
        0 <= i < pairs.len() ==> common(l, r, 0, 0, (#[trigger] pairs[i]).0 as int, pairs[i].1 as int)
    &&& forall|i: int, j: int|
        0 <= i < j < pairs.len() ==> (#[trigger] pairs[i]).0 < (#[trigger] pairs[j]).0 && pairs[i].1
            < pairs[j].1
}

/// Index from `i` on of the first value past all of `other`.
pub open spec fn past(s: Seq<u32>, other: Seq<u32>, i: int) -> int {
    cursor::lower_from(s, (other[other.len() - 1] + 1) as u32, i)
}

/// All matches of two ascending runs from `i` and `j` on, and where each run
/// goes past the other.
fn match_blocks(left: &[u32], i: usize, right: &[u32], j: usize) -> (r: (
    Vec<(u8, u8)>,
    (usize, usize),
))
    requires
        block::increasing(left@),
        block::increasing(right@),
        i < left@.len() <= 256,
        j < right@.len() <= 256,
        left@[left@.len() - 1] < u32::MAX,
        right@[right@.len() - 1] < u32::MAX,
    ensures
        matched(r.0@, left@, right@),
        forall|a: int, b: int| #[trigger]
            common(left@, right@, i as int, j as int, a, b) <==> listed(r.0@, 0, a, b),
        r.1.0 == past(left@, right@, i as int),
        r.1.1 == past(right@, left@, j as int),
{
    let ghost l = left@;
    let ghost r = right@;
    let mut a: usize = i;
    let mut b: usize = j;
    let mut pairs: Vec<(u8, u8)> = Vec::new();
    while a < left.len() && b < right.len()
        invariant
            l == left@,
            r == right@,
            block::increasing(l),
            block::increasing(r),
            i <= a <= l.len() <= 256,
            j <= b <= r.len() <= 256,
            0 < l.len(),
            0 < r.len(),
            matched(pairs@, l, r),
            forall|k: int|
                0 <= k < pairs@.len() ==> i <= (#[trigger] pairs@[k]).0 < a && j <= pairs@[k].1 < b,
            forall|x: int| i <= x < a && b < r.len() ==> l[x] < r[b as int],
            forall|y: int| j <= y < b && a < l.len() ==> r[y] < l[a as int],
            forall|x: int| i <= x < a ==> l[x] <= r[r.len() - 1],
            forall|y: int| j <= y < b ==> r[y] <= l[l.len() - 1],
            forall|x: int, y: int| #[trigger]
                common(l, r, i as int, j as int, x, y) && (x < a || y < b) ==> listed(
                    pairs@,
                    0,
                    x,
                    y,
                ),
        decreases l.len() - a + r.len() - b,
    {
        let x: u32 = left[a];
        let y: u32 = right[b];
        let ghost before = pairs@;
        if x == y {
            pairs.push((a as u8, b as u8));
            proof {
                assert(pairs@[before.len() as int] == (a as u8, b as u8));
                assert forall|p: int, q: int| #[trigger]
                    common(l, r, i as int, j as int, p, q) && (p < a + 1 || q < b + 1) implies listed(
                    pairs@,
                    0,
                    p,
                    q,
                ) by {
                    if p < a || q < b {
                        let k = choose|k: int|
                            0 <= k < before.len() && (#[trigger] before[k]).0 == p && before[k].1
                                == q;
                        assert(pairs@[k] == before[k]);
                    } else {
                        if p > a {
                            assert(l[a as int] < l[p]);
                        }
                        if q > b {
                            assert(r[b as int] < r[q]);
                        }
                        assert(pairs@[before.len() as int].0 == p);
                    }
                }
            }
            a = a + 1;
            b = b + 1;
        } else if x < y {
            proof {
                assert forall|p: int, q: int| #[trigger]
                    common(l, r, i as int, j as int, p, q) && (p < a + 1 || q < b) implies listed(
                    pairs@,
                    0,
                    p,
                    q,
                ) by {
                    if p == a && q >= b {
                        assert(r[b as int] <= r[q]);
                    }
                }
            }
            a = a + 1;
        } else {
            proof {
                assert forall|p: int, q: int| #[trigger]
                    common(l, r, i as int, j as int, p, q) && (p < a || q < b + 1) implies listed(
                    pairs@,
                    0,
                    p,
                    q,
                ) by {
                    if q == b && p >= a {
                        assert(l[a as int] <= l[p]);
                    }
                }
            }
            b = b + 1;
        }
    }
    proof {
        if a < l.len() {
            assert(r[r.len() - 1] < l[a as int]);
        }
        if b < r.len() {
            assert(l[l.len() - 1] < r[b as int]);
        }
        cursor::lower_from_unique(l, (r[r.len() - 1] + 1) as u32, i as int, a as int);
        cursor::lower_from_unique(r, (l[l.len() - 1] + 1) as u32, j as int, b as int);
        assert forall|x: int, y: int| listed(pairs@, 0, x, y) implies #[trigger] common(
            l,
            r,
            i as int,
            j as int,
            x,
            y,
        ) by {
            let k = choose|k: int|
                0 <= k < pairs@.len() && (#[trigger] pairs@[k]).0 == x && pairs@[k].1 == y;
            assert(common(l, r, 0, 0, pairs@[k].0 as int, pairs@[k].1 as int));
        }
    }
    (pairs, (a, b))
}

/// What a lead and a sought cursor do: the sought one goes to the document of
/// the lead, and, where it is not there, the lead to what was found.
pub open spec fn aligned(
    lead: Seq<PostingBlock>,
    at: Position,
    other: Seq<PostingBlock>,
    other_at: Position,
    r: Option<u32>,
    to: Position,
    other_to: Position,
) -> bool {
    let candidate = cursor::doc_at(lead, at);
    let found = cursor::doc_at(other, other_to);
    &&& other_to == cursor::seek_at(other, other_at, candidate)
    &&& if found == candidate {
        r == Some(candidate) && to == at
    } else {
        r is None && to == cursor::seek_at(lead, at, found)
    }
}

/// What two cursors in blocks that overlap do: they go to the first match
/// ahead in the two blocks, or else each past what the other block holds.
pub open spec fn compared(
    left: Seq<PostingBlock>,
    at: (int, int),
    right: Seq<PostingBlock>,
    other_at: (int, int),
    r: Option<u32>,
    to: Position,
    other_to: Position,
) -> bool {
    let (lb, i) = at;
    let (rb, j) = other_at;
    let l = left[lb].docs();
    let s = right[rb].docs();
    match r {
        Some(doc) => exists|a: int, b: int|
            {
                &&& #[trigger] common(l, s, i, j, a, b)
                &&& doc == l[a]
                &&& to == Some((lb, a))
                &&& other_to == Some((rb, b))
                &&& forall|c: int, d: int| #[trigger] common(l, s, i, j, c, d) ==> a <= c && b <= d
            },
        None => {
            &&& forall|a: int, b: int| !#[trigger] common(l, s, i, j, a, b)
            &&& to == cursor::block_at(left, lb, past(l, s, i))
            &&& other_to == cursor::block_at(right, rb, past(s, l, j))
        },
    }
}

/// Seek the second cursor to the document of the first, then, where it is
/// not there, the first to what was found.
fn align(lead: &mut BlockPostingIterator<'_>, other: &mut BlockPostingIterator<'_>) -> (r: Option<u32>)
    requires
        old(lead).wf(),
        old(other).wf(),
    ensures
        final(lead).wf(),
        final(other).wf(),
        final(lead).list() == old(lead).list(),
        final(other).list() == old(other).list(),
        cursor::moved_on(old(lead).at(), final(lead).at()),
        cursor::moved_on(old(other).at(), final(other).at()),
        aligned(
            old(lead).blocks(),
            old(lead).at(),
            old(other).blocks(),
            old(other).at(),
            r,
            final(lead).at(),
            final(other).at(),
        ),
{
    proof {
        lead.facts();
        other.facts();
    }
    let candidate: u32 = lead.doc();
    let next: u32 = other.seek(candidate);
    proof {
        cursor::moves_on(old(other).blocks(), old(other).at(), candidate);
        cursor::moves_on(old(lead).blocks(), old(lead).at(), next);
    }
    if next == candidate {
        return Some(candidate);
    }
    lead.seek(next);
    None
}

/// Scratch for the intersection of two cursors that only move on. The matches
/// of the two blocks that were compared last are kept.
pub struct PostingIntersection {
    /// Whether the rarer cursor leads and the other one is sought.
    pub seek_driven: bool,
    pub left_is_rare: bool,
    /// The blocks that were compared last.
    pub blocks: (usize, usize),
    /// Their matches; those before `next` are used up.
    pub pairs: Vec<(u8, u8)>,
    pub next: usize,
    /// Where each of them goes past the other.
    pub ends: (usize, usize),
}

impl Default for PostingIntersection {
    fn default() -> (r: Self)
        ensures
            !r.seek_driven,
            r.left_is_rare,
            r.is_empty(),
    {
        PostingIntersection {
            seek_driven: false,
            left_is_rare: true,
            blocks: (usize::MAX, usize::MAX),
            pairs: Vec::new(),
            next: 0,
            ends: (0, 0),
        }
    }
}

impl PostingIntersection {
    /// Whether nothing is kept.
    pub open spec fn is_empty(&self) -> bool {
        self.blocks == (usize::MAX, usize::MAX)
    }

    /// Whether what is kept of two blocks covers all matches from `i` and `j`
    /// on, but for the one that the cursors are on.
    pub open spec fn covers(&self, l: Seq<u32>, i: int, r: Seq<u32>, j: int) -> bool {
        &&& self.next <= self.pairs@.len()
        &&& matched(self.pairs@, l, r)
        &&& forall|a: int, b: int| #[trigger]
            common(l, r, i, j, a, b) ==> a == i && b == j || listed(
                self.pairs@,
                self.next as int,
                a,
                b,
            )
        &&& past(l, r, i) == (if i <= self.ends.0 {
            self.ends.0 as int
        } else {
            i
        })
        &&& past(r, l, j) == (if j <= self.ends.1 {
            self.ends.1 as int
        } else {
            j
        })
    }

    /// Whether what is kept can be used with two cursors: nothing is, or they
    /// have not gone back since.
    pub open spec fn fits(
        &self,
        left: Seq<PostingBlock>,
        at: Position,
        right: Seq<PostingBlock>,
        other_at: Position,
    ) -> bool {
        self.is_empty() || match (at, other_at) {
            (Some((lb, i)), Some((rb, j))) => {
                &&& self.blocks.0 <= lb
                &&& self.blocks.1 <= rb
                &&& self.blocks.0 == lb && self.blocks.1 == rb ==> self.covers(
                    left[lb].docs(),
                    i,
                    right[rb].docs(),
                    j,
                )
            },
            _ => true,
        }
    }

    /// What one step of the intersection does.
    pub open spec fn steps(
        &self,
        left: Seq<PostingBlock>,
        at: Position,
        right: Seq<PostingBlock>,
        other_at: Position,
        r: Option<u32>,
        to: Position,
        other_to: Position,
    ) -> bool {
        match (at, other_at) {
            (Some((lb, i)), Some((rb, j))) => {
                let x = cursor::doc_at(left, at);
                let y = cursor::doc_at(right, other_at);
                if x == y {
                    r == Some(x) && to == at && other_to == other_at
                } else if self.seek_driven {
                    if self.left_is_rare {
                        aligned(left, at, right, other_at, r, to, other_to)
                    } else {
                        aligned(right, other_at, left, at, r, other_to, to)
                    }
                } else if left[lb].last < y {
                    r is None && to == cursor::seek_at(left, at, y) && other_to == other_at
                } else if right[rb].last < x {
                    r is None && to == at && other_to == cursor::seek_at(right, other_at, x)
                } else {
                    compared(left, (lb, i), right, (rb, j), r, to, other_to)
                }
            },
            _ => r == Some(TERMINATED) && to == at && other_to == other_at,
        }
    }

    /// What is kept stays usable as the cursors move on.
    pub proof fn fits_later(
        &self,
        left: Seq<PostingBlock>,
        at: Position,
        to: Position,
        right: Seq<PostingBlock>,
        other_at: Position,
        other_to: Position,
    )
        requires
            self.fits(left, at, right, other_at),
            cursor::valid_at(left, at),
            cursor::valid_at(left, to),
            cursor::valid_at(right, other_at),
            cursor::valid_at(right, other_to),
            cursor::moved_on(at, to),
            cursor::moved_on(other_at, other_to),
        ensures
            self.fits(left, to, right, other_to),
    {
        if let (Some((lb, i)), Some((rb, j))) = (at, other_at) {
            if let (Some((lc, m)), Some((rc, n))) = (to, other_to) {
                if !self.is_empty() && self.blocks.0 == lc && self.blocks.1 == rc {
                    let l = left[lb].docs();
                    let r = right[rb].docs();
                    cursor::lower_from_later(l, (r[r.len() - 1] + 1) as u32, i, m);
                    cursor::lower_from_later(r, (l[l.len() - 1] + 1) as u32, j, n);
                    assert forall|a: int, b: int| #[trigger]
                        common(l, r, m, n, a, b) implies a == m && b == n || listed(
                        self.pairs@,
                        self.next as int,
                        a,
                        b,
                    ) by {
                        assert(common(l, r, i, j, a, b));
                    }
                }
            }
        }
    }

    /// Choose by the posting counts of the two lists whether seeks of the
    /// rarer one lead.
    pub fn with_costs(left: u32, right: u32) -> (r: Self)
        ensures
            r.left_is_rare == (left <= right),
            r.seek_driven == (4 * (if left <= right {
                left
            } else {
                right
            }) < (if left <= right {
                right
            } else {
                left
            })),
            r.is_empty(),
    {
        let (low, high): (u32, u32) = if left <= right {
            (left, right)
        } else {
            (right, left)
        };
        let mut r = PostingIntersection::default();
        r.seek_driven = 4 * (low as u64) < high as u64;
        r.left_is_rare = left <= right;
        r
    }

    /// Forget the matches that are kept, before a cursor goes back.
    pub fn reset(&mut self)
        ensures
            final(self).is_empty(),
            final(self).seek_driven == old(self).seek_driven,
            final(self).left_is_rare == old(self).left_is_rare,
    {
        self.blocks = (usize::MAX, usize::MAX);
    }

    /// Move two cursors toward their next common document. `Some` parks both
    /// on it, or says that one of them has ended; `None` comes at a block
    /// boundary, so that a caller can check for cancellation.
    pub fn intersect_block(
        &mut self,
        left: &mut BlockPostingIterator<'_>,
        right: &mut BlockPostingIterator<'_>,
    ) -> (r: Option<u32>)
        requires
            old(left).wf(),
            old(right).wf(),
            old(self).fits(
                old(left).blocks(),
                old(left).at(),
                old(right).blocks(),
                old(right).at(),
            ),
        ensures
            final(left).wf(),
            final(right).wf(),
            final(left).list() == old(left).list(),
            final(right).list() == old(right).list(),
            final(self).seek_driven == old(self).seek_driven,
            final(self).left_is_rare == old(self).left_is_rare,
            final(self).fits(
                final(left).blocks(),
                final(left).at(),
                final(right).blocks(),
                final(right).at(),
            ),
            old(self).steps(
                old(left).blocks(),
                old(left).at(),
                old(right).blocks(),
                old(right).at(),
                r,
                final(left).at(),
                final(right).at(),
            ),
    {
        proof {
            left.facts();
            right.facts();
        }
        if left.exhausted || right.exhausted {
            return Some(TERMINATED);
        }
        let a: u32 = left.doc();
        let b: u32 = right.doc();
        if a == b {
            return Some(a);
        }
        proof {
            cursor::moves_on(left.blocks(), left.at(), b);
            cursor::moves_on(right.blocks(), right.at(), a);
        }
        if self.seek_driven {
            let r = if self.left_is_rare {
                align(left, right)
            } else {
                align(right, left)
            };
            proof {
                self.fits_moved(old(left), left, old(right), right);
            }
            return r;
        }
        let left_last: u32 = left.block_doc_ids[left.block_doc_ids.len() - 1];
        let right_last: u32 = right.block_doc_ids[right.block_doc_ids.len() - 1];
        if left_last < b {
            left.seek(b);
            proof {
                self.fits_moved(old(left), left, old(right), right);
            }
            return None;
        }
        if right_last < a {
            right.seek(a);
            proof {
                self.fits_moved(old(left), left, old(right), right);
            }
            return None;
        }
        self.compare(left, right)
    }

    proof fn fits_moved(
        &self,
        left: &BlockPostingIterator<'_>,
        left_to: &BlockPostingIterator<'_>,
        right: &BlockPostingIterator<'_>,
        right_to: &BlockPostingIterator<'_>,
    )
        requires
            left.wf(),
            left_to.wf(),
            right.wf(),
            right_to.wf(),
            left_to.list() == left.list(),
            right_to.list() == right.list(),
            self.fits(left.blocks(), left.at(), right.blocks(), right.at()),
            cursor::moved_on(left.at(), left_to.at()),
            cursor::moved_on(right.at(), right_to.at()),
        ensures
            self.fits(left.blocks(), left_to.at(), right.blocks(), right_to.at()),
    {
        left.facts();
        left_to.facts();
        right.facts();
        right_to.facts();
        self.fits_later(
            left.blocks(),
            left.at(),
            left_to.at(),
            right.blocks(),
            right.at(),
            right_to.at(),
        );
    }

    /// Compare the two current blocks, once for each pair of them, and go to
    /// the next match, or past both.
    fn compare(
        &mut self,
        left: &mut BlockPostingIterator<'_>,
        right: &mut BlockPostingIterator<'_>,
    ) -> (r: Option<u32>)
        requires
            old(left).wf(),
            old(right).wf(),
            !old(left).exhausted,
            !old(right).exhausted,
            cursor::doc_at(old(left).blocks(), old(left).at()) != cursor::doc_at(
                old(right).blocks(),
                old(right).at(),
            ),
            old(self).fits(
                old(left).blocks(),
                old(left).at(),
                old(right).blocks(),
                old(right).at(),
            ),
        ensures
            final(left).wf(),
            final(right).wf(),
            final(left).list() == old(left).list(),
            final(right).list() == old(right).list(),
            final(self).seek_driven == old(self).seek_driven,
            final(self).left_is_rare == old(self).left_is_rare,
            final(self).fits(
                final(left).blocks(),
                final(left).at(),
                final(right).blocks(),
                final(right).at(),
            ),
            compared(
                old(left).blocks(),
                old(left).at()->Some_0,
                old(right).blocks(),
                old(right).at()->Some_0,
                r,
                final(left).at(),
                final(right).at(),
            ),
    {
        proof {
            left.facts();
            right.facts();
        }
        let ghost l = left.block_doc_ids@;
        let ghost s = right.block_doc_ids@;
        let i: usize = left.position_in_block;
        let j: usize = right.position_in_block;
        if self.blocks.0 != left.current_block || self.blocks.1 != right.current_block {
            let (pairs, ends) = match_blocks(
                left.block_doc_ids.as_slice(),
                i,
                right.block_doc_ids.as_slice(),
                j,
            );
            self.blocks = (left.current_block, right.current_block);
            self.pairs = pairs;
            self.ends = ends;
            self.next = 0;
            proof {
                cursor::lower_from_is(l, (s[s.len() - 1] + 1) as u32, i as int);
                cursor::lower_from_is(s, (l[l.len() - 1] + 1) as u32, j as int);
            }
        }
        while self.next < self.pairs.len()
            invariant
                left.wf(),
                right.wf(),
                left.list() == old(left).list(),
                right.list() == old(right).list(),
                left.at() == old(left).at(),
                right.at() == old(right).at(),
                !left.exhausted,
                !right.exhausted,
                i == left.position_in_block,
                j == right.position_in_block,
                l == left.block_doc_ids@,
                s == right.block_doc_ids@,
                l[i as int] != s[j as int],
                self.blocks == (left.current_block, right.current_block),
                self.seek_driven == old(self).seek_driven,
                self.left_is_rare == old(self).left_is_rare,
                self.covers(l, i as int, s, j as int),
            decreases self.pairs@.len() - self.next,
        {
            let ghost at = self.next as int;
            let (a8, b8): (u8, u8) = self.pairs[self.next];
            let a: usize = a8 as usize;
            let b: usize = b8 as usize;
            proof {
                left.facts();
                right.facts();
                assert(common(l, s, 0, 0, self.pairs@[at].0 as int, self.pairs@[at].1 as int));
            }
            let ghost pairs = self.pairs@;
            self.next = self.next + 1;
            if a >= i && b >= j {
                proof {
                    assert(common(l, s, i as int, j as int, a as int, b as int));
                    assert forall|c: int, d: int| #[trigger]
                        common(l, s, i as int, j as int, c, d) implies a <= c && b <= d && (c == a
                        && d == b || listed(pairs, at + 1, c, d)) by {
                        let k = choose|k: int|
                            at <= k < pairs.len() && (#[trigger] pairs[k]).0 == c && pairs[k].1
                                == d;
                        if k > at {
                            assert(pairs[at].0 < pairs[k].0);
                        }
                    }
                    cursor::lower_from_later(l, (s[s.len() - 1] + 1) as u32, i as int, a as int);
                    cursor::lower_from_later(s, (l[l.len() - 1] + 1) as u32, j as int, b as int);
                    assert forall|c: int, d: int| #[trigger]
                        common(l, s, a as int, b as int, c, d) implies c == a && d == b || listed(
                        pairs,
                        at + 1,
                        c,
                        d,
                    ) by {
                        assert(common(l, s, i as int, j as int, c, d));
                    }
                    assert(self.covers(l, a as int, s, b as int));
                }
                left.move_within(a);
                right.move_within(b);
                return Some(left.doc());
            }
            proof {
                assert forall|c: int, d: int| #[trigger]
                    common(l, s, i as int, j as int, c, d) implies listed(pairs, at + 1, c, d) by {
                    let k = choose|k: int|
                        at <= k < pairs.len() && (#[trigger] pairs[k]).0 == c && pairs[k].1 == d;
                    assert(k > at);
                }
            }
        }
        let to: usize = if i <= self.ends.0 {
            self.ends.0
        } else {
            i
        };
        let other_to: usize = if j <= self.ends.1 {
            self.ends.1
        } else {
            j
        };
        proof {
            left.facts();
            right.facts();
            cursor::lower_from_is(l, (s[s.len() - 1] + 1) as u32, i as int);
            cursor::lower_from_is(s, (l[l.len() - 1] + 1) as u32, j as int);
            assert forall|c: int, d: int| !#[trigger]
                common(l, s, i as int, j as int, c, d) by {}
            cursor::block_rest(left.blocks(), left.current_block as int, i as int, to as int);
            cursor::block_rest(
                right.blocks(),
                right.current_block as int,
                j as int,
                other_to as int,
            );
        }
        left.move_within(to);
        right.move_within(other_to);
        proof {
            self.fits_moved(old(left), left, old(right), right);
        }
        None
    }
}

} // verus!
