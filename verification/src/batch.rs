//! Bulk reads of a posting cursor: document batches, membership words, runs
//! and the intersection of two cursors.
use crate::block;
use crate::codec::BLOCK_SIZE;
use crate::cursor;
use crate::gaps;
use crate::intersect_laws;
use crate::iterator::BlockPostingIterator;
use crate::list;
use crate::posting;
use crate::posting::Posting;
use crate::walk_laws;
use vstd::prelude::*;

verus! {

/// Number of leading postings before `end`.
pub open spec fn count_before(s: Seq<Posting>, end: u32) -> int {
    cursor::lower_from(posting::doc_ids(s), end, 0)
}

/// Whether bit `j` of a row of words is set.
pub open spec fn member(words: Seq<u64>, j: int) -> bool {
    (words[j / 64] >> ((j % 64) as u64)) & 1 == 1
}

/// Setting a bit sets that bit.
proof fn set_bit(w: u64, s: u64, t: u64)
    requires
        s < 64,
        t < 64,
    ensures
        ((w | (1u64 << s)) >> t) & 1 == 1 <==> (s == t || (w >> t) & 1 == 1),
{
    assert(((w | (1u64 << s)) >> t) & 1 == 1 <==> (s == t || (w >> t) & 1 == 1)) by (bit_vector)
        requires
            s < 64,
            t < 64,
    ;
}

impl<'a> BlockPostingIterator<'a> {
    /// Copy the documents ahead into a buffer and step past them. Gives how
    /// many there were room and postings for.
    pub fn fill_doc_batch(&mut self, docs: &mut [u32]) -> (count: usize)
        requires
            old(self).wf(),
            old(docs)@.len() <= BLOCK_SIZE,
        ensures
            final(self).wf(),
            final(self).list() == old(self).list(),
            count <= old(docs)@.len(),
            count <= old(self).rest().len(),
            count == old(docs)@.len() || count == old(self).rest().len(),
            final(self).rest() == old(self).rest().skip(count as int),
            final(docs)@ == posting::doc_ids(old(self).rest().take(count as int)) + old(docs)@.skip(
                count as int,
            ),
    {
        let ghost all = self.rest();
        let ghost before = docs@;
        let mut count: usize = 0;
        proof {
            assert(all.skip(0) =~= all);
            assert(docs@ =~= posting::doc_ids(all.take(0)) + before.skip(0));
            self.facts();
        }
        while count < docs.len() && !self.exhausted
            invariant
                self.wf(),
                self.list() == old(self).list(),
                before == old(docs)@,
                all == old(self).rest(),
                docs@.len() == before.len(),
                count <= before.len(),
                count <= all.len(),
                self.rest() == all.skip(count as int),
                docs@ == posting::doc_ids(all.take(count as int)) + before.skip(count as int),
            decreases docs@.len() - count,
        {
            proof {
                self.facts();
                cursor::next_rest(self.blocks(), self.at());
                assert(all[count as int] == self.rest()[0]);
            }
            let doc: u32 = self.doc();
            docs[count] = doc;
            self.advance();
            proof {
                assert(all.skip(count as int).skip(1) =~= all.skip(count + 1));
                assert(docs@ =~= posting::doc_ids(all.take(count + 1)) + before.skip(count + 1));
            }
            count = count + 1;
        }
        count
    }

    /// The same, with the term frequencies.
    pub fn fill_scored_doc_batch(&mut self, docs: &mut [u32], tfs: &mut [u32]) -> (count: usize)
        requires
            old(self).wf(),
            old(docs)@.len() <= BLOCK_SIZE,
            old(tfs)@.len() >= old(docs)@.len(),
        ensures
            final(self).wf(),
            final(self).list() == old(self).list(),
            count <= old(docs)@.len(),
            count <= old(self).rest().len(),
            count == old(docs)@.len() || count == old(self).rest().len(),
            final(self).rest() == old(self).rest().skip(count as int),
            final(docs)@ == posting::doc_ids(old(self).rest().take(count as int)) + old(docs)@.skip(
                count as int,
            ),
            final(tfs)@ == posting::term_freqs(old(self).rest().take(count as int)) + old(
                tfs,
            )@.skip(count as int),
    {
        let ghost all = self.rest();
        let ghost before = docs@;
        let ghost before_tfs = tfs@;
        let mut count: usize = 0;
        proof {
            assert(all.skip(0) =~= all);
            assert(docs@ =~= posting::doc_ids(all.take(0)) + before.skip(0));
            assert(tfs@ =~= posting::term_freqs(all.take(0)) + before_tfs.skip(0));
            self.facts();
        }
        while count < docs.len() && !self.exhausted
            invariant
                self.wf(),
                self.list() == old(self).list(),
                before == old(docs)@,
                before_tfs == old(tfs)@,
                all == old(self).rest(),
                docs@.len() == before.len(),
                tfs@.len() == before_tfs.len(),
                before.len() <= before_tfs.len(),
                count <= before.len(),
                count <= all.len(),
                self.rest() == all.skip(count as int),
                docs@ == posting::doc_ids(all.take(count as int)) + before.skip(count as int),
                tfs@ == posting::term_freqs(all.take(count as int)) + before_tfs.skip(count as int),
            decreases docs@.len() - count,
        {
            proof {
                self.facts();
                cursor::next_rest(self.blocks(), self.at());
                assert(all[count as int] == self.rest()[0]);
            }
            self.cache_tfs();
            let doc: u32 = self.doc();
            let tf: u32 = self.term_freq();
            docs[count] = doc;
            tfs[count] = tf;
            self.advance();
            proof {
                assert(all.skip(count as int).skip(1) =~= all.skip(count + 1));
                assert(docs@ =~= posting::doc_ids(all.take(count + 1)) + before.skip(count + 1));
                assert(tfs@ =~= posting::term_freqs(all.take(count + 1)) + before_tfs.skip(
                    count + 1,
                ));
            }
            count = count + 1;
        }
        count
    }

    /// Keep the documents of a batch that are in the list, in place. They are
    /// sought in turn, so a batch in order keeps just its members.
    pub fn retain_doc_batch(&mut self, docs: &mut [u32]) -> (kept: usize)
        requires
            old(self).wf(),
            old(docs)@.len() <= BLOCK_SIZE,
        ensures
            final(self).wf(),
            final(self).list() == old(self).list(),
            final(self).at() == cursor::probe_at(
                old(self).blocks(),
                old(self).at(),
                old(docs)@,
                old(docs)@.len() as int,
            ),
            ({
                let found = cursor::hits(
                    old(self).blocks(),
                    old(self).at(),
                    old(docs)@,
                    old(docs)@.len() as int,
                );
                &&& kept == found.len()
                &&& final(docs)@ == posting::doc_ids(found) + old(docs)@.skip(kept as int)
            }),
            list::all_sound(old(self).blocks()) && gaps::ascending(old(docs)@) ==> {
                let ahead = old(self).rest();
                &&& final(docs)@.take(kept as int) == old(docs)@.filter(
                    |doc: u32| intersect_laws::has_doc(ahead, doc),
                )
            },
    {
        let ghost bs = self.blocks();
        let ghost from = self.at();
        let ghost all = docs@;
        let n: usize = docs.len();
        let mut input: usize = 0;
        let mut kept: usize = 0;
        proof {
            assert(docs@ =~= posting::doc_ids(cursor::hits(bs, from, all, 0)) + all.skip(0));
        }
        while input < n && !self.exhausted
            invariant
                self.wf(),
                self.list() == old(self).list(),
                bs == self.blocks(),
                from == old(self).at(),
                all == old(docs)@,
                n == all.len(),
                n == docs@.len(),
                kept <= input <= n,
                self.at() == cursor::probe_at(bs, from, all, input as int),
                kept == cursor::hits(bs, from, all, input as int).len(),
                docs@ == posting::doc_ids(cursor::hits(bs, from, all, input as int)) + all.skip(
                    kept as int,
                ),
            decreases n - input,
        {
            let doc: u32 = docs[input];
            proof {
                self.facts();
                assert(doc == all[input as int]);
            }
            let at: u32 = self.seek(doc);
            proof {
                self.facts();
            }
            if !self.exhausted && at == doc {
                docs[kept] = doc;
                proof {
                    let h = cursor::hits(bs, from, all, input + 1);
                    assert(docs@ =~= posting::doc_ids(h) + all.skip(kept + 1));
                }
                kept = kept + 1;
            }
            input = input + 1;
        }
        proof {
            if self.exhausted {
                cursor::exhausted_probes(bs, from, all, input as int, n as int);
            }
            if list::all_sound(bs) && gaps::ascending(all) {
                old(self).facts();
                intersect_laws::batch_keeps_members(bs, from, all);
                let found = cursor::hits(bs, from, all, n as int);
                assert(docs@.take(kept as int) =~= posting::doc_ids(found));
            }
        }
        kept
    }

    /// The same, with the term frequencies of the documents kept.
    pub fn retain_scored_doc_batch(&mut self, docs: &mut [u32], tfs: &mut [u32]) -> (kept: usize)
        requires
            old(self).wf(),
            old(docs)@.len() <= BLOCK_SIZE,
            old(tfs)@.len() >= old(docs)@.len(),
        ensures
            final(self).wf(),
            final(self).list() == old(self).list(),
            final(self).at() == cursor::probe_at(
                old(self).blocks(),
                old(self).at(),
                old(docs)@,
                old(docs)@.len() as int,
            ),
            ({
                let found = cursor::hits(
                    old(self).blocks(),
                    old(self).at(),
                    old(docs)@,
                    old(docs)@.len() as int,
                );
                &&& kept == found.len()
                &&& final(docs)@ == posting::doc_ids(found) + old(docs)@.skip(kept as int)
                &&& final(tfs)@ == posting::term_freqs(found) + old(tfs)@.skip(kept as int)
            }),
            list::all_sound(old(self).blocks()) && gaps::ascending(old(docs)@) ==> {
                let ahead = old(self).rest();
                &&& final(docs)@.take(kept as int) == old(docs)@.filter(
                    |doc: u32| intersect_laws::has_doc(ahead, doc),
                )
                &&& forall|k: int|
                    0 <= k < kept ==> ahead.contains(
                        Posting {
                            doc_id: #[trigger] final(docs)@[k],
                            term_freq: final(tfs)@[k],
                        },
                    )
            },
    {
        let ghost bs = self.blocks();
        let ghost from = self.at();
        let ghost all = docs@;
        let ghost all_tfs = tfs@;
        let n: usize = docs.len();
        let mut input: usize = 0;
        let mut kept: usize = 0;
        proof {
            let h = cursor::hits(bs, from, all, 0);
            assert(docs@ =~= posting::doc_ids(h) + all.skip(0));
            assert(tfs@ =~= posting::term_freqs(h) + all_tfs.skip(0));
        }
        while input < n && !self.exhausted
            invariant
                self.wf(),
                self.list() == old(self).list(),
                bs == self.blocks(),
                from == old(self).at(),
                all == old(docs)@,
                all_tfs == old(tfs)@,
                n == all.len(),
                n == docs@.len(),
                n <= tfs@.len(),
                tfs@.len() == all_tfs.len(),
                kept <= input <= n,
                self.at() == cursor::probe_at(bs, from, all, input as int),
                kept == cursor::hits(bs, from, all, input as int).len(),
                docs@ == posting::doc_ids(cursor::hits(bs, from, all, input as int)) + all.skip(
                    kept as int,
                ),
                tfs@ == posting::term_freqs(cursor::hits(bs, from, all, input as int))
                    + all_tfs.skip(kept as int),
            decreases n - input,
        {
            let doc: u32 = docs[input];
            proof {
                self.facts();
                assert(doc == all[input as int]);
            }
            let at: u32 = self.seek(doc);
            proof {
                self.facts();
            }
            if !self.exhausted && at == doc {
                self.cache_tfs();
                let tf: u32 = self.term_freq();
                docs[kept] = doc;
                tfs[kept] = tf;
                proof {
                    let h = cursor::hits(bs, from, all, input + 1);
                    assert(docs@ =~= posting::doc_ids(h) + all.skip(kept + 1));
                    assert(tfs@ =~= posting::term_freqs(h) + all_tfs.skip(kept + 1));
                }
                kept = kept + 1;
            }
            input = input + 1;
        }
        proof {
            if self.exhausted {
                cursor::exhausted_probes(bs, from, all, input as int, n as int);
            }
            if list::all_sound(bs) && gaps::ascending(all) {
                old(self).facts();
                intersect_laws::batch_keeps_members(bs, from, all);
                let found = cursor::hits(bs, from, all, n as int);
                assert(docs@.take(kept as int) =~= posting::doc_ids(found));
                assert forall|k: int| 0 <= k < kept implies old(self).rest().contains(
                    Posting { doc_id: #[trigger] docs@[k], term_freq: tfs@[k] },
                ) by {
                    assert(docs@[k] == posting::doc_ids(found)[k]);
                    assert(tfs@[k] == posting::term_freqs(found)[k]);
                    assert(found[k] == (Posting { doc_id: docs@[k], term_freq: tfs@[k] }));
                }
            }
        }
        kept
    }

    /// Seek `base`, then consume a range of documents into membership words:
    /// bit `j` is set if and only if document `base + j` was consumed.
    pub fn fill_doc_window(&mut self, base: u32, bits: &mut [u64])
        requires
            old(self).wf(),
            64 * old(bits)@.len() <= u32::MAX,
        ensures
            final(self).wf(),
            final(self).list() == old(self).list(),
            final(bits)@.len() == old(bits)@.len(),
            ({
                let from = cursor::rest_at(
                    old(self).blocks(),
                    cursor::seek_at(old(self).blocks(), old(self).at(), base),
                );
                let end = base + 64 * old(bits)@.len();
                let n = count_before(
                    from,
                    if end <= u32::MAX {
                        end as u32
                    } else {
                        u32::MAX
                    },
                );
                &&& final(self).rest() == from.skip(n)
                &&& forall|j: int|
                    0 <= j < 64 * old(bits)@.len() ==> (#[trigger] member(final(bits)@, j)
                        <==> posting::doc_ids(from.take(n)).contains((base + j) as u32) && base + j
                        <= u32::MAX)
            }),
            list::all_sound(old(self).blocks()) ==> forall|j: int|
                0 <= j < 64 * old(bits)@.len() ==> (#[trigger] member(final(bits)@, j) <==> base + j
                    <= u32::MAX && intersect_laws::has_doc(old(self).rest(), (base + j) as u32)),
    {
        let words: usize = bits.len();
        let span: u32 = words as u32 * 64;
        let end: u32 = if base > u32::MAX - span {
            u32::MAX
        } else {
            base + span
        };
        let mut k: usize = 0;
        while k < words
            invariant
                k <= words == bits@.len(),
                forall|i: int| 0 <= i < k ==> bits@[i] == 0,
            decreases words - k,
        {
            bits[k] = 0;
            k = k + 1;
        }
        self.seek(base);
        let ghost from = self.rest();
        let ghost bs = self.blocks();
        let ghost mut c: int = 0;
        proof {
            old(self).facts();
            cursor::seek_valid(old(self).blocks(), old(self).at(), base);
            assert(from.skip(0) =~= from);
            assert(0u64 & 1 == 0) by (bit_vector);
            assert forall|j: int| 0 <= j < 64 * words implies !#[trigger] member(bits@, j) by {
                let t = (j % 64) as u64;
                assert((0u64 >> t) & 1 == 0) by (bit_vector)
                    requires
                        t < 64,
                ;
            }
        }
        while self.doc() < end
            invariant
                self.wf(),
                self.list() == old(self).list(),
                bs == self.blocks(),
                words == bits@.len(),
                64 * words <= u32::MAX,
                end == (if base + 64 * words <= u32::MAX {
                    base + 64 * words
                } else {
                    u32::MAX as int
                }),
                0 <= c <= from.len(),
                self.rest() == from.skip(c),
                self.at() is Some ==> cursor::doc_at(bs, self.at()) >= base,
                forall|i: int| 0 <= i < c ==> base <= (#[trigger] from[i]).doc_id < end,
                forall|j: int|
                    0 <= j < 64 * words ==> (#[trigger] member(bits@, j) <==> exists|i: int|
                        0 <= i < c && #[trigger] from[i].doc_id == base + j),
            decreases from.len() - c,
        {
            proof {
                self.facts();
                cursor::next_rest(bs, self.at());
                cursor::next_larger(bs, self.at());
                assert(self.rest()[0] == from[c]);
            }
            let doc: u32 = self.doc();
            let offset: u32 = doc - base;
            let word: usize = (offset / 64) as usize;
            let shift: u64 = (offset % 64) as u64;
            let ghost before = bits@;
            bits[word] = bits[word] | (1u64 << shift);
            proof {
                assert forall|j: int| 0 <= j < 64 * words implies (#[trigger] member(bits@, j)
                    <==> exists|i: int| 0 <= i < c + 1 && #[trigger] from[i].doc_id == base + j) by {
                    assert(member(before, j) <==> exists|i: int|
                        0 <= i < c && #[trigger] from[i].doc_id == base + j);
                    if j / 64 == word {
                        set_bit(before[word as int], shift, (j % 64) as u64);
                    }
                    assert(j == offset <==> j / 64 == word && j % 64 == shift);
                    assert(from[c].doc_id == base + offset);
                }
                assert(from.skip(c).skip(1) =~= from.skip(c + 1));
                c = c + 1;
            }
            self.advance();
        }
        proof {
            self.facts();
            if self.at() is Some {
                cursor::next_rest(bs, self.at());
                assert(self.rest()[0] == from[c]);
            } else {
                assert(from.skip(c).len() == 0);
            }
            cursor::lower_from_unique(posting::doc_ids(from), end, 0, c);
            let taken = posting::doc_ids(from.take(c));
            assert forall|j: int| 0 <= j < 64 * words implies (#[trigger] member(bits@, j)
                <==> taken.contains((base + j) as u32) && base + j <= u32::MAX) by {
                if exists|i: int| 0 <= i < c && #[trigger] from[i].doc_id == base + j {
                    let i = choose|i: int| 0 <= i < c && #[trigger] from[i].doc_id == base + j;
                    assert(taken[i] == (base + j) as u32);
                }
                if taken.contains((base + j) as u32) && base + j <= u32::MAX {
                    let i = choose|i: int| 0 <= i < taken.len() && taken[i] == (base + j) as u32;
                    assert(from[i].doc_id == base + j);
                }
            }
            if list::all_sound(bs) {
                old(self).facts();
                assert forall|j: int| 0 <= j < 64 * words implies (#[trigger] member(bits@, j)
                    <==> base + j <= u32::MAX && intersect_laws::has_doc(
                    old(self).rest(),
                    (base + j) as u32,
                )) by {
                    if base + j <= u32::MAX {
                        walk_laws::window_has_ahead(
                            bs,
                            old(self).at(),
                            base,
                            end,
                            (base + j) as u32,
                        );
                    }
                }
            }
        }
    }

    /// The decoded run ahead, at most the rest of one block, of documents
    /// before `end`. Nothing is consumed.
    pub fn doc_run(&self, end: u32) -> (r: &[u32])
        requires
            self.wf(),
        ensures
            self.at() is None ==> r@.len() == 0,
            self.at() matches Some((b, k)) ==> r@ == self.blocks()[b].docs().subrange(
                k,
                cursor::lower_from(self.blocks()[b].docs(), end, k),
            ),
    {
        proof {
            self.facts();
        }
        let docs = self.block_doc_ids.as_slice();
        if self.exhausted {
            return vstd::slice::slice_subrange(docs, 0, 0);
        }
        let at: usize = posting::lower_bound(docs, self.position_in_block, end);
        proof {
            cursor::lower_from_unique(docs@, end, self.position_in_block as int, at as int);
        }
        vstd::slice::slice_subrange(docs, self.position_in_block, at)
    }

    /// The term frequencies of the decoded run ahead.
    pub fn tf_run(&mut self, end: u32) -> (r: Vec<u32>)
        requires
            old(self).wf(),
        ensures
            final(self).wf(),
            final(self).list() == old(self).list(),
            final(self).at() == old(self).at(),
            final(self).position() == old(self).position(),
            old(self).at() is None ==> r@.len() == 0,
            old(self).at() matches Some((b, k)) ==> r@ == old(self).blocks()[b].tfs().subrange(
                k,
                cursor::lower_from(old(self).blocks()[b].docs(), end, k),
            ),
    {
        proof {
            self.facts();
        }
        if self.exhausted {
            return Vec::new();
        }
        self.cache_tfs();
        let from: usize = self.position_in_block;
        let n: usize = self.doc_run(end).len();
        proof {
            cursor::lower_from_is(self.block_doc_ids@, end, from as int);
        }
        let tfs = self.frequencies();
        let mut r: Vec<u32> = Vec::new();
        let mut i: usize = 0;
        while i < n
            invariant
                i <= n,
                from + n <= tfs.len(),
                r@ == tfs@.subrange(from as int, from + i),
            decreases n - i,
        {
            r.push(tfs[from + i]);
            proof {
                assert(r@ =~= tfs@.subrange(from as int, from + i + 1));
            }
            i = i + 1;
        }
        r
    }

    /// Step past the decoded run ahead.
    pub fn consume_run(&mut self, end: u32)
        requires
            old(self).wf(),
        ensures
            final(self).wf(),
            final(self).list() == old(self).list(),
            old(self).at() is None ==> final(self).at() is None,
            old(self).at() matches Some((b, k)) ==> ({
                let n = cursor::lower_from(old(self).blocks()[b].docs(), end, k) - k;
                &&& final(self).rest() == old(self).rest().skip(n)
                &&& final(self).at() == cursor::block_at(old(self).blocks(), b, k + n)
            }),
    {
        proof {
            self.facts();
        }
        if self.exhausted {
            return;
        }
        let n: usize = self.doc_run(end).len();
        proof {
            cursor::lower_from_is(self.block_doc_ids@, end, self.position_in_block as int);
        }
        self.move_within(self.position_in_block + n);
    }
}

} // verus!
