//! Construction of envelope tables.
use crate::bounds;
use crate::bytes;
use crate::envelope;
use crate::envelope::Point;
use crate::error::PostingError;
use crate::impacts;
use crate::impacts::ImpactTable;
use crate::impacts::MAX_RECORD_BYTES;
use crate::vint;
use vstd::prelude::*;

verus! {

/// Collects the records of a table with a fixed number of places.
#[derive(Debug)]
pub struct ImpactBuilder {
    /// Places for records.
    pub blocks: usize,
    /// The records so far.
    pub records: Vec<Vec<u8>>,
}

impl View for ImpactBuilder {
    type V = Seq<Seq<u8>>;

    open spec fn view(&self) -> Seq<Seq<u8>> {
        Seq::new(self.records@.len(), |i: int| self.records@[i]@)
    }
}

/// Bytes that a table of `blocks` records can take.
pub open spec fn budget_spec(blocks: int) -> int {
    4 * (blocks + 1) + 81 * blocks
}

/// All points of the records from `from` up to `to`.
pub open spec fn joined_points(records: Seq<Seq<u8>>, from: int, to: int) -> Seq<Point>
    decreases to - from,
{
    if to <= from {
        Seq::empty()
    } else {
        joined_points(records, from, to - 1) + impacts::record_points(records[to - 1])
    }
}

/// Whether `record` is the record of group `g` of the first `n` records: a
/// copy where one is given, unknown if a member is unknown, and else the
/// envelope of the members' points.
pub open spec fn is_group_record(
    record: Seq<u8>,
    records: Seq<Seq<u8>>,
    n: int,
    g: int,
    copy: Option<Seq<u8>>,
) -> bool {
    let from = 8 * g;
    let to = bounds::group_end(n, g);
    match copy {
        Some(c) => record == c,
        None => if exists|k: int| from <= k < to && (#[trigger] records[k]).len() == 0 {
            record == Seq::<u8>::empty()
        } else {
            impacts::is_record_of(record, joined_points(records, from, to))
        },
    }
}

/// The bytes behind an optional copy.
pub open spec fn copy_view(copy: Option<Vec<u8>>) -> Option<Seq<u8>> {
    match copy {
        Some(c) => Some(c@),
        None => None,
    }
}

/// The record that envelope construction makes of up to 128 points.
pub fn encode_record(points: &[Point]) -> (r: Vec<u8>)
    requires
        points.len() <= 128,
    ensures
        impacts::is_record_of(r@, points@),
        impacts::record_check(r@) is Ok,
        r.len() <= 81,
{
    let mut r: Vec<u8> = Vec::new();
    proof {
        assert(r@ =~= Seq::empty());
    }
    if points.len() == 0 {
        return r;
    }
    let mut i: usize = 0;
    while i < points.len()
        invariant
            i <= points.len(),
            r@ == Seq::<u8>::empty(),
            forall|k: int| 0 <= k < i ==> envelope::positive(#[trigger] points@[k]),
        decreases points.len() - i,
    {
        if points[i].0 == 0 || points[i].1 == 0 {
            proof {
                assert(!envelope::positive(points@[i as int]));
            }
            return r;
        }
        i += 1;
    }
    let h: Vec<Point> = envelope::envelope(points);
    proof {
        impacts::record_roundtrip(h@);
        assert(envelope::is_envelope(h@, points@));
    }
    if h.len() > 8 {
        return r;
    }
    r.push(h.len() as u8);
    let ghost head = r@;
    let mut i: usize = 0;
    proof {
        assert(head + impacts::point_bytes(h@.take(0)) =~= head);
    }
    while i < h.len()
        invariant
            i <= h.len(),
            r@ == head + impacts::point_bytes(h@.take(i as int)),
        decreases h.len() - i,
    {
        vint::write_vint(&mut r, h[i].0 as u64);
        vint::write_vint(&mut r, h[i].1 as u64);
        proof {
            assert(h@.take(i + 1).drop_last() =~= h@.take(i as int));
            assert(r@ =~= head + impacts::point_bytes(h@.take(i + 1)));
        }
        i += 1;
    }
    proof {
        assert(h@.take(h@.len() as int) =~= h@);
        assert(r@ =~= impacts::record_of(h@));
    }
    r
}

/// Whether all records have the size and shape of a record.
pub open spec fn records_fit(records: Seq<Seq<u8>>) -> bool {
    forall|i: int|
        0 <= i < records.len() ==> (#[trigger] records[i]).len() <= 81 && impacts::record_check(
            records[i],
        ) is Ok
}

proof fn payload_bound(records: Seq<Seq<u8>>, n: int)
    requires
        0 <= n <= records.len(),
        records_fit(records),
    ensures
        0 <= bytes::joined_len(records, n) <= 81 * n,
        bytes::joined_len(records, n) == 0 <==> forall|i: int|
            0 <= i < n ==> (#[trigger] records[i]).len() == 0,
    decreases n,
{
    if n > 0 {
        payload_bound(records, n - 1);
        assert(records[n - 1].len() <= 81);
    }
}

impl ImpactBuilder {
    /// Whether the records fit their places.
    pub open spec fn wf(&self) -> bool {
        &&& self@.len() <= self.blocks
        &&& 81 * self.blocks <= u32::MAX
        &&& budget_spec(self.blocks as int) <= usize::MAX
        &&& records_fit(self@)
    }

    /// Bytes that a table of `blocks` records can take, if addressable.
    pub fn budget(blocks: usize) -> (r: Option<usize>)
        ensures
            r is Some <==> budget_spec(blocks as int) <= usize::MAX,
            r matches Some(n) ==> n == budget_spec(blocks as int),
    {
        if blocks <= (usize::MAX - 4) / 85 {
            Some(85 * blocks + 4)
        } else {
            None
        }
    }

    /// As `budget`, with a record for every group of eight blocks too.
    pub fn budget_with_groups(blocks: usize) -> (r: Option<usize>)
        ensures
            r is Some <==> budget_spec(blocks + bounds::group_count(blocks as int)) <= usize::MAX,
            r matches Some(n) ==> n == budget_spec(
                blocks + bounds::group_count(blocks as int),
            ),
    {
        let groups: usize = blocks / 8 + if blocks % 8 == 0 {
            0
        } else {
            1
        };
        match blocks.checked_add(groups) {
            Some(n) => ImpactBuilder::budget(n),
            None => None,
        }
    }

    /// A builder with places for `blocks` records.
    pub fn new(blocks: usize) -> (r: Result<Self, PostingError>)
        ensures
            match r {
                Ok(b) => b.wf() && b.blocks == blocks && b@ == Seq::<Seq<u8>>::empty() && 81 * blocks
                    <= u32::MAX,
                Err(error) => error == (if 81 * blocks > u32::MAX {
                    PostingError::ImpactPayload
                } else {
                    PostingError::ImpactOverflow
                }) && (81 * blocks > u32::MAX || budget_spec(blocks as int) > usize::MAX),
            },
    {
        if blocks > 0xFFFF_FFFF / 81 {
            return Err(PostingError::ImpactPayload);
        }
        match ImpactBuilder::budget(blocks) {
            None => Err(PostingError::ImpactOverflow),
            Some(_) => {
                let b = ImpactBuilder { blocks, records: Vec::new() };
                proof {
                    assert(b@ =~= Seq::<Seq<u8>>::empty());
                }
                Ok(b)
            },
        }
    }

    /// A builder with places for `blocks` blocks and their groups.
    pub fn with_groups(blocks: usize) -> (r: Result<Self, PostingError>)
        ensures
            ({
                let n = blocks + bounds::group_count(blocks as int);
                match r {
                    Ok(b) => b.wf() && b.blocks == n && b@ == Seq::<Seq<u8>>::empty(),
                    Err(error) => error == (if n > usize::MAX {
                        PostingError::ImpactGroupCount
                    } else if 81 * n > u32::MAX {
                        PostingError::ImpactPayload
                    } else {
                        PostingError::ImpactOverflow
                    }) && (81 * n > u32::MAX || budget_spec(n) > usize::MAX),
                }
            }),
    {
        let groups: usize = blocks / 8 + if blocks % 8 == 0 {
            0
        } else {
            1
        };
        match blocks.checked_add(groups) {
            Some(n) => ImpactBuilder::new(n),
            None => Err(PostingError::ImpactGroupCount),
        }
    }

    /// Add a record. It is refused once all places are taken, or if it is too
    /// long.
    pub fn append(&mut self, record: &[u8]) -> (r: Result<(), PostingError>)
        requires
            old(self).wf(),
            record.len() <= 81 ==> impacts::record_check(record@) is Ok,
        ensures
            final(self).wf(),
            final(self).blocks == old(self).blocks,
            r == (if old(self)@.len() == old(self).blocks || record.len() > 81 {
                Err::<(), PostingError>(PostingError::ImpactBudget)
            } else {
                Ok(())
            }),
            final(self)@ == (if r is Ok {
                old(self)@.push(record@)
            } else {
                old(self)@
            }),
    {
        if self.records.len() == self.blocks || record.len() > MAX_RECORD_BYTES {
            return Err(PostingError::ImpactBudget);
        }
        let copy = bytes::copy_range(record, 0, record.len());
        proof {
            assert(copy@ =~= record@);
        }
        let ghost before = self@;
        self.records.push(copy);
        proof {
            assert(self@ =~= before.push(record@));
        }
        Ok(())
    }

    /// Add the envelope of some points.
    pub fn append_points(&mut self, points: &[Point]) -> (r: Result<(), PostingError>)
        requires
            old(self).wf(),
        ensures
            final(self).wf(),
            final(self).blocks == old(self).blocks,
            r is Ok ==> ({
                &&& final(self)@.len() == old(self)@.len() + 1
                &&& final(self)@.drop_last() == old(self)@
                &&& impacts::is_record_of(final(self)@.last(), points@)
            }),
            r is Err ==> final(self)@ == old(self)@,
            r == (if points.len() > 128 && forall|k: int|
                0 <= k < points.len() ==> envelope::positive(#[trigger] points@[k]) {
                Err::<(), PostingError>(PostingError::ImpactPoints)
            } else if old(self)@.len() == old(self).blocks {
                Err::<(), PostingError>(PostingError::ImpactBudget)
            } else {
                Ok(())
            }),
    {
        let ghost before = self@;
        let mut record: Vec<u8> = Vec::new();
        if points.len() <= 128 {
            record = encode_record(points);
        } else {
            let mut i: usize = 0;
            let mut known: bool = true;
            while i < points.len() && known
                invariant
                    i <= points.len(),
                    known ==> forall|k: int|
                        0 <= k < i ==> envelope::positive(#[trigger] points@[k]),
                    !known ==> exists|k: int|
                        0 <= k < points.len() && !envelope::positive(#[trigger] points@[k]),
                decreases points.len() - i,
            {
                if points[i].0 == 0 || points[i].1 == 0 {
                    proof {
                        assert(!envelope::positive(points@[i as int]));
                    }
                    known = false;
                }
                i += 1;
            }
            if known {
                return Err(PostingError::ImpactPoints);
            }
            proof {
                assert(record@ =~= Seq::empty());
            }
        }
        match self.append(record.as_slice()) {
            Ok(_) => {
                proof {
                    assert(self@.drop_last() =~= before);
                }
                Ok(())
            },
            Err(error) => Err(error),
        }
    }

    /// Add a record for every group of the first `blocks` records. A group
    /// that did not change brings its own copy.
    pub fn append_groups_with(&mut self, blocks: usize, copies: &Vec<Option<Vec<u8>>>) -> (r: Result<
        (),
        PostingError,
    >)
        requires
            old(self).wf(),
            copies.len() == bounds::group_count(blocks as int),
            forall|g: int|
                0 <= g < copies.len() ==> (#[trigger] copies@[g] matches Some(c)
                    ==> impacts::record_check(c@) is Ok),
        ensures
            final(self).wf(),
            final(self).blocks == old(self).blocks,
            r is Err ==> r == Err::<(), PostingError>(
                if old(self)@.len() != blocks {
                    PostingError::ImpactGroups
                } else {
                    PostingError::ImpactBudget
                },
            ),
            r is Ok <==> old(self)@.len() == blocks && blocks + copies.len() <= old(self).blocks,
            r is Ok ==> ({
                &&& final(self)@.len() == blocks + copies.len()
                &&& final(self)@.take(blocks as int) == old(self)@
                &&& forall|g: int|
                    0 <= g < copies.len() ==> is_group_record(
                        #[trigger] final(self)@[blocks + g],
                        old(self)@,
                        blocks as int,
                        g,
                        copy_view(copies@[g]),
                    )
            }),
    {
        let ghost start = self@;
        if self.records.len() != blocks {
            return Err(PostingError::ImpactGroups);
        }
        proof {
            assert(self@.take(blocks as int) =~= start);
        }
        let groups: usize = copies.len();
        let mut g: usize = 0;
        while g < groups
            invariant
                g <= groups,
                groups == copies.len(),
                groups == bounds::group_count(blocks as int),
                self.wf(),
                self.blocks == old(self).blocks,
                start == old(self)@,
                start.len() == blocks,
                records_fit(start),
                self@.len() == blocks + g,
                self@.take(blocks as int) == start,
                forall|k: int|
                    0 <= k < copies.len() ==> (#[trigger] copies@[k] matches Some(c)
                        ==> impacts::record_check(c@) is Ok),
                forall|k: int|
                    0 <= k < g ==> is_group_record(
                        #[trigger] self@[blocks + k],
                        start,
                        blocks as int,
                        k,
                        copy_view(copies@[k]),
                    ),
            decreases groups - g,
        {
            let ghost now = self@;
            proof {
                assert forall|k: int| 0 <= k < blocks implies self@[k] == start[k] by {
                    assert(self@.take(blocks as int)[k] == self@[k]);
                }
            }
            let record: Vec<u8> = match &copies[g] {
                Some(c) => {
                    proof {
                        assert(copies@[g as int] is Some);
                        impacts::record_len(c@);
                    }
                    let copy = bytes::copy_range(c.as_slice(), 0, c.len());
                    proof {
                        assert(copy@ =~= c@);
                    }
                    copy
                },
                None => self.group_envelope(blocks, g),
            };
            match self.append(record.as_slice()) {
                Ok(_) => {},
                Err(error) => {
                    return Err(error);
                },
            }
            proof {
                assert(self@.take(blocks as int) =~= start);
                assert forall|k: int| 0 <= k < g + 1 implies is_group_record(
                    #[trigger] self@[blocks + k],
                    start,
                    blocks as int,
                    k,
                    copy_view(copies@[k]),
                ) by {
                    if k < g {
                        assert(self@[blocks + k] == now[blocks + k]);
                    }
                }
            }
            g += 1;
        }
        Ok(())
    }

    /// The record of group `g` from its members.
    fn group_envelope(&self, blocks: usize, g: usize) -> (r: Vec<u8>)
        requires
            self.wf(),
            blocks <= self@.len(),
            g < bounds::group_count(blocks as int),
        ensures
            is_group_record(r@, self@.take(blocks as int), blocks as int, g as int, None),
            impacts::record_check(r@) is Ok,
            r.len() <= 81,
    {
        let start: usize = 8 * g;
        let end: usize = if blocks - start > 8 {
            start + 8
        } else {
            blocks
        };
        let ghost members = self@.take(blocks as int);
        let mut points: Vec<Point> = Vec::new();
        let mut i: usize = start;
        proof {
            assert(points@ =~= joined_points(members, start as int, start as int));
        }
        while i < end
            invariant
                start <= i <= end <= blocks,
                end <= start + 8,
                end == bounds::group_end(blocks as int, g as int),
                start == 8 * g,
                blocks <= self@.len(),
                members == self@.take(blocks as int),
                self.wf(),
                points@ == joined_points(members, start as int, i as int),
                points.len() <= 8 * (i - start),
                forall|k: int| start <= k < i ==> (#[trigger] members[k]).len() > 0,
            decreases end - i,
        {
            let record = self.records[i].as_slice();
            proof {
                assert(self@[i as int] == record@);
                assert(members[i as int] == record@);
                impacts::record_points_chain(record@);
            }
            if record.len() == 0 {
                let empty: Vec<u8> = Vec::new();
                proof {
                    assert(empty@ =~= Seq::empty());
                    assert(members[i as int].len() == 0);
                }
                return empty;
            }
            impacts::push_points(record, &mut points);
            i += 1;
        }
        encode_record(points.as_slice())
    }

    /// The table of the records so far; none if every record is unknown.
    pub fn finish(self) -> (r: Option<ImpactTable>)
        requires
            self.wf(),
        ensures
            r is None <==> forall|i: int| 0 <= i < self@.len() ==> (#[trigger] self@[i]).len() == 0,
            r matches Some(t) ==> t@ == self@ && t.wf() && 81 * t@.len() <= u32::MAX,
    {
        proof {
            payload_bound(self@, self@.len() as int);
        }
        let mut any: bool = false;
        let mut i: usize = 0;
        while i < self.records.len() && !any
            invariant
                i <= self.records.len(),
                !any ==> forall|k: int| 0 <= k < i ==> (#[trigger] self@[k]).len() == 0,
                any ==> exists|k: int| 0 <= k < self@.len() && (#[trigger] self@[k]).len() > 0,
            decreases self.records.len() - i,
        {
            proof {
                assert(self@[i as int] == self.records@[i as int]@);
            }
            if self.records[i].len() > 0 {
                any = true;
            }
            i += 1;
        }
        if !any {
            return None;
        }
        let t = ImpactTable { records: self.records };
        proof {
            assert(t@ =~= self@);
        }
        Some(t)
    }
}

} // verus!
