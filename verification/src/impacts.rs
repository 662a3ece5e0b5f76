//! Tables of envelopes: one record per block, and per group of blocks.
use crate::bytes;
use crate::envelope;
use crate::envelope::Point;
use crate::error::PostingError;
use crate::vint;
use vstd::prelude::*;

verus! {

/// Most points of a stored envelope.
pub const MAX_POINTS: usize = 8;

/// Most bytes of a record.
pub const MAX_RECORD_BYTES: usize = 81;

/// The point stored at byte `at` and where it ends, or why it is refused.
pub open spec fn point_at(b: Seq<u8>, at: int) -> Result<(Point, int), PostingError> {
    match vint::vint_at(b, at) {
        None => Err(PostingError::ImpactCoordinate),
        Some((tf, mid)) => if tf > u32::MAX {
            Err(PostingError::ImpactFrequency)
        } else {
            match vint::vint_at(b, mid) {
                None => Err(PostingError::ImpactCoordinate),
                Some((len, end)) => if len > u32::MAX {
                    Err(PostingError::ImpactLength)
                } else if tf == 0 || len == 0 {
                    Err(PostingError::ImpactZero)
                } else {
                    Ok(((tf as u32, len as u32), end))
                },
            }
        },
    }
}

/// The first `n` points of a record and where they end, or why they are
/// refused.
pub open spec fn points_upto(record: Seq<u8>, n: int) -> Result<(Seq<Point>, int), PostingError>
    decreases n,
{
    if n <= 0 {
        Ok((Seq::empty(), 1))
    } else {
        match points_upto(record, n - 1) {
            Err(error) => Err(error),
            Ok((points, at)) => match point_at(record, at) {
                Err(error) => Err(error),
                Ok((p, end)) => if points.len() > 0 && !envelope::ordered(points.last(), p) {
                    Err(PostingError::ImpactOrder)
                } else if points.len() > 1 && envelope::turn_spec(
                    points[points.len() - 2],
                    points.last(),
                    p,
                ) <= 0 {
                    Err(PostingError::ImpactConvex)
                } else {
                    Ok((points.push(p), end))
                },
            },
        }
    }
}

/// Whether a record is acceptable, or why not. An empty record says that the
/// envelope is unknown.
pub open spec fn record_check(record: Seq<u8>) -> Result<(), PostingError> {
    if record.len() == 0 {
        Ok(())
    } else if record.len() > 81 || record[0] < 1 || record[0] > 8 {
        Err(PostingError::ImpactExtent)
    } else {
        match points_upto(record, record[0] as int) {
            Err(error) => Err(error),
            Ok((_, end)) => if end != record.len() {
                Err(PostingError::ImpactRecordTrailing)
            } else {
                Ok(())
            },
        }
    }
}

/// The points of an acceptable record.
pub open spec fn record_points(record: Seq<u8>) -> Seq<Point> {
    if record.len() == 0 {
        Seq::empty()
    } else {
        points_upto(record, record[0] as int)->Ok_0.0
    }
}

/// The bytes of some points.
pub open spec fn point_bytes(points: Seq<Point>) -> Seq<u8>
    decreases points.len(),
{
    if points.len() == 0 {
        Seq::empty()
    } else {
        point_bytes(points.drop_last()) + vint::vint(points.last().0 as nat) + vint::vint(
            points.last().1 as nat,
        )
    }
}

/// The record of an envelope; one with too many points is left unknown.
pub open spec fn record_of(h: Seq<Point>) -> Seq<u8> {
    if h.len() > 8 {
        Seq::empty()
    } else {
        seq![h.len() as u8] + point_bytes(h)
    }
}

/// Whether `record` is what envelope construction makes of `points`.
pub open spec fn is_record_of(record: Seq<u8>, points: Seq<Point>) -> bool {
    if points.len() == 0 || exists|k: int|
        0 <= k < points.len() && !envelope::positive(#[trigger] points[k]) {
        record == Seq::<u8>::empty()
    } else {
        exists|h: Seq<Point>| #[trigger] envelope::is_envelope(h, points) && record == record_of(h)
    }
}

/// A refusal stays a refusal when more points follow.
proof fn refused_stays(record: Seq<u8>, n: int, m: int)
    requires
        0 <= n <= m,
        points_upto(record, n) is Err,
    ensures
        points_upto(record, m) == points_upto(record, n),
    decreases m,
{
    if n < m {
        refused_stays(record, n, m - 1);
    }
}

proof fn points_upto_shape(record: Seq<u8>, n: int)
    requires
        0 <= n,
        record.len() > 0,
        points_upto(record, n) is Ok,
    ensures
        points_upto(record, n)->Ok_0.0.len() == n,
        1 <= points_upto(record, n)->Ok_0.1 <= record.len(),
        envelope::chain(points_upto(record, n)->Ok_0.0),
        forall|i: int|
            0 <= i < n ==> envelope::positive(#[trigger] points_upto(record, n)->Ok_0.0[i]),
    decreases n,
{
    if n > 0 {
        points_upto_shape(record, n - 1);
        let (ps, at) = points_upto(record, n - 1)->Ok_0;
        let (p, end) = point_at(record, at)->Ok_0;
        let (_, mid) = vint::vint_at(record, at)->Some_0;
        vint::vint_from_bound(record, at, 0);
        vint::vint_from_bound(record, mid, 0);
        let all = ps.push(p);
        assert forall|i: int| 0 < i < all.len() implies #[trigger] envelope::link(all, i) by {
            if i < ps.len() {
                assert(envelope::link(ps, i));
            }
        }
        assert forall|i: int| 0 <= i < n implies envelope::positive(#[trigger] all[i]) by {
            if i < n - 1 {
                assert(envelope::positive(ps[i]));
            }
        }
    }
}

/// An acceptable record is a chain of at most eight positive points.
pub proof fn record_points_chain(record: Seq<u8>)
    requires
        record_check(record) is Ok,
    ensures
        record_points(record).len() == (if record.len() == 0 {
            0
        } else {
            record[0] as int
        }),
        record_points(record).len() <= 8,
        envelope::chain(record_points(record)),
        forall|i: int|
            0 <= i < record_points(record).len() ==> envelope::positive(
                #[trigger] record_points(record)[i],
            ),
{
    if record.len() > 0 {
        points_upto_shape(record, record[0] as int);
    }
}

proof fn written_point(head: Seq<u8>, p: Point, rest: Seq<u8>)
    requires
        envelope::positive(p),
    ensures
        ({
            let a = vint::vint(p.0 as nat);
            let b = vint::vint(p.1 as nat);
            point_at(head + a + b + rest, head.len() as int) == Ok::<(Point, int), PostingError>(
                (p, (head.len() + a.len() + b.len()) as int),
            )
        }),
{
    let a = vint::vint(p.0 as nat);
    let b = vint::vint(p.1 as nat);
    let all = head + a + b + rest;
    vint::vint_roundtrip(head, p.0 as u64, b + rest);
    assert(all =~= head + a + (b + rest));
    vint::vint_roundtrip(head + a, p.1 as u64, rest);
}

/// An acceptable record has at most 81 bytes.
pub proof fn record_len(record: Seq<u8>)
    requires
        record_check(record) is Ok,
    ensures
        record.len() <= 81,
{
}

/// Reading the first `n` points of a written record gives them back.
proof fn written_points(h: Seq<Point>, n: int)
    requires
        0 <= n <= h.len() <= 8,
        envelope::chain(h),
        forall|i: int| 0 <= i < h.len() ==> envelope::positive(#[trigger] h[i]),
    ensures
        points_upto(record_of(h), n) == Ok::<(Seq<Point>, int), PostingError>(
            (h.take(n), (1 + point_bytes(h.take(n)).len()) as int),
        ),
        point_bytes(h.take(n)).len() <= 10 * n,
        point_bytes(h.take(n)).is_prefix_of(point_bytes(h)),
    decreases n,
{
    let record = record_of(h);
    if n == 0 {
        assert(h.take(0) =~= Seq::empty());
        assert(point_bytes(h.take(0)) =~= Seq::empty());
        prefix_bytes(h, 0);
    } else {
        written_points(h, n - 1);
        let before = h.take(n - 1);
        let now = h.take(n);
        assert(now.drop_last() =~= before);
        let p = h[n - 1];
        assert(envelope::positive(h[n - 1]));
        prefix_bytes(h, n);
        let all = point_bytes(h);
        let pre = point_bytes(before);
        let a = vint::vint(p.0 as nat);
        let b = vint::vint(p.1 as nat);
        let rest = all.skip((pre.len() + a.len() + b.len()) as int);
        let head = seq![h.len() as u8] + pre;
        assert(point_bytes(now) == pre + a + b);
        assert(record =~= head + a + b + rest) by {
            assert(all =~= point_bytes(now) + rest) by {
                assert(all.take(point_bytes(now).len() as int) =~= point_bytes(now));
            }
        }
        written_point(head, p, rest);
        vint::vint_len32(p.0 as nat);
        vint::vint_len32(p.1 as nat);
        if n > 1 {
            assert(envelope::link(h, n - 1));
        }
        assert(before.push(p) =~= now);
    }
}

proof fn prefix_bytes(h: Seq<Point>, n: int)
    requires
        0 <= n <= h.len(),
    ensures
        point_bytes(h.take(n)).is_prefix_of(point_bytes(h)),
        point_bytes(h.take(n)) == point_bytes(h).take(point_bytes(h.take(n)).len() as int),
        point_bytes(h.take(n)).len() <= point_bytes(h).len(),
    decreases h.len() - n,
{
    if n == h.len() {
        assert(h.take(n) =~= h);
        assert(point_bytes(h).take(point_bytes(h).len() as int) =~= point_bytes(h));
    } else {
        prefix_bytes(h, n + 1);
        assert(h.take(n + 1).drop_last() =~= h.take(n));
        let s = point_bytes(h.take(n));
        let t = point_bytes(h.take(n + 1));
        assert(t.take(s.len() as int) =~= s);
        assert(point_bytes(h).take(s.len() as int) =~= s) by {
            assert forall|i: int| 0 <= i < s.len() implies point_bytes(h)[i] == s[i] by {
                assert(t[i] == s[i]);
                assert(point_bytes(h).take(t.len() as int)[i] == t[i]);
            }
        }
    }
}

/// The record of an envelope is acceptable and holds its points.
pub proof fn record_roundtrip(h: Seq<Point>)
    requires
        0 < h.len(),
        envelope::chain(h),
        forall|i: int| 0 <= i < h.len() ==> envelope::positive(#[trigger] h[i]),
    ensures
        record_check(record_of(h)) is Ok,
        h.len() <= 8 ==> record_points(record_of(h)) == h,
        record_of(h).len() <= 81,
{
    if h.len() <= 8 {
        written_points(h, h.len() as int);
        assert(h.take(h.len() as int) =~= h);
    }
}

/// Read one point of a record.
pub fn read_point(b: &[u8], at: usize) -> (r: Result<(Point, usize), PostingError>)
    requires
        at <= b.len(),
    ensures
        match (r, point_at(b@, at as int)) {
            (Ok((p, end)), Ok((q, stop))) => p == q && end == stop && at < end <= b.len(),
            (Err(e), Err(f)) => e == f,
            _ => false,
        },
{
    let (tf, mid): (u64, usize) = match vint::read_vint(b, at) {
        Some(pair) => pair,
        None => {
            return Err(PostingError::ImpactCoordinate);
        },
    };
    if tf > 0xFFFF_FFFF {
        return Err(PostingError::ImpactFrequency);
    }
    let (len, end): (u64, usize) = match vint::read_vint(b, mid) {
        Some(pair) => pair,
        None => {
            return Err(PostingError::ImpactCoordinate);
        },
    };
    if len > 0xFFFF_FFFF {
        return Err(PostingError::ImpactLength);
    }
    if tf == 0 || len == 0 {
        return Err(PostingError::ImpactZero);
    }
    Ok(((tf as u32, len as u32), end))
}

/// Check one record.
pub fn validate_record(record: &[u8]) -> (r: Result<(), PostingError>)
    ensures
        r == record_check(record@),
{
    if record.len() == 0 {
        return Ok(());
    }
    if record.len() > MAX_RECORD_BYTES || record[0] < 1 || record[0] > 8 {
        return Err(PostingError::ImpactExtent);
    }
    let n: usize = record[0] as usize;
    let mut points: Vec<Point> = Vec::with_capacity(8);
    let mut at: usize = 1;
    let mut i: usize = 0;
    proof {
        assert(points@ =~= Seq::empty());
    }
    while i < n
        invariant
            i <= n,
            n == record@[0],
            n <= 8,
            0 < record.len() <= 81,
            points.len() == i,
            1 <= at <= record.len(),
            record_check(record@) == (match points_upto(record@, n as int) {
                Err(error) => Err(error),
                Ok((_, end)) => if end != record.len() {
                    Err(PostingError::ImpactRecordTrailing)
                } else {
                    Ok(())
                },
            }),
            points_upto(record@, i as int) == Ok::<(Seq<Point>, int), PostingError>(
                (points@, at as int),
            ),
        decreases n - i,
    {
        let (p, end): (Point, usize) = match read_point(record, at) {
            Ok(pair) => pair,
            Err(error) => {
                proof {
                    assert(points_upto(record@, i + 1) is Err);
                    refused_stays(record@, i + 1, n as int);
                }
                return Err(error);
            },
        };
        if i > 0 {
            let last: Point = points[i - 1];
            proof {
                assert(p.1 * last.0 <= 0xFFFF_FFFF * 0xFFFF_FFFF) by (nonlinear_arith)
                    requires
                        p.1 <= 0xFFFF_FFFF,
                        last.0 <= 0xFFFF_FFFF,
                ;
                assert(last.1 * p.0 <= 0xFFFF_FFFF * 0xFFFF_FFFF) by (nonlinear_arith)
                    requires
                        last.1 <= 0xFFFF_FFFF,
                        p.0 <= 0xFFFF_FFFF,
                ;
            }
            if p.0 >= last.0 || p.1 >= last.1 || p.1 as u64 * last.0 as u64 >= last.1 as u64
                * p.0 as u64 {
                proof {
                    assert(points_upto(record@, i + 1) is Err);
                    refused_stays(record@, i + 1, n as int);
                }
                return Err(PostingError::ImpactOrder);
            }
            if i > 1 && envelope::turn(points[i - 2], last, p) <= 0 {
                proof {
                    assert(points_upto(record@, i + 1) is Err);
                    refused_stays(record@, i + 1, n as int);
                }
                return Err(PostingError::ImpactConvex);
            }
        }
        points.push(p);
        at = end;
        i += 1;
    }
    if at != record.len() {
        return Err(PostingError::ImpactRecordTrailing);
    }
    Ok(())
}

/// Read the points of an acceptable record onto `points`.
pub fn push_points(record: &[u8], points: &mut Vec<Point>)
    requires
        record_check(record@) is Ok,
    ensures
        final(points)@ == old(points)@ + record_points(record@),
{
    let ghost start = points@;
    if record.len() == 0 {
        proof {
            assert(start + record_points(record@) =~= start);
        }
        return;
    }
    let n: usize = record[0] as usize;
    let mut at: usize = 1;
    let mut i: usize = 0;
    proof {
        assert(points@ =~= start + Seq::<Point>::empty());
        points_upto_shape(record@, n as int);
    }
    while i < n
        invariant
            i <= n,
            n == record@[0],
            0 < record.len(),
            1 <= at <= record.len(),
            points_upto(record@, n as int) is Ok,
            points_upto(record@, i as int) is Ok,
            points@ == start + points_upto(record@, i as int)->Ok_0.0,
            at == points_upto(record@, i as int)->Ok_0.1,
        decreases n - i,
    {
        proof {
            if points_upto(record@, i + 1) is Err {
                refused_stays(record@, i + 1, n as int);
            }
        }
        match read_point(record, at) {
            Ok((p, end)) => {
                let ghost prior = points_upto(record@, i as int)->Ok_0.0;
                points.push(p);
                proof {
                    assert(points@ =~= start + prior.push(p));
                }
                at = end;
            },
            Err(_) => {},
        }
        i += 1;
    }
}

/// Where each record starts, and where the last one ends.
pub open spec fn offsets(records: Seq<Seq<u8>>) -> Seq<u32> {
    Seq::new(records.len() + 1, |i: int| bytes::joined_len(records, i) as u32)
}

/// A table of records.
#[derive(Debug, Clone)]
pub struct ImpactTable {
    pub records: Vec<Vec<u8>>,
}

impl View for ImpactTable {
    type V = Seq<Seq<u8>>;

    open spec fn view(&self) -> Seq<Seq<u8>> {
        Seq::new(self.records@.len(), |i: int| self.records@[i]@)
    }
}

/// Whether every record is acceptable and the payload has 32-bit offsets.
pub open spec fn table_ok(records: Seq<Seq<u8>>) -> bool {
    &&& forall|i: int| 0 <= i < records.len() ==> record_check(#[trigger] records[i]) is Ok
    &&& bytes::joined_len(records, records.len() as int) <= u32::MAX
}

/// The stored form of a table: the offsets, then the records.
pub open spec fn table_bytes(records: Seq<Seq<u8>>) -> Seq<u8> {
    bytes::le32_all(offsets(records)) + bytes::joined(records)
}

/// Offset word `i` of a stored table.
pub open spec fn offset_at(b: Seq<u8>, i: int) -> int {
    bytes::u32_at(b, 4 * i) as int
}

/// Record `i` of a stored table of `n` records.
pub open spec fn record_at(b: Seq<u8>, n: int, i: int) -> Seq<u8> {
    b.subrange(4 * (n + 1) + offset_at(b, i), 4 * (n + 1) + offset_at(b, i + 1))
}

/// Whether offset `i` and the record before it are acceptable.
pub open spec fn entry_check(b: Seq<u8>, n: int, i: int) -> Result<(), PostingError> {
    if offset_at(b, i) < (if i == 0 {
        0
    } else {
        offset_at(b, i - 1)
    }) || offset_at(b, i) > b.len() - 4 * (n + 1) || (i == 0 && offset_at(b, i) != 0) {
        Err(PostingError::ImpactOffset)
    } else if i > 0 {
        record_check(record_at(b, n, i - 1))
    } else {
        Ok(())
    }
}

/// Whether the first `i` offsets are acceptable, or the first refusal.
pub open spec fn entries_check(b: Seq<u8>, n: int, i: int) -> Result<(), PostingError>
    decreases i,
{
    if i <= 0 {
        Ok(())
    } else if entries_check(b, n, i - 1) is Err {
        entries_check(b, n, i - 1)
    } else {
        entry_check(b, n, i - 1)
    }
}

/// Whether bytes are a stored table of `n` records, or why not.
pub open spec fn table_check(b: Seq<u8>, n: int) -> Result<(), PostingError> {
    if 4 * (n + 1) > usize::MAX {
        Err(PostingError::ImpactOverflow)
    } else if b.len() < 4 * (n + 1) {
        Err(PostingError::ImpactTruncated)
    } else if entries_check(b, n, n + 1) is Err {
        entries_check(b, n, n + 1)
    } else if offset_at(b, n) != b.len() - 4 * (n + 1) {
        Err(PostingError::ImpactTrailing)
    } else {
        Ok(())
    }
}

proof fn entries_refused(b: Seq<u8>, n: int, i: int, j: int)
    requires
        0 <= i <= j,
        entries_check(b, n, i) is Err,
    ensures
        entries_check(b, n, j) == entries_check(b, n, i),
    decreases j,
{
    if i < j {
        entries_refused(b, n, i, j - 1);
    }
}

proof fn entries_prefix(b: Seq<u8>, n: int, i: int, j: int)
    requires
        0 <= i < j,
        entries_check(b, n, j) is Ok,
    ensures
        entries_check(b, n, i) is Ok,
        entry_check(b, n, i) is Ok,
    decreases j,
{
    if i < j - 1 {
        entries_prefix(b, n, i, j - 1);
    }
}

/// Lengths of the records that were read back add up to the offsets.
proof fn read_lengths(b: Seq<u8>, n: int, records: Seq<Seq<u8>>, i: int)
    requires
        table_check(b, n) is Ok,
        records.len() == n,
        0 <= i <= n,
        forall|k: int| 0 <= k < n ==> #[trigger] records[k] == record_at(b, n, k),
    ensures
        bytes::joined_len(records, i) == offset_at(b, i),
    decreases i,
{
    entries_prefix(b, n, i, n + 1);
    if i > 0 {
        read_lengths(b, n, records, i - 1);
        entries_prefix(b, n, i - 1, n + 1);
        assert(records[i - 1] == record_at(b, n, i - 1));
    }
}

proof fn read_payload(b: Seq<u8>, n: int, records: Seq<Seq<u8>>, i: int)
    requires
        table_check(b, n) is Ok,
        records.len() == n,
        0 <= i <= n,
        forall|k: int| 0 <= k < n ==> #[trigger] records[k] == record_at(b, n, k),
    ensures
        bytes::joined(records.take(i)) == b.subrange(4 * (n + 1), 4 * (n + 1) + offset_at(b, i)),
    decreases i,
{
    entries_prefix(b, n, i, n + 1);
    if i > 0 {
        read_payload(b, n, records, i - 1);
        entries_prefix(b, n, i - 1, n + 1);
        assert(records.take(i).drop_last() =~= records.take(i - 1));
        assert(records[i - 1] == record_at(b, n, i - 1));
        assert(bytes::joined(records.take(i)) =~= b.subrange(
            4 * (n + 1),
            4 * (n + 1) + offset_at(b, i),
        ));
    } else {
        assert(bytes::joined(records.take(0)) =~= b.subrange(
            4 * (n + 1),
            4 * (n + 1) + offset_at(b, 0),
        ));
    }
}

/// A table that was read is stored as the bytes it was read from.
pub proof fn table_read_back(b: Seq<u8>, n: int, records: Seq<Seq<u8>>)
    requires
        table_check(b, n) is Ok,
        records.len() == n,
        forall|k: int| 0 <= k < n ==> #[trigger] records[k] == record_at(b, n, k),
        0 <= n,
    ensures
        table_ok(records),
        table_bytes(records) == b,
{
    assert forall|k: int| 0 <= k < n implies record_check(#[trigger] records[k]) is Ok by {
        entries_prefix(b, n, k + 1, n + 1);
    }
    read_lengths(b, n, records, n);
    read_payload(b, n, records, n);
    assert(records.take(n) =~= records);
    let dir = b.subrange(0, 4 * (n + 1));
    assert forall|i: int| 0 <= i < offsets(records).len() implies #[trigger] offsets(records)[i]
        == bytes::u32_at(dir, 4 * i) by {
        bytes::section_u32(b, 0, dir, 4 * i);
        read_lengths(b, n, records, i);
    }
    bytes::le32_all_unique(dir, offsets(records));
    assert(table_bytes(records) =~= b);
}

/// The stored form of a table is accepted, and every record stands in it.
pub proof fn table_roundtrip(records: Seq<Seq<u8>>)
    requires
        table_ok(records),
        4 * (records.len() + 1) <= usize::MAX,
    ensures
        table_check(table_bytes(records), records.len() as int) is Ok,
        forall|i: int|
            0 <= i < records.len() ==> record_at(table_bytes(records), records.len() as int, i)
                == #[trigger] records[i],
        table_bytes(records).len() == 4 * (records.len() + 1) + bytes::joined_len(
            records,
            records.len() as int,
        ),
{
    let n = records.len() as int;
    let b = table_bytes(records);
    bytes::le32_all_len(offsets(records));
    bytes::joined_position(records, n);
    assert forall|i: int| 0 <= i <= n implies #[trigger] offset_at(b, i) == bytes::joined_len(
        records,
        i,
    ) by {
        bytes::le32_all_index(offsets(records), i);
        bytes::joined_len_monotone(records, i, n);
        let d = bytes::le32_all(offsets(records));
        assert(b.subrange(0, d.len() as int) =~= d);
        bytes::section_u32(b, 0, d, 4 * i);
    }
    assert forall|i: int| 0 <= i < n implies record_at(b, n, i) == #[trigger] records[i] by {
        bytes::joined_position(records, i);
        bytes::joined_len_monotone(records, i, i + 1);
        bytes::joined_len_monotone(records, i + 1, n);
        assert(offset_at(b, i) == bytes::joined_len(records, i));
        assert(offset_at(b, i + 1) == bytes::joined_len(records, i + 1));
        assert(record_at(b, n, i) =~= bytes::joined(records).subrange(
            bytes::joined_len(records, i),
            bytes::joined_len(records, i + 1),
        ));
    }
    written_entries(records, b, n + 1);
    assert(offset_at(b, n) == bytes::joined_len(records, n));
}

proof fn written_entries(records: Seq<Seq<u8>>, b: Seq<u8>, i: int)
    requires
        0 <= i <= records.len() + 1,
        table_ok(records),
        b.len() == 4 * (records.len() + 1) + bytes::joined_len(records, records.len() as int),
        forall|k: int| 0 <= k <= records.len() ==> #[trigger] offset_at(b, k) == bytes::joined_len(records, k),
        forall|k: int|
            0 <= k < records.len() ==> record_at(b, records.len() as int, k) == #[trigger] records[k],
    ensures
        entries_check(b, records.len() as int, i) is Ok,
    decreases i,
{
    if i > 0 {
        written_entries(records, b, i - 1);
        assert(offset_at(b, i - 1) == bytes::joined_len(records, i - 1));
        bytes::joined_len_monotone(records, i - 1, records.len() as int);
        if i > 1 {
            assert(offset_at(b, i - 2) == bytes::joined_len(records, i - 2));
            bytes::joined_len_monotone(records, i - 2, i - 1);
            assert(record_check(records[i - 2]) is Ok);
        }
    }
}

/// Two tables with the same stored form have the same records.
pub proof fn table_records(a: Seq<Seq<u8>>, b: Seq<Seq<u8>>)
    requires
        a.len() == b.len(),
        table_ok(a),
        4 * (a.len() + 1) <= usize::MAX,
        table_bytes(a) == table_bytes(b),
        table_ok(b),
    ensures
        forall|i: int| 0 <= i < a.len() ==> #[trigger] a[i] == b[i],
{
    table_roundtrip(a);
    table_roundtrip(b);
    assert forall|i: int| 0 <= i < a.len() implies #[trigger] a[i] == b[i] by {
        assert(record_at(table_bytes(b), b.len() as int, i) == b[i]);
    }
}

impl ImpactTable {
    /// Whether every record is acceptable and the payload has 32-bit offsets.
    pub open spec fn wf(&self) -> bool {
        table_ok(self@)
    }

    /// Check a stored table of `blocks` records.
    pub fn validate(b: &[u8], blocks: usize) -> (r: Result<(), PostingError>)
        ensures
            r == table_check(b@, blocks as int),
    {
        let go = || -> (r: Result<(), PostingError>)
            ensures
                r is Ok,
            { Ok(()) };
        ImpactTable::validate_with(b, blocks, go)
    }

    /// Check a stored table of `blocks` records, asking `check` now and then
    /// whether to go on. Its refusal ends the work.
    pub fn validate_with<C: Fn() -> Result<(), PostingError>>(
        b: &[u8],
        blocks: usize,
        check: C,
    ) -> (r: Result<(), PostingError>)
        requires
            call_requires(check, ()),
        ensures
            r == table_check(b@, blocks as int) || (r is Err && call_ensures(check, (), r)),
    {
        if blocks >= usize::MAX / 4 {
            return Err(PostingError::ImpactOverflow);
        }
        let directory: usize = 4 * (blocks + 1);
        if b.len() < directory {
            return Err(PostingError::ImpactTruncated);
        }
        let payload: usize = b.len() - directory;
        let mut previous: usize = 0;
        let mut i: usize = 0;
        while i < blocks + 1
            invariant
                i <= blocks + 1,
                directory == 4 * (blocks + 1),
                4 * (blocks + 1) <= usize::MAX,
                b.len() == directory + payload,
                call_requires(check, ()),
                previous == (if i == 0 {
                    0
                } else {
                    offset_at(b@, i - 1)
                }),
                previous <= payload,
                entries_check(b@, blocks as int, i as int) is Ok,
            decreases blocks + 1 - i,
        {
            if i % 4096 == 0 {
                match check() {
                    Ok(_) => {},
                    Err(error) => {
                        return Err(error);
                    },
                }
            }
            let next: usize = bytes::get_u32(b, 4 * i) as usize;
            if next < previous || next > payload || (i == 0 && next != 0) {
                proof {
                    assert(entries_check(b@, blocks as int, i + 1) is Err);
                    entries_refused(b@, blocks as int, i + 1, blocks + 1);
                }
                return Err(PostingError::ImpactOffset);
            }
            if i > 0 {
                let record = vstd::slice::slice_subrange(b, directory + previous, directory + next);
                proof {
                    assert(record@ == record_at(b@, blocks as int, i - 1));
                }
                match validate_record(record) {
                    Ok(_) => {},
                    Err(error) => {
                        proof {
                            assert(entries_check(b@, blocks as int, i + 1) is Err);
                            entries_refused(b@, blocks as int, i + 1, blocks + 1);
                        }
                        return Err(error);
                    },
                }
            }
            previous = next;
            i += 1;
        }
        if previous != payload {
            return Err(PostingError::ImpactTrailing);
        }
        Ok(())
    }

    /// Read a stored table that has been checked.
    pub fn from_validated(b: &[u8], blocks: usize) -> (r: Self)
        requires
            table_check(b@, blocks as int) is Ok,
        ensures
            r@.len() == blocks,
            forall|i: int| 0 <= i < blocks ==> #[trigger] r@[i] == record_at(b@, blocks as int, i),
            r.wf(),
            table_bytes(r@) == b@,
    {
        let directory: usize = 4 * (blocks + 1);
        let mut records: Vec<Vec<u8>> = Vec::new();
        let mut i: usize = 0;
        while i < blocks
            invariant
                i <= blocks,
                table_check(b@, blocks as int) is Ok,
                directory == 4 * (blocks + 1),
                directory <= b.len(),
                records.len() == i,
                forall|k: int|
                    0 <= k < i ==> #[trigger] records@[k]@ == record_at(b@, blocks as int, k),
            decreases blocks - i,
        {
            proof {
                entries_prefix(b@, blocks as int, i as int, blocks + 1);
                entries_prefix(b@, blocks as int, i + 1, blocks + 1);
            }
            let from: usize = directory + bytes::get_u32(b, 4 * i) as usize;
            let to: usize = directory + bytes::get_u32(b, 4 * (i + 1)) as usize;
            records.push(bytes::copy_range(b, from, to));
            i += 1;
        }
        let r = ImpactTable { records };
        proof {
            table_read_back(b@, blocks as int, r@);
        }
        r
    }

    /// The stored form.
    pub fn bytes(&self) -> (r: Vec<u8>)
        requires
            self.wf(),
        ensures
            r@ == table_bytes(self@),
    {
        let n: usize = self.records.len();
        let mut out: Vec<u8> = Vec::new();
        let mut words: Vec<u32> = Vec::new();
        let mut total: u32 = 0;
        words.push(0);
        let mut i: usize = 0;
        while i < n
            invariant
                i <= n,
                n == self.records.len(),
                self.wf(),
                total == bytes::joined_len(self@, i as int),
                words.len() == i + 1,
                forall|k: int| 0 <= k <= i ==> #[trigger] words@[k] == bytes::joined_len(self@, k),
            decreases n - i,
        {
            proof {
                bytes::joined_len_monotone(self@, i + 1, n as int);
                assert(self@[i as int] == self.records@[i as int]@);
            }
            total = total + self.records[i].len() as u32;
            words.push(total);
            i += 1;
        }
        proof {
            assert(words@ =~= offsets(self@));
        }
        bytes::put_u32_all(&mut out, words.as_slice());
        let ghost head = out@;
        let mut i: usize = 0;
        proof {
            assert(head + bytes::joined(self@.take(0)) =~= head);
        }
        while i < n
            invariant
                i <= n,
                n == self.records.len(),
                out@ == head + bytes::joined(self@.take(i as int)),
            decreases n - i,
        {
            bytes::put_slice(&mut out, self.records[i].as_slice());
            proof {
                assert(self@.take(i + 1).drop_last() =~= self@.take(i as int));
                assert(self@[i as int] == self.records@[i as int]@);
                assert(out@ =~= head + bytes::joined(self@.take(i + 1)));
            }
            i += 1;
        }
        proof {
            assert(self@.take(n as int) =~= self@);
            assert(out@ =~= table_bytes(self@));
        }
        out
    }

    /// Number of records.
    pub fn record_count(&self) -> (r: usize)
        ensures
            r == self@.len(),
    {
        self.records.len()
    }

    /// Record `block`, if there is one.
    pub fn record(&self, block: usize) -> (r: Option<&[u8]>)
        ensures
            r is Some <==> block < self@.len(),
            r matches Some(record) ==> record@ == self@[block as int],
    {
        if block >= self.records.len() {
            return None;
        }
        Some(self.records[block].as_slice())
    }
}

} // verus!
