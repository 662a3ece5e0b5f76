//! Sets of 32-bit numbers in chunks by their upper half.
use crate::block;
use crate::container;
use crate::container::Container;
use crate::container_ops;
use crate::gaps;
use vstd::prelude::*;

verus! {

/// A set of 32-bit numbers: for every upper half in use, the lower halves.
#[derive(Debug)]
pub struct RoaringBitmap {
    pub containers: Vec<(u16, Container)>,
}

/// Upper half of a number.
pub open spec fn high_of(v: u32) -> u16 {
    (v / 0x1_0000) as u16
}

/// Lower half of a number.
pub open spec fn low_of(v: u32) -> u16 {
    (v % 0x1_0000) as u16
}

/// The numbers of one chunk.
pub open spec fn chunk(entry: (u16, Container)) -> Seq<u32> {
    Seq::new(
        entry.1.values().len(),
        |i: int| (0x1_0000 * entry.0 + entry.1.values()[i]) as u32,
    )
}

/// The numbers of the chunks from `n` on.
pub open spec fn all_from(c: Seq<(u16, Container)>, n: int) -> Seq<u32>
    decreases c.len() - n,
{
    if n < 0 || n >= c.len() {
        Seq::empty()
    } else {
        chunk(c[n]) + all_from(c, n + 1)
    }
}

/// Whether a number is in one of the chunks from `from` up to `to`.
pub open spec fn holds(c: Seq<(u16, Container)>, from: int, to: int, v: u32) -> bool {
    exists|k: int| from <= k < to && (#[trigger] c[k]).0 == high_of(v) && c[k].1.has(low_of(v))
}

/// Whether chunks are in order, and each makes sense and holds something.
pub open spec fn chunks_ok(c: Seq<(u16, Container)>) -> bool {
    &&& forall|i: int|
        0 <= i < c.len() ==> (#[trigger] c[i]).1.wf() && c[i].1.values().len() > 0
    &&& forall|i: int, j: int| 0 <= i < j < c.len() ==> (#[trigger] c[i]).0 < (#[trigger] c[j]).0
}

/// Whether a chunk is another one in the form with the least room. Runs stay
/// as they are.
pub open spec fn is_compacted(after: (u16, Container), before: (u16, Container)) -> bool {
    &&& after.0 == before.0
    &&& if before.1 is Runs {
        after.1 == before.1
    } else {
        container_ops::is_optimal(after.1, before.1.values())
    }
}

/// Whether every chunk is in the form with the least room.
pub open spec fn all_optimal(c: Seq<(u16, Container)>) -> bool {
    forall|k: int|
        0 <= k < c.len() ==> container_ops::is_optimal((#[trigger] c[k]).1, c[k].1.values())
}

/// Whether chunks are others with a number of one upper half added. A bitmap
/// stays one, and any other chunk becomes an array; a new chunk is an array.
pub open spec fn is_inserted(
    after: Seq<(u16, Container)>,
    before: Seq<(u16, Container)>,
    high: u16,
) -> bool {
    exists|at: int|
        {
            &&& 0 <= at < after.len()
            &&& (#[trigger] after[at]).0 == high
            &&& if at < before.len() && before[at].0 == high {
                &&& after == before.update(at, after[at])
                &&& before[at].1 is Bitmap ==> after[at].1 is Bitmap
                &&& !(before[at].1 is Bitmap) ==> after[at].1 is Array
            } else {
                &&& after == before.insert(at, after[at])
                &&& after[at].1 is Array
            }
        }
}

/// Whether a chunk of an intersection has the form that its two chunks give
/// it: the one with the least room for two bitmaps, else an array.
pub open spec fn is_common(
    c: (u16, Container),
    a: Seq<(u16, Container)>,
    b: Seq<(u16, Container)>,
) -> bool {
    exists|i: int, j: int|
        {
            &&& 0 <= i < a.len()
            &&& 0 <= j < b.len()
            &&& (#[trigger] a[i]).0 == c.0
            &&& (#[trigger] b[j]).0 == c.0
            &&& if a[i].1 is Bitmap && b[j].1 is Bitmap {
                container_ops::is_optimal(c.1, c.1.values())
            } else {
                c.1 is Array
            }
        }
}

/// Whether a chunk is one of the chunks, in its form.
pub open spec fn is_copied(c: (u16, Container), a: Seq<(u16, Container)>) -> bool {
    exists|i: int|
        0 <= i < a.len() && (#[trigger] a[i]).0 == c.0 && container_ops::same_form(c.1, a[i].1)
}

/// Whether no chunk has an upper half.
pub open spec fn lacks(a: Seq<(u16, Container)>, high: u16) -> bool {
    forall|i: int| 0 <= i < a.len() ==> (#[trigger] a[i]).0 != high
}

/// Whether a chunk of a union has the form that its chunks give it: a bitmap
/// for two bitmaps, the form with the least room for any other two, and its
/// own form for a chunk that only one set has.
pub open spec fn is_joined(
    c: (u16, Container),
    a: Seq<(u16, Container)>,
    b: Seq<(u16, Container)>,
) -> bool {
    ||| is_copied(c, a) && lacks(b, c.0)
    ||| is_copied(c, b) && lacks(a, c.0)
    ||| exists|i: int, j: int|
        {
            &&& 0 <= i < a.len()
            &&& 0 <= j < b.len()
            &&& (#[trigger] a[i]).0 == c.0
            &&& (#[trigger] b[j]).0 == c.0
            &&& if a[i].1 is Bitmap && b[j].1 is Bitmap {
                c.1 is Bitmap
            } else {
                container_ops::is_optimal(c.1, c.1.values())
            }
        }
}

/// Upper halves in order are no more than there are.
proof fn few_chunks(c: Seq<(u16, Container)>, k: int)
    requires
        chunks_ok(c),
        0 <= k < c.len(),
    ensures
        c[k].0 >= k,
    decreases k,
{
    if k > 0 {
        few_chunks(c, k - 1);
        assert(c[k - 1].0 < c[k].0);
    }
}

/// A set whose chunks take the least room can be stored.
pub proof fn optimal_storable(s: RoaringBitmap)
    requires
        s.wf(),
        all_optimal(s.containers@),
    ensures
        s.storable(),
{
    let c = s.containers@;
    if c.len() > 0 {
        few_chunks(c, c.len() - 1);
    }
    assert forall|i: int| 0 <= i < c.len() implies (#[trigger] c[i]).1.storable() by {
        let v = c[i].1.values();
        assert(c[i].1.wf());
        container::run_count_bound(v, v.len() as int);
    }
}

impl RoaringBitmap {
    /// The numbers of the set, in order.
    pub open spec fn all(&self) -> Seq<u32> {
        all_from(self.containers@, 0)
    }

    pub open spec fn has(&self, v: u32) -> bool {
        self.all().contains(v)
    }

    pub open spec fn wf(&self) -> bool {
        chunks_ok(self.containers@)
    }
}

/// The numbers of chunks in order are in order, and are those that the chunks
/// hold.
pub proof fn all_members(c: Seq<(u16, Container)>, n: int)
    requires
        chunks_ok(c),
        0 <= n <= c.len(),
    ensures
        block::increasing(all_from(c, n)),
        forall|v: u32| #[trigger] all_from(c, n).contains(v) <==> holds(c, n, c.len() as int, v),
        forall|i: int|
            0 <= i < all_from(c, n).len() ==> n < c.len() && (#[trigger] all_from(c, n)[i])
                >= 0x1_0000 * c[n].0,
    decreases c.len() - n,
{
    if n < c.len() {
        all_members(c, n + 1);
        let part = chunk(c[n]);
        let rest = all_from(c, n + 1);
        let all = part + rest;
        let s = c[n].1.values();
        assert(c[n].1.wf());
        container::values_ok(c[n].1);
        assert forall|i: int| 0 <= i < all.len() implies (#[trigger] all[i]) >= 0x1_0000 * c[n].0 by {
            if i >= part.len() {
                assert(all[i] == rest[i - part.len()]);
                assert(c[n].0 < c[n + 1].0);
            }
        }
        assert forall|i: int, j: int| 0 <= i < j < all.len() implies all[i] < all[j] by {
            if j < part.len() {
                assert(s[i] < s[j]);
            } else {
                assert(all[j] == rest[j - part.len()]);
                assert(c[n].0 < c[n + 1].0);
                if i >= part.len() {
                    assert(all[i] == rest[i - part.len()]);
                }
            }
        }
        assert forall|v: u32| #[trigger] all.contains(v) <==> holds(c, n, c.len() as int, v) by {
            if all.contains(v) {
                let i = choose|i: int| 0 <= i < all.len() && all[i] == v;
                if i < part.len() {
                    assert(v == 0x1_0000 * c[n].0 + s[i]);
                    assert(c[n].0 == high_of(v));
                    assert(s[i] == low_of(v));
                    assert(c[n].1.has(low_of(v)));
                } else {
                    assert(rest[i - part.len()] == v);
                    assert(rest.contains(v));
                    let k = choose|k: int|
                        n + 1 <= k < c.len() && (#[trigger] c[k]).0 == high_of(v) && c[k].1.has(
                            low_of(v),
                        );
                    assert(c[k].0 == high_of(v));
                }
            }
            if holds(c, n, c.len() as int, v) {
                let k = choose|k: int|
                    n <= k < c.len() && (#[trigger] c[k]).0 == high_of(v) && c[k].1.has(low_of(v));
                if k == n {
                    let i = choose|i: int| 0 <= i < s.len() && s[i] == low_of(v);
                    assert(v == 0x1_0000 * high_of(v) + low_of(v));
                    assert(all[i] == v);
                } else {
                    assert(holds(c, n + 1, c.len() as int, v));
                    assert(rest.contains(v));
                    let i = choose|i: int| 0 <= i < rest.len() && rest[i] == v;
                    assert(all[part.len() + i] == v);
                }
            }
        }
    }
}

/// Numbers in order are known by which they are.
pub proof fn same_members(a: Seq<u32>, b: Seq<u32>)
    requires
        block::increasing(a),
        block::increasing(b),
        forall|v: u32| a.contains(v) <==> b.contains(v),
    ensures
        a == b,
    decreases a.len(),
{
    if a.len() == 0 {
        if b.len() > 0 {
            assert(b.contains(b[0]));
        }
        assert(a =~= b);
    } else {
        assert(a.contains(a[a.len() - 1]));
        assert(b.contains(a.last()));
        assert(b.len() > 0);
        assert(b.contains(b[b.len() - 1]));
        assert(a.contains(b.last()));
        let i = choose|i: int| 0 <= i < b.len() && b[i] == a.last();
        let j = choose|j: int| 0 <= j < a.len() && a[j] == b.last();
        if i < b.len() - 1 {
            assert(b[i] < b[b.len() - 1]);
        }
        if j < a.len() - 1 {
            assert(a[j] < a[a.len() - 1]);
        }
        assert(a.last() == b.last());
        let x = a.drop_last();
        let y = b.drop_last();
        assert forall|v: u32| x.contains(v) <==> y.contains(v) by {
            if x.contains(v) {
                let k = choose|k: int| 0 <= k < x.len() && x[k] == v;
                assert(a[k] < a[a.len() - 1]);
                assert(a.contains(v));
                let m = choose|m: int| 0 <= m < b.len() && b[m] == v;
                assert(y[m] == v);
            }
            if y.contains(v) {
                let k = choose|k: int| 0 <= k < y.len() && y[k] == v;
                assert(b[k] < b[b.len() - 1]);
                assert(b.contains(v));
                let m = choose|m: int| 0 <= m < a.len() && a[m] == v;
                assert(x[m] == v);
            }
        }
        same_members(x, y);
        assert(a =~= x.push(a.last()));
        assert(b =~= y.push(b.last()));
    }
}

impl Default for RoaringBitmap {
    fn default() -> (r: Self)
        ensures
            r.wf(),
            r.all() == Seq::<u32>::empty(),
    {
        RoaringBitmap::new()
    }
}

impl RoaringBitmap {
    /// The empty set.
    pub fn new() -> (r: Self)
        ensures
            r.wf(),
            r.all() == Seq::<u32>::empty(),
    {
        RoaringBitmap { containers: Vec::new() }
    }

    /// The set of numbers that never run backwards.
    pub fn from_sorted_slice(values: &[u32]) -> (r: Self)
        requires
            gaps::ascending(values@),
        ensures
            r.wf(),
            block::increasing(r.all()),
            forall|v: u32| #[trigger] r.has(v) <==> values@.contains(v),
            all_optimal(r.containers@),
    {
        let mut containers: Vec<(u16, Container)> = Vec::new();
        let n: usize = values.len();
        let mut i: usize = 0;
        while i < n
            invariant
                i <= n == values@.len(),
                gaps::ascending(values@),
                chunks_ok(containers@),
                all_optimal(containers@),
                forall|k: int|
                    0 <= k < containers@.len() && i < n ==> (#[trigger] containers@[k]).0 < high_of(
                        values@[i as int],
                    ),
                forall|v: u32|
                    #[trigger] holds(containers@, 0, containers@.len() as int, v) <==> values@.take(
                        i as int,
                    ).contains(v),
            decreases n - i,
        {
            let high: u16 = (values[i] / 0x1_0000) as u16;
            let ghost first = i as int;
            let ghost before = containers@;
            let mut c = Container::new_array();
            let mut j: usize = i;
            while j < n && (values[j] / 0x1_0000) as u16 == high
                invariant
                    i <= j <= n == values@.len(),
                    i < n,
                    first == i,
                    gaps::ascending(values@),
                    high == high_of(values@[first]),
                    c.wf(),
                    c is Array,
                    j > i ==> c.values().len() > 0,
                    forall|k: int| first <= k < j ==> high_of(#[trigger] values@[k]) == high,
                    forall|v: u16|
                        #[trigger] c.has(v) <==> exists|k: int|
                            first <= k < j && low_of(#[trigger] values@[k]) == v,
                decreases n - j,
            {
                let low: u16 = (values[j] % 0x1_0000) as u16;
                let ghost was = c;
                c.insert(low);
                proof {
                    assert(c.has(low));
                    assert forall|v: u16| #[trigger] c.has(v) <==> exists|k: int|
                        first <= k < j + 1 && low_of(#[trigger] values@[k]) == v by {
                        if c.has(v) {
                            if v == low {
                                assert(low_of(values@[j as int]) == v);
                            } else {
                                assert(was.has(v));
                                let k = choose|k: int|
                                    first <= k < j && low_of(#[trigger] values@[k]) == v;
                                assert(low_of(values@[k]) == v);
                            }
                        }
                        if exists|k: int| first <= k < j + 1 && low_of(#[trigger] values@[k])
                            == v {
                            let k = choose|k: int|
                                first <= k < j + 1 && low_of(#[trigger] values@[k]) == v;
                            if k < j {
                                assert(was.has(v));
                            }
                        }
                    }
                }
                j = j + 1;
            }
            let ghost filled = c;
            c.optimize();
            let ghost done = c;
            containers.push((high, c));
            proof {
                let after = containers@;
                assert forall|x: u16| #[trigger] done.has(x) <==> exists|k: int|
                    first <= k < j && low_of(#[trigger] values@[k]) == x by {
                    assert(filled.has(x) <==> done.has(x));
                }
                assert forall|k: int| 0 <= k < after.len() implies (#[trigger] after[k]).1.wf()
                    && after[k].1.values().len() > 0 by {
                    if k < before.len() {
                        assert(before[k].1.wf() && before[k].1.values().len() > 0);
                    }
                }
                assert forall|k: int| 0 <= k < after.len() && j < n implies (#[trigger] after[k]).0
                    < high_of(values@[j as int]) by {
                    assert(values@[first] <= values@[j as int]);
                    if k < before.len() {
                        assert(before[k].0 < high_of(values@[first]));
                    }
                }
                assert forall|v: u32| #[trigger] holds(after, 0, after.len() as int, v)
                    <==> values@.take(j as int).contains(v) by {
                    group_added(values@, before, after, done, high, first, j as int, v);
                }
            }
            i = j;
        }
        let r = RoaringBitmap { containers };
        proof {
            all_members(r.containers@, 0);
            assert(values@.take(n as int) =~= values@);
        }
        r
    }

    /// Place of an upper half among the chunks, or where it would be.
    fn find(&self, high: u16) -> (r: (bool, usize))
        requires
            self.wf(),
        ensures
            r.1 <= self.containers@.len(),
            r.0 ==> r.1 < self.containers@.len() && self.containers@[r.1 as int].0 == high,
            forall|k: int| 0 <= k < r.1 ==> (#[trigger] self.containers@[k]).0 < high,
            !r.0 ==> forall|k: int|
                r.1 <= k < self.containers@.len() ==> (#[trigger] self.containers@[k]).0 > high,
    {
        let n: usize = self.containers.len();
        let mut lo: usize = 0;
        let mut hi: usize = n;
        while lo < hi
            invariant
                lo <= hi <= n == self.containers@.len(),
                self.wf(),
                forall|k: int| 0 <= k < lo ==> (#[trigger] self.containers@[k]).0 < high,
                forall|k: int| hi <= k < n ==> (#[trigger] self.containers@[k]).0 >= high,
            decreases hi - lo,
        {
            let mid: usize = lo + (hi - lo) / 2;
            if self.containers[mid].0 < high {
                proof {
                    assert forall|k: int| 0 <= k < mid + 1 implies (
                    #[trigger] self.containers@[k]).0 < high by {
                        if k < mid {
                            assert(self.containers@[k].0 < self.containers@[mid as int].0);
                        }
                    }
                }
                lo = mid + 1;
            } else {
                proof {
                    assert forall|k: int| mid <= k < n implies (#[trigger] self.containers@[k]).0
                        >= high by {
                        if k > mid {
                            assert(self.containers@[mid as int].0 < self.containers@[k].0);
                        }
                    }
                }
                hi = mid;
            }
        }
        let found: bool = lo < n && self.containers[lo].0 == high;
        proof {
            if !found {
                assert forall|k: int| lo <= k < n implies (#[trigger] self.containers@[k]).0
                    > high by {
                    if k > lo {
                        assert(self.containers@[lo as int].0 < self.containers@[k].0);
                    }
                }
            }
        }
        (found, lo)
    }

    /// Add a number; gives whether it was new.
    pub fn insert(&mut self, val: u32) -> (r: bool)
        requires
            old(self).wf(),
        ensures
            final(self).wf(),
            r == !old(self).has(val),
            forall|v: u32| #[trigger] final(self).has(v) <==> v == val || old(self).has(v),
            is_inserted(final(self).containers@, old(self).containers@, high_of(val)),
    {
        let high: u16 = (val / 0x1_0000) as u16;
        let low: u16 = (val % 0x1_0000) as u16;
        let ghost before = self.containers@;
        let (found, at): (bool, usize) = self.find(high);
        let mut c = Container::new_array();
        if found {
            let (_h, own): (u16, Container) = self.containers.remove(at);
            c = own;
        }
        let ghost was = c;
        proof {
            if found {
                assert(before[at as int].1.wf());
            }
        }
        let new: bool = c.insert(low);
        proof {
            assert(c.has(low));
        }
        self.containers.insert(at, (high, c));
        proof {
            let after = self.containers@;
            assert(after[at as int] == (high, c));
            if found {
                assert(after =~= before.update(at as int, (high, c)));
                assert(before[at as int] == (high, was));
            } else {
                assert(after =~= before.insert(at as int, (high, c)));
            }
            if found {
                assert forall|k: int| 0 <= k < before.len() && k != at implies after[k]
                    == #[trigger] before[k] by {}
            } else {
                assert forall|k: int| 0 <= k < at implies after[k] == #[trigger] before[k] by {}
                assert forall|k: int| at <= k < before.len() implies after[k + 1]
                    == #[trigger] before[k] by {}
            }
            assert forall|k: int| 0 <= k < after.len() implies (#[trigger] after[k]).1.wf()
                && after[k].1.values().len() > 0 by {
                if k != at {
                    let x = if found || k < at {
                        k
                    } else {
                        k - 1
                    };
                    assert(after[k] == before[x]);
                    assert(before[x].1.wf() && before[x].1.values().len() > 0);
                }
            }
            assert forall|i: int, j: int| 0 <= i < j < after.len() implies (#[trigger] after[i]).0
                < (#[trigger] after[j]).0 by {
                let x = if found || i < at {
                    i
                } else {
                    i - 1
                };
                let y = if found || j < at {
                    j
                } else {
                    j - 1
                };
                if i != at && j != at {
                    assert(before[x].0 < before[y].0);
                } else if i == at {
                    if found {
                        assert(before[at as int].0 < before[j].0);
                    } else {
                        assert(before[y].0 > high);
                    }
                } else {
                    assert(before[x].0 < high);
                }
            }
            assert(is_inserted(after, before, high)) by {
                assert(after[at as int].0 == high);
            }
            all_members(before, 0);
            all_members(after, 0);
            assert forall|v: u32| holds(after, 0, after.len() as int, v) <==> v == val || holds(
                before,
                0,
                before.len() as int,
                v,
            ) by {
                one_changed(before, after, at as int, found, high, was, c, v);
                assert(v == 0x1_0000 * high_of(v) + low_of(v));
                assert(val == 0x1_0000 * high + low);
            }
            one_changed(before, after, at as int, found, high, was, c, val);
            assert(old(self).has(val) <==> holds(before, 0, before.len() as int, val));
        }
        new
    }

    /// Whether a number is a member.
    pub fn contains(&self, val: u32) -> (r: bool)
        requires
            self.wf(),
        ensures
            r == self.has(val),
    {
        let high: u16 = (val / 0x1_0000) as u16;
        let low: u16 = (val % 0x1_0000) as u16;
        let (found, at): (bool, usize) = self.find(high);
        proof {
            all_members(self.containers@, 0);
        }
        if !found {
            return false;
        }
        let r: bool = self.containers[at].1.contains(low);
        proof {
            let c = self.containers@;
            if holds(c, 0, c.len() as int, val) {
                let k = choose|k: int|
                    0 <= k < c.len() && (#[trigger] c[k]).0 == high_of(val) && c[k].1.has(
                        low_of(val),
                    );
                if k < at {
                    assert(c[k].0 < c[at as int].0);
                } else if k > at {
                    assert(c[at as int].0 < c[k].0);
                }
            }
        }
        r
    }

    /// Number of members.
    pub fn cardinality(&self) -> (r: u32)
        requires
            self.wf(),
            self.all().len() <= u32::MAX,
        ensures
            r == self.all().len(),
    {
        let mut total: u32 = 0;
        let mut i: usize = 0;
        while i < self.containers.len()
            invariant
                i <= self.containers@.len(),
                self.wf(),
                total + all_from(self.containers@, i as int).len() == self.all().len(),
                self.all().len() <= u32::MAX,
            decreases self.containers@.len() - i,
        {
            total = total + self.containers[i].1.cardinality();
            i = i + 1;
        }
        total
    }

    /// Whether there are no members.
    pub fn is_empty(&self) -> (r: bool)
        requires
            self.wf(),
        ensures
            r == (self.all().len() == 0),
    {
        self.containers.len() == 0
    }

    /// Take the form with the least room in every chunk. Runs are kept as they
    /// are.
    pub fn optimize(&mut self)
        requires
            old(self).wf(),
        ensures
            final(self).wf(),
            final(self).all() == old(self).all(),
            final(self).containers@.len() == old(self).containers@.len(),
            forall|k: int|
                0 <= k < old(self).containers@.len() ==> is_compacted(
                    #[trigger] final(self).containers@[k],
                    old(self).containers@[k],
                ),
    {
        let mut own: Vec<(u16, Container)> = Vec::new();
        std::mem::swap(&mut own, &mut self.containers);
        let ghost before = own@;
        let n: usize = own.len();
        let mut i: usize = 0;
        while i < n
            invariant
                i <= n == own@.len(),
                before.len() == n,
                chunks_ok(before),
                forall|k: int|
                    0 <= k < n ==> (#[trigger] own@[k]).0 == before[k].0 && own@[k].1.wf()
                        && own@[k].1.values() == before[k].1.values(),
                forall|k: int| 0 <= k < i ==> is_compacted(#[trigger] own@[k], before[k]),
                forall|k: int| i <= k < n ==> #[trigger] own@[k] == before[k],
            decreases n - i,
        {
            let (high, mut c): (u16, Container) = own.remove(i);
            c.optimize();
            own.insert(i, (high, c));
            i = i + 1;
        }
        self.containers = own;
        proof {
            assert forall|x: int, y: int| 0 <= x < y < n implies (#[trigger] own@[x]).0 < (
            #[trigger] own@[y]).0 by {
                assert(before[x].0 < before[y].0);
            }
            assert forall|k: int| 0 <= k < n implies (#[trigger] own@[k]).1.wf()
                && own@[k].1.values().len() > 0 by {
                assert(before[k].1.values().len() > 0);
            }
            all_same(before, own@, 0);
        }
    }

    /// The numbers in both sets.
    pub fn and(&self, other: &RoaringBitmap) -> (r: RoaringBitmap)
        requires
            self.wf(),
            other.wf(),
        ensures
            r.wf(),
            block::increasing(r.all()),
            forall|v: u32| #[trigger] r.has(v) <==> self.has(v) && other.has(v),
            forall|k: int|
                0 <= k < r.containers@.len() ==> is_common(
                    #[trigger] r.containers@[k],
                    self.containers@,
                    other.containers@,
                ),
    {
        let mut containers: Vec<(u16, Container)> = Vec::new();
        let ghost a = self.containers@;
        let ghost b = other.containers@;
        let mut i: usize = 0;
        let mut j: usize = 0;
        while i < self.containers.len() && j < other.containers.len()
            invariant
                i <= a.len(),
                j <= b.len(),
                a == self.containers@,
                b == other.containers@,
                chunks_ok(a),
                chunks_ok(b),
                chunks_ok(containers@),
                forall|k: int, m: int|
                    0 <= k < containers@.len() && i <= m < a.len() ==> (#[trigger] containers@[k]).0
                        < (#[trigger] a[m]).0,
                forall|k: int, m: int|
                    0 <= k < i && j <= m < b.len() ==> (#[trigger] a[k]).0 < (#[trigger] b[m]).0,
                forall|k: int, m: int|
                    0 <= k < j && i <= m < a.len() ==> (#[trigger] b[k]).0 < (#[trigger] a[m]).0,
                forall|v: u32|
                    #[trigger] holds(containers@, 0, containers@.len() as int, v) <==> holds(
                        a,
                        0,
                        i as int,
                        v,
                    ) && holds(b, 0, j as int, v),
                forall|k: int|
                    0 <= k < containers@.len() ==> is_common(#[trigger] containers@[k], a, b),
            decreases a.len() - i + b.len() - j,
        {
            let high1: u16 = self.containers[i].0;
            let high2: u16 = other.containers[j].0;
            let ghost before = containers@;
            if high1 < high2 {
                proof {
                    assert forall|v: u32| #[trigger] holds(before, 0, before.len() as int, v)
                        <==> holds(a, 0, i + 1, v) && holds(b, 0, j as int, v) by {
                        passed(a, b, i as int, j as int, v);
                    }
                    order_passed(a, b, i as int, j as int);
                }
                i = i + 1;
            } else if high1 > high2 {
                proof {
                    assert forall|v: u32| #[trigger] holds(before, 0, before.len() as int, v)
                        <==> holds(a, 0, i as int, v) && holds(b, 0, j + 1, v) by {
                        passed(b, a, j as int, i as int, v);
                    }
                    order_passed(b, a, j as int, i as int);
                }
                j = j + 1;
            } else {
                proof {
                    assert(a[i as int].1.wf() && b[j as int].1.wf());
                }
                let c = self.containers[i].1.intersect(&other.containers[j].1);
                let count: u32 = c.cardinality();
                let ghost made = c;
                if count > 0 {
                    containers.push((high1, c));
                }
                proof {
                    let after = containers@;
                    let n = before.len() as int;
                    if count > 0 {
                        chunks_push(before, high1, made);
                        assert(a[i as int].0 == high1 && b[j as int].0 == high1);
                        assert(is_common((high1, made), a, b));
                    }
                    assert forall|v: u32| #[trigger] holds(after, 0, after.len() as int, v)
                        <==> holds(a, 0, i + 1, v) && holds(b, 0, j + 1, v) by {
                        both_passed(a, b, before, after, made, i as int, j as int, v);
                    }
                    order_passed_both(a, b, i as int, j as int);
                    assert forall|k: int, m: int|
                        0 <= k < after.len() && i + 1 <= m < a.len() implies (#[trigger] after[k]).0
                        < (#[trigger] a[m]).0 by {
                        assert(a[i as int].0 < a[m].0);
                        if k < n {
                            assert(before[k].0 < a[i as int].0);
                        }
                    }
                }
                i = i + 1;
                j = j + 1;
            }
        }
        let r = RoaringBitmap { containers };
        proof {
            all_members(a, 0);
            all_members(b, 0);
            all_members(r.containers@, 0);
            assert forall|v: u32| holds(a, 0, a.len() as int, v) && holds(b, 0, b.len() as int, v)
                <==> holds(a, 0, i as int, v) && holds(b, 0, j as int, v) by {
                if holds(a, 0, a.len() as int, v) && holds(b, 0, b.len() as int, v) {
                    let x = choose|k: int|
                        0 <= k < a.len() && (#[trigger] a[k]).0 == high_of(v) && a[k].1.has(
                            low_of(v),
                        );
                    let y = choose|k: int|
                        0 <= k < b.len() && (#[trigger] b[k]).0 == high_of(v) && b[k].1.has(
                            low_of(v),
                        );
                    if i == a.len() && y >= j {
                        assert(a[x].0 < b[y].0);
                    }
                    if j == b.len() && x >= i {
                        assert(b[y].0 < a[x].0);
                    }
                }
            }
        }
        r
    }

    /// The numbers in either set.
    pub fn or(&self, other: &RoaringBitmap) -> (r: RoaringBitmap)
        requires
            self.wf(),
            other.wf(),
        ensures
            r.wf(),
            block::increasing(r.all()),
            forall|v: u32| #[trigger] r.has(v) <==> self.has(v) || other.has(v),
            forall|k: int|
                0 <= k < r.containers@.len() ==> is_joined(
                    #[trigger] r.containers@[k],
                    self.containers@,
                    other.containers@,
                ),
    {
        let mut containers: Vec<(u16, Container)> = Vec::new();
        let ghost a = self.containers@;
        let ghost b = other.containers@;
        let mut i: usize = 0;
        let mut j: usize = 0;
        while i < self.containers.len() || j < other.containers.len()
            invariant
                i <= a.len(),
                j <= b.len(),
                a == self.containers@,
                b == other.containers@,
                chunks_ok(a),
                chunks_ok(b),
                chunks_ok(containers@),
                forall|k: int, m: int|
                    0 <= k < containers@.len() && i <= m < a.len() ==> (#[trigger] containers@[k]).0
                        < (#[trigger] a[m]).0,
                forall|k: int, m: int|
                    0 <= k < containers@.len() && j <= m < b.len() ==> (#[trigger] containers@[k]).0
                        < (#[trigger] b[m]).0,
                forall|v: u32|
                    #[trigger] holds(containers@, 0, containers@.len() as int, v) <==> holds(
                        a,
                        0,
                        i as int,
                        v,
                    ) || holds(b, 0, j as int, v),
                forall|k: int, m: int|
                    0 <= k < i && j <= m < b.len() ==> (#[trigger] a[k]).0 < (#[trigger] b[m]).0,
                forall|k: int, m: int|
                    0 <= k < j && i <= m < a.len() ==> (#[trigger] b[k]).0 < (#[trigger] a[m]).0,
                forall|k: int|
                    0 <= k < containers@.len() ==> is_joined(#[trigger] containers@[k], a, b),
            decreases a.len() - i + b.len() - j,
        {
            let ghost before = containers@;
            let from_a: bool = i < self.containers.len() && (j >= other.containers.len()
                || self.containers[i].0 <= other.containers[j].0);
            let from_b: bool = j < other.containers.len() && (i >= self.containers.len()
                || other.containers[j].0 <= self.containers[i].0);
            proof {
                if from_a {
                    assert(a[i as int].1.wf() && a[i as int].1.values().len() > 0);
                }
                if from_b {
                    assert(b[j as int].1.wf() && b[j as int].1.values().len() > 0);
                }
            }
            let high: u16 = if from_a {
                self.containers[i].0
            } else {
                other.containers[j].0
            };
            let c: Container = if from_a && from_b {
                self.containers[i].1.union(&other.containers[j].1)
            } else if from_a {
                self.containers[i].1.copy()
            } else {
                other.containers[j].1.copy()
            };
            let ghost made = c;
            containers.push((high, c));
            proof {
                let after = containers@;
                let i2 = if from_a {
                    i + 1
                } else {
                    i as int
                };
                let j2 = if from_b {
                    j + 1
                } else {
                    j as int
                };
                if from_a && from_b {
                    let x = a[i as int].1.values()[0];
                    assert(a[i as int].1.has(x));
                    assert(made.has(x));
                }
                chunks_push(before, high, made);
                if from_a && from_b {
                    assert(a[i as int].0 == high && b[j as int].0 == high);
                    order_passed_both(a, b, i as int, j as int);
                } else if from_a {
                    lower_only(a, b, i as int, j as int);
                    assert(a[i as int].0 == high);
                    assert(is_copied((high, made), a));
                } else {
                    lower_only(b, a, j as int, i as int);
                    assert(b[j as int].0 == high);
                    assert(is_copied((high, made), b));
                }
                assert(is_joined((high, made), a, b));
                assert forall|v: u32| #[trigger] holds(after, 0, after.len() as int, v) <==> holds(
                    a,
                    0,
                    i2,
                    v,
                ) || holds(b, 0, j2, v) by {
                    pushed_holds(before, high, made, v);
                    if from_a {
                        one_more(a, i as int, v);
                    }
                    if from_b {
                        one_more(b, j as int, v);
                    }
                }
                assert forall|k: int, m: int|
                    0 <= k < after.len() && i2 <= m < a.len() implies (#[trigger] after[k]).0 < (
                #[trigger] a[m]).0 by {
                    if k < before.len() {
                        assert(before[k].0 < a[m].0);
                    } else if from_a {
                        assert(a[i as int].0 < a[m].0);
                    } else if m > i {
                        assert(a[i as int].0 < a[m].0);
                    }
                }
                assert forall|k: int, m: int|
                    0 <= k < after.len() && j2 <= m < b.len() implies (#[trigger] after[k]).0 < (
                #[trigger] b[m]).0 by {
                    if k < before.len() {
                        assert(before[k].0 < b[m].0);
                    } else if from_b {
                        assert(b[j as int].0 < b[m].0);
                    } else if m > j {
                        assert(b[j as int].0 < b[m].0);
                    }
                }
            }
            if from_a {
                i = i + 1;
            }
            if from_b {
                j = j + 1;
            }
        }
        let r = RoaringBitmap { containers };
        proof {
            all_members(a, 0);
            all_members(b, 0);
            all_members(r.containers@, 0);
        }
        r
    }

    /// Whether the chunks make sense.
    pub fn is_valid(&self) -> (r: bool)
        ensures
            r == self.wf(),
    {
        let n: usize = self.containers.len();
        let mut i: usize = 0;
        while i < n
            invariant
                i <= n == self.containers@.len(),
                chunks_ok(self.containers@.take(i as int)),
            decreases n - i,
        {
            let ghost c = self.containers@;
            let ghost seen = c.take(i as int);
            let ghost more = c.take(i + 1);
            if !self.containers[i].1.is_valid() {
                proof {
                    assert(!c[i as int].1.wf());
                }
                return false;
            }
            if self.containers[i].1.cardinality() == 0 {
                proof {
                    assert(!(c[i as int].1.wf() && c[i as int].1.values().len() > 0));
                }
                return false;
            }
            if i > 0 && self.containers[i - 1].0 >= self.containers[i].0 {
                proof {
                    assert(!(c[i - 1].0 < c[i as int].0));
                }
                return false;
            }
            proof {
                assert forall|x: int| 0 <= x < more.len() implies (#[trigger] more[x]).1.wf()
                    && more[x].1.values().len() > 0 by {
                    if x < i {
                        assert(seen[x].1.wf() && seen[x].1.values().len() > 0);
                    }
                }
                assert forall|x: int, y: int| 0 <= x < y < more.len() implies (#[trigger] more[x]).0
                    < (#[trigger] more[y]).0 by {
                    if y < i {
                        assert(seen[x].0 < seen[y].0);
                    } else if x < i - 1 {
                        assert(seen[x].0 < seen[i - 1].0);
                    }
                }
            }
            i = i + 1;
        }
        proof {
            assert(self.containers@.take(n as int) =~= self.containers@);
        }
        true
    }

    /// A cursor over the members, in order.
    pub fn iter(&self) -> (r: RoaringIterator<'_>)
        requires
            self.wf(),
        ensures
            r.wf(),
            *r.bitmap == *self,
            r.rest() == self.all(),
    {
        let r = RoaringIterator {
            bitmap: self,
            container_idx: 0,
            value_idx: 0,
            current_values: Vec::new(),
        };
        proof {
            assert(r.rest() =~= self.all());
        }
        r
    }
}

/// A cursor over a set, in order.
pub struct RoaringIterator<'a> {
    pub bitmap: &'a RoaringBitmap,
    pub container_idx: usize,
    pub value_idx: usize,
    /// The lower halves of the chunk before `container_idx`.
    pub current_values: Vec<u16>,
}

impl<'a> RoaringIterator<'a> {
    pub open spec fn wf(&self) -> bool {
        &&& self.bitmap.wf()
        &&& self.container_idx <= self.bitmap.containers@.len()
        &&& self.value_idx <= self.current_values@.len()
        &&& self.container_idx == 0 ==> self.current_values@.len() == 0
        &&& self.container_idx > 0 ==> self.current_values@
            == self.bitmap.containers@[self.container_idx - 1].1.values()
    }

    /// The members ahead.
    pub open spec fn rest(&self) -> Seq<u32> {
        if self.container_idx == 0 {
            self.bitmap.all()
        } else {
            chunk(self.bitmap.containers@[self.container_idx - 1]).skip(self.value_idx as int)
                + all_from(self.bitmap.containers@, self.container_idx as int)
        }
    }

    /// The next member, if there is one.
    pub fn next(&mut self) -> (r: Option<u32>)
        requires
            old(self).wf(),
        ensures
            final(self).wf(),
            *final(self).bitmap == *old(self).bitmap,
            match r {
                Some(v) => old(self).rest().len() > 0 && v == old(self).rest()[0]
                    && final(self).rest() == old(self).rest().skip(1),
                None => old(self).rest().len() == 0 && final(self).rest().len() == 0,
            },
    {
        if self.value_idx >= self.current_values.len() {
            if self.container_idx >= self.bitmap.containers.len() {
                return None;
            }
            let ghost before = self.rest();
            let c = &self.bitmap.containers[self.container_idx].1;
            proof {
                assert(self.bitmap.containers@[self.container_idx as int].1.wf());
            }
            self.current_values = c.to_array();
            self.value_idx = 0;
            self.container_idx = self.container_idx + 1;
            proof {
                let part = chunk(self.bitmap.containers@[self.container_idx - 1]);
                assert(part.skip(0) =~= part);
                assert(self.rest() =~= before);
            }
        }
        let ghost before = self.rest();
        let high: u16 = self.bitmap.containers[self.container_idx - 1].0;
        let low: u16 = self.current_values[self.value_idx];
        self.value_idx = self.value_idx + 1;
        proof {
            let part = chunk(self.bitmap.containers@[self.container_idx - 1]);
            let k = self.value_idx - 1;
            assert(before[0] == part[k]);
            assert(before.skip(1) =~= self.rest());
        }
        Some(high as u32 * 0x1_0000 + low as u32)
    }
}

/// Chunks with the same numbers hold the same numbers.
proof fn all_same(a: Seq<(u16, Container)>, b: Seq<(u16, Container)>, n: int)
    requires
        a.len() == b.len(),
        0 <= n <= a.len(),
        forall|k: int|
            0 <= k < a.len() ==> (#[trigger] b[k]).0 == a[k].0 && b[k].1.values()
                == a[k].1.values(),
    ensures
        all_from(a, n) == all_from(b, n),
    decreases a.len() - n,
{
    if n < a.len() {
        all_same(a, b, n + 1);
        assert(chunk(a[n]) =~= chunk(b[n]));
    }
}

/// One more chunk, in order.
proof fn chunks_push(before: Seq<(u16, Container)>, high: u16, c: Container)
    requires
        chunks_ok(before),
        c.wf(),
        c.values().len() > 0,
        forall|k: int| 0 <= k < before.len() ==> (#[trigger] before[k]).0 < high,
    ensures
        chunks_ok(before.push((high, c))),
{
    let after = before.push((high, c));
    assert forall|k: int| 0 <= k < after.len() implies (#[trigger] after[k]).1.wf()
        && after[k].1.values().len() > 0 by {
        if k < before.len() {
            assert(before[k].1.wf() && before[k].1.values().len() > 0);
        }
    }
    assert forall|i: int, j: int| 0 <= i < j < after.len() implies (#[trigger] after[i]).0 < (
    #[trigger] after[j]).0 by {
        if j < before.len() {
            assert(before[i].0 < before[j].0);
        }
    }
}

/// What one more chunk holds.
proof fn pushed_holds(before: Seq<(u16, Container)>, high: u16, c: Container, v: u32)
    ensures
        ({
            let after = before.push((high, c));
            holds(after, 0, after.len() as int, v) <==> holds(before, 0, before.len() as int, v) || (
            high == high_of(v) && c.has(low_of(v)))
        }),
{
    let after = before.push((high, c));
    let n = before.len() as int;
    if holds(after, 0, after.len() as int, v) {
        let k = choose|k: int|
            0 <= k < after.len() && (#[trigger] after[k]).0 == high_of(v) && after[k].1.has(
                low_of(v),
            );
        if k < n {
            assert(before[k].0 == high_of(v));
        }
    }
    if holds(before, 0, n, v) {
        let k = choose|k: int|
            0 <= k < n && (#[trigger] before[k]).0 == high_of(v) && before[k].1.has(low_of(v));
        assert(after[k].0 == high_of(v));
    }
    if high == high_of(v) && c.has(low_of(v)) {
        assert(after[n].0 == high_of(v));
    }
}

/// What the next chunk adds.
proof fn one_more(a: Seq<(u16, Container)>, i: int, v: u32)
    requires
        0 <= i < a.len(),
    ensures
        holds(a, 0, i + 1, v) <==> holds(a, 0, i, v) || (a[i].0 == high_of(v) && a[i].1.has(
            low_of(v),
        )),
{
    if holds(a, 0, i, v) {
        let k = choose|k: int|
            0 <= k < i && (#[trigger] a[k]).0 == high_of(v) && a[k].1.has(low_of(v));
        assert(a[k].0 == high_of(v));
    }
    if a[i].0 == high_of(v) && a[i].1.has(low_of(v)) {
        assert(holds(a, 0, i + 1, v));
    }
}

/// A chunk below all that is left of the other set has nothing in common.
proof fn passed(a: Seq<(u16, Container)>, b: Seq<(u16, Container)>, i: int, j: int, v: u32)
    requires
        0 <= i < a.len(),
        0 <= j < b.len(),
        a[i].0 < b[j].0,
        forall|k: int, m: int|
            0 <= k < j && i <= m < a.len() ==> (#[trigger] b[k]).0 < (#[trigger] a[m]).0,
    ensures
        holds(a, 0, i + 1, v) && holds(b, 0, j, v) <==> holds(a, 0, i, v) && holds(b, 0, j, v),
{
    one_more(a, i, v);
    if holds(b, 0, j, v) && a[i].0 == high_of(v) {
        let k = choose|k: int|
            0 <= k < j && (#[trigger] b[k]).0 == high_of(v) && b[k].1.has(low_of(v));
        assert(b[k].0 < a[i].0);
    }
}

proof fn order_passed(a: Seq<(u16, Container)>, b: Seq<(u16, Container)>, i: int, j: int)
    requires
        chunks_ok(a),
        chunks_ok(b),
        0 <= i < a.len(),
        0 <= j < b.len(),
        a[i].0 < b[j].0,
        forall|k: int, m: int|
            0 <= k < i && j <= m < b.len() ==> (#[trigger] a[k]).0 < (#[trigger] b[m]).0,
    ensures
        forall|k: int, m: int|
            0 <= k < i + 1 && j <= m < b.len() ==> (#[trigger] a[k]).0 < (#[trigger] b[m]).0,
{
    assert forall|k: int, m: int| 0 <= k < i + 1 && j <= m < b.len() implies (#[trigger] a[k]).0 < (
    #[trigger] b[m]).0 by {
        if k == i && m > j {
            assert(b[j].0 < b[m].0);
        }
    }
}

/// A chunk below all that is left of the other set is in one set only.
proof fn lower_only(a: Seq<(u16, Container)>, b: Seq<(u16, Container)>, i: int, j: int)
    requires
        chunks_ok(a),
        chunks_ok(b),
        0 <= i < a.len(),
        0 <= j <= b.len(),
        j < b.len() ==> a[i].0 < b[j].0,
        forall|k: int, m: int|
            0 <= k < i && j <= m < b.len() ==> (#[trigger] a[k]).0 < (#[trigger] b[m]).0,
        forall|k: int, m: int|
            0 <= k < j && i <= m < a.len() ==> (#[trigger] b[k]).0 < (#[trigger] a[m]).0,
    ensures
        lacks(b, a[i].0),
        forall|k: int, m: int|
            0 <= k < i + 1 && j <= m < b.len() ==> (#[trigger] a[k]).0 < (#[trigger] b[m]).0,
{
    if j < b.len() {
        order_passed(a, b, i, j);
    }
    assert forall|m: int| 0 <= m < b.len() implies (#[trigger] b[m]).0 != a[i].0 by {
        if m < j {
            assert(b[m].0 < a[i].0);
        } else {
            assert(a[i].0 < b[m].0);
        }
    }
}

proof fn order_passed_both(a: Seq<(u16, Container)>, b: Seq<(u16, Container)>, i: int, j: int)
    requires
        chunks_ok(a),
        chunks_ok(b),
        0 <= i < a.len(),
        0 <= j < b.len(),
        a[i].0 == b[j].0,
        forall|k: int, m: int|
            0 <= k < i && j <= m < b.len() ==> (#[trigger] a[k]).0 < (#[trigger] b[m]).0,
        forall|k: int, m: int|
            0 <= k < j && i <= m < a.len() ==> (#[trigger] b[k]).0 < (#[trigger] a[m]).0,
    ensures
        forall|k: int, m: int|
            0 <= k < i + 1 && j + 1 <= m < b.len() ==> (#[trigger] a[k]).0 < (#[trigger] b[m]).0,
        forall|k: int, m: int|
            0 <= k < j + 1 && i + 1 <= m < a.len() ==> (#[trigger] b[k]).0 < (#[trigger] a[m]).0,
{
    assert forall|k: int, m: int| 0 <= k < i + 1 && j + 1 <= m < b.len() implies (#[trigger] a[k]).0
        < (#[trigger] b[m]).0 by {
        assert(b[j].0 < b[m].0);
        if k < i {
            assert(a[k].0 < a[i].0);
        }
    }
    assert forall|k: int, m: int| 0 <= k < j + 1 && i + 1 <= m < a.len() implies (#[trigger] b[k]).0
        < (#[trigger] a[m]).0 by {
        assert(a[i].0 < a[m].0);
        if k < j {
            assert(b[k].0 < b[j].0);
        }
    }
}

/// Chunks of one upper half in both sets add what they have in common.
proof fn both_passed(
    a: Seq<(u16, Container)>,
    b: Seq<(u16, Container)>,
    before: Seq<(u16, Container)>,
    after: Seq<(u16, Container)>,
    c: Container,
    i: int,
    j: int,
    v: u32,
)
    requires
        0 <= i < a.len(),
        0 <= j < b.len(),
        a[i].0 == b[j].0,
        forall|x: u16| #[trigger] c.has(x) <==> a[i].1.has(x) && b[j].1.has(x),
        after == (if c.values().len() > 0 {
            before.push((a[i].0, c))
        } else {
            before
        }),
        holds(before, 0, before.len() as int, v) <==> holds(a, 0, i, v) && holds(b, 0, j, v),
        forall|k: int, m: int|
            0 <= k < i && j <= m < b.len() ==> (#[trigger] a[k]).0 < (#[trigger] b[m]).0,
        forall|k: int, m: int|
            0 <= k < j && i <= m < a.len() ==> (#[trigger] b[k]).0 < (#[trigger] a[m]).0,
    ensures
        holds(after, 0, after.len() as int, v) <==> holds(a, 0, i + 1, v) && holds(b, 0, j + 1, v),
{
    one_more(a, i, v);
    one_more(b, j, v);
    pushed_holds(before, a[i].0, c, v);
    if a[i].0 == high_of(v) {
        if holds(a, 0, i, v) {
            let k = choose|k: int|
                0 <= k < i && (#[trigger] a[k]).0 == high_of(v) && a[k].1.has(low_of(v));
            assert(a[k].0 < b[j].0);
        }
        if holds(b, 0, j, v) {
            let k = choose|k: int|
                0 <= k < j && (#[trigger] b[k]).0 == high_of(v) && b[k].1.has(low_of(v));
            assert(b[k].0 < a[i].0);
        }
    }
    if c.values().len() == 0 {
        assert(!c.has(low_of(v)));
    }
}

/// A chunk replaced or added changes what its upper half holds.
proof fn one_changed(
    before: Seq<(u16, Container)>,
    after: Seq<(u16, Container)>,
    at: int,
    found: bool,
    high: u16,
    was: Container,
    c: Container,
    v: u32,
)
    requires
        chunks_ok(before),
        0 <= at <= before.len(),
        found ==> at < before.len() && before[at] == (high, was) && after == before.update(
            at,
            (high, c),
        ),
        !found ==> after == before.insert(at, (high, c)) && was.values().len() == 0,
        !found ==> forall|k: int| 0 <= k < before.len() ==> (#[trigger] before[k]).0 != high,
    ensures
        high_of(v) == high ==> (holds(after, 0, after.len() as int, v) <==> c.has(low_of(v))),
        high_of(v) == high ==> (holds(before, 0, before.len() as int, v) <==> was.has(low_of(v))),
        high_of(v) != high ==> (holds(after, 0, after.len() as int, v) <==> holds(
            before,
            0,
            before.len() as int,
            v,
        )),
{
    assert(after[at] == (high, c));
    if high_of(v) == high {
        if holds(after, 0, after.len() as int, v) {
            let k = choose|k: int|
                0 <= k < after.len() && (#[trigger] after[k]).0 == high_of(v) && after[k].1.has(
                    low_of(v),
                );
            if k != at {
                if found {
                    assert(before[k] == after[k]);
                    if k < at {
                        assert(before[k].0 < before[at].0);
                    } else {
                        assert(before[at].0 < before[k].0);
                    }
                } else if k < at {
                    assert(before[k] == after[k]);
                } else {
                    assert(before[k - 1] == after[k]);
                }
            }
        }
        if holds(before, 0, before.len() as int, v) {
            let k = choose|k: int|
                0 <= k < before.len() && (#[trigger] before[k]).0 == high_of(v) && before[k].1.has(
                    low_of(v),
                );
            if found {
                if k < at {
                    assert(before[k].0 < before[at].0);
                } else if k > at {
                    assert(before[at].0 < before[k].0);
                }
            }
        }
        if found && was.has(low_of(v)) {
            assert(before[at].0 == high_of(v));
        }
    } else {
        if holds(after, 0, after.len() as int, v) {
            let k = choose|k: int|
                0 <= k < after.len() && (#[trigger] after[k]).0 == high_of(v) && after[k].1.has(
                    low_of(v),
                );
            let x = if found || k < at {
                k
            } else {
                k - 1
            };
            assert(before[x] == after[k]);
        }
        if holds(before, 0, before.len() as int, v) {
            let k = choose|k: int|
                0 <= k < before.len() && (#[trigger] before[k]).0 == high_of(v) && before[k].1.has(
                    low_of(v),
                );
            let x = if found || k < at {
                k
            } else {
                k + 1
            };
            assert(after[x] == before[k]);
        }
    }
}

/// A group of numbers with one upper half adds a chunk.
proof fn group_added(
    values: Seq<u32>,
    before: Seq<(u16, Container)>,
    after: Seq<(u16, Container)>,
    c: Container,
    high: u16,
    i: int,
    j: int,
    v: u32,
)
    requires
        0 <= i < j <= values.len(),
        after == before.push((high, c)),
        forall|k: int| i <= k < j ==> high_of(#[trigger] values[k]) == high,
        forall|x: u16|
            #[trigger] c.has(x) <==> exists|k: int| i <= k < j && low_of(#[trigger] values[k]) == x,
        holds(before, 0, before.len() as int, v) <==> values.take(i).contains(v),
    ensures
        holds(after, 0, after.len() as int, v) <==> values.take(j).contains(v),
{
    pushed_holds(before, high, c, v);
    if values.take(i).contains(v) {
        let k = choose|k: int| 0 <= k < i && values.take(i)[k] == v;
        assert(values.take(j)[k] == v);
    }
    if high == high_of(v) && c.has(low_of(v)) {
        let k = choose|k: int| i <= k < j && low_of(#[trigger] values[k]) == low_of(v);
        let w = values[k];
        assert(w == 0x1_0000 * high_of(w) + low_of(w));
        assert(v == 0x1_0000 * high_of(v) + low_of(v));
        assert(values.take(j)[k] == v);
    }
    if values.take(j).contains(v) {
        let k = choose|k: int| 0 <= k < j && values.take(j)[k] == v;
        if k < i {
            assert(values.take(i)[k] == v);
        } else {
            assert(low_of(values[k]) == low_of(v));
            assert(high_of(values[k]) == high);
        }
    }
}

} // verus!
