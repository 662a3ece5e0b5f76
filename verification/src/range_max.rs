//! The largest weight of any range of postings, in constant time.
use crate::sparse_skip;
use crate::sparse_weights;
use vstd::prelude::*;

verus! {

/// Whether `v` is the largest of the numbers from `l` up to, not including,
/// `r`: one of them, and no number among them is larger. It is not a number
/// only if none of them is.
pub open spec fn is_top(data: Seq<u32>, l: int, r: int, v: u32) -> bool {
    &&& exists|i: int| l <= i < r && #[trigger] data[i] == v
    &&& forall|i: int|
        l <= i < r && !sparse_weights::is_nan(#[trigger] data[i]) ==> !sparse_weights::is_nan(v)
            && sparse_skip::rank(data[i]) <= sparse_skip::rank(v)
}

/// The larger of the largest of two ranges is the largest of both together.
pub proof fn top_joins(data: Seq<u32>, l: int, m: int, k: int, r: int, a: u32, b: u32)
    requires
        l <= k <= m <= r,
        is_top(data, l, m, a),
        is_top(data, k, r, b),
    ensures
        is_top(data, l, r, sparse_skip::larger(a, b)),
{
    let v = sparse_skip::larger(a, b);
    let i = choose|i: int| l <= i < m && #[trigger] data[i] == a;
    let j = choose|j: int| k <= j < r && #[trigger] data[j] == b;
    assert(data[i] == a && data[j] == b);
    assert(v == a || v == b);
}

/// Largest numbers of ranges whose lengths are powers of two.
pub struct SparseTableMax {
    table: Vec<Vec<u32>>,
    widths: Vec<usize>,
    log2: Vec<usize>,
}

/// The end of the range of width `w` from `i` on.
pub open spec fn range_end(n: int, i: int, w: int) -> int {
    if i + w < n {
        i + w
    } else {
        n
    }
}

/// Whether a level holds the largest number of each range of its width.
pub open spec fn level_ok(data: Seq<u32>, level: Seq<u32>, w: int) -> bool {
    &&& level.len() == data.len()
    &&& forall|i: int|
        0 <= i < data.len() ==> is_top(
            data,
            i,
            range_end(data.len() as int, i, w),
            #[trigger] level[i],
        )
}

fn halves(n: usize) -> (log2: Vec<usize>)
    requires
        n < usize::MAX,
    ensures
        log2@.len() == n + 1,
        forall|i: int| 2 <= i <= n ==> #[trigger] log2@[i] == log2@[i / 2] + 1,
        n >= 1 ==> log2@[1] == 0,
        forall|i: int| 1 <= i <= n ==> #[trigger] log2@[i] < i,
{
    let mut log2: Vec<usize> = Vec::new();
    log2.push(0);
    if n > 0 {
        log2.push(0);
    }
    let mut i: usize = 2;
    while i <= n
        invariant
            n < usize::MAX,
            2 <= i,
            log2@.len() == (if i <= n {
                i as int
            } else {
                n + 1
            }),
            forall|k: int| 2 <= k < log2@.len() ==> #[trigger] log2@[k] == log2@[k / 2] + 1,
            n >= 1 ==> log2@[1] == 0,
            forall|k: int| 1 <= k < log2@.len() ==> #[trigger] log2@[k] < k,
        decreases n + 1 - i,
    {
        proof {
            assert(log2@[i as int / 2] < i as int / 2);
        }
        let half: usize = log2[i / 2] + 1;
        let ghost before = log2@;
        log2.push(half);
        proof {
            assert forall|k: int| 2 <= k < log2@.len() implies #[trigger] log2@[k] == log2@[k / 2]
                + 1 by {
                if k < i {
                    assert(before[k] == before[k / 2] + 1);
                }
            }
        }
        i = i + 1;
    }
    log2
}

fn double_level(data: &[u32], level: &Vec<u32>, w: usize) -> (next: Vec<u32>)
    requires
        w >= 1,
        level_ok(data@, level@, w as int),
    ensures
        level_ok(data@, next@, 2 * w),
{
    let n: usize = data.len();
    let mut next: Vec<u32> = Vec::new();
    let mut i: usize = 0;
    while i < n
        invariant
            w >= 1,
            i <= n,
            n == data@.len(),
            level_ok(data@, level@, w as int),
            next@.len() == i,
            forall|k: int|
                0 <= k < i ==> is_top(
                    data@,
                    k,
                    range_end(n as int, k, 2 * w),
                    #[trigger] next@[k],
                ),
        decreases n - i,
    {
        let v: u32 = if n - i > w {
            let far: usize = i + w;
            proof {
                assert(is_top(data@, i as int, range_end(n as int, i as int, w as int), level@[i as int]));
                assert(is_top(
                    data@,
                    far as int,
                    range_end(n as int, far as int, w as int),
                    level@[far as int],
                ));
                top_joins(
                    data@,
                    i as int,
                    far as int,
                    far as int,
                    range_end(n as int, i as int, 2 * w),
                    level@[i as int],
                    level@[far as int],
                );
            }
            sparse_skip::larger_of(level[i], level[far])
        } else {
            proof {
                assert(is_top(data@, i as int, range_end(n as int, i as int, w as int), level@[i as int]));
            }
            level[i]
        };
        next.push(v);
        i = i + 1;
    }
    next
}

impl SparseTableMax {
    /// The numbers.
    pub closed spec fn data(&self) -> Seq<u32> {
        if self.table@.len() == 0 {
            Seq::empty()
        } else {
            self.table@[0]@
        }
    }

    /// Whether every level is right and every length has a level of at most,
    /// and more than half, its width.
    pub closed spec fn wf(&self) -> bool {
        let n = self.data().len() as int;
        &&& self.widths@.len() == self.table@.len()
        &&& self.log2@.len() == n + 1
        &&& forall|k: int|
            0 <= k < self.table@.len() ==> level_ok(
                self.data(),
                (#[trigger] self.table@[k])@,
                self.widths@[k] as int,
            )
        &&& forall|len: int|
            1 <= len <= n ==> {
                let k = #[trigger] self.log2@[len];
                k < self.table@.len() && 1 <= self.widths@[k as int] <= len < 2
                    * self.widths@[k as int]
            }
    }

    /// Prepare the ranges of numbers.
    pub fn new(data: &[u32]) -> (r: Self)
        requires
            data.len() < usize::MAX,
        ensures
            r.wf(),
            r.data() == data@,
    {
        let n: usize = data.len();
        let log2: Vec<usize> = halves(n);
        let mut table: Vec<Vec<u32>> = Vec::new();
        let mut widths: Vec<usize> = Vec::new();
        if n == 0 {
            proof {
                assert(data@ =~= Seq::<u32>::empty());
            }
            return SparseTableMax { table, widths, log2 };
        }
        let mut level: Vec<u32> = Vec::new();
        let mut i: usize = 0;
        while i < n
            invariant
                i <= n,
                n == data@.len(),
                level@ == data@.take(i as int),
            decreases n - i,
        {
            level.push(data[i]);
            proof {
                assert(data@.take(i + 1) =~= data@.take(i as int).push(data@[i as int]));
            }
            i = i + 1;
        }
        proof {
            assert(level@ =~= data@);
            assert forall|i: int| 0 <= i < n implies is_top(
                data@,
                i,
                range_end(n as int, i, 1),
                #[trigger] level@[i],
            ) by {
                assert(data@[i] == level@[i]);
            }
        }
        table.push(level);
        widths.push(1);
        let mut w: usize = 1;
        let mut k: usize = 0;
        while w <= n / 2
            invariant
                n == data@.len(),
                n >= 1,
                table@.len() == k + 1,
                widths@.len() == k + 1,
                table@[0]@ == data@,
                w == widths@[k as int],
                1 <= w <= n,
                forall|j: int|
                    0 <= j <= k ==> level_ok(
                        data@,
                        (#[trigger] table@[j])@,
                        widths@[j] as int,
                    ),
                log2@.len() == n + 1,
                forall|i: int| 2 <= i <= n ==> #[trigger] log2@[i] == log2@[i / 2] + 1,
                log2@[1] == 0,
                widths@[0] == 1,
                forall|j: int| 1 <= j <= k ==> #[trigger] widths@[j] == 2 * widths@[j - 1],
                k < w,
            decreases n - w,
        {
            let next: Vec<u32> = double_level(data, &table[k], w);
            w = 2 * w;
            table.push(next);
            widths.push(w);
            k = k + 1;
        }
        let r = SparseTableMax { table, widths, log2 };
        proof {
            assert forall|len: int| 1 <= len <= n implies {
                let k = #[trigger] r.log2@[len];
                k < r.table@.len() && 1 <= r.widths@[k as int] <= len < 2 * r.widths@[k as int]
            } by {
                level_found(r.log2@, r.widths@, n as int, len);
            }
        }
        r
    }

    /// The largest number from `l` to `r`, both included; zero if there is
    /// none.
    pub fn query(&self, l: usize, r: usize) -> (v: u32)
        requires
            self.wf(),
            l > r || r < self.data().len(),
        ensures
            l > r ==> v == 0,
            l <= r ==> is_top(self.data(), l as int, r + 1, v),
    {
        if l > r {
            return 0;
        }
        proof {
            assert(self.log2.len() == self.data().len() + 1);
        }
        let len: usize = r - l + 1;
        proof {
            assert(self.log2@[len as int] < self.table@.len());
            assert(self.data().len() > 0);
        }
        let k: usize = self.log2[len];
        let half: usize = self.widths[k];
        let level: &Vec<u32> = &self.table[k];
        let at: usize = r + 1 - half;
        proof {
            assert(level_ok(self.data(), self.table@[k as int]@, half as int));
            assert(is_top(
                self.data(),
                l as int,
                range_end(self.data().len() as int, l as int, half as int),
                level@[l as int],
            ));
            assert(is_top(
                self.data(),
                at as int,
                range_end(self.data().len() as int, at as int, half as int),
                level@[at as int],
            ));
            top_joins(
                self.data(),
                l as int,
                l + half,
                at as int,
                r + 1,
                level@[l as int],
                level@[at as int],
            );
        }
        sparse_skip::larger_of(level[l], level[at])
    }
}

proof fn level_found(log2: Seq<usize>, widths: Seq<usize>, n: int, len: int)
    requires
        1 <= len <= n,
        log2.len() == n + 1,
        forall|i: int| 2 <= i <= n ==> #[trigger] log2[i] == log2[i / 2] + 1,
        log2[1] == 0,
        widths.len() >= 1,
        widths[0] == 1,
        forall|j: int| 1 <= j < widths.len() ==> #[trigger] widths[j] == 2 * widths[j - 1],
        widths.last() > n / 2,
    ensures
        log2[len] < widths.len(),
        1 <= widths[log2[len] as int] <= len < 2 * widths[log2[len] as int],
    decreases len,
{
    if len > 1 {
        level_found(log2, widths, n, len / 2);
        let k = log2[len / 2] as int;
        assert(log2[len] == k + 1);
        if k + 1 >= widths.len() {
            assert(widths[k] == widths.last());
        } else {
            assert(widths[k + 1] == 2 * widths[k + 1 - 1]);
        }
    }
}

} // verus!
