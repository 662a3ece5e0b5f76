//! Blocks of varying size for a sparse posting list: the cheapest way to cut
//! a list into blocks of sizes from 16 to 256. What a block costs, the
//! caller tells.
use crate::partition_laws;
use crate::sparse_list;
use vstd::prelude::*;

verus! {

/// Allowed size `k`.
pub open spec fn size_at(k: int) -> int {
    if k <= 0 {
        16
    } else if k == 1 {
        32
    } else if k == 2 {
        64
    } else if k == 3 {
        128
    } else {
        256
    }
}

/// Whether a size is allowed.
pub open spec fn allowed(s: int) -> bool {
    s == 16 || s == 32 || s == 64 || s == 128 || s == 256
}

/// Whether the postings before `i` can be cut into blocks. A place holds the
/// cost of getting there and the size of the last block, zero if it cannot
/// be reached.
pub open spec fn reached<C>(dp: Seq<(C, usize)>, i: int) -> bool {
    i == 0 || dp[i].1 != 0
}

/// Whether trying allowed size `k` for the block that ends at `i` turns the
/// best choice so far, `a`, into `b`: the new cost is taken if it is less.
pub open spec fn is_step<C: Copy, E: Fn(C, usize, usize) -> C, L: Fn(C, C) -> bool>(
    extend: E,
    less: L,
    dp: Seq<(C, usize)>,
    i: int,
    k: int,
    a: (C, usize),
    b: (C, usize),
) -> bool {
    let start = i - size_at(k);
    if start < 0 || !reached(dp, start) {
        b == a
    } else {
        exists|total: C, low: bool|
            {
                &&& #[trigger] extend.ensures((dp[start].0, start as usize, i as usize), total)
                &&& #[trigger] less.ensures((total, a.0), low)
                &&& b == (if low {
                    (total, size_at(k) as usize)
                } else {
                    a
                })
            }
    }
}

/// Whether `r` is the best choice for the block that ends at `i`.
pub open spec fn is_choice<C: Copy, E: Fn(C, usize, usize) -> C, L: Fn(C, C) -> bool>(
    extend: E,
    less: L,
    limit: C,
    dp: Seq<(C, usize)>,
    i: int,
    r: (C, usize),
) -> bool {
    exists|cs: Seq<(C, usize)>|
        #![trigger cs.len()]
        {
            &&& cs.len() == 6
            &&& cs[0] == (limit, 0usize)
            &&& cs[5] == r
            &&& is_step(extend, less, dp, i, 0, cs[0], cs[1])
            &&& is_step(extend, less, dp, i, 1, cs[1], cs[2])
            &&& is_step(extend, less, dp, i, 2, cs[2], cs[3])
            &&& is_step(extend, less, dp, i, 3, cs[3], cs[4])
            &&& is_step(extend, less, dp, i, 4, cs[4], cs[5])
        }
}

/// Whether a table holds the best choice for every place.
pub open spec fn is_table<C: Copy, E: Fn(C, usize, usize) -> C, L: Fn(C, C) -> bool>(
    extend: E,
    less: L,
    zero: C,
    limit: C,
    dp: Seq<(C, usize)>,
) -> bool {
    &&& dp.len() > 0
    &&& dp[0] == (zero, 0usize)
    &&& forall|i: int|
        1 <= i < dp.len() ==> #[trigger] is_choice(extend, less, limit, dp, i, dp[i])
}

/// Whether a reached place is one block after another reached place.
pub open spec fn is_chain<C>(dp: Seq<(C, usize)>) -> bool {
    forall|i: int|
        1 <= i < dp.len() && (#[trigger] dp[i]).1 != 0 ==> allowed(dp[i].1 as int) && dp[i].1 <= i
            && reached(dp, i - dp[i].1)
}

/// The blocks that lead to a place.
pub open spec fn walk<C>(dp: Seq<(C, usize)>, i: int) -> Seq<usize>
    decreases i,
{
    if i <= 0 || i >= dp.len() || dp[i].1 == 0 || dp[i].1 > i {
        Seq::empty()
    } else {
        walk(dp, i - dp[i].1).push(dp[i].1)
    }
}

/// The last place up to `i` that can be reached.
pub open spec fn best<C>(dp: Seq<(C, usize)>, i: int) -> int
    decreases i,
{
    if i <= 0 || reached(dp, i) {
        i
    } else {
        best(dp, i - 1)
    }
}

/// The largest allowed size that fits, or all that is left.
pub open spec fn pick(left: int) -> int {
    if left >= 256 {
        256
    } else if left >= 128 {
        128
    } else if left >= 64 {
        64
    } else if left >= 32 {
        32
    } else if left >= 16 {
        16
    } else {
        left
    }
}

/// The blocks of what cannot be reached.
pub open spec fn tail(left: int) -> Seq<usize>
    decreases left,
{
    if left <= 0 {
        Seq::empty()
    } else {
        seq![pick(left) as usize] + tail(left - pick(left))
    }
}

/// The blocks of `n` postings: the cheapest way to the last place that can
/// be reached, then as few as can be.
pub open spec fn blocks_of<C>(dp: Seq<(C, usize)>, n: int) -> Seq<usize> {
    walk(dp, best(dp, n)) + tail(n - best(dp, n))
}

/// The sizes together.
pub open spec fn total(sizes: Seq<usize>) -> int {
    sparse_list::part_start(sizes, sizes.len() as int)
}

proof fn part_start_of_push(sizes: Seq<usize>, s: usize, k: int)
    requires
        0 <= k <= sizes.len(),
    ensures
        sparse_list::part_start(sizes.push(s), k) == sparse_list::part_start(sizes, k),
    decreases k,
{
    if k > 0 {
        part_start_of_push(sizes, s, k - 1);
    }
}

proof fn total_of_push(sizes: Seq<usize>, s: usize)
    ensures
        total(sizes.push(s)) == total(sizes) + s,
{
    part_start_of_push(sizes, s, sizes.len() as int);
}

/// Whether blocks hold from one to 256 postings each.
pub open spec fn sizes_ok(sizes: Seq<usize>) -> bool {
    forall|k: int| 0 <= k < sizes.len() ==> 1 <= #[trigger] sizes[k] <= 256
}

proof fn starts_grow(sizes: Seq<usize>, i: int, j: int)
    requires
        0 <= i <= j <= sizes.len(),
        sizes_ok(sizes),
    ensures
        0 <= sparse_list::part_start(sizes, i) <= sparse_list::part_start(sizes, j),
        i < j ==> sparse_list::part_start(sizes, i) < sparse_list::part_start(sizes, j),
    decreases j,
{
    if i < j {
        assert(1 <= sizes[j - 1]);
        starts_grow(sizes, i, j - 1);
    } else if i > 0 {
        starts_grow(sizes, i - 1, j - 1);
    }
}

/// Blocks of from one to 256 postings that take them all fit the postings.
pub proof fn sizes_fit(sizes: Seq<usize>, n: int)
    requires
        sizes_ok(sizes),
        total(sizes) == n,
    ensures
        sparse_list::parts_ok(sizes, n),
{
    assert forall|k: int| 0 <= k < sizes.len() implies {
        let start = #[trigger] sparse_list::part_start(sizes, k);
        0 <= start < n && 1 <= sparse_list::part_end(sizes, n, k) - start <= 256
    } by {
        starts_grow(sizes, k, k + 1);
        starts_grow(sizes, k + 1, sizes.len() as int);
        assert(1 <= sizes[k] <= 256);
    }
}

proof fn choice_chains<C: Copy, E: Fn(C, usize, usize) -> C, L: Fn(C, C) -> bool>(
    extend: E,
    less: L,
    limit: C,
    dp: Seq<(C, usize)>,
    i: int,
    r: (C, usize),
)
    requires
        is_choice(extend, less, limit, dp, i, r),
    ensures
        r.1 != 0 ==> allowed(r.1 as int) && r.1 <= i && reached(dp, i - r.1),
{
}

proof fn best_is<C>(dp: Seq<(C, usize)>, i: int)
    requires
        0 <= i < dp.len(),
    ensures
        0 <= best(dp, i) <= i,
        reached(dp, best(dp, i)),
    decreases i,
{
    if i > 0 && !reached(dp, i) {
        best_is(dp, i - 1);
    }
}

proof fn walk_is<C>(dp: Seq<(C, usize)>, i: int)
    requires
        is_chain(dp),
        0 <= i < dp.len(),
        reached(dp, i),
    ensures
        total(walk(dp, i)) == i,
        forall|k: int| 0 <= k < walk(dp, i).len() ==> allowed(#[trigger] walk(dp, i)[k] as int),
    decreases i,
{
    if i > 0 {
        let s = dp[i].1;
        walk_is(dp, i - s);
        total_of_push(walk(dp, i - s), s);
        assert forall|k: int| 0 <= k < walk(dp, i).len() implies allowed(
            #[trigger] walk(dp, i)[k] as int,
        ) by {
            if k < walk(dp, i - s).len() {
                assert(walk(dp, i)[k] == walk(dp, i - s)[k]);
            }
        }
    }
}

fn try_size<C: Copy, E: Fn(C, usize, usize) -> C, L: Fn(C, C) -> bool>(
    extend: &E,
    less: &L,
    dp: &Vec<(C, usize)>,
    i: usize,
    size: usize,
    now: (C, usize),
    Ghost(k): Ghost<int>,
) -> (r: (C, usize))
    requires
        forall|c: C, a: usize, b: usize| #[trigger] extend.requires((c, a, b)),
        forall|a: C, b: C| #[trigger] less.requires((a, b)),
        dp@.len() == i,
        i >= 1,
        size == size_at(k),
    ensures
        is_step(*extend, *less, dp@, i as int, k, now, r),
{
    if size > i {
        return now;
    }
    let start: usize = i - size;
    if start != 0 && dp[start].1 == 0 {
        return now;
    }
    let cost: C = extend(dp[start].0, start, i);
    let low: bool = less(cost, now.0);
    if low {
        (cost, size)
    } else {
        now
    }
}

/// A step looks only at earlier places.
proof fn choice_kept<C: Copy, E: Fn(C, usize, usize) -> C, L: Fn(C, C) -> bool>(
    extend: E,
    less: L,
    limit: C,
    dp: Seq<(C, usize)>,
    more: Seq<(C, usize)>,
    i: int,
    r: (C, usize),
)
    requires
        is_choice(extend, less, limit, dp, i, r),
        i <= dp.len() <= more.len(),
        more.take(dp.len() as int) == dp,
    ensures
        is_choice(extend, less, limit, more, i, r),
{
    let cs = choose|cs: Seq<(C, usize)>|
        #![trigger cs.len()]
        {
            &&& cs.len() == 6
            &&& cs[0] == (limit, 0usize)
            &&& cs[5] == r
            &&& is_step(extend, less, dp, i, 0, cs[0], cs[1])
            &&& is_step(extend, less, dp, i, 1, cs[1], cs[2])
            &&& is_step(extend, less, dp, i, 2, cs[2], cs[3])
            &&& is_step(extend, less, dp, i, 3, cs[3], cs[4])
            &&& is_step(extend, less, dp, i, 4, cs[4], cs[5])
        };
    assert forall|j: int| 0 <= j < dp.len() implies #[trigger] more[j] == dp[j] by {
        assert(more.take(dp.len() as int)[j] == dp[j]);
    }
    step_kept(extend, less, dp, more, i, 0, cs[0], cs[1]);
    step_kept(extend, less, dp, more, i, 1, cs[1], cs[2]);
    step_kept(extend, less, dp, more, i, 2, cs[2], cs[3]);
    step_kept(extend, less, dp, more, i, 3, cs[3], cs[4]);
    step_kept(extend, less, dp, more, i, 4, cs[4], cs[5]);
    assert(cs.len() == 6);
}

proof fn step_kept<C: Copy, E: Fn(C, usize, usize) -> C, L: Fn(C, C) -> bool>(
    extend: E,
    less: L,
    dp: Seq<(C, usize)>,
    more: Seq<(C, usize)>,
    i: int,
    k: int,
    a: (C, usize),
    b: (C, usize),
)
    requires
        is_step(extend, less, dp, i, k, a, b),
        i <= dp.len() <= more.len(),
        forall|j: int| 0 <= j < dp.len() ==> #[trigger] more[j] == dp[j],
    ensures
        is_step(extend, less, more, i, k, a, b),
{
    let start = i - size_at(k);
    if start >= 0 {
        assert(more[start] == dp[start]);
    }
}

fn table<C: Copy, E: Fn(C, usize, usize) -> C, L: Fn(C, C) -> bool>(
    n: usize,
    zero: C,
    limit: C,
    extend: &E,
    less: &L,
) -> (dp: Vec<(C, usize)>)
    requires
        n < usize::MAX,
        forall|c: C, a: usize, b: usize| #[trigger] extend.requires((c, a, b)),
        forall|a: C, b: C| #[trigger] less.requires((a, b)),
    ensures
        dp@.len() == n + 1,
        is_table(*extend, *less, zero, limit, dp@),
        is_chain(dp@),
{
    let mut dp: Vec<(C, usize)> = Vec::new();
    dp.push((zero, 0));
    let mut i: usize = 1;
    while i <= n
        invariant
            1 <= i <= n + 1,
            n < usize::MAX,
            dp@.len() == i,
            is_table(*extend, *less, zero, limit, dp@),
            is_chain(dp@),
            forall|c: C, a: usize, b: usize| #[trigger] extend.requires((c, a, b)),
            forall|a: C, b: C| #[trigger] less.requires((a, b)),
        decreases n + 1 - i,
    {
        let c0: (C, usize) = (limit, 0);
        let c1: (C, usize) = try_size(extend, less, &dp, i, 16, c0, Ghost(0));
        let c2: (C, usize) = try_size(extend, less, &dp, i, 32, c1, Ghost(1));
        let c3: (C, usize) = try_size(extend, less, &dp, i, 64, c2, Ghost(2));
        let c4: (C, usize) = try_size(extend, less, &dp, i, 128, c3, Ghost(3));
        let c5: (C, usize) = try_size(extend, less, &dp, i, 256, c4, Ghost(4));
        let ghost before = dp@;
        proof {
            let cs = seq![c0, c1, c2, c3, c4, c5];
            assert(cs.len() == 6);
            assert(is_choice(*extend, *less, limit, before, i as int, c5));
            choice_chains(*extend, *less, limit, before, i as int, c5);
        }
        dp.push(c5);
        proof {
            assert(dp@.take(before.len() as int) =~= before);
            assert forall|j: int| 1 <= j < dp@.len() implies #[trigger] is_choice(
                *extend,
                *less,
                limit,
                dp@,
                j,
                dp@[j],
            ) by {
                if j < i {
                    assert(is_choice(*extend, *less, limit, before, j, before[j]));
                }
                choice_kept(*extend, *less, limit, before, dp@, j, dp@[j]);
            }
            assert forall|j: int| 1 <= j < dp@.len() && (#[trigger] dp@[j]).1 != 0 implies allowed(
                dp@[j].1 as int,
            ) && dp@[j].1 <= j && reached(dp@, j - dp@[j].1) by {
                if j < i {
                    assert(before[j].1 != 0);
                    assert(dp@[j - dp@[j].1] == before[j - before[j].1]);
                } else {
                    assert(dp@[j - dp@[j].1] == before[j - c5.1]);
                }
            }
        }
        i = i + 1;
    }
    dp
}

fn best_place<C: Copy>(dp: &Vec<(C, usize)>, n: usize) -> (r: usize)
    requires
        n < dp@.len(),
    ensures
        r == best(dp@, n as int),
        r <= n,
{
    let mut i: usize = n;
    while i > 0 && dp[i].1 == 0
        invariant
            i <= n < dp@.len(),
            best(dp@, i as int) == best(dp@, n as int),
        decreases i,
    {
        i = i - 1;
    }
    i
}

fn walk_back<C: Copy>(dp: &Vec<(C, usize)>, to: usize) -> (r: Vec<usize>)
    requires
        to < dp@.len(),
        is_chain(dp@),
        reached(dp@, to as int),
    ensures
        r@ == walk(dp@, to as int),
    decreases to,
{
    if to == 0 {
        return Vec::new();
    }
    let s: usize = dp[to].1;
    proof {
        assert(dp@[to as int].1 != 0);
    }
    let mut r: Vec<usize> = walk_back(dp, to - s);
    r.push(s);
    r
}

/// The cheapest way to cut `n` postings into blocks. `extend` gives the cost
/// of a way, given the cost of the way to where its last block starts, and
/// where that block starts and ends; `less` says which of two costs is less,
/// and only costs below `limit` count. Up to 16 postings make one block. What
/// no blocks of allowed sizes can end at is filled from the last place that
/// they can.
pub fn optimal_partition<C: Copy, E: Fn(C, usize, usize) -> C, L: Fn(C, C) -> bool>(
    n: usize,
    zero: C,
    limit: C,
    extend: &E,
    less: &L,
) -> (r: Vec<usize>)
    requires
        n < usize::MAX,
        forall|c: C, a: usize, b: usize| #[trigger] extend.requires((c, a, b)),
        forall|a: C, b: C| #[trigger] less.requires((a, b)),
    ensures
        n == 0 ==> r@ == Seq::<usize>::empty(),
        0 < n <= 16 ==> r@ == seq![n],
        n > 16 ==> exists|dp: Seq<(C, usize)>|
            {
                &&& dp.len() == n + 1
                &&& #[trigger] is_table(*extend, *less, zero, limit, dp)
                &&& is_chain(dp)
                &&& r@ == blocks_of(dp, n as int)
            },
        forall|value: spec_fn(C) -> int, cost: spec_fn(int, int) -> int|
            n > 16 && #[trigger] partition_laws::measured(*extend, *less, limit, value, cost)
                && value(zero) == 0 ==> partition_laws::is_cheapest(cost, r@, n as int),
        total(r@) == n,
        sizes_ok(r@),
        sparse_list::parts_ok(r@, n as int),
{
    let mut r: Vec<usize> = Vec::new();
    if n <= 16 {
        if n > 0 {
            r.push(n);
        }
        proof {
            if n > 0 {
                assert(r@ =~= seq![n]);
                assert(r@ =~= Seq::<usize>::empty().push(n));
                total_of_push(Seq::empty(), n);
            }
            sizes_fit(r@, n as int);
        }
        return r;
    }
    let dp: Vec<(C, usize)> = table(n, zero, limit, extend, less);
    let to: usize = best_place(&dp, n);
    proof {
        best_is(dp@, n as int);
        walk_is(dp@, to as int);
    }
    r = walk_back(&dp, to);
    let ghost head = r@;
    let mut left: usize = n - to;
    proof {
        assert(head + tail(n - to) == blocks_of(dp@, n as int));
        assert forall|k: int| 0 <= k < r@.len() implies 1 <= #[trigger] r@[k] <= 256 by {
            assert(allowed(walk(dp@, to as int)[k] as int));
        }
    }
    while left > 0
        invariant
            left <= n,
            r@ + tail(left as int) == head + tail(n - to),
            total(r@) + left == n,
            sizes_ok(r@),
        decreases left,
    {
        let s: usize = if left >= 256 {
            256
        } else if left >= 128 {
            128
        } else if left >= 64 {
            64
        } else if left >= 32 {
            32
        } else if left >= 16 {
            16
        } else {
            left
        };
        let ghost before = r@;
        r.push(s);
        proof {
            total_of_push(before, s);
            assert(r@ + tail(left - s) =~= before + (seq![s] + tail(left - s)));
        }
        left = left - s;
    }
    proof {
        assert(r@ + tail(0) =~= r@);
        sizes_fit(r@, n as int);
        assert(is_table(*extend, *less, zero, limit, dp@));
        assert forall|value: spec_fn(C) -> int, cost: spec_fn(int, int) -> int|
            #[trigger] partition_laws::measured(*extend, *less, limit, value, cost) && value(zero)
                == 0 implies partition_laws::is_cheapest(cost, r@, n as int) by {
            partition_laws::partition_cuts_cheapest(
                *extend,
                *less,
                zero,
                limit,
                dp@,
                value,
                cost,
            );
        }
    }
    r
}

} // verus!
