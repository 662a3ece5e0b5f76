//! The partition is the cheapest there is.
use crate::partitioner;
use crate::sparse_list;
use vstd::prelude::*;

verus! {

/// What the first `k` blocks cost together.
pub open spec fn cost_to(cost: spec_fn(int, int) -> int, sizes: Seq<usize>, k: int) -> int
    decreases k,
{
    if k <= 0 {
        0
    } else {
        cost_to(cost, sizes, k - 1) + cost(
            sparse_list::part_start(sizes, k - 1),
            sparse_list::part_start(sizes, k),
        )
    }
}

/// What blocks cost together.
pub open spec fn cost_of(cost: spec_fn(int, int) -> int, sizes: Seq<usize>) -> int {
    cost_to(cost, sizes, sizes.len() as int)
}

/// Whether costs behave as numbers: a block adds its own cost, `less` is by
/// value, and no cost reaches the limit.
pub open spec fn measured<C: Copy, E: Fn(C, usize, usize) -> C, L: Fn(C, C) -> bool>(
    extend: E,
    less: L,
    limit: C,
    value: spec_fn(C) -> int,
    cost: spec_fn(int, int) -> int,
) -> bool {
    &&& forall|c: C, a: usize, b: usize, t: C| #[trigger]
        extend.ensures((c, a, b), t) ==> value(t) == value(c) + cost(a as int, b as int) && value(t)
            < value(limit)
    &&& forall|a: C, b: C, r: bool| #[trigger]
        less.ensures((a, b), r) ==> r == (value(a) < value(b))
}

/// Whether every size is allowed: sixteen, or that doubled up to four times.
pub open spec fn all_allowed(sizes: Seq<usize>) -> bool {
    forall|k: int|
        0 <= k < sizes.len() ==> {
            let s = #[trigger] sizes[k];
            s == 16 || s == 32 || s == 64 || s == 128 || s == 256
        }
}

/// If blocks of allowed sizes can take all postings, the partition is of
/// allowed sizes and takes them all, and no other such blocks cost less.
pub proof fn partition_is_cheapest<C: Copy, E: Fn(C, usize, usize) -> C, L: Fn(C, C) -> bool>(
    extend: E,
    less: L,
    zero: C,
    limit: C,
    dp: Seq<(C, usize)>,
    value: spec_fn(C) -> int,
    cost: spec_fn(int, int) -> int,
    other: Seq<usize>,
)
    requires
        partitioner::is_table(extend, less, zero, limit, dp),
        partitioner::is_chain(dp),
        measured(extend, less, limit, value, cost),
        value(zero) == 0,
        dp.len() <= usize::MAX,
        all_allowed(other),
        partitioner::total(other) == dp.len() - 1,
    ensures
        ({
            let sizes = partitioner::blocks_of(dp, dp.len() - 1);
            &&& all_allowed(sizes)
            &&& partitioner::total(sizes) == dp.len() - 1
            &&& cost_of(cost, sizes) <= cost_of(cost, other)
        }),
{
    let n = dp.len() - 1;
    let sizes = partitioner::blocks_of(dp, n);
    others_cost(extend, less, zero, limit, dp, value, cost, other);
    assert(partitioner::best(dp, n) == n);
    assert(sizes =~= partitioner::walk(dp, n));
    walk_costs(extend, less, zero, limit, dp, value, cost, n);
}

/// Whether blocks cut `n` postings in the cheapest way: blocks of allowed
/// sizes up to the last multiple of 16, of which none others cost less
/// together, and what is left in one more block.
pub open spec fn is_cheapest(cost: spec_fn(int, int) -> int, sizes: Seq<usize>, n: int) -> bool {
    let left = n % 16;
    let head = if left == 0 {
        sizes
    } else {
        sizes.drop_last()
    };
    &&& left != 0 ==> sizes.len() > 0 && sizes.last() == left
    &&& all_allowed(head)
    &&& partitioner::total(head) == n - left
    &&& forall|other: Seq<usize>| #[trigger]
        all_allowed(other) && partitioner::total(other) == n - left ==> cost_of(cost, head)
            <= cost_of(cost, other)
}

/// The partition of any number of postings is the cheapest way to cut the
/// most of them that allowed sizes can take, and one block of the others.
pub proof fn partition_cuts_cheapest<C: Copy, E: Fn(C, usize, usize) -> C, L: Fn(C, C) -> bool>(
    extend: E,
    less: L,
    zero: C,
    limit: C,
    dp: Seq<(C, usize)>,
    value: spec_fn(C) -> int,
    cost: spec_fn(int, int) -> int,
)
    requires
        partitioner::is_table(extend, less, zero, limit, dp),
        partitioner::is_chain(dp),
        measured(extend, less, limit, value, cost),
        value(zero) == 0,
        dp.len() <= usize::MAX,
    ensures
        is_cheapest(cost, partitioner::blocks_of(dp, dp.len() - 1), dp.len() - 1),
{
    let n = dp.len() - 1;
    let left = n % 16;
    let sizes = partitioner::blocks_of(dp, n);
    let head = partitioner::walk(dp, n - left);
    multiples_reached(extend, less, zero, limit, dp, value, cost, n - left);
    best_is_multiple(extend, less, zero, limit, dp, value, cost, n);
    walk_costs(extend, less, zero, limit, dp, value, cost, n - left);
    if left == 0 {
        assert(partitioner::tail(0) =~= Seq::empty());
        assert(sizes =~= head);
    } else {
        assert(partitioner::pick(left) == left);
        assert(partitioner::tail(left) =~= seq![left as usize] + partitioner::tail(0));
        assert(partitioner::tail(0) =~= Seq::empty());
        assert(sizes =~= head.push(left as usize));
        assert(sizes.drop_last() =~= head);
    }
    assert forall|other: Seq<usize>| #[trigger]
        all_allowed(other) && partitioner::total(other) == n - left implies cost_of(cost, head)
        <= cost_of(cost, other) by {
        others_cost(extend, less, zero, limit, dp, value, cost, other);
    }
}

/// Just the multiples of 16 can be reached by blocks of allowed sizes.
proof fn multiples_reached<C: Copy, E: Fn(C, usize, usize) -> C, L: Fn(C, C) -> bool>(
    extend: E,
    less: L,
    zero: C,
    limit: C,
    dp: Seq<(C, usize)>,
    value: spec_fn(C) -> int,
    cost: spec_fn(int, int) -> int,
    i: int,
)
    requires
        partitioner::is_table(extend, less, zero, limit, dp),
        partitioner::is_chain(dp),
        measured(extend, less, limit, value, cost),
        0 <= i < dp.len() <= usize::MAX,
    ensures
        partitioner::reached(dp, i) <==> i % 16 == 0,
    decreases i,
{
    if i > 0 && partitioner::reached(dp, i) {
        reached_is_multiple(dp, i);
    } else if i > 0 && i % 16 == 0 {
        multiples_reached(extend, less, zero, limit, dp, value, cost, i - 16);
        place_after(extend, less, zero, limit, dp, value, cost, i);
    }
}

/// A place that blocks lead to is a multiple of 16.
proof fn reached_is_multiple<C>(dp: Seq<(C, usize)>, i: int)
    requires
        partitioner::is_chain(dp),
        0 <= i < dp.len(),
        partitioner::reached(dp, i),
    ensures
        i % 16 == 0,
    decreases i,
{
    if i > 0 {
        reached_is_multiple(dp, i - dp[i].1);
    }
}

/// One block of the smallest size leads on from a place that can be reached.
proof fn place_after<C: Copy, E: Fn(C, usize, usize) -> C, L: Fn(C, C) -> bool>(
    extend: E,
    less: L,
    zero: C,
    limit: C,
    dp: Seq<(C, usize)>,
    value: spec_fn(C) -> int,
    cost: spec_fn(int, int) -> int,
    i: int,
)
    requires
        partitioner::is_table(extend, less, zero, limit, dp),
        measured(extend, less, limit, value, cost),
        16 <= i < dp.len() <= usize::MAX,
        partitioner::reached(dp, i - 16),
    ensures
        partitioner::reached(dp, i),
{
    assert(partitioner::is_choice(extend, less, limit, dp, i, dp[i]));
    choice_costs(extend, less, limit, dp, value, cost, i);
    assert(partitioner::size_at(0) == 16);
    assert(partitioner::reached(dp, i - partitioner::size_at(0)));
}

proof fn best_is_multiple<C: Copy, E: Fn(C, usize, usize) -> C, L: Fn(C, C) -> bool>(
    extend: E,
    less: L,
    zero: C,
    limit: C,
    dp: Seq<(C, usize)>,
    value: spec_fn(C) -> int,
    cost: spec_fn(int, int) -> int,
    i: int,
)
    requires
        partitioner::is_table(extend, less, zero, limit, dp),
        partitioner::is_chain(dp),
        measured(extend, less, limit, value, cost),
        0 <= i < dp.len() <= usize::MAX,
    ensures
        partitioner::best(dp, i) == i - i % 16,
    decreases i,
{
    multiples_reached(extend, less, zero, limit, dp, value, cost, i);
    if i > 0 && i % 16 != 0 {
        best_is_multiple(extend, less, zero, limit, dp, value, cost, i - 1);
    }
}

proof fn prefix_starts(sizes: Seq<usize>, s: usize, k: int)
    requires
        0 <= k <= sizes.len(),
    ensures
        sparse_list::part_start(sizes.push(s), k) == sparse_list::part_start(sizes, k),
    decreases k,
{
    if k > 0 {
        prefix_starts(sizes, s, k - 1);
    }
}

proof fn prefix_costs(cost: spec_fn(int, int) -> int, sizes: Seq<usize>, s: usize, k: int)
    requires
        0 <= k <= sizes.len(),
    ensures
        cost_to(cost, sizes.push(s), k) == cost_to(cost, sizes, k),
    decreases k,
{
    if k > 0 {
        prefix_costs(cost, sizes, s, k - 1);
        prefix_starts(sizes, s, k);
        prefix_starts(sizes, s, k - 1);
    }
}

proof fn cost_of_push(cost: spec_fn(int, int) -> int, sizes: Seq<usize>, s: usize)
    ensures
        partitioner::total(sizes.push(s)) == partitioner::total(sizes) + s,
        cost_of(cost, sizes.push(s)) == cost_of(cost, sizes) + cost(
            partitioner::total(sizes),
            partitioner::total(sizes) + s,
        ),
{
    let n = sizes.len() as int;
    prefix_starts(sizes, s, n);
    prefix_costs(cost, sizes, s, n);
}

/// What the best choice for a place costs.
proof fn choice_costs<C: Copy, E: Fn(C, usize, usize) -> C, L: Fn(C, C) -> bool>(
    extend: E,
    less: L,
    limit: C,
    dp: Seq<(C, usize)>,
    value: spec_fn(C) -> int,
    cost: spec_fn(int, int) -> int,
    i: int,
)
    requires
        partitioner::is_choice(extend, less, limit, dp, i, dp[i]),
        measured(extend, less, limit, value, cost),
        1 <= i < dp.len() <= usize::MAX,
    ensures
        dp[i].1 != 0 ==> value(dp[i].0) == value(dp[i - dp[i].1].0) + cost(i - dp[i].1, i),
        forall|k: int|
            0 <= k < 5 && i - partitioner::size_at(k) >= 0 && #[trigger] partitioner::reached(
                dp,
                i - partitioner::size_at(k),
            ) ==> dp[i].1 != 0 && value(dp[i].0) <= value(dp[i - partitioner::size_at(k)].0)
                + cost(i - partitioner::size_at(k), i),
{
    let r = dp[i];
    let cs = choose|cs: Seq<(C, usize)>|
        #![trigger cs.len()]
        {
            &&& cs.len() == 6
            &&& cs[0] == (limit, 0usize)
            &&& cs[5] == r
            &&& partitioner::is_step(extend, less, dp, i, 0, cs[0], cs[1])
            &&& partitioner::is_step(extend, less, dp, i, 1, cs[1], cs[2])
            &&& partitioner::is_step(extend, less, dp, i, 2, cs[2], cs[3])
            &&& partitioner::is_step(extend, less, dp, i, 3, cs[3], cs[4])
            &&& partitioner::is_step(extend, less, dp, i, 4, cs[4], cs[5])
        };
    step_costs(extend, less, limit, dp, value, cost, i, 0, cs[0], cs[1]);
    step_costs(extend, less, limit, dp, value, cost, i, 1, cs[1], cs[2]);
    step_costs(extend, less, limit, dp, value, cost, i, 2, cs[2], cs[3]);
    step_costs(extend, less, limit, dp, value, cost, i, 3, cs[3], cs[4]);
    step_costs(extend, less, limit, dp, value, cost, i, 4, cs[4], cs[5]);
}

/// Whether a choice is either none or tells what it costs.
spec fn told<C: Copy>(
    limit: C,
    dp: Seq<(C, usize)>,
    value: spec_fn(C) -> int,
    cost: spec_fn(int, int) -> int,
    i: int,
    c: (C, usize),
) -> bool {
    if c.1 == 0 {
        c.0 == limit
    } else {
        &&& 0 < c.1 <= i
        &&& value(c.0) == value(dp[i - c.1].0) + cost(i - c.1, i)
        &&& value(c.0) < value(limit)
    }
}

proof fn step_costs<C: Copy, E: Fn(C, usize, usize) -> C, L: Fn(C, C) -> bool>(
    extend: E,
    less: L,
    limit: C,
    dp: Seq<(C, usize)>,
    value: spec_fn(C) -> int,
    cost: spec_fn(int, int) -> int,
    i: int,
    k: int,
    a: (C, usize),
    b: (C, usize),
)
    requires
        partitioner::is_step(extend, less, dp, i, k, a, b),
        measured(extend, less, limit, value, cost),
        told(limit, dp, value, cost, i, a),
        1 <= i < dp.len() <= usize::MAX,
        0 <= k < 5,
    ensures
        told(limit, dp, value, cost, i, b),
        value(b.0) <= value(a.0),
        a.1 != 0 ==> b.1 != 0,
        i - partitioner::size_at(k) >= 0 && partitioner::reached(dp, i - partitioner::size_at(k))
            ==> b.1 != 0 && value(b.0) <= value(dp[i - partitioner::size_at(k)].0) + cost(
            i - partitioner::size_at(k),
            i,
        ),
{
}

proof fn walk_costs<C: Copy, E: Fn(C, usize, usize) -> C, L: Fn(C, C) -> bool>(
    extend: E,
    less: L,
    zero: C,
    limit: C,
    dp: Seq<(C, usize)>,
    value: spec_fn(C) -> int,
    cost: spec_fn(int, int) -> int,
    i: int,
)
    requires
        partitioner::is_table(extend, less, zero, limit, dp),
        partitioner::is_chain(dp),
        measured(extend, less, limit, value, cost),
        value(zero) == 0,
        0 <= i < dp.len() <= usize::MAX,
        partitioner::reached(dp, i),
    ensures
        all_allowed(partitioner::walk(dp, i)),
        partitioner::total(partitioner::walk(dp, i)) == i,
        cost_of(cost, partitioner::walk(dp, i)) == value(dp[i].0),
    decreases i,
{
    if i > 0 {
        assert(partitioner::is_choice(extend, less, limit, dp, i, dp[i]));
        choice_costs(extend, less, limit, dp, value, cost, i);
        let s = dp[i].1;
        walk_costs(extend, less, zero, limit, dp, value, cost, i - s);
        let before = partitioner::walk(dp, i - s);
        cost_of_push(cost, before, s);
        assert forall|k: int| 0 <= k < partitioner::walk(dp, i).len() implies partitioner::allowed(
            #[trigger] partitioner::walk(dp, i)[k] as int,
        ) by {
            if k < before.len() {
                assert(partitioner::walk(dp, i)[k] == before[k]);
            }
        }
    }
}

proof fn others_cost<C: Copy, E: Fn(C, usize, usize) -> C, L: Fn(C, C) -> bool>(
    extend: E,
    less: L,
    zero: C,
    limit: C,
    dp: Seq<(C, usize)>,
    value: spec_fn(C) -> int,
    cost: spec_fn(int, int) -> int,
    other: Seq<usize>,
)
    requires
        partitioner::is_table(extend, less, zero, limit, dp),
        measured(extend, less, limit, value, cost),
        value(zero) == 0,
        dp.len() <= usize::MAX,
        all_allowed(other),
        partitioner::total(other) < dp.len(),
    ensures
        0 <= partitioner::total(other),
        partitioner::reached(dp, partitioner::total(other)),
        value(dp[partitioner::total(other)].0) <= cost_of(cost, other),
    decreases other.len(),
{
    if other.len() > 0 {
        let rest = other.drop_last();
        let s = other.last();
        assert(other =~= rest.push(s));
        cost_of_push(cost, rest, s);
        assert(partitioner::allowed(other[other.len() - 1] as int));
        assert forall|k: int| 0 <= k < rest.len() implies partitioner::allowed(
            #[trigger] rest[k] as int,
        ) by {
            assert(rest[k] == other[k]);
        }
        others_cost(extend, less, zero, limit, dp, value, cost, rest);
        let i = partitioner::total(other);
        assert(partitioner::is_choice(extend, less, limit, dp, i, dp[i]));
        choice_costs(extend, less, limit, dp, value, cost, i);
        let k = if s == 16 {
            0int
        } else if s == 32 {
            1
        } else if s == 64 {
            2
        } else if s == 128 {
            3
        } else {
            4
        };
        assert(partitioner::size_at(k) == s);
        assert(partitioner::reached(dp, i - partitioner::size_at(k)));
    }
}

} // verus!
