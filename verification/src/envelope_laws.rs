//! Points have one envelope.
use crate::envelope;
use crate::envelope::Point;
use vstd::prelude::*;

verus! {

/// Weight of the constant at which two neighbours tie.
spec fn fall(p: Point, q: Point) -> int {
    p.1 * q.0 - q.1 * p.0
}

/// Weight of the length at which two neighbours tie.
spec fn run(p: Point, q: Point) -> int {
    p.0 - q.0
}

/// How far `p` is below `q` at weights `a` and `b`, over both frequencies.
spec fn gap(p: Point, q: Point, a: int, b: int) -> int {
    (a + b * q.1) * p.0 - (a + b * p.1) * q.0
}

proof fn gap_is(p: Point, q: Point, a: int, b: int)
    ensures
        gap(p, q, a, b) == a * (p.0 - q.0) + b * (q.1 * p.0 - p.1 * q.0),
{
    let (tp, tq, lp, lq) = (p.0 as int, q.0 as int, p.1 as int, q.1 as int);
    envelope::weighted(a, b, lq, tp);
    envelope::weighted(a, b, lp, tq);
    envelope::spread(a, tp, tq);
    envelope::spread(b, lq * tp, lp * tq);
}

/// A turn compares the ties of three points.
proof fn turn_is(u: Point, q: Point, p: Point)
    requires
        u.0 > 0,
        q.0 > 0,
    ensures
        envelope::turn_spec(u, q, p) > 0 ==> fall(u, q) * run(q, p) > fall(q, p) * run(u, q),
{
    let (tu, tq) = (u.0 as int, q.0 as int);
    let d = envelope::area(u, q, p);
    envelope::turn_factors(u, q, p);
    let (f1, r1, f2, r2) = (fall(u, q), run(u, q), fall(q, p), run(q, p));
    assert(f1 * r2 - f2 * r1 == tq * d) by {
        assert(r2 * f1 == f1 * r2) by (nonlinear_arith);
        assert(r1 * (-f2) == -(f2 * r1)) by (nonlinear_arith);
    }
    if envelope::turn_spec(u, q, p) > 0 {
        assert(d > 0) by (nonlinear_arith)
            requires
                tu * d > 0,
                tu > 0,
        ;
        assert(tq * d > 0) by (nonlinear_arith)
            requires
                d > 0,
                tq > 0,
        ;
    }
}

spec fn all_positive(h: Seq<Point>) -> bool {
    forall|i: int| 0 <= i < h.len() ==> envelope::positive(#[trigger] h[i])
}

/// Both weights of a tie are positive.
proof fn tie_positive(h: Seq<Point>, i: int)
    requires
        envelope::chain(h),
        0 <= i < h.len() - 1,
    ensures
        fall(h[i], h[i + 1]) > 0,
        run(h[i], h[i + 1]) > 0,
{
    assert(envelope::link(h, i + 1));
}

/// Ties fall along a chain.
proof fn ties_fall(h: Seq<Point>, i: int, j: int)
    requires
        envelope::chain(h),
        all_positive(h),
        0 <= i < j < h.len() - 1,
    ensures
        fall(h[i], h[i + 1]) * run(h[j], h[j + 1]) > fall(h[j], h[j + 1]) * run(h[i], h[i + 1]),
    decreases j,
{
    tie_positive(h, i);
    tie_positive(h, j);
    tie_positive(h, j - 1);
    assert(envelope::link(h, j + 1));
    assert(envelope::positive(h[j - 1]) && envelope::positive(h[j]));
    turn_is(h[j - 1], h[j], h[j + 1]);
    if i < j - 1 {
        ties_fall(h, i, j - 1);
        let (a1, b1) = (fall(h[i], h[i + 1]), run(h[i], h[i + 1]));
        let (a2, b2) = (fall(h[j - 1], h[j]), run(h[j - 1], h[j]));
        let (a3, b3) = (fall(h[j], h[j + 1]), run(h[j], h[j + 1]));
        assert(a1 * b3 > a3 * b1) by (nonlinear_arith)
            requires
                a1 * b2 > a2 * b1,
                a2 * b3 > a3 * b2,
                b1 > 0,
                b2 > 0,
                b3 > 0,
        {
            assert((a1 * b2) * b3 > (a2 * b1) * b3);
            assert((a2 * b3) * b1 > (a3 * b2) * b1);
            assert(b2 * (a1 * b3) > b2 * (a3 * b1));
        }
    }
}

/// A step of the chain goes down, or up, as the tie of the weights lies.
proof fn step_gap(h: Seq<Point>, m: int, a: int, b: int)
    requires
        0 <= m < h.len() - 1,
    ensures
        gap(h[m + 1], h[m], a, b) == b * fall(h[m], h[m + 1]) - a * run(h[m], h[m + 1]),
        gap(h[m], h[m + 1], a, b) == a * run(h[m], h[m + 1]) - b * fall(h[m], h[m + 1]),
{
    gap_is(h[m + 1], h[m], a, b);
    gap_is(h[m], h[m + 1], a, b);
    let (r, f) = (run(h[m], h[m + 1]), fall(h[m], h[m + 1]));
    assert(a * (-r) == -(a * r)) by (nonlinear_arith);
    assert(b * (-f) == -(b * f)) by (nonlinear_arith);
}

/// Whether weights are at or between the ties beside point `i`.
spec fn within(h: Seq<Point>, i: int, a: int, b: int) -> bool {
    &&& a >= 0
    &&& b >= 0
    &&& i > 0 ==> a * run(h[i - 1], h[i]) <= b * fall(h[i - 1], h[i])
    &&& i < h.len() - 1 ==> b * fall(h[i], h[i + 1]) <= a * run(h[i], h[i + 1])
}

/// A tie that lies on one side of the weights, passed on along the chain.
proof fn passes(a: int, b: int, f1: int, r1: int, f2: int, r2: int)
    requires
        r1 > 0,
        r2 > 0,
        b >= 0,
        f1 * r2 >= f2 * r1,
    ensures
        a * r2 <= b * f2 ==> a * r1 <= b * f1,
        b * f1 <= a * r1 ==> b * f2 <= a * r2,
{
    if a * r2 <= b * f2 {
        assert(a * r1 <= b * f1) by (nonlinear_arith)
            requires
                a * r2 <= b * f2,
                f1 * r2 >= f2 * r1,
                r1 > 0,
                r2 > 0,
                b >= 0,
        {
            assert((a * r2) * r1 <= (b * f2) * r1);
            assert(b * (f2 * r1) <= b * (f1 * r2));
            assert(r2 * (a * r1) <= r2 * (b * f1));
        }
    }
    if b * f1 <= a * r1 {
        assert(b * f2 <= a * r2) by (nonlinear_arith)
            requires
                b * f1 <= a * r1,
                f1 * r2 >= f2 * r1,
                r1 > 0,
                r2 > 0,
                b >= 0,
        {
            assert((b * f1) * r2 <= (a * r1) * r2);
            assert(b * (f2 * r1) <= b * (f1 * r2));
            assert(r1 * (b * f2) <= r1 * (a * r2));
        }
    }
}

/// At weights between its ties a point is the smallest of the chain.
proof fn smallest_of_chain(h: Seq<Point>, i: int, k: int, a: nat, b: nat)
    requires
        envelope::chain(h),
        all_positive(h),
        0 <= i < h.len(),
        0 <= k < h.len(),
        within(h, i, a as int, b as int),
    ensures
        envelope::at_most(h[i], h[k], a, b),
    decreases if k < i {
        i - k
    } else {
        k - i
    },
{
    if k < i {
        smallest_of_chain(h, i, k + 1, a, b);
        step_gap(h, k, a as int, b as int);
        tie_positive(h, k);
        tie_positive(h, i - 1);
        if k < i - 1 {
            ties_fall(h, k, i - 1);
        }
        passes(
            a as int,
            b as int,
            fall(h[k], h[k + 1]),
            run(h[k], h[k + 1]),
            fall(h[i - 1], h[i]),
            run(h[i - 1], h[i]),
        );
        assert(envelope::positive(h[k + 1]));
        envelope::at_most_trans(h[i], h[k + 1], h[k], a, b);
    } else if k > i {
        smallest_of_chain(h, i, k - 1, a, b);
        step_gap(h, k - 1, a as int, b as int);
        tie_positive(h, k - 1);
        tie_positive(h, i);
        if k - 1 > i {
            ties_fall(h, i, k - 1);
        }
        passes(
            a as int,
            b as int,
            fall(h[i], h[i + 1]),
            run(h[i], h[i + 1]),
            fall(h[k - 1], h[k]),
            run(h[k - 1], h[k]),
        );
        assert(envelope::positive(h[k - 1]));
        envelope::at_most_trans(h[i], h[k - 1], h[k], a, b);
    }
}

/// The tie of point `i` with its neighbours, or the outermost weights.
spec fn tie_before(h: Seq<Point>, i: int) -> (int, int) {
    if i > 0 {
        (fall(h[i - 1], h[i]), run(h[i - 1], h[i]))
    } else {
        (1, 0)
    }
}

spec fn tie_after(h: Seq<Point>, i: int) -> (int, int) {
    if i < h.len() - 1 {
        (fall(h[i], h[i + 1]), run(h[i], h[i + 1]))
    } else {
        (0, 1)
    }
}

/// Both ties of a point admit it, and they differ.
proof fn ties_admit(h: Seq<Point>, i: int)
    requires
        envelope::chain(h),
        all_positive(h),
        0 <= i < h.len(),
    ensures
        ({
            let (a1, b1) = tie_before(h, i);
            let (a2, b2) = tie_after(h, i);
            &&& within(h, i, a1, b1)
            &&& within(h, i, a2, b2)
            &&& a1 * b2 > a2 * b1
        }),
{
    let (a1, b1) = tie_before(h, i);
    let (a2, b2) = tie_after(h, i);
    if i > 0 {
        tie_positive(h, i - 1);
    }
    if i < h.len() - 1 {
        tie_positive(h, i);
    }
    if i > 0 && i < h.len() - 1 {
        ties_fall(h, i - 1, i);
    }
    assert(a1 * b1 == b1 * a1) by (nonlinear_arith);
    assert(a2 * b2 == b2 * a2) by (nonlinear_arith);
    assert(b2 * a1 == a1 * b2) by (nonlinear_arith);
    assert(b1 * a2 == a2 * b1) by (nonlinear_arith);
}

/// A point that is no larger at the sum of two different weights, and no
/// smaller at each, is the same point.
proof fn same_point(v: Point, p: Point, a1: nat, b1: nat, a2: nat, b2: nat)
    requires
        v.0 > 0,
        p.0 > 0,
        a1 * b2 > a2 * b1,
        envelope::at_most(v, p, a1, b1),
        envelope::at_most(v, p, a2, b2),
        envelope::at_most(p, v, (a1 + a2) as nat, (b1 + b2) as nat),
    ensures
        v == p,
{
    let x = v.0 - p.0;
    let y = p.1 * v.0 - v.1 * p.0;
    gap_is(v, p, a1 as int, b1 as int);
    gap_is(v, p, a2 as int, b2 as int);
    gap_is(v, p, (a1 + a2) as int, (b1 + b2) as int);
    assert(a1 * x + b1 * y >= 0);
    assert(a2 * x + b2 * y >= 0);
    assert((a1 + a2) * x + (b1 + b2) * y <= 0);
    assert((a1 + a2) * x + (b1 + b2) * y == (a1 * x + b1 * y) + (a2 * x + b2 * y))
        by (nonlinear_arith);
    let det = a1 * b2 - a2 * b1;
    assert(det * x == b2 * (a1 * x + b1 * y) - b1 * (a2 * x + b2 * y)) by (nonlinear_arith)
        requires
            det == a1 * b2 - a2 * b1,
    ;
    assert(det * y == a1 * (a2 * x + b2 * y) - a2 * (a1 * x + b1 * y)) by (nonlinear_arith)
        requires
            det == a1 * b2 - a2 * b1,
    ;
    assert(b2 * 0 == 0 && b1 * 0 == 0 && a1 * 0 == 0 && a2 * 0 == 0) by (nonlinear_arith);
    assert(x == 0) by (nonlinear_arith)
        requires
            det * x == 0,
            det > 0,
    ;
    assert(y == 0) by (nonlinear_arith)
        requires
            det * y == 0,
            det > 0,
    ;
    let (t, lv, lp) = (v.0 as int, v.1 as int, p.1 as int);
    assert(lp == lv) by (nonlinear_arith)
        requires
            lp * t == lv * t,
            t > 0,
    ;
}

/// Every point of an envelope is in any other envelope of the same points.
proof fn shared_point(h: Seq<Point>, g: Seq<Point>, points: Seq<Point>, i: int)
    requires
        forall|k: int| 0 <= k < points.len() ==> envelope::positive(#[trigger] points[k]),
        envelope::is_envelope(h, points),
        envelope::is_envelope(g, points),
        0 <= i < h.len(),
    ensures
        g.contains(h[i]),
{
    envelope_positive(h, points);
    envelope_positive(g, points);
    let v = h[i];
    let (a1, b1) = tie_before(h, i);
    let (a2, b2) = tie_after(h, i);
    ties_admit(h, i);
    let a = (a1 + a2) as nat;
    let b = (b1 + b2) as nat;
    assert(points.contains(v));
    let kv = choose|k: int| 0 <= k < points.len() && points[k] == v;
    assert(envelope::dominated(g, points[kv], a, b));
    let j = choose|j: int| 0 <= j < g.len() && #[trigger] envelope::at_most(g[j], v, a, b);
    let p = g[j];
    assert(points.contains(g[j]));
    let kp = choose|k: int| 0 <= k < points.len() && points[k] == p;
    below(h, points, i, kp, a1 as nat, b1 as nat);
    below(h, points, i, kp, a2 as nat, b2 as nat);
    assert(envelope::positive(h[i]) && envelope::positive(g[j]));
    same_point(v, p, a1 as nat, b1 as nat, a2 as nat, b2 as nat);
}

proof fn envelope_positive(h: Seq<Point>, points: Seq<Point>)
    requires
        forall|k: int| 0 <= k < points.len() ==> envelope::positive(#[trigger] points[k]),
        envelope::is_envelope(h, points),
    ensures
        all_positive(h),
{
    assert forall|i: int| 0 <= i < h.len() implies envelope::positive(#[trigger] h[i]) by {
        assert(points.contains(h[i]));
    }
}

/// A point of an envelope is no larger than any point at weights between its
/// ties.
proof fn below(h: Seq<Point>, points: Seq<Point>, i: int, k: int, a: nat, b: nat)
    requires
        forall|k: int| 0 <= k < points.len() ==> envelope::positive(#[trigger] points[k]),
        envelope::is_envelope(h, points),
        0 <= i < h.len(),
        0 <= k < points.len(),
        within(h, i, a as int, b as int),
    ensures
        envelope::at_most(h[i], points[k], a, b),
{
    envelope_positive(h, points);
    assert(envelope::dominated(h, points[k], a, b));
    let m = choose|m: int| 0 <= m < h.len() && #[trigger] envelope::at_most(h[m], points[k], a, b);
    smallest_of_chain(h, i, m, a, b);
    assert(envelope::positive(h[m]));
    envelope::at_most_trans(h[i], h[m], points[k], a, b);
}

/// Frequencies fall along a chain.
proof fn chain_falls(h: Seq<Point>, i: int, j: int)
    requires
        envelope::chain(h),
        0 <= i < j < h.len(),
    ensures
        h[j].0 < h[i].0,
    decreases j,
{
    assert(envelope::link(h, j));
    if i < j - 1 {
        chain_falls(h, i, j - 1);
    }
}

/// Points have one envelope.
pub proof fn envelope_unique(h: Seq<Point>, g: Seq<Point>, points: Seq<Point>)
    requires
        forall|k: int| 0 <= k < points.len() ==> envelope::positive(#[trigger] points[k]),
        envelope::is_envelope(h, points),
        envelope::is_envelope(g, points),
    ensures
        h == g,
{
    assert forall|i: int| 0 <= i < h.len() implies g.contains(#[trigger] h[i]) by {
        shared_point(h, g, points, i);
    }
    assert forall|i: int| 0 <= i < g.len() implies h.contains(#[trigger] g[i]) by {
        shared_point(g, h, points, i);
    }
    same_prefix(h, g, h.len() as int);
    same_prefix(g, h, g.len() as int);
    assert(h =~= g);
}

/// Chains of the same points agree from the start.
proof fn same_prefix(h: Seq<Point>, g: Seq<Point>, n: int)
    requires
        envelope::chain(h),
        envelope::chain(g),
        forall|i: int| 0 <= i < h.len() ==> g.contains(#[trigger] h[i]),
        forall|i: int| 0 <= i < g.len() ==> h.contains(#[trigger] g[i]),
        0 <= n <= h.len(),
    ensures
        n <= g.len(),
        forall|i: int| 0 <= i < n ==> h[i] == g[i],
    decreases n,
{
    if n > 0 {
        same_prefix(h, g, n - 1);
        let i = n - 1;
        assert(g.contains(h[i]));
        let j = choose|j: int| 0 <= j < g.len() && g[j] == h[i];
        if j < i {
            chain_falls(h, j, i);
        } else if j > i {
            assert(h.contains(g[i]));
            let k = choose|k: int| 0 <= k < h.len() && h[k] == g[i];
            chain_falls(g, i, j);
            if k > i {
                chain_falls(h, i, k);
            } else if k < i {
                chain_falls(g, k, i);
            }
        }
    }
}

} // verus!
