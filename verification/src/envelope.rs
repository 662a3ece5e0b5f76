//! Convex envelopes of frequency/length points.
//!
//! A posting scores by `(a + b * length) / tf` for some nonnegative `a` and
//! `b`. The envelope of a block keeps just the points that can be smallest.
use vstd::prelude::*;

verus! {

/// A term frequency and a scoring length.
pub type Point = (u32, u32);

/// Orientation of three points `(1 / tf, length / tf)`, without rounding.
pub open spec fn turn_spec(a: Point, b: Point, c: Point) -> int {
    (a.0 - b.0) * (c.1 * a.0 - a.1 * c.0) - (b.1 * a.0 - a.1 * b.0) * (a.0 - c.0)
}

/// Whether `p` may follow `last` on an envelope.
pub open spec fn ordered(last: Point, p: Point) -> bool {
    &&& p.0 < last.0
    &&& p.1 < last.1
    &&& p.1 * last.0 < last.1 * p.0
}

/// Whether `(a + b * length) / tf` of `p` is at most that of `q`.
pub open spec fn at_most(p: Point, q: Point, a: nat, b: nat) -> bool {
    (a + b * p.1) * q.0 <= (a + b * q.1) * p.0
}

/// Whether some point of `h` is at most `q`.
pub open spec fn dominated(h: Seq<Point>, q: Point, a: nat, b: nat) -> bool {
    exists|i: int| 0 <= i < h.len() && #[trigger] at_most(h[i], q, a, b)
}

/// Whether the points run strictly downwards and turn strictly one way.
pub open spec fn chain(h: Seq<Point>) -> bool {
    forall|i: int| 0 < i < h.len() ==> #[trigger] link(h, i)
}

/// Whether point `i` may follow the points before it.
pub open spec fn link(h: Seq<Point>, i: int) -> bool {
    &&& ordered(h[i - 1], h[i])
    &&& i > 1 ==> turn_spec(h[i - 2], h[i - 1], h[i]) > 0
}

/// Whether both coordinates are positive.
pub open spec fn positive(p: Point) -> bool {
    p.0 > 0 && p.1 > 0
}

/// Whether `h` is the envelope of `points`: a chain of some of the points
/// that for every `a` and `b` keeps the smallest value.
pub open spec fn is_envelope(h: Seq<Point>, points: Seq<Point>) -> bool {
    &&& chain(h)
    &&& forall|i: int| 0 <= i < h.len() ==> points.contains(#[trigger] h[i])
    &&& forall|k: int, a: nat, b: nat|
        0 <= k < points.len() ==> #[trigger] dominated(h, points[k], a, b)
}

/// Orientation of three points.
pub fn turn(a: Point, b: Point, c: Point) -> (r: i128)
    ensures
        r == turn_spec(a, b, c),
{
    let (at, al): (i128, i128) = (a.0 as i128, a.1 as i128);
    let (bt, bl): (i128, i128) = (b.0 as i128, b.1 as i128);
    let (ct, cl): (i128, i128) = (c.0 as i128, c.1 as i128);
    proof {
        product_range(cl as int, at as int);
        product_range(al as int, ct as int);
        product_range(bl as int, at as int);
        product_range(al as int, bt as int);
        let x = cl * at - al * ct;
        let y = bl * at - al * bt;
        difference_range(at - bt, x);
        difference_range(at - ct, y);
        assert(y * (at - ct) == (at - ct) * y) by (nonlinear_arith);
    }
    (at - bt) * (cl * at - al * ct) - (bl * at - al * bt) * (at - ct)
}

proof fn product_range(x: int, y: int)
    requires
        0 <= x <= 0xFFFF_FFFF,
        0 <= y <= 0xFFFF_FFFF,
    ensures
        0 <= x * y <= 0xFFFF_FFFF_FFFF_FFFF,
{
    assert(0 <= x * y <= 0xFFFF_FFFF * 0xFFFF_FFFF) by (nonlinear_arith)
        requires
            0 <= x <= 0xFFFF_FFFF,
            0 <= y <= 0xFFFF_FFFF,
    ;
}

proof fn difference_range(x: int, y: int)
    requires
        -0xFFFF_FFFF <= x <= 0xFFFF_FFFF,
        -0xFFFF_FFFF_FFFF_FFFF <= y <= 0xFFFF_FFFF_FFFF_FFFF,
    ensures
        -0x1_0000_0000_0000_0000_0000_0000 <= x * y <= 0x1_0000_0000_0000_0000_0000_0000,
{
    assert(-0x1_0000_0000_0000_0000_0000_0000 <= x * y <= 0x1_0000_0000_0000_0000_0000_0000)
        by (nonlinear_arith)
        requires
            -0xFFFF_FFFF <= x <= 0xFFFF_FFFF,
            -0xFFFF_FFFF_FFFF_FFFF <= y <= 0xFFFF_FFFF_FFFF_FFFF,
    ;
}

pub proof fn at_most_trans(p: Point, q: Point, r: Point, a: nat, b: nat)
    requires
        at_most(p, q, a, b),
        at_most(q, r, a, b),
        q.0 > 0,
    ensures
        at_most(p, r, a, b),
{
    let vp = a + b * p.1;
    let vq = a + b * q.1;
    let vr = a + b * r.1;
    let (tp, tq, tr) = (p.0 as int, q.0 as int, r.0 as int);
    assert(vp * tr <= vr * tp) by (nonlinear_arith)
        requires
            vp * tq <= vq * tp,
            vq * tr <= vr * tq,
            tq > 0,
            tp >= 0,
            tr >= 0,
            vp >= 0,
            vq >= 0,
            vr >= 0,
    {
        assert((vp * tq) * tr <= (vq * tp) * tr);
        assert((vq * tr) * tp <= (vr * tq) * tp);
        assert((vp * tr) * tq <= (vr * tp) * tq);
    }
}

/// A point behind and not lower than `last` is no smaller than `last`.
proof fn skipped_point(last: Point, p: Point, a: nat, b: nat)
    requires
        p.0 <= last.0,
        p.1 * last.0 >= last.1 * p.0,
    ensures
        at_most(last, p, a, b),
{
    let (ll, lp) = (last.1 as int, p.1 as int);
    let (tl, tp) = (last.0 as int, p.0 as int);
    assert((a + b * ll) * tp <= (a + b * lp) * tl) by (nonlinear_arith)
        requires
            tp <= tl,
            lp * tl >= ll * tp,
            a >= 0,
            b >= 0,
    {
        assert((a + b * ll) * tp == a * tp + b * (ll * tp));
        assert((a + b * lp) * tl == a * tl + b * (lp * tl));
        assert(a * tp <= a * tl);
        assert(b * (ll * tp) <= b * (lp * tl));
    }
}

pub proof fn weighted(a: int, b: int, l: int, t: int)
    ensures
        (a + b * l) * t == a * t + b * (l * t),
{
    assert((a + b * l) * t == a * t + b * (l * t)) by (nonlinear_arith);
}

pub proof fn spread(a: int, x: int, y: int)
    ensures
        a * (x - y) == a * x - a * y,
{
    assert(a * (x - y) == a * x - a * y) by (nonlinear_arith);
}

/// Twice the area that three points span, over their frequencies.
pub open spec fn area(u: Point, q: Point, p: Point) -> int {
    u.1 * q.0 - q.1 * u.0 - p.0 * u.1 + u.0 * p.1 - q.0 * p.1 + q.1 * p.0
}

/// A turn is the area, and so is the difference of the ties beside a point.
pub proof fn turn_factors(u: Point, q: Point, p: Point)
    ensures
        turn_spec(u, q, p) == u.0 * area(u, q, p),
        (q.0 - p.0) * (u.1 * q.0 - q.1 * u.0) + (u.0 - q.0) * (p.1 * q.0 - q.1 * p.0) == q.0 * area(
            u,
            q,
            p,
        ),
{
    let (tu, tq, tp) = (u.0 as int, q.0 as int, p.0 as int);
    let (lu, lq, lp) = (u.1 as int, q.1 as int, p.1 as int);
    let d = lu * tq - lq * tu - tp * lu + tu * lp - tq * lp + lq * tp;
    assert(turn_spec(u, q, p) == tu * d) by {
        let x = lp * tu - lu * tp;
        let y = lq * tu - lu * tq;
        assert((tu - tq) * x == tu * x - tq * x) by (nonlinear_arith);
        spread(y, tu, tp);
        assert(tq * x == tq * lp * tu - tq * lu * tp) by (nonlinear_arith)
            requires
                x == lp * tu - lu * tp,
        ;
        assert(y * tp == tp * lq * tu - tq * lu * tp) by (nonlinear_arith)
            requires
                y == lq * tu - lu * tq,
        ;
        assert(tu * d == tu * x - y * tu - tq * lp * tu + tp * lq * tu) by (nonlinear_arith)
            requires
                d == x - y - tq * lp + tp * lq,
        ;
        assert(tu * lp == lp * tu && tp * lu == lu * tp && lq * tp == tp * lq && lu * tq == tq * lu)
            by (nonlinear_arith);
    }
    let x = lu * tq - lq * tu;
    let y = lp * tq - lq * tp;
    let m = tq - tp;
    let n = tu - tq;
    assert(m * x + n * y == tq * d) by {
        spread(lu * tq - lq * tu, tq, tp);
        spread(lp * tq - lq * tp, tu, tq);
        assert(m * x == x * tq - x * tp) by (nonlinear_arith)
            requires
                m == tq - tp,
        ;
        assert(n * y == y * tu - y * tq) by (nonlinear_arith)
            requires
                n == tu - tq,
        ;
        assert(x * tp == lu * tq * tp - lq * tu * tp) by (nonlinear_arith)
            requires
                x == lu * tq - lq * tu,
        ;
        assert(y * tu == lp * tq * tu - lq * tp * tu) by (nonlinear_arith)
            requires
                y == lp * tq - lq * tp,
        ;
        assert(lq * tp * tu == lq * tu * tp) by (nonlinear_arith);
        assert(tq * d == x * tq - y * tq + tq * (tu * lp) - tq * (tp * lu)) by (nonlinear_arith)
            requires
                d == x - y + tu * lp - tp * lu,
        ;
        assert(tq * (tu * lp) == lp * tq * tu) by (nonlinear_arith);
        assert(tq * (tp * lu) == lu * tq * tp) by (nonlinear_arith);
        assert(tq * lp == lp * tq && tq * lu == lu * tq) by (nonlinear_arith);
    }
}

/// A point on or above the line between its neighbours is never the only
/// smallest one.
proof fn popped_point(u: Point, q: Point, p: Point, a: nat, b: nat)
    requires
        u.0 > q.0,
        q.0 >= p.0,
        q.0 > 0,
        turn_spec(u, q, p) <= 0,
    ensures
        at_most(u, q, a, b) || at_most(p, q, a, b),
{
    let (tu, tq, tp) = (u.0 as int, q.0 as int, p.0 as int);
    let (lu, lq, lp) = (u.1 as int, q.1 as int, p.1 as int);
    let big_a = (a + b * lu) * tq - (a + b * lq) * tu;
    let big_b = (a + b * lp) * tq - (a + b * lq) * tp;
    let d = lu * tq - lq * tu - tp * lu + tu * lp - tq * lp + lq * tp;
    turn_factors(u, q, p);
    let x = lu * tq - lq * tu;
    let y = lp * tq - lq * tp;
    let m = tq - tp;
    let n = tu - tq;
    weighted(a as int, b as int, lu, tq);
    weighted(a as int, b as int, lq, tu);
    weighted(a as int, b as int, lp, tq);
    weighted(a as int, b as int, lq, tp);
    spread(b as int, lu * tq, lq * tu);
    spread(b as int, lp * tq, lq * tp);
    spread(a as int, tu, tq);
    spread(a as int, tq, tp);
    assert(big_a == b * x - a * n);
    assert(big_b == b * y + a * m);
    assert(m * big_a + n * big_b == b * (m * x + n * y)) by (nonlinear_arith)
        requires
            big_a == b * x - a * n,
            big_b == b * y + a * m,
    ;
    if big_a > 0 && big_b > 0 {
        assert(false) by (nonlinear_arith)
            requires
                big_a > 0,
                big_b > 0,
                tu > tq,
                tq >= tp,
                tq > 0,
                b >= 0,
                tu * d <= 0,
                (tq - tp) * big_a + (tu - tq) * big_b == b * (tq * d),
        {
            assert(d <= 0);
            assert(tq * d <= 0);
            assert(b * (tq * d) <= 0);
            assert((tq - tp) * big_a >= 0);
            assert((tu - tq) * big_b > 0);
        }
    }
}

/// Order on an envelope is transitive.
proof fn ordered_trans(a: Point, b: Point, c: Point)
    requires
        ordered(a, b),
        ordered(b, c),
    ensures
        ordered(a, c),
{
    let (ta, tb, tc) = (a.0 as int, b.0 as int, c.0 as int);
    let (la, lb, lc) = (a.1 as int, b.1 as int, c.1 as int);
    assert(lc * ta < la * tc) by (nonlinear_arith)
        requires
            lb * ta < la * tb,
            lc * tb < lb * tc,
            ta > tb,
            tb > tc,
            tc >= 0,
            la >= 0,
            lb >= 0,
            lc >= 0,
    {
        assert((lc * tb) * ta < (lb * tc) * ta);
        assert((lb * ta) * tc <= (la * tb) * tc);
        assert((lc * ta) * tb < (la * tc) * tb);
    }
}

/// Sort order of envelope construction: frequency down, then length up.
pub open spec fn before(p: Point, q: Point) -> bool {
    p.0 > q.0 || (p.0 == q.0 && p.1 <= q.1)
}

fn is_before(p: Point, q: Point) -> (r: bool)
    ensures
        r == before(p, q),
{
    p.0 > q.0 || (p.0 == q.0 && p.1 <= q.1)
}

/// The points in construction order.
fn sort_points(points: &[Point]) -> (s: Vec<Point>)
    requires
        points.len() <= 128,
    ensures
        s.len() == points.len(),
        forall|i: int, j: int| 0 <= i < j < s.len() ==> before(#[trigger] s@[i], #[trigger] s@[j]),
        forall|k: int| 0 <= k < points.len() ==> s@.contains(#[trigger] points@[k]),
        forall|k: int| 0 <= k < s.len() ==> points@.contains(#[trigger] s@[k]),
{
    let mut s: Vec<Point> = Vec::with_capacity(points.len());
    let mut i: usize = 0;
    while i < points.len()
        invariant
            i <= points.len() <= 128,
            s.len() == i,
            forall|a: int, b: int|
                0 <= a < b < s.len() ==> before(#[trigger] s@[a], #[trigger] s@[b]),
            forall|k: int| 0 <= k < i ==> s@.contains(#[trigger] points@[k]),
            forall|k: int| 0 <= k < s.len() ==> points@.contains(#[trigger] s@[k]),
        decreases points.len() - i,
    {
        let p: Point = points[i];
        let mut at: usize = i;
        while at > 0 && !is_before(s[at - 1], p)
            invariant
                at <= i,
                s.len() == i,
                forall|a: int, b: int|
                    0 <= a < b < s.len() ==> before(#[trigger] s@[a], #[trigger] s@[b]),
                forall|k: int| at <= k < i ==> before(p, #[trigger] s@[k]),
            decreases at,
        {
            at -= 1;
        }
        let ghost old_s = s@;
        s.insert(at, p);
        proof {
            assert(forall|a: int| 0 <= a < at ==> before(#[trigger] old_s[a], p)) by {
                assert forall|a: int| 0 <= a < at implies before(#[trigger] old_s[a], p) by {
                    if a < at - 1 {
                        assert(before(old_s[a], old_s[at - 1]));
                    }
                }
            }
            assert forall|a: int, b: int| 0 <= a < b < s.len() implies before(
                #[trigger] s@[a],
                #[trigger] s@[b],
            ) by {
                let oa = if a < at {
                    a
                } else {
                    a - 1
                };
                let ob = if b < at {
                    b
                } else {
                    b - 1
                };
                if a == at {
                    assert(before(p, old_s[ob]));
                } else if b == at {
                    assert(before(old_s[oa], p));
                } else {
                    assert(before(old_s[oa], old_s[ob]));
                }
            }
            assert forall|k: int| 0 <= k < i + 1 implies s@.contains(#[trigger] points@[k]) by {
                if k < i {
                    assert(old_s.contains(points@[k]));
                    let j = choose|j: int| 0 <= j < old_s.len() && old_s[j] == points@[k];
                    if j < at {
                        assert(s@[j] == points@[k]);
                    } else {
                        assert(s@[j + 1] == points@[k]);
                    }
                } else {
                    assert(s@[at as int] == points@[i as int]);
                }
            }
            assert forall|k: int| 0 <= k < s.len() implies points@.contains(#[trigger] s@[k]) by {
                if k < at {
                    assert(s@[k] == old_s[k]);
                } else if k == at {
                    assert(points@[i as int] == p);
                } else {
                    assert(s@[k] == old_s[k - 1]);
                }
            }
        }
        i += 1;
    }
    s
}

/// Whether every one of the first `n` points is dominated by `h` or by `p`.
spec fn covered(h: Seq<Point>, s: Seq<Point>, n: int, p: Point) -> bool {
    forall|k: int, a: nat, b: nat|
        0 <= k < n ==> dominated(h, #[trigger] s[k], a, b) || #[trigger] at_most(p, s[k], a, b)
}

/// Taking the last point off keeps the rest covered.
proof fn pop_keeps(h: Seq<Point>, s: Seq<Point>, n: int, p: Point)
    requires
        h.len() >= 2,
        n <= s.len(),
        chain(h),
        covered(h, s, n, p),
        ordered(h.last(), p),
        forall|i: int| 0 <= i < h.len() ==> positive(#[trigger] h[i]),
        turn_spec(h[h.len() - 2], h[h.len() - 1], p) <= 0,
    ensures
        covered(h.drop_last(), s, n, p),
        ordered(h.drop_last().last(), p),
        chain(h.drop_last()),
{
    let g = h.drop_last();
    let u = h[h.len() - 2];
    let q = h[h.len() - 1];
    assert(link(h, h.len() - 1));
    ordered_trans(u, q, p);
    assert(g.last() == u);
    assert forall|k: int, a: nat, b: nat| 0 <= k < n implies dominated(g, #[trigger] s[k], a, b)
        || #[trigger] at_most(p, s[k], a, b) by {
        assert(dominated(h, s[k], a, b) || at_most(p, s[k], a, b));
        if !at_most(p, s[k], a, b) {
            let i = choose|i: int| 0 <= i < h.len() && #[trigger] at_most(h[i], s[k], a, b);
            if i < h.len() - 1 {
                assert(at_most(g[i], s[k], a, b));
            } else {
                popped_point(u, q, p, a, b);
                assert(positive(h[h.len() - 1]));
                if at_most(u, q, a, b) {
                    at_most_trans(u, q, s[k], a, b);
                    assert(at_most(g[g.len() - 1], s[k], a, b));
                } else {
                    at_most_trans(p, q, s[k], a, b);
                }
            }
        }
    }
    assert forall|i: int| 0 < i < g.len() implies #[trigger] link(g, i) by {
        assert(link(h, i));
    }
}

/// Putting the new point on covers it too.
proof fn push_covers(h: Seq<Point>, s: Seq<Point>, n: int, p: Point)
    requires
        0 <= n < s.len(),
        s[n] == p,
        covered(h, s, n, p),
    ensures
        forall|k: int, a: nat, b: nat|
            0 <= k < n + 1 ==> #[trigger] dominated(h.push(p), s[k], a, b),
{
    let g = h.push(p);
    assert forall|k: int, a: nat, b: nat| 0 <= k < n + 1 implies #[trigger] dominated(
        g,
        s[k],
        a,
        b,
    ) by {
        if k == n {
            assert(at_most(g[h.len() as int], s[k], a, b));
        } else {
            assert(dominated(h, s[k], a, b) || at_most(p, s[k], a, b));
            if at_most(p, s[k], a, b) {
                assert(at_most(g[h.len() as int], s[k], a, b));
            } else {
                let i = choose|i: int| 0 <= i < h.len() && #[trigger] at_most(h[i], s[k], a, b);
                assert(at_most(g[i], s[k], a, b));
            }
        }
    }
}

/// The envelope of up to 128 points with positive coordinates.
pub fn envelope(points: &[Point]) -> (h: Vec<Point>)
    requires
        0 < points.len() <= 128,
        forall|k: int| 0 <= k < points.len() ==> positive(#[trigger] points@[k]),
    ensures
        is_envelope(h@, points@),
        0 < h.len() <= points.len(),
        forall|i: int| 0 <= i < h.len() ==> positive(#[trigger] h@[i]),
{
    let s: Vec<Point> = sort_points(points);
    let mut h: Vec<Point> = Vec::with_capacity(points.len());
    let mut n: usize = 0;
    proof {
        assert forall|k: int| 0 <= k < s.len() implies positive(#[trigger] s@[k]) by {
            let j = choose|j: int| 0 <= j < points.len() && points@[j] == s@[k];
            assert(positive(points@[j]));
        }
    }
    while n < s.len()
        invariant
            n <= s.len(),
            h.len() <= n,
            n > 0 ==> h.len() > 0,
            forall|i: int, j: int|
                0 <= i < j < s.len() ==> before(#[trigger] s@[i], #[trigger] s@[j]),
            forall|k: int| 0 <= k < s.len() ==> positive(#[trigger] s@[k]),
            chain(h@),
            forall|i: int| 0 <= i < h.len() ==> positive(#[trigger] h@[i]),
            forall|i: int| 0 <= i < h.len() ==> s@.take(n as int).contains(#[trigger] h@[i]),
            forall|k: int, a: nat, b: nat|
                0 <= k < n ==> #[trigger] dominated(h@, s@[k], a, b),
        decreases s.len() - n,
    {
        let p: Point = s[n];
        let ghost took = s@.take(n as int);
        let ghost next = s@.take(n + 1);
        proof {
            assert(positive(s@[n as int]));
            assert forall|x: Point| took.contains(x) implies next.contains(x) by {
                let j = choose|j: int| 0 <= j < took.len() && took[j] == x;
                assert(next[j] == x);
            }
            assert(next[n as int] == p);
        }
        if h.len() > 0 {
            let last: Point = h[h.len() - 1];
            proof {
                assert(took.contains(h@[h.len() - 1]));
                let j = choose|j: int| 0 <= j < took.len() && took[j] == last;
                assert(before(s@[j], s@[n as int]));
                product_range(p.1 as int, last.0 as int);
                product_range(last.1 as int, p.0 as int);
            }
            if p.1 as u64 * last.0 as u64 >= last.1 as u64 * p.0 as u64 {
                proof {
                    assert forall|k: int, a: nat, b: nat|
                        0 <= k < n + 1 implies #[trigger] dominated(h@, s@[k], a, b) by {
                        if k == n {
                            skipped_point(last, p, a, b);
                            assert(at_most(h@[h.len() - 1], s@[k], a, b));
                        }
                    }
                }
                n += 1;
                continue;
            }
            proof {
                if p.0 == last.0 {
                    let (t, x, y) = (p.0 as int, p.1 as int, last.1 as int);
                    assert(x * t >= y * t) by (nonlinear_arith)
                        requires
                            x >= y,
                            t >= 0,
                    ;
                }
                let (tp, tl, lp, ll) = (p.0 as int, last.0 as int, p.1 as int, last.1 as int);
                assert(lp < ll) by (nonlinear_arith)
                    requires
                        lp * tl < ll * tp,
                        tp <= tl,
                        lp >= 0,
                        ll >= 0,
                        tp >= 0,
                {
                    if lp >= ll {
                        assert(lp * tl >= ll * tl);
                        assert(ll * tl >= ll * tp);
                    }
                }
                assert(ordered(last, p));
            }
        }
        proof {
            assert(covered(h@, s@, n as int, p));
        }
        while h.len() >= 2 && turn(h[h.len() - 2], h[h.len() - 1], p) <= 0
            invariant
                n < s.len(),
                h.len() <= n,
                s@[n as int] == p,
                chain(h@),
                n > 0 ==> h.len() > 0,
                h.len() > 0 ==> ordered(h@.last(), p),
                forall|i: int| 0 <= i < h.len() ==> positive(#[trigger] h@[i]),
                forall|i: int| 0 <= i < h.len() ==> next.contains(#[trigger] h@[i]),
                covered(h@, s@, n as int, p),
            decreases h.len(),
        {
            proof {
                pop_keeps(h@, s@, n as int, p);
            }
            let ghost full = h@;
            h.pop();
            proof {
                assert(h@ =~= full.drop_last());
                assert forall|i: int| 0 <= i < h.len() implies positive(#[trigger] h@[i])
                    && next.contains(h@[i]) by {
                    assert(h@[i] == full[i]);
                }
            }
        }
        let ghost base = h@;
        h.push(p);
        proof {
            push_covers(base, s@, n as int, p);
            assert(h@ =~= base.push(p));
            assert forall|i: int| 0 < i < h.len() implies #[trigger] link(h@, i) by {
                if i < h.len() - 1 {
                    assert(link(base, i));
                }
            }
            assert forall|i: int| 0 <= i < h.len() implies positive(#[trigger] h@[i])
                && next.contains(h@[i]) by {
                if i < h.len() - 1 {
                    assert(h@[i] == base[i]);
                }
            }
        }
        n += 1;
    }
    proof {
        assert(s@.take(s@.len() as int) =~= s@);
        assert forall|i: int| 0 <= i < h.len() implies points@.contains(#[trigger] h@[i]) by {
            let j = choose|j: int| 0 <= j < s.len() && s@[j] == h@[i];
            assert(points@.contains(s@[j]));
        }
        assert forall|k: int, a: nat, b: nat|
            0 <= k < points.len() implies #[trigger] dominated(h@, points@[k], a, b) by {
            assert(s@.contains(points@[k]));
            let j = choose|j: int| 0 <= j < s.len() && s@[j] == points@[k];
            assert(dominated(h@, s@[j], a, b));
        }
    }
    h
}

} // verus!
