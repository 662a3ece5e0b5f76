//! Sparse vectors: dimensions with weights, held as the bits of
//! single-precision numbers.
use crate::sparse_config::INFINITY;
use crate::sparse_config::SIGN;
use crate::sparse_skip;
use crate::sparse_weights;
use vstd::prelude::*;

verus! {

/// A dimension and its weight.
#[derive(Debug, Clone, Copy, PartialEq, Eq, Structural)]
pub struct SparseEntry {
    pub dim_id: u32,
    pub weight: u32,
}

/// A sparse vector.
#[derive(Debug, Clone)]
pub struct SparseVector {
    entries: Vec<SparseEntry>,
}

impl View for SparseVector {
    type V = Seq<SparseEntry>;

    closed spec fn view(&self) -> Seq<SparseEntry> {
        self.entries@
    }
}

impl Default for SparseVector {
    fn default() -> (r: Self)
        ensures
            r@ == Seq::<SparseEntry>::empty(),
    {
        SparseVector { entries: Vec::new() }
    }
}

/// What entries are sorted by: the dimension, or the weight from the largest
/// down.
pub open spec fn sort_key(e: SparseEntry, by_weight: bool) -> int {
    if by_weight {
        -sparse_skip::rank(e.weight)
    } else {
        e.dim_id as int
    }
}

/// Whether entries are in order.
pub open spec fn in_order(s: Seq<SparseEntry>, by_weight: bool) -> bool {
    forall|i: int, j: int|
        0 <= i <= j < s.len() ==> sort_key(#[trigger] s[i], by_weight) <= sort_key(
            #[trigger] s[j],
            by_weight,
        )
}

/// The entries with a key, in the order in which they come.
pub open spec fn with_key(s: Seq<SparseEntry>, by_weight: bool, key: int) -> Seq<SparseEntry> {
    s.filter(|e: SparseEntry| sort_key(e, by_weight) == key)
}

/// Whether `after` is `before` in order, with entries that have one key in
/// the order in which they came.
pub open spec fn is_sorting(
    before: Seq<SparseEntry>,
    after: Seq<SparseEntry>,
    by_weight: bool,
) -> bool {
    &&& in_order(after, by_weight)
    &&& after.len() == before.len()
    &&& forall|key: int| #[trigger]
        with_key(after, by_weight, key) == with_key(before, by_weight, key)
}

fn key_after(a: SparseEntry, b: SparseEntry, by_weight: bool) -> (r: bool)
    ensures
        r == (sort_key(a, by_weight) > sort_key(b, by_weight)),
{
    if by_weight {
        sparse_skip::ranks_below(a.weight, b.weight)
    } else {
        a.dim_id > b.dim_id
    }
}

proof fn insert_keeps(
    s: Seq<SparseEntry>,
    before: Seq<SparseEntry>,
    e: SparseEntry,
    at: int,
    by_weight: bool,
)
    requires
        is_sorting(before, s, by_weight),
        0 <= at <= s.len(),
        forall|i: int|
            0 <= i < at ==> sort_key(#[trigger] s[i], by_weight) <= sort_key(e, by_weight),
        forall|i: int|
            at <= i < s.len() ==> sort_key(#[trigger] s[i], by_weight) > sort_key(e, by_weight),
    ensures
        is_sorting(before.push(e), s.insert(at, e), by_weight),
{
    let t = s.insert(at, e);
    let low = s.take(at);
    let high = s.skip(at);
    assert(t =~= low + (seq![e] + high));
    assert(s =~= low + high);
    assert forall|key: int| #[trigger]
        with_key(t, by_weight, key) == with_key(before.push(e), by_weight, key) by {
        let p = |x: SparseEntry| sort_key(x, by_weight) == key;
        Seq::filter_distributes_over_add(low, seq![e] + high, p);
        Seq::filter_distributes_over_add(seq![e], high, p);
        Seq::filter_distributes_over_add(low, high, p);
        Seq::filter_distributes_over_add(before, seq![e], p);
        assert(before.push(e) =~= before + seq![e]);
        assert(with_key(s, by_weight, key) == with_key(before, by_weight, key));
        if sort_key(e, by_weight) == key {
            none_match(high, p);
            assert(high.filter(p) =~= Seq::empty());
            assert(low.filter(p) + (seq![e].filter(p) + high.filter(p)) =~= (low.filter(p)
                + high.filter(p)) + seq![e].filter(p));
        } else {
            none_match(seq![e], p);
            assert(low.filter(p) + (seq![e].filter(p) + high.filter(p)) =~= (low.filter(p)
                + high.filter(p)) + seq![e].filter(p));
        }
    }
    assert forall|i: int, j: int| 0 <= i <= j < t.len() implies sort_key(
        #[trigger] t[i],
        by_weight,
    ) <= sort_key(#[trigger] t[j], by_weight) by {
        if i < at && j > at {
            assert(t[j] == s[j - 1] && t[i] == s[i]);
        } else if i > at {
            assert(t[j] == s[j - 1] && t[i] == s[i - 1]);
        } else if j < at {
            assert(t[j] == s[j] && t[i] == s[i]);
        } else if i == at && j > at {
            assert(t[j] == s[j - 1]);
        } else if j == at && i < at {
            assert(t[i] == s[i]);
        }
    }
}

proof fn none_match(s: Seq<SparseEntry>, p: spec_fn(SparseEntry) -> bool)
    requires
        forall|i: int| 0 <= i < s.len() ==> !p(#[trigger] s[i]),
    ensures
        s.filter(p) == Seq::<SparseEntry>::empty(),
    decreases s.len(),
{
    reveal(Seq::filter);
    if s.len() > 0 {
        none_match(s.drop_last(), p);
    }
}

fn sorted(entries: &Vec<SparseEntry>, by_weight: bool) -> (out: Vec<SparseEntry>)
    ensures
        is_sorting(entries@, out@, by_weight),
{
    let mut out: Vec<SparseEntry> = Vec::new();
    let mut i: usize = 0;
    proof {
        assert(entries@.take(0) =~= Seq::empty());
    }
    while i < entries.len()
        invariant
            i <= entries@.len(),
            is_sorting(entries@.take(i as int), out@, by_weight),
        decreases entries@.len() - i,
    {
        let e: SparseEntry = entries[i];
        let mut at: usize = out.len();
        while at > 0 && key_after(out[at - 1], e, by_weight)
            invariant
                at <= out@.len(),
                in_order(out@, by_weight),
                forall|k: int|
                    at <= k < out@.len() ==> sort_key(#[trigger] out@[k], by_weight) > sort_key(
                        e,
                        by_weight,
                    ),
            decreases at,
        {
            at = at - 1;
        }
        proof {
            assert forall|k: int| 0 <= k < at implies sort_key(#[trigger] out@[k], by_weight)
                <= sort_key(e, by_weight) by {
                assert(sort_key(out@[k], by_weight) <= sort_key(out@[at - 1], by_weight));
            }
            insert_keeps(out@, entries@.take(i as int), e, at as int, by_weight);
            assert(entries@.take(i + 1) =~= entries@.take(i as int).push(e));
        }
        out.insert(at, e);
        i = i + 1;
    }
    proof {
        assert(entries@.take(i as int) =~= entries@);
    }
    out
}

/// Whether a weight is at least `min` in magnitude; neither is, if one of
/// them is not a number.
pub open spec fn keeps(e: SparseEntry, min: u32) -> bool {
    !sparse_weights::is_nan(e.weight) && !sparse_weights::is_nan(min) && sparse_skip::rank(
        (e.weight % SIGN) as u32,
    ) >= sparse_skip::rank(min)
}

/// The weights of dimensions that two vectors have in common, met by going
/// through both in step.
pub open spec fn common(
    a: Seq<SparseEntry>,
    b: Seq<SparseEntry>,
    i: int,
    j: int,
) -> Seq<(u32, u32)>
    decreases a.len() - i + b.len() - j,
{
    if i < 0 || j < 0 || i >= a.len() || j >= b.len() {
        Seq::empty()
    } else if a[i].dim_id < b[j].dim_id {
        common(a, b, i + 1, j)
    } else if a[i].dim_id > b[j].dim_id {
        common(a, b, i, j + 1)
    } else {
        seq![(a[i].weight, b[j].weight)] + common(a, b, i + 1, j + 1)
    }
}

/// Whether places of two vectors have one dimension each, and each next place
/// is further on in both.
pub open spec fn meets(a: Seq<SparseEntry>, b: Seq<SparseEntry>, at: Seq<(int, int)>) -> bool {
    &&& forall|k: int|
        0 <= k < at.len() ==> {
            let (x, y) = #[trigger] at[k];
            &&& 0 <= x < a.len()
            &&& 0 <= y < b.len()
            &&& a[x].dim_id == b[y].dim_id
        }
    &&& forall|k: int, m: int|
        0 <= k < m < at.len() ==> (#[trigger] at[k]).0 < (#[trigger] at[m]).0 && at[k].1 < at[m].1
}

/// Whether pairs of weights are those at the places of two vectors.
pub open spec fn weighs(
    a: Seq<SparseEntry>,
    b: Seq<SparseEntry>,
    at: Seq<(int, int)>,
    pairs: Seq<(u32, u32)>,
) -> bool {
    &&& pairs.len() == at.len()
    &&& forall|k: int|
        0 <= k < at.len() ==> #[trigger] pairs[k] == (a[at[k].0].weight, b[at[k].1].weight)
}

/// Whether every dimension that both vectors have is at one of the places.
pub open spec fn meets_all(a: Seq<SparseEntry>, b: Seq<SparseEntry>, at: Seq<(int, int)>) -> bool {
    forall|x: int, y: int|
        0 <= x < a.len() && 0 <= y < b.len() && (#[trigger] a[x]).dim_id == (
        #[trigger] b[y]).dim_id ==> at.contains((x, y))
}

/// Whether every dimension comes once, and they are in order.
pub open spec fn dims_increase(s: Seq<SparseEntry>) -> bool {
    forall|i: int, j: int|
        0 <= i < j < s.len() ==> (#[trigger] s[i]).dim_id < (#[trigger] s[j]).dim_id
}

impl SparseVector {
    pub fn new() -> (r: Self)
        ensures
            r@ == Seq::<SparseEntry>::empty(),
    {
        SparseVector { entries: Vec::new() }
    }

    pub fn with_capacity(capacity: usize) -> (r: Self)
        ensures
            r@ == Seq::<SparseEntry>::empty(),
    {
        SparseVector { entries: Vec::with_capacity(capacity) }
    }

    /// A vector of dimensions and weights, in the order of the dimensions.
    pub fn from_entries(dim_ids: &[u32], weights: &[u32]) -> (r: Self)
        requires
            dim_ids@.len() == weights@.len(),
        ensures
            is_sorting(
                Seq::new(
                    dim_ids@.len(),
                    |i: int| SparseEntry { dim_id: dim_ids@[i], weight: weights@[i] },
                ),
                r@,
                false,
            ),
    {
        let mut entries: Vec<SparseEntry> = Vec::new();
        let mut i: usize = 0;
        while i < dim_ids.len()
            invariant
                i <= dim_ids@.len() == weights@.len(),
                entries@.len() == i,
                forall|k: int|
                    0 <= k < i ==> #[trigger] entries@[k] == (SparseEntry {
                        dim_id: dim_ids@[k],
                        weight: weights@[k],
                    }),
            decreases dim_ids@.len() - i,
        {
            entries.push(SparseEntry { dim_id: dim_ids[i], weight: weights[i] });
            i = i + 1;
        }
        proof {
            assert(entries@ =~= Seq::new(
                dim_ids@.len(),
                |i: int| SparseEntry { dim_id: dim_ids@[i], weight: weights@[i] },
            ));
        }
        SparseVector { entries: sorted(&entries, false) }
    }

    /// Add an entry. Its dimension comes after all others.
    pub fn push(&mut self, dim_id: u32, weight: u32)
        requires
            old(self)@.len() == 0 || old(self)@.last().dim_id < dim_id,
        ensures
            final(self)@ == old(self)@.push(SparseEntry { dim_id, weight }),
    {
        self.entries.push(SparseEntry { dim_id, weight });
    }

    pub fn len(&self) -> (r: usize)
        ensures
            r == self@.len(),
    {
        self.entries.len()
    }

    pub fn is_empty(&self) -> (r: bool)
        ensures
            r == (self@.len() == 0),
    {
        self.entries.len() == 0
    }

    /// The entries.
    pub fn iter(&self) -> (r: &[SparseEntry])
        ensures
            r@ == self@,
    {
        self.entries.as_slice()
    }

    /// Sort by dimension.
    pub fn sort_by_dim(&mut self)
        ensures
            is_sorting(old(self)@, final(self)@, false),
    {
        self.entries = sorted(&self.entries, false);
    }

    /// Sort by weight, the largest first. Weights are numbers.
    pub fn sort_by_weight_desc(&mut self)
        requires
            forall|i: int|
                0 <= i < old(self)@.len() ==> !sparse_weights::is_nan(
                    (#[trigger] old(self)@[i]).weight,
                ),
        ensures
            is_sorting(old(self)@, final(self)@, true),
    {
        self.entries = sorted(&self.entries, true);
    }

    /// The `k` entries with the largest weights, the largest first. Weights
    /// are numbers.
    pub fn top_k(&self, k: usize) -> (r: Vec<SparseEntry>)
        requires
            forall|i: int|
                0 <= i < self@.len() ==> !sparse_weights::is_nan((#[trigger] self@[i]).weight),
        ensures
            exists|all: Seq<SparseEntry>| #[trigger]
                is_sorting(self@, all, true) && r@ == all.take(
                    if k < all.len() {
                        k as int
                    } else {
                        all.len() as int
                    },
                ),
    {
        let mut all: Vec<SparseEntry> = sorted(&self.entries, true);
        let ghost s = all@;
        all.truncate(k);
        proof {
            assert(is_sorting(self@, s, true));
            assert(all@ =~= s.take(
                if k < s.len() {
                    k as int
                } else {
                    s.len() as int
                },
            ));
        }
        all
    }

    /// The weights of the dimensions that both vectors have.
    pub fn matches(&self, other: &SparseVector) -> (r: Vec<(u32, u32)>)
        ensures
            r@ == common(self@, other@, 0, 0),
            exists|at: Seq<(int, int)>| #[trigger]
                meets(self@, other@, at) && weighs(self@, other@, at, r@) && (dims_increase(self@)
                    && dims_increase(other@) ==> meets_all(self@, other@, at)),
    {
        let mut r: Vec<(u32, u32)> = Vec::new();
        let mut i: usize = 0;
        let mut j: usize = 0;
        while i < self.entries.len() && j < other.entries.len()
            invariant
                i <= self@.len(),
                j <= other@.len(),
                r@ + common(self@, other@, i as int, j as int) == common(self@, other@, 0, 0),
            decreases self@.len() - i + other@.len() - j,
        {
            let a: SparseEntry = self.entries[i];
            let b: SparseEntry = other.entries[j];
            if a.dim_id < b.dim_id {
                i = i + 1;
            } else if a.dim_id > b.dim_id {
                j = j + 1;
            } else {
                let ghost before = r@;
                r.push((a.weight, b.weight));
                proof {
                    assert(r@ + common(self@, other@, i + 1, j + 1) =~= before + (seq![
                        (a.weight, b.weight),
                    ] + common(self@, other@, i + 1, j + 1)));
                }
                i = i + 1;
                j = j + 1;
            }
        }
        proof {
            assert(r@ + common(self@, other@, i as int, j as int) =~= r@);
            common_is_met(self@, other@);
        }
        r
    }

    /// The entries with weights of at least `min_weight` in magnitude.
    pub fn filter_by_weight(&self, min_weight: u32) -> (r: Self)
        ensures
            r@ == self@.filter(|e: SparseEntry| keeps(e, min_weight)),
    {
        let mut entries: Vec<SparseEntry> = Vec::new();
        let mut i: usize = 0;
        let ghost p = |e: SparseEntry| keeps(e, min_weight);
        proof {
            reveal(Seq::filter);
            assert(self@.take(0) =~= Seq::empty());
        }
        while i < self.entries.len()
            invariant
                i <= self@.len(),
                p == (|e: SparseEntry| keeps(e, min_weight)),
                entries@ == self@.take(i as int).filter(p),
            decreases self@.len() - i,
        {
            let e: SparseEntry = self.entries[i];
            proof {
                reveal(Seq::filter);
                assert(self@.take(i + 1).drop_last() =~= self@.take(i as int));
            }
            if e.weight % SIGN <= INFINITY && min_weight % SIGN <= INFINITY
                && !sparse_skip::ranks_below(e.weight % SIGN, min_weight) {
                entries.push(e);
            }
            i = i + 1;
        }
        proof {
            assert(self@.take(i as int) =~= self@);
        }
        SparseVector { entries }
    }

    /// The vector of pairs of dimension and weight, as they come.
    pub fn from_pairs(pairs: &[(u32, u32)]) -> (r: Self)
        ensures
            r@ == Seq::new(
                pairs@.len(),
                |i: int| SparseEntry { dim_id: pairs@[i].0, weight: pairs@[i].1 },
            ),
    {
        let mut entries: Vec<SparseEntry> = Vec::new();
        let mut i: usize = 0;
        while i < pairs.len()
            invariant
                i <= pairs@.len(),
                entries@.len() == i,
                forall|k: int|
                    0 <= k < i ==> #[trigger] entries@[k] == (SparseEntry {
                        dim_id: pairs@[k].0,
                        weight: pairs@[k].1,
                    }),
            decreases pairs@.len() - i,
        {
            entries.push(SparseEntry { dim_id: pairs[i].0, weight: pairs[i].1 });
            i = i + 1;
        }
        let r = SparseVector { entries };
        proof {
            assert(r@ =~= Seq::new(
                pairs@.len(),
                |i: int| SparseEntry { dim_id: pairs@[i].0, weight: pairs@[i].1 },
            ));
        }
        r
    }

    /// The pairs of dimension and weight.
    pub fn to_pairs(&self) -> (r: Vec<(u32, u32)>)
        ensures
            r@ == Seq::new(self@.len(), |i: int| (self@[i].dim_id, self@[i].weight)),
    {
        let mut r: Vec<(u32, u32)> = Vec::new();
        let mut i: usize = 0;
        while i < self.entries.len()
            invariant
                i <= self@.len(),
                r@.len() == i,
                forall|k: int|
                    0 <= k < i ==> #[trigger] r@[k] == (self@[k].dim_id, self@[k].weight),
            decreases self@.len() - i,
        {
            r.push((self.entries[i].dim_id, self.entries[i].weight));
            i = i + 1;
        }
        proof {
            assert(r@ =~= Seq::new(self@.len(), |i: int| (self@[i].dim_id, self@[i].weight)));
        }
        r
    }
}

/// Going through two vectors in step meets the common dimensions of each.
pub proof fn common_found(a: Seq<SparseEntry>, b: Seq<SparseEntry>, i: int, j: int, x: int, y: int)
    requires
        in_order(a, false),
        in_order(b, false),
        0 <= i <= x < a.len(),
        0 <= j <= y < b.len(),
        a[x].dim_id == b[y].dim_id,
        forall|k: int| 0 <= k < a.len() && k != x ==> (#[trigger] a[k]).dim_id != a[x].dim_id,
        forall|k: int| 0 <= k < b.len() && k != y ==> (#[trigger] b[k]).dim_id != b[y].dim_id,
    ensures
        common(a, b, i, j).contains((a[x].weight, b[y].weight)),
    decreases a.len() - i + b.len() - j,
{
    assert(sort_key(a[i], false) <= sort_key(a[x], false));
    assert(sort_key(b[j], false) <= sort_key(b[y], false));
    if a[i].dim_id < b[j].dim_id {
        common_found(a, b, i + 1, j, x, y);
    } else if a[i].dim_id > b[j].dim_id {
        common_found(a, b, i, j + 1, x, y);
    } else {
        let rest = common(a, b, i + 1, j + 1);
        let all = common(a, b, i, j);
        if i == x {
            assert(all[0] == (a[x].weight, b[y].weight));
        } else {
            common_found(a, b, i + 1, j + 1, x, y);
            let k = choose|k: int| 0 <= k < rest.len() && rest[k] == (a[x].weight, b[y].weight);
            assert(all[k + 1] == rest[k]);
        }
    }
}

/// The pairs of weights that two vectors have in common are each of one
/// dimension that both have, no entry gives more than one pair, and where the
/// dimensions of each vector differ and are in order, every dimension that
/// both have gives one.
pub proof fn common_is_met(a: Seq<SparseEntry>, b: Seq<SparseEntry>)
    ensures
        exists|at: Seq<(int, int)>| #[trigger]
            meets(a, b, at) && weighs(a, b, at, common(a, b, 0, 0)) && (dims_increase(a)
                && dims_increase(b) ==> meets_all(a, b, at)),
{
    let at = common_places(a, b, 0, 0);
    assert(meets(a, b, at));
}

/// The places whose weights are paired from two places on.
proof fn common_places(a: Seq<SparseEntry>, b: Seq<SparseEntry>, i: int, j: int) -> (at: Seq<
    (int, int),
>)
    requires
        0 <= i <= a.len(),
        0 <= j <= b.len(),
    ensures
        meets(a, b, at),
        weighs(a, b, at, common(a, b, i, j)),
        forall|k: int| 0 <= k < at.len() ==> i <= (#[trigger] at[k]).0 && j <= at[k].1,
        dims_increase(a) && dims_increase(b) ==> forall|x: int, y: int|
            i <= x < a.len() && j <= y < b.len() && (#[trigger] a[x]).dim_id == (
            #[trigger] b[y]).dim_id ==> at.contains((x, y)),
    decreases a.len() - i + b.len() - j,
{
    if i >= a.len() || j >= b.len() {
        Seq::empty()
    } else if a[i].dim_id < b[j].dim_id {
        let at = common_places(a, b, i + 1, j);
        assert forall|x: int, y: int|
            dims_increase(a) && dims_increase(b) && i <= x < a.len() && j <= y < b.len() && (
            #[trigger] a[x]).dim_id == (#[trigger] b[y]).dim_id implies at.contains((x, y)) by {
            if x == i && y > j {
                assert(b[j].dim_id < b[y].dim_id);
            }
        }
        at
    } else if a[i].dim_id > b[j].dim_id {
        let at = common_places(a, b, i, j + 1);
        assert forall|x: int, y: int|
            dims_increase(a) && dims_increase(b) && i <= x < a.len() && j <= y < b.len() && (
            #[trigger] a[x]).dim_id == (#[trigger] b[y]).dim_id implies at.contains((x, y)) by {
            if y == j && x > i {
                assert(a[i].dim_id < a[x].dim_id);
            }
        }
        at
    } else {
        let rest = common_places(a, b, i + 1, j + 1);
        let at = seq![(i, j)] + rest;
        let pairs = common(a, b, i, j);
        let after = common(a, b, i + 1, j + 1);
        assert forall|k: int| 0 <= k < at.len() implies {
            let (x, y) = #[trigger] at[k];
            &&& 0 <= x < a.len()
            &&& 0 <= y < b.len()
            &&& a[x].dim_id == b[y].dim_id
            &&& i <= x
            &&& j <= y
            &&& k > 0 ==> i < x && j < y
        } by {
            if k > 0 {
                assert(at[k] == rest[k - 1]);
            }
        }
        assert forall|k: int, m: int| 0 <= k < m < at.len() implies (#[trigger] at[k]).0 < (
        #[trigger] at[m]).0 && at[k].1 < at[m].1 by {
            assert(at[m] == rest[m - 1]);
            if k > 0 {
                assert(at[k] == rest[k - 1]);
            }
        }
        assert forall|k: int| 0 <= k < at.len() implies #[trigger] pairs[k] == (
            a[at[k].0].weight,
            b[at[k].1].weight,
        ) by {
            if k > 0 {
                assert(at[k] == rest[k - 1]);
                assert(pairs[k] == after[k - 1]);
            }
        }
        assert forall|x: int, y: int|
            dims_increase(a) && dims_increase(b) && i <= x < a.len() && j <= y < b.len() && (
            #[trigger] a[x]).dim_id == (#[trigger] b[y]).dim_id implies at.contains((x, y)) by {
            if x == i && y > j {
                assert(b[j].dim_id < b[y].dim_id);
            } else if y == j && x > i {
                assert(a[i].dim_id < a[x].dim_id);
            } else if x == i {
                assert(at[0] == (x, y));
            } else {
                assert(rest.contains((x, y)));
                let k = choose|k: int| 0 <= k < rest.len() && rest[k] == (x, y);
                assert(at[k + 1] == (x, y));
            }
        }
        at
    }
}

/// What two vectors have in common is the same the other way round.
pub proof fn common_is_mutual(a: Seq<SparseEntry>, b: Seq<SparseEntry>, i: int, j: int)
    requires
        0 <= i <= a.len(),
        0 <= j <= b.len(),
    ensures
        common(b, a, j, i) == common(a, b, i, j).map_values(|p: (u32, u32)| (p.1, p.0)),
    decreases a.len() - i + b.len() - j,
{
    let flip = |p: (u32, u32)| (p.1, p.0);
    if i >= a.len() || j >= b.len() {
        assert(common(b, a, j, i) =~= common(a, b, i, j).map_values(flip));
    } else if a[i].dim_id < b[j].dim_id {
        common_is_mutual(a, b, i + 1, j);
    } else if a[i].dim_id > b[j].dim_id {
        common_is_mutual(a, b, i, j + 1);
    } else {
        common_is_mutual(a, b, i + 1, j + 1);
        assert(common(b, a, j, i) =~= common(a, b, i, j).map_values(flip));
    }
}

} // verus!
