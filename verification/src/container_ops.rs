//! Choice of representation, intersection, union and storage of sets of
//! 16-bit numbers.
use crate::container;
use crate::container::Container;
use crate::container::ARRAY_TO_BITMAP_THRESHOLD;
use vstd::prelude::*;

verus! {

/// Whether runs take less room than the numbers.
pub open spec fn runs_pay(s: Seq<u16>) -> bool {
    s.len() >= 4 && 4 * container::run_count(s, s.len() as int) < 2 * s.len()
}

/// Whether `c` keeps the numbers `s` in the form with the least room: a
/// bitmap above the threshold, else runs where they pay, else an array.
pub open spec fn is_optimal(c: Container, s: Seq<u16>) -> bool {
    &&& c.wf()
    &&& c.values() == s
    &&& if s.len() > ARRAY_TO_BITMAP_THRESHOLD {
        c is Bitmap
    } else if runs_pay(s) {
        c is Runs && c->Runs_0@.len() == container::run_count(s, s.len() as int)
    } else {
        c is Array
    }
}

/// Numbers as a bitmap.
fn to_bitmap(a: &[u16]) -> (words: Vec<u64>)
    requires
        container::strictly(a@),
    ensures
        words@.len() == 1024,
        container::bitmap_values(words@, 0x1_0000) == a@,
{
    let mut words: Vec<u64> = Vec::new();
    while words.len() < 1024
        invariant
            words@.len() <= 1024,
            forall|k: int| 0 <= k < words@.len() ==> words@[k] == 0,
        decreases 1024 - words@.len(),
    {
        words.push(0);
    }
    proof {
        assert forall|v: u16| !#[trigger] container::bit_set(words@, v as int) by {
            let t = (v % 64) as u64;
            assert((0u64 >> t) & 1 == 0) by (bit_vector)
                requires
                    t < 64,
            ;
        }
    }
    let mut i: usize = 0;
    while i < a.len()
        invariant
            i <= a@.len(),
            words@.len() == 1024,
            forall|v: u16|
                #[trigger] container::bit_set(words@, v as int) <==> a@.take(i as int).contains(v),
        decreases a@.len() - i,
    {
        let val: u16 = a[i];
        let at: usize = (val / 64) as usize;
        let shift: u64 = (val % 64) as u64;
        let word: u64 = words[at];
        let ghost was = words@;
        words.set(at, word | (1u64 << shift));
        proof {
            let seen = a@.take(i as int);
            let more = a@.take(i + 1);
            assert(more =~= seen.push(val));
            assert forall|v: u16| #[trigger] container::bit_set(words@, v as int)
                <==> more.contains(v) by {
                let t = (v % 64) as u64;
                container::bit_of_or(word, shift, t);
                assert(container::bit_set(was, v as int) <==> seen.contains(v));
                if v / 64 == val / 64 && v % 64 == val % 64 {
                    assert(v == val);
                }
                if seen.contains(v) {
                    let k = choose|k: int| 0 <= k < seen.len() && seen[k] == v;
                    assert(more[k] == v);
                }
                if v == val {
                    assert(more[i as int] == v);
                }
                if more.contains(v) && v != val {
                    let k = choose|k: int| 0 <= k < more.len() && more[k] == v;
                    assert(seen[k] == v);
                }
            }
        }
        i = i + 1;
    }
    proof {
        assert(a@.take(a@.len() as int) =~= a@);
        container::bitmap_members(words@, 0x1_0000);
        container::same_members(container::bitmap_values(words@, 0x1_0000), a@);
    }
    words
}

/// Numbers as runs.
fn to_runs(a: &[u16]) -> (runs: Vec<(u16, u16)>)
    requires
        container::strictly(a@),
    ensures
        container::runs_ok(runs@),
        container::run_values(runs@, runs@.len() as int) == a@,
        runs@.len() == container::run_count(a@, a@.len() as int),
{
    let mut runs: Vec<(u16, u16)> = Vec::new();
    let mut i: usize = 0;
    proof {
        assert(container::run_values(runs@, 0) =~= a@.take(0));
    }
    while i < a.len()
        invariant
            i <= a@.len(),
            container::strictly(a@),
            container::runs_ok(runs@),
            container::run_values(runs@, runs@.len() as int) == a@.take(i as int),
            runs@.len() == container::run_count(a@, i as int),
            i > 0 ==> runs@.len() > 0 && runs@.last().0 + runs@.last().1 == a@[i - 1],
            runs@.len() <= i,
        decreases a@.len() - i,
    {
        let val: u16 = a[i];
        let ghost before = runs@;
        let ghost n = before.len() as int;
        if i > 0 && a[i - 1] as u32 + 1 == val as u32 {
            let k: usize = runs.len() - 1;
            let (start, len): (u16, u16) = runs[k];
            runs.set(k, (start, len + 1));
            proof {
                container::runs_same(before, runs@, n - 1);
                assert(container::run_range(runs@[n - 1]) =~= container::run_range(
                    before[n - 1],
                ).push(val));
                assert(container::run_values(runs@, n) =~= container::run_values(
                    before,
                    n,
                ).push(val));
            }
        } else {
            runs.push((val, 0));
            proof {
                if i > 0 {
                    assert(a@[i - 1] < a@[i as int]);
                }
                container::runs_same(before, runs@, n);
                assert(container::run_range((val, 0u16)) =~= seq![val]);
                assert(container::run_values(runs@, n + 1) =~= container::run_values(
                    before,
                    n,
                ).push(val));
                assert forall|x: int, y: int| 0 <= x < y < runs@.len() implies runs@[x].0
                    + runs@[x].1 < (#[trigger] runs@[y]).0 && (#[trigger] runs@[x]).0
                    <= 0xFFFF by {
                    if y == n && x < n - 1 {
                        assert(before[x].0 + before[x].1 < before[n - 1].0 && before[x].0
                            <= 0xFFFF);
                    } else if y < n {
                        assert(before[x].0 + before[x].1 < before[y].0 && before[x].0 <= 0xFFFF);
                    }
                }
            }
        }
        proof {
            assert(a@.take(i + 1) =~= a@.take(i as int).push(val));
        }
        i = i + 1;
    }
    proof {
        assert(a@.take(a@.len() as int) =~= a@);
    }
    runs
}

/// Numbers in the form with the least room.
fn optimal(a: Vec<u16>) -> (c: Container)
    requires
        container::strictly(a@),
    ensures
        is_optimal(c, a@),
{
    if a.len() > ARRAY_TO_BITMAP_THRESHOLD {
        return Container::Bitmap(to_bitmap(a.as_slice()));
    }
    if a.len() >= 4 {
        let runs = to_runs(a.as_slice());
        if runs.len() < (a.len() + 1) / 2 {
            return Container::Runs(runs);
        }
    }
    Container::Array(a)
}

/// Whether two sets are held in the same form with the same content.
pub open spec fn same_form(a: Container, b: Container) -> bool {
    match (a, b) {
        (Container::Array(x), Container::Array(y)) => x@ == y@,
        (Container::Bitmap(x), Container::Bitmap(y)) => x@ == y@,
        (Container::Runs(x), Container::Runs(y)) => x@ == y@,
        _ => false,
    }
}

impl Container {
    /// Take the form with the least room. Runs are kept as they are.
    pub fn optimize(&mut self)
        requires
            old(self).wf(),
        ensures
            final(self).wf(),
            final(self).values() == old(self).values(),
            *old(self) is Runs ==> *final(self) == *old(self),
            !(*old(self) is Runs) ==> is_optimal(*final(self), old(self).values()),
    {
        if let Container::Runs(_) = self {
            return;
        }
        let a = self.to_array();
        *self = optimal(a);
    }

    /// The numbers in both sets. Two bitmaps give the form with the least
    /// room, other sets an array.
    pub fn intersect(&self, other: &Container) -> (r: Container)
        requires
            self.wf(),
            other.wf(),
        ensures
            r.wf(),
            forall|v: u16| #[trigger] r.has(v) <==> self.has(v) && other.has(v),
            self is Bitmap && other is Bitmap ==> is_optimal(r, r.values()),
            !(self is Bitmap && other is Bitmap) ==> r is Array,
    {
        if let Container::Bitmap(a) = self {
            if let Container::Bitmap(b) = other {
                let words = and_words(a.as_slice(), b.as_slice());
                let c = Container::Bitmap(words);
                proof {
                    container::bitmap_members(a@, 0x1_0000);
                    container::bitmap_members(b@, 0x1_0000);
                    container::bitmap_members(words@, 0x1_0000);
                }
                let values = c.to_array();
                return optimal(values);
            }
        }
        let a = self.to_array();
        let b = other.to_array();
        Container::Array(intersect_arrays(a.as_slice(), b.as_slice()))
    }

    /// The numbers in either set. Two bitmaps give a bitmap, other sets the
    /// form with the least room.
    pub fn union(&self, other: &Container) -> (r: Container)
        requires
            self.wf(),
            other.wf(),
        ensures
            r.wf(),
            forall|v: u16| #[trigger] r.has(v) <==> self.has(v) || other.has(v),
            self is Bitmap && other is Bitmap ==> r is Bitmap,
            !(self is Bitmap && other is Bitmap) ==> is_optimal(r, r.values()),
    {
        if let Container::Bitmap(a) = self {
            if let Container::Bitmap(b) = other {
                let words = or_words(a.as_slice(), b.as_slice());
                proof {
                    container::bitmap_members(a@, 0x1_0000);
                    container::bitmap_members(b@, 0x1_0000);
                    container::bitmap_members(words@, 0x1_0000);
                }
                return Container::Bitmap(words);
            }
        }
        let a = self.to_array();
        let b = other.to_array();
        optimal(union_arrays(a.as_slice(), b.as_slice()))
    }

    /// The same set again.
    pub fn copy(&self) -> (r: Container)
        ensures
            r.wf() == self.wf(),
            r.values() == self.values(),
            same_form(r, *self),
    {
        match self {
            Container::Array(a) => {
                let b = a.clone();
                proof {
                    assert(b@ =~= a@);
                }
                Container::Array(b)
            },
            Container::Bitmap(words) => {
                let b = words.clone();
                proof {
                    assert(b@ =~= words@);
                }
                Container::Bitmap(b)
            },
            Container::Runs(runs) => {
                let mut b: Vec<(u16, u16)> = Vec::new();
                let mut i: usize = 0;
                while i < runs.len()
                    invariant
                        i <= runs@.len(),
                        b@ == runs@.take(i as int),
                    decreases runs@.len() - i,
                {
                    b.push(runs[i]);
                    proof {
                        assert(b@ =~= runs@.take(i + 1));
                    }
                    i = i + 1;
                }
                proof {
                    assert(b@ =~= runs@);
                }
                Container::Runs(b)
            },
        }
    }
}

/// Words with the bits of both.
fn and_words(a: &[u64], b: &[u64]) -> (r: Vec<u64>)
    requires
        a@.len() == 1024,
        b@.len() == 1024,
    ensures
        r@.len() == 1024,
        forall|v: u16|
            #[trigger] container::bit_set(r@, v as int) <==> container::bit_set(a@, v as int)
                && container::bit_set(b@, v as int),
{
    let mut r: Vec<u64> = Vec::new();
    while r.len() < 1024
        invariant
            r@.len() <= 1024,
            a@.len() == 1024,
            b@.len() == 1024,
            forall|k: int| 0 <= k < r@.len() ==> #[trigger] r@[k] == a@[k] & b@[k],
        decreases 1024 - r@.len(),
    {
        let k: usize = r.len();
        r.push(a[k] & b[k]);
    }
    proof {
        assert forall|v: u16| #[trigger] container::bit_set(r@, v as int) <==> container::bit_set(
            a@,
            v as int,
        ) && container::bit_set(b@, v as int) by {
            let x = a@[v as int / 64];
            let y = b@[v as int / 64];
            let t = (v % 64) as u64;
            assert(((x & y) >> t) & 1 == 1 <==> (x >> t) & 1 == 1 && (y >> t) & 1 == 1)
                by (bit_vector)
                requires
                    t < 64,
            ;
        }
    }
    r
}

/// Words with the bits of either.
fn or_words(a: &[u64], b: &[u64]) -> (r: Vec<u64>)
    requires
        a@.len() == 1024,
        b@.len() == 1024,
    ensures
        r@.len() == 1024,
        forall|v: u16|
            #[trigger] container::bit_set(r@, v as int) <==> container::bit_set(a@, v as int)
                || container::bit_set(b@, v as int),
{
    let mut r: Vec<u64> = Vec::new();
    while r.len() < 1024
        invariant
            r@.len() <= 1024,
            a@.len() == 1024,
            b@.len() == 1024,
            forall|k: int| 0 <= k < r@.len() ==> #[trigger] r@[k] == a@[k] | b@[k],
        decreases 1024 - r@.len(),
    {
        let k: usize = r.len();
        r.push(a[k] | b[k]);
    }
    proof {
        assert forall|v: u16| #[trigger] container::bit_set(r@, v as int) <==> container::bit_set(
            a@,
            v as int,
        ) || container::bit_set(b@, v as int) by {
            let x = a@[v as int / 64];
            let y = b@[v as int / 64];
            let t = (v % 64) as u64;
            assert(((x | y) >> t) & 1 == 1 <==> (x >> t) & 1 == 1 || (y >> t) & 1 == 1)
                by (bit_vector)
                requires
                    t < 64,
            ;
        }
    }
    r
}

/// The numbers in both of two arrays in order.
fn intersect_arrays(a: &[u16], b: &[u16]) -> (r: Vec<u16>)
    requires
        container::strictly(a@),
        container::strictly(b@),
    ensures
        container::strictly(r@),
        forall|v: u16| #[trigger] r@.contains(v) <==> a@.contains(v) && b@.contains(v),
{
    let mut r: Vec<u16> = Vec::new();
    let mut i: usize = 0;
    let mut j: usize = 0;
    while i < a.len() && j < b.len()
        invariant
            i <= a@.len(),
            j <= b@.len(),
            container::strictly(a@),
            container::strictly(b@),
            container::strictly(r@),
            forall|k: int| 0 <= k < r@.len() ==> (#[trigger] r@[k]) < 0x1_0000,
            forall|k: int, m: int| 0 <= k < r@.len() && i <= m < a@.len() ==> r@[k] < a@[m],
            forall|k: int|
                0 <= k < r@.len() ==> a@.contains(#[trigger] r@[k]) && b@.contains(r@[k]),
            forall|x: int, y: int|
                0 <= x < a@.len() && 0 <= y < b@.len() && a@[x] == b@[y] && (x < i || y < j)
                    ==> r@.contains(#[trigger] a@[x]) || #[trigger] b@[y] != a@[x],
        decreases a@.len() - i + b@.len() - j,
    {
        let ghost before = r@;
        if a[i] < b[j] {
            proof {
                assert forall|x: int, y: int|
                    0 <= x < a@.len() && 0 <= y < b@.len() && a@[x] == b@[y] && (x < i + 1 || y
                        < j) implies r@.contains(#[trigger] a@[x]) || #[trigger] b@[y]
                    != a@[x] by {
                    if x == i && y > j {
                        assert(b@[j as int] < b@[y]);
                    }
                }
            }
            i = i + 1;
        } else if a[i] > b[j] {
            proof {
                assert forall|x: int, y: int|
                    0 <= x < a@.len() && 0 <= y < b@.len() && a@[x] == b@[y] && (x < i || y < j
                        + 1) implies r@.contains(#[trigger] a@[x]) || #[trigger] b@[y]
                    != a@[x] by {
                    if y == j && x > i {
                        assert(a@[i as int] < a@[x]);
                    }
                }
            }
            j = j + 1;
        } else {
            let v: u16 = a[i];
            r.push(v);
            proof {
                assert(a@[i as int] == v && b@[j as int] == v);
                assert(a@.contains(v) && b@.contains(v));
                assert forall|k: int| 0 <= k < r@.len() implies a@.contains(#[trigger] r@[k])
                    && b@.contains(r@[k]) by {
                    if k < before.len() {
                        assert(before[k] == r@[k]);
                    }
                }
                assert forall|x: int, y: int|
                    0 <= x < a@.len() && 0 <= y < b@.len() && a@[x] == b@[y] && (x < i + 1 || y < j
                        + 1) implies r@.contains(#[trigger] a@[x]) || #[trigger] b@[y]
                    != a@[x] by {
                    if x < i || y < j {
                        assert(before.contains(a@[x]));
                        let k = choose|k: int| 0 <= k < before.len() && before[k] == a@[x];
                        assert(r@[k] == a@[x]);
                    } else if x == i {
                        assert(r@[before.len() as int] == a@[x]);
                    } else {
                        assert(a@[i as int] < a@[x]);
                    }
                }
                assert forall|k: int, m: int|
                    0 <= k < r@.len() && i + 1 <= m < a@.len() implies r@[k] < a@[m] by {
                    assert(a@[i as int] < a@[m]);
                }
            }
            i = i + 1;
            j = j + 1;
        }
    }
    proof {
        assert forall|v: u16| #[trigger] r@.contains(v) <==> a@.contains(v) && b@.contains(v) by {
            if r@.contains(v) {
                let k = choose|k: int| 0 <= k < r@.len() && r@[k] == v;
                assert(a@.contains(r@[k]));
            }
            if a@.contains(v) && b@.contains(v) {
                let x = choose|x: int| 0 <= x < a@.len() && a@[x] == v;
                let y = choose|y: int| 0 <= y < b@.len() && b@[y] == v;
                assert(x < i || y < j);
                assert(r@.contains(a@[x]) || b@[y] != a@[x]);
            }
        }
    }
    r
}

/// Adding a larger number.
proof fn pushed(before: Seq<u16>, v: u16)
    ensures
        forall|x: u16| #[trigger] before.push(v).contains(x) <==> x == v || before.contains(x),
{
    let after = before.push(v);
    assert forall|x: u16| #[trigger] after.contains(x) <==> x == v || before.contains(x) by {
        if after.contains(x) && x != v {
            let k = choose|k: int| 0 <= k < after.len() && after[k] == x;
            assert(before[k] == x);
        }
        if before.contains(x) {
            let k = choose|k: int| 0 <= k < before.len() && before[k] == x;
            assert(after[k] == x);
        }
        if x == v {
            assert(after[before.len() as int] == x);
        }
    }
}

/// The numbers in either of two arrays in order.
fn union_arrays(a: &[u16], b: &[u16]) -> (r: Vec<u16>)
    requires
        container::strictly(a@),
        container::strictly(b@),
    ensures
        container::strictly(r@),
        forall|v: u16| #[trigger] r@.contains(v) <==> a@.contains(v) || b@.contains(v),
{
    let mut r: Vec<u16> = Vec::new();
    let mut i: usize = 0;
    let mut j: usize = 0;
    proof {
        assert(a@.take(0) =~= Seq::empty());
        assert(b@.take(0) =~= Seq::empty());
    }
    while i < a.len() || j < b.len()
        invariant
            i <= a@.len(),
            j <= b@.len(),
            container::strictly(a@),
            container::strictly(b@),
            container::strictly(r@),
            forall|k: int, m: int| 0 <= k < r@.len() && i <= m < a@.len() ==> r@[k] < a@[m],
            forall|k: int, m: int| 0 <= k < r@.len() && j <= m < b@.len() ==> r@[k] < b@[m],
            forall|v: u16|
                #[trigger] r@.contains(v) <==> a@.take(i as int).contains(v) || b@.take(
                    j as int,
                ).contains(v),
        decreases a@.len() - i + b@.len() - j,
    {
        let ghost before = r@;
        let from_a: bool = i < a.len() && (j >= b.len() || a[i] <= b[j]);
        let from_b: bool = j < b.len() && (i >= a.len() || b[j] <= a[i]);
        let v: u16 = if from_a {
            a[i]
        } else {
            b[j]
        };
        r.push(v);
        proof {
            pushed(before, v);
            if from_a {
                assert(a@.take(i + 1) =~= a@.take(i as int).push(v));
                pushed(a@.take(i as int), v);
                assert forall|m: int| i + 1 <= m < a@.len() implies v < a@[m] by {
                    assert(a@[i as int] < a@[m]);
                }
            }
            if from_b {
                assert(b@.take(j + 1) =~= b@.take(j as int).push(v));
                pushed(b@.take(j as int), v);
                assert forall|m: int| j + 1 <= m < b@.len() implies v < b@[m] by {
                    assert(b@[j as int] < b@[m]);
                }
            }
            if !from_b && j < b@.len() {
                assert forall|m: int| j <= m < b@.len() implies v < b@[m] by {
                    if m > j {
                        assert(b@[j as int] < b@[m]);
                    }
                }
            }
            if !from_a && i < a@.len() {
                assert forall|m: int| i <= m < a@.len() implies v < a@[m] by {
                    if m > i {
                        assert(a@[i as int] < a@[m]);
                    }
                }
            }
        }
        if from_a {
            i = i + 1;
        }
        if from_b {
            j = j + 1;
        }
    }
    proof {
        assert(a@.take(a@.len() as int) =~= a@);
        assert(b@.take(b@.len() as int) =~= b@);
    }
    r
}

/// No runs give values in fewer runs than are counted.
pub proof fn run_count_is_least(runs: Seq<(u16, u16)>, n: int)
    requires
        container::runs_ok(runs),
        0 <= n <= runs.len(),
    ensures
        ({
            let s = container::run_values(runs, n);
            container::run_count(s, s.len() as int) <= n
        }),
    decreases n,
{
    if n > 0 {
        run_count_is_least(runs, n - 1);
        let less = container::run_values(runs, n - 1);
        let run = container::run_range(runs[n - 1]);
        run_adds_one(less, runs[n - 1], run.len() as int);
        assert((less + run).take((less.len() + run.len()) as int) =~= less + run);
    }
}

/// A run adds at most one to the runs of what stands before it.
proof fn run_adds_one(s: Seq<u16>, run: (u16, u16), n: int)
    requires
        0 <= n <= run.1 + 1,
        run.0 + run.1 <= 0xFFFF,
    ensures
        container::run_count(s + container::run_range(run), s.len() + n) <= container::run_count(
            s,
            s.len() as int,
        ) + 1,
        n == 0 ==> container::run_count(s + container::run_range(run), s.len() + n)
            <= container::run_count(s, s.len() as int),
    decreases n,
{
    let all = s + container::run_range(run);
    if n == 0 {
        count_of_prefix(s, all, s.len() as int);
    } else {
        run_adds_one(s, run, n - 1);
        if n > 1 {
            assert(all[s.len() + n - 1] == run.0 + n - 1);
            assert(all[s.len() + n - 2] == run.0 + n - 2);
        }
    }
}

proof fn count_of_prefix(a: Seq<u16>, b: Seq<u16>, n: int)
    requires
        0 <= n <= a.len(),
        n <= b.len(),
        forall|i: int| 0 <= i < n ==> a[i] == b[i],
    ensures
        container::run_count(a, n) == container::run_count(b, n),
    decreases n,
{
    if n > 0 {
        count_of_prefix(a, b, n - 1);
    }
}

/// Values up to the most that an array takes are kept in the form that takes
/// the fewest bytes, with two for each value and four for each run, and as
/// an array where there is no difference or fewer than four values. More
/// values are kept as bits.
pub proof fn optimal_is_smallest(c: Container, s: Seq<u16>)
    requires
        is_optimal(c, s),
    ensures
        s.len() > 4096 <==> c is Bitmap,
        c matches Container::Runs(runs) ==> 4 * runs@.len() < 2 * s.len() && s.len() >= 4,
        c is Array && s.len() >= 4 ==> forall|runs: Seq<(u16, u16)>|
            container::runs_ok(runs) && #[trigger] container::run_values(runs, runs.len() as int)
                == s ==> 4 * runs.len() >= 2 * s.len(),
{
    assert forall|runs: Seq<(u16, u16)>|
        container::runs_ok(runs) && #[trigger] container::run_values(runs, runs.len() as int)
            == s implies container::run_count(s, s.len() as int) <= runs.len() by {
        run_count_is_least(runs, runs.len() as int);
    }
}

} // verus!
