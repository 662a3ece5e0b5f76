//! Sets of 16-bit numbers, kept as a sorted array, a bitmap or runs.
use vstd::prelude::*;

verus! {

/// Most numbers of a set that is kept as an array.
pub const ARRAY_TO_BITMAP_THRESHOLD: usize = 4096;

/// A set of 16-bit numbers.
#[derive(Debug)]
pub enum Container {
    /// The numbers in order.
    Array(Vec<u16>),
    /// One bit for every number there is.
    Bitmap(Vec<u64>),
    /// First number of a run, and how many follow it.
    Runs(Vec<(u16, u16)>),
}

/// Whether numbers are in order, each once.
pub open spec fn strictly(s: Seq<u16>) -> bool {
    forall|i: int, j: int| 0 <= i < j < s.len() ==> s[i] < s[j]
}

/// Whether bit `v` of a bitmap is set.
pub open spec fn bit_set(words: Seq<u64>, v: int) -> bool {
    (words[v / 64] >> ((v % 64) as u64)) & 1 == 1
}

/// The numbers below `n` that a bitmap holds, in order.
pub open spec fn bitmap_values(words: Seq<u64>, n: int) -> Seq<u16>
    decreases n,
{
    if n <= 0 {
        Seq::empty()
    } else if bit_set(words, n - 1) {
        bitmap_values(words, n - 1).push((n - 1) as u16)
    } else {
        bitmap_values(words, n - 1)
    }
}

/// The numbers of one run.
pub open spec fn run_range(run: (u16, u16)) -> Seq<u16> {
    Seq::new((run.1 + 1) as nat, |i: int| (run.0 + i) as u16)
}

/// The numbers of the first `n` runs.
pub open spec fn run_values(runs: Seq<(u16, u16)>, n: int) -> Seq<u16>
    decreases n,
{
    if n <= 0 {
        Seq::empty()
    } else {
        run_values(runs, n - 1) + run_range(runs[n - 1])
    }
}

/// Whether runs stay in range, in order and apart.
pub open spec fn runs_ok(runs: Seq<(u16, u16)>) -> bool {
    &&& forall|i: int| 0 <= i < runs.len() ==> (#[trigger] runs[i]).0 + runs[i].1 <= 0xFFFF
    &&& forall|i: int, j: int|
        0 <= i < j < runs.len() ==> runs[i].0 + runs[i].1 < (#[trigger] runs[j]).0 && (
        #[trigger] runs[i]).0 <= 0xFFFF
}

/// Number of runs that the first `n` numbers fall into.
pub open spec fn run_count(s: Seq<u16>, n: int) -> int
    decreases n,
{
    if n <= 0 {
        0
    } else if n > 1 && s[n - 1] == s[n - 2] + 1 {
        run_count(s, n - 1)
    } else {
        run_count(s, n - 1) + 1
    }
}

/// There are no more runs than numbers.
pub proof fn run_count_bound(s: Seq<u16>, n: int)
    requires
        0 <= n,
    ensures
        0 <= run_count(s, n) <= n,
    decreases n,
{
    if n > 0 {
        run_count_bound(s, n - 1);
    }
}

impl Container {
    /// The numbers of the set, in order.
    pub open spec fn values(&self) -> Seq<u16> {
        match self {
            Container::Array(a) => a@,
            Container::Bitmap(words) => bitmap_values(words@, 0x1_0000),
            Container::Runs(runs) => run_values(runs@, runs@.len() as int),
        }
    }

    /// Whether the parts make sense.
    pub open spec fn wf(&self) -> bool {
        match self {
            Container::Array(a) => strictly(a@),
            Container::Bitmap(words) => words@.len() == 1024,
            Container::Runs(runs) => runs_ok(runs@),
        }
    }

    pub open spec fn has(&self, v: u16) -> bool {
        self.values().contains(v)
    }
}

/// What a bitmap holds.
pub proof fn bitmap_members(words: Seq<u64>, n: int)
    requires
        0 <= n <= 0x1_0000,
    ensures
        strictly(bitmap_values(words, n)),
        bitmap_values(words, n).len() <= n,
        forall|v: u16|
            #[trigger] bitmap_values(words, n).contains(v) <==> v < n && bit_set(words, v as int),
        forall|i: int|
            0 <= i < bitmap_values(words, n).len() ==> (#[trigger] bitmap_values(words, n)[i]) < n,
    decreases n,
{
    if n > 0 {
        bitmap_members(words, n - 1);
        let before = bitmap_values(words, n - 1);
        let after = bitmap_values(words, n);
        assert forall|v: u16| #[trigger] after.contains(v) <==> v < n && bit_set(
            words,
            v as int,
        ) by {
            if after.contains(v) {
                let i = choose|i: int| 0 <= i < after.len() && after[i] == v;
                if i < before.len() {
                    assert(before[i] == v);
                    assert(before.contains(v));
                }
            }
            if v < n && bit_set(words, v as int) {
                if v < n - 1 {
                    assert(before.contains(v));
                    let i = choose|i: int| 0 <= i < before.len() && before[i] == v;
                    assert(after[i] == v);
                } else {
                    assert(after[before.len() as int] == v);
                }
            }
        }
    }
}

/// What runs hold.
pub proof fn run_members(runs: Seq<(u16, u16)>, n: int)
    requires
        runs_ok(runs),
        0 <= n <= runs.len(),
    ensures
        strictly(run_values(runs, n)),
        forall|v: u16|
            #[trigger] run_values(runs, n).contains(v) <==> exists|k: int|
                0 <= k < n && (#[trigger] runs[k]).0 <= v <= runs[k].0 + runs[k].1,
        forall|i: int|
            0 <= i < run_values(runs, n).len() ==> n > 0 && (#[trigger] run_values(runs, n)[i])
                <= runs[n - 1].0 + runs[n - 1].1,
    decreases n,
{
    if n > 0 {
        run_members(runs, n - 1);
        let before = run_values(runs, n - 1);
        let range = run_range(runs[n - 1]);
        let after = run_values(runs, n);
        let run = runs[n - 1];
        assert(run.0 + run.1 <= 0xFFFF);
        assert forall|i: int, j: int| 0 <= i < j < after.len() implies after[i] < after[j] by {
            if j >= before.len() {
                assert(after[j] == range[j - before.len()]);
                if i < before.len() {
                    assert(before[i] <= runs[n - 2].0 + runs[n - 2].1);
                    assert(runs[n - 2].0 + runs[n - 2].1 < runs[n - 1].0);
                } else {
                    assert(after[i] == range[i - before.len()]);
                }
            } else {
                assert(before[i] < before[j]);
            }
        }
        assert forall|i: int| 0 <= i < after.len() implies (#[trigger] after[i]) <= run.0
            + run.1 by {
            if i < before.len() {
                assert(before[i] <= runs[n - 2].0 + runs[n - 2].1);
                assert(runs[n - 2].0 + runs[n - 2].1 < runs[n - 1].0);
            } else {
                assert(after[i] == range[i - before.len()]);
            }
        }
        assert forall|v: u16| #[trigger] after.contains(v) <==> exists|k: int|
            0 <= k < n && (#[trigger] runs[k]).0 <= v <= runs[k].0 + runs[k].1 by {
            if after.contains(v) {
                let i = choose|i: int| 0 <= i < after.len() && after[i] == v;
                if i < before.len() {
                    assert(before[i] == v);
                    assert(before.contains(v));
                } else {
                    assert(after[i] == range[i - before.len()]);
                    assert(runs[n - 1].0 <= v <= runs[n - 1].0 + runs[n - 1].1);
                }
            }
            if exists|k: int| 0 <= k < n && (#[trigger] runs[k]).0 <= v <= runs[k].0 + runs[k].1 {
                let k = choose|k: int|
                    0 <= k < n && (#[trigger] runs[k]).0 <= v <= runs[k].0 + runs[k].1;
                if k < n - 1 {
                    assert(before.contains(v));
                    let i = choose|i: int| 0 <= i < before.len() && before[i] == v;
                    assert(after[i] == v);
                } else {
                    assert(after[before.len() + (v - run.0)] == v);
                }
            }
        }
    }
}

/// The numbers of a set are in order, and no more than there are.
pub proof fn values_ok(c: Container)
    requires
        c.wf(),
    ensures
        strictly(c.values()),
        c.values().len() <= 0x1_0000,
{
    match c {
        Container::Array(a) => {},
        Container::Bitmap(words) => {
            bitmap_members(words@, 0x1_0000);
        },
        Container::Runs(runs) => {
            run_members(runs@, runs@.len() as int);
        },
    }
    strictly_len(c.values(), c.values().len() as int);
}

/// Numbers in order are at least as large as their places.
proof fn strictly_len(s: Seq<u16>, n: int)
    requires
        strictly(s),
        0 <= n <= s.len(),
    ensures
        n <= 0x1_0000,
        n > 0 ==> s[n - 1] >= n - 1,
    decreases n,
{
    if n > 0 {
        strictly_len(s, n - 1);
        if n > 1 {
            assert(s[n - 2] < s[n - 1]);
        }
    }
}

/// Numbers in order are known by which they are.
pub proof fn same_members(a: Seq<u16>, b: Seq<u16>)
    requires
        strictly(a),
        strictly(b),
        forall|v: u16| a.contains(v) <==> b.contains(v),
    ensures
        a == b,
    decreases a.len(),
{
    if a.len() == 0 {
        if b.len() > 0 {
            assert(b.contains(b[0]));
        }
        assert(a =~= b);
    } else {
        assert(a.contains(a[a.len() - 1]));
        assert(b.contains(a.last()));
        assert(b.len() > 0);
        assert(b.contains(b[b.len() - 1]));
        assert(a.contains(b.last()));
        let i = choose|i: int| 0 <= i < b.len() && b[i] == a.last();
        let j = choose|j: int| 0 <= j < a.len() && a[j] == b.last();
        if i < b.len() - 1 {
            assert(b[i] < b[b.len() - 1]);
        }
        if j < a.len() - 1 {
            assert(a[j] < a[a.len() - 1]);
        }
        assert(a.last() == b.last());
        let x = a.drop_last();
        let y = b.drop_last();
        assert forall|v: u16| x.contains(v) <==> y.contains(v) by {
            if x.contains(v) {
                let k = choose|k: int| 0 <= k < x.len() && x[k] == v;
                assert(a[k] < a[a.len() - 1]);
                assert(a.contains(v));
                let m = choose|m: int| 0 <= m < b.len() && b[m] == v;
                assert(y[m] == v);
            }
            if y.contains(v) {
                let k = choose|k: int| 0 <= k < y.len() && y[k] == v;
                assert(b[k] < b[b.len() - 1]);
                assert(b.contains(v));
                let m = choose|m: int| 0 <= m < a.len() && a[m] == v;
                assert(x[m] == v);
            }
        }
        same_members(x, y);
        assert(a =~= x.push(a.last()));
        assert(b =~= y.push(b.last()));
    }
}

/// Setting a bit sets that bit, and changes the word if it was not set.
pub proof fn bit_of_or(w: u64, s: u64, t: u64)
    requires
        s < 64,
        t < 64,
    ensures
        ((w | (1u64 << s)) >> t) & 1 == 1 <==> (s == t || (w >> t) & 1 == 1),
        (w | (1u64 << s)) == w <==> (w >> s) & 1 == 1,
{
    assert(((w | (1u64 << s)) >> t) & 1 == 1 <==> (s == t || (w >> t) & 1 == 1)) by (bit_vector)
        requires
            s < 64,
            t < 64,
    ;
    assert((w | (1u64 << s)) == w <==> (w >> s) & 1 == 1) by (bit_vector)
        requires
            s < 64,
    ;
}

/// Position of a number in an array in order, or where it would be.
fn search(a: &[u16], v: u16) -> (r: (bool, usize))
    requires
        strictly(a@),
    ensures
        r.0 == a@.contains(v),
        r.1 <= a@.len(),
        r.0 ==> r.1 < a@.len() && a@[r.1 as int] == v,
        forall|i: int| 0 <= i < r.1 ==> a@[i] < v,
        !r.0 ==> forall|i: int| r.1 <= i < a@.len() ==> a@[i] > v,
{
    let mut lo: usize = 0;
    let mut hi: usize = a.len();
    while lo < hi
        invariant
            lo <= hi <= a@.len(),
            strictly(a@),
            forall|i: int| 0 <= i < lo ==> a@[i] < v,
            forall|i: int| hi <= i < a@.len() ==> a@[i] >= v,
        decreases hi - lo,
    {
        let mid: usize = lo + (hi - lo) / 2;
        if a[mid] < v {
            proof {
                assert forall|i: int| 0 <= i < mid + 1 implies a@[i] < v by {
                    if i < mid {
                        assert(a@[i] < a@[mid as int]);
                    }
                }
            }
            lo = mid + 1;
        } else {
            proof {
                assert forall|i: int| mid <= i < a@.len() implies a@[i] >= v by {
                    if i > mid {
                        assert(a@[mid as int] < a@[i]);
                    }
                }
            }
            hi = mid;
        }
    }
    let found: bool = lo < a.len() && a[lo] == v;
    proof {
        if a@.contains(v) {
            let i = choose|i: int| 0 <= i < a@.len() && a@[i] == v;
            if i > lo {
                assert(a@[lo as int] < a@[i]);
            }
        }
        if !found && lo < a@.len() {
            assert forall|i: int| lo <= i < a@.len() implies a@[i] > v by {
                if i > lo {
                    assert(a@[lo as int] < a@[i]);
                }
            }
        }
    }
    (found, lo)
}

/// A number put in its place keeps an array in order.
proof fn inserted(a: Seq<u16>, at: int, v: u16)
    requires
        strictly(a),
        0 <= at <= a.len(),
        forall|i: int| 0 <= i < at ==> a[i] < v,
        forall|i: int| at <= i < a.len() ==> a[i] > v,
    ensures
        strictly(a.insert(at, v)),
        forall|x: u16| #[trigger] a.insert(at, v).contains(x) <==> x == v || a.contains(x),
{
    let b = a.insert(at, v);
    assert forall|i: int, j: int| 0 <= i < j < b.len() implies b[i] < b[j] by {
        let x = if i < at {
            i
        } else {
            i - 1
        };
        let y = if j < at {
            j
        } else {
            j - 1
        };
        if i != at && j != at {
            assert(a[x] < a[y]);
        }
    }
    assert forall|x: u16| #[trigger] b.contains(x) <==> x == v || a.contains(x) by {
        if b.contains(x) {
            let i = choose|i: int| 0 <= i < b.len() && b[i] == x;
            if i < at {
                assert(a[i] == x);
            } else if i > at {
                assert(a[i - 1] == x);
            }
        }
        if x == v {
            assert(b[at] == v);
        }
        if a.contains(x) {
            let i = choose|i: int| 0 <= i < a.len() && a[i] == x;
            if i < at {
                assert(b[i] == x);
            } else {
                assert(b[i + 1] == x);
            }
        }
    }
}

impl Container {
    pub fn new_array() -> (r: Self)
        ensures
            r == Container::Array(r->Array_0),
            r.values() == Seq::<u16>::empty(),
            r.wf(),
    {
        Container::Array(Vec::new())
    }

    /// Number of members.
    pub fn cardinality(&self) -> (r: u32)
        requires
            self.wf(),
        ensures
            r == self.values().len(),
    {
        proof {
            values_ok(*self);
        }
        match self {
            Container::Array(a) => a.len() as u32,
            Container::Bitmap(words) => bitmap_cardinality(words.as_slice()),
            Container::Runs(runs) => {
                let mut total: u32 = 0;
                let mut i: usize = 0;
                while i < runs.len()
                    invariant
                        i <= runs@.len(),
                        total == run_values(runs@, i as int).len(),
                        run_values(runs@, runs@.len() as int).len() <= 0x1_0000,
                    decreases runs@.len() - i,
                {
                    proof {
                        run_len_grows(runs@, i + 1, runs@.len() as int);
                    }
                    total = total + runs[i].1 as u32 + 1;
                    i = i + 1;
                }
                total
            },
        }
    }

    /// Whether a number is a member.
    pub fn contains(&self, val: u16) -> (r: bool)
        requires
            self.wf(),
        ensures
            r == self.has(val),
    {
        match self {
            Container::Array(a) => {
                let (found, _at): (bool, usize) = search(a.as_slice(), val);
                found
            },
            Container::Bitmap(words) => {
                proof {
                    bitmap_members(words@, 0x1_0000);
                }
                let shift: u64 = (val % 64) as u64;
                (words[(val / 64) as usize] >> shift) & 1 == 1
            },
            Container::Runs(runs) => {
                proof {
                    run_members(runs@, runs@.len() as int);
                }
                let mut i: usize = 0;
                while i < runs.len()
                    invariant
                        i <= runs@.len(),
                        runs_ok(runs@),
                        forall|k: int|
                            0 <= k < i ==> !((#[trigger] runs@[k]).0 <= val <= runs@[k].0
                                + runs@[k].1),
                        self.has(val) <==> exists|k: int|
                            0 <= k < runs@.len() && (#[trigger] runs@[k]).0 <= val <= runs@[k].0
                                + runs@[k].1,
                    decreases runs@.len() - i,
                {
                    let (start, len): (u16, u16) = runs[i];
                    if val >= start && val as u32 <= start as u32 + len as u32 {
                        proof {
                            assert(runs@[i as int].0 <= val <= runs@[i as int].0
                                + runs@[i as int].1);
                        }
                        return true;
                    }
                    if val < start {
                        proof {
                            assert forall|k: int| 0 <= k < runs@.len() implies !((
                            #[trigger] runs@[k]).0 <= val <= runs@[k].0 + runs@[k].1) by {
                                if k > i {
                                    assert(runs@[i as int].0 + runs@[i as int].1 < runs@[k].0);
                                }
                            }
                        }
                        return false;
                    }
                    i = i + 1;
                }
                false
            },
        }
    }

    /// Add a number; gives whether it was new. Runs become an array.
    pub fn insert(&mut self, val: u16) -> (r: bool)
        requires
            old(self).wf(),
        ensures
            final(self).wf(),
            r == !old(self).has(val),
            forall|v: u16| #[trigger] final(self).has(v) <==> v == val || old(self).has(v),
            *old(self) is Bitmap ==> *final(self) is Bitmap,
            !(*old(self) is Bitmap) ==> *final(self) is Array,
    {
        let mut own: Container = Container::Array(Vec::new());
        std::mem::swap(&mut own, self);
        let ghost before = own;
        match own {
            Container::Bitmap(w) => {
                let mut words: Vec<u64> = w;
                let ghost was = words@;
                proof {
                    bitmap_members(words@, 0x1_0000);
                }
                let at: usize = (val / 64) as usize;
                let shift: u64 = (val % 64) as u64;
                let old_word: u64 = words[at];
                let new_word: u64 = old_word | (1u64 << shift);
                words.set(at, new_word);
                proof {
                    bit_of_or(old_word, shift, shift);
                    bitmap_members(words@, 0x1_0000);
                    assert forall|v: u16| #[trigger] bit_set(words@, v as int) <==> v == val
                        || bit_set(was, v as int) by {
                        let t = (v % 64) as u64;
                        bit_of_or(old_word, shift, t);
                        if v / 64 == val / 64 && v % 64 == val % 64 {
                            assert(v == val);
                        }
                    }
                }
                *self = Container::Bitmap(words);
                old_word != new_word
            },
            Container::Array(a) => {
                let mut arr: Vec<u16> = a;
                insert_sorted(&mut arr, val, self)
            },
            Container::Runs(runs) => {
                let c = Container::Runs(runs);
                let mut arr: Vec<u16> = c.to_array();
                insert_sorted(&mut arr, val, self)
            },
        }
    }

    /// The numbers in order.
    pub fn to_array(&self) -> (r: Vec<u16>)
        requires
            self.wf(),
        ensures
            r@ == self.values(),
            strictly(r@),
    {
        proof {
            values_ok(*self);
        }
        let mut out: Vec<u16> = Vec::new();
        match self {
            Container::Array(a) => {
                let mut i: usize = 0;
                while i < a.len()
                    invariant
                        i <= a@.len(),
                        out@ == a@.take(i as int),
                    decreases a@.len() - i,
                {
                    out.push(a[i]);
                    proof {
                        assert(out@ =~= a@.take(i + 1));
                    }
                    i = i + 1;
                }
                proof {
                    assert(out@ =~= a@);
                }
            },
            Container::Bitmap(words) => {
                let mut v: u32 = 0;
                while v < 0x1_0000
                    invariant
                        v <= 0x1_0000,
                        words@.len() == 1024,
                        out@ == bitmap_values(words@, v as int),
                    decreases 0x1_0000 - v,
                {
                    let shift: u64 = (v % 64) as u64;
                    if (words[(v / 64) as usize] >> shift) & 1 == 1 {
                        out.push(v as u16);
                    }
                    v = v + 1;
                }
            },
            Container::Runs(runs) => {
                let mut i: usize = 0;
                while i < runs.len()
                    invariant
                        i <= runs@.len(),
                        runs_ok(runs@),
                        out@ == run_values(runs@, i as int),
                    decreases runs@.len() - i,
                {
                    let (start, len): (u16, u16) = runs[i];
                    let ghost before = out@;
                    let ghost range = run_range(runs@[i as int]);
                    let mut k: u32 = 0;
                    while k <= len as u32
                        invariant
                            k <= len + 1,
                            start + len <= 0xFFFF,
                            range == run_range((start, len)),
                            out@ == before + range.take(k as int),
                        decreases len + 1 - k,
                    {
                        out.push((start as u32 + k) as u16);
                        proof {
                            assert(out@ =~= before + range.take(k + 1));
                        }
                        k = k + 1;
                    }
                    proof {
                        assert(range.take(len + 1) =~= range);
                    }
                    i = i + 1;
                }
            },
        }
        out
    }

    /// Whether the parts make sense.
    pub fn is_valid(&self) -> (r: bool)
        ensures
            r == self.wf(),
    {
        match self {
            Container::Array(a) => array_valid(a.as_slice()),
            Container::Bitmap(words) => words.len() == 1024,
            Container::Runs(runs) => runs_valid(runs.as_slice()),
        }
    }
}

/// Whether numbers are in order, each once.
fn array_valid(a: &[u16]) -> (r: bool)
    ensures
        r == strictly(a@),
{
    let mut i: usize = 1;
    while i < a.len()
        invariant
            1 <= i,
            i <= a@.len() || a@.len() == 0,
            forall|x: int, y: int| 0 <= x < y < i && y < a@.len() ==> a@[x] < a@[y],
        decreases a@.len() - i,
    {
        if a[i - 1] >= a[i] {
            proof {
                assert(!(a@[i - 1] < a@[i as int]));
            }
            return false;
        }
        proof {
            assert forall|x: int, y: int| 0 <= x < y < i + 1 && y
                < a@.len() implies a@[x] < a@[y] by {
                if y == i && x < i - 1 {
                    assert(a@[x] < a@[i - 1]);
                }
            }
        }
        i = i + 1;
    }
    true
}

/// Whether runs stay in range, in order and apart.
fn runs_valid(runs: &[(u16, u16)]) -> (r: bool)
    ensures
        r == runs_ok(runs@),
{
    let mut i: usize = 0;
    while i < runs.len()
        invariant
            i <= runs@.len(),
            runs_ok(runs@.take(i as int)),
        decreases runs@.len() - i,
    {
        let ghost seen = runs@.take(i as int);
        let ghost more = runs@.take(i + 1);
        let (start, len): (u16, u16) = runs[i];
        if start as u32 + len as u32 > 0xFFFF {
            proof {
                assert(runs@[i as int].0 + runs@[i as int].1 > 0xFFFF);
            }
            return false;
        }
        if i > 0 {
            let (before, size): (u16, u16) = runs[i - 1];
            if before as u32 + size as u32 >= start as u32 {
                proof {
                    assert(!(runs@[i - 1].0 + runs@[i - 1].1 < runs@[i as int].0));
                }
                return false;
            }
        }
        proof {
            assert forall|x: int| 0 <= x < more.len() implies (#[trigger] more[x]).0
                + more[x].1 <= 0xFFFF by {
                if x < i {
                    assert(seen[x].0 + seen[x].1 <= 0xFFFF);
                }
            }
            assert forall|x: int, y: int| 0 <= x < y < more.len() implies more[x].0
                + more[x].1 < (#[trigger] more[y]).0 && (#[trigger] more[x]).0
                <= 0xFFFF by {
                if y < i {
                    assert(seen[x].0 + seen[x].1 < seen[y].0 && seen[x].0 <= 0xFFFF);
                } else if x < i - 1 {
                    assert(seen[x].0 + seen[x].1 < seen[i - 1].0 && seen[x].0
                        <= 0xFFFF);
                }
            }
        }
        i = i + 1;
    }
    proof {
        assert(runs@.take(runs@.len() as int) =~= runs@);
    }
    true
}

/// Add a number to an array and make it the set.
fn insert_sorted(arr: &mut Vec<u16>, val: u16, c: &mut Container) -> (r: bool)
    requires
        strictly(old(arr)@),
    ensures
        *final(c) is Array,
        final(c).wf(),
        r == !old(arr)@.contains(val),
        forall|v: u16| #[trigger] final(c).has(v) <==> v == val || old(arr)@.contains(v),
{
    let mut own: Vec<u16> = Vec::new();
    std::mem::swap(&mut own, arr);
    let (found, at): (bool, usize) = search(own.as_slice(), val);
    if !found {
        proof {
            inserted(own@, at as int, val);
        }
        own.insert(at, val);
    }
    *c = Container::Array(own);
    !found
}

/// The numbers of the first runs depend on those runs alone.
pub proof fn runs_same(a: Seq<(u16, u16)>, b: Seq<(u16, u16)>, n: int)
    requires
        0 <= n <= a.len(),
        n <= b.len(),
        forall|i: int| 0 <= i < n ==> a[i] == b[i],
    ensures
        run_values(a, n) == run_values(b, n),
    decreases n,
{
    if n > 0 {
        runs_same(a, b, n - 1);
    }
}

proof fn run_len_grows(runs: Seq<(u16, u16)>, i: int, j: int)
    requires
        0 <= i <= j,
    ensures
        run_values(runs, i).len() <= run_values(runs, j).len(),
    decreases j,
{
    if i < j {
        run_len_grows(runs, i, j - 1);
    }
}

/// Number of bits that are set.
fn bitmap_cardinality(words: &[u64]) -> (r: u32)
    requires
        words@.len() == 1024,
    ensures
        r == bitmap_values(words@, 0x1_0000).len(),
{
    let mut total: u32 = 0;
    let mut v: u32 = 0;
    while v < 0x1_0000
        invariant
            v <= 0x1_0000,
            words@.len() == 1024,
            total <= v,
            total == bitmap_values(words@, v as int).len(),
        decreases 0x1_0000 - v,
    {
        let shift: u64 = (v % 64) as u64;
        if (words[(v / 64) as usize] >> shift) & 1 == 1 {
            total = total + 1;
        }
        v = v + 1;
    }
    total
}

} // verus!
