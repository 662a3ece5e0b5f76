//! What sorting and filtering a vector's entries keep.
use crate::sparse_config::INFINITY;
use crate::sparse_config::SIGN;
use crate::sparse_vector;
use crate::sparse_vector::SparseEntry;
use vstd::prelude::*;

verus! {

/// How often an entry occurs.
pub open spec fn times(s: Seq<SparseEntry>, e: SparseEntry) -> nat
    decreases s.len(),
{
    if s.len() == 0 {
        0
    } else {
        times(s.drop_last(), e) + (if s.last() == e {
            1nat
        } else {
            0
        })
    }
}

/// A filter keeps what it passes as often as it occurs, and nothing else.
proof fn filter_keeps_times(s: Seq<SparseEntry>, pass: spec_fn(SparseEntry) -> bool, e: SparseEntry)
    ensures
        times(s.filter(pass), e) == (if pass(e) {
            times(s, e)
        } else {
            0
        }),
    decreases s.len(),
{
    reveal(Seq::filter);
    if s.len() > 0 {
        let less = s.drop_last();
        filter_keeps_times(less, pass, e);
        if pass(s.last()) {
            assert(s.filter(pass) == less.filter(pass).push(s.last()));
            assert(s.filter(pass).drop_last() =~= less.filter(pass));
        }
    }
}

/// Sorting keeps every entry as often as it occurs.
pub proof fn sorting_keeps_entries(
    before: Seq<SparseEntry>,
    after: Seq<SparseEntry>,
    by_weight: bool,
    e: SparseEntry,
)
    requires
        sparse_vector::is_sorting(before, after, by_weight),
    ensures
        times(after, e) == times(before, e),
        after.len() == before.len(),
{
    let key = sparse_vector::sort_key(e, by_weight);
    let pass = |x: SparseEntry| sparse_vector::sort_key(x, by_weight) == key;
    filter_keeps_times(before, pass, e);
    filter_keeps_times(after, pass, e);
    assert(sparse_vector::with_key(after, by_weight, key) == sparse_vector::with_key(
        before,
        by_weight,
        key,
    ));
}

/// Entries are sorted by dimension, smallest first, or by weight, largest
/// first: positive weights by their bits, before the negative ones.
pub proof fn sorted_entries_follow(
    before: Seq<SparseEntry>,
    after: Seq<SparseEntry>,
    by_weight: bool,
    i: int,
    j: int,
)
    requires
        sparse_vector::is_sorting(before, after, by_weight),
        0 <= i < j < after.len(),
    ensures
        !by_weight ==> after[i].dim_id <= after[j].dim_id,
        by_weight ==> {
            let x = after[i].weight;
            let y = after[j].weight;
            &&& x < SIGN && y < SIGN ==> x >= y
            &&& x >= SIGN && y >= SIGN ==> x <= y
            &&& x >= SIGN && y < SIGN ==> x == SIGN && y == 0
        },
{
    assert(sparse_vector::sort_key(after[i], by_weight) <= sparse_vector::sort_key(
        after[j],
        by_weight,
    ));
}

/// The entries that a filter keeps are those with a magnitude of at least
/// the least weight, or with any weight where the least is below zero. What
/// is no number is not kept.
pub proof fn filter_keeps_heavy(e: SparseEntry, min: u32)
    ensures
        min <= INFINITY ==> (sparse_vector::keeps(e, min) <==> min <= e.weight % SIGN <= INFINITY),
        SIGN <= min && min % SIGN <= INFINITY ==> (sparse_vector::keeps(e, min) <==> e.weight % SIGN
            <= INFINITY),
        min % SIGN > INFINITY ==> !sparse_vector::keeps(e, min),
{
}

} // verus!
