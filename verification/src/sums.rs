//! Sums of per-position values over groups of positions, the laws that tie
//! the totals of a grouping to the total of what it groups, and totals added
//! up in an `i64` that are left out where a running total overflows.
use vstd::prelude::*;
use crate::groups::{group_keys, has_key, is_grouping, lemma_filter_push, part};

verus! {

/// The sum of `vals` at the positions `members`.
pub open spec fn sum_at(vals: Seq<int>, members: Seq<usize>) -> int
    decreases members.len(),
{
    if members.len() == 0 {
        0
    } else {
        sum_at(vals, members.drop_last()) + vals[members.last() as int]
    }
}

/// The sum of the group sums, group by group.
pub open spec fn total_of_groups(vals: Seq<int>, gs: Seq<(Seq<char>, Seq<usize>)>) -> int
    decreases gs.len(),
{
    if gs.len() == 0 {
        0
    } else {
        total_of_groups(vals, gs.drop_last()) + sum_at(vals, gs.last().1)
    }
}

/// The sum over the parts of `idx` whose keys are listed in `ks`.
pub open spec fn total_of_parts(
    vals: Seq<int>,
    keys: Seq<Seq<char>>,
    idx: Seq<usize>,
    ks: Seq<Seq<char>>,
) -> int
    decreases ks.len(),
{
    if ks.len() == 0 {
        0
    } else {
        total_of_parts(vals, keys, idx, ks.drop_last()) + sum_at(vals, part(keys, idx, ks.last()))
    }
}

pub open spec fn within(vals: Seq<int>, members: Seq<usize>) -> bool {
    forall|t: int| 0 <= t < members.len() ==> #[trigger] members[t] < vals.len()
}

proof fn lemma_parts_of_empty(vals: Seq<int>, keys: Seq<Seq<char>>, ks: Seq<Seq<char>>)
    ensures
        total_of_parts(vals, keys, Seq::<usize>::empty(), ks) == 0,
    decreases ks.len(),
{
    reveal(Seq::filter);
    if ks.len() > 0 {
        lemma_parts_of_empty(vals, keys, ks.drop_last());
    }
}

proof fn lemma_parts_push(
    vals: Seq<int>,
    keys: Seq<Seq<char>>,
    idx: Seq<usize>,
    x: usize,
    ks: Seq<Seq<char>>,
)
    requires
        ks.no_duplicates(),
    ensures
        total_of_parts(vals, keys, idx.push(x), ks) == total_of_parts(vals, keys, idx, ks) + (if ks.contains(
            keys[x as int],
        ) {
            vals[x as int]
        } else {
            0
        }),
    decreases ks.len(),
{
    if ks.len() > 0 {
        let rest = ks.drop_last();
        let k = ks.last();
        assert(rest.no_duplicates());
        lemma_parts_push(vals, keys, idx, x, rest);
        lemma_filter_push(idx, x, has_key(keys, k));
        let p0 = part(keys, idx, k);
        if keys[x as int] == k {
            assert(p0.push(x).drop_last() =~= p0);
            assert(!rest.contains(k)) by {
                if rest.contains(k) {
                    let t = choose|t: int| 0 <= t < rest.len() && rest[t] == k;
                    assert(ks[t] == ks[ks.len() - 1]);
                }
            }
            assert(ks.contains(k)) by {
                assert(ks[ks.len() - 1] == k);
            }
        } else {
            assert(ks.contains(keys[x as int]) == rest.contains(keys[x as int])) by {
                if ks.contains(keys[x as int]) {
                    let t = choose|t: int| 0 <= t < ks.len() && ks[t] == keys[x as int];
                    assert(rest[t] == keys[x as int]);
                }
                if rest.contains(keys[x as int]) {
                    let t = choose|t: int| 0 <= t < rest.len() && rest[t] == keys[x as int];
                    assert(ks[t] == keys[x as int]);
                }
            }
        }
    }
}

/// Summing the parts of `idx` over keys that cover every position, each key
/// once, gives the sum over `idx`.
pub proof fn lemma_parts_total(
    vals: Seq<int>,
    keys: Seq<Seq<char>>,
    idx: Seq<usize>,
    ks: Seq<Seq<char>>,
)
    requires
        ks.no_duplicates(),
        forall|j: int| 0 <= j < idx.len() ==> #[trigger] ks.contains(keys[idx[j] as int]),
    ensures
        total_of_parts(vals, keys, idx, ks) == sum_at(vals, idx),
    decreases idx.len(),
{
    if idx.len() == 0 {
        lemma_parts_of_empty(vals, keys, ks);
        assert(idx =~= Seq::<usize>::empty());
    } else {
        let rest = idx.drop_last();
        let x = idx.last();
        assert forall|j: int| 0 <= j < rest.len() implies #[trigger] ks.contains(
            keys[rest[j] as int],
        ) by {
            assert(rest[j] == idx[j]);
        }
        lemma_parts_total(vals, keys, rest, ks);
        assert(rest.push(x) =~= idx);
        lemma_parts_push(vals, keys, rest, x, ks);
        assert(ks.contains(keys[idx[idx.len() - 1] as int]));
    }
}

proof fn lemma_groups_as_parts(
    vals: Seq<int>,
    keys: Seq<Seq<char>>,
    idx: Seq<usize>,
    gs: Seq<(Seq<char>, Seq<usize>)>,
)
    requires
        forall|g: int| 0 <= g < gs.len() ==> #[trigger] gs[g].1 == part(keys, idx, gs[g].0),
    ensures
        total_of_groups(vals, gs) == total_of_parts(vals, keys, idx, group_keys(gs)),
    decreases gs.len(),
{
    if gs.len() > 0 {
        let rest = gs.drop_last();
        assert forall|g: int| 0 <= g < rest.len() implies #[trigger] rest[g].1 == part(
            keys,
            idx,
            rest[g].0,
        ) by {
            assert(rest[g] == gs[g]);
        }
        lemma_groups_as_parts(vals, keys, idx, rest);
        assert(group_keys(gs).drop_last() =~= group_keys(rest));
        assert(gs[gs.len() - 1].1 == part(keys, idx, gs[gs.len() - 1].0));
    }
}

/// The group totals of a grouping add up to the total of what it groups.
pub proof fn lemma_grouping_total(
    vals: Seq<int>,
    keys: Seq<Seq<char>>,
    idx: Seq<usize>,
    gs: Seq<(Seq<char>, Seq<usize>)>,
)
    requires
        is_grouping(keys, idx, gs),
    ensures
        total_of_groups(vals, gs) == sum_at(vals, idx),
{
    lemma_groups_as_parts(vals, keys, idx, gs);
    let ks = group_keys(gs);
    assert(ks.no_duplicates()) by {
        assert forall|g: int, h: int| 0 <= g < ks.len() && 0 <= h < ks.len() && g != h implies ks[g]
            != ks[h] by {
            if g < h {
                assert(gs[g].0 != gs[h].0);
            } else {
                assert(gs[h].0 != gs[g].0);
            }
        }
    }
    lemma_parts_total(vals, keys, idx, ks);
}

/// The positions of a part of `idx` are positions of `idx`.
pub proof fn lemma_part_within(vals: Seq<int>, keys: Seq<Seq<char>>, idx: Seq<usize>, k: Seq<char>)
    requires
        within(vals, idx),
    ensures
        within(vals, part(keys, idx, k)),
    decreases idx.len(),
{
    reveal(Seq::filter);
    if idx.len() > 0 {
        let rest = idx.drop_last();
        assert(within(vals, rest)) by {
            assert forall|t: int| 0 <= t < rest.len() implies #[trigger] rest[t] < vals.len() by {
                assert(rest[t] == idx[t]);
            }
        }
        lemma_part_within(vals, keys, rest, k);
        assert(rest.push(idx.last()) =~= idx);
        lemma_filter_push(rest, idx.last(), has_key(keys, k));
        assert(idx[idx.len() - 1] < vals.len());
    }
}

/// The positions of each group of a grouping of `idx` lie within `vals`.
pub proof fn lemma_parts_bounded(
    vals: Seq<int>,
    keys: Seq<Seq<char>>,
    idx: Seq<usize>,
    gs: Seq<(Seq<char>, Seq<usize>)>,
)
    requires
        is_grouping(keys, idx, gs),
        within(vals, idx),
    ensures
        forall|g: int| 0 <= g < gs.len() ==> within(vals, #[trigger] gs[g].1),
{
    assert forall|g: int| 0 <= g < gs.len() implies within(vals, #[trigger] gs[g].1) by {
        lemma_part_within(vals, keys, idx, gs[g].0);
    }
}

/// A value that an `i64` holds.
pub open spec fn fits_i64(x: int) -> bool {
    i64::MIN <= x <= i64::MAX
}

/// One step of adding up in an `i64`: the new total, or `None` where a value
/// is missing or the total leaves the range of `i64`.
pub open spec fn checked_step(acc: Option<int>, x: Option<int>) -> Option<int> {
    match (acc, x) {
        (Some(a), Some(b)) => if fits_i64(a + b) {
            Some(a + b)
        } else {
            None
        },
        _ => None,
    }
}

/// Adding up `xs` one after the other in an `i64`, starting from 0: the
/// total, or `None` where a value is missing or a running total leaves the
/// range of `i64`.
pub open spec fn checked_total(xs: Seq<Option<int>>) -> Option<int>
    decreases xs.len(),
{
    if xs.len() == 0 {
        Some(0)
    } else {
        checked_step(checked_total(xs.drop_last()), xs.last())
    }
}

/// The values at the positions `members`, in order.
pub open spec fn values_at(vals: Seq<int>, members: Seq<usize>) -> Seq<Option<int>> {
    Seq::new(members.len(), |j: int| Some(vals[members[j] as int]))
}

/// An optional `i64` as an optional integer.
pub open spec fn widen(o: Option<i64>) -> Option<int> {
    match o {
        Some(x) => Some(x as int),
        None => None,
    }
}

/// Adds `b` to the running total `a` in an `i64`.
pub fn add_checked(a: Option<i64>, b: Option<i64>) -> (r: Option<i64>)
    ensures
        widen(r) == checked_step(widen(a), widen(b)),
{
    match (a, b) {
        (Some(x), Some(y)) => x.checked_add(y),
        _ => None,
    }
}

/// A total computed without overflow is the sum of the values.
pub proof fn lemma_checked_values(vals: Seq<int>, members: Seq<usize>)
    ensures
        checked_total(values_at(vals, members)) matches Some(s) ==> s == sum_at(vals, members),
    decreases members.len(),
{
    if members.len() > 0 {
        assert(values_at(vals, members).drop_last() =~= values_at(vals, members.drop_last()));
        lemma_checked_values(vals, members.drop_last());
    }
}

/// A total of group totals computed without overflow has every group total,
/// and is the sum of the groups.
pub proof fn lemma_checked_groups(
    xs: Seq<Option<int>>,
    vals: Seq<int>,
    gs: Seq<(Seq<char>, Seq<usize>)>,
)
    requires
        xs.len() == gs.len(),
        forall|i: int| 0 <= i < xs.len() ==> (#[trigger] xs[i] matches Some(v) ==> v == sum_at(vals, gs[i].1)),
    ensures
        checked_total(xs) is Some ==> forall|i: int| 0 <= i < xs.len() ==> #[trigger] xs[i] is Some,
        checked_total(xs) matches Some(s) ==> s == total_of_groups(vals, gs),
    decreases xs.len(),
{
    if xs.len() > 0 {
        let (xr, gr) = (xs.drop_last(), gs.drop_last());
        assert forall|i: int| 0 <= i < xr.len() implies (#[trigger] xr[i] matches Some(v) ==> v == sum_at(vals, gr[i].1)) by {
            assert(xr[i] == xs[i] && gr[i] == gs[i]);
        }
        lemma_checked_groups(xr, vals, gr);
        if checked_total(xs) is Some {
            assert forall|i: int| 0 <= i < xs.len() implies #[trigger] xs[i] is Some by {
                if i < xr.len() {
                    assert(xr[i] == xs[i]);
                }
            }
        }
    }
}

} // verus!
