//! Grouping entries by a key, the way the timesheet views group worklogs by
//! month, week, day and task.
//!
//! Entries are referred to by their position. A grouping of a list of
//! positions gives each key that occurs the positions that carry it, in the
//! order of the list.
use vstd::prelude::*;
use crate::dates::{Date, date_le};
use crate::text::{
    lemma_str_lt_asymmetric, lemma_str_lt_irreflexive, lemma_str_lt_total,
    lemma_str_lt_transitive, str_less, str_lt,
};

verus! {

/// The positions that carry one key.
pub struct Group {
    pub key: String,
    pub members: Vec<usize>,
}

/// The text of each string of a list.
pub open spec fn views(v: Seq<String>) -> Seq<Seq<char>> {
    Seq::new(v.len(), |i: int| v[i]@)
}

/// A group as its key and its positions.
pub open spec fn groups_view(gs: Seq<Group>) -> Seq<(Seq<char>, Seq<usize>)> {
    Seq::new(gs.len(), |g: int| (gs[g].key@, gs[g].members@))
}

/// The positions `i` whose key is `k`.
pub open spec fn has_key(keys: Seq<Seq<char>>, k: Seq<char>) -> spec_fn(usize) -> bool {
    |i: usize| keys[i as int] == k
}

/// The positions of `idx` whose key is `k`, in the order of `idx`.
pub open spec fn part(keys: Seq<Seq<char>>, idx: Seq<usize>, k: Seq<char>) -> Seq<usize> {
    idx.filter(has_key(keys, k))
}

/// The keys of the groups, in order.
pub open spec fn group_keys(gs: Seq<(Seq<char>, Seq<usize>)>) -> Seq<Seq<char>> {
    Seq::new(gs.len(), |g: int| gs[g].0)
}

/// `gs` groups the positions `idx` by `keys`: each group holds exactly the
/// positions of `idx` with its key, in order, and is not empty; no key has
/// two groups; every position of `idx` has its group.
pub open spec fn is_grouping(
    keys: Seq<Seq<char>>,
    idx: Seq<usize>,
    gs: Seq<(Seq<char>, Seq<usize>)>,
) -> bool {
    &&& forall|g: int| 0 <= g < gs.len() ==> #[trigger] gs[g].1 == part(keys, idx, gs[g].0)
    &&& forall|g: int| 0 <= g < gs.len() ==> (#[trigger] gs[g]).1.len() > 0
    &&& forall|g: int, h: int| 0 <= g < h < gs.len() ==> gs[g].0 != gs[h].0
    &&& forall|j: int|
        0 <= j < idx.len() ==> #[trigger] group_keys(gs).contains(keys[idx[j] as int])
}

/// The groups come in increasing order of their keys.
pub open spec fn sorted_by_key(gs: Seq<(Seq<char>, Seq<usize>)>) -> bool {
    forall|g: int, h: int| 0 <= g < h < gs.len() ==> str_lt(gs[g].0, gs[h].0)
}

/// The groups come in chronological order of the date of their first
/// position.
pub open spec fn sorted_by_first_date(dates: Seq<Date>, gs: Seq<(Seq<char>, Seq<usize>)>) -> bool {
    forall|g: int, h: int|
        0 <= g < h < gs.len() ==> date_le(dates[gs[g].1[0] as int], dates[gs[h].1[0] as int])
}

pub proof fn lemma_filter_push<A>(s: Seq<A>, x: A, p: spec_fn(A) -> bool)
    ensures
        s.push(x).filter(p) == (if p(x) {
            s.filter(p).push(x)
        } else {
            s.filter(p)
        }),
{
    reveal(Seq::filter);
    assert(s.push(x).drop_last() =~= s);
}

pub proof fn lemma_filter_none(s: Seq<usize>, p: spec_fn(usize) -> bool)
    requires
        forall|i: int| 0 <= i < s.len() ==> !p(#[trigger] s[i]),
    ensures
        s.filter(p) == Seq::<usize>::empty(),
    decreases s.len(),
{
    reveal(Seq::filter);
    if s.len() > 0 {
        lemma_filter_none(s.drop_last(), p);
    }
}

/// One step of a grouping pass: the groups over `idx.take(j)` extended by
/// `idx[j]`.
proof fn lemma_part_step(keys: Seq<Seq<char>>, idx: Seq<usize>, j: int, k: Seq<char>)
    requires
        0 <= j < idx.len(),
    ensures
        part(keys, idx.take(j + 1), k) == (if keys[idx[j] as int] == k {
            part(keys, idx.take(j), k).push(idx[j])
        } else {
            part(keys, idx.take(j), k)
        }),
{
    assert(idx.take(j + 1) =~= idx.take(j).push(idx[j]));
    lemma_filter_push(idx.take(j), idx[j], has_key(keys, k));
}

/// A key that no position of `idx.take(j)` carries has an empty part.
proof fn lemma_part_absent(keys: Seq<Seq<char>>, idx: Seq<usize>, j: int, k: Seq<char>)
    requires
        0 <= j <= idx.len(),
        forall|t: int| 0 <= t < j ==> keys[idx[t] as int] != k,
    ensures
        part(keys, idx.take(j), k) == Seq::<usize>::empty(),
{
    let s = idx.take(j);
    assert forall|i: int| 0 <= i < s.len() implies !has_key(keys, k)(#[trigger] s[i]) by {
        assert(s[i] == idx[i]);
    }
    lemma_filter_none(s, has_key(keys, k));
}

/// Groups the positions `idx` by `keys`, in increasing order of key (as a
/// `BTreeMap` keyed by the strings would hold them).
pub fn group_sorted(keys: &Vec<String>, idx: &Vec<usize>) -> (gs: Vec<Group>)
    requires
        forall|j: int| 0 <= j < idx@.len() ==> idx@[j] < keys@.len(),
    ensures
        is_grouping(views(keys@), idx@, groups_view(gs@)),
        sorted_by_key(groups_view(gs@)),
{
    let ghost kv = views(keys@);
    let mut gs: Vec<Group> = Vec::new();
    let mut j: usize = 0;
    while j < idx.len()
        invariant
            j <= idx@.len(),
            kv == views(keys@),
            forall|t: int| 0 <= t < idx@.len() ==> idx@[t] < keys@.len(),
            forall|g: int|
                0 <= g < gs@.len() ==> #[trigger] gs@[g].members@ == part(
                    kv,
                    idx@.take(j as int),
                    gs@[g].key@,
                ) && gs@[g].members@.len() > 0,
            forall|g: int, h: int| 0 <= g < h < gs@.len() ==> str_lt(gs@[g].key@, gs@[h].key@),
            forall|t: int|
                #![trigger idx@[t]]
                0 <= t < j ==> exists|g: int|
                    0 <= g < gs@.len() && #[trigger] gs@[g].key@ == kv[idx@[t] as int],
        decreases idx@.len() - j,
    {
        let x = idx[j];
        let k = &keys[x];
        assert(kv[x as int] == k@);
        let mut p: usize = 0;
        while p < gs.len() && str_less(gs[p].key.as_str(), k.as_str())
            invariant
                p <= gs@.len(),
                forall|q: int| 0 <= q < p ==> str_lt(#[trigger] gs@[q].key@, k@),
            decreases gs@.len() - p,
        {
            p = p + 1;
        }
        let ghost old_gs = gs@;
        proof {
            assert forall|g: int| 0 <= g < old_gs.len() implies #[trigger] part(
                kv,
                idx@.take(j + 1),
                old_gs[g].key@,
            ) == (if old_gs[g].key@ == k@ {
                part(kv, idx@.take(j as int), old_gs[g].key@).push(x)
            } else {
                part(kv, idx@.take(j as int), old_gs[g].key@)
            }) by {
                lemma_part_step(kv, idx@, j as int, old_gs[g].key@);
            }
        }
        if p < gs.len() && gs[p].key == *k {
            let mut grp = gs.remove(p);
            grp.members.push(x);
            gs.insert(p, grp);
            proof {
                assert forall|g: int| 0 <= g < gs@.len() && g != p implies gs@[g].key@ != k@ by {
                    lemma_str_lt_irreflexive(k@);
                    if g > p {
                        assert(str_lt(old_gs[p as int].key@, old_gs[g].key@));
                    } else {
                        assert(str_lt(old_gs[g].key@, old_gs[p as int].key@));
                    }
                }
                assert forall|t: int| #![trigger idx@[t]] 0 <= t < j + 1 implies exists|g: int|
                    0 <= g < gs@.len() && #[trigger] gs@[g].key@ == kv[idx@[t] as int] by {
                    if t == j {
                        assert(gs@[p as int].key@ == kv[idx@[t] as int]);
                    } else {
                        let g0 = choose|g: int|
                            0 <= g < old_gs.len() && #[trigger] old_gs[g].key@ == kv[idx@[t] as int];
                        assert(gs@[g0].key@ == kv[idx@[t] as int]);
                    }
                }
            }
        } else {
            let mut m: Vec<usize> = Vec::new();
            m.push(x);
            let ghost k_view = k@;
            proof {
                assert forall|g: int| 0 <= g < old_gs.len() implies old_gs[g].key@ != k_view by {
                    if g < p {
                        lemma_str_lt_irreflexive(k_view);
                    } else {
                        lemma_str_lt_total(old_gs[p as int].key@, k_view);
                        if g > p {
                            lemma_str_lt_transitive(k_view, old_gs[p as int].key@, old_gs[g].key@);
                            lemma_str_lt_irreflexive(k_view);
                        }
                    }
                }
                assert forall|t: int| #![trigger idx@[t]] 0 <= t < j implies kv[idx@[t] as int] != k_view by {
                    let g0 = choose|g: int|
                        0 <= g < old_gs.len() && #[trigger] old_gs[g].key@ == kv[idx@[t] as int];
                }
                lemma_part_absent(kv, idx@, j as int, k_view);
                lemma_part_step(kv, idx@, j as int, k_view);
                assert(m@ =~= part(kv, idx@.take(j + 1), k_view));
                if p < old_gs.len() {
                    lemma_str_lt_total(old_gs[p as int].key@, k_view);
                }
            }
            gs.insert(p, Group { key: k.clone(), members: m });
            proof {
                assert forall|g: int, h: int| 0 <= g < h < gs@.len() implies str_lt(
                    gs@[g].key@,
                    gs@[h].key@,
                ) by {
                    if h == p {
                        assert(gs@[g] == old_gs[g]);
                    } else if g == p {
                        assert(gs@[h] == old_gs[h - 1]);
                        if h - 1 > p {
                            lemma_str_lt_transitive(k_view, old_gs[p as int].key@, old_gs[h - 1].key@);
                        }
                    } else if g < p && h > p {
                        if h - 1 > p {
                            lemma_str_lt_transitive(k_view, old_gs[p as int].key@, old_gs[h - 1].key@);
                        }
                        lemma_str_lt_transitive(old_gs[g].key@, k_view, old_gs[h - 1].key@);
                    }
                }
                assert forall|t: int| #![trigger idx@[t]] 0 <= t < j + 1 implies exists|g: int|
                    0 <= g < gs@.len() && #[trigger] gs@[g].key@ == kv[idx@[t] as int] by {
                    if t == j {
                        assert(gs@[p as int].key@ == kv[idx@[t] as int]);
                    } else {
                        let g0 = choose|g: int|
                            0 <= g < old_gs.len() && #[trigger] old_gs[g].key@ == kv[idx@[t] as int];
                        if g0 < p {
                            assert(gs@[g0].key@ == kv[idx@[t] as int]);
                        } else {
                            assert(gs@[g0 + 1].key@ == kv[idx@[t] as int]);
                        }
                    }
                }
            }
        }
        j = j + 1;
    }
    proof {
        assert(idx@.take(idx@.len() as int) =~= idx@);
        let gv = groups_view(gs@);
        assert forall|g: int| 0 <= g < gv.len() implies #[trigger] gv[g].1 == part(views(keys@), idx@, gv[g].0)
            && gv[g].1.len() > 0 by {
            assert(gv[g].1 == gs@[g].members@);
        }
        assert forall|g: int, h: int| 0 <= g < h < gv.len() implies gv[g].0 != gv[h].0 by {
            lemma_str_lt_irreflexive(gv[g].0);
        }
        assert forall|j2: int| 0 <= j2 < idx@.len() implies #[trigger] group_keys(gv).contains(
            views(keys@)[idx@[j2] as int],
        ) by {
            let g0 = choose|g: int|
                0 <= g < gs@.len() && #[trigger] gs@[g].key@ == kv[idx@[j2] as int];
            assert(group_keys(gv)[g0] == gs@[g0].key@);
        }
    }
    gs
}

/// `a` is not later than `b`.
pub fn date_not_after(a: Date, b: Date) -> (res: bool)
    ensures
        res == date_le(a, b),
{
    a.year < b.year || (a.year == b.year && (a.month < b.month || (a.month == b.month && a.day
        <= b.day)))
}

/// Groups the positions `idx` by `keys`, the groups in chronological order of
/// the date of their first position.
pub fn group_by_first_date(keys: &Vec<String>, dates: &Vec<Date>, idx: &Vec<usize>) -> (gs: Vec<
    Group,
>)
    requires
        forall|j: int| 0 <= j < idx@.len() ==> idx@[j] < keys@.len() && idx@[j] < dates@.len(),
    ensures
        is_grouping(views(keys@), idx@, groups_view(gs@)),
        sorted_by_first_date(dates@, groups_view(gs@)),
{
    let ghost kv = views(keys@);
    let mut gs: Vec<Group> = Vec::new();
    let mut j: usize = 0;
    while j < idx.len()
        invariant
            j <= idx@.len(),
            kv == views(keys@),
            forall|t: int|
                0 <= t < idx@.len() ==> idx@[t] < keys@.len() && idx@[t] < dates@.len(),
            forall|g: int|
                0 <= g < gs@.len() ==> #[trigger] gs@[g].members@ == part(
                    kv,
                    idx@.take(j as int),
                    gs@[g].key@,
                ) && gs@[g].members@.len() > 0,
            forall|g: int|
                0 <= g < gs@.len() ==> (#[trigger] gs@[g]).members@[0] < dates@.len(),
            forall|g: int, h: int| 0 <= g < h < gs@.len() ==> gs@[g].key@ != gs@[h].key@,
            forall|g: int, h: int|
                0 <= g < h < gs@.len() ==> date_le(
                    dates@[gs@[g].members@[0] as int],
                    dates@[gs@[h].members@[0] as int],
                ),
            forall|t: int|
                #![trigger idx@[t]]
                0 <= t < j ==> exists|g: int|
                    0 <= g < gs@.len() && #[trigger] gs@[g].key@ == kv[idx@[t] as int],
        decreases idx@.len() - j,
    {
        let x = idx[j];
        let k = &keys[x];
        assert(kv[x as int] == k@);
        let mut q: usize = 0;
        while q < gs.len() && gs[q].key != *k
            invariant
                q <= gs@.len(),
                forall|r: int| 0 <= r < q ==> (#[trigger] gs@[r]).key@ != k@,
            decreases gs@.len() - q,
        {
            q = q + 1;
        }
        let ghost old_gs = gs@;
        proof {
            assert forall|g: int| 0 <= g < old_gs.len() implies #[trigger] part(
                kv,
                idx@.take(j + 1),
                old_gs[g].key@,
            ) == (if old_gs[g].key@ == k@ {
                part(kv, idx@.take(j as int), old_gs[g].key@).push(x)
            } else {
                part(kv, idx@.take(j as int), old_gs[g].key@)
            }) by {
                lemma_part_step(kv, idx@, j as int, old_gs[g].key@);
            }
        }
        if q < gs.len() {
            let mut grp = gs.remove(q);
            grp.members.push(x);
            gs.insert(q, grp);
            proof {
                assert forall|g: int| 0 <= g < gs@.len() implies #[trigger] gs@[g].members@[0]
                    == old_gs[g].members@[0] by {
                    if g == q {
                        assert(gs@[g].members@ == old_gs[g].members@.push(x));
                    }
                }
                assert forall|t: int| #![trigger idx@[t]] 0 <= t < j + 1 implies exists|g: int|
                    0 <= g < gs@.len() && #[trigger] gs@[g].key@ == kv[idx@[t] as int] by {
                    if t == j {
                        assert(gs@[q as int].key@ == kv[idx@[t] as int]);
                    } else {
                        let g0 = choose|g: int|
                            0 <= g < old_gs.len() && #[trigger] old_gs[g].key@ == kv[idx@[t] as int];
                        assert(gs@[g0].key@ == kv[idx@[t] as int]);
                    }
                }
            }
        } else {
            let d = dates[x];
            let mut p: usize = 0;
            while p < gs.len() && date_not_after(dates[gs[p].members[0]], d)
                invariant
                    p <= gs@.len(),
                    d == dates@[x as int],
                    forall|g: int|
                        0 <= g < gs@.len() ==> (#[trigger] gs@[g]).members@.len() > 0
                            && gs@[g].members@[0] < dates@.len(),
                    forall|r: int|
                        0 <= r < p ==> date_le(dates@[(#[trigger] gs@[r]).members@[0] as int], d),
                decreases gs@.len() - p,
            {
                p = p + 1;
            }
            let mut m: Vec<usize> = Vec::new();
            m.push(x);
            let ghost k_view = k@;
            proof {
                assert forall|t: int| #![trigger idx@[t]] 0 <= t < j implies kv[idx@[t] as int]
                    != k_view by {
                    let g0 = choose|g: int|
                        0 <= g < old_gs.len() && #[trigger] old_gs[g].key@ == kv[idx@[t] as int];
                    assert(old_gs[g0].key@ != k_view);
                }
                lemma_part_absent(kv, idx@, j as int, k_view);
                lemma_part_step(kv, idx@, j as int, k_view);
                assert(m@ =~= part(kv, idx@.take(j + 1), k_view));
            }
            gs.insert(p, Group { key: k.clone(), members: m });
            proof {
                assert forall|g: int, h: int| 0 <= g < h < gs@.len() implies date_le(
                    dates@[gs@[g].members@[0] as int],
                    dates@[gs@[h].members@[0] as int],
                ) by {
                    if g < p && h == p {
                        assert(gs@[g] == old_gs[g]);
                    } else if g == p && h > p {
                        assert(gs@[h] == old_gs[h - 1]);
                        assert(date_le(
                            dates@[old_gs[p as int].members@[0] as int],
                            dates@[old_gs[h - 1].members@[0] as int],
                        ));
                    } else if g < p && h > p {
                        assert(gs@[h] == old_gs[h - 1]);
                        assert(gs@[g] == old_gs[g]);
                        assert(date_le(
                            dates@[old_gs[p as int].members@[0] as int],
                            dates@[old_gs[h - 1].members@[0] as int],
                        ));
                    } else if g > p {
                        assert(gs@[h] == old_gs[h - 1]);
                        assert(gs@[g] == old_gs[g - 1]);
                    } else {
                        assert(gs@[h] == old_gs[h]);
                        assert(gs@[g] == old_gs[g]);
                    }
                }
                assert forall|t: int| #![trigger idx@[t]] 0 <= t < j + 1 implies exists|g: int|
                    0 <= g < gs@.len() && #[trigger] gs@[g].key@ == kv[idx@[t] as int] by {
                    if t == j {
                        assert(gs@[p as int].key@ == kv[idx@[t] as int]);
                    } else {
                        let g0 = choose|g: int|
                            0 <= g < old_gs.len() && #[trigger] old_gs[g].key@ == kv[idx@[t] as int];
                        if g0 < p {
                            assert(gs@[g0].key@ == kv[idx@[t] as int]);
                        } else {
                            assert(gs@[g0 + 1].key@ == kv[idx@[t] as int]);
                        }
                    }
                }
            }
        }
        j = j + 1;
    }
    proof {
        assert(idx@.take(idx@.len() as int) =~= idx@);
        let gv = groups_view(gs@);
        assert forall|g: int| 0 <= g < gv.len() implies #[trigger] gv[g].1 == part(views(keys@), idx@, gv[g].0)
            && gv[g].1.len() > 0 by {
            assert(gv[g].1 == gs@[g].members@);
        }
        assert forall|j2: int| 0 <= j2 < idx@.len() implies #[trigger] group_keys(gv).contains(
            views(keys@)[idx@[j2] as int],
        ) by {
            let g0 = choose|g: int|
                0 <= g < gs@.len() && #[trigger] gs@[g].key@ == kv[idx@[j2] as int];
            assert(group_keys(gv)[g0] == gs@[g0].key@);
        }
    }
    gs
}

/// A position is in the part of key `k` exactly when it is a position of
/// `idx` that carries `k`.
pub proof fn lemma_in_part(keys: Seq<Seq<char>>, idx: Seq<usize>, k: Seq<char>, i: usize)
    ensures
        part(keys, idx, k).contains(i) <==> (idx.contains(i) && keys[i as int] == k),
{
    let p = has_key(keys, k);
    if part(keys, idx, k).contains(i) {
        idx.lemma_filter_contains_rev(p, i);
        let t = choose|t: int| 0 <= t < idx.filter(p).len() && idx.filter(p)[t] == i;
        idx.lemma_filter_pred(p, t);
    }
    if idx.contains(i) && keys[i as int] == k {
        let t = choose|t: int| 0 <= t < idx.len() && idx[t] == i;
        idx.lemma_filter_contains(p, t);
    }
}

/// In a grouping, every position of `idx` lies in the group of its key, and
/// in no other group.
pub proof fn lemma_grouped_once(
    keys: Seq<Seq<char>>,
    idx: Seq<usize>,
    gs: Seq<(Seq<char>, Seq<usize>)>,
    i: usize,
)
    requires
        is_grouping(keys, idx, gs),
        idx.contains(i),
    ensures
        exists|g: int| 0 <= g < gs.len() && gs[g].0 == keys[i as int] && #[trigger] gs[g].1.contains(i),
        forall|g: int, h: int|
            0 <= g < gs.len() && 0 <= h < gs.len() && gs[g].1.contains(i) && gs[h].1.contains(i)
                ==> g == h,
{
    let j = choose|j: int| 0 <= j < idx.len() && idx[j] == i;
    assert(group_keys(gs).contains(keys[idx[j] as int]));
    let g0 = choose|g: int| 0 <= g < group_keys(gs).len() && group_keys(gs)[g] == keys[i as int];
    assert(gs[g0].0 == keys[i as int]);
    lemma_in_part(keys, idx, gs[g0].0, i);
    assert(gs[g0].1 == part(keys, idx, gs[g0].0));
    assert forall|g: int, h: int|
        0 <= g < gs.len() && 0 <= h < gs.len() && gs[g].1.contains(i) && gs[h].1.contains(i)
            implies g == h by {
        assert(gs[g].1 == part(keys, idx, gs[g].0));
        assert(gs[h].1 == part(keys, idx, gs[h].0));
        lemma_in_part(keys, idx, gs[g].0, i);
        lemma_in_part(keys, idx, gs[h].0, i);
        if g < h {
            assert(gs[g].0 != gs[h].0);
        } else if h < g {
            assert(gs[h].0 != gs[g].0);
        }
    }
}

/// The key of a group of one grouping is the key of a group of any other
/// grouping of the same positions.
proof fn lemma_group_key_shared(
    keys: Seq<Seq<char>>,
    idx: Seq<usize>,
    gs1: Seq<(Seq<char>, Seq<usize>)>,
    gs2: Seq<(Seq<char>, Seq<usize>)>,
    g: int,
)
    requires
        is_grouping(keys, idx, gs1),
        is_grouping(keys, idx, gs2),
        0 <= g < gs1.len(),
    ensures
        exists|h: int| 0 <= h < gs2.len() && #[trigger] gs2[h].0 == gs1[g].0,
{
    assert(gs1[g].1 == part(keys, idx, gs1[g].0));
    assert(gs1[g].1.len() > 0);
    let i = gs1[g].1[0];
    assert(gs1[g].1.contains(i));
    lemma_in_part(keys, idx, gs1[g].0, i);
    let j = choose|j: int| 0 <= j < idx.len() && idx[j] == i;
    assert(group_keys(gs2).contains(keys[idx[j] as int]));
    let h = choose|h: int| 0 <= h < group_keys(gs2).len() && group_keys(gs2)[h] == keys[i as int];
    assert(gs2[h].0 == gs1[g].0);
}

/// Two sorted groupings of the same positions agree on their first keys.
proof fn lemma_sorted_keys_agree(
    keys: Seq<Seq<char>>,
    idx: Seq<usize>,
    gs1: Seq<(Seq<char>, Seq<usize>)>,
    gs2: Seq<(Seq<char>, Seq<usize>)>,
    g: int,
)
    requires
        is_grouping(keys, idx, gs1),
        is_grouping(keys, idx, gs2),
        sorted_by_key(gs1),
        sorted_by_key(gs2),
        0 <= g < gs1.len(),
        g < gs2.len(),
    ensures
        forall|t: int| 0 <= t <= g ==> #[trigger] gs1[t].0 == gs2[t].0,
    decreases g,
{
    if g > 0 {
        lemma_sorted_keys_agree(keys, idx, gs1, gs2, g - 1);
    }
    let a = gs1[g].0;
    let b = gs2[g].0;
    if a != b {
        lemma_str_lt_total(a, b);
        lemma_str_lt_irreflexive(a);
        lemma_str_lt_irreflexive(b);
        if str_lt(a, b) {
            lemma_group_key_shared(keys, idx, gs1, gs2, g);
            let h = choose|h: int| 0 <= h < gs2.len() && #[trigger] gs2[h].0 == a;
            if h < g {
                assert(gs1[h].0 == gs2[h].0);
                assert(str_lt(gs1[h].0, gs1[g].0));
            } else if h > g {
                assert(str_lt(gs2[g].0, gs2[h].0));
                lemma_str_lt_asymmetric(a, b);
            }
        } else {
            lemma_group_key_shared(keys, idx, gs2, gs1, g);
            let h = choose|h: int| 0 <= h < gs1.len() && #[trigger] gs1[h].0 == b;
            if h < g {
                assert(gs1[h].0 == gs2[h].0);
                assert(str_lt(gs2[h].0, gs2[g].0));
            } else if h > g {
                assert(str_lt(gs1[g].0, gs1[h].0));
                lemma_str_lt_asymmetric(a, b);
            }
        }
    }
}

/// A grouping sorted by key is unique: two sorted groupings of the same
/// positions by the same keys are equal.
pub proof fn lemma_sorted_grouping_unique(
    keys: Seq<Seq<char>>,
    idx: Seq<usize>,
    gs1: Seq<(Seq<char>, Seq<usize>)>,
    gs2: Seq<(Seq<char>, Seq<usize>)>,
)
    requires
        is_grouping(keys, idx, gs1),
        is_grouping(keys, idx, gs2),
        sorted_by_key(gs1),
        sorted_by_key(gs2),
    ensures
        gs1 == gs2,
{
    let n = if gs1.len() < gs2.len() { gs1.len() } else { gs2.len() };
    if n > 0 {
        lemma_sorted_keys_agree(keys, idx, gs1, gs2, n - 1);
    }
    if gs1.len() < gs2.len() {
        let l = gs1.len() as int;
        lemma_group_key_shared(keys, idx, gs2, gs1, l);
        let h = choose|h: int| 0 <= h < gs1.len() && #[trigger] gs1[h].0 == gs2[l].0;
        assert(gs1[h].0 == gs2[h].0);
        assert(gs2[h].0 != gs2[l].0);
    } else if gs2.len() < gs1.len() {
        let l = gs2.len() as int;
        lemma_group_key_shared(keys, idx, gs1, gs2, l);
        let h = choose|h: int| 0 <= h < gs2.len() && #[trigger] gs2[h].0 == gs1[l].0;
        assert(gs1[h].0 == gs2[h].0);
        assert(gs1[h].0 != gs1[l].0);
    }
    assert forall|g: int| 0 <= g < gs1.len() implies #[trigger] gs1[g] == gs2[g] by {
        assert(gs1[g].0 == gs2[g].0);
        assert(gs1[g].1 == part(keys, idx, gs1[g].0));
        assert(gs2[g].1 == part(keys, idx, gs2[g].0));
    }
    assert(gs1 =~= gs2);
}

/// `a` is in strictly increasing order by `lt`.
pub open spec fn strictly_sorted<T>(a: Seq<T>, lt: spec_fn(T, T) -> bool) -> bool {
    forall|i: int, j: int| 0 <= i < j < a.len() ==> lt(a[i], a[j])
}

/// `lt` orders the elements of `a` strictly and totally.
pub open spec fn orders<T>(a: Seq<T>, lt: spec_fn(T, T) -> bool) -> bool {
    &&& forall|x: T| #[trigger] a.contains(x) ==> !lt(x, x)
    &&& forall|x: T, y: T| #[trigger] a.contains(x) && #[trigger] a.contains(y) ==> !(lt(x, y) && lt(y, x))
    &&& forall|x: T, y: T| #[trigger] a.contains(x) && #[trigger] a.contains(y) && x != y ==> lt(x, y) || lt(y, x)
}

proof fn lemma_sorted_prefix_agree<T>(a: Seq<T>, b: Seq<T>, lt: spec_fn(T, T) -> bool, g: int)
    requires
        strictly_sorted(a, lt),
        strictly_sorted(b, lt),
        orders(a, lt),
        forall|x: T| a.contains(x) <==> b.contains(x),
        0 <= g < a.len(),
        g < b.len(),
    ensures
        forall|t: int| 0 <= t <= g ==> #[trigger] a[t] == b[t],
    decreases g,
{
    if g > 0 {
        lemma_sorted_prefix_agree(a, b, lt, g - 1);
    }
    let (x, y) = (a[g], b[g]);
    assert(a.contains(x));
    assert(b.contains(y));
    assert(a.contains(y));
    assert(b.contains(x));
    if x != y {
        let h = choose|h: int| 0 <= h < b.len() && b[h] == x;
        let k = choose|k: int| 0 <= k < a.len() && a[k] == y;
        if lt(x, y) {
            if h < g {
                assert(a[h] == b[h]);
                assert(lt(a[h], a[g]));
            } else if h > g {
                assert(lt(b[g], b[h]));
            }
        } else {
            assert(lt(y, x));
            if k < g {
                assert(a[k] == b[k]);
                assert(lt(b[k], b[g]));
            } else if k > g {
                assert(lt(a[g], a[k]));
            }
        }
    }
}

/// Two sequences strictly sorted by the same strict total order, with the
/// same elements, are equal.
pub proof fn lemma_sorted_unique<T>(a: Seq<T>, b: Seq<T>, lt: spec_fn(T, T) -> bool)
    requires
        strictly_sorted(a, lt),
        strictly_sorted(b, lt),
        orders(a, lt),
        forall|x: T| a.contains(x) <==> b.contains(x),
    ensures
        a == b,
{
    let n = if a.len() < b.len() { a.len() } else { b.len() };
    if n > 0 {
        lemma_sorted_prefix_agree(a, b, lt, n - 1);
    }
    if a.len() < b.len() {
        let l = a.len() as int;
        assert(b.contains(b[l]));
        let h = choose|h: int| 0 <= h < a.len() && a[h] == b[l];
        assert(a[h] == b[h]);
        assert(lt(b[h], b[l]));
        assert(a.contains(a[h]));
    } else if b.len() < a.len() {
        let l = b.len() as int;
        assert(a.contains(a[l]));
        let h = choose|h: int| 0 <= h < b.len() && b[h] == a[l];
        assert(b.contains(a[l]));
        assert(a[h] == b[h]);
        assert(lt(a[h], a[l]));
        assert(a.contains(a[h]));
    }
    assert(a =~= b);
}

/// The keys of a grouping of `idx` are the keys of the positions of `idx`.
pub proof fn lemma_group_keys_present(
    keys: Seq<Seq<char>>,
    idx: Seq<usize>,
    gs: Seq<(Seq<char>, Seq<usize>)>,
)
    requires
        is_grouping(keys, idx, gs),
    ensures
        forall|k: Seq<char>|
            #[trigger] group_keys(gs).contains(k) <==> exists|j: int|
                0 <= j < idx.len() && keys[idx[j] as int] == k,
{
    assert forall|k: Seq<char>| #[trigger] group_keys(gs).contains(k) implies exists|j: int|
        0 <= j < idx.len() && keys[idx[j] as int] == k by {
        let g = choose|g: int| 0 <= g < group_keys(gs).len() && group_keys(gs)[g] == k;
        assert(gs[g].1 == part(keys, idx, gs[g].0));
        assert(gs[g].1.len() > 0);
        let x = gs[g].1[0];
        assert(gs[g].1.contains(x));
        lemma_in_part(keys, idx, k, x);
        let j = choose|j: int| 0 <= j < idx.len() && idx[j] == x;
        assert(keys[idx[j] as int] == k);
    }
}

} // verus!
