//! Reconstruction of every maximum-duration path.
//!
//! Starting from each sink whose longest-path duration equals the maximum,
//! the recorded optimal-parent lists are followed backwards; every branch
//! yields one path.  The collected paths are then ordered: more tasks
//! first, ties by ascending index sequence.

use vstd::prelude::*;

verus! {

broadcast use vstd::set::group_set_axioms;

/// Consecutive entries of `p` follow the recorded parent lists.
pub open spec fn linked(parents: Seq<Vec<usize>>, p: Seq<usize>) -> bool {
    &&& forall|t: int| 0 <= t < p.len() ==> ((#[trigger] p[t]) as int) < parents.len()
    &&& forall|t: int|
        0 <= t < p.len() - 1 ==> parents[(#[trigger] p[t]) as int]@.contains(p[t + 1])
}

/// `p` walks parent lists from its head down to a parentless task.
pub open spec fn rev_chain(parents: Seq<Vec<usize>>, p: Seq<usize>) -> bool {
    &&& p.len() > 0
    &&& linked(parents, p)
    &&& parents[p.last() as int]@.len() == 0
}

/// Every parent ranks strictly below its child in `pos`, so parent lists
/// can only be followed finitely often.
pub open spec fn parents_wf(parents: Seq<Vec<usize>>, pos: Map<int, nat>) -> bool {
    &&& forall|v: int| 0 <= v < parents.len() ==> pos.dom().contains(v)
    &&& forall|v: int, t: int|
        0 <= v < parents.len() && 0 <= t < parents[v]@.len() ==> {
            let x = (#[trigger] parents[v]@[t]) as int;
            0 <= x < parents.len() && pos[x] < pos[v]
        }
}

/// No parent list names the same task twice.
pub open spec fn parents_distinct(parents: Seq<Vec<usize>>) -> bool {
    forall|v: int, t1: int, t2: int|
        #![trigger parents[v]@[t1], parents[v]@[t2]]
        0 <= v < parents.len() && 0 <= t1 < t2 < parents[v]@.len() ==> parents[v]@[t1]
            != parents[v]@[t2]
}

/// Whether some entry of `paths` at or after `from` views to `q`.
pub open spec fn contains_from(paths: Seq<Vec<usize>>, q: Seq<usize>, from: int) -> bool {
    exists|m: int| from <= m < paths.len() && (#[trigger] paths[m])@ == q
}

/// The critical paths of a schedule, as index sequences, with their common
/// duration.
pub struct CriticalPaths {
    /// Every maximum-duration path, source first, in display order.
    pub paths: Vec<Vec<usize>>,
    /// The duration shared by all of them.
    pub duration: u32,
}

impl CriticalPaths {

/// Collects every parent-list walk that starts with the tasks already in
/// `temp_path` (or with `destination`, when `temp_path` is empty) and runs
/// down to a parentless task.  Each completed walk is appended to `paths`,
/// head first; `temp_path` is left as it was found, except that an empty
/// one keeps the pushed `destination`.
pub fn construct_paths(
    parents: &Vec<Vec<usize>>,
    paths: &mut Vec<Vec<usize>>,
    temp_path: &mut Vec<usize>,
    destination: usize,
    Ghost(pos): Ghost<Map<int, nat>>,
)
    requires
        parents_wf(parents@, pos),
        parents_distinct(parents@),
        (destination as int) < parents@.len(),
        old(temp_path)@.len() > 0 ==> old(temp_path)@.last() == destination,
        linked(parents@, old(temp_path)@),
    ensures
        final(temp_path)@ == if old(temp_path)@.len() == 0 {
            seq![destination]
        } else {
            old(temp_path)@
        },
        final(paths)@.len() >= old(paths)@.len(),
        forall|m: int| 0 <= m < old(paths)@.len() ==> final(paths)@[m] == old(paths)@[m],
        forall|m: int|
            old(paths)@.len() <= m < final(paths)@.len() ==> {
                let p = (#[trigger] final(paths)@[m])@;
                let e = final(temp_path)@;
                &&& rev_chain(parents@, p)
                &&& p.len() >= e.len()
                &&& p.subrange(0, e.len() as int) == e
            },
        forall|q: Seq<usize>|
            rev_chain(parents@, q) && q.len() >= final(temp_path)@.len() && q.subrange(
                0,
                final(temp_path)@.len() as int,
            ) == final(temp_path)@ ==> contains_from(final(paths)@, q, old(paths)@.len() as int),
        forall|m1: int, m2: int|
            #![trigger final(paths)@[m1], final(paths)@[m2]]
            old(paths)@.len() <= m1 < m2 < final(paths)@.len()
                ==> final(paths)@[m1]@ != final(paths)@[m2]@,
    decreases pos[destination as int],
{
    let ghost old_paths = paths@;
    let deg = parents[destination].len();
    if temp_path.len() == 0 {
        temp_path.push(destination);
    }
    let ghost e = temp_path@;
    if deg == 0 {
        let copy = crate::analyzer::copy_ids(temp_path);
        paths.push(copy);
        proof {
            assert(paths@[paths@.len() - 1]@ == e);
            assert(e.last() == destination);
            assert(e.subrange(0, e.len() as int) =~= e);
            assert(rev_chain(parents@, e));
            assert forall|q: Seq<usize>|
                rev_chain(parents@, q) && q.len() >= e.len() && q.subrange(0, e.len() as int)
                    == e implies contains_from(paths@, q, old_paths.len() as int) by {
                if q.len() > e.len() {
                    assert(q[e.len() - 1] == e[e.len() - 1]);
                    assert(q[e.len() - 1] == destination);
                    assert(parents[(q[e.len() - 1]) as int]@.contains(q[e.len() as int]));
                } else {
                    assert(q =~= e);
                    assert(paths@[paths@.len() - 1]@ == q);
                }
            }
        }
        return ;
    }
    let mut t: usize = 0;
    while t < deg
        invariant
            parents_wf(parents@, pos),
            parents_distinct(parents@),
            (destination as int) < parents@.len(),
            deg == parents@[destination as int]@.len(),
            0 <= t <= deg,
            temp_path@ == e,
            e.len() > 0,
            e.last() == destination,
            linked(parents@, e),
            paths@.len() >= old_paths.len(),
            forall|m: int| 0 <= m < old_paths.len() ==> paths@[m] == old_paths[m],
            forall|m: int|
                old_paths.len() <= m < paths@.len() ==> {
                    let p = (#[trigger] paths@[m])@;
                    &&& rev_chain(parents@, p)
                    &&& p.len() > e.len()
                    &&& p.subrange(0, e.len() as int) == e
                    &&& exists|s: int|
                        0 <= s < t && p[e.len() as int] == parents@[destination as int]@[s]
                },
            forall|q: Seq<usize>|
                rev_chain(parents@, q) && q.len() > e.len() && q.subrange(0, e.len() as int) == e
                    && (exists|s: int|
                    0 <= s < t && q[e.len() as int] == parents@[destination as int]@[s])
                    ==> contains_from(paths@, q, old_paths.len() as int),
            forall|m1: int, m2: int|
                old_paths.len() <= m1 < m2 < paths@.len() ==> (#[trigger] paths@[m1])@ != (
                #[trigger] paths@[m2])@,
        decreases deg - t,
    {
        let parent = parents[destination][t];
        let ghost paths_before = paths@;
        temp_path.push(parent);
        proof {
            assert(temp_path@ == e.push(parent));
            assert(temp_path@.last() == parent);
            assert forall|s: int| 0 <= s < temp_path@.len() - 1 implies parents@[(
            #[trigger] temp_path@[s]) as int]@.contains(temp_path@[s + 1]) by {
                if s < e.len() - 1 {
                    assert(temp_path@[s] == e[s]);
                    assert(temp_path@[s + 1] == e[s + 1]);
                } else {
                    assert(temp_path@[s] == destination);
                    assert(temp_path@[s + 1] == parent);
                    assert(parents@[destination as int]@[t as int] == parent);
                }
            }
            assert(pos[parent as int] < pos[destination as int]);
        }
        CriticalPaths::construct_paths(parents, paths, temp_path, parent, Ghost(pos));
        temp_path.pop();
        proof {
            assert(e.push(parent).drop_last() =~= e);
            assert(temp_path@ == e);
            let ee = e.push(parent);
            // Each path appended in this round extends `e` by this parent.
            assert forall|m: int| old_paths.len() <= m < paths@.len() implies {
                let p = (#[trigger] paths@[m])@;
                &&& rev_chain(parents@, p)
                &&& p.len() > e.len()
                &&& p.subrange(0, e.len() as int) == e
                &&& exists|s: int|
                    0 <= s < t + 1 && p[e.len() as int] == parents@[destination as int]@[s]
            } by {
                let p = paths@[m]@;
                if m < paths_before.len() {
                    assert(paths@[m] == paths_before[m]);
                } else {
                    assert(p.subrange(0, ee.len() as int) == ee);
                    assert(p.len() >= ee.len());
                    assert forall|s: int| 0 <= s < e.len() implies p[s] == e[s] by {
                        assert(p.subrange(0, ee.len() as int)[s] == p[s]);
                        assert(ee[s] == e[s]);
                    }
                    assert(p.subrange(0, e.len() as int) =~= e);
                    assert(p[e.len() as int] == ee[e.len() as int]);
                    assert(parents@[destination as int]@[t as int] == parent);
                }
            }
            // Everything that walks through one of the parents seen so far
            // has been collected.
            assert forall|q: Seq<usize>|
                rev_chain(parents@, q) && q.len() > e.len() && q.subrange(0, e.len() as int) == e
                    && (exists|s: int|
                    0 <= s < t + 1 && q[e.len() as int] == parents@[destination as int]@[s])
                    implies contains_from(paths@, q, old_paths.len() as int) by {
                let s = choose|s: int|
                    0 <= s < t + 1 && q[e.len() as int] == parents@[destination as int]@[s];
                if s < t as int {
                    assert(contains_from(paths_before, q, old_paths.len() as int));
                    let m = choose|m: int|
                        old_paths.len() <= m < paths_before.len() && (#[trigger] paths_before[m])@
                            == q;
                    assert(paths@[m]@ == q);
                } else {
                    assert(q[e.len() as int] == parent);
                    assert(q.subrange(0, ee.len() as int) =~= ee);
                    assert(contains_from(paths@, q, paths_before.len() as int));
                    let m = choose|m: int|
                        paths_before.len() <= m < paths@.len() && (#[trigger] paths@[m])@ == q;
                    assert(contains_from(paths@, q, old_paths.len() as int));
                }
            }
            // Paths from different branches differ where the branch begins.
            assert forall|m1: int, m2: int|
                old_paths.len() <= m1 < m2 < paths@.len() implies (#[trigger] paths@[m1])@ != (
            #[trigger] paths@[m2])@ by {
                if m1 < paths_before.len() && m2 >= paths_before.len() {
                    let p1 = paths@[m1]@;
                    let p2 = paths@[m2]@;
                    assert(paths@[m1] == paths_before[m1]);
                    let s = choose|s: int|
                        0 <= s < t && p1[e.len() as int] == parents@[destination as int]@[s];
                    assert(p2.subrange(0, ee.len() as int) == ee);
                    assert(p2[e.len() as int] == ee[e.len() as int]);
                    assert(p2[e.len() as int] == parent);
                    assert(parents@[destination as int]@[s] != parents@[destination as int]@[t as int]);
                }
            }
        }
        t += 1;
    }
    proof {
        // A walk that extends `e` must go through some recorded parent of
        // `destination`, and all of those have been followed.
        assert forall|q: Seq<usize>|
            rev_chain(parents@, q) && q.len() >= e.len() && q.subrange(0, e.len() as int)
                == e implies contains_from(paths@, q, old_paths.len() as int) by {
            assert(q[e.len() - 1] == e[e.len() - 1]);
            assert(q[e.len() - 1] == destination);
            if q.len() == e.len() {
                assert(q.last() == destination);
                assert(parents@[destination as int]@.len() == 0);
            } else {
                assert(parents@[(q[e.len() - 1]) as int]@.contains(q[e.len() as int]));
                let s = choose|s: int|
                    0 <= s < parents@[destination as int]@.len() && parents@[destination as int]@[s]
                        == q[e.len() as int];
            }
        }
    }
}

/// Finds the duration of the heaviest path ending at a sink, then collects
/// every path that reaches it, reading source to sink, in display order:
/// more tasks first, ties by ascending lexicographic order.
#[verifier::rlimit(60)]
pub fn find_critical_paths(
    parents: &Vec<Vec<usize>>,
    longest: &Vec<u32>,
    sinks: &Vec<usize>,
    Ghost(pos): Ghost<Map<int, nat>>,
) -> (r: CriticalPaths)
    requires
        parents_wf(parents@, pos),
        parents_distinct(parents@),
        longest@.len() == parents@.len(),
        forall|q: int| 0 <= q < sinks@.len() ==> ((#[trigger] sinks@[q]) as int) < parents@.len(),
        forall|q1: int, q2: int| 0 <= q1 < q2 < sinks@.len() ==> sinks@[q1] != sinks@[q2],
    ensures
        sinks@.len() == 0 ==> r.duration == 0 && r.paths@.len() == 0,
        forall|q: int|
            0 <= q < sinks@.len() ==> longest@[(#[trigger] sinks@[q]) as int] <= r.duration,
        sinks@.len() > 0 ==> exists|q: int|
            0 <= q < sinks@.len() && longest@[(#[trigger] sinks@[q]) as int] == r.duration,
        forall|m: int|
            0 <= m < r.paths@.len() ==> {
                let p = (#[trigger] r.paths@[m])@;
                &&& p.len() > 0
                &&& rev_chain(parents@, p.reverse())
                &&& sinks@.contains(p.last())
                &&& longest@[p.last() as int] == r.duration
            },
        forall|q: Seq<usize>|
            rev_chain(parents@, q) && sinks@.contains(q[0]) && longest@[q[0] as int] == r.duration
                ==> contains_from(r.paths@, q.reverse(), 0),
        forall|m1: int, m2: int|
            #![trigger r.paths@[m1], r.paths@[m2]]
            0 <= m1 < m2 < r.paths@.len() ==> r.paths@[m1]@ != r.paths@[m2]@,
        forall|m1: int, m2: int|
            #![trigger r.paths@[m1], r.paths@[m2]]
            0 <= m1 < m2 < r.paths@.len() ==> path_le(r.paths@[m1]@, r.paths@[m2]@),
{
    broadcast use vstd::seq_lib::group_to_multiset_ensures;

    let mut duration: u32 = 0;
    let mut k: usize = 0;
    while k < sinks.len()
        invariant
            0 <= k <= sinks@.len(),
            longest@.len() == parents@.len(),
            forall|q: int|
                0 <= q < sinks@.len() ==> ((#[trigger] sinks@[q]) as int) < parents@.len(),
            forall|q: int| 0 <= q < k ==> longest@[(#[trigger] sinks@[q]) as int] <= duration,
            duration == 0 || exists|q: int|
                0 <= q < k && longest@[(#[trigger] sinks@[q]) as int] == duration,
        decreases sinks@.len() - k,
    {
        let s = sinks[k];
        if longest[s] > duration {
            duration = longest[s];
        }
        k += 1;
    }
    proof {
        if sinks@.len() > 0 && duration == 0 {
            assert(longest@[sinks@[0] as int] <= 0);
        }
    }
    let mut all: Vec<Vec<usize>> = Vec::new();
    let mut k: usize = 0;
    while k < sinks.len()
        invariant
            0 <= k <= sinks@.len(),
            parents_wf(parents@, pos),
            parents_distinct(parents@),
            longest@.len() == parents@.len(),
            forall|q: int|
                0 <= q < sinks@.len() ==> ((#[trigger] sinks@[q]) as int) < parents@.len(),
            forall|q1: int, q2: int| 0 <= q1 < q2 < sinks@.len() ==> sinks@[q1] != sinks@[q2],
            forall|m: int|
                0 <= m < all@.len() ==> {
                    let p = (#[trigger] all@[m])@;
                    &&& rev_chain(parents@, p)
                    &&& longest@[p[0] as int] == duration
                    &&& exists|kk: int| 0 <= kk < k && p[0] == sinks@[kk]
                },
            forall|q: Seq<usize>|
                rev_chain(parents@, q) && longest@[q[0] as int] == duration && (exists|kk: int|
                    0 <= kk < k && q[0] == sinks@[kk]) ==> contains_from(all@, q, 0),
            forall|m1: int, m2: int|
                #![trigger all@[m1], all@[m2]]
                0 <= m1 < m2 < all@.len() ==> all@[m1]@ != all@[m2]@,
        decreases sinks@.len() - k,
    {
        let s = sinks[k];
        let ghost all_before = all@;
        if longest[s] == duration {
            let mut temp: Vec<usize> = Vec::new();
            CriticalPaths::construct_paths(parents, &mut all, &mut temp, s, Ghost(pos));
            proof {
                let e = seq![s];
                assert(temp@ == e);
                assert forall|m: int| 0 <= m < all@.len() implies {
                    let p = (#[trigger] all@[m])@;
                    &&& rev_chain(parents@, p)
                    &&& longest@[p[0] as int] == duration
                    &&& exists|kk: int| 0 <= kk < k + 1 && p[0] == sinks@[kk]
                } by {
                    let p = all@[m]@;
                    if m < all_before.len() {
                        assert(all@[m] == all_before[m]);
                    } else {
                        assert(p.subrange(0, 1) == e);
                        assert(p.subrange(0, 1)[0] == p[0]);
                        assert(p[0] == s);
                        assert(sinks@[k as int] == s);
                    }
                }
                assert forall|q: Seq<usize>|
                    rev_chain(parents@, q) && longest@[q[0] as int] == duration && (exists|kk: int|
                        0 <= kk < k + 1 && q[0] == sinks@[kk]) implies contains_from(
                    all@,
                    q,
                    0,
                ) by {
                    let kk = choose|kk: int| 0 <= kk < k + 1 && q[0] == sinks@[kk];
                    if kk < k as int {
                        assert(contains_from(all_before, q, 0));
                        let m = choose|m: int|
                            0 <= m < all_before.len() && (#[trigger] all_before[m])@ == q;
                        assert(all@[m]@ == q);
                    } else {
                        assert(q[0] == s);
                        assert(q.subrange(0, 1) =~= e);
                        assert(contains_from(all@, q, all_before.len() as int));
                    }
                }
                assert forall|m1: int, m2: int|
                    #![trigger all@[m1], all@[m2]]
                    0 <= m1 < m2 < all@.len() implies all@[m1]@ != all@[m2]@ by {
                    if m1 < all_before.len() && m2 >= all_before.len() {
                        let p1 = all@[m1]@;
                        let p2 = all@[m2]@;
                        assert(all@[m1] == all_before[m1]);
                        let kk = choose|kk: int| 0 <= kk < k && p1[0] == sinks@[kk];
                        assert(p2.subrange(0, 1) == e);
                        assert(p2.subrange(0, 1)[0] == p2[0]);
                        assert(p2[0] == s);
                        assert(sinks@[kk] != sinks@[k as int]);
                        assert(p1[0] != p2[0]);
                    }
                }
            }
        } else {
            proof {
                assert forall|q: Seq<usize>|
                    rev_chain(parents@, q) && longest@[q[0] as int] == duration && (exists|kk: int|
                        0 <= kk < k + 1 && q[0] == sinks@[kk]) implies contains_from(
                    all@,
                    q,
                    0,
                ) by {
                    let kk = choose|kk: int| 0 <= kk < k + 1 && q[0] == sinks@[kk];
                    assert(kk != k as int);
                }
            }
        }
        k += 1;
    }
    proof {
        if sinks@.len() == 0 && all@.len() > 0 {
            let p = (all@[0])@;
            assert(rev_chain(parents@, p));
            assert(false);
        }
    }
    // Turn each walk around, so that paths read source to sink.
    let mut fwd: Vec<Vec<usize>> = Vec::new();
    let mut m: usize = 0;
    while m < all.len()
        invariant
            0 <= m <= all@.len(),
            fwd@.len() == m,
            forall|t: int| 0 <= t < m ==> (#[trigger] fwd@[t])@ == all@[t]@.reverse(),
        decreases all@.len() - m,
    {
        fwd.push(reverse_ids(&all[m]));
        m += 1;
    }
    let ghost pre_sort = fwd@;
    sort_paths(&mut fwd);
    proof {
        // Sorting kept exactly the same collection, so every property of
        // the collected walks carries over, as does their distinctness.
        assert forall|mm: int| 0 <= mm < fwd@.len() implies {
            let p = (#[trigger] fwd@[mm])@;
            &&& p.len() > 0
            &&& rev_chain(parents@, p.reverse())
            &&& sinks@.contains(p.last())
            &&& longest@[p.last() as int] == duration
        } by {
            let p = fwd@[mm]@;
            assert(views_of(fwd@)[mm] == p);
            assert(views_of(fwd@).to_multiset().count(p) > 0);
            assert(views_of(pre_sort).to_multiset().count(p) > 0);
            assert(views_of(pre_sort).contains(p));
            let m0 = choose|m0: int|
                0 <= m0 < pre_sort.len() && (#[trigger] views_of(pre_sort)[m0]) == p;
            assert(pre_sort[m0]@ == p);
            let q = all@[m0]@;
            assert(p == q.reverse());
            assert(q.reverse().reverse() =~= q);
            assert(p.reverse() == q);
            assert(rev_chain(parents@, q));
            assert(p.last() == q.reverse()[p.len() - 1]);
            assert(p.last() == q[0]);
            let kk = choose|kk: int| 0 <= kk < sinks@.len() && q[0] == sinks@[kk];
            assert(sinks@[kk] == q[0]);
        }
        assert forall|q: Seq<usize>|
            rev_chain(parents@, q) && sinks@.contains(q[0]) && longest@[q[0] as int]
                == duration implies contains_from(fwd@, q.reverse(), 0) by {
            let kk = choose|kk: int| 0 <= kk < sinks@.len() && sinks@[kk] == q[0];
            assert(contains_from(all@, q, 0));
            let m0 = choose|m0: int| 0 <= m0 < all@.len() && (#[trigger] all@[m0])@ == q;
            assert(pre_sort[m0]@ == q.reverse());
            assert(views_of(pre_sort)[m0] == q.reverse());
            assert(views_of(pre_sort).contains(q.reverse()));
            assert(views_of(pre_sort).to_multiset().count(q.reverse()) > 0);
            assert(views_of(fwd@).to_multiset().count(q.reverse()) > 0);
            assert(views_of(fwd@).contains(q.reverse()));
            let mm = choose|mm: int|
                0 <= mm < fwd@.len() && (#[trigger] views_of(fwd@)[mm]) == q.reverse();
            assert(fwd@[mm]@ == q.reverse());
        }
        // Distinctness: the unsorted collection had no repeats, and the
        // multiset is unchanged.
        assert forall|t1: int, t2: int|
            0 <= t1 < t2 < pre_sort.len() implies views_of(pre_sort)[t1] != views_of(
            pre_sort,
        )[t2] by {
            let q1 = all@[t1]@;
            let q2 = all@[t2]@;
            assert(q1 != q2);
            assert(views_of(pre_sort)[t1] == q1.reverse());
            assert(views_of(pre_sort)[t2] == q2.reverse());
            if q1.reverse() == q2.reverse() {
                assert(q1.reverse().reverse() =~= q1);
                assert(q2.reverse().reverse() =~= q2);
            }
        }
        assert(views_of(pre_sort).no_duplicates());
        views_of(pre_sort).lemma_multiset_has_no_duplicates();
        views_of(fwd@).lemma_multiset_has_no_duplicates_conv();
        assert forall|m1: int, m2: int|
            #![trigger fwd@[m1], fwd@[m2]]
            0 <= m1 < m2 < fwd@.len() implies fwd@[m1]@ != fwd@[m2]@ by {
            assert(views_of(fwd@)[m1] == fwd@[m1]@);
            assert(views_of(fwd@)[m2] == fwd@[m2]@);
        }
    }
    CriticalPaths { paths: fwd, duration }
}

}

/// Builds the reversed copy of a vector of indices.
fn reverse_ids(v: &Vec<usize>) -> (r: Vec<usize>)
    ensures
        r@ == v@.reverse(),
{
    let n = v.len();
    let mut r: Vec<usize> = Vec::new();
    let mut k: usize = 0;
    while k < n
        invariant
            0 <= k <= n,
            n == v@.len(),
            r@.len() == k,
            forall|m: int| 0 <= m < k ==> (#[trigger] r@[m]) == v@[n - 1 - m],
        decreases n - k,
    {
        r.push(v[n - 1 - k]);
        k += 1;
    }
    proof {
        assert(r@ =~= v@.reverse());
    }
    r
}

/// Strict lexicographic order on index sequences.
pub open spec fn id_lex_lt(a: Seq<usize>, b: Seq<usize>) -> bool
    decreases a.len(),
{
    if b.len() == 0 {
        false
    } else if a.len() == 0 {
        true
    } else if a[0] < b[0] {
        true
    } else if a[0] == b[0] {
        id_lex_lt(a.drop_first(), b.drop_first())
    } else {
        false
    }
}

/// Two distinct index sequences are ordered one way or the other.
pub proof fn lemma_id_lex_connex(a: Seq<usize>, b: Seq<usize>)
    requires
        a != b,
    ensures
        id_lex_lt(a, b) || id_lex_lt(b, a),
    decreases a.len(),
{
    if a.len() == 0 || b.len() == 0 {
        if a.len() == 0 && b.len() == 0 {
            assert(a =~= b);
        }
    } else if a[0] == b[0] {
        if a.drop_first() == b.drop_first() {
            assert(a.drop_first().len() == b.drop_first().len());
            assert forall|k: int| 0 <= k < a.len() implies a[k] == b[k] by {
                if k > 0 {
                    assert(a[k] == a.drop_first()[k - 1]);
                    assert(b[k] == b.drop_first()[k - 1]);
                }
            }
            assert(a =~= b);
        }
        lemma_id_lex_connex(a.drop_first(), b.drop_first());
    }
}

/// [`id_lex_lt`] is asymmetric.
pub proof fn lemma_id_lex_asym(a: Seq<usize>, b: Seq<usize>)
    requires
        id_lex_lt(a, b),
    ensures
        !id_lex_lt(b, a),
    decreases a.len(),
{
    if a.len() > 0 && b.len() > 0 && a[0] == b[0] {
        lemma_id_lex_asym(a.drop_first(), b.drop_first());
    }
}

/// [`id_lex_lt`] is transitive.
pub proof fn lemma_id_lex_trans(a: Seq<usize>, b: Seq<usize>, c: Seq<usize>)
    requires
        id_lex_lt(a, b),
        id_lex_lt(b, c),
    ensures
        id_lex_lt(a, c),
    decreases a.len(),
{
    if a.len() > 0 && b.len() > 0 && c.len() > 0 && a[0] == b[0] && b[0] == c[0] {
        lemma_id_lex_trans(a.drop_first(), b.drop_first(), c.drop_first());
    }
}

/// The display order of critical paths: more tasks first, ties by
/// ascending lexicographic order of the index sequences.
pub open spec fn path_lt(a: Seq<usize>, b: Seq<usize>) -> bool {
    a.len() > b.len() || (a.len() == b.len() && id_lex_lt(a, b))
}

/// Non-strict version of [`path_lt`].
pub open spec fn path_le(a: Seq<usize>, b: Seq<usize>) -> bool {
    path_lt(a, b) || a == b
}

/// [`path_lt`] orders every pair of distinct sequences.
pub proof fn lemma_path_connex(a: Seq<usize>, b: Seq<usize>)
    requires
        a != b,
    ensures
        path_lt(a, b) || path_lt(b, a),
{
    if a.len() == b.len() {
        lemma_id_lex_connex(a, b);
    }
}

/// [`path_le`] is transitive.
pub proof fn lemma_path_le_trans(a: Seq<usize>, b: Seq<usize>, c: Seq<usize>)
    requires
        path_le(a, b),
        path_le(b, c),
    ensures
        path_le(a, c),
{
    if a != b && b != c {
        if a.len() == b.len() && b.len() == c.len() {
            lemma_id_lex_trans(a, b, c);
            lemma_id_lex_asym(a, b);
            if a == c {
                lemma_id_lex_asym(a, b);
            }
        }
    }
}

/// Decides [`path_lt`] at run time.
fn path_lt_exec(a: &Vec<usize>, b: &Vec<usize>) -> (r: bool)
    ensures
        r == path_lt(a@, b@),
{
    if a.len() > b.len() {
        return true;
    }
    if a.len() < b.len() {
        return false;
    }
    let n = a.len();
    let mut i: usize = 0;
    proof {
        assert(a@.skip(0) =~= a@);
        assert(b@.skip(0) =~= b@);
    }
    while i < n
        invariant
            0 <= i <= n,
            n == a@.len() == b@.len(),
            forall|k: int| 0 <= k < i ==> a@[k] == b@[k],
            id_lex_lt(a@, b@) == id_lex_lt(a@.skip(i as int), b@.skip(i as int)),
        decreases n - i,
    {
        let x = a[i];
        let y = b[i];
        proof {
            assert(a@.skip(i as int)[0] == a@[i as int]);
            assert(b@.skip(i as int)[0] == b@[i as int]);
        }
        if x < y {
            return true;
        }
        if y < x {
            return false;
        }
        proof {
            assert(a@.skip(i as int).drop_first() =~= a@.skip(i + 1));
            assert(b@.skip(i as int).drop_first() =~= b@.skip(i + 1));
        }
        i += 1;
    }
    false
}

/// The views of a sequence of index vectors.
pub open spec fn views_of(s: Seq<Vec<usize>>) -> Seq<Seq<usize>> {
    s.map_values(|v: Vec<usize>| v@)
}

/// Sorts paths into display order, keeping exactly the same collection.
pub fn sort_paths(v: &mut Vec<Vec<usize>>)
    ensures
        final(v)@.len() == old(v)@.len(),
        forall|m1: int, m2: int|
            #![trigger final(v)@[m1], final(v)@[m2]]
            0 <= m1 < m2 < final(v)@.len() ==> path_le(final(v)@[m1]@, final(v)@[m2]@),
        views_of(final(v)@).to_multiset() == views_of(old(v)@).to_multiset(),
{
    broadcast use vstd::seq_lib::group_to_multiset_ensures;

    let ghost orig = v@;
    let mut i: usize = 1;
    while i < v.len()
        invariant
            1 <= i <= v@.len() || v@.len() == 0,
            v@.len() == orig.len(),
            forall|m1: int, m2: int|
                #![trigger v@[m1], v@[m2]]
                0 <= m1 < m2 < i ==> path_le(v@[m1]@, v@[m2]@),
            views_of(v@).to_multiset() == views_of(orig).to_multiset(),
        decreases v@.len() - i,
    {
        let mut p: usize = 0;
        while p < i
            invariant_except_break
                0 <= p <= i < v@.len(),
                forall|m: int| 0 <= m < p ==> !path_lt(v@[i as int]@, (#[trigger] v@[m])@),
            ensures
                0 <= p <= i < v@.len(),
                forall|m: int| 0 <= m < p ==> !path_lt(v@[i as int]@, (#[trigger] v@[m])@),
                p < i ==> path_lt(v@[i as int]@, v@[p as int]@),
            decreases i - p,
        {
            if path_lt_exec(&v[i], &v[p]) {
                break;
            }
            p += 1;
        }
        let ghost before = v@;
        let x = v.remove(i);
        proof {
            assert(views_of(v@) =~= views_of(before).remove(i as int));
            assert(views_of(before)[i as int] == x@);
            views_of(before).to_multiset_ensures();
            assert(views_of(v@).to_multiset() == views_of(before).to_multiset().remove(x@));
        }
        let ghost removed = v@;
        v.insert(p, x);
        proof {
            assert(views_of(v@) =~= views_of(removed).insert(p as int, x@));
            vstd::seq_lib::to_multiset_insert(views_of(removed), p as int, x@);
            assert(views_of(v@).to_multiset() == views_of(removed).to_multiset().insert(x@));
            assert(views_of(before).to_multiset().contains(x@));
            assert(views_of(v@).to_multiset() =~= views_of(before).to_multiset());
            // The sorted prefix grew by one.
            assert forall|m1: int, m2: int|
                #![trigger v@[m1], v@[m2]]
                0 <= m1 < m2 < i + 1 implies path_le(v@[m1]@, v@[m2]@) by {
                let pi = p as int;
                let a1 = if m1 < pi {
                    before[m1]@
                } else if m1 == pi {
                    x@
                } else {
                    before[m1 - 1]@
                };
                let a2 = if m2 < pi {
                    before[m2]@
                } else if m2 == pi {
                    x@
                } else {
                    before[m2 - 1]@
                };
                assert(v@[m1]@ == a1);
                assert(v@[m2]@ == a2);
                if m2 < pi {
                } else if m2 == pi {
                    assert(!path_lt(x@, before[m1]@));
                    if x@ != before[m1]@ {
                        lemma_path_connex(x@, before[m1]@);
                    }
                } else if m1 == pi {
                    if m2 - 1 == pi {
                        assert(path_lt(x@, before[pi]@));
                    } else {
                        assert(path_lt(x@, before[pi]@));
                        assert(path_le(before[pi]@, before[m2 - 1]@));
                        lemma_path_le_trans(x@, before[pi]@, before[m2 - 1]@);
                    }
                } else if m1 < pi {
                    if m2 - 1 == m1 {
                        assert(!path_lt(x@, before[m1]@));
                        if x@ != before[m1]@ {
                            lemma_path_connex(x@, before[m1]@);
                        }
                        assert(a2 == before[m1]@);
                        assert(path_le(a1, a2));
                    } else {
                        assert(path_le(before[m1]@, before[m2 - 1]@));
                    }
                } else {
                    assert(path_le(before[m1 - 1]@, before[m2 - 1]@));
                }
            }
        }
        i += 1;
    }
}

} // verus!
