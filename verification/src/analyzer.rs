//! The schedule analysis engine.
//!
//! A Kahn-style topological traversal, driven by picking the ready task
//! with the least completion time, computes for every task the duration of
//! the longest path ending at it, detects cycles, tracks the sinks, and
//! measures the peak number of simultaneously ready tasks.

use vstd::prelude::*;

use crate::graph::contains_text;
use crate::graph::is_sink;
use crate::graph::is_source;
use crate::graph::labels_strictly_sorted;
use crate::graph::mentioned_in;
use crate::graph::Graph;
use crate::task::lex_lt;
use crate::task::Duration;
use crate::task::TaskLabel;
use crate::task::TaskOrder;
use crate::task::TotalDuration;

verus! {

broadcast use vstd::set::group_set_axioms;

/// The indices whose entry in `b` is set.
pub open spec fn set_of_trues(b: Seq<bool>) -> Set<int> {
    Set::new(|i: int| 0 <= i < b.len() && b[i])
}

/// The predecessors of task `j` that are not yet popped.
pub open spec fn live_preds(g: Graph, popped: Seq<bool>, j: int) -> Set<int> {
    Set::new(|i: int| 0 <= i < g.n() && g.edge(i, j) && !popped[i])
}

/// A set of indices drawn from `0..n` is finite, with at most `n` elements.
pub proof fn lemma_bounded_int_set(s: Set<int>, n: int)
    requires
        0 <= n,
        forall|i: int| s.contains(i) ==> 0 <= i < n,
    ensures
        s.finite(),
        s.len() <= n,
{
    vstd::set_lib::lemma_int_range(0, n);
    assert(s.subset_of(vstd::set_lib::set_int_range(0, n)));
    vstd::set_lib::lemma_len_subset(s, vstd::set_lib::set_int_range(0, n));
}

/// Why an analysis could not be produced.
#[derive(Debug, PartialEq, Eq, Clone)]
pub enum AnalysisError {
    /// Both the declaration set and the duration map are empty.
    EmptyInput,
    /// These labels appear in declarations but have no duration; sorted.
    MissingDurations(Vec<TaskLabel>),
    /// These labels have durations but appear in no declaration; sorted.
    MissingOrders(Vec<TaskLabel>),
    /// The precedence relation is not acyclic.
    Cycle,
}

/// The quoted, comma-separated items of a label list, from position `m`
/// on.
pub open spec fn label_list_items(v: Seq<TaskLabel>, m: int) -> Seq<char>
    decreases v.len() - m,
{
    if m < 0 || m >= v.len() {
        Seq::empty()
    } else {
        (if m > 0 {
            ", "@
        } else {
            Seq::<char>::empty()
        }) + "\""@ + v[m]@ + "\""@ + label_list_items(v, m + 1)
    }
}

/// A label list rendered as a bracketed, comma-separated, quoted list.
pub open spec fn label_list_rep(v: Seq<TaskLabel>) -> Seq<char> {
    "["@ + label_list_items(v, 0) + "]"@
}

/// The text each analysis error renders to.
pub open spec fn analysis_error_rep(e: AnalysisError) -> Seq<char> {
    match e {
        AnalysisError::EmptyInput => "Input is empty"@,
        AnalysisError::MissingDurations(v) => "Schedule is missing durations for: "@
            + label_list_rep(v@),
        AnalysisError::MissingOrders(v) => "Schedule is missing orders for: "@ + label_list_rep(
            v@,
        ),
        AnalysisError::Cycle => "There's a cycle in the schedule"@,
    }
}

/// A user-facing description of an analysis error.
pub fn format_analysis_error(err: &AnalysisError) -> (r: String)
    ensures
        r@ == analysis_error_rep(*err),
{
    match err {
        AnalysisError::EmptyInput => String::from_str("Input is empty"),
        AnalysisError::MissingDurations(v) => {
            let mut s = String::from_str("Schedule is missing durations for: ");
            s.append(format_label_list(v).as_str());
            s
        },
        AnalysisError::MissingOrders(v) => {
            let mut s = String::from_str("Schedule is missing orders for: ");
            s.append(format_label_list(v).as_str());
            s
        },
        AnalysisError::Cycle => String::from_str("There's a cycle in the schedule"),
    }
}

/// Renders labels as a bracketed, comma-separated, quoted list.
fn format_label_list(v: &Vec<TaskLabel>) -> (r: String)
    ensures
        r@ == label_list_rep(v@),
{
    let mut s = String::from_str("[");
    let mut k: usize = 0;
    while k < v.len()
        invariant
            0 <= k <= v@.len(),
            "["@ + label_list_items(v@, 0) == s@ + label_list_items(v@, k as int),
        decreases v@.len() - k,
    {
        if k > 0 {
            s.append(", ");
        }
        s.append("\"");
        s.append(v[k].as_str());
        s.append("\"");
        k += 1;
    }
    s.append("]");
    proof {
        assert(label_list_items(v@, v@.len() as int) =~= Seq::<char>::empty());
        assert(s@ =~= label_list_rep(v@));
    }
    s
}

/// The immutable result of analyzing a schedule.
#[derive(Debug)]
pub struct ScheduleAnalysis {
    max_parallelism: usize,
    task_count: usize,
    minimum_completion_time: TotalDuration,
    critical_path_count: usize,
    critical_paths: Vec<Vec<TaskLabel>>,
}

impl ScheduleAnalysis {
    /// The peak number of simultaneously ready tasks.
    pub closed spec fn spec_max_parallelism(&self) -> usize {
        self.max_parallelism
    }

    /// The number of distinct tasks.
    pub closed spec fn spec_task_count(&self) -> usize {
        self.task_count
    }

    /// The duration of the heaviest source-to-sink path.
    pub closed spec fn spec_minimum_completion_time(&self) -> TotalDuration {
        self.minimum_completion_time
    }

    /// The number of critical paths.
    pub closed spec fn spec_critical_path_count(&self) -> usize {
        self.critical_path_count
    }

    /// The critical paths, each a sequence of labels.
    pub closed spec fn spec_critical_paths(&self) -> Seq<Vec<TaskLabel>> {
        self.critical_paths@
    }

    /// How many tasks must be able to run at once for the minimum
    /// completion time to be reachable.
    pub fn max_parallelism(&self) -> (r: usize)
        ensures
            r == self.spec_max_parallelism(),
    {
        self.max_parallelism
    }

    /// How many distinct tasks the schedule has.
    pub fn task_count(&self) -> (r: usize)
        ensures
            r == self.spec_task_count(),
    {
        self.task_count
    }

    /// The shortest wall-clock time in which every task can finish, given
    /// unlimited parallel executors.
    pub fn minimum_completion_time(&self) -> (r: TotalDuration)
        ensures
            r == self.spec_minimum_completion_time(),
    {
        self.minimum_completion_time
    }

    /// How many maximum-duration paths the schedule has.
    pub fn critical_path_count(&self) -> (r: usize)
        ensures
            r == self.spec_critical_path_count(),
    {
        self.critical_path_count
    }

    /// Every maximum-duration path, longest (by task count) first, ties in
    /// lexicographic label order.
    pub fn critical_paths(&self) -> (r: &Vec<Vec<TaskLabel>>)
        ensures
            r@ == self.spec_critical_paths(),
    {
        &self.critical_paths
    }
}

/// Whether `s` has the value `x` at or after position `t`.
pub open spec fn suffix_contains(s: Seq<usize>, t: int, x: int) -> bool {
    exists|k: int| t <= k < s.len() && (#[trigger] s[k]) as int == x
}

/// Whether ready task `a` is picked no later than ready task `b`: it
/// completes earlier, or at the same instant with the larger index.
pub open spec fn key_le(longest: Seq<u32>, a: usize, b: usize) -> bool {
    longest[a as int] < longest[b as int] || (longest[a as int] == longest[b as int] && a >= b)
}

/// Picks the position of the ready task with the least completion time,
/// ties broken towards the larger index.
fn pick_min(ready: &Vec<usize>, longest: &Vec<u32>) -> (m: usize)
    requires
        ready@.len() > 0,
        forall|t: int| 0 <= t < ready@.len() ==> (#[trigger] ready@[t]) < longest@.len(),
    ensures
        m < ready@.len(),
        forall|t: int| 0 <= t < ready@.len() ==> key_le(longest@, ready@[m as int], #[trigger] ready@[t]),
        m as int == sim_pick_from(longest@, ready@, 0, 1),
{
    let mut m: usize = 0;
    let mut t: usize = 1;
    while t < ready.len()
        invariant
            0 <= m < t <= ready@.len(),
            forall|s: int| 0 <= s < ready@.len() ==> (#[trigger] ready@[s]) < longest@.len(),
            forall|s: int| 0 <= s < t ==> key_le(longest@, ready@[m as int], #[trigger] ready@[s]),
            sim_pick_from(longest@, ready@, 0, 1) == sim_pick_from(
                longest@,
                ready@,
                m as int,
                t as int,
            ),
        decreases ready@.len() - t,
    {
        let a = ready[t];
        let b = ready[m];
        if longest[a] < longest[b] || (longest[a] == longest[b] && a > b) {
            m = t;
        }
        t += 1;
    }
    m
}

/// Copies a vector of indices.
pub(crate) fn copy_ids(v: &Vec<usize>) -> (r: Vec<usize>)
    ensures
        r@ == v@,
{
    let mut r: Vec<usize> = Vec::new();
    let mut k: usize = 0;
    while k < v.len()
        invariant
            0 <= k <= v@.len(),
            r@ == v@.subrange(0, k as int),
        decreases v@.len() - k,
    {
        r.push(v[k]);
        k += 1;
    }
    proof {
        assert(v@.subrange(0, v@.len() as int) =~= v@);
    }
    r
}

/// The state carried through the traversal, between pops.
///
/// `longest[v]` is the best known duration of a path ending at `v`;
/// `parents[v]` lists the predecessors through which that best duration is
/// reached, in the order they were popped; `rem[v]` counts the predecessors
/// of `v` whose outgoing edges are still unprocessed; `pos` records each
/// popped task's pop rank.
pub open spec fn kahn_inv(
    g: Graph,
    durs: Seq<u16>,
    longest: Seq<u32>,
    reached: Seq<bool>,
    popped: Seq<bool>,
    rem: Seq<usize>,
    ready: Seq<usize>,
    parents: Seq<Vec<usize>>,
    sinks: Seq<usize>,
    pos: Map<int, nat>,
    pops: int,
) -> bool {
    let n = g.n();
    &&& g.wf()
    &&& n <= 0xFFFF
    &&& durs.len() == n
    &&& longest.len() == n
    &&& reached.len() == n
    &&& popped.len() == n
    &&& rem.len() == n
    &&& parents.len() == n
    &&& forall|t: int|
        0 <= t < ready.len() ==> {
            let v = (#[trigger] ready[t]) as int;
            v < n && reached[v] && !popped[v] && rem[v] == 0
        }
    &&& forall|t1: int, t2: int|
        0 <= t1 < t2 < ready.len() ==> ready[t1] != ready[t2]
    &&& forall|v: int| 0 <= v < n && #[trigger] popped[v] ==> reached[v] && rem[v] == 0
    &&& forall|v: int|
        0 <= v < n && rem[v] == 0 && !popped[v] ==> ready.contains(v as usize)
    &&& pops == set_of_trues(popped).len()
    &&& forall|v: int|
        0 <= v < n && #[trigger] popped[v] ==> pos.dom().contains(v) && pos[v] < pops
    &&& forall|v: int|
        0 <= v < n && #[trigger] reached[v] ==> durs[v] <= longest[v]
    &&& forall|v: int|
        0 <= v < n && #[trigger] reached[v] && popped[v] ==> longest[v] <= 0xFFFF * pops
    &&& forall|v: int|
        0 <= v < n && #[trigger] reached[v] && !popped[v] ==> longest[v] <= 0xFFFF * (pops + 1)
    &&& forall|v: int| 0 <= v < n && !(#[trigger] reached[v]) ==> parents[v]@.len() == 0
    &&& forall|v: int, t: int|
        0 <= v < n && 0 <= t < parents[v]@.len() ==> {
            let x = (#[trigger] parents[v]@[t]) as int;
            &&& 0 <= x < n
            &&& popped[x]
            &&& g.edge(x, v)
            &&& longest[x] + durs[v] == longest[v]
        }
    &&& forall|v: int, t1: int, t2: int|
        #![trigger parents[v]@[t1], parents[v]@[t2]]
        0 <= v < n && 0 <= t1 < t2 < parents[v]@.len() ==> pos[parents[v]@[t1] as int]
            < pos[parents[v]@[t2] as int]
    &&& forall|u: int, v: int|
        #[trigger] g.edge(u, v) && popped[v] ==> popped[u] && pos[u] < pos[v]
    &&& forall|v: int|
        0 <= v < n && #[trigger] reached[v] ==> ((parents[v]@.len() == 0) <==> is_source(g, v))
    &&& forall|v: int|
        0 <= v < n && #[trigger] reached[v] && parents[v]@.len() == 0 ==> longest[v] == durs[v]
    &&& forall|q: int|
        0 <= q < sinks.len() ==> {
            let v = (#[trigger] sinks[q]) as int;
            0 <= v < n && popped[v] && g.adj@[v]@.len() == 0
        }
    &&& forall|v: int|
        0 <= v < n && #[trigger] popped[v] && g.adj@[v]@.len() == 0 ==> sinks.contains(v as usize)
    &&& forall|q1: int, q2: int|
        0 <= q1 < q2 < sinks.len() ==> sinks[q1] != sinks[q2]
}

/// What the popped task `u`'s processed successor prefix guarantees: every
/// successor seen so far has been relaxed by `u`.
pub open spec fn relaxed_upto(
    g: Graph,
    durs: Seq<u16>,
    longest: Seq<u32>,
    reached: Seq<bool>,
    parents: Seq<Vec<usize>>,
    u: int,
    t: int,
) -> bool {
    forall|s: int|
        0 <= s < t ==> {
            let v = (#[trigger] g.adj@[u]@[s]) as int;
            &&& reached[v]
            &&& longest[u] + durs[v] <= longest[v]
            &&& (longest[u] + durs[v] == longest[v] ==> parents[v]@.contains(u as usize))
        }
}

/// Processes every successor of the freshly popped task `u`: relaxes its
/// best-known path duration, records `u` as an optimal parent where it
/// ties or wins, and hands tasks whose last predecessor this was to the
/// ready list.
#[verifier::rlimit(60)]
fn relax_from(
    g: &Graph,
    durs: &Vec<Duration>,
    u: usize,
    longest: &mut Vec<u32>,
    reached: &mut Vec<bool>,
    parents: &mut Vec<Vec<usize>>,
    rem: &mut Vec<usize>,
    ready: &mut Vec<usize>,
    popped: &Vec<bool>,
    sinks: &Vec<usize>,
    Ghost(pos): Ghost<Map<int, nat>>,
    pops: usize,
)
    requires
        kahn_inv(
            *g,
            durs@,
            old(longest)@,
            old(reached)@,
            popped@,
            old(rem)@,
            old(ready)@,
            old(parents)@,
            sinks@,
            pos,
            pops as int,
        ),
        (u as int) < g.n(),
        popped@[u as int],
        pops >= 1,
        pos[u as int] == (pops - 1) as nat,
        forall|j: int|
            0 <= j < g.n() ==> (#[trigger] old(rem)@[j]) as int == live_preds(
                *g,
                popped@,
                j,
            ).len() + (if suffix_contains(g.adj@[u as int]@, 0, j) {
                1int
            } else {
                0int
            }),
        forall|x: int|
            0 <= x < g.n() && #[trigger] popped@[x] && x != u as int ==> relaxed_upto(
                *g,
                durs@,
                old(longest)@,
                old(reached)@,
                old(parents)@,
                x,
                g.adj@[x]@.len() as int,
            ),
        forall|v: int, t: int|
            #![trigger old(parents)@[v]@[t]]
            0 <= v < g.n() && 0 <= t < old(parents)@[v]@.len()
                ==> pos[old(parents)@[v]@[t] as int] < (pops - 1) as nat,
    ensures
        kahn_inv(
            *g,
            durs@,
            final(longest)@,
            final(reached)@,
            popped@,
            final(rem)@,
            final(ready)@,
            final(parents)@,
            sinks@,
            pos,
            pops as int,
        ),
        forall|j: int|
            0 <= j < g.n() ==> (#[trigger] final(rem)@[j]) as int == live_preds(
                *g,
                popped@,
                j,
            ).len(),
        relaxed_upto(
            *g,
            durs@,
            final(longest)@,
            final(reached)@,
            final(parents)@,
            u as int,
            g.adj@[u as int]@.len() as int,
        ),
        forall|x: int|
            0 <= x < g.n() && #[trigger] popped@[x] && x != u as int ==> relaxed_upto(
                *g,
                durs@,
                final(longest)@,
                final(reached)@,
                final(parents)@,
                x,
                g.adj@[x]@.len() as int,
            ),
        forall|v: int, t: int|
            #![trigger final(parents)@[v]@[t]]
            0 <= v < g.n() && 0 <= t < final(parents)@[v]@.len()
                ==> pos[final(parents)@[v]@[t] as int] < pops as nat,
        (SimState {
            longest: final(longest)@,
            reached: final(reached)@,
            popped: popped@,
            rem: final(rem)@,
            ready: final(ready)@,
        } == sim_relax(
            *g,
            durs@,
            SimState {
                longest: old(longest)@,
                reached: old(reached)@,
                popped: popped@,
                rem: old(rem)@,
                ready: old(ready)@,
            },
            u as int,
            0,
        )),
{
    let ghost n = g.n();
    let ghost st_entry = SimState {
        longest: old(longest)@,
        reached: old(reached)@,
        popped: popped@,
        rem: old(rem)@,
        ready: old(ready)@,
    };
    let deg = g.adj[u].len();
    let mut t: usize = 0;
    while t < deg
        invariant
            kahn_inv(
                *g,
                durs@,
                longest@,
                reached@,
                popped@,
                rem@,
                ready@,
                parents@,
                sinks@,
                pos,
                pops as int,
            ),
            n == g.n(),
            (u as int) < n,
            popped@[u as int],
            pops >= 1,
            pos[u as int] == (pops - 1) as nat,
            deg == g.adj@[u as int]@.len(),
            0 <= t <= deg,
            forall|j: int|
                0 <= j < n ==> (#[trigger] rem@[j]) as int == live_preds(*g, popped@, j).len() + (
                if suffix_contains(g.adj@[u as int]@, t as int, j) {
                    1int
                } else {
                    0int
                }),
            relaxed_upto(*g, durs@, longest@, reached@, parents@, u as int, t as int),
            forall|x: int|
                0 <= x < n && #[trigger] popped@[x] && x != u as int ==> relaxed_upto(
                    *g,
                    durs@,
                    longest@,
                    reached@,
                    parents@,
                    x,
                    g.adj@[x]@.len() as int,
                ),
            forall|v: int, s: int|
                0 <= v < n && 0 <= s < parents@[v]@.len() && (#[trigger] parents@[v]@[s]) != u
                    ==> pos[parents@[v]@[s] as int] < (pops - 1) as nat,
            forall|v: int|
                0 <= v < n && parents@[v]@.contains(u) ==> !suffix_contains(
                    g.adj@[u as int]@,
                    t as int,
                    v,
                ),
            (sim_relax(*g, durs@, st_entry, u as int, 0) == sim_relax(
                *g,
                durs@,
                SimState {
                    longest: longest@,
                    reached: reached@,
                    popped: popped@,
                    rem: rem@,
                    ready: ready@,
                },
                u as int,
                t as int,
            )),
        decreases deg - t,
    {
        let q = g.adj[u][t];
        proof {
            assert(g.adj@[u as int]@.contains(q));
            assert(g.edge(u as int, q as int));
            assert(suffix_contains(g.adj@[u as int]@, t as int, q as int));
            assert(rem@[q as int] >= 1);
            assert(!popped@[q as int]);
            // The popped set is missing q, so at most n - 1 tasks are popped
            // and the candidate duration stays well inside u32.
            vstd::set_lib::lemma_int_range(0, n);
            let range_minus = vstd::set_lib::set_int_range(0, n).remove(q as int);
            assert(set_of_trues(popped@).subset_of(range_minus));
            vstd::set_lib::lemma_len_subset(set_of_trues(popped@), range_minus);
            assert(pops <= n - 1);
            assert(longest@[u as int] <= 0xFFFF * (n - 1));
        }
        let cand: u32 = longest[u] + (durs[q] as u32);
        let ghost st_t = SimState {
            longest: longest@,
            reached: reached@,
            popped: popped@,
            rem: rem@,
            ready: ready@,
        };
        let ghost pre_longest = longest@;
        let ghost pre_parents = parents@;
        let ghost pre_reached = reached@;
        if !reached[q] {
            longest[q] = cand;
            reached[q] = true;
            parents[q] = vec![u];
        } else if cand > longest[q] {
            longest[q] = cand;
            parents[q] = vec![u];
        } else if cand == longest[q] {
            let mut row = copy_ids(&parents[q]);
            row.push(u);
            parents[q] = row;
        }
        proof {
            let qi = q as int;
            let ui = u as int;
            let adju = g.adj@[ui]@;
            // q appears exactly once in u's successor list, at position t.
            assert forall|s: int| 0 <= s < adju.len() && s != t as int implies adju[s] != q by {
                if s < t as int {
                    assert(adju[s] < adju[t as int]);
                } else {
                    assert(adju[t as int] < adju[s]);
                }
            }
            assert(!g.edge(qi, qi));
            assert(ui != qi);
            // u was not yet a parent of q.
            assert(!pre_parents[qi]@.contains(u));
        }
        let ghost ready0 = ready@;
        let r0 = rem[q];
        rem[q] = r0 - 1;
        if r0 == 1 {
            proof {
                assert forall|s: int| 0 <= s < ready@.len() implies ready@[s] != q by {
                    assert(rem@[ready@[s] as int] == 0 || ready@[s] == q);
                }
            }
            ready.push(q);
        }
        proof {
            let qi = q as int;
            let ui = u as int;
            let adju = g.adj@[ui]@;
            // Membership in the unprocessed suffix steps down only at q.
            assert forall|j: int| 0 <= j < n implies (suffix_contains(adju, t as int, j) == (
            suffix_contains(adju, t + 1, j) || j == qi)) by {
                if suffix_contains(adju, t as int, j) {
                    let k = choose|k: int| t as int <= k < adju.len() && adju[k] as int == j;
                    if k == t as int {
                        assert(j == qi);
                    } else {
                        assert(suffix_contains(adju, t + 1, j));
                    }
                }
                if suffix_contains(adju, t + 1, j) {
                    let k = choose|k: int| t + 1 <= k < adju.len() && adju[k] as int == j;
                    assert(t as int <= k < adju.len() && adju[k] as int == j);
                }
                if j == qi {
                    assert(adju[t as int] as int == j);
                }
            }
            assert(!suffix_contains(adju, t + 1, qi));
            // Parent lists, best durations and sources stay consistent.
            assert forall|v: int, s: int|
                0 <= v < n && 0 <= s < parents@[v]@.len() implies {
                    let x = (#[trigger] parents@[v]@[s]) as int;
                    &&& 0 <= x < n
                    &&& popped@[x]
                    &&& g.edge(x, v)
                    &&& longest@[x] + durs@[v] == longest@[v]
                } by {
                let x = parents@[v]@[s] as int;
                if v != qi {
                    assert(parents@[v] == pre_parents[v]);
                    assert(longest@[v] == pre_longest[v]);
                    assert(pre_parents[v]@[s] as int == x);
                    assert(popped@[x]);
                    assert(x != qi);
                } else {
                    if !pre_reached[qi] || cand > pre_longest[qi] {
                        assert(parents@[qi]@ =~= seq![u]);
                        assert(x == ui);
                    } else if cand == pre_longest[qi] {
                        assert(parents@[qi]@ == pre_parents[qi]@.push(u));
                        if s < pre_parents[qi]@.len() {
                            assert(parents@[qi]@[s] == pre_parents[qi]@[s]);
                            let x0 = pre_parents[qi]@[s] as int;
                            assert(popped@[x0]);
                            assert(x0 != qi);
                            assert(longest@[x0] == pre_longest[x0]);
                        } else {
                            assert(parents@[qi]@[s] == u);
                        }
                    } else {
                        assert(parents@[qi] == pre_parents[qi]);
                        assert(longest@[qi] == pre_longest[qi]);
                        let x0 = pre_parents[qi]@[s] as int;
                        assert(popped@[x0]);
                        assert(x0 != qi);
                    }
                }
            }
            assert forall|v: int, t1: int, t2: int|
                #![trigger parents@[v]@[t1], parents@[v]@[t2]]
                0 <= v < n && 0 <= t1 < t2 < parents@[v]@.len() implies pos[parents@[v]@[t1] as int]
                    < pos[parents@[v]@[t2] as int] by {
                if v != qi {
                    assert(parents@[v] == pre_parents[v]);
                } else if pre_reached[qi] && cand == pre_longest[qi] {
                    assert(parents@[qi]@ == pre_parents[qi]@.push(u));
                    if t2 < pre_parents[qi]@.len() {
                        assert(parents@[qi]@[t1] == pre_parents[qi]@[t1]);
                        assert(parents@[qi]@[t2] == pre_parents[qi]@[t2]);
                    } else {
                        assert(parents@[qi]@[t2] == u);
                        assert(parents@[qi]@[t1] == pre_parents[qi]@[t1]);
                        assert(pre_parents[qi]@[t1] != u);
                        assert(pos[parents@[v]@[t1] as int] < (pops - 1) as nat);
                    }
                }
            }
            assert forall|v: int|
                0 <= v < n && #[trigger] reached@[v] implies ((parents@[v]@.len() == 0)
                    <==> is_source(*g, v)) by {
                if v == qi {
                    assert(g.edge(ui, qi));
                    assert(!is_source(*g, qi));
                    if !pre_reached[qi] || cand > pre_longest[qi] {
                        assert(parents@[qi]@ =~= seq![u]);
                    } else if cand == pre_longest[qi] {
                        assert(parents@[qi]@ == pre_parents[qi]@.push(u));
                    } else {
                        assert(parents@[qi] == pre_parents[qi]);
                        assert(pre_parents[qi]@.len() > 0);
                    }
                } else {
                    assert(parents@[v] == pre_parents[v]);
                }
            }
            assert forall|v: int|
                0 <= v < n && #[trigger] reached@[v] && parents@[v]@.len() == 0 implies longest@[v]
                    == durs@[v] by {
                assert(v != qi);
                assert(parents@[v] == pre_parents[v]);
                assert(longest@[v] == pre_longest[v]);
            }
            // Ready-list membership survives the push.
            assert forall|v: int|
                0 <= v < n && rem@[v] == 0 && !popped@[v] implies ready@.contains(v as usize) by {
                if v == qi {
                    if r0 == 1 {
                        assert(ready@[ready@.len() - 1] == q);
                    } else {
                        assert(rem@[qi] == r0 - 1 >= 1);
                    }
                } else {
                    assert(ready0.contains(v as usize));
                    let k = choose|k: int| 0 <= k < ready0.len() && ready0[k] == v as usize;
                    assert(ready@[k] == v as usize);
                }
            }
            // Relaxations already performed by other popped tasks survive.
            assert forall|x: int|
                0 <= x < n && #[trigger] popped@[x] && x != ui implies relaxed_upto(
                    *g,
                    durs@,
                    longest@,
                    reached@,
                    parents@,
                    x,
                    g.adj@[x]@.len() as int,
                ) by {
                let adjx = g.adj@[x]@;
                assert(x != qi);
                assert(longest@[x] == pre_longest[x]);
                assert forall|s: int| 0 <= s < adjx.len() implies {
                    let v = (#[trigger] adjx[s]) as int;
                    &&& reached@[v]
                    &&& longest@[x] + durs@[v] <= longest@[v]
                    &&& (longest@[x] + durs@[v] == longest@[v] ==> parents@[v]@.contains(x as usize))
                } by {
                    let v = adjx[s] as int;
                    assert(relaxed_upto(
                        *g,
                        durs@,
                        pre_longest,
                        pre_reached,
                        pre_parents,
                        x,
                        g.adj@[x]@.len() as int,
                    ));
                    assert(pre_reached[v]);
                    assert(pre_longest[x] + durs@[v] <= pre_longest[v]);
                    if v != qi {
                        assert(longest@[v] == pre_longest[v]);
                        assert(parents@[v] == pre_parents[v]);
                    } else {
                        if cand > pre_longest[qi] {
                            assert(longest@[qi] == cand > pre_longest[qi]);
                        } else if cand == pre_longest[qi] {
                            assert(longest@[qi] == pre_longest[qi]);
                            assert(parents@[qi]@ == pre_parents[qi]@.push(u));
                            if pre_longest[x] + durs@[qi] == pre_longest[qi] {
                                assert(pre_parents[qi]@.contains(x as usize));
                                let k = choose|k: int|
                                    0 <= k < pre_parents[qi]@.len() && pre_parents[qi]@[k]
                                        == x as usize;
                                assert(parents@[qi]@[k] == x as usize);
                            }
                        } else {
                            assert(longest@[qi] == pre_longest[qi]);
                            assert(parents@[qi] == pre_parents[qi]);
                        }
                    }
                }
            }
            assert forall|s: int| 0 <= s < t + 1 implies {
                let v = (#[trigger] adju[s]) as int;
                &&& reached@[v]
                &&& longest@[ui] + durs@[v] <= longest@[v]
                &&& (longest@[ui] + durs@[v] == longest@[v] ==> parents@[v]@.contains(u))
            } by {
                let v = adju[s] as int;
                if s < t as int {
                    assert(adju[s] != q);
                    assert(longest@[v] == pre_longest[v]);
                    assert(parents@[v] == pre_parents[v]);
                } else {
                    assert(v == qi);
                    if pre_reached[qi] && cand == pre_longest[qi] {
                        assert(parents@[qi]@ == pre_parents[qi]@.push(u));
                        assert(parents@[qi]@[parents@[qi]@.len() - 1] == u);
                    }
                }
            }
            // The step taken matches one unfolding of the simulated pass.
            let stq = SimState {
                longest: longest@,
                reached: reached@,
                popped: popped@,
                rem: rem@,
                ready: ready@,
            };
            assert(st_t.longest[ui] == pre_longest[ui]);
            assert(st_t.longest[ui] + durs@[qi] == cand as int);
            assert(((st_t.longest[ui] + durs@[qi]) as u32) == cand);
            let longest2 = if !st_t.reached[qi] || ((st_t.longest[ui] + durs@[qi]) as u32)
                > st_t.longest[qi] {
                st_t.longest.update(qi, cand)
            } else {
                st_t.longest
            };
            assert(longest2 =~= stq.longest);
            assert(longest2 == stq.longest);
            assert(st_t.reached.update(qi, true) =~= stq.reached);
            assert(st_t.reached.update(qi, true) == stq.reached);
            let rem2 = st_t.rem.update(qi, ((st_t.rem[qi] - 1) as usize));
            assert(rem2 =~= stq.rem);
            assert(rem2 == stq.rem);
            let ready2 = if rem2[qi] == 0 {
                st_t.ready.push(qi as usize)
            } else {
                st_t.ready
            };
            assert(((qi as usize)) == q);
            assert(ready2 =~= stq.ready);
            assert(ready2 == stq.ready);
            assert(sim_relax(*g, durs@, st_t, ui, t as int) == sim_relax(
                *g,
                durs@,
                stq,
                ui,
                t + 1,
            ));
        }
        t += 1;
    }
}

/// All successor lists of popped tasks are fully relaxed.
pub open spec fn all_relaxed(
    g: Graph,
    durs: Seq<u16>,
    longest: Seq<u32>,
    reached: Seq<bool>,
    popped: Seq<bool>,
    parents: Seq<Vec<usize>>,
) -> bool {
    forall|u: int|
        0 <= u < g.n() && #[trigger] popped[u] ==> relaxed_upto(
            g,
            durs,
            longest,
            reached,
            parents,
            u,
            g.adj@[u]@.len() as int,
        )
}

/// A sequence of distinct indices below `n` has at most `n` elements.
pub proof fn lemma_distinct_bounded(s: Seq<usize>, n: int)
    requires
        0 <= n,
        forall|t1: int, t2: int| 0 <= t1 < t2 < s.len() ==> s[t1] != s[t2],
        forall|t: int| 0 <= t < s.len() ==> ((#[trigger] s[t]) as int) < n,
    ensures
        s.len() <= n,
    decreases n,
{
    if s.len() > 0 {
        assert((s[0] as int) < n);
        if exists|t: int| 0 <= t < s.len() && (#[trigger] s[t]) as int == n - 1 {
            let t = choose|t: int| 0 <= t < s.len() && (#[trigger] s[t]) as int == n - 1;
            let s2 = s.remove(t);
            assert forall|t1: int, t2: int| 0 <= t1 < t2 < s2.len() implies s2[t1] != s2[t2] by {
                assert(s2[t1] == if t1 < t {
                    s[t1]
                } else {
                    s[t1 + 1]
                });
                assert(s2[t2] == if t2 < t {
                    s[t2]
                } else {
                    s[t2 + 1]
                });
            }
            assert forall|t1: int| 0 <= t1 < s2.len() implies ((#[trigger] s2[t1]) as int) < n - 1 by {
                if t1 < t {
                    assert(s2[t1] == s[t1]);
                    assert(s[t1] != s[t]);
                } else {
                    assert(s2[t1] == s[t1 + 1]);
                    assert(s[t1 + 1] != s[t]);
                }
            }
            lemma_distinct_bounded(s2, n - 1);
        } else {
            assert forall|t1: int| 0 <= t1 < s.len() implies ((#[trigger] s[t1]) as int) < n - 1 by {
                assert(s[t1] as int != n - 1);
            }
            lemma_distinct_bounded(s, n - 1);
        }
    }
}

/// What the finished traversal guarantees about its records: parent lists
/// carry exactly the optimal predecessors, every edge has been relaxed, the
/// sink list holds exactly the successor-free tasks, and the pop ranks in
/// `pos` order every edge forward.
pub open spec fn relaxation_ok(
    g: Graph,
    durs: Seq<u16>,
    longest: Seq<u32>,
    parents: Seq<Vec<usize>>,
    sinks: Seq<usize>,
    pos: Map<int, nat>,
) -> bool {
    let n = g.n();
    &&& longest.len() == n
    &&& parents.len() == n
    &&& forall|v: int, t: int|
        0 <= v < n && 0 <= t < parents[v]@.len() ==> {
            let x = (#[trigger] parents[v]@[t]) as int;
            &&& 0 <= x < n
            &&& g.edge(x, v)
            &&& longest[x] + durs[v] == longest[v]
            &&& pos[x] < pos[v]
        }
    &&& forall|v: int, t1: int, t2: int|
        #![trigger parents[v]@[t1], parents[v]@[t2]]
        0 <= v < n && 0 <= t1 < t2 < parents[v]@.len() ==> parents[v]@[t1] != parents[v]@[t2]
    &&& forall|v: int| 0 <= v < n ==> ((parents[v]@.len() == 0) <==> is_source(g, v))
    &&& forall|v: int|
        0 <= v < n && (#[trigger] parents[v]@).len() == 0 ==> longest[v] == durs[v]
    &&& forall|u: int, v: int|
        #[trigger] g.edge(u, v) ==> longest[u] + durs[v] <= longest[v] && (longest[u] + durs[v]
            == longest[v] ==> parents[v]@.contains(u as usize))
    &&& forall|v: int|
        0 <= v < n ==> (sinks.contains(v as usize) <==> g.adj@[v]@.len() == 0)
    &&& forall|q: int| 0 <= q < sinks.len() ==> ((#[trigger] sinks[q]) as int) < n
    &&& forall|q1: int, q2: int| 0 <= q1 < q2 < sinks.len() ==> sinks[q1] != sinks[q2]
    &&& forall|v: int| 0 <= v < n ==> pos.dom().contains(v)
    &&& forall|u: int, v: int| #[trigger] g.edge(u, v) ==> pos[u] < pos[v]
    &&& forall|v: int| 0 <= v < n ==> durs[v] <= (#[trigger] longest[v])
}

/// Among finitely many ranked tasks there is one of maximal rank.
proof fn lemma_exists_max_pos(pos: Map<int, nat>, m: int) -> (v: int)
    requires
        1 <= m,
        forall|v: int| 0 <= v < m ==> pos.dom().contains(v),
    ensures
        0 <= v < m,
        forall|u: int| 0 <= u < m ==> #[trigger] pos[u] <= pos[v],
    decreases m,
{
    if m == 1 {
        assert(forall|u: int| 0 <= u < m ==> #[trigger] pos[u] <= pos[0]);
        0
    } else {
        let v0 = lemma_exists_max_pos(pos, m - 1);
        if pos[m - 1] >= pos[v0] {
            assert(forall|u: int| 0 <= u < m ==> #[trigger] pos[u] <= pos[m - 1]);
            m - 1
        } else {
            assert(forall|u: int| 0 <= u < m ==> #[trigger] pos[u] <= pos[v0]);
            v0
        }
    }
}

/// An acyclic precedence relation has a task without successors.
proof fn lemma_exists_sink(g: Graph, pos: Map<int, nat>) -> (v: int)
    requires
        g.wf(),
        g.n() >= 1,
        forall|v: int| 0 <= v < g.n() ==> pos.dom().contains(v),
        forall|u: int, v: int| #[trigger] g.edge(u, v) ==> pos[u] < pos[v],
    ensures
        0 <= v < g.n(),
        g.adj@[v]@.len() == 0,
{
    let v = lemma_exists_max_pos(pos, g.n());
    if g.adj@[v]@.len() > 0 {
        let w = g.adj@[v]@[0];
        assert(g.adj@[v]@.contains(w));
        assert((w as int) < g.n());
        assert(g.edge(v, w as int));
        assert(pos[w as int] <= pos[v]);
    }
    v
}

/// From any task, the recorded parent lists lead down to a parentless one.
proof fn lemma_chain_exists(parents: Seq<Vec<usize>>, pos: Map<int, nat>, v: usize) -> (q: Seq<
    usize,
>)
    requires
        crate::paths::parents_wf(parents, pos),
        (v as int) < parents.len(),
    ensures
        crate::paths::rev_chain(parents, q),
        q.len() > 0,
        q[0] == v,
    decreases pos[v as int],
{
    if parents[v as int]@.len() == 0 {
        let q = seq![v];
        assert(q[0] == v);
        assert(q.last() == v);
        assert(crate::paths::rev_chain(parents, q));
        q
    } else {
        let x = parents[v as int]@[0];
        assert(pos[x as int] < pos[v as int]);
        let q2 = lemma_chain_exists(parents, pos, x);
        let q = seq![v] + q2;
        assert(q[0] == v);
        assert(q.last() == q2.last());
        assert forall|t: int| 0 <= t < q.len() - 1 implies parents[((#[trigger] q[t]) as int)]@
            .contains(q[t + 1]) by {
            if t == 0 {
                assert(q[0] == v);
                assert(q[1] == q2[0]);
                assert(parents[v as int]@.contains(x));
            } else {
                assert(q[t] == q2[t - 1]);
                assert(q[t + 1] == q2[t]);
            }
        }
        assert(crate::paths::rev_chain(parents, q));
        q
    }
}

/// Walking a parent chain backwards yields a graph path whose total
/// duration is exactly the recorded longest-path duration of the chain's
/// head, and whose first task is a source.
proof fn lemma_chain_dur(
    g: Graph,
    durs: Seq<u16>,
    longest: Seq<u32>,
    parents: Seq<Vec<usize>>,
    sinks: Seq<usize>,
    pos: Map<int, nat>,
    q: Seq<usize>,
)
    requires
        g.wf(),
        durs.len() == g.n(),
        relaxation_ok(g, durs, longest, parents, sinks, pos),
        crate::paths::rev_chain(parents, q),
    ensures
        crate::graph::is_path(g, q.reverse()),
        is_source(g, q.last() as int),
        crate::graph::path_dur(durs, q.reverse()) == longest[q[0] as int],
    decreases q.len(),
{
    let p = q.reverse();
    if q.len() == 1 {
        assert(p =~= seq![q[0]]);
        assert(p.last() == q[0]);
        assert(p.drop_last() =~= Seq::<usize>::empty());
        assert(crate::graph::path_dur(durs, Seq::<usize>::empty()) == 0);
        assert(parents[q[0] as int]@.len() == 0);
        assert(is_source(g, q[0] as int));
        assert(crate::graph::path_dur(durs, p) == durs[q[0] as int]);
    } else {
        let q2 = q.drop_first();
        assert forall|t: int| 0 <= t < q2.len() - 1 implies parents[((#[trigger] q2[t]) as int)]@
            .contains(q2[t + 1]) by {
            assert(q2[t] == q[t + 1]);
            assert(q2[t + 1] == q[t + 2]);
        }
        assert(q2.last() == q.last());
        assert(crate::paths::rev_chain(parents, q2));
        lemma_chain_dur(g, durs, longest, parents, sinks, pos, q2);
        let p2 = q2.reverse();
        assert(parents[q[0] as int]@.contains(q[1]));
        let s = choose|s: int|
            0 <= s < parents[q[0] as int]@.len() && parents[q[0] as int]@[s] == q[1];
        assert(g.edge(q[1] as int, q[0] as int));
        assert(longest[q[1] as int] + durs[q[0] as int] == longest[q[0] as int]);
        assert(p =~= p2.push(q[0]));
        assert(p.drop_last() =~= p2);
        assert(q2[0] == q[1]);
        assert(p2.last() == q2[0]);
        assert(crate::graph::path_dur(durs, p) == crate::graph::path_dur(durs, p2) + durs[q[0] as int]);
        assert forall|t: int| 1 <= t < p.len() implies g.edge(
            p[t - 1] as int,
            (#[trigger] p[t]) as int,
        ) by {
            if t < p.len() - 1 {
                assert(p[t - 1] == p2[t - 1]);
                assert(p[t] == p2[t]);
            } else {
                assert(p[t] == q[0]);
                assert(p[t - 1] == p2.last());
            }
        }
        assert(p[0] == p2[0]);
        assert(q.last() == q2.last());
    }
}

/// No path ending at `v` outlasts the recorded longest-path duration of
/// `v`.
proof fn lemma_path_dur_le(
    g: Graph,
    durs: Seq<u16>,
    longest: Seq<u32>,
    parents: Seq<Vec<usize>>,
    sinks: Seq<usize>,
    pos: Map<int, nat>,
    p: Seq<usize>,
)
    requires
        g.wf(),
        durs.len() == g.n(),
        relaxation_ok(g, durs, longest, parents, sinks, pos),
        crate::graph::is_path(g, p),
    ensures
        crate::graph::path_dur(durs, p) <= longest[p.last() as int],
    decreases p.len(),
{
    if p.len() == 1 {
        assert(p.drop_last() =~= Seq::<usize>::empty());
        assert(crate::graph::path_dur(durs, Seq::<usize>::empty()) == 0);
        assert(p.last() == p[0]);
        assert(durs[p[0] as int] <= longest[p[0] as int]);
    } else {
        let p2 = p.drop_last();
        assert(p2.len() > 0);
        assert forall|t: int| 1 <= t < p2.len() implies g.edge(
            p2[t - 1] as int,
            (#[trigger] p2[t]) as int,
        ) by {
            assert(p2[t] == p[t]);
            assert(p2[t - 1] == p[t - 1]);
            assert(g.edge(p[t - 1] as int, p[t] as int));
        }
        assert(crate::graph::is_path(g, p2));
        lemma_path_dur_le(g, durs, longest, parents, sinks, pos, p2);
        assert(p[p.len() - 1] == p.last());
        assert(g.edge(p[p.len() - 2] as int, p.last() as int));
        assert(p2.last() == p[p.len() - 2]);
        assert(longest[p2.last() as int] + durs[p.last() as int] <= longest[p.last() as int]);
        assert(crate::graph::path_dur(durs, p) == crate::graph::path_dur(durs, p2)
            + durs[p.last() as int]);
    }
}

/// A path that attains the recorded longest-path duration of its endpoint
/// runs along recorded parent links the whole way.
proof fn lemma_tight_chain(
    g: Graph,
    durs: Seq<u16>,
    longest: Seq<u32>,
    parents: Seq<Vec<usize>>,
    sinks: Seq<usize>,
    pos: Map<int, nat>,
    p: Seq<usize>,
)
    requires
        g.wf(),
        durs.len() == g.n(),
        relaxation_ok(g, durs, longest, parents, sinks, pos),
        crate::graph::is_path(g, p),
        crate::graph::path_dur(durs, p) == longest[p.last() as int],
    ensures
        forall|t: int|
            1 <= t < p.len() ==> parents[(#[trigger] p[t]) as int]@.contains(p[t - 1]),
    decreases p.len(),
{
    if p.len() > 1 {
        let p2 = p.drop_last();
        assert(crate::graph::is_path(g, p2));
        assert(g.edge(p[p.len() - 2] as int, p.last() as int));
        assert(p2.last() == p[p.len() - 2]);
        let u = p2.last() as int;
        let v = p.last() as int;
        lemma_path_dur_le(g, durs, longest, parents, sinks, pos, p2);
        assert(longest[u] + durs[v] <= longest[v]);
        assert(crate::graph::path_dur(durs, p) == crate::graph::path_dur(durs, p2) + durs[v]);
        assert(crate::graph::path_dur(durs, p2) == longest[u]);
        assert(longest[u] + durs[v] == longest[v]);
        assert(parents[v]@.contains(p[p.len() - 2]));
        lemma_tight_chain(g, durs, longest, parents, sinks, pos, p2);
        assert forall|t: int| 1 <= t < p.len() implies parents[(#[trigger] p[t]) as int]@.contains(
            p[t - 1],
        ) by {
            if t < p.len() - 1 {
                assert(p[t] == p2[t]);
                assert(p[t - 1] == p2[t - 1]);
            }
        }
    }
}

/// A path linked backwards through parent lists, read in reverse, is a
/// parent chain.
proof fn lemma_backlinked_reverse(parents: Seq<Vec<usize>>, p: Seq<usize>)
    requires
        p.len() > 0,
        forall|t: int| 0 <= t < p.len() ==> ((#[trigger] p[t]) as int) < parents.len(),
        forall|t: int| 1 <= t < p.len() ==> parents[(#[trigger] p[t]) as int]@.contains(p[t - 1]),
        parents[p[0] as int]@.len() == 0,
    ensures
        crate::paths::rev_chain(parents, p.reverse()),
        p.reverse()[0] == p.last(),
{
    let q = p.reverse();
    assert forall|t: int| 0 <= t < q.len() - 1 implies parents[((#[trigger] q[t]) as int)]@
        .contains(q[t + 1]) by {
        let n = p.len();
        assert(q[t] == p[n - 1 - t]);
        assert(q[t + 1] == p[n - 2 - t]);
    }
    assert(q.last() == p[0]);
    assert(q[0] == p.last());
}

/// The traversal state the earliest-start simulation steps through:
/// best-known completion times, which tasks have been reached and
/// finished, the remaining predecessor counts, and the ready list.
pub ghost struct SimState {
    pub longest: Seq<u32>,
    pub reached: Seq<bool>,
    pub popped: Seq<bool>,
    pub rem: Seq<usize>,
    pub ready: Seq<usize>,
}

/// The position of the ready task that pops next, scanning from `t` with
/// best-so-far `m`: least completion time, ties toward the larger index.
pub open spec fn sim_pick_from(longest: Seq<u32>, ready: Seq<usize>, m: int, t: int) -> int
    decreases ready.len() - t,
{
    if t < 0 || t >= ready.len() || m < 0 || m >= ready.len() {
        m
    } else {
        let a = ready[t];
        let b = ready[m];
        let better = longest[a as int] < longest[b as int] || (longest[a as int]
            == longest[b as int] && a > b);
        sim_pick_from(longest, ready, if better { t } else { m }, t + 1)
    }
}

/// One relaxation pass of the simulation: the successors of `u` from
/// position `t` on, exactly as the traversal performs it.
pub open spec fn sim_relax(g: Graph, d: Seq<u16>, st: SimState, u: int, t: int) -> SimState
    decreases g.adj@[u]@.len() - t,
{
    if u < 0 || u >= g.adj@.len() || t < 0 || t >= g.adj@[u]@.len() {
        st
    } else {
        let q = g.adj@[u]@[t] as int;
        let cand = ((st.longest[u] + d[q]) as u32);
        let longest2 = if !st.reached[q] || cand > st.longest[q] {
            st.longest.update(q, cand)
        } else {
            st.longest
        };
        let reached2 = st.reached.update(q, true);
        let rem2 = st.rem.update(q, ((st.rem[q] - 1) as usize));
        let ready2 = if rem2[q] == 0 {
            st.ready.push(q as usize)
        } else {
            st.ready
        };
        sim_relax(
            g,
            d,
            SimState { longest: longest2, reached: reached2, popped: st.popped, rem: rem2, ready: ready2 },
            u,
            t + 1,
        )
    }
}

/// The peak ready-list size of the remaining simulation, sampled before
/// each pop.
pub open spec fn sim_run(g: Graph, d: Seq<u16>, st: SimState, fuel: nat) -> int
    decreases fuel,
{
    if st.ready.len() == 0 || fuel == 0 {
        0
    } else {
        let here = st.ready.len() as int;
        let m = sim_pick_from(st.longest, st.ready, 0, 1);
        let u = st.ready[m] as int;
        let ready1 = st.ready.update(m, st.ready.last()).drop_last();
        let st1 = SimState {
            longest: st.longest,
            reached: st.reached,
            popped: st.popped.update(u, true),
            rem: st.rem,
            ready: ready1,
        };
        let st2 = if g.adj@[u]@.len() == 0 {
            st1
        } else {
            sim_relax(g, d, st1, u, 0)
        };
        let rest = sim_run(g, d, st2, (fuel - 1) as nat);
        if here >= rest {
            here
        } else {
            rest
        }
    }
}

/// The ready tasks the simulation starts from: the predecessor-free
/// tasks below `i`, in ascending order.
pub open spec fn sim_seeds(g: Graph, i: int) -> Seq<usize>
    decreases i,
{
    if i <= 0 {
        Seq::empty()
    } else if g.indeg@[i - 1] == 0 {
        sim_seeds(g, i - 1).push(((i - 1) as usize))
    } else {
        sim_seeds(g, i - 1)
    }
}

/// The state the simulation starts from: every task's own duration as its
/// completion time, the predecessor-free tasks reached and ready.
pub open spec fn sim_init(g: Graph, d: Seq<u16>) -> SimState {
    SimState {
        longest: Seq::new(g.n() as nat, |i: int| d[i] as u32),
        reached: Seq::new(g.n() as nat, |i: int| g.indeg@[i] == 0),
        popped: Seq::new(g.n() as nat, |i: int| false),
        rem: g.indeg@,
        ready: sim_seeds(g, g.n()),
    }
}

/// The peak number of simultaneously ready tasks under the earliest-start
/// simulation of the whole schedule: tasks become ready when their last
/// predecessor finishes, and the one with the least completion time
/// finishes next, ties toward the larger index.
pub open spec fn spec_peak_parallelism(g: Graph, d: Seq<u16>) -> int {
    sim_run(g, d, sim_init(g, d), g.n() as nat)
}

/// Builds a walk of the given length that follows edges backwards through
/// tasks satisfying `bad`, starting from `v`.
#[verifier::rlimit(60)]
proof fn lemma_bad_walk(g: Graph, bad: spec_fn(int) -> bool, v: usize, len: nat) -> (w: Seq<usize>)
    requires
        g.wf(),
        (v as int) < g.n(),
        bad(v as int),
        forall|x: int|
            0 <= x < g.n() && #[trigger] bad(x) ==> exists|u: int|
                0 <= u < g.n() && #[trigger] bad(u) && g.edge(u, x),
        len >= 1,
    ensures
        w.len() == len,
        w[0] == v,
        forall|t: int| 0 <= t < w.len() ==> ((#[trigger] w[t]) as int) < g.n() && bad(w[t] as int),
        forall|t: int| 0 <= t < w.len() - 1 ==> g.edge((#[trigger] w[t + 1]) as int, w[t] as int),
    decreases len,
{
    if len == 1 {
        let w = seq![v];
        assert(w[0] == v);
        w
    } else {
        let w0 = lemma_bad_walk(g, bad, v, (len - 1) as nat);
        let x = w0.last();
        assert(bad(x as int));
        let u = choose|u: int| 0 <= u < g.n() && #[trigger] bad(u) && g.edge(u, x as int);
        vstd::std_specs::vec::axiom_spec_len(&g.labels);
        assert(g.n() <= usize::MAX);
        assert(((u as usize) as int) == u);
        let w = w0.push(u as usize);
        assert(w[0] == v);
        assert forall|t: int|
            0 <= t < w.len() - 1 implies g.edge((#[trigger] w[t + 1]) as int, w[t] as int) by {
            if t < w0.len() - 1 {
                assert(w[t] == w0[t]);
                assert(w[t + 1] == w0[t + 1]);
            } else {
                assert(w[t] == w0.last());
                assert(w[t + 1] == u as usize);
            }
        }
        w
    }
}

/// If some task is bad and every bad task has a bad predecessor, the
/// relation closes a cycle: a walk of more than `n` bad tasks must repeat.
#[verifier::rlimit(60)]
proof fn lemma_cycle_of_bad(g: Graph, bad: spec_fn(int) -> bool, v: usize)
    requires
        g.wf(),
        (v as int) < g.n(),
        bad(v as int),
        forall|x: int|
            0 <= x < g.n() && #[trigger] bad(x) ==> exists|u: int|
                0 <= u < g.n() && #[trigger] bad(u) && g.edge(u, x),
    ensures
        crate::graph::cyclic(g),
{
    let w = lemma_bad_walk(g, bad, v, (g.n() + 1) as nat);
    if forall|t1: int, t2: int| 0 <= t1 < t2 < w.len() ==> w[t1] != w[t2] {
        lemma_distinct_bounded(w, g.n());
        assert(false);
    }
    let (t1, t2) = choose|t1: int, t2: int| 0 <= t1 < t2 < w.len() && w[t1] == w[t2];
    let cyc = w.subrange(t1, t2 + 1).reverse();
    assert(cyc.len() == t2 + 1 - t1);
    assert forall|t: int| 0 <= t < cyc.len() implies ((#[trigger] cyc[t]) as int) < g.n() by {
        assert(cyc[t] == w.subrange(t1, t2 + 1)[cyc.len() - 1 - t]);
        assert(cyc[t] == w[t2 - t]);
    }
    assert forall|t: int| 1 <= t < cyc.len() implies g.edge(
        cyc[t - 1] as int,
        (#[trigger] cyc[t]) as int,
    ) by {
        assert(cyc[t] == w.subrange(t1, t2 + 1)[cyc.len() - 1 - t]);
        assert(cyc[t] == w[t2 - t]);
        assert(cyc[t - 1] == w.subrange(t1, t2 + 1)[cyc.len() - t]);
        assert(cyc[t - 1] == w[t2 - t + 1]);
        assert(g.edge(w[(t2 - t) + 1] as int, w[t2 - t] as int));
    }
    assert(cyc[0] == w[t2]);
    assert(cyc.last() == w.subrange(t1, t2 + 1)[0]);
    assert(cyc.last() == w[t1]);
    assert(crate::graph::is_cycle(g, cyc));
}

/// The larger of two values.
pub open spec fn imax(a: int, b: int) -> int {
    if a >= b {
        a
    } else {
        b
    }
}

/// The running peak `mp`, joined with the rest of the simulation, accounts
/// for the whole simulation's peak.
pub open spec fn peak_accounted(g: Graph, d: Seq<u16>, st: SimState, mp: int, fuel: nat) -> bool {
    imax(mp, sim_run(g, d, st, fuel)) == spec_peak_parallelism(g, d)
}

/// The simulated peak is never negative.
proof fn lemma_sim_run_nonneg(g: Graph, d: Seq<u16>, st: SimState, fuel: nat)
    ensures
        sim_run(g, d, st, fuel) >= 0,
    decreases fuel,
{
    if st.ready.len() != 0 && fuel != 0 {
    }
}

/// What the traversal produced, when the graph turned out acyclic.
pub struct Relaxation {
    /// `longest[v]` is the duration of the heaviest path ending at `v`.
    pub longest: Vec<u32>,
    /// `parents[v]` lists the predecessors through which that duration is
    /// reached, in the order the traversal found them.
    pub parents: Vec<Vec<usize>>,
    /// The tasks with no successor, in the order they were finished.
    pub sinks: Vec<usize>,
    /// The peak number of simultaneously ready tasks.
    pub max_par: usize,
    /// Each task's rank in the pop order.
    pub pos: Ghost<Map<int, nat>>,
}

/// Runs the traversal: seeds the ready list with the predecessor-free
/// tasks, then repeatedly finishes the ready task with the least completion
/// time and relaxes its successors.  Fails with `Cycle` when no task is
/// ready at the start or some task never becomes ready.
#[verifier::rlimit(60)]
pub fn run_kahn(g: &Graph, durs: &Vec<Duration>) -> (r: Result<Relaxation, AnalysisError>)
    requires
        g.wf(),
        durs@.len() == g.n(),
        1 <= g.n() <= 0xFFFF,
    ensures
        match r {
            Ok(rel) => {
                &&& relaxation_ok(*g, durs@, rel.longest@, rel.parents@, rel.sinks@, rel.pos@)
                &&& 1 <= rel.max_par <= g.n()
                &&& rel.max_par as int == spec_peak_parallelism(*g, durs@)
            },
            Err(e) => e == AnalysisError::Cycle && crate::graph::cyclic(*g),
        },
{
    let n = g.labels.len();
    let ghost gn = g.n();
    let mut longest: Vec<u32> = Vec::new();
    let mut reached: Vec<bool> = Vec::new();
    let mut popped: Vec<bool> = Vec::new();
    let mut rem: Vec<usize> = copy_ids(&g.indeg);
    let mut ready: Vec<usize> = Vec::new();
    let mut parents: Vec<Vec<usize>> = Vec::new();
    let mut sinks: Vec<usize> = Vec::new();
    let ghost mut pos: Map<int, nat> = Map::empty();
    let mut pops: usize = 0;
    let mut max_par: usize = 0;
    let mut i: usize = 0;
    while i < n
        invariant
            0 <= i <= n,
            n == gn == g.n(),
            g.wf(),
            durs@.len() == n,
            longest@.len() == i,
            reached@.len() == i,
            popped@.len() == i,
            parents@.len() == i,
            rem@ == g.indeg@,
            forall|v: int| 0 <= v < i ==> (#[trigger] longest@[v]) == durs@[v],
            forall|v: int| 0 <= v < i ==> ((#[trigger] reached@[v]) <==> g.indeg@[v] == 0),
            forall|v: int| 0 <= v < i ==> !(#[trigger] popped@[v]),
            forall|v: int| 0 <= v < i ==> (#[trigger] parents@[v])@.len() == 0,
            forall|t: int|
                0 <= t < ready@.len() ==> {
                    let v = (#[trigger] ready@[t]) as int;
                    v < i && g.indeg@[v] == 0
                },
            forall|t1: int, t2: int| 0 <= t1 < t2 < ready@.len() ==> ready@[t1] < ready@[t2],
            forall|v: int| 0 <= v < i && g.indeg@[v] == 0 ==> ready@.contains(v as usize),
            ready@ == sim_seeds(*g, i as int),
        decreases n - i,
    {
        longest.push(durs[i] as u32);
        popped.push(false);
        parents.push(Vec::new());
        if rem[i] == 0 {
            reached.push(true);
            let ghost ready_pre = ready@;
            ready.push(i);
            proof {
                assert forall|v: int|
                    0 <= v < i + 1 && g.indeg@[v] == 0 implies ready@.contains(v as usize) by {
                    if v < i as int {
                        let k = choose|k: int|
                            0 <= k < ready_pre.len() && ready_pre[k] == v as usize;
                        assert(ready@[k] == v as usize);
                    } else {
                        assert(ready@[ready@.len() - 1] == i);
                    }
                }
            }
        } else {
            reached.push(false);
        }
        i += 1;
    }
    if ready.len() == 0 {
        proof {
            // No task is predecessor-free, so following predecessors
            // forever must close a cycle.
            let bad = |x: int| true;
            assert forall|x: int| 0 <= x < gn && #[trigger] bad(x) implies exists|u: int|
                0 <= u < gn && #[trigger] bad(u) && g.edge(u, x) by {
                assert(g.indeg@[x] != 0);
                lemma_bounded_int_set(g.preds(x), gn);
                if forall|u: int| !g.edge(u, x) {
                    assert(g.preds(x) =~= Set::<int>::empty());
                }
                let u0 = choose|u: int| g.edge(u, x);
                assert(0 <= u0 < gn && bad(u0) && g.edge(u0, x));
            }
            lemma_cycle_of_bad(*g, bad, 0);
        }
        return Err(AnalysisError::Cycle);
    }
    proof {
        assert(set_of_trues(popped@) =~= Set::<int>::empty());
        assert forall|j: int| 0 <= j < gn implies live_preds(*g, popped@, j) =~= g.preds(j) by {}
        assert forall|v: int|
            0 <= v < gn && #[trigger] reached@[v] implies ((parents@[v]@.len() == 0) <==> is_source(
            *g,
            v,
        )) by {
            lemma_bounded_int_set(g.preds(v), gn);
            if g.indeg@[v] == 0 {
                assert(g.preds(v).len() == 0);
                g.preds(v).lemma_len0_is_empty();
                assert forall|u: int| !g.edge(u, v) by {
                    if g.edge(u, v) {
                        assert(g.preds(v).contains(u));
                    }
                }
            }
        }
        assert forall|v: int|
            0 <= v < gn && rem@[v] == 0 && !popped@[v] implies ready@.contains(v as usize) by {}
        assert forall|v: int|
            0 <= v < gn && #[trigger] reached@[v] implies durs@[v] <= longest@[v] by {}
        // The seeded state is exactly where the simulation starts.
        let st0 = SimState {
            longest: longest@,
            reached: reached@,
            popped: popped@,
            rem: rem@,
            ready: ready@,
        };
        assert(st0.longest =~= sim_init(*g, durs@).longest);
        assert(st0.reached =~= sim_init(*g, durs@).reached);
        assert(st0.popped =~= sim_init(*g, durs@).popped);
        assert(st0 == sim_init(*g, durs@));
        lemma_sim_run_nonneg(*g, durs@, st0, n as nat);
        assert(peak_accounted(*g, durs@, st0, 0, n as nat));
    }
    while ready.len() > 0
        invariant
            n == gn == g.n(),
            durs@.len() == n,
            kahn_inv(
                *g,
                durs@,
                longest@,
                reached@,
                popped@,
                rem@,
                ready@,
                parents@,
                sinks@,
                pos,
                pops as int,
            ),
            forall|j: int|
                0 <= j < gn ==> (#[trigger] rem@[j]) as int == live_preds(*g, popped@, j).len(),
            all_relaxed(*g, durs@, longest@, reached@, popped@, parents@),
            max_par <= n,
            pops > 0 ==> max_par >= 1,
            pops <= n,
            (peak_accounted(
                *g,
                durs@,
                SimState {
                    longest: longest@,
                    reached: reached@,
                    popped: popped@,
                    rem: rem@,
                    ready: ready@,
                },
                max_par as int,
                (n - pops) as nat,
            )),
        decreases n - pops,
    {
        let ghost st_pre = SimState {
            longest: longest@,
            reached: reached@,
            popped: popped@,
            rem: rem@,
            ready: ready@,
        };
        let ghost mp_pre = max_par as int;
        proof {
            lemma_distinct_bounded(ready@, gn);
            // Some task is still unfinished, so at least one step of fuel
            // remains.
            let w = ready@[0] as int;
            vstd::set_lib::lemma_int_range(0, gn);
            let range_minus = vstd::set_lib::set_int_range(0, gn).remove(w);
            assert(set_of_trues(popped@).subset_of(range_minus));
            vstd::set_lib::lemma_len_subset(set_of_trues(popped@), range_minus);
            assert(pops <= n - 1);
        }
        let ghost fuel_pre = (n - pops) as nat;
        if ready.len() > max_par {
            max_par = ready.len();
        }
        let m = pick_min(&ready, &longest);
        let ghost ready_pre = ready@;
        let u = ready.swap_remove(m);
        let ghost ready0 = ready@;
        let ghost popped0 = popped@;
        popped[u] = true;
        pops += 1;
        proof {
            pos = pos.insert(u as int, (pops - 1) as nat);
            let ui = u as int;
            lemma_bounded_int_set(set_of_trues(popped0), gn);
            assert(set_of_trues(popped@) =~= set_of_trues(popped0).insert(ui));
            assert(ready0 == ready_pre.update(m as int, ready_pre.last()).drop_last());
            // The ready list kept its members, save the popped one, and
            // they stay pairwise distinct.
            assert forall|t: int| 0 <= t < ready@.len() implies {
                let v = (#[trigger] ready@[t]) as int;
                v < gn && reached@[v] && !popped@[v] && rem@[v] == 0
            } by {
                if t == m as int {
                    assert(ready@[t] == ready_pre.last());
                    assert(ready_pre[ready_pre.len() - 1] != ready_pre[m as int] || m as int
                        == ready_pre.len() - 1);
                } else {
                    assert(ready@[t] == ready_pre[t]);
                }
                assert(ready@[t] != u);
            }
            assert forall|t1: int, t2: int|
                0 <= t1 < t2 < ready@.len() implies ready@[t1] != ready@[t2] by {
                let a = if t1 == m as int {
                    ready_pre.len() - 1
                } else {
                    t1
                };
                let b = if t2 == m as int {
                    ready_pre.len() - 1
                } else {
                    t2
                };
                assert(ready@[t1] == ready_pre[a]);
                assert(ready@[t2] == ready_pre[b]);
            }
            // No predecessor of u is live, so all are popped and rank below
            // it.
            assert(rem@[ui] == 0);
            lemma_bounded_int_set(live_preds(*g, popped0, ui), gn);
            live_preds(*g, popped0, ui).lemma_len0_is_empty();
            assert forall|x: int| #[trigger] g.edge(x, ui) implies popped0[x] && pos[x] < pos[ui] by {
                if !popped0[x] {
                    assert(live_preds(*g, popped0, ui).contains(x));
                }
            }
            assert forall|v: int|
                0 <= v < gn && rem@[v] == 0 && !popped@[v] implies ready@.contains(v as usize) by {
                let vu = v as usize;
                assert(ready_pre.contains(vu));
                let k = choose|k: int| 0 <= k < ready_pre.len() && ready_pre[k] == vu;
                assert(vu != u);
                assert(k != m as int);
                if k == ready_pre.len() - 1 {
                    assert(ready@[m as int] == vu);
                } else {
                    assert(ready@[k] == vu);
                }
            }
            // Popping changes each remaining count's meaning by exactly the
            // unprocessed successor list of u.
            assert forall|j: int| 0 <= j < gn implies (#[trigger] rem@[j]) as int == live_preds(
                *g,
                popped@,
                j,
            ).len() + (if suffix_contains(g.adj@[ui]@, 0, j) {
                1int
            } else {
                0int
            }) by {
                if g.edge(ui, j) {
                    assert(live_preds(*g, popped0, j) =~= live_preds(*g, popped@, j).insert(ui));
                    assert(!live_preds(*g, popped@, j).contains(ui));
                    lemma_bounded_int_set(live_preds(*g, popped@, j), gn);
                    assert(g.adj@[ui]@.contains(j as usize));
                    let k = choose|k: int|
                        0 <= k < g.adj@[ui]@.len() && g.adj@[ui]@[k] == j as usize;
                    assert(suffix_contains(g.adj@[ui]@, 0, j));
                } else {
                    assert(live_preds(*g, popped0, j) =~= live_preds(*g, popped@, j));
                    if suffix_contains(g.adj@[ui]@, 0, j) {
                        let k = choose|k: int|
                            0 <= k < g.adj@[ui]@.len() && (#[trigger] g.adj@[ui]@[k]) as int == j;
                        assert(g.adj@[ui]@.contains(g.adj@[ui]@[k]));
                        assert(g.edge(ui, j));
                    }
                }
            }
        }
        proof {
            lemma_bounded_int_set(set_of_trues(popped@), gn);
        }
        let ghost st1 = SimState {
            longest: longest@,
            reached: reached@,
            popped: popped@,
            rem: rem@,
            ready: ready@,
        };
        if g.adj[u].len() == 0 {
            let ghost sinks_pre = sinks@;
            sinks.push(u);
            proof {
                assert forall|j: int| 0 <= j < gn implies (#[trigger] rem@[j]) as int == live_preds(
                    *g,
                    popped@,
                    j,
                ).len() by {
                    if suffix_contains(g.adj@[u as int]@, 0, j) {
                        let k = choose|k: int|
                            0 <= k < g.adj@[u as int]@.len() && (#[trigger] g.adj@[u as int]@[k])
                                as int == j;
                    }
                }
                assert forall|v: int|
                    0 <= v < gn && #[trigger] popped@[v] && g.adj@[v]@.len() == 0
                    implies sinks@.contains(v as usize) by {
                    if v == u as int {
                        assert(sinks@[sinks@.len() - 1] == u);
                    } else {
                        assert(sinks_pre.contains(v as usize));
                        let k = choose|k: int|
                            0 <= k < sinks_pre.len() && sinks_pre[k] == v as usize;
                        assert(sinks@[k] == v as usize);
                    }
                }
                assert forall|q1: int, q2: int|
                    0 <= q1 < q2 < sinks@.len() implies sinks@[q1] != sinks@[q2] by {
                    if q2 == sinks@.len() - 1 {
                        assert(sinks@[q2] == u);
                        assert(sinks@[q1] == sinks_pre[q1]);
                        assert(popped0[sinks_pre[q1] as int]);
                        assert(!popped0[u as int]);
                    }
                }
            }
        } else {
            relax_from(
                g,
                durs,
                u,
                &mut longest,
                &mut reached,
                &mut parents,
                &mut rem,
                &mut ready,
                &popped,
                &sinks,
                Ghost(pos),
                pops,
            );
        }
        proof {
            // The iteration just taken is one unfolding of the simulated
            // run, so the peak stays accounted for.
            let st_now = SimState {
                longest: longest@,
                reached: reached@,
                popped: popped@,
                rem: rem@,
                ready: ready@,
            };
            let sm = sim_pick_from(st_pre.longest, st_pre.ready, 0, 1);
            assert(sm == m as int);
            assert(st_pre.ready[sm] == u);
            let sready1 = st_pre.ready.update(sm, st_pre.ready.last()).drop_last();
            assert(sready1 == ready0);
            let sst1 = SimState {
                longest: st_pre.longest,
                reached: st_pre.reached,
                popped: st_pre.popped.update(u as int, true),
                rem: st_pre.rem,
                ready: sready1,
            };
            assert(sst1.popped =~= st1.popped);
            assert(sst1 == st1);
            let sst2 = if g.adj@[u as int]@.len() == 0 {
                sst1
            } else {
                sim_relax(*g, durs@, sst1, u as int, 0)
            };
            assert(sst2 == st_now);
            assert(sim_run(*g, durs@, st_pre, fuel_pre) == imax(
                st_pre.ready.len() as int,
                sim_run(*g, durs@, st_now, (fuel_pre - 1) as nat),
            ));
            assert((n - pops) as nat == (fuel_pre - 1) as nat);
            assert(max_par as int == imax(mp_pre, st_pre.ready.len() as int));
            lemma_sim_run_nonneg(*g, durs@, st_now, (fuel_pre - 1) as nat);
            assert(peak_accounted(*g, durs@, st_now, max_par as int, (n - pops) as nat));
        }
    }
    proof {
        // With nothing ready, the rest of the simulation adds nothing.
        let st_end = SimState {
            longest: longest@,
            reached: reached@,
            popped: popped@,
            rem: rem@,
            ready: ready@,
        };
        assert(sim_run(*g, durs@, st_end, (n - pops) as nat) == 0);
        assert(max_par as int == spec_peak_parallelism(*g, durs@));
    }
    let mut j: usize = 0;
    let mut stuck = false;
    while j < n
        invariant
            0 <= j <= n,
            rem@.len() == n,
            !stuck ==> forall|v: int| 0 <= v < j ==> (#[trigger] rem@[v]) == 0,
            stuck ==> exists|v: int| 0 <= v < n && (#[trigger] rem@[v]) != 0,
        decreases n - j,
    {
        if rem[j] != 0 {
            stuck = true;
        }
        j += 1;
    }
    if stuck {
        proof {
            // Some task never became ready: among the unfinished tasks
            // every one keeps an unfinished predecessor, which closes a
            // cycle.
            let bad = |x: int| 0 <= x < gn && !popped@[x];
            let j0 = choose|v: int| 0 <= v < gn && (#[trigger] rem@[v]) != 0;
            assert(!popped@[j0]);
            assert forall|x: int| 0 <= x < gn && #[trigger] bad(x) implies exists|u: int|
                0 <= u < gn && #[trigger] bad(u) && g.edge(u, x) by {
                if rem@[x] == 0 {
                    assert(ready@.contains(x as usize));
                }
                assert(rem@[x] as int == live_preds(*g, popped@, x).len());
                lemma_bounded_int_set(live_preds(*g, popped@, x), gn);
                if forall|u: int| !(#[trigger] live_preds(*g, popped@, x).contains(u)) {
                    assert(live_preds(*g, popped@, x) =~= Set::<int>::empty());
                }
                let u0 = choose|u: int| #[trigger] live_preds(*g, popped@, x).contains(u);
                assert(0 <= u0 < gn && bad(u0) && g.edge(u0, x));
            }
            vstd::std_specs::vec::axiom_spec_len(&g.labels);
            assert(((j0 as usize) as int) == j0);
            lemma_cycle_of_bad(*g, bad, j0 as usize);
        }
        return Err(AnalysisError::Cycle);
    }
    proof {
        assert forall|v: int| 0 <= v < gn implies popped@[v] by {
            if !popped@[v] {
                assert(ready@.contains(v as usize));
            }
        }
        assert forall|u_: int, v: int| #[trigger] g.edge(u_, v) implies longest@[u_] + durs@[v]
            <= longest@[v] && (longest@[u_] + durs@[v] == longest@[v] ==> parents@[v]@.contains(
            u_ as usize,
        )) by {
            assert(popped@[u_]);
            assert(g.adj@[u_]@.contains(v as usize));
            let k = choose|k: int| 0 <= k < g.adj@[u_]@.len() && g.adj@[u_]@[k] == v as usize;
            assert(relaxed_upto(
                *g,
                durs@,
                longest@,
                reached@,
                parents@,
                u_,
                g.adj@[u_]@.len() as int,
            ));
            assert(g.adj@[u_]@[k] as int == v);
        }
        assert(set_of_trues(popped@).len() == pops);
        vstd::set_lib::lemma_int_range(0, gn);
        assert(set_of_trues(popped@) =~= vstd::set_lib::set_int_range(0, gn));
        assert(pops == gn);
        assert forall|v: int, t: int|
            0 <= v < gn && 0 <= t < parents@[v]@.len() implies {
                let x = (#[trigger] parents@[v]@[t]) as int;
                &&& 0 <= x < gn
                &&& g.edge(x, v)
                &&& longest@[x] + durs@[v] == longest@[v]
                &&& pos[x] < pos[v]
            } by {
            let x = parents@[v]@[t] as int;
            assert(g.edge(x, v));
            assert(popped@[v]);
        }
        assert forall|v: int| 0 <= v < gn implies ((parents@[v]@.len() == 0) <==> is_source(
            *g,
            v,
        )) by {
            assert(popped@[v]);
            assert(reached@[v]);
        }
        assert forall|v: int|
            0 <= v < gn && (#[trigger] parents@[v]@).len() == 0 implies longest@[v] == durs@[v] by {
            assert(popped@[v]);
            assert(reached@[v]);
        }
        assert forall|v: int, t1: int, t2: int|
            #![trigger parents@[v]@[t1], parents@[v]@[t2]]
            0 <= v < gn && 0 <= t1 < t2 < parents@[v]@.len() implies parents@[v]@[t1]
                != parents@[v]@[t2] by {
            assert(pos[parents@[v]@[t1] as int] < pos[parents@[v]@[t2] as int]);
        }
        assert forall|v: int|
            0 <= v < gn implies (sinks@.contains(v as usize) <==> g.adj@[v]@.len() == 0) by {
            assert(popped@[v]);
            if sinks@.contains(v as usize) {
                let k = choose|k: int| 0 <= k < sinks@.len() && sinks@[k] == v as usize;
            }
        }
        assert forall|v: int| 0 <= v < gn implies pos.dom().contains(v) by {
            assert(popped@[v]);
        }
        assert forall|u_: int, v: int| #[trigger] g.edge(u_, v) implies pos[u_] < pos[v] by {
            assert(popped@[v]);
        }
        assert forall|v: int| 0 <= v < gn implies durs@[v] <= (#[trigger] longest@[v]) by {
            assert(popped@[v]);
            assert(reached@[v]);
        }
    }
    Ok(
        Relaxation {
            longest,
            parents,
            sinks,
            max_par,
            pos: Ghost(pos),
        },
    )
}

/// Whether some duration has been declared for the label text `t`.
pub open spec fn has_dur(durs: Seq<(TaskLabel, Duration)>, t: Seq<char>) -> bool {
    exists|k: int| 0 <= k < durs.len() && (#[trigger] durs[k]).0@ == t
}

/// The declared duration of the label text `t`.
pub open spec fn dur_of(durs: Seq<(TaskLabel, Duration)>, t: Seq<char>) -> Duration {
    let k = choose|k: int| 0 <= k < durs.len() && (#[trigger] durs[k]).0@ == t;
    durs[k].1
}

/// No label text appears twice in the duration declarations.
pub open spec fn durs_distinct(durs: Seq<(TaskLabel, Duration)>) -> bool {
    forall|k1: int, k2: int|
        #![trigger durs[k1], durs[k2]]
        0 <= k1 < k2 < durs.len() ==> durs[k1].0@ != durs[k2].0@
}

/// Whether some declared label lacks a duration.
pub open spec fn some_missing_duration(
    orders: Seq<TaskOrder>,
    durs: Seq<(TaskLabel, Duration)>,
) -> bool {
    exists|k: int|
        0 <= k < orders.len() && (!has_dur(durs, (#[trigger] orders[k]@).first) || match orders[k]@.second {
            Some(t) => !has_dur(durs, t),
            None => false,
        })
}

/// Whether some label with a duration is never declared.
pub open spec fn some_missing_order(
    orders: Seq<TaskOrder>,
    durs: Seq<(TaskLabel, Duration)>,
) -> bool {
    exists|k: int| 0 <= k < durs.len() && !mentioned_in(orders, (#[trigger] durs[k]).0@)
}

/// The per-task duration sequence, ordered by task index.
pub open spec fn durs_seq(g: Graph, durs: Seq<(TaskLabel, Duration)>) -> Seq<u16> {
    Seq::new(g.n() as nat, |i: int| dur_of(durs, g.labels@[i]@))
}

/// The texts of a sequence of labels.
pub open spec fn texts_of(p: Seq<TaskLabel>) -> Seq<Seq<char>> {
    p.map_values(|l: TaskLabel| l@)
}

/// The texts of the tasks that a sequence of indices names.
pub open spec fn ids_to_texts(labels: Seq<TaskLabel>, p: Seq<usize>) -> Seq<Seq<char>> {
    p.map_values(|i: usize| labels[i as int]@)
}

/// The critical paths of `a`, matched one-to-one by an index-path
/// sequence `ps` over `g`: each is a complete path of exactly the minimum
/// completion time, every such path occurs, and they stand in display
/// order (more tasks first, ties by ascending lexicographic order).
pub open spec fn analysis_paths_match(
    g: Graph,
    d: Seq<u16>,
    a: ScheduleAnalysis,
    ps: Seq<Seq<usize>>,
) -> bool {
    &&& ps.len() == a.spec_critical_paths().len()
    &&& forall|m: int|
        0 <= m < ps.len() ==> crate::graph::complete_path(g, #[trigger] ps[m])
            && crate::graph::path_dur(d, ps[m]) == a.spec_minimum_completion_time()
    &&& forall|m: int|
        0 <= m < ps.len() ==> ids_to_texts(g.labels@, #[trigger] ps[m]) == texts_of(
            a.spec_critical_paths()[m]@,
        )
    &&& forall|p: Seq<usize>|
        crate::graph::complete_path(g, p) && crate::graph::path_dur(d, p)
            == a.spec_minimum_completion_time() ==> ps.contains(p)
    &&& forall|m1: int, m2: int|
        #![trigger ps[m1], ps[m2]]
        0 <= m1 < m2 < ps.len() ==> crate::paths::path_lt(ps[m1], ps[m2])
}

/// What a successful analysis states, relative to the task graph `g` and
/// the per-task durations `d`.
pub open spec fn analysis_matches(g: Graph, d: Seq<u16>, a: ScheduleAnalysis) -> bool {
    &&& a.spec_task_count() == g.n()
    &&& 1 <= a.spec_max_parallelism() <= g.n()
    &&& a.spec_max_parallelism() as int == spec_peak_parallelism(g, d)
    &&& a.spec_critical_path_count() == a.spec_critical_paths().len()
    &&& forall|p: Seq<usize>|
        crate::graph::complete_path(g, p) ==> crate::graph::path_dur(d, p)
            <= a.spec_minimum_completion_time()
    &&& exists|p: Seq<usize>|
        #[trigger] crate::graph::complete_path(g, p) && crate::graph::path_dur(d, p)
            == a.spec_minimum_completion_time()
    &&& exists|ps: Seq<Seq<usize>>| #[trigger] analysis_paths_match(g, d, a, ps)
}

/// What analyzing a schedule promises, case by case.
pub open spec fn analysis_ok(
    orders: Seq<TaskOrder>,
    durs: Seq<(TaskLabel, Duration)>,
    a: ScheduleAnalysis,
) -> bool {
    exists|g: Graph|
        {
            &&& #[trigger] g.wf()
            &&& g.represents(orders)
            &&& g.n() == durs.len()
            &&& analysis_matches(g, durs_seq(g, durs), a)
        }
}

/// A sequence of distinct texts that all occur in `ys` is no longer than
/// `ys`.
proof fn lemma_inj_le(xs: Seq<Seq<char>>, ys: Seq<Seq<char>>)
    requires
        forall|i1: int, i2: int| 0 <= i1 < i2 < xs.len() ==> xs[i1] != xs[i2],
        forall|i: int| 0 <= i < xs.len() ==> ys.contains(#[trigger] xs[i]),
    ensures
        xs.len() <= ys.len(),
    decreases xs.len(),
{
    if xs.len() > 0 {
        let l = xs.last();
        let k = choose|k: int| 0 <= k < ys.len() && ys[k] == l;
        let xs2 = xs.drop_last();
        let ys2 = ys.remove(k);
        assert forall|i: int| 0 <= i < xs2.len() implies ys2.contains(#[trigger] xs2[i]) by {
            assert(xs2[i] == xs[i]);
            assert(xs[i] != l);
            let k2 = choose|k2: int| 0 <= k2 < ys.len() && ys[k2] == xs[i];
            assert(k2 != k);
            if k2 < k {
                assert(ys2[k2] == xs[i]);
            } else {
                assert(ys2[k2 - 1] == xs[i]);
            }
        }
        lemma_inj_le(xs2, ys2);
    }
}

/// Looks up the declared duration of `t`.
fn find_duration(durs: &Vec<(TaskLabel, Duration)>, t: &TaskLabel) -> (r: Option<Duration>)
    requires
        durs_distinct(durs@),
    ensures
        match r {
            Some(x) => has_dur(durs@, t@) && x == dur_of(durs@, t@),
            None => !has_dur(durs@, t@),
        },
{
    let mut k: usize = 0;
    while k < durs.len()
        invariant
            0 <= k <= durs@.len(),
            durs_distinct(durs@),
            forall|m: int| 0 <= m < k ==> (#[trigger] durs@[m]).0@ != t@,
        decreases durs@.len() - k,
    {
        if durs[k].0.eq_label(t) {
            proof {
                let kc = choose|kc: int| 0 <= kc < durs@.len() && (#[trigger] durs@[kc]).0@ == t@;
                if kc != k as int {
                    assert(durs@[kc].0@ == durs@[k as int].0@);
                }
            }
            return Some(durs[k].1);
        }
        k += 1;
    }
    None
}

/// Builds the label sequence of an index path.
fn labels_of_path(labels: &Vec<TaskLabel>, p: &Vec<usize>) -> (r: Vec<TaskLabel>)
    requires
        forall|t: int| 0 <= t < p@.len() ==> ((#[trigger] p@[t]) as int) < labels@.len(),
    ensures
        r@.len() == p@.len(),
        forall|t: int| 0 <= t < p@.len() ==> (#[trigger] r@[t])@ == labels@[p@[t] as int]@,
{
    let mut r: Vec<TaskLabel> = Vec::new();
    let mut t: usize = 0;
    while t < p.len()
        invariant
            0 <= t <= p@.len(),
            r@.len() == t,
            forall|m: int| 0 <= m < p@.len() ==> ((#[trigger] p@[m]) as int) < labels@.len(),
            forall|m: int| 0 <= m < t ==> (#[trigger] r@[m])@ == labels@[p@[m] as int]@,
        decreases p@.len() - t,
    {
        r.push(labels[p[t]].clone());
        t += 1;
    }
    r
}

/// Collects, in sorted order, every declared label without a duration.
fn collect_missing_durations(g: &Graph, task_durations: &Vec<(TaskLabel, Duration)>) -> (missing:
    Vec<TaskLabel>)
    requires
        g.wf(),
        durs_distinct(task_durations@),
    ensures
        labels_strictly_sorted(missing@),
        forall|t: Seq<char>|
            #![trigger contains_text(missing@, t)]
            contains_text(missing@, t) <==> (contains_text(g.labels@, t) && !has_dur(
                task_durations@,
                t,
            )),
{
    let ghost durs_in = task_durations@;
    let n = g.labels.len();
    let mut missing: Vec<TaskLabel> = Vec::new();
    let mut i: usize = 0;
    while i < n
        invariant
            0 <= i <= n,
            n == g.n(),
            g.wf(),
            durs_distinct(durs_in),
            durs_in == task_durations@,
            labels_strictly_sorted(missing@),
            forall|m: int|
                0 <= m < missing@.len() ==> exists|idx: int|
                    0 <= idx < i && (#[trigger] missing@[m]) == g.labels@[idx],
            forall|m: int|
                0 <= m < missing@.len() ==> !has_dur(durs_in, (#[trigger] missing@[m])@),
            forall|idx: int|
                0 <= idx < i && !has_dur(durs_in, (#[trigger] g.labels@[idx])@) ==> contains_text(
                    missing@,
                    g.labels@[idx]@,
                ),
        decreases n - i,
    {
        if find_duration(task_durations, &g.labels[i]).is_none() {
            let ghost missing_pre = missing@;
            missing.push(g.labels[i].clone());
            proof {
                assert(missing@[missing@.len() - 1] == g.labels@[i as int]);
                assert forall|m1: int, m2: int|
                    0 <= m1 < m2 < missing@.len() implies lex_lt(
                    missing@[m1]@,
                    missing@[m2]@,
                ) by {
                    if m2 == missing@.len() - 1 {
                        assert(missing@[m1] == missing_pre[m1]);
                        let idx = choose|idx: int|
                            0 <= idx < i && (#[trigger] missing_pre[m1]) == g.labels@[idx];
                        assert(lex_lt(g.labels@[idx]@, g.labels@[i as int]@));
                    } else {
                        assert(missing@[m1] == missing_pre[m1]);
                        assert(missing@[m2] == missing_pre[m2]);
                    }
                }
                assert forall|m: int| 0 <= m < missing@.len() implies exists|idx: int|
                    0 <= idx < i + 1 && (#[trigger] missing@[m]) == g.labels@[idx] by {
                    if m < missing_pre.len() {
                        assert(missing@[m] == missing_pre[m]);
                        let idx = choose|idx: int|
                            0 <= idx < i && (#[trigger] missing_pre[m]) == g.labels@[idx];
                        assert(0 <= idx < i + 1 && missing@[m] == g.labels@[idx]);
                    } else {
                        assert((0 <= i as int) && ((i as int) < i + 1) && missing@[m]
                            == g.labels@[i as int]);
                    }
                }
                assert forall|idx: int|
                    0 <= idx < i + 1 && !has_dur(durs_in, (#[trigger] g.labels@[idx])@)
                    implies contains_text(missing@, g.labels@[idx]@) by {
                    if idx < i as int {
                        assert(contains_text(missing_pre, g.labels@[idx]@));
                        let m = choose|m: int|
                            0 <= m < missing_pre.len() && (#[trigger] missing_pre[m])@
                                == g.labels@[idx]@;
                        assert(missing@[m]@ == g.labels@[idx]@);
                    } else {
                        assert(missing@[missing@.len() - 1]@ == g.labels@[idx]@);
                    }
                }
            }
        } else {
            proof {
                assert forall|m: int| 0 <= m < missing@.len() implies exists|idx: int|
                    0 <= idx < i + 1 && (#[trigger] missing@[m]) == g.labels@[idx] by {
                    let idx = choose|idx: int|
                        0 <= idx < i && (#[trigger] missing@[m]) == g.labels@[idx];
                    assert(0 <= idx < i + 1 && missing@[m] == g.labels@[idx]);
                }
            }
        }
        i += 1;
    }
    proof {
        assert forall|t: Seq<char>|
            #![trigger contains_text(missing@, t)]
            contains_text(missing@, t) <==> (contains_text(g.labels@, t) && !has_dur(
                durs_in,
                t,
            )) by {
            if contains_text(missing@, t) {
                let m = choose|m: int| 0 <= m < missing@.len() && (#[trigger] missing@[m])@ == t;
                let idx = choose|idx: int|
                    0 <= idx < n && (#[trigger] missing@[m]) == g.labels@[idx];
                assert(g.labels@[idx]@ == t);
            }
            if contains_text(g.labels@, t) && !has_dur(durs_in, t) {
                let idx = choose|idx: int|
                    0 <= idx < g.labels@.len() && (#[trigger] g.labels@[idx])@ == t;
            }
        }
    }
    missing
}

/// Collects, in sorted order, every duration label that no declaration
/// mentions, judged against the graph's label list.
fn collect_missing_orders(g: &Graph, task_durations: &Vec<(TaskLabel, Duration)>) -> (missing:
    Vec<TaskLabel>)
    requires
        g.wf(),
        durs_distinct(task_durations@),
    ensures
        labels_strictly_sorted(missing@),
        forall|t: Seq<char>|
            #![trigger contains_text(missing@, t)]
            contains_text(missing@, t) <==> (has_dur(task_durations@, t) && !contains_text(
                g.labels@,
                t,
            )),
{
    let ghost durs_in = task_durations@;
    let mut missing: Vec<TaskLabel> = Vec::new();
    let mut k: usize = 0;
    while k < task_durations.len()
        invariant
            0 <= k <= durs_in.len(),
            durs_in == task_durations@,
            g.wf(),
            durs_distinct(durs_in),
            labels_strictly_sorted(missing@),
            forall|t: Seq<char>|
                #![trigger contains_text(missing@, t)]
                contains_text(missing@, t) <==> (exists|m: int|
                    0 <= m < k && (#[trigger] durs_in[m]).0@ == t && !contains_text(
                        g.labels@,
                        t,
                    )),
        decreases durs_in.len() - k,
    {
        let lbl = &task_durations[k].0;
        if crate::graph::find_label(&g.labels, lbl).is_none() {
            proof {
                if contains_text(missing@, lbl@) {
                    let m = choose|m: int|
                        0 <= m < k && (#[trigger] durs_in[m]).0@ == lbl@ && !contains_text(
                            g.labels@,
                            lbl@,
                        );
                    assert(durs_in[m].0@ == durs_in[k as int].0@);
                }
            }
            crate::graph::insert_label_sorted(&mut missing, task_durations[k].0.clone());
            proof {
                assert forall|t: Seq<char>|
                    #![trigger contains_text(missing@, t)]
                    contains_text(missing@, t) <==> (exists|m: int|
                        0 <= m < k + 1 && (#[trigger] durs_in[m]).0@ == t && !contains_text(
                            g.labels@,
                            t,
                        )) by {
                    if contains_text(missing@, t) {
                        if t == lbl@ {
                            assert(durs_in[k as int].0@ == t);
                        }
                    }
                    if exists|m: int|
                        0 <= m < k + 1 && (#[trigger] durs_in[m]).0@ == t && !contains_text(
                            g.labels@,
                            t,
                        ) {
                        let m = choose|m: int|
                            0 <= m < k + 1 && (#[trigger] durs_in[m]).0@ == t && !contains_text(
                                g.labels@,
                                t,
                            );
                        if m == k as int {
                            assert(contains_text(missing@, lbl@));
                        }
                    }
                }
            }
        } else {
            proof {
                assert forall|t: Seq<char>|
                    #![trigger contains_text(missing@, t)]
                    contains_text(missing@, t) <==> (exists|m: int|
                        0 <= m < k + 1 && (#[trigger] durs_in[m]).0@ == t && !contains_text(
                            g.labels@,
                            t,
                        )) by {
                    if exists|m: int|
                        0 <= m < k + 1 && (#[trigger] durs_in[m]).0@ == t && !contains_text(
                            g.labels@,
                            t,
                        ) {
                        let m = choose|m: int|
                            0 <= m < k + 1 && (#[trigger] durs_in[m]).0@ == t && !contains_text(
                                g.labels@,
                                t,
                            );
                        assert(m != k as int);
                    }
                }
            }
        }
        k += 1;
    }
    missing
}

/// Analyzes a task schedule: validates that declarations and durations
/// cover each other, builds the precedence graph, runs the traversal, and
/// reconstructs every critical path.
///
/// The declarations may repeat; duplicates are united.  The duration map
/// must be free of duplicate labels, and is bounded so that summed path
/// durations stay within `TotalDuration`.
#[verifier::rlimit(60)]
pub fn analyze_schedule(
    task_orders: &Vec<TaskOrder>,
    task_durations: &Vec<(TaskLabel, Duration)>,
) -> (r: Result<ScheduleAnalysis, AnalysisError>)
    requires
        forall|k: int| 0 <= k < task_orders@.len() ==> (#[trigger] task_orders@[k]).wf(),
        durs_distinct(task_durations@),
        task_durations@.len() <= 0xFFFF,
    ensures
        ({
            let orders = task_orders@;
            let durs = task_durations@;
            let empty_in = orders.len() == 0 && durs.len() == 0;
            &&& (r == Err::<ScheduleAnalysis, AnalysisError>(AnalysisError::EmptyInput)
                <==> empty_in)
            &&& ((r matches Err(e) && e matches AnalysisError::MissingDurations(_)) <==> (!empty_in
                && some_missing_duration(orders, durs)))
            &&& (r matches Err(AnalysisError::MissingDurations(v)) ==> {
                &&& labels_strictly_sorted(v@)
                &&& forall|t: Seq<char>|
                    #![trigger contains_text(v@, t)]
                    contains_text(v@, t) <==> (mentioned_in(orders, t) && !has_dur(durs, t))
            })
            &&& ((r matches Err(e) && e matches AnalysisError::MissingOrders(_)) <==> (!empty_in
                && !some_missing_duration(orders, durs) && some_missing_order(orders, durs)))
            &&& (r matches Err(AnalysisError::MissingOrders(v)) ==> {
                &&& labels_strictly_sorted(v@)
                &&& forall|t: Seq<char>|
                    #![trigger contains_text(v@, t)]
                    contains_text(v@, t) <==> (has_dur(durs, t) && !mentioned_in(orders, t))
            })
            &&& ((r == Err::<ScheduleAnalysis, AnalysisError>(AnalysisError::Cycle)) <==> (
            !empty_in && !some_missing_duration(orders, durs) && !some_missing_order(orders, durs)
                && crate::graph::cyclic_orders(orders)))
            &&& (r matches Ok(a) ==> (!empty_in && !some_missing_duration(orders, durs)
                && !some_missing_order(orders, durs) && analysis_ok(orders, durs, a)))
        }),
{
    let ghost orders = task_orders@;
    let ghost durs_in = task_durations@;
    if task_orders.len() == 0 && task_durations.len() == 0 {
        return Err(AnalysisError::EmptyInput);
    }
    let g = Graph::new(task_orders);
    let n = g.labels.len();
    let missing = collect_missing_durations(&g, task_durations);
    if missing.len() > 0 {
        proof {
            assert forall|t: Seq<char>|
                #![trigger contains_text(missing@, t)]
                contains_text(missing@, t) <==> (mentioned_in(orders, t) && !has_dur(
                    durs_in,
                    t,
                )) by {
                if contains_text(missing@, t) {
                    assert(contains_text(g.labels@, t));
                    let idx = choose|idx: int|
                        0 <= idx < g.labels@.len() && (#[trigger] g.labels@[idx])@ == t;
                    assert(mentioned_in(orders, g.labels@[idx]@));
                }
                if mentioned_in(orders, t) && !has_dur(durs_in, t) {
                    let k = choose|k: int|
                        0 <= k < orders.len() && crate::graph::mentions(#[trigger] orders[k]@, t);
                    assert(contains_text(g.labels@, t));
                }
            }
            // A missing entry names a declared label, so some declaration
            // mentions a label without a duration; and conversely.
            assert(contains_text(missing@, missing@[0]@));
            assert(mentioned_in(orders, missing@[0]@) && !has_dur(durs_in, missing@[0]@));
            let k = choose|k: int|
                0 <= k < orders.len() && crate::graph::mentions(#[trigger] orders[k]@, missing@[0]@);
            assert(some_missing_duration(orders, durs_in));
        }
        return Err(AnalysisError::MissingDurations(missing));
    }
    proof {
        // Every declared label has a duration.
        assert forall|idx: int|
            0 <= idx < n implies has_dur(durs_in, (#[trigger] g.labels@[idx])@) by {
            if !has_dur(durs_in, g.labels@[idx]@) {
                assert(contains_text(g.labels@, g.labels@[idx]@));
                assert(contains_text(missing@, g.labels@[idx]@));
            }
        }
        assert(!some_missing_duration(orders, durs_in)) by {
            if some_missing_duration(orders, durs_in) {
                let k = choose|k: int|
                    0 <= k < orders.len() && (!has_dur(durs_in, (#[trigger] orders[k]@).first)
                        || match orders[k]@.second {
                        Some(t) => !has_dur(durs_in, t),
                        None => false,
                    });
                assert(contains_text(g.labels@, orders[k]@.first));
                let i1 = choose|i1: int|
                    0 <= i1 < g.labels@.len() && (#[trigger] g.labels@[i1])@ == orders[k]@.first;
                match orders[k]@.second {
                    Some(t) => {
                        assert(contains_text(g.labels@, t));
                        let i2 = choose|i2: int|
                            0 <= i2 < g.labels@.len() && (#[trigger] g.labels@[i2])@ == t;
                    },
                    None => {},
                }
            }
        }
        // The labels inject into the duration list, so there are at most
        // as many of them.
        assert forall|i1: int, i2: int|
            0 <= i1 < i2 < texts_of(g.labels@).len() implies texts_of(g.labels@)[i1] != texts_of(
            g.labels@,
        )[i2] by {
            assert(texts_of(g.labels@)[i1] == g.labels@[i1]@);
            assert(texts_of(g.labels@)[i2] == g.labels@[i2]@);
            assert(lex_lt(g.labels@[i1]@, g.labels@[i2]@));
            if g.labels@[i1]@ == g.labels@[i2]@ {
                crate::task::lemma_lex_irrefl(g.labels@[i1]@);
            }
        }
        assert forall|i: int|
            0 <= i < texts_of(g.labels@).len() implies durs_in.map_values(
            |e: (TaskLabel, Duration)| e.0@,
        ).contains(#[trigger] texts_of(g.labels@)[i]) by {
            assert(texts_of(g.labels@)[i] == g.labels@[i]@);
            assert(has_dur(durs_in, g.labels@[i]@));
            let m = choose|m: int|
                0 <= m < durs_in.len() && (#[trigger] durs_in[m]).0@ == g.labels@[i]@;
            assert(durs_in.map_values(|e: (TaskLabel, Duration)| e.0@)[m] == g.labels@[i]@);
        }
        lemma_inj_le(texts_of(g.labels@), durs_in.map_values(|e: (TaskLabel, Duration)| e.0@));
        assert(g.labels@.len() <= durs_in.len());
    }
    if task_durations.len() != n {
        let missing2 = collect_missing_orders(&g, task_durations);
        proof {
            // The lists differ in length, so some duration label is
            // never declared.
            assert(durs_in.len() > n);
            if !some_missing_order(orders, durs_in) {
                assert forall|m: int|
                    0 <= m < durs_in.len() implies contains_text(
                    g.labels@,
                    (#[trigger] durs_in[m]).0@,
                ) by {
                    assert(mentioned_in(orders, durs_in[m].0@));
                    let kk = choose|kk: int|
                        0 <= kk < orders.len() && crate::graph::mentions(
                            #[trigger] orders[kk]@,
                            durs_in[m].0@,
                        );
                }
                assert forall|m: int|
                    0 <= m < durs_in.len() implies texts_of(g.labels@).contains(
                    (#[trigger] durs_in[m]).0@,
                ) by {
                    assert(contains_text(g.labels@, durs_in[m].0@));
                    let idx = choose|idx: int|
                        0 <= idx < g.labels@.len() && (#[trigger] g.labels@[idx])@
                            == durs_in[m].0@;
                    assert(texts_of(g.labels@)[idx] == durs_in[m].0@);
                }
                lemma_inj_le(
                    durs_in.map_values(|e: (TaskLabel, Duration)| e.0@),
                    texts_of(g.labels@),
                );
                assert(false);
            }
            assert forall|t: Seq<char>|
                #![trigger contains_text(missing2@, t)]
                contains_text(missing2@, t) <==> (has_dur(durs_in, t) && !mentioned_in(
                    orders,
                    t,
                )) by {
                if contains_text(missing2@, t) {
                    assert(has_dur(durs_in, t) && !contains_text(g.labels@, t));
                    if mentioned_in(orders, t) {
                        let kk = choose|kk: int|
                            0 <= kk < orders.len() && crate::graph::mentions(
                                #[trigger] orders[kk]@,
                                t,
                            );
                        assert(contains_text(g.labels@, t));
                    }
                }
                if has_dur(durs_in, t) && !mentioned_in(orders, t) {
                    if contains_text(g.labels@, t) {
                        let idx = choose|idx: int|
                            0 <= idx < g.labels@.len() && (#[trigger] g.labels@[idx])@ == t;
                        assert(mentioned_in(orders, t));
                    }
                    assert(!contains_text(g.labels@, t));
                }
            }
        }
        return Err(AnalysisError::MissingOrders(missing2));
    }
    proof {
        // Lengths agree, so no duration label can be unmentioned: the
        // declared labels would then inject into one fewer slots.
        assert(durs_in.len() == n);
        if some_missing_order(orders, durs_in) {
            let k = choose|k: int|
                0 <= k < durs_in.len() && !mentioned_in(orders, (#[trigger] durs_in[k]).0@);
            let ys = durs_in.map_values(|e: (TaskLabel, Duration)| e.0@).remove(k);
            assert forall|idx: int|
                0 <= idx < texts_of(g.labels@).len() implies ys.contains(
                #[trigger] texts_of(g.labels@)[idx],
            ) by {
                let t = texts_of(g.labels@)[idx];
                assert(t == g.labels@[idx]@);
                assert(has_dur(durs_in, t));
                let m = choose|m: int| 0 <= m < durs_in.len() && (#[trigger] durs_in[m]).0@ == t;
                assert(mentioned_in(orders, t));
                assert(m != k);
                if m < k {
                    assert(ys[m] == t);
                } else {
                    assert(ys[m - 1] == t);
                }
            }
            lemma_inj_le(texts_of(g.labels@), ys);
            assert(false);
        }
        // A non-empty input mentions at least one label.
        if n == 0 {
            assert(durs_in.len() == 0);
            assert(orders.len() > 0);
            assert(contains_text(g.labels@, orders[0]@.first));
            assert(false);
        }
    }
    let mut d: Vec<Duration> = Vec::new();
    let mut i: usize = 0;
    while i < n
        invariant
            0 <= i <= n,
            n == g.n(),
            g.wf(),
            durs_distinct(durs_in),
            durs_in == task_durations@,
            forall|idx: int| 0 <= idx < n ==> has_dur(durs_in, (#[trigger] g.labels@[idx])@),
            d@.len() == i,
            forall|idx: int| 0 <= idx < i ==> (#[trigger] d@[idx]) == dur_of(durs_in, g.labels@[idx]@),
        decreases n - i,
    {
        let x = match find_duration(task_durations, &g.labels[i]) {
            Some(x) => x,
            None => {
                proof {
                    assert(false);
                }
                0
            },
        };
        d.push(x);
        i += 1;
    }
    proof {
        assert(d@ =~= durs_seq(g, durs_in));
    }
    match analyze_core(&g, &d) {
        Ok(analysis) => {
            proof {
                assert(analysis_ok(orders, durs_in, analysis));
                if crate::graph::cyclic_orders(orders) {
                    let p = choose|p: Seq<Seq<char>>|
                        #[trigger] crate::graph::text_path(orders, p) && p[0] == p.last();
                    crate::graph::lemma_texts_to_cycle(g, orders, p);
                }
            }
            Ok(analysis)
        },
        Err(e) => {
            proof {
                let q = choose|q: Seq<usize>| #[trigger] crate::graph::is_cycle(g, q);
                crate::graph::lemma_cycle_to_texts(g, orders, q);
            }
            Err(e)
        },
    }
}

/// Runs the traversal over a validated graph and assembles the result.
#[verifier::rlimit(60)]
fn analyze_core(g: &Graph, d: &Vec<Duration>) -> (r: Result<ScheduleAnalysis, AnalysisError>)
    requires
        g.wf(),
        d@.len() == g.n(),
        1 <= g.n() <= 0xFFFF,
    ensures
        match r {
            Ok(a) => analysis_matches(*g, d@, a) && !crate::graph::cyclic(*g),
            Err(e) => e == AnalysisError::Cycle && crate::graph::cyclic(*g),
        },
{
    let n = g.labels.len();
    let rel = match run_kahn(g, d) {
        Ok(rel) => rel,
        Err(e) => {
            return Err(AnalysisError::Cycle);
        },
    };
    proof {
        assert(crate::paths::parents_wf(rel.parents@, rel.pos@));
        assert(crate::paths::parents_distinct(rel.parents@));
        crate::graph::lemma_pos_acyclic(*g, rel.pos@);
    }
    let cp = crate::paths::CriticalPaths::find_critical_paths(
        &rel.parents,
        &rel.longest,
        &rel.sinks,
        Ghost(rel.pos@),
    );
    let mut label_paths: Vec<Vec<TaskLabel>> = Vec::new();
    let mut m: usize = 0;
    while m < cp.paths.len()
        invariant
            0 <= m <= cp.paths@.len(),
            n == g.n(),
            g.wf(),
            rel.parents@.len() == n,
            forall|mm: int|
                0 <= mm < cp.paths@.len() ==> {
                    let p = (#[trigger] cp.paths@[mm])@;
                    p.len() > 0 && crate::paths::rev_chain(rel.parents@, p.reverse())
                },
            label_paths@.len() == m,
            forall|mm: int|
                0 <= mm < m ==> (#[trigger] label_paths@[mm])@.len() == cp.paths@[mm]@.len(),
            forall|mm: int, t: int|
                #![trigger label_paths@[mm]@[t]]
                0 <= mm < m && 0 <= t < cp.paths@[mm]@.len() ==> label_paths@[mm]@[t]@
                    == g.labels@[cp.paths@[mm]@[t] as int]@,
        decreases cp.paths@.len() - m,
    {
        proof {
            let p = cp.paths@[m as int]@;
            assert(crate::paths::rev_chain(rel.parents@, p.reverse()));
            assert forall|t: int| 0 <= t < p.len() implies ((#[trigger] p[t]) as int) < n by {
                assert(p.reverse()[p.len() - 1 - t] == p[t]);
            }
        }
        label_paths.push(labels_of_path(&g.labels, &cp.paths[m]));
        m += 1;
    }
    let count = label_paths.len();
    let analysis = ScheduleAnalysis {
        max_parallelism: rel.max_par,
        task_count: n,
        minimum_completion_time: cp.duration,
        critical_path_count: count,
        critical_paths: label_paths,
    };
    proof {
        lemma_core_result(*g, d@, rel.longest@, rel.parents@, rel.sinks@, rel.pos@, cp.paths@, cp.duration, analysis);
    }
    Ok(analysis)
}


/// Every complete path's duration is bounded by the maximum over sinks.
#[verifier::rlimit(60)]
proof fn lemma_core_upper(
    g: Graph,
    ds: Seq<u16>,
    longest: Seq<u32>,
    parents: Seq<Vec<usize>>,
    sinks: Seq<usize>,
    pos: Map<int, nat>,
    dur: u32,
)
    requires
        g.wf(),
        ds.len() == g.n(),
        relaxation_ok(g, ds, longest, parents, sinks, pos),
        forall|q: int| 0 <= q < sinks.len() ==> longest[(#[trigger] sinks[q]) as int] <= dur,
    ensures
        forall|p: Seq<usize>|
            crate::graph::complete_path(g, p) ==> crate::graph::path_dur(ds, p) <= dur as int,
{
    assert forall|p: Seq<usize>| crate::graph::complete_path(g, p) implies crate::graph::path_dur(
        ds,
        p,
    ) <= dur as int by {
        lemma_path_dur_le(g, ds, longest, parents, sinks, pos, p);
        let v = p.last() as int;
        assert(0 <= v < g.n());
        g.lemma_sink_iff(v);
        assert(((v as usize)) == p.last());
        assert(sinks.contains(p.last()));
        let q = choose|q: int| 0 <= q < sinks.len() && sinks[q] == p.last();
        assert(longest[sinks[q] as int] <= dur);
    }
}

/// Every complete path of maximal duration is among the reconstructed
/// walks.
#[verifier::rlimit(60)]
proof fn lemma_core_complete(
    g: Graph,
    ds: Seq<u16>,
    longest: Seq<u32>,
    parents: Seq<Vec<usize>>,
    sinks: Seq<usize>,
    pos: Map<int, nat>,
    cpaths: Seq<Vec<usize>>,
    dur: u32,
    p: Seq<usize>,
)
    requires
        g.wf(),
        ds.len() == g.n(),
        relaxation_ok(g, ds, longest, parents, sinks, pos),
        forall|q: int| 0 <= q < sinks.len() ==> longest[(#[trigger] sinks[q]) as int] <= dur,
        forall|q: Seq<usize>|
            crate::paths::rev_chain(parents, q) && sinks.contains(q[0]) && longest[q[0] as int]
                == dur ==> crate::paths::contains_from(cpaths, q.reverse(), 0),
        crate::graph::complete_path(g, p),
        crate::graph::path_dur(ds, p) == dur as int,
    ensures
        exists|mm: int| 0 <= mm < cpaths.len() && (#[trigger] cpaths[mm])@ == p,
{
    lemma_path_dur_le(g, ds, longest, parents, sinks, pos, p);
    let v = p.last() as int;
    assert(0 <= v < g.n());
    g.lemma_sink_iff(v);
    assert(((v as usize)) == p.last());
    assert(sinks.contains(p.last()));
    let qx = choose|qx: int| 0 <= qx < sinks.len() && sinks[qx] == p.last();
    assert(longest[v] <= dur);
    assert(crate::graph::path_dur(ds, p) == longest[v]);
    lemma_tight_chain(g, ds, longest, parents, sinks, pos, p);
    assert(parents[p[0] as int]@.len() == 0) by {
        assert(is_source(g, p[0] as int));
    }
    lemma_backlinked_reverse(parents, p);
    let q = p.reverse();
    assert(q[0] == p.last());
    assert(longest[q[0] as int] == dur);
    assert(crate::paths::contains_from(cpaths, q.reverse(), 0));
    assert(q.reverse() =~= p);
    let mm = choose|mm: int| 0 <= mm < cpaths.len() && (#[trigger] cpaths[mm])@ == p;
}

/// Assembles the final contract: given the traversal records and the
/// reconstructed paths, the analysis states the minimum completion time
/// and lists exactly the maximum-duration complete paths, in order.
#[verifier::rlimit(100)]
proof fn lemma_core_result(
    g: Graph,
    ds: Seq<u16>,
    longest: Seq<u32>,
    parents: Seq<Vec<usize>>,
    sinks: Seq<usize>,
    pos: Map<int, nat>,
    cpaths: Seq<Vec<usize>>,
    dur: u32,
    analysis: ScheduleAnalysis,
)
    requires
        g.wf(),
        ds.len() == g.n(),
        1 <= g.n() <= 0xFFFF,
        relaxation_ok(g, ds, longest, parents, sinks, pos),
        forall|q: int| 0 <= q < sinks.len() ==> longest[(#[trigger] sinks[q]) as int] <= dur,
        sinks.len() > 0 ==> exists|q: int|
            0 <= q < sinks.len() && longest[(#[trigger] sinks[q]) as int] == dur,
        forall|m: int|
            0 <= m < cpaths.len() ==> {
                let p = (#[trigger] cpaths[m])@;
                &&& p.len() > 0
                &&& crate::paths::rev_chain(parents, p.reverse())
                &&& sinks.contains(p.last())
                &&& longest[p.last() as int] == dur
            },
        forall|q: Seq<usize>|
            crate::paths::rev_chain(parents, q) && sinks.contains(q[0]) && longest[q[0] as int]
                == dur ==> crate::paths::contains_from(cpaths, q.reverse(), 0),
        forall|m1: int, m2: int|
            #![trigger cpaths[m1], cpaths[m2]]
            0 <= m1 < m2 < cpaths.len() ==> cpaths[m1]@ != cpaths[m2]@,
        forall|m1: int, m2: int|
            #![trigger cpaths[m1], cpaths[m2]]
            0 <= m1 < m2 < cpaths.len() ==> crate::paths::path_le(cpaths[m1]@, cpaths[m2]@),
        analysis.spec_task_count() == g.n(),
        1 <= analysis.spec_max_parallelism() <= g.n(),
        analysis.spec_max_parallelism() as int == spec_peak_parallelism(g, ds),
        analysis.spec_minimum_completion_time() == dur,
        analysis.spec_critical_path_count() == analysis.spec_critical_paths().len(),
        analysis.spec_critical_paths().len() == cpaths.len(),
        forall|mm: int|
            0 <= mm < cpaths.len() ==> (#[trigger] analysis.spec_critical_paths()[mm])@.len()
                == cpaths[mm]@.len(),
        forall|mm: int, t: int|
            #![trigger analysis.spec_critical_paths()[mm]@[t]]
            0 <= mm < cpaths.len() && 0 <= t < cpaths[mm]@.len()
                ==> analysis.spec_critical_paths()[mm]@[t]@ == g.labels@[cpaths[mm]@[t] as int]@,
    ensures
        analysis_matches(g, ds, analysis),
{
        // Any complete path is bounded by its sink's recorded duration,
        // which in turn is bounded by the maximum over sinks.
        assert forall|p: Seq<usize>| crate::graph::complete_path(g, p) implies crate::graph::path_dur(
            ds,
            p,
        ) <= dur as int by {
            lemma_path_dur_le(g, ds, longest, parents, sinks, pos, p);
            let v = p.last() as int;
            assert(0 <= v < g.n());
            g.lemma_sink_iff(v);
            assert(((v as usize)) == p.last());
            assert(sinks.contains(p.last()));
            let q = choose|q: int| 0 <= q < sinks.len() && sinks[q] == p.last();
            assert(longest[sinks[q] as int] <= dur);
        }
        // Some complete path attains the maximum: walk the parent lists
        // down from a heaviest sink.
        let sv = lemma_exists_sink(g, pos);
        assert(sinks.contains(sv as usize));
        assert(sinks.len() > 0) by {
            let qx = choose|qx: int| 0 <= qx < sinks.len() && sinks[qx] == sv as usize;
        }
        let qd = choose|q: int|
            0 <= q < sinks.len() && longest[(#[trigger] sinks[q]) as int] == dur;
        let s = sinks[qd];
        let chain = lemma_chain_exists(parents, pos, s);
        lemma_chain_dur(g, ds, longest, parents, sinks, pos, chain);
        let wp = chain.reverse();
        assert(wp[0] == chain[chain.len() - 1]);
        assert(wp.last() == chain[0]);
        assert(chain[0] == s);
        assert(sinks.contains(s));
        assert((s as int) < g.n());
        g.lemma_sink_iff(s as int);
        assert(is_sink(g, s as int));
        assert(crate::graph::complete_path(g, wp));
        assert(crate::graph::path_dur(ds, wp) == dur as int);
        // The reconstructed paths are exactly the complete paths of
        // maximal duration, in display order.
        let ps = Seq::new(cpaths.len(), |mm: int| cpaths[mm]@);
        assert forall|mm: int| 0 <= mm < ps.len() implies crate::graph::complete_path(
            g,
            #[trigger] ps[mm],
        ) && crate::graph::path_dur(ds, ps[mm]) == dur as int by {
            let p = ps[mm];
            assert(p == cpaths[mm]@);
            let q = p.reverse();
            assert(crate::paths::rev_chain(parents, q));
            lemma_chain_dur(g, ds, longest, parents, sinks, pos, q);
            assert(q.reverse() =~= p);
            assert(q[0] == p[p.len() - 1]);
            assert(q[0] == p.last());
            assert(q.last() == p[0]);
            assert(sinks.contains(p.last()));
            let qx = choose|qx: int| 0 <= qx < sinks.len() && sinks[qx] == p.last();
            assert((p.last() as int) < g.n());
            g.lemma_sink_iff(p.last() as int);
            assert(is_sink(g, p.last() as int));
            assert(longest[p.last() as int] == dur);
        }
        assert forall|mm: int| 0 <= mm < ps.len() implies ids_to_texts(
            g.labels@,
            #[trigger] ps[mm],
        ) == texts_of(analysis.spec_critical_paths()[mm]@) by {
            assert(ids_to_texts(g.labels@, ps[mm]) =~= texts_of(
                analysis.spec_critical_paths()[mm]@,
            ));
        }
        assert forall|p: Seq<usize>|
            crate::graph::complete_path(g, p) && crate::graph::path_dur(ds, p)
                == dur as int implies ps.contains(p) by {
            lemma_core_complete(g, ds, longest, parents, sinks, pos, cpaths, dur, p);
            let mm = choose|mm: int|
                0 <= mm < cpaths.len() && (#[trigger] cpaths[mm])@ == p;
            assert(ps[mm] == p);
        }
        assert forall|m1: int, m2: int|
            #![trigger ps[m1], ps[m2]]
            0 <= m1 < m2 < ps.len() implies crate::paths::path_lt(ps[m1], ps[m2]) by {
            assert(crate::paths::path_le(cpaths[m1]@, cpaths[m2]@));
            assert(cpaths[m1]@ != cpaths[m2]@);
        }
        assert(analysis_paths_match(g, ds, analysis, ps));
        assert(analysis_matches(g, ds, analysis));
    }

} // verus!
