//! End-to-end processing: parse a schedule text, normalize the parsed
//! declarations into a duplicate-free set, and analyze it.

use vstd::prelude::*;

use crate::analyzer::analysis_ok;
use crate::analyzer::analyze_schedule;
use crate::analyzer::durs_distinct;
use crate::analyzer::has_dur;
use crate::analyzer::AnalysisError;
use crate::analyzer::ScheduleAnalysis;
use crate::parser::ParserError;
use crate::parser::ScheduleParser;
use crate::task::valid_label;
use crate::task::Duration;
use crate::task::TaskLabel;
use crate::task::TaskOrder;
use crate::task::TaskRelation;

verus! {

/// Why processing stopped.
#[derive(Debug)]
pub enum ProcessError {
    /// The text violates the schedule language.
    Parse(ParserError),
    /// The same label was declared with two different durations.
    ConflictingDurations(TaskLabel),
    /// A task was declared to precede itself.
    SelfDependency(TaskLabel),
    /// More distinct tasks than an analysis can hold.
    TooManyTasks,
    /// The analysis itself failed.
    Analysis(AnalysisError),
}

impl ProcessError {
    /// A user-facing description.
    pub fn message(&self) -> (r: String)
        ensures
            *self matches ProcessError::Parse(e) ==> r@ == "line "@ + crate::render::dec_rep(
                e.spec_line() as int,
            ) + ", column "@ + crate::render::dec_rep(e.spec_column() as int),
            *self matches ProcessError::ConflictingDurations(l) ==> r@
                == "Conflicting durations for task: "@ + l@,
            *self matches ProcessError::SelfDependency(l) ==> r@
                == "Labels cannot have a dependency on themselves: "@ + l@,
            *self is TooManyTasks ==> r@ == "Too many tasks"@,
            *self matches ProcessError::Analysis(e) ==> r@ == crate::analyzer::analysis_error_rep(
                e,
            ),
    {
        match self {
            ProcessError::Parse(e) => e.message(),
            ProcessError::ConflictingDurations(l) => {
                let mut s = String::from_str("Conflicting durations for task: ");
                s.append(l.as_str());
                s
            },
            ProcessError::SelfDependency(l) => {
                let mut s = String::from_str("Labels cannot have a dependency on themselves: ");
                s.append(l.as_str());
                s
            },
            ProcessError::TooManyTasks => String::from_str("Too many tasks"),
            ProcessError::Analysis(e) => crate::analyzer::format_analysis_error(e),
        }
    }
}

/// The label text `t` is declared with two different durations.
pub open spec fn conflicting_label(td: Seq<(TaskLabel, Duration)>, t: Seq<char>) -> bool {
    exists|k1: int, k2: int|
        #![trigger td[k1], td[k2]]
        0 <= k1 < td.len() && 0 <= k2 < td.len() && td[k1].0@ == t && td[k2].0@ == t && td[k1].1
            != td[k2].1
}

/// No label is declared with two different durations.
pub open spec fn no_conflict(td: Seq<(TaskLabel, Duration)>) -> bool {
    forall|k1: int, k2: int|
        #![trigger td[k1], td[k2]]
        0 <= k1 < td.len() && 0 <= k2 < td.len() && td[k1].0@ == td[k2].0@ ==> td[k1].1 == td[k2].1
}

/// No pair declares a task as its own predecessor.
pub open spec fn no_self_dependency(to: Seq<(TaskLabel, Option<TaskLabel>)>) -> bool {
    forall|m: int|
        0 <= m < to.len() ==> match (#[trigger] to[m]).1 {
            Some(l) => l@ != to[m].0@,
            None => true,
        }
}

/// In a conflict-free declaration list, any entry's value is the declared
/// duration of its label.
proof fn lemma_dur_value(td: Seq<(TaskLabel, Duration)>, kk: int, e: (TaskLabel, Duration))
    requires
        no_conflict(td),
        0 <= kk < td.len(),
        e == td[kk],
    ensures
        has_dur(td, e.0@),
        e.1 == crate::analyzer::dur_of(td, e.0@),
{
    assert(td[kk].0@ == e.0@);
    assert(has_dur(td, e.0@));
    let kc = choose|kc: int| 0 <= kc < td.len() && (#[trigger] td[kc]).0@ == e.0@;
    assert(td[kk].1 == td[kc].1);
}

/// Reduces raw duration declarations to one entry per label, failing
/// exactly when a label is declared with two different durations.
#[verifier::rlimit(60)]
pub fn establish_task_durations(task_durations: &Vec<(TaskLabel, Duration)>) -> (r: Result<
    Vec<(TaskLabel, Duration)>,
    ProcessError,
>)
    ensures
        (r is Ok) <==> no_conflict(task_durations@),
        r matches Err(e) ==> e is ConflictingDurations,
        r matches Err(ProcessError::ConflictingDurations(l)) ==> conflicting_label(
            task_durations@,
            l@,
        ),
        r matches Ok(v) ==> {
            &&& durs_distinct(v@)
            &&& forall|t: Seq<char>| has_dur(v@, t) <==> has_dur(task_durations@, t)
            &&& forall|m: int|
                #![trigger v@[m]]
                0 <= m < v@.len() ==> has_dur(task_durations@, v@[m].0@) && v@[m].1
                    == crate::analyzer::dur_of(task_durations@, v@[m].0@)
        },
{
    let ghost td = task_durations@;
    let mut out: Vec<(TaskLabel, Duration)> = Vec::new();
    let mut k: usize = 0;
    while k < task_durations.len()
        invariant
            0 <= k <= td.len(),
            td == task_durations@,
            durs_distinct(out@),
            forall|t: Seq<char>|
                has_dur(out@, t) <==> (exists|kk: int|
                    0 <= kk < k && (#[trigger] td[kk]).0@ == t),
            forall|m: int|
                #![trigger out@[m]]
                0 <= m < out@.len() ==> exists|kk: int|
                    0 <= kk < k && out@[m] == (#[trigger] td[kk]),
            forall|kk: int|
                0 <= kk < k ==> exists|m: int|
                    0 <= m < out@.len() && (#[trigger] td[kk]).0@ == out@[m].0@ && td[kk].1
                        == out@[m].1,
        decreases td.len() - k,
    {
        let label = &task_durations[k].0;
        let value = task_durations[k].1;
        let mut m: usize = 0;
        let mut found = false;
        while m < out.len()
            invariant_except_break
                0 <= m <= out@.len(),
                !found,
                forall|mm: int| 0 <= mm < m ==> (#[trigger] out@[mm]).0@ != label@,
            ensures
                0 <= m <= out@.len(),
                found ==> m < out@.len() && out@[m as int].0@ == label@,
                !found ==> forall|mm: int| 0 <= mm < out@.len() ==> (#[trigger] out@[mm]).0@
                    != label@,
            decreases out@.len() - m,
        {
            if out[m].0.eq_label(label) {
                found = true;
                break;
            }
            m += 1;
        }
        if found {
            if out[m].1 != value {
                proof {
                    let kk = choose|kk: int|
                        0 <= kk < k && out@[m as int] == (#[trigger] td[kk]);
                    assert(td[kk].0@ == td[k as int].0@ && td[kk].1 != td[k as int].1);
                    assert(td[kk].0@ == label@ && td[k as int].0@ == label@);
                    assert(conflicting_label(td, label@));
                }
                return Err(ProcessError::ConflictingDurations(label.clone()));
            }
            proof {
                assert forall|t: Seq<char>| has_dur(out@, t) <==> (exists|kk: int|
                    0 <= kk < k + 1 && (#[trigger] td[kk]).0@ == t) by {
                    if exists|kk: int| 0 <= kk < k + 1 && (#[trigger] td[kk]).0@ == t {
                        let kk = choose|kk: int| 0 <= kk < k + 1 && (#[trigger] td[kk]).0@ == t;
                        if kk == k as int {
                            assert(out@[m as int].0@ == t);
                            assert(has_dur(out@, t));
                        }
                    }
                }
                assert(td[k as int].0@ == out@[m as int].0@ && td[k as int].1
                    == out@[m as int].1);
                assert forall|kk: int| 0 <= kk < k + 1 implies exists|m2: int|
                    0 <= m2 < out@.len() && (#[trigger] td[kk]).0@ == out@[m2].0@ && td[kk].1
                        == out@[m2].1 by {
                    if kk == k as int {
                        assert((0 <= m as int) && ((m as int) < out@.len()) && td[kk].0@
                            == out@[m as int].0@ && td[kk].1 == out@[m as int].1);
                    }
                }
            }
        } else {
            let ghost out_pre = out@;
            out.push((label.clone(), value));
            proof {
                assert(out@[out@.len() - 1].0@ == label@ && out@[out@.len() - 1]
                    == td[k as int]);
                assert forall|m1: int, m2: int|
                    #![trigger out@[m1], out@[m2]]
                    0 <= m1 < m2 < out@.len() implies out@[m1].0@ != out@[m2].0@ by {
                    if m2 == out@.len() - 1 {
                        assert(out@[m1] == out_pre[m1]);
                    } else {
                        assert(out@[m1] == out_pre[m1]);
                        assert(out@[m2] == out_pre[m2]);
                    }
                }
                assert forall|t: Seq<char>| has_dur(out@, t) <==> (exists|kk: int|
                    0 <= kk < k + 1 && (#[trigger] td[kk]).0@ == t) by {
                    if has_dur(out@, t) {
                        let mm = choose|mm: int|
                            0 <= mm < out@.len() && (#[trigger] out@[mm]).0@ == t;
                        if mm < out_pre.len() {
                            assert(out_pre[mm] == out@[mm]);
                            assert(has_dur(out_pre, t));
                        } else {
                            assert(td[k as int].0@ == t);
                        }
                    }
                    if exists|kk: int| 0 <= kk < k + 1 && (#[trigger] td[kk]).0@ == t {
                        let kk = choose|kk: int| 0 <= kk < k + 1 && (#[trigger] td[kk]).0@ == t;
                        if kk < k as int {
                            assert(has_dur(out_pre, t));
                            let mm = choose|mm: int|
                                0 <= mm < out_pre.len() && (#[trigger] out_pre[mm]).0@ == t;
                            assert(out@[mm].0@ == t);
                        } else {
                            assert(out@[out@.len() - 1].0@ == t);
                        }
                    }
                }
                assert forall|kk: int| 0 <= kk < k + 1 implies exists|m2: int|
                    0 <= m2 < out@.len() && (#[trigger] td[kk]).0@ == out@[m2].0@ && td[kk].1
                        == out@[m2].1 by {
                    if kk < k as int {
                        let m2 = choose|m2: int|
                            0 <= m2 < out_pre.len() && (#[trigger] td[kk]).0@ == out_pre[m2].0@
                                && td[kk].1 == out_pre[m2].1;
                        assert(out@[m2] == out_pre[m2]);
                        assert((0 <= m2) && (m2 < out@.len()) && td[kk].0@ == out@[m2].0@
                            && td[kk].1 == out@[m2].1);
                    } else {
                        let m2 = out@.len() - 1;
                        assert((0 <= m2) && (m2 < out@.len()) && td[kk].0@ == out@[m2].0@
                            && td[kk].1 == out@[m2].1);
                    }
                }
                assert forall|m1: int|
                    #![trigger out@[m1]]
                    0 <= m1 < out@.len() implies exists|kk: int|
                    0 <= kk < k + 1 && out@[m1] == (#[trigger] td[kk]) by {
                    if m1 < out_pre.len() {
                        assert(out@[m1] == out_pre[m1]);
                        let kk = choose|kk: int|
                            0 <= kk < k && out_pre[m1] == (#[trigger] td[kk]);
                        assert((0 <= kk) && (kk < k + 1) && out@[m1] == td[kk]);
                    } else {
                        assert(out@[m1] == td[k as int]);
                    }
                }
            }
        }
        k += 1;
    }
    proof {
        assert forall|t: Seq<char>| has_dur(out@, t) <==> has_dur(td, t) by {
            if has_dur(out@, t) {
                assert(exists|kk: int| 0 <= kk < td.len() && (#[trigger] td[kk]).0@ == t);
            }
            if has_dur(td, t) {
                assert(exists|kk: int| 0 <= kk < td.len() && (#[trigger] td[kk]).0@ == t);
            }
        }
        assert forall|k1: int, k2: int|
            #![trigger td[k1], td[k2]]
            0 <= k1 < td.len() && 0 <= k2 < td.len() && td[k1].0@ == td[k2].0@ implies td[k1].1
            == td[k2].1 by {
            let m1 = choose|m: int|
                0 <= m < out@.len() && (#[trigger] td[k1]).0@ == out@[m].0@ && td[k1].1
                    == out@[m].1;
            let m2 = choose|m: int|
                0 <= m < out@.len() && (#[trigger] td[k2]).0@ == out@[m].0@ && td[k2].1
                    == out@[m].1;
            if m1 != m2 {
                assert(out@[m1].0@ != out@[m2].0@);
            }
        }
    }
    proof {
        assert forall|m: int|
            #![trigger out@[m]]
            0 <= m < out@.len() implies has_dur(td, out@[m].0@) && out@[m].1
            == crate::analyzer::dur_of(td, out@[m].0@) by {
            let kk = choose|kk: int| 0 <= kk < k && out@[m] == (#[trigger] td[kk]);
            lemma_dur_value(td, kk, out@[m]);
        }
    }
    Ok(out)
}

/// The texts of an optional label.
pub open spec fn second_view(o: Option<TaskLabel>) -> Option<Seq<char>> {
    match o {
        Some(l) => Some(l@),
        None => None,
    }
}

/// Whether `v` holds an order with exactly these label texts.
pub open spec fn has_order_views(v: Seq<TaskOrder>, f: Seq<char>, s: Option<Seq<char>>) -> bool {
    exists|k: int| 0 <= k < v.len() && (#[trigger] v[k])@.first == f && v[k]@.second == s
}

/// Whether some pair among the first `m` of `to` has exactly these label
/// texts.
pub open spec fn pair_listed(
    to: Seq<(TaskLabel, Option<TaskLabel>)>,
    m: int,
    f: Seq<char>,
    s: Option<Seq<char>>,
) -> bool {
    exists|mm: int|
        0 <= mm < m && (#[trigger] to[mm]).0@ == f && second_view(to[mm].1) == s
}

/// Every pair among the first `m` of `to` occurs in `v`.
pub open spec fn orders_cover_upto(
    to: Seq<(TaskLabel, Option<TaskLabel>)>,
    v: Seq<TaskOrder>,
    m: int,
) -> bool {
    forall|mm: int|
        0 <= mm < m ==> has_order_views(v, (#[trigger] to[mm]).0@, second_view(to[mm].1))
}

/// Every order of `v` comes from a pair among the first `m` of `to`.
pub open spec fn orders_from_upto(
    to: Seq<(TaskLabel, Option<TaskLabel>)>,
    v: Seq<TaskOrder>,
    m: int,
) -> bool {
    forall|k: int|
        0 <= k < v.len() ==> pair_listed(to, m, (#[trigger] v[k])@.first, v[k]@.second)
}

/// Decides whether `v` already holds an order with the given labels.
fn contains_order(v: &Vec<TaskOrder>, first: &TaskLabel, second: Option<&TaskLabel>) -> (r: bool)
    ensures
        r == has_order_views(
            v@,
            first@,
            match second {
                Some(l) => Some(l@),
                None => None,
            },
        ),
{
    let mut k: usize = 0;
    while k < v.len()
        invariant
            0 <= k <= v@.len(),
            forall|kk: int|
                0 <= kk < k ==> !((#[trigger] v@[kk])@.first == first@ && v@[kk]@.second == (
                match second {
                    Some(l) => Some(l@),
                    None => None,
                })),
        decreases v@.len() - k,
    {
        let o = &v[k];
        let same_first = o.first().eq_label(first);
        let same_second = match (o.second(), second) {
            (Some(a), Some(b)) => a.eq_label(b),
            (None, None) => true,
            _ => false,
        };
        if same_first && same_second {
            return true;
        }
        k += 1;
    }
    false
}

/// Turns raw precedence pairs into a duplicate-free order set, failing
/// exactly when a pair declares a task as its own predecessor.
#[verifier::rlimit(100)]
pub fn establish_task_orders(task_orders: &Vec<(TaskLabel, Option<TaskLabel>)>) -> (r: Result<
    Vec<TaskOrder>,
    ProcessError,
>)
    requires
        forall|m: int|
            0 <= m < task_orders@.len() ==> valid_label((#[trigger] task_orders@[m]).0@)
                && match task_orders@[m].1 {
                Some(l) => valid_label(l@),
                None => true,
            },
    ensures
        (r is Ok) <==> no_self_dependency(task_orders@),
        r matches Err(e) ==> e is SelfDependency,
        r matches Err(ProcessError::SelfDependency(l)) ==> exists|m: int|
            0 <= m < task_orders@.len() && (#[trigger] task_orders@[m]).0@ == l@
                && (match task_orders@[m].1 {
                Some(x) => x@ == task_orders@[m].0@,
                None => false,
            }),
        r matches Ok(v) ==> {
            &&& forall|k: int| 0 <= k < v@.len() ==> (#[trigger] v@[k]).wf()
            &&& forall|k1: int, k2: int|
                #![trigger v@[k1], v@[k2]]
                0 <= k1 < k2 < v@.len() ==> v@[k1]@ != v@[k2]@
            &&& orders_cover_upto(task_orders@, v@, task_orders@.len() as int)
            &&& orders_from_upto(task_orders@, v@, task_orders@.len() as int)
        },
{
    let ghost to = task_orders@;
    let mut out: Vec<TaskOrder> = Vec::new();
    let mut m: usize = 0;
    while m < task_orders.len()
        invariant
            0 <= m <= to.len(),
            to == task_orders@,
            forall|mm: int|
                0 <= mm < to.len() ==> valid_label((#[trigger] to[mm]).0@) && match to[mm].1 {
                    Some(l) => valid_label(l@),
                    None => true,
                },
            forall|k: int| 0 <= k < out@.len() ==> (#[trigger] out@[k]).wf(),
            forall|k1: int, k2: int|
                #![trigger out@[k1], out@[k2]]
                0 <= k1 < k2 < out@.len() ==> out@[k1]@ != out@[k2]@,
            forall|mm: int|
                0 <= mm < m ==> (match (#[trigger] to[mm]).1 {
                    Some(l) => l@ != to[mm].0@,
                    None => true,
                }),
            orders_cover_upto(to, out@, m as int),
            orders_from_upto(to, out@, m as int),
        decreases to.len() - m,
    {
        let first = &task_orders[m].0;
        match &task_orders[m].1 {
            Some(second) => {
                if second.eq_label(first) {
                    proof {
                        assert(to[m as int].0@ == first@ && (match to[m as int].1 {
                            Some(x) => x@ == to[m as int].0@,
                            None => false,
                        }));
                    }
                    return Err(ProcessError::SelfDependency(first.clone()));
                }
                let present = contains_order(&out, first, Some(second));
                proof {
                    assert(second_view(to[m as int].1) == Some(second@));
                }
                if !present {
                    let ghost out_pre = out@;
                    out.push(first.clone().arrow(second.clone()));
                    proof {
                        lemma_order_push(out_pre, out@, to, m as int);
                    }
                } else {
                    proof {
                        lemma_order_skip(out@, to, m as int);
                    }
                }
            },
            None => {
                let present = contains_order(&out, first, None);
                proof {
                    assert(second_view(to[m as int].1) == None::<Seq<char>>);
                }
                if !present {
                    let ghost out_pre = out@;
                    out.push(first.clone().node());
                    proof {
                        lemma_order_push(out_pre, out@, to, m as int);
                    }
                } else {
                    proof {
                        lemma_order_skip(out@, to, m as int);
                    }
                }
            },
        }
        m += 1;
    }
    Ok(out)
}

/// A pair already present leaves the collected set unchanged and covered.
proof fn lemma_order_skip(out: Seq<TaskOrder>, to: Seq<(TaskLabel, Option<TaskLabel>)>, m: int)
    requires
        0 <= m < to.len(),
        orders_cover_upto(to, out, m),
        orders_from_upto(to, out, m),
        has_order_views(out, to[m].0@, second_view(to[m].1)),
    ensures
        orders_cover_upto(to, out, m + 1),
        orders_from_upto(to, out, m + 1),
{
    assert forall|mm: int| 0 <= mm < m + 1 implies has_order_views(
        out,
        (#[trigger] to[mm]).0@,
        second_view(to[mm].1),
    ) by {}
    assert forall|k: int| 0 <= k < out.len() implies pair_listed(
        to,
        m + 1,
        (#[trigger] out[k])@.first,
        out[k]@.second,
    ) by {
        let mm = choose|mm: int|
            0 <= mm < m && (#[trigger] to[mm]).0@ == out[k]@.first && second_view(to[mm].1)
                == out[k]@.second;
        assert((0 <= mm) && (mm < m + 1) && to[mm].0@ == out[k]@.first && second_view(to[mm].1)
            == out[k]@.second);
    }
}

/// After pushing the order for the fresh pair `m`, the collected set is
/// still duplicate-free and lists exactly the pairs seen so far.
proof fn lemma_order_push(
    out_pre: Seq<TaskOrder>,
    out: Seq<TaskOrder>,
    to: Seq<(TaskLabel, Option<TaskLabel>)>,
    m: int,
)
    requires
        0 <= m < to.len(),
        out.len() == out_pre.len() + 1,
        forall|k: int| 0 <= k < out_pre.len() ==> out[k] == out_pre[k],
        out[out.len() - 1]@.first == to[m].0@,
        out[out.len() - 1]@.second == second_view(to[m].1),
        forall|k1: int, k2: int|
            #![trigger out_pre[k1], out_pre[k2]]
            0 <= k1 < k2 < out_pre.len() ==> out_pre[k1]@ != out_pre[k2]@,
        !has_order_views(out_pre, to[m].0@, second_view(to[m].1)),
        orders_cover_upto(to, out_pre, m),
        orders_from_upto(to, out_pre, m),
    ensures
        forall|k1: int, k2: int|
            #![trigger out[k1], out[k2]]
            0 <= k1 < k2 < out.len() ==> out[k1]@ != out[k2]@,
        orders_cover_upto(to, out, m + 1),
        orders_from_upto(to, out, m + 1),
{
    assert forall|k1: int, k2: int|
        #![trigger out[k1], out[k2]]
        0 <= k1 < k2 < out.len() implies out[k1]@ != out[k2]@ by {
        if k2 == out.len() - 1 {
            assert(out[k1] == out_pre[k1]);
            if out[k1]@ == out[k2]@ {
                assert(out_pre[k1]@.first == to[m].0@ && out_pre[k1]@.second == second_view(
                    to[m].1,
                ));
                assert(has_order_views(out_pre, to[m].0@, second_view(to[m].1)));
            }
        } else {
            assert(out[k1] == out_pre[k1]);
            assert(out[k2] == out_pre[k2]);
        }
    }
    assert forall|mm: int| 0 <= mm < m + 1 implies has_order_views(
        out,
        (#[trigger] to[mm]).0@,
        second_view(to[mm].1),
    ) by {
        if mm < m {
            let k = choose|k: int|
                0 <= k < out_pre.len() && (#[trigger] out_pre[k])@.first == to[mm].0@
                    && out_pre[k]@.second == second_view(to[mm].1);
            assert(out[k]@.first == to[mm].0@ && out[k]@.second == second_view(to[mm].1));
        } else {
            let k = out.len() - 1;
            assert(out[k]@.first == to[mm].0@ && out[k]@.second == second_view(to[mm].1));
        }
    }
    assert forall|k: int| 0 <= k < out.len() implies pair_listed(
        to,
        m + 1,
        (#[trigger] out[k])@.first,
        out[k]@.second,
    ) by {
        if k < out_pre.len() {
            assert(out[k] == out_pre[k]);
            let mm = choose|mm: int|
                0 <= mm < m && (#[trigger] to[mm]).0@ == out_pre[k]@.first && second_view(
                    to[mm].1,
                ) == out_pre[k]@.second;
            assert((0 <= mm) && (mm < m + 1) && to[mm].0@ == out[k]@.first && second_view(
                to[mm].1,
            ) == out[k]@.second);
        } else {
            assert((0 <= m) && (m < m + 1) && to[m].0@ == out[k]@.first && second_view(to[m].1)
                == out[k]@.second);
        }
    }
}

/// Some duration label in the text-level list appears with two different
/// values.
pub open spec fn text_conflict(l: Seq<(Seq<char>, int)>) -> bool {
    exists|k1: int, k2: int|
        #![trigger l[k1], l[k2]]
        0 <= k1 < l.len() && 0 <= k2 < l.len() && l[k1].0 == l[k2].0 && l[k1].1 != l[k2].1
}

/// Some text-level pair declares a task as its own predecessor.
pub open spec fn text_self_dep(l: Seq<(Seq<char>, Option<Seq<char>>)>) -> bool {
    exists|m: int| 0 <= m < l.len() && (#[trigger] l[m]).1 == Some(l[m].0)
}

/// The text-level duration list names `t`.
pub open spec fn text_has_dur(l: Seq<(Seq<char>, int)>, t: Seq<char>) -> bool {
    exists|k: int| 0 <= k < l.len() && (#[trigger] l[k]).0 == t
}

/// Conflicts of a parsed duration list are exactly conflicts of its
/// texts.
proof fn lemma_conflict_texts(v: Seq<(TaskLabel, Duration)>)
    ensures
        text_conflict(crate::parser::durs_texts(v)) <==> !no_conflict(v),
{
    let l = crate::parser::durs_texts(v);
    if text_conflict(l) {
        let (k1, k2) = choose|k1: int, k2: int|
            #![trigger l[k1], l[k2]]
            0 <= k1 < l.len() && 0 <= k2 < l.len() && l[k1].0 == l[k2].0 && l[k1].1 != l[k2].1;
        assert(v[k1].0@ == v[k2].0@ && v[k1].1 != v[k2].1);
    }
    if !no_conflict(v) {
        let (k1, k2) = choose|k1: int, k2: int|
            #![trigger v[k1], v[k2]]
            0 <= k1 < v.len() && 0 <= k2 < v.len() && v[k1].0@ == v[k2].0@ && v[k1].1 != v[k2].1;
        assert(l[k1].0 == l[k2].0 && l[k1].1 != l[k2].1);
        assert(text_conflict(l));
    }
}

/// Self-dependencies of a parsed pair list are exactly those of its
/// texts.
proof fn lemma_self_dep_texts(v: Seq<(TaskLabel, Option<TaskLabel>)>)
    ensures
        text_self_dep(crate::parser::ords_texts(v)) <==> !no_self_dependency(v),
{
    let l = crate::parser::ords_texts(v);
    if text_self_dep(l) {
        let m = choose|m: int| 0 <= m < l.len() && (#[trigger] l[m]).1 == Some(l[m].0);
        assert((match v[m].1 {
            Some(x) => Some(x@),
            None => None::<Seq<char>>,
        }) == Some(v[m].0@));
        assert(match v[m].1 {
            Some(x) => x@ == v[m].0@,
            None => false,
        });
    }
    if !no_self_dependency(v) {
        let m = choose|m: int|
            0 <= m < v.len() && !(match (#[trigger] v[m]).1 {
                Some(x) => x@ != v[m].0@,
                None => true,
            });
        assert(l[m].1 == Some(l[m].0));
        assert(text_self_dep(l));
    }
}

/// `orders` and `durs` are the normalized form of the text's
/// declarations: the duplicate-free order set and the one-entry-per-label
/// duration map that the text denotes.
pub open spec fn normalized_of(
    text: Seq<char>,
    orders: Seq<TaskOrder>,
    durs: Seq<(TaskLabel, Duration)>,
) -> bool {
    let tdurs = crate::parser::content_durs(text, 0);
    let tords = crate::parser::content_ords(text, 0);
    &&& durs_distinct(durs)
    &&& forall|t: Seq<char>| has_dur(durs, t) <==> text_has_dur(tdurs, t)
    &&& forall|m: int|
        0 <= m < durs.len() ==> tdurs.contains(((#[trigger] durs[m]).0@, durs[m].1 as int))
    &&& forall|k: int| 0 <= k < orders.len() ==> (#[trigger] orders[k]).wf()
    &&& forall|k1: int, k2: int|
        #![trigger orders[k1], orders[k2]]
        0 <= k1 < k2 < orders.len() ==> orders[k1]@ != orders[k2]@
    &&& forall|mm: int|
        0 <= mm < tords.len() ==> has_order_views(
            orders,
            (#[trigger] tords[mm]).0,
            tords[mm].1,
        )
    &&& forall|k: int|
        0 <= k < orders.len() ==> tords.contains(
            (((#[trigger] orders[k])@).first, orders[k]@.second),
        )
}

/// The failing outcome `analyze_schedule` owes on these inputs.
pub open spec fn analysis_outcome_err(
    orders: Seq<TaskOrder>,
    durs: Seq<(TaskLabel, Duration)>,
    e: AnalysisError,
) -> bool {
    match e {
        AnalysisError::EmptyInput => orders.len() == 0 && durs.len() == 0,
        AnalysisError::MissingDurations(v) => !(orders.len() == 0 && durs.len() == 0)
            && crate::analyzer::some_missing_duration(orders, durs)
            && crate::graph::labels_strictly_sorted(v@) && (forall|t: Seq<char>|
            #![trigger crate::graph::contains_text(v@, t)]
            crate::graph::contains_text(v@, t) <==> (crate::graph::mentioned_in(orders, t)
                && !has_dur(durs, t))),
        AnalysisError::MissingOrders(v) => !(orders.len() == 0 && durs.len() == 0)
            && !crate::analyzer::some_missing_duration(orders, durs)
            && crate::analyzer::some_missing_order(orders, durs)
            && crate::graph::labels_strictly_sorted(v@) && (forall|t: Seq<char>|
            #![trigger crate::graph::contains_text(v@, t)]
            crate::graph::contains_text(v@, t) <==> (has_dur(durs, t)
                && !crate::graph::mentioned_in(orders, t))),
        AnalysisError::Cycle => !(orders.len() == 0 && durs.len() == 0)
            && !crate::analyzer::some_missing_duration(orders, durs)
            && !crate::analyzer::some_missing_order(orders, durs)
            && crate::graph::cyclic_orders(orders),
    }
}

/// Parses a schedule text, normalizes it, and analyzes it, passing each
/// stage's failure on in stage order: first any grammar violation with
/// its position, then a duration conflict, then a self-dependency, then
/// the oversize guard, then the analyzer's own verdict on the normalized
/// declarations.
#[verifier::rlimit(100)]
pub fn process(unparsed_content: &str) -> (r: Result<ScheduleAnalysis, ProcessError>)
    requires
        unparsed_content@.len() < usize::MAX,
    ensures
        ({
            let text = unparsed_content@;
            let tdurs = crate::parser::content_durs(text, 0);
            let tords = crate::parser::content_ords(text, 0);
            let well_formed = crate::parser::content_form(text, 0);
            &&& ((r matches Err(e) && e is Parse) <==> !well_formed)
            &&& (r matches Err(ProcessError::Parse(e)) ==> (e.spec_line() as int)
                == crate::parser::content_err_line(text, 0) && (e.spec_column() as int)
                == crate::parser::content_err_col(text, 0))
            &&& ((r matches Err(e) && e is ConflictingDurations) <==> (well_formed
                && text_conflict(tdurs)))
            &&& (r matches Err(ProcessError::ConflictingDurations(l)) ==> exists|k1: int, k2: int|
                #![trigger tdurs[k1], tdurs[k2]]
                0 <= k1 < tdurs.len() && 0 <= k2 < tdurs.len() && tdurs[k1].0 == l@
                    && tdurs[k2].0 == l@ && tdurs[k1].1 != tdurs[k2].1)
            &&& ((r matches Err(e) && e is SelfDependency) <==> (well_formed && !text_conflict(
                tdurs,
            ) && text_self_dep(tords)))
            &&& (r matches Ok(a) ==> (well_formed && !text_conflict(tdurs) && !text_self_dep(
                tords,
            ) && exists|orders: Seq<TaskOrder>, durs: Seq<(TaskLabel, Duration)>|
                #[trigger] normalized_of(text, orders, durs) && analysis_ok(orders, durs, a)))
            &&& (r matches Err(ProcessError::Analysis(e)) ==> (well_formed && !text_conflict(
                tdurs,
            ) && !text_self_dep(tords) && exists|
                orders: Seq<TaskOrder>,
                durs: Seq<(TaskLabel, Duration)>,
            |
                #[trigger] normalized_of(text, orders, durs) && analysis_outcome_err(
                    orders,
                    durs,
                    e,
                )))
            &&& (r == Err::<ScheduleAnalysis, ProcessError>(ProcessError::TooManyTasks) ==> (
            well_formed && !text_conflict(tdurs) && !text_self_dep(tords)))
        }),
{
    let ghost text = unparsed_content@;
    let ghost tdurs = crate::parser::content_durs(text, 0);
    let ghost tords = crate::parser::content_ords(text, 0);
    let data = match ScheduleParser::parse_content(unparsed_content) {
        Ok(d) => d,
        Err(e) => {
            return Err(ProcessError::Parse(e));
        },
    };
    proof {
        assert(crate::parser::durs_texts(data.spec_task_durations()) == tdurs);
        assert(crate::parser::ords_texts(data.spec_task_orders()) == tords);
        lemma_conflict_texts(data.spec_task_durations());
        lemma_self_dep_texts(data.spec_task_orders());
    }
    let task_durations = match establish_task_durations(data.task_durations()) {
        Ok(v) => v,
        Err(e) => {
            proof {
                let pd = data.spec_task_durations();
                match &e {
                    ProcessError::ConflictingDurations(l) => {
                        assert(conflicting_label(pd, l@));
                        let (k1, k2) = choose|k1: int, k2: int|
                            #![trigger pd[k1], pd[k2]]
                            0 <= k1 < pd.len() && 0 <= k2 < pd.len() && pd[k1].0@ == l@
                                && pd[k2].0@ == l@ && pd[k1].1 != pd[k2].1;
                        assert(tdurs[k1] == (pd[k1].0@, pd[k1].1 as int));
                        assert(tdurs[k2] == (pd[k2].0@, pd[k2].1 as int));
                        assert(tdurs[k1].0 == l@ && tdurs[k2].0 == l@ && tdurs[k1].1
                            != tdurs[k2].1);
                    },
                    _ => {},
                }
            }
            return Err(e);
        },
    };
    let task_orders = match establish_task_orders(data.task_orders()) {
        Ok(v) => v,
        Err(e) => {
            return Err(e);
        },
    };
    if task_durations.len() > 0xFFFF {
        return Err(ProcessError::TooManyTasks);
    }
    proof {
        lemma_normalized(
            text,
            data.spec_task_orders(),
            data.spec_task_durations(),
            task_orders@,
            task_durations@,
        );
    }
    match analyze_schedule(&task_orders, &task_durations) {
        Ok(a) => {
            proof {
                assert(normalized_of(text, task_orders@, task_durations@) && analysis_ok(
                    task_orders@,
                    task_durations@,
                    a,
                ));
            }
            Ok(a)
        },
        Err(e) => {
            proof {
                assert(normalized_of(text, task_orders@, task_durations@)
                    && analysis_outcome_err(task_orders@, task_durations@, e));
            }
            Err(ProcessError::Analysis(e))
        },
    }
}

/// The outputs of the two normalization stages, taken together, are the
/// normalized form of the text they were parsed from.
#[verifier::rlimit(100)]
proof fn lemma_normalized(
    text: Seq<char>,
    pd_ords: Seq<(TaskLabel, Option<TaskLabel>)>,
    pd_durs: Seq<(TaskLabel, Duration)>,
    orders: Seq<TaskOrder>,
    durs: Seq<(TaskLabel, Duration)>,
)
    requires
        crate::parser::durs_texts(pd_durs) == crate::parser::content_durs(text, 0),
        crate::parser::ords_texts(pd_ords) == crate::parser::content_ords(text, 0),
        durs_distinct(durs),
        forall|t: Seq<char>| has_dur(durs, t) <==> has_dur(pd_durs, t),
        forall|m: int|
            #![trigger durs[m]]
            0 <= m < durs.len() ==> has_dur(pd_durs, durs[m].0@) && durs[m].1
                == crate::analyzer::dur_of(pd_durs, durs[m].0@),
        no_conflict(pd_durs),
        forall|k: int| 0 <= k < orders.len() ==> (#[trigger] orders[k]).wf(),
        forall|k1: int, k2: int|
            #![trigger orders[k1], orders[k2]]
            0 <= k1 < k2 < orders.len() ==> orders[k1]@ != orders[k2]@,
        orders_cover_upto(pd_ords, orders, pd_ords.len() as int),
        orders_from_upto(pd_ords, orders, pd_ords.len() as int),
    ensures
        normalized_of(text, orders, durs),
{
    let tdurs = crate::parser::content_durs(text, 0);
    let tords = crate::parser::content_ords(text, 0);
    assert forall|t: Seq<char>| has_dur(durs, t) <==> text_has_dur(tdurs, t) by {
        if has_dur(pd_durs, t) {
            let k = choose|k: int| 0 <= k < pd_durs.len() && (#[trigger] pd_durs[k]).0@ == t;
            assert(tdurs[k].0 == t);
        }
        if text_has_dur(tdurs, t) {
            let k = choose|k: int| 0 <= k < tdurs.len() && (#[trigger] tdurs[k]).0 == t;
            assert(pd_durs[k].0@ == t);
            assert(has_dur(pd_durs, t));
        }
    }
    assert forall|m: int| 0 <= m < durs.len() implies tdurs.contains(
        ((#[trigger] durs[m]).0@, durs[m].1 as int),
    ) by {
        let kc = choose|kc: int| 0 <= kc < pd_durs.len() && (#[trigger] pd_durs[kc]).0@
            == durs[m].0@;
        assert(pd_durs[kc].1 == durs[m].1);
        assert(tdurs[kc] == (durs[m].0@, durs[m].1 as int));
    }
    assert forall|mm: int| 0 <= mm < tords.len() implies has_order_views(
        orders,
        (#[trigger] tords[mm]).0,
        tords[mm].1,
    ) by {
        assert(tords[mm] == (pd_ords[mm].0@, second_view(pd_ords[mm].1)));
        assert(has_order_views(orders, pd_ords[mm].0@, second_view(pd_ords[mm].1)));
    }
    assert forall|k: int| 0 <= k < orders.len() implies tords.contains(
        (((#[trigger] orders[k])@).first, orders[k]@.second),
    ) by {
        assert(pair_listed(pd_ords, pd_ords.len() as int, orders[k]@.first, orders[k]@.second));
        let mm = choose|mm: int|
            0 <= mm < pd_ords.len() && (#[trigger] pd_ords[mm]).0@ == orders[k]@.first
                && second_view(pd_ords[mm].1) == orders[k]@.second;
        assert(tords[mm] == (orders[k]@.first, orders[k]@.second));
    }
}

} // verus!
