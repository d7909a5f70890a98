//! Textual presentation of analyses.
//!
//! Paths are wrapped greedily: a label, plus its delimiter unless it is
//! the path's last label, joins the current line only while the line stays
//! within the nominal width plus one delimiter; otherwise the line is
//! flushed and a fresh one starts.

use vstd::prelude::*;
use vstd::string::StrSliceExecFns;
use vstd::string::StringExecFns;

use crate::analyzer::ScheduleAnalysis;
use crate::task::TaskLabel;

verus! {

/// The newline character, as a sequence.
pub open spec fn nl() -> Seq<char> {
    seq!['\n']
}

/// The text that greedy wrapping produces from position `idx` on, given
/// the characters already buffered on the current line and the output so
/// far.
pub open spec fn wrap_from(
    texts: Seq<Seq<char>>,
    delim: Seq<char>,
    max: int,
    idx: int,
    buffered: int,
    line: Seq<char>,
    out: Seq<char>,
) -> Seq<char>
    decreases texts.len() - idx, buffered + 1,
{
    if idx < 0 || idx >= texts.len() {
        out + line + nl()
    } else {
        let required = if idx == texts.len() - 1 {
            texts[idx].len() as int
        } else {
            (texts[idx].len() + delim.len()) as int
        };
        if buffered + required <= max + delim.len() {
            let line2 = if idx == texts.len() - 1 {
                line + texts[idx]
            } else {
                line + texts[idx] + delim
            };
            wrap_from(texts, delim, max, idx + 1, buffered + required, line2, out)
        } else if buffered > 0 {
            wrap_from(texts, delim, max, idx, 0, Seq::empty(), out + line + nl())
        } else {
            // Unreachable when every label fits the nominal width.
            out + line + nl()
        }
    }
}

/// The wrapped rendering of a label path.
pub open spec fn wrapped(texts: Seq<Seq<char>>, delim: Seq<char>, max: int) -> Seq<char> {
    wrap_from(texts, delim, max, 0, 0, Seq::empty(), Seq::empty())
}

/// Serializes a path into greedily wrapped lines, each at most one
/// label-plus-delimiter unit beyond the nominal width.  Labels wider than
/// the nominal width are excluded, since the greedy rule could never place
/// them.
pub fn serialize_path(path: &Vec<TaskLabel>, delimiter: &str, max_label_len: usize) -> (r: String)
    requires
        forall|t: int| 0 <= t < path@.len() ==> (#[trigger] path@[t])@.len() <= max_label_len,
        max_label_len + delimiter@.len() <= 0xFFFF_FFFF,
    ensures
        r@ == wrapped(crate::analyzer::texts_of(path@), delimiter@, max_label_len as int),
{
    let ghost texts = crate::analyzer::texts_of(path@);
    let delimiter_len = delimiter.unicode_len();
    let max_allowed: usize = max_label_len + delimiter_len;
    let mut buffered: usize = 0;
    let mut line = String::new();
    let mut out = String::new();
    let mut label_idx: usize = 0;
    while label_idx < path.len()
        invariant
            0 <= label_idx <= path@.len(),
            texts == crate::analyzer::texts_of(path@),
            forall|t: int| 0 <= t < path@.len() ==> (#[trigger] path@[t])@.len() <= max_label_len,
            delimiter_len == delimiter@.len(),
            max_allowed == max_label_len + delimiter_len,
            max_allowed <= 0xFFFF_FFFF,
            buffered <= max_allowed,
            wrapped(texts, delimiter@, max_label_len as int) == wrap_from(
                texts,
                delimiter@,
                max_label_len as int,
                label_idx as int,
                buffered as int,
                line@,
                out@,
            ),
        decreases path@.len() - label_idx, buffered,
    {
        let task = &path[label_idx];
        proof {
            assert(texts[label_idx as int] == path@[label_idx as int]@);
        }
        let task_len = task.as_str().unicode_len();
        let last = label_idx == path.len() - 1;
        let required = if last {
            task_len
        } else {
            task_len + delimiter_len
        };
        if buffered <= max_allowed - required {
            line.append(task.as_str());
            if !last {
                line.append(delimiter);
            }
            buffered += required;
            label_idx += 1;
        } else {
            out.append(line.as_str());
            out.append("\n");
            line = String::new();
            buffered = 0;
            proof {
                reveal_strlit("\n");
                assert("\n"@ =~= nl());
            }
        }
    }
    out.append(line.as_str());
    out.append("\n");
    proof {
        reveal_strlit("\n");
        assert("\n"@ =~= nl());
    }
    out
}

/// The character for the decimal digit `d`.
pub open spec fn digit_char(d: int) -> char {
    if d == 0 {
        '0'
    } else if d == 1 {
        '1'
    } else if d == 2 {
        '2'
    } else if d == 3 {
        '3'
    } else if d == 4 {
        '4'
    } else if d == 5 {
        '5'
    } else if d == 6 {
        '6'
    } else if d == 7 {
        '7'
    } else if d == 8 {
        '8'
    } else {
        '9'
    }
}

/// The decimal representation of a nonnegative number.
pub open spec fn dec_rep(n: int) -> Seq<char>
    decreases n,
{
    if n < 10 {
        seq![digit_char(n)]
    } else {
        dec_rep(n / 10) + seq![digit_char(n % 10)]
    }
}

/// A single decimal digit as text.
fn digit_str(d: u64) -> (r: &'static str)
    requires
        d < 10,
    ensures
        r@ == seq![digit_char(d as int)],
{
    let r: &'static str = match d {
        0 => "0",
        1 => "1",
        2 => "2",
        3 => "3",
        4 => "4",
        5 => "5",
        6 => "6",
        7 => "7",
        8 => "8",
        _ => "9",
    };
    proof {
        reveal_strlit("0");
        reveal_strlit("1");
        reveal_strlit("2");
        reveal_strlit("3");
        reveal_strlit("4");
        reveal_strlit("5");
        reveal_strlit("6");
        reveal_strlit("7");
        reveal_strlit("8");
        reveal_strlit("9");
        assert(r@ =~= seq![digit_char(d as int)]);
    }
    r
}

/// Renders a number in decimal.
pub fn format_number(x: u64) -> (s: String)
    ensures
        s@ == dec_rep(x as int),
    decreases x,
{
    if x < 10 {
        String::from_str(digit_str(x))
    } else {
        let mut s = format_number(x / 10);
        s.append(digit_str(x % 10));
        s
    }
}

/// The rendering of the path list from position `m` on: a numbering line
/// per path when there are several, the wrapped path, and a separating
/// blank line after every path but the last.
pub open spec fn render_paths_from(paths: Seq<Vec<TaskLabel>>, count: int, m: int) -> Seq<char>
    decreases paths.len() - m,
{
    if m < 0 || m >= paths.len() {
        Seq::empty()
    } else {
        (if count > 1 {
            dec_rep(m + 1) + ")"@ + nl()
        } else {
            Seq::empty()
        }) + wrapped(crate::analyzer::texts_of(paths[m]@), "->"@, TaskLabel::MAX_LEN as int) + (
        if m != count - 1 {
            nl()
        } else {
            Seq::empty()
        }) + render_paths_from(paths, count, m + 1)
    }
}

/// The full textual rendering of an analysis.
pub open spec fn render_spec(a: ScheduleAnalysis) -> Seq<char> {
    "task_count: "@ + dec_rep(a.spec_task_count() as int) + nl() + "max_parallelism: "@ + dec_rep(
        a.spec_max_parallelism() as int,
    ) + nl() + "minimum_completion_time: "@ + dec_rep(a.spec_minimum_completion_time() as int)
        + nl() + "critical_path_count: "@ + dec_rep(a.spec_critical_path_count() as int) + nl()
        + "critical_path"@ + (if a.spec_critical_path_count() > 1 {
        "s"@
    } else {
        Seq::empty()
    }) + ":"@ + nl() + render_paths_from(
        a.spec_critical_paths(),
        a.spec_critical_path_count() as int,
        0,
    )
}

/// Renders an analysis: the four counters, one per line, then the critical
/// paths in display order, numbered when there are several.
pub fn render_analysis(a: &ScheduleAnalysis) -> (r: String)
    requires
        a.spec_critical_path_count() == a.spec_critical_paths().len(),
        forall|m: int, t: int|
            #![trigger a.spec_critical_paths()[m]@[t]]
            0 <= m < a.spec_critical_paths().len() && 0 <= t < a.spec_critical_paths()[m]@.len()
                ==> a.spec_critical_paths()[m]@[t]@.len() <= TaskLabel::MAX_LEN,
    ensures
        r@ == render_spec(*a),
{
    let mut r = String::new();
    r.append("task_count: ");
    r.append(format_number(a.task_count() as u64).as_str());
    r.append("\n");
    r.append("max_parallelism: ");
    r.append(format_number(a.max_parallelism() as u64).as_str());
    r.append("\n");
    r.append("minimum_completion_time: ");
    r.append(format_number(a.minimum_completion_time() as u64).as_str());
    r.append("\n");
    r.append("critical_path_count: ");
    r.append(format_number(a.critical_path_count() as u64).as_str());
    r.append("\n");
    r.append("critical_path");
    if a.critical_path_count() > 1 {
        r.append("s");
    }
    r.append(":");
    r.append("\n");
    proof {
        reveal_strlit("\n");
        assert("\n"@ =~= nl());
    }
    let count = a.critical_path_count();
    let paths = a.critical_paths();
    let mut m: usize = 0;
    let ghost head = r@;
    while m < paths.len()
        invariant
            0 <= m <= paths@.len(),
            paths@ == a.spec_critical_paths(),
            count == a.spec_critical_path_count(),
            count == paths@.len(),
            forall|mm: int, t: int|
                #![trigger paths@[mm]@[t]]
                0 <= mm < paths@.len() && 0 <= t < paths@[mm]@.len() ==> paths@[mm]@[t]@.len()
                    <= TaskLabel::MAX_LEN,
            head + render_paths_from(paths@, count as int, 0) == r@ + render_paths_from(
                paths@,
                count as int,
                m as int,
            ),
        decreases paths@.len() - m,
    {
        if count > 1 {
            r.append(format_number((m + 1) as u64).as_str());
            r.append(")");
            r.append("\n");
        }
        proof {
            reveal_strlit("->");
            assert("->"@.len() == 2);
        }
        let line = serialize_path(&paths[m], "->", TaskLabel::MAX_LEN);
        r.append(line.as_str());
        if m != count - 1 {
            r.append("\n");
        }
        proof {
            reveal_strlit("\n");
            assert("\n"@ =~= nl());
        }
        m += 1;
    }
    proof {
        assert(render_paths_from(paths@, count as int, paths@.len() as int) =~= Seq::<
            char,
        >::empty());
        assert(r@ =~= head + render_paths_from(paths@, count as int, 0));
        assert(head =~= "task_count: "@ + dec_rep(a.spec_task_count() as int) + nl()
            + "max_parallelism: "@ + dec_rep(a.spec_max_parallelism() as int) + nl()
            + "minimum_completion_time: "@ + dec_rep(a.spec_minimum_completion_time() as int)
            + nl() + "critical_path_count: "@ + dec_rep(a.spec_critical_path_count() as int) + nl()
            + "critical_path"@ + (if a.spec_critical_path_count() > 1 {
            "s"@
        } else {
            Seq::<char>::empty()
        }) + ":"@ + nl());
        assert(r@ =~= render_spec(*a));
    }
    r
}

} // verus!
