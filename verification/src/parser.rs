//! The task-definition language.
//!
//! A schedule is given line by line.  Blank lines are skipped.  Every
//! other line declares a task with its duration, and optionally the tasks
//! that must run before it:
//!
//! ```text
//! record   = task "(" digits ")" [ "<-" task { "," task } ]
//! task     = name-char { name-char }
//! ```
//!
//! A name character is an alphanumeric character (any script), `.`, `-`
//! or `_`.  Spaces and tabs may separate tokens.  `B(3) <- A` declares
//! that `B` takes three units and that `A` must precede it.  The first
//! violation is reported with its line and column, both 1-based.

use vstd::prelude::*;
use vstd::string::StrSliceExecFns;

use crate::task::valid_label;
use crate::task::Duration;
use crate::task::TaskLabel;

verus! {

/// What `char::is_alphanumeric` returns; a function of the character
/// alone.
pub uninterp spec fn alphanumeric_char(c: char) -> bool;

/// Relies on `char::is_alphanumeric`: true exactly for the Unicode letter
/// and number categories, which on ASCII are the letters and digits.
#[verifier::external_body]
fn is_alphanumeric(c: char) -> (r: bool)
    ensures
        r == alphanumeric_char(c),
        (c as u32) < 0x80 ==> r == ((0x61 <= c as u32 && c as u32 <= 0x7A) || (0x41 <= c as u32
            && c as u32 <= 0x5A) || (0x30 <= c as u32 && c as u32 <= 0x39)),
{
    c.is_alphanumeric()
}

/// Whether `c` may stand in a task name.
pub open spec fn name_char(c: char) -> bool {
    alphanumeric_char(c) || c == '.' || c == '-' || c == '_'
}

/// Decides [`name_char`] at run time.
fn is_name_char(c: char) -> (r: bool)
    ensures
        r == name_char(c),
{
    is_alphanumeric(c) || c == '.' || c == '-' || c == '_'
}

/// Whether `c` is an ASCII decimal digit.
pub open spec fn digit_char10(c: char) -> bool {
    0x30 <= c as u32 && c as u32 <= 0x39
}

/// The numeric value of an ASCII digit.
pub open spec fn digit_val(c: char) -> int {
    c as u32 - 0x30
}

/// Whether `c` is a blank (space or tab).
pub open spec fn blank_char(c: char) -> bool {
    c == ' ' || c == '\t'
}

/// Where the run of name characters starting at `i` ends.
pub open spec fn name_end(s: Seq<char>, i: int) -> int
    decreases s.len() - i,
{
    if i < 0 || i >= s.len() || !name_char(s[i]) {
        i
    } else {
        name_end(s, i + 1)
    }
}

/// Where the run of blanks starting at `i` ends.
pub open spec fn blank_end(s: Seq<char>, i: int) -> int
    decreases s.len() - i,
{
    if i < 0 || i >= s.len() || !blank_char(s[i]) {
        i
    } else {
        blank_end(s, i + 1)
    }
}

/// Where the run of digits starting at `i` ends.
pub open spec fn digits_end(s: Seq<char>, i: int) -> int
    decreases s.len() - i,
{
    if i < 0 || i >= s.len() || !digit_char10(s[i]) {
        i
    } else {
        digits_end(s, i + 1)
    }
}

/// The value of the digit run in `s` from `from` to `to`.
pub open spec fn digits_val(s: Seq<char>, from: int, to: int) -> int
    decreases to - from,
{
    if from >= to {
        0
    } else {
        digits_val(s, from, to - 1) * 10 + digit_val(s[to - 1])
    }
}

/// A `task(duration)` prefix stands at position `i` of `s`: a name of at
/// most the label limit, a parenthesized nonempty digit run, and a value
/// within the duration range.
pub open spec fn prefix_form(s: Seq<char>, i: int) -> bool {
    let ne = name_end(s, i);
    let de = digits_end(s, ne + 1);
    &&& ne > i
    &&& ne - i <= TaskLabel::MAX_LEN as int
    &&& crate::task::valid_label(s.subrange(i, ne))
    &&& ne < s.len() && s[ne] == '('
    &&& de > ne + 1
    &&& de < s.len() && s[de] == ')'
    &&& digits_val(s, ne + 1, de) <= 0xFFFF
}

/// The label text of a prefix at `i`.
pub open spec fn prefix_label(s: Seq<char>, i: int) -> Seq<char> {
    s.subrange(i, name_end(s, i))
}

/// The duration value of a prefix at `i`.
pub open spec fn prefix_value(s: Seq<char>, i: int) -> int {
    digits_val(s, name_end(s, i) + 1, digits_end(s, name_end(s, i) + 1))
}

/// The position just after the closing parenthesis of a prefix at `i`.
pub open spec fn prefix_after(s: Seq<char>, i: int) -> int {
    digits_end(s, name_end(s, i) + 1) + 1
}

/// A run of blanks never ends before it starts, nor past the end.
pub proof fn lemma_blank_end_lb(s: Seq<char>, i: int)
    requires
        0 <= i <= s.len(),
    ensures
        i <= blank_end(s, i) <= s.len(),
    decreases s.len() - i,
{
    if i < s.len() && blank_char(s[i]) {
        lemma_blank_end_lb(s, i + 1);
    }
}

/// A run of name characters never ends before it starts, nor past the
/// end.
pub proof fn lemma_name_end_bounds(s: Seq<char>, i: int)
    requires
        0 <= i <= s.len(),
    ensures
        i <= name_end(s, i) <= s.len(),
    decreases s.len() - i,
{
    if i < s.len() && name_char(s[i]) {
        lemma_name_end_bounds(s, i + 1);
    }
}

/// A run of digits never ends before it starts, nor past the end.
pub proof fn lemma_digits_end_bounds(s: Seq<char>, i: int)
    requires
        0 <= i <= s.len(),
    ensures
        i <= digits_end(s, i) <= s.len(),
    decreases s.len() - i,
{
    if i < s.len() && digit_char10(s[i]) {
        lemma_digits_end_bounds(s, i + 1);
    }
}

/// A dependency list stands at position `i`: names separated by commas,
/// blanks allowed, running to the end of the line.
pub open spec fn deps_form(s: Seq<char>, i: int) -> bool
    decreases s.len() - i,
    when 0 <= i <= s.len()
    via deps_form_dec
{
    let j = blank_end(s, i);
    let ne = name_end(s, j);
    let k2 = blank_end(s, ne);
    &&& ne > j
    &&& ne - j <= TaskLabel::MAX_LEN as int
    &&& crate::task::valid_label(s.subrange(j, ne))
    &&& (k2 == s.len() || (s[k2] == ',' && deps_form(s, k2 + 1)))
}

#[via_fn]
proof fn deps_form_dec(s: Seq<char>, i: int) {
    lemma_blank_end_lb(s, i);
    let j = blank_end(s, i);
    lemma_name_end_bounds(s, j);
    let ne = name_end(s, j);
    lemma_blank_end_lb(s, ne);
}

/// The names of a dependency list at `i`, in order.
pub open spec fn deps_texts(s: Seq<char>, i: int) -> Seq<Seq<char>>
    decreases s.len() - i,
    when 0 <= i <= s.len()
    via deps_texts_dec
{
    let j = blank_end(s, i);
    let ne = name_end(s, j);
    let k2 = blank_end(s, ne);
    if ne > j && k2 < s.len() && s[k2] == ',' {
        seq![s.subrange(j, ne)] + deps_texts(s, k2 + 1)
    } else {
        seq![s.subrange(j, ne)]
    }
}

#[via_fn]
proof fn deps_texts_dec(s: Seq<char>, i: int) {
    lemma_blank_end_lb(s, i);
    let j = blank_end(s, i);
    lemma_name_end_bounds(s, j);
    let ne = name_end(s, j);
    lemma_blank_end_lb(s, ne);
}

/// The column at which a malformed dependency list at `i` fails.
pub open spec fn deps_col(s: Seq<char>, i: int) -> int
    decreases s.len() - i,
    when 0 <= i <= s.len()
    via deps_col_dec
{
    let j = blank_end(s, i);
    let ne = name_end(s, j);
    let k2 = blank_end(s, ne);
    if ne == j || ne - j > TaskLabel::MAX_LEN as int || !crate::task::valid_label(
        s.subrange(j, ne),
    ) {
        j + 1
    } else if k2 == s.len() {
        0
    } else if s[k2] != ',' {
        k2 + 1
    } else {
        deps_col(s, k2 + 1)
    }
}

#[via_fn]
proof fn deps_col_dec(s: Seq<char>, i: int) {
    lemma_blank_end_lb(s, i);
    let j = blank_end(s, i);
    lemma_name_end_bounds(s, j);
    let ne = name_end(s, j);
    lemma_blank_end_lb(s, ne);
}

/// The column at which a malformed `task(duration)` prefix at `i` fails.
pub open spec fn prefix_col(s: Seq<char>, i: int) -> int {
    let ne = name_end(s, i);
    let de = digits_end(s, ne + 1);
    if ne == i || ne - i > TaskLabel::MAX_LEN as int || !crate::task::valid_label(
        s.subrange(i, ne),
    ) {
        i + 1
    } else if ne >= s.len() || s[ne] != '(' {
        ne + 1
    } else if de == ne + 1 || digits_val(s, ne + 1, de) > 0xFFFF {
        ne + 2
    } else {
        de + 1
    }
}

/// A whole line conforms: blank, or a prefix followed by nothing or by
/// `<-` and a dependency list.
pub open spec fn record_form(s: Seq<char>) -> bool {
    let b = blank_end(s, 0);
    if b >= s.len() {
        true
    } else {
        &&& prefix_form(s, b)
        &&& {
            let k = blank_end(s, prefix_after(s, b));
            k >= s.len() || (s[k] == '<' && k + 1 < s.len() && s[k + 1] == '-' && deps_form(
                s,
                k + 2,
            ))
        }
    }
}

/// The column at which a malformed line fails.
pub open spec fn record_col(s: Seq<char>) -> int {
    let b = blank_end(s, 0);
    if !prefix_form(s, b) {
        prefix_col(s, b)
    } else {
        let k = blank_end(s, prefix_after(s, b));
        if k >= s.len() {
            0
        } else if s[k] != '<' {
            k + 1
        } else if k + 1 >= s.len() || s[k + 1] != '-' {
            k + 2
        } else {
            deps_col(s, k + 2)
        }
    }
}

/// The duration declarations a line denotes: one per record.
pub open spec fn line_durs(s: Seq<char>) -> Seq<(Seq<char>, int)> {
    let b = blank_end(s, 0);
    if b >= s.len() {
        Seq::empty()
    } else {
        seq![(prefix_label(s, b), prefix_value(s, b))]
    }
}

/// The precedence declarations a line denotes: the task alone, or one
/// pair per listed dependency, each preceding the task.
pub open spec fn line_ords(s: Seq<char>) -> Seq<(Seq<char>, Option<Seq<char>>)> {
    let b = blank_end(s, 0);
    if b >= s.len() {
        Seq::empty()
    } else {
        let k = blank_end(s, prefix_after(s, b));
        if k >= s.len() {
            seq![(prefix_label(s, b), None::<Seq<char>>)]
        } else {
            deps_texts(s, k + 2).map_values(
                |d: Seq<char>| (d, Some(prefix_label(s, b))),
            )
        }
    }
}

/// Where the line starting at `i` ends: at the next newline, or at the
/// end of the text.
pub open spec fn line_end(s: Seq<char>, i: int) -> int
    decreases s.len() - i,
{
    if i < 0 || i >= s.len() || s[i] == '\n' {
        i
    } else {
        line_end(s, i + 1)
    }
}

/// A line never ends before it starts, nor past the end.
pub proof fn lemma_line_end_bounds(s: Seq<char>, i: int)
    requires
        0 <= i <= s.len(),
    ensures
        i <= line_end(s, i) <= s.len(),
    decreases s.len() - i,
{
    if i < s.len() && s[i] != '\n' {
        lemma_line_end_bounds(s, i + 1);
    }
}

/// Lines end exactly where [`line_end`] says.
proof fn lemma_line_end(s: Seq<char>, j: int, i: int)
    requires
        0 <= j <= i <= s.len(),
        forall|k: int| j <= k < i ==> (#[trigger] s[k]) != '\n',
        i == s.len() || s[i] == '\n',
    ensures
        line_end(s, j) == i,
    decreases i - j,
{
    if j < i {
        lemma_line_end(s, j + 1, i);
    }
}

/// The position after the line starting at `pos`.
pub open spec fn next_line(s: Seq<char>, pos: int) -> int {
    if line_end(s, pos) < s.len() {
        line_end(s, pos) + 1
    } else {
        line_end(s, pos)
    }
}

/// Every line from `pos` on conforms to the record grammar.
pub open spec fn content_form(s: Seq<char>, pos: int) -> bool
    decreases s.len() - pos,
    when 0 <= pos <= s.len()
    via content_form_dec
{
    if pos >= s.len() {
        true
    } else {
        record_form(s.subrange(pos, line_end(s, pos))) && content_form(s, next_line(s, pos))
    }
}

#[via_fn]
proof fn content_form_dec(s: Seq<char>, pos: int) {
    lemma_line_end_bounds(s, pos);
}

/// The duration declarations of the lines from `pos` on, in file order.
pub open spec fn content_durs(s: Seq<char>, pos: int) -> Seq<(Seq<char>, int)>
    decreases s.len() - pos,
    when 0 <= pos <= s.len()
    via content_durs_dec
{
    if pos >= s.len() {
        Seq::empty()
    } else {
        line_durs(s.subrange(pos, line_end(s, pos))) + content_durs(s, next_line(s, pos))
    }
}

#[via_fn]
proof fn content_durs_dec(s: Seq<char>, pos: int) {
    lemma_line_end_bounds(s, pos);
}

/// The precedence declarations of the lines from `pos` on, in file order.
pub open spec fn content_ords(s: Seq<char>, pos: int) -> Seq<(Seq<char>, Option<Seq<char>>)>
    decreases s.len() - pos,
    when 0 <= pos <= s.len()
    via content_ords_dec
{
    if pos >= s.len() {
        Seq::empty()
    } else {
        line_ords(s.subrange(pos, line_end(s, pos))) + content_ords(s, next_line(s, pos))
    }
}

#[via_fn]
proof fn content_ords_dec(s: Seq<char>, pos: int) {
    lemma_line_end_bounds(s, pos);
}

/// The 1-based number of the first nonconforming line at or after `pos`.
pub open spec fn content_err_line(s: Seq<char>, pos: int) -> int
    decreases s.len() - pos,
    when 0 <= pos <= s.len()
    via content_err_line_dec
{
    if pos >= s.len() {
        0
    } else if !record_form(s.subrange(pos, line_end(s, pos))) {
        1
    } else {
        1 + content_err_line(s, next_line(s, pos))
    }
}

#[via_fn]
proof fn content_err_line_dec(s: Seq<char>, pos: int) {
    lemma_line_end_bounds(s, pos);
}

/// The column of the violation on the first nonconforming line at or
/// after `pos`.
pub open spec fn content_err_col(s: Seq<char>, pos: int) -> int
    decreases s.len() - pos,
    when 0 <= pos <= s.len()
    via content_err_col_dec
{
    if pos >= s.len() {
        0
    } else if !record_form(s.subrange(pos, line_end(s, pos))) {
        record_col(s.subrange(pos, line_end(s, pos)))
    } else {
        content_err_col(s, next_line(s, pos))
    }
}

#[via_fn]
proof fn content_err_col_dec(s: Seq<char>, pos: int) {
    lemma_line_end_bounds(s, pos);
}

/// The texts of parsed duration declarations.
pub open spec fn durs_texts(v: Seq<(TaskLabel, Duration)>) -> Seq<(Seq<char>, int)> {
    v.map_values(|e: (TaskLabel, Duration)| (e.0@, e.1 as int))
}

/// The texts of parsed precedence declarations.
pub open spec fn ords_texts(v: Seq<(TaskLabel, Option<TaskLabel>)>) -> Seq<
    (Seq<char>, Option<Seq<char>>),
> {
    v.map_values(
        |e: (TaskLabel, Option<TaskLabel>)| (
            e.0@,
            match e.1 {
                Some(l) => Some(l@),
                None => None,
            },
        ),
    )
}

/// A structural violation of the schedule language, located at a line and
/// column, both 1-based.
#[derive(Debug, PartialEq, Eq, Clone, Copy)]
pub struct ParserError {
    line: usize,
    column: usize,
}

impl ParserError {
    /// Builds an error at the given position.
    pub fn at(line: usize, column: usize) -> (r: ParserError)
        ensures
            r.spec_line() == line,
            r.spec_column() == column,
    {
        ParserError { line, column }
    }

    /// The 1-based line of the violation.
    pub closed spec fn spec_line(&self) -> usize {
        self.line
    }

    /// The 1-based column of the violation.
    pub closed spec fn spec_column(&self) -> usize {
        self.column
    }

    /// The line, for reporting.
    pub fn line(&self) -> (r: usize)
        ensures
            r == self.spec_line(),
    {
        self.line
    }

    /// The column, for reporting.
    pub fn column(&self) -> (r: usize)
        ensures
            r == self.spec_column(),
    {
        self.column
    }

    /// A user-facing description of the violation.
    pub fn message(&self) -> (r: String)
        ensures
            r@ == "line "@ + crate::render::dec_rep(self.spec_line() as int) + ", column "@
                + crate::render::dec_rep(self.spec_column() as int),
    {
        let mut s = String::from_str("line ");
        s.append(crate::render::format_number(self.line as u64).as_str());
        s.append(", column ");
        s.append(crate::render::format_number(self.column as u64).as_str());
        s
    }
}

/// The raw declarations a schedule text denotes: precedence pairs and
/// durations, in order of appearance, before deduplication.
#[derive(Debug)]
pub struct ParsedData {
    task_orders: Vec<(TaskLabel, Option<TaskLabel>)>,
    task_durations: Vec<(TaskLabel, Duration)>,
}

impl ParsedData {
    /// Every label the parse produced is well formed.
    pub open spec fn wf(&self) -> bool {
        &&& forall|k: int|
            0 <= k < self.spec_task_durations().len() ==> valid_label(
                (#[trigger] self.spec_task_durations()[k]).0@,
            )
        &&& forall|k: int|
            0 <= k < self.spec_task_orders().len() ==> valid_label(
                (#[trigger] self.spec_task_orders()[k]).0@,
            ) && match self.spec_task_orders()[k].1 {
                Some(l) => valid_label(l@),
                None => true,
            }
    }

    /// The parsed duration declarations.
    pub closed spec fn spec_task_durations(&self) -> Seq<(TaskLabel, Duration)> {
        self.task_durations@
    }

    /// The parsed precedence declarations.
    pub closed spec fn spec_task_orders(&self) -> Seq<(TaskLabel, Option<TaskLabel>)> {
        self.task_orders@
    }

    /// The durations, label by label.
    pub fn task_durations(&self) -> (r: &Vec<(TaskLabel, Duration)>)
        ensures
            r@ == self.spec_task_durations(),
    {
        &self.task_durations
    }

    /// The precedence pairs; a pair without a second label declares a
    /// standalone task.
    pub fn task_orders(&self) -> (r: &Vec<(TaskLabel, Option<TaskLabel>)>)
        ensures
            r@ == self.spec_task_orders(),
    {
        &self.task_orders
    }
}

/// A run of name characters never ends before it starts.
proof fn lemma_name_end_lb(s: Seq<char>, i: int)
    requires
        0 <= i <= s.len(),
    ensures
        name_end(s, i) >= i,
    decreases s.len() - i,
{
    if i < s.len() && name_char(s[i]) {
        lemma_name_end_lb(s, i + 1);
    }
}

/// Runs of name characters end exactly where [`name_end`] says.
proof fn lemma_name_end(s: Seq<char>, j: int, i: int)
    requires
        0 <= j <= i <= s.len(),
        forall|k: int| j <= k < i ==> name_char(#[trigger] s[k]),
        i == s.len() || !name_char(s[i]),
    ensures
        name_end(s, j) == i,
    decreases i - j,
{
    if j < i {
        lemma_name_end(s, j + 1, i);
    }
}

/// Runs of digits end exactly where [`digits_end`] says.
proof fn lemma_digits_end(s: Seq<char>, j: int, i: int)
    requires
        0 <= j <= i <= s.len(),
        forall|k: int| j <= k < i ==> digit_char10(#[trigger] s[k]),
        i == s.len() || !digit_char10(s[i]),
    ensures
        digits_end(s, j) == i,
    decreases i - j,
{
    if j < i {
        lemma_digits_end(s, j + 1, i);
    }
}

/// A digit run's value only grows as the run extends.
proof fn lemma_digits_val_grows(s: Seq<char>, from: int, b: int, c: int)
    requires
        0 <= from <= b <= c <= s.len(),
        forall|k: int| from <= k < c ==> digit_char10(#[trigger] s[k]),
    ensures
        digits_val(s, from, b) <= digits_val(s, from, c),
    decreases c - b,
{
    if b < c {
        lemma_digits_val_grows(s, from, b, c - 1);
        lemma_digits_val_nonneg(s, from, c - 1);
        assert(digit_char10(s[c - 1]));
        assert(digit_val(s[c - 1]) >= 0);
    }
}

/// A digit run's value is never negative.
proof fn lemma_digits_val_nonneg(s: Seq<char>, from: int, to: int)
    requires
        0 <= from <= s.len(),
        to <= s.len(),
        forall|k: int| from <= k < to ==> digit_char10(#[trigger] s[k]),
    ensures
        digits_val(s, from, to) >= 0,
    decreases to - from,
{
    if from < to {
        lemma_digits_val_nonneg(s, from, to - 1);
        assert(digit_char10(s[to - 1]));
    }
}

/// Everything before a run's end is a digit, and the end is in range.
proof fn lemma_digits_end_run(s: Seq<char>, i: int)
    requires
        0 <= i <= s.len(),
    ensures
        i <= digits_end(s, i) <= s.len(),
        forall|k: int| i <= k < digits_end(s, i) ==> digit_char10(#[trigger] s[k]),
    decreases s.len() - i,
{
    if i < s.len() && digit_char10(s[i]) {
        lemma_digits_end_run(s, i + 1);
    }
}

/// A run of digits reaches at least past any all-digit prefix.
proof fn lemma_digits_end_ge(s: Seq<char>, j: int, i: int)
    requires
        0 <= j <= i <= s.len(),
        forall|k: int| j <= k < i ==> digit_char10(#[trigger] s[k]),
    ensures
        digits_end(s, j) >= i,
    decreases i - j,
{
    lemma_digits_end_run(s, j);
    if j < i {
        lemma_digits_end_ge(s, j + 1, i);
    }
}

/// Runs of blanks end exactly where [`blank_end`] says.
proof fn lemma_blank_end(s: Seq<char>, j: int, i: int)
    requires
        0 <= j <= i <= s.len(),
        forall|k: int| j <= k < i ==> blank_char(#[trigger] s[k]),
        i == s.len() || !blank_char(s[i]),
    ensures
        blank_end(s, j) == i,
    decreases i - j,
{
    if j < i {
        lemma_blank_end(s, j + 1, i);
    }
}

/// Scans the run of name characters starting at `from`.
fn scan_name(s: &str, from: usize) -> (r: usize)
    requires
        from <= s@.len(),
    ensures
        r == name_end(s@, from as int),
        from <= r <= s@.len(),
{
    let n = s.unicode_len();
    let mut i = from;
    while i < n
        invariant_except_break
            from <= i <= n,
            n == s@.len(),
            forall|k: int| from <= k < i ==> name_char(#[trigger] s@[k]),
        ensures
            from <= i <= n,
            n == s@.len(),
            forall|k: int| from <= k < i ==> name_char(#[trigger] s@[k]),
            i == n || !name_char(s@[i as int]),
        decreases n - i,
    {
        if !is_name_char(s.get_char(i)) {
            break;
        }
        i += 1;
    }
    proof {
        lemma_name_end(s@, from as int, i as int);
    }
    i
}

/// Scans the run of blanks starting at `from`.
fn scan_blanks(s: &str, from: usize) -> (r: usize)
    requires
        from <= s@.len(),
    ensures
        r == blank_end(s@, from as int),
        from <= r <= s@.len(),
{
    let n = s.unicode_len();
    let mut i = from;
    while i < n
        invariant_except_break
            from <= i <= n,
            n == s@.len(),
            forall|k: int| from <= k < i ==> blank_char(#[trigger] s@[k]),
        ensures
            from <= i <= n,
            n == s@.len(),
            forall|k: int| from <= k < i ==> blank_char(#[trigger] s@[k]),
            i == n || !blank_char(s@[i as int]),
        decreases n - i,
    {
        let c = s.get_char(i);
        if !(c == ' ' || c == '\t') {
            break;
        }
        i += 1;
    }
    proof {
        lemma_blank_end(s@, from as int, i as int);
    }
    i
}

/// The parser of the schedule language.
#[derive(Debug)]
pub struct ScheduleParser;

impl ScheduleParser {
    /// Parses the longest run of name characters at the start of `s` as a
    /// task name.  Fails when `s` does not begin with a name character.
    pub fn parse_task_name(s: &str) -> (r: Result<String, ParserError>)
        ensures
            r is Ok <==> (s@.len() > 0 && name_char(s@[0])),
            r matches Ok(t) ==> t@ == s@.subrange(0, name_end(s@, 0)),
            r matches Err(e) ==> e.spec_line() == 1 && e.spec_column() == 1,
    {
        let e = scan_name(s, 0);
        if e == 0 {
            proof {
                if s@.len() > 0 && name_char(s@[0]) {
                    lemma_name_end_lb(s@, 1);
                }
            }
            return Err(ParserError::at(1, 1));
        }
        Ok(s.substring_char(0, e).to_owned())
    }

    /// Parses a full `task(duration)` prefix.  Succeeds exactly when one
    /// stands at the start of `s`: fails when the name, the parentheses or
    /// the digits are missing, when the value exceeds the duration range,
    /// or when the name is too long to be a label.
    pub fn parse_task_name_and_duration(s: &str) -> (r: Result<
        (TaskLabel, Duration),
        ParserError,
    >)
        requires
            s@.len() < usize::MAX,
        ensures
            (r is Ok) <==> prefix_form(s@, 0),
            r matches Ok((l, d)) ==> l@ == prefix_label(s@, 0) && l.wf() && (d as int)
                == prefix_value(s@, 0),
            r matches Err(e) ==> e.spec_line() == 1,
    {
        match parse_record_prefix(s, 0, 1) {
            Ok((l, d, _)) => Ok((l, d)),
            Err(e) => Err(e),
        }
    }

    /// Parses a whole schedule text: one record per line, blank lines
    /// skipped.  Succeeds exactly when every line conforms to the record
    /// grammar, and then yields exactly the declarations the text denotes,
    /// in file order; otherwise it reports the first violation's line and
    /// column, both 1-based.
    #[verifier::rlimit(60)]
    pub fn parse_content(content: &str) -> (r: Result<ParsedData, ParserError>)
        requires
            content@.len() < usize::MAX,
        ensures
            (r is Ok) <==> content_form(content@, 0),
            r matches Ok(pd) ==> pd.wf() && durs_texts(pd.spec_task_durations()) == content_durs(
                content@,
                0,
            ) && ords_texts(pd.spec_task_orders()) == content_ords(content@, 0),
            r matches Err(e) ==> e.spec_line() >= 1 && e.spec_column() >= 1 && (
            e.spec_line() as int) == content_err_line(content@, 0) && (e.spec_column() as int)
                == content_err_col(content@, 0),
    {
        let ghost s0 = content@;
        let n = content.unicode_len();
        let mut task_orders: Vec<(TaskLabel, Option<TaskLabel>)> = Vec::new();
        let mut task_durations: Vec<(TaskLabel, Duration)> = Vec::new();
        let mut pos: usize = 0;
        let mut line_no: usize = 1;
        while pos < n
            invariant
                0 <= pos <= n,
                n == s0.len(),
                s0 == content@,
                n < usize::MAX,
                1 <= line_no,
                line_no <= pos + 1,
                content_form(s0, 0) <==> content_form(s0, pos as int),
                durs_texts(task_durations@) + content_durs(s0, pos as int) == content_durs(
                    s0,
                    0,
                ),
                ords_texts(task_orders@) + content_ords(s0, pos as int) == content_ords(s0, 0),
                !content_form(s0, pos as int) ==> content_err_line(s0, 0) == (line_no - 1)
                    + content_err_line(s0, pos as int) && content_err_col(s0, 0)
                    == content_err_col(s0, pos as int),
                forall|k: int|
                    0 <= k < task_durations@.len() ==> valid_label(
                        (#[trigger] task_durations@[k]).0@,
                    ),
                forall|k: int|
                    0 <= k < task_orders@.len() ==> valid_label((#[trigger] task_orders@[k]).0@)
                        && match task_orders@[k].1 {
                        Some(l) => valid_label(l@),
                        None => true,
                    },
            decreases n - pos,
        {
            // Find the end of the current line.
            let mut eol = pos;
            while eol < n
                invariant_except_break
                    pos <= eol <= n,
                    n == s0.len(),
                    s0 == content@,
                    forall|k: int| pos <= k < eol ==> (#[trigger] s0[k]) != '\n',
                ensures
                    pos <= eol <= n,
                    n == s0.len(),
                    s0 == content@,
                    forall|k: int| pos <= k < eol ==> (#[trigger] s0[k]) != '\n',
                    eol == n || s0[eol as int] == '\n',
                decreases n - eol,
            {
                if content.get_char(eol) == '\n' {
                    break;
                }
                eol += 1;
            }
            proof {
                lemma_line_end(s0, pos as int, eol as int);
            }
            let line = content.substring_char(pos, eol);
            let ghost durs_pre = task_durations@;
            let ghost ords_pre = task_orders@;
            match parse_record(line, line_no, &mut task_orders, &mut task_durations) {
                Ok(()) => {},
                Err(e) => {
                    proof {
                        assert(line@ == s0.subrange(pos as int, line_end(s0, pos as int)));
                        assert(!record_form(s0.subrange(pos as int, line_end(s0, pos as int))));
                        assert(content_err_line(s0, pos as int) == 1);
                        assert(content_err_col(s0, pos as int) == record_col(line@));
                    }
                    return Err(e);
                },
            }
            proof {
                let pi = pos as int;
                let nx = next_line(s0, pi);
                assert(line@ == s0.subrange(pi, line_end(s0, pi)));
                assert(record_form(line@));
                assert(content_form(s0, pi) <==> content_form(s0, nx));
                assert(durs_texts(task_durations@) =~= durs_texts(durs_pre) + line_durs(line@));
                assert(durs_texts(task_durations@) + content_durs(s0, nx) =~= durs_texts(
                    durs_pre,
                ) + (line_durs(line@) + content_durs(s0, nx)));
                assert(line_durs(line@) + content_durs(s0, nx) == content_durs(s0, pi));
                assert(ords_texts(task_orders@) =~= ords_texts(ords_pre) + line_ords(line@));
                assert(ords_texts(task_orders@) + content_ords(s0, nx) =~= ords_texts(ords_pre)
                    + (line_ords(line@) + content_ords(s0, nx)));
                assert(line_ords(line@) + content_ords(s0, nx) == content_ords(s0, pi));
                if !content_form(s0, nx) {
                    assert(content_err_line(s0, pi) == 1 + content_err_line(s0, nx));
                    assert(content_err_col(s0, pi) == content_err_col(s0, nx));
                }
            }
            pos = if eol < n {
                eol + 1
            } else {
                eol
            };
            line_no += 1;
        }
        proof {
            assert(content_form(s0, pos as int));
            assert(content_durs(s0, pos as int) =~= Seq::<(Seq<char>, int)>::empty());
            assert(content_ords(s0, pos as int) =~= Seq::<
                (Seq<char>, Option<Seq<char>>),
            >::empty());
            assert(durs_texts(task_durations@) =~= durs_texts(task_durations@) + content_durs(
                s0,
                pos as int,
            ));
            assert(ords_texts(task_orders@) =~= ords_texts(task_orders@) + content_ords(
                s0,
                pos as int,
            ));
        }
        Ok(ParsedData { task_orders, task_durations })
    }
}

/// Parses `task(duration)` at position `from` of `line`, reporting
/// failures on line `line_no`.  Succeeds exactly when a well-formed
/// prefix stands there, and returns its label, value and end.
#[verifier::rlimit(60)]
fn parse_record_prefix(line: &str, from: usize, line_no: usize) -> (r: Result<
    (TaskLabel, Duration, usize),
    ParserError,
>)
    requires
        from <= line@.len(),
        line@.len() < usize::MAX,
        line_no < usize::MAX,
        line_no >= 1,
    ensures
        (r is Ok) <==> prefix_form(line@, from as int),
        r matches Ok((l, d, after)) ==> l@ == prefix_label(line@, from as int) && l.wf() && (
        d as int) == prefix_value(line@, from as int) && (after as int) == prefix_after(
            line@,
            from as int,
        ) && from < after <= line@.len(),
        r matches Err(e) ==> e.spec_line() == line_no && e.spec_column() >= 1 && (
        e.spec_column() as int) == prefix_col(line@, from as int),
{
    let n = line.unicode_len();
    let ne = scan_name(line, from);
    if ne == from {
        return Err(ParserError::at(line_no, from + 1));
    }
    if ne - from > TaskLabel::MAX_LEN {
        return Err(ParserError::at(line_no, from + 1));
    }
    let name = line.substring_char(from, ne);
    let label = match TaskLabel::try_new(name) {
        Ok(l) => l,
        Err(_) => {
            return Err(ParserError::at(line_no, from + 1));
        },
    };
    if ne >= n || !(line.get_char(ne) == '(') {
        return Err(ParserError::at(line_no, ne + 1));
    }
    let ds = ne + 1;
    let ghost de_full = digits_end(line@, ds as int);
    proof {
        lemma_digits_end_run(line@, ds as int);
    }
    let mut de = ds;
    let mut value: u64 = 0;
    while de < n
        invariant_except_break
            ds <= de <= n,
            n == line@.len(),
            n < usize::MAX,
            line_no >= 1,
            value <= 0xFFFF,
            forall|k: int| ds <= k < de ==> digit_char10(#[trigger] line@[k]),
            value as int == digits_val(line@, ds as int, de as int),
        ensures
            ds <= de <= n,
            n == line@.len(),
            n < usize::MAX,
            line_no >= 1,
            forall|k: int| ds <= k < de ==> digit_char10(#[trigger] line@[k]),
            value as int == digits_val(line@, ds as int, de as int),
            value <= 0xFFFF || value_overflow(line@, ds as int, de as int),
            value > 0xFFFF || de == n || !digit_char10(line@[de as int]),
        decreases n - de,
    {
        let c = line.get_char(de);
        let u = c as u32;
        if !(0x30 <= u && u <= 0x39) {
            break;
        }
        value = value * 10 + ((u - 0x30) as u64);
        de += 1;
        if value > 0xFFFF {
            break;
        }
    }
    if value > 0xFFFF {
        proof {
            // The run's full value can only exceed the partial one.
            lemma_digits_end_ge(line@, ds as int, de as int);
            lemma_digits_val_grows(line@, ds as int, de as int, de_full);
            if prefix_form(line@, from as int) {
                assert(name_end(line@, from as int) == ne);
                assert(digits_val(line@, ds as int, de_full) <= 0xFFFF);
            }
        }
        return Err(ParserError::at(line_no, ds + 1));
    }
    proof {
        lemma_digits_end(line@, ds as int, de as int);
    }
    if de == ds {
        return Err(ParserError::at(line_no, ds + 1));
    }
    if de >= n || !(line.get_char(de) == ')') {
        return Err(ParserError::at(line_no, de + 1));
    }
    proof {
        assert(name_end(line@, from as int) == ne);
        assert(line@.subrange(from as int, ne as int) == name@);
        assert(prefix_form(line@, from as int));
    }
    Ok((label, value as u16, de + 1))
}

/// Whether the digits at `[from, de)` already exceed the duration range.
pub open spec fn value_overflow(s: Seq<char>, from: int, de: int) -> bool {
    digits_val(s, from, de) > 0xFFFF
}

/// A record whose dependency list fails at `i` with column `col` is
/// malformed, and that column is the record's.
proof fn lemma_record_deps_fail(s: Seq<char>, b: int, tail_k: int, i: int, col: int)
    requires
        b == blank_end(s, 0),
        0 <= b < s.len(),
        prefix_form(s, b),
        tail_k == blank_end(s, prefix_after(s, b)),
        0 <= tail_k && tail_k + 1 < s.len(),
        s[tail_k] == '<' && s[tail_k + 1] == '-',
        0 <= tail_k + 2 <= i <= s.len(),
        deps_form(s, tail_k + 2) <==> deps_form(s, i),
        deps_col(s, tail_k + 2) == deps_col(s, i),
        !deps_form(s, i),
        deps_col(s, i) == col,
    ensures
        !record_form(s),
        record_col(s) == col,
{
}

/// Parses one line as a record, appending exactly what it declares;
/// blank lines declare nothing.  Succeeds exactly when the line conforms
/// to the record grammar; a violation is reported at its column.
#[verifier::rlimit(100)]
fn parse_record(
    line: &str,
    line_no: usize,
    task_orders: &mut Vec<(TaskLabel, Option<TaskLabel>)>,
    task_durations: &mut Vec<(TaskLabel, Duration)>,
) -> (r: Result<(), ParserError>)
    requires
        line_no >= 1,
        line_no < usize::MAX,
        line@.len() < usize::MAX,
        forall|k: int|
            0 <= k < old(task_durations)@.len() ==> valid_label(
                (#[trigger] old(task_durations)@[k]).0@,
            ),
        forall|k: int|
            0 <= k < old(task_orders)@.len() ==> valid_label((#[trigger] old(task_orders)@[k]).0@)
                && match old(task_orders)@[k].1 {
                Some(l) => valid_label(l@),
                None => true,
            },
    ensures
        forall|k: int|
            0 <= k < final(task_durations)@.len() ==> valid_label(
                (#[trigger] final(task_durations)@[k]).0@,
            ),
        forall|k: int|
            0 <= k < final(task_orders)@.len() ==> valid_label(
                (#[trigger] final(task_orders)@[k]).0@,
            ) && match final(task_orders)@[k].1 {
                Some(l) => valid_label(l@),
                None => true,
            },
        (r is Ok) <==> record_form(line@),
        r is Ok ==> durs_texts(final(task_durations)@) == durs_texts(old(task_durations)@)
            + line_durs(line@) && ords_texts(final(task_orders)@) == ords_texts(
            old(task_orders)@,
        ) + line_ords(line@),
        r matches Err(e) ==> e.spec_line() == line_no && e.spec_column() >= 1 && (
        e.spec_column() as int) == record_col(line@),
{
    let ghost s0 = line@;
    let ghost durs0 = task_durations@;
    let ghost ords0 = task_orders@;
    let n = line.unicode_len();
    let start = scan_blanks(line, 0);
    if start == n {
        proof {
            assert(record_form(s0));
            assert(line_durs(s0) =~= Seq::<(Seq<char>, int)>::empty());
            assert(line_ords(s0) =~= Seq::<(Seq<char>, Option<Seq<char>>)>::empty());
            assert(durs_texts(durs0) + line_durs(s0) =~= durs_texts(durs0));
            assert(ords_texts(ords0) + line_ords(s0) =~= ords_texts(ords0));
        }
        return Ok(());
    }
    let (label, duration, after) = match parse_record_prefix(line, start, line_no) {
        Ok(x) => x,
        Err(e) => {
            proof {
                assert(!record_form(s0));
                assert(record_col(s0) == prefix_col(s0, start as int));
            }
            return Err(e);
        },
    };
    task_durations.push((label.clone(), duration));
    proof {
        assert(durs_texts(task_durations@) =~= durs_texts(durs0) + line_durs(s0));
    }
    let mut i = scan_blanks(line, after);
    if i == n {
        let ghost ords_pre = task_orders@;
        task_orders.push((label, None));
        proof {
            assert(record_form(s0));
            assert(line_ords(s0) =~= seq![(prefix_label(s0, start as int), None::<Seq<char>>)]);
            assert(ords_texts(task_orders@) =~= ords_texts(ords0) + line_ords(s0));
        }
        return Ok(());
    }
    // A dependency list follows: "<-" then names separated by commas.
    if !(line.get_char(i) == '<') {
        proof {
            assert(!record_form(s0));
            assert(record_col(s0) == i + 1);
        }
        return Err(ParserError::at(line_no, i + 1));
    }
    if i + 1 >= n || !(line.get_char(i + 1) == '-') {
        proof {
            assert(!record_form(s0));
            assert(record_col(s0) == i + 2);
        }
        return Err(ParserError::at(line_no, i + 2));
    }
    let ghost i0 = (i + 2) as int;
    let ghost tail_k = i as int;
    proof {
        assert(tail_k == blank_end(s0, prefix_after(s0, start as int)));
        assert(s0[tail_k] == '<' && tail_k + 1 < n && s0[tail_k + 1] == '-');
    }
    let ghost f = |d: Seq<char>| (d, Some(prefix_label(s0, start as int)));
    i += 2;
    loop
        invariant_except_break
            i0 <= i <= n,
            n == line@.len(),
            line@ == s0,
            n < usize::MAX,
            line_no >= 1,
            line_no < usize::MAX,
            0 <= i0 <= n,
            valid_label(label@),
            label@ == prefix_label(s0, start as int),
            0 <= start < n,
            start == blank_end(s0, 0),
            prefix_form(s0, start as int),
            tail_k == blank_end(s0, prefix_after(s0, start as int)),
            0 <= tail_k && tail_k + 1 < n,
            s0[tail_k] == '<' && s0[tail_k + 1] == '-',
            i0 == tail_k + 2,
            f == (|d: Seq<char>| (d, Some(prefix_label(s0, start as int)))),
            deps_form(s0, i0) <==> deps_form(s0, i as int),
            deps_col(s0, i0) == deps_col(s0, i as int),
            ords_texts(task_orders@) + deps_texts(s0, i as int).map_values(f) == ords_texts(
                ords0,
            ) + deps_texts(s0, i0).map_values(f),
            forall|k: int|
                0 <= k < task_durations@.len() ==> valid_label(
                    (#[trigger] task_durations@[k]).0@,
                ),
            forall|k: int|
                0 <= k < task_orders@.len() ==> valid_label((#[trigger] task_orders@[k]).0@)
                    && match task_orders@[k].1 {
                    Some(l) => valid_label(l@),
                    None => true,
                },
        ensures
            deps_form(s0, i0),
            ords_texts(task_orders@) == ords_texts(ords0) + deps_texts(s0, i0).map_values(
                (|d: Seq<char>| (d, Some(prefix_label(s0, start as int)))),
            ),
            forall|k: int|
                0 <= k < task_durations@.len() ==> valid_label(
                    (#[trigger] task_durations@[k]).0@,
                ),
            forall|k: int|
                0 <= k < task_orders@.len() ==> valid_label((#[trigger] task_orders@[k]).0@)
                    && match task_orders@[k].1 {
                    Some(l) => valid_label(l@),
                    None => true,
                },
        decreases n - i,
    {
        let j = scan_blanks(line, i);
        let ne = scan_name(line, j);
        if ne == j {
            proof {
                lemma_record_deps_fail(s0, start as int, tail_k, i as int, j + 1);
            }
            return Err(ParserError::at(line_no, j + 1));
        }
        if ne - j > TaskLabel::MAX_LEN {
            proof {
                lemma_record_deps_fail(s0, start as int, tail_k, i as int, j + 1);
            }
            return Err(ParserError::at(line_no, j + 1));
        }
        let dep = match TaskLabel::try_new(line.substring_char(j, ne)) {
            Ok(l) => l,
            Err(_) => {
                proof {
                    lemma_record_deps_fail(s0, start as int, tail_k, i as int, j + 1);
                }
                return Err(ParserError::at(line_no, j + 1));
            },
        };
        let ghost ords_pre = task_orders@;
        task_orders.push((dep, Some(label.clone())));
        proof {
            assert(dep@ == s0.subrange(j as int, ne as int));
            assert(ords_texts(task_orders@) =~= ords_texts(ords_pre).push(
                (dep@, Some(label@)),
            ));
        }
        let k = scan_blanks(line, ne);
        if k == n {
            proof {
                assert(deps_form(s0, i as int));
                assert(deps_texts(s0, i as int) =~= seq![s0.subrange(j as int, ne as int)]);
                assert(deps_texts(s0, i as int).map_values(f) =~= seq![
                    (s0.subrange(j as int, ne as int), Some(prefix_label(s0, start as int)))
                ]);
                assert(ords_texts(task_orders@) + Seq::<
                    (Seq<char>, Option<Seq<char>>),
                >::empty() =~= ords_texts(task_orders@));
                assert(ords_texts(task_orders@) =~= ords_texts(ords0) + deps_texts(
                    s0,
                    i0,
                ).map_values(f));
            }
            break;
        }
        if !(line.get_char(k) == ',') {
            proof {
                lemma_record_deps_fail(s0, start as int, tail_k, i as int, k + 1);
            }
            return Err(ParserError::at(line_no, k + 1));
        }
        proof {
            assert(deps_form(s0, i as int) <==> deps_form(s0, k + 1));
            assert(deps_col(s0, i as int) == deps_col(s0, k + 1));
            assert(deps_texts(s0, i as int) =~= seq![s0.subrange(j as int, ne as int)]
                + deps_texts(s0, k + 1));
            assert(deps_texts(s0, i as int).map_values(f) =~= seq![
                (s0.subrange(j as int, ne as int), Some(prefix_label(s0, start as int)))
            ] + deps_texts(s0, k + 1).map_values(f));
        }
        i = k + 1;
    }
    proof {
        assert(record_form(s0));
        assert(line_ords(s0) =~= deps_texts(s0, i0).map_values(f));
        assert(ords_texts(task_orders@) =~= ords_texts(ords0) + line_ords(s0));
    }
    Ok(())
}

} // verus!
