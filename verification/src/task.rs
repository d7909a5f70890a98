//! Task identifiers and precedence declarations.
//!
//! A [`TaskLabel`] is a validated identifier: non-empty, at most
//! [`TaskLabel::MAX_LEN`] characters, and free of white-space characters.
//! A [`TaskOrder`] declares either that one task must precede another, or
//! that a task exists on its own.

use vstd::prelude::*;
use vstd::string::StrSliceExecFns;
use vstd::string::StringExecFns;

verus! {

/// Execution time of a single task.
pub type Duration = u16;

/// Accumulated time along a path.  Strictly wider than [`Duration`], so that
/// the durations of the tasks along a path can be summed without overflow.
pub type TotalDuration = u32;

/// True exactly for the Unicode white-space code points (the set matched by
/// `char::is_whitespace`).
pub open spec fn whitespace_char(c: char) -> bool {
    let u = c as u32;
    u == 0x9 || u == 0xA || u == 0xB || u == 0xC || u == 0xD || u == 0x20
        || u == 0x85 || u == 0xA0 || u == 0x1680
        || (0x2000 <= u && u <= 0x200A)
        || u == 0x2028 || u == 0x2029 || u == 0x202F || u == 0x205F || u == 0x3000
}

/// Decides [`whitespace_char`] at run time.
pub fn is_whitespace_char(c: char) -> (r: bool)
    ensures
        r == whitespace_char(c),
{
    let u = c as u32;
    u == 0x9 || u == 0xA || u == 0xB || u == 0xC || u == 0xD || u == 0x20
        || u == 0x85 || u == 0xA0 || u == 0x1680
        || (0x2000 <= u && u <= 0x200A)
        || u == 0x2028 || u == 0x2029 || u == 0x202F || u == 0x205F || u == 0x3000
}

/// What a string must satisfy to name a task: non-empty, at most
/// [`TaskLabel::MAX_LEN`] characters, and no white-space character.
pub open spec fn valid_label(s: Seq<char>) -> bool {
    0 < s.len() <= TaskLabel::MAX_LEN as int
        && forall|i: int| 0 <= i < s.len() ==> !whitespace_char(#[trigger] s[i])
}

/// Strict lexicographic order on character sequences, by code point.  This is
/// the order `str` comparison uses.
pub open spec fn lex_lt(a: Seq<char>, b: Seq<char>) -> bool
    decreases a.len(),
{
    if b.len() == 0 {
        false
    } else if a.len() == 0 {
        true
    } else if (a[0] as u32) < (b[0] as u32) {
        true
    } else if a[0] == b[0] {
        lex_lt(a.drop_first(), b.drop_first())
    } else {
        false
    }
}

/// Two characters with the same code point are the same character.
pub proof fn lemma_char_injective(a: char, b: char)
    requires
        a as u32 == b as u32,
    ensures
        a == b,
{
    vstd::utf8::char_u32_cast(a, a as u32);
    vstd::utf8::char_u32_cast(b, b as u32);
}

/// [`lex_lt`] is irreflexive.
pub proof fn lemma_lex_irrefl(a: Seq<char>)
    ensures
        !lex_lt(a, a),
    decreases a.len(),
{
    if a.len() > 0 {
        lemma_lex_irrefl(a.drop_first());
    }
}

/// Two distinct sequences are ordered one way or the other.
pub proof fn lemma_lex_connex(a: Seq<char>, b: Seq<char>)
    requires
        a != b,
    ensures
        lex_lt(a, b) || lex_lt(b, a),
    decreases a.len(),
{
    if a.len() == 0 || b.len() == 0 {
        if a.len() == 0 && b.len() == 0 {
            assert(a =~= b);
        }
    } else if a[0] == b[0] {
        if a.drop_first() == b.drop_first() {
            assert(a.drop_first().len() == b.drop_first().len());
            assert forall|k: int| 0 <= k < a.len() implies a[k] == b[k] by {
                if k > 0 {
                    assert(a[k] == a.drop_first()[k - 1]);
                    assert(b[k] == b.drop_first()[k - 1]);
                }
            }
            assert(a =~= b);
        }
        lemma_lex_connex(a.drop_first(), b.drop_first());
    } else {
        if a[0] as u32 == b[0] as u32 {
            lemma_char_injective(a[0], b[0]);
        }
    }
}

/// [`lex_lt`] is transitive.
pub proof fn lemma_lex_trans(a: Seq<char>, b: Seq<char>, c: Seq<char>)
    requires
        lex_lt(a, b),
        lex_lt(b, c),
    ensures
        lex_lt(a, c),
    decreases a.len(),
{
    if a.len() > 0 && b.len() > 0 && c.len() > 0 && a[0] == b[0] && b[0] == c[0] {
        lemma_lex_trans(a.drop_first(), b.drop_first(), c.drop_first());
    }
}

/// Comparing two sequences that agree on their first `i` characters comes
/// down to comparing what follows.
pub proof fn lemma_lex_skip(a: Seq<char>, b: Seq<char>, i: int)
    requires
        0 <= i <= a.len(),
        i <= b.len(),
        forall|k: int| 0 <= k < i ==> a[k] == b[k],
    ensures
        lex_lt(a, b) == lex_lt(a.skip(i), b.skip(i)),
    decreases i,
{
    if i > 0 {
        assert(a[0] == b[0]);
        lemma_lex_skip(a.drop_first(), b.drop_first(), i - 1);
        assert(a.drop_first().skip(i - 1) =~= a.skip(i));
        assert(b.drop_first().skip(i - 1) =~= b.skip(i));
    } else {
        assert(a.skip(0) =~= a);
        assert(b.skip(0) =~= b);
    }
}

/// Why a string was rejected as a task label.
#[derive(Debug, Clone, Copy, PartialEq, Eq)]
pub enum LabelError {
    /// The string is empty.
    Empty,
    /// The string has more than [`TaskLabel::MAX_LEN`] characters.
    TooLong,
    /// The string contains a white-space character.
    Whitespace,
}

impl LabelError {
    /// A user-facing description of the rejection of `text` as a label.
    pub fn message(&self, text: &str) -> (r: String)
        ensures
            *self is Empty ==> r@ == "Empty strings cannot be labels"@,
            *self is TooLong ==> r@ == "Labels cannot have more than 70 characters: "@ + text@,
            *self is Whitespace ==> r@ == "Labels cannot have whitespace characters: "@ + text@,
    {
        match self {
            LabelError::Empty => String::from_str("Empty strings cannot be labels"),
            LabelError::TooLong => {
                let mut s = String::from_str("Labels cannot have more than 70 characters: ");
                s.append(text);
                s
            },
            LabelError::Whitespace => {
                let mut s = String::from_str("Labels cannot have whitespace characters: ");
                s.append(text);
                s
            },
        }
    }
}

/// A validated task identifier.  Equality and ordering are those of the
/// underlying text.
#[derive(Debug, PartialEq, Eq, Hash)]
pub struct TaskLabel {
    text: String,
}

impl View for TaskLabel {
    type V = Seq<char>;

    closed spec fn view(&self) -> Seq<char> {
        self.text@
    }
}

impl Clone for TaskLabel {
    fn clone(&self) -> (r: Self)
        ensures
            r == *self,
    {
        TaskLabel { text: self.text.clone() }
    }
}

impl TaskLabel {
    /// The largest number of characters a label may have.
    pub const MAX_LEN: usize = 70;

    /// The label's invariant: its text is a valid label.
    pub open spec fn wf(&self) -> bool {
        valid_label(self@)
    }

    /// Validates `s` and wraps it as a label.  Fails exactly when `s` is
    /// empty, longer than [`TaskLabel::MAX_LEN`] characters, or contains a
    /// white-space character; the error names the first of these checks that
    /// failed, in that order.
    pub fn try_new(s: &str) -> (r: Result<TaskLabel, LabelError>)
        ensures
            r is Ok <==> valid_label(s@),
            r matches Ok(l) ==> l@ == s@ && l.wf(),
            s@.len() == 0 ==> r == Err::<TaskLabel, LabelError>(LabelError::Empty),
            s@.len() > TaskLabel::MAX_LEN as int ==> r == Err::<TaskLabel, LabelError>(
                LabelError::TooLong,
            ),
            r == Err::<TaskLabel, LabelError>(LabelError::Whitespace) ==> exists|i: int|
                0 <= i < s@.len() && whitespace_char(s@[i]),
    {
        let n = s.unicode_len();
        if n == 0 {
            return Err(LabelError::Empty);
        }
        if n > TaskLabel::MAX_LEN {
            return Err(LabelError::TooLong);
        }
        let mut i: usize = 0;
        while i < n
            invariant
                0 <= i <= n,
                n == s@.len(),
                0 < n <= TaskLabel::MAX_LEN,
                forall|j: int| 0 <= j < i ==> !whitespace_char(#[trigger] s@[j]),
            decreases n - i,
        {
            if is_whitespace_char(s.get_char(i)) {
                return Err(LabelError::Whitespace);
            }
            i += 1;
        }
        Ok(TaskLabel { text: s.to_owned() })
    }

    /// Wraps a string already known to be a valid label.
    pub fn new(s: &str) -> (r: TaskLabel)
        requires
            valid_label(s@),
        ensures
            r@ == s@,
            r.wf(),
    {
        TaskLabel { text: s.to_owned() }
    }

    /// The label's text.
    pub fn as_str(&self) -> (r: &str)
        ensures
            r@ == self@,
    {
        self.text.as_str()
    }

    /// Equality of the underlying texts.
    pub fn eq_label(&self, other: &TaskLabel) -> (r: bool)
        ensures
            r == (self@ == other@),
    {
        self.text == other.text
    }

    /// Whether this label orders strictly before `other`, lexicographically
    /// by code point.
    pub fn lt_label(&self, other: &TaskLabel) -> (r: bool)
        ensures
            r == lex_lt(self@, other@),
    {
        let sa = self.text.as_str();
        let sb = other.text.as_str();
        let na = sa.unicode_len();
        let nb = sb.unicode_len();
        let mut i: usize = 0;
        while i < na && i < nb
            invariant
                0 <= i <= na,
                0 <= i <= nb,
                na == self@.len(),
                nb == other@.len(),
                sa@ == self@,
                sb@ == other@,
                forall|k: int| 0 <= k < i ==> self@[k] == other@[k],
            decreases na - i,
        {
            let ca = sa.get_char(i);
            let cb = sb.get_char(i);
            if (ca as u32) < (cb as u32) {
                proof {
                    lemma_lex_skip(self@, other@, i as int);
                    assert(self@.skip(i as int)[0] == self@[i as int]);
                    assert(other@.skip(i as int)[0] == other@[i as int]);
                }
                return true;
            }
            if (cb as u32) < (ca as u32) {
                proof {
                    lemma_lex_skip(self@, other@, i as int);
                    assert(self@.skip(i as int)[0] == self@[i as int]);
                    assert(other@.skip(i as int)[0] == other@[i as int]);
                }
                return false;
            }
            proof {
                lemma_char_injective(ca, cb);
            }
            i += 1;
        }
        proof {
            lemma_lex_skip(self@, other@, i as int);
        }
        na < nb
    }
}

/// The mathematical content of a [`TaskOrder`]: the first label's text and,
/// when the order is a precedence edge, the second's.
pub ghost struct TaskOrderView {
    pub first: Seq<char>,
    pub second: Option<Seq<char>>,
}

/// A precedence declaration.  With a second label it reads "first must
/// precede second"; without one it declares first as a task of its own.
/// A task never precedes itself.
#[derive(Debug, PartialEq, Eq, Hash)]
pub struct TaskOrder {
    first: TaskLabel,
    second: Option<TaskLabel>,
}

impl View for TaskOrder {
    type V = TaskOrderView;

    closed spec fn view(&self) -> TaskOrderView {
        TaskOrderView {
            first: self.first@,
            second: match self.second {
                Some(l) => Some(l@),
                None => None,
            },
        }
    }
}

impl Clone for TaskOrder {
    fn clone(&self) -> (r: Self)
        ensures
            r == *self,
    {
        TaskOrder {
            first: self.first.clone(),
            second: match &self.second {
                Some(l) => Some(l.clone()),
                None => None,
            },
        }
    }
}

impl TaskOrder {
    /// The order's invariant: both labels are valid and distinct.
    pub open spec fn wf(&self) -> bool {
        valid_label(self@.first) && match self@.second {
            Some(t) => valid_label(t) && t != self@.first,
            None => true,
        }
    }

    /// The task that comes first.
    pub fn first(&self) -> (r: TaskLabel)
        ensures
            r@ == self@.first,
    {
        self.first.clone()
    }

    /// The task that must wait for the first, if the order is an edge.
    pub fn second(&self) -> (r: Option<TaskLabel>)
        ensures
            match r {
                Some(l) => self@.second == Some(l@),
                None => self@.second is None,
            },
    {
        match &self.second {
            Some(l) => Some(l.clone()),
            None => None,
        }
    }

    /// True when the order declares a standalone task.
    pub fn is_node(&self) -> (r: bool)
        ensures
            r == (self@.second is None),
    {
        match &self.second {
            Some(_) => false,
            None => true,
        }
    }
}

/// Builders for precedence declarations.
pub trait TaskRelation<R>: Sized {
    /// The label text the receiver stands for.
    spec fn own_text(&self) -> Seq<char>;

    /// The label text the argument stands for.
    spec fn other_text(r: &R) -> Seq<char>;

    /// Whether the receiver may stand as a label at all.
    spec fn own_ok(&self) -> bool;

    /// Whether the argument may stand as a label at all.
    spec fn other_ok(r: &R) -> bool;

    /// `self` must precede `right`.  The two labels must differ: a task
    /// never depends on itself.
    fn arrow(self, right: R) -> (o: TaskOrder)
        requires
            self.own_ok(),
            Self::other_ok(&right),
            self.own_text() != Self::other_text(&right),
        ensures
            o@.first == self.own_text(),
            o@.second == Some(Self::other_text(&right)),
            o.wf(),
    ;

    /// `self` stands alone, with no forced successor.
    fn node(self) -> (o: TaskOrder)
        requires
            self.own_ok(),
        ensures
            o@.first == self.own_text(),
            o@.second is None,
            o.wf(),
    ;
}

impl TaskRelation<TaskLabel> for TaskLabel {
    open spec fn own_text(&self) -> Seq<char> {
        self@
    }

    open spec fn other_text(r: &TaskLabel) -> Seq<char> {
        r@
    }

    open spec fn own_ok(&self) -> bool {
        self.wf()
    }

    open spec fn other_ok(r: &TaskLabel) -> bool {
        r.wf()
    }

    fn arrow(self, right: TaskLabel) -> (o: TaskOrder) {
        TaskOrder { first: self, second: Some(right) }
    }

    fn node(self) -> (o: TaskOrder) {
        TaskOrder { first: self, second: None }
    }
}

impl<'a> TaskRelation<&'a str> for &'a str {
    open spec fn own_text(&self) -> Seq<char> {
        self@
    }

    open spec fn other_text(r: &&'a str) -> Seq<char> {
        r@
    }

    open spec fn own_ok(&self) -> bool {
        valid_label(self@)
    }

    open spec fn other_ok(r: &&'a str) -> bool {
        valid_label(r@)
    }

    fn arrow(self, right: &'a str) -> (o: TaskOrder) {
        TaskOrder { first: TaskLabel::new(self), second: Some(TaskLabel::new(right)) }
    }

    fn node(self) -> (o: TaskOrder) {
        TaskOrder { first: TaskLabel::new(self), second: None }
    }
}

} // verus!
