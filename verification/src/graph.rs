//! Adjacency representation of the precedence relation.
//!
//! Tasks are numbered by the rank of their label in lexicographic order, so
//! that every later stage works over plain indices and the numbering is a
//! function of the set of declarations alone, not of the order they arrive
//! in.

use vstd::prelude::*;

use crate::task::lemma_lex_connex;
use crate::task::lemma_lex_irrefl;
use crate::task::lemma_lex_trans;
use crate::task::lex_lt;
use crate::task::valid_label;
use crate::task::TaskLabel;
use crate::task::TaskOrder;
use crate::task::TaskOrderView;

verus! {

broadcast use vstd::set::group_set_axioms;

/// Whether the declaration `o` names the text `t`, as either of its labels.
pub open spec fn mentions(o: TaskOrderView, t: Seq<char>) -> bool {
    o.first == t || o.second == Some(t)
}

/// Whether any declaration in `orders` names the text `t`.
pub open spec fn mentioned_in(orders: Seq<TaskOrder>, t: Seq<char>) -> bool {
    exists|k: int| 0 <= k < orders.len() && mentions(#[trigger] orders[k]@, t)
}

/// Whether `orders` declares that the task named `a` must precede the task
/// named `b`.
pub open spec fn declares_edge(orders: Seq<TaskOrder>, a: Seq<char>, b: Seq<char>) -> bool {
    exists|k: int|
        0 <= k < orders.len() && (#[trigger] orders[k]@).first == a && orders[k]@.second == Some(b)
}

/// The labels in `s` are in strictly increasing lexicographic order.
pub open spec fn labels_strictly_sorted(s: Seq<TaskLabel>) -> bool {
    forall|i: int, j: int| 0 <= i < j < s.len() ==> lex_lt(s[i]@, s[j]@)
}

/// Whether some label in `s` has text `t`.
pub open spec fn contains_text(s: Seq<TaskLabel>, t: Seq<char>) -> bool {
    exists|i: int| 0 <= i < s.len() && (#[trigger] s[i])@ == t
}

/// The position of the label with text `t` in `s`.
pub open spec fn idx_of(s: Seq<TaskLabel>, t: Seq<char>) -> int {
    choose|i: int| 0 <= i < s.len() && (#[trigger] s[i])@ == t
}

/// The indices in `s` are strictly increasing.
pub open spec fn ids_strictly_sorted(s: Seq<usize>) -> bool {
    forall|i: int, j: int| 0 <= i < j < s.len() ==> s[i] < s[j]
}

/// In a strictly sorted label sequence no text repeats, so positions with
/// equal text coincide.
pub proof fn lemma_sorted_unique(s: Seq<TaskLabel>, i: int, j: int)
    requires
        labels_strictly_sorted(s),
        0 <= i < s.len(),
        0 <= j < s.len(),
        s[i]@ == s[j]@,
    ensures
        i == j,
{
    if i < j {
        lemma_lex_irrefl(s[i]@);
    }
    if j < i {
        lemma_lex_irrefl(s[i]@);
    }
}

/// Whether consecutive entries of `p` are all edges of `g`; paths are
/// nonempty and run in precedence direction.
pub open spec fn is_path(g: Graph, p: Seq<usize>) -> bool {
    &&& p.len() > 0
    &&& forall|t: int| 0 <= t < p.len() ==> ((#[trigger] p[t]) as int) < g.n()
    &&& forall|t: int| 1 <= t < p.len() ==> g.edge(p[t - 1] as int, (#[trigger] p[t]) as int)
}

/// Task `v` has no predecessor.
pub open spec fn is_source(g: Graph, v: int) -> bool {
    0 <= v < g.n() && forall|u: int| !g.edge(u, v)
}

/// Task `v` has no successor.
pub open spec fn is_sink(g: Graph, v: int) -> bool {
    0 <= v < g.n() && forall|w: int| !g.edge(v, w)
}

/// A path from a task without predecessors to one without successors.
pub open spec fn complete_path(g: Graph, p: Seq<usize>) -> bool {
    is_path(g, p) && is_source(g, p[0] as int) && is_sink(g, p.last() as int)
}

/// A closed walk: at least two entries, consecutive entries are edges,
/// and the walk returns to its start.
pub open spec fn is_cycle(g: Graph, p: Seq<usize>) -> bool {
    p.len() >= 2 && is_path(g, p) && p[0] == p.last()
}

/// The precedence relation admits a closed walk.
pub open spec fn cyclic(g: Graph) -> bool {
    exists|p: Seq<usize>| #[trigger] is_cycle(g, p)
}

/// A walk through the declared edges, as label texts.
pub open spec fn text_path(orders: Seq<TaskOrder>, p: Seq<Seq<char>>) -> bool {
    p.len() >= 2 && forall|t: int|
        1 <= t < p.len() ==> declares_edge(orders, p[t - 1], #[trigger] p[t])
}

/// The declared edges close a cycle: some walk of labels returns to its
/// start.
pub open spec fn cyclic_orders(orders: Seq<TaskOrder>) -> bool {
    exists|p: Seq<Seq<char>>| #[trigger] text_path(orders, p) && p[0] == p.last()
}

/// An index cycle of the graph names a label cycle of the declarations.
pub proof fn lemma_cycle_to_texts(g: Graph, orders: Seq<TaskOrder>, q: Seq<usize>)
    requires
        g.wf(),
        g.represents(orders),
        is_cycle(g, q),
    ensures
        cyclic_orders(orders),
{
    let p = Seq::new(q.len(), |t: int| g.labels@[q[t] as int]@);
    assert forall|t: int| 1 <= t < p.len() implies declares_edge(
        orders,
        p[t - 1],
        #[trigger] p[t],
    ) by {
        assert(g.edge(q[t - 1] as int, q[t] as int));
    }
    assert(text_path(orders, p));
    assert(p[0] == p.last());
}

/// A label cycle of the declarations maps to an index cycle of the graph.
pub proof fn lemma_texts_to_cycle(g: Graph, orders: Seq<TaskOrder>, p: Seq<Seq<char>>)
    requires
        g.wf(),
        g.represents(orders),
        text_path(orders, p),
        p[0] == p.last(),
    ensures
        cyclic(g),
{
    let q = Seq::new(p.len(), |t: int| idx_of(g.labels@, p[t]) as usize);
    assert forall|t: int| 1 <= t < q.len() implies g.edge(
        q[t - 1] as int,
        (#[trigger] q[t]) as int,
    ) by {
        assert(declares_edge(orders, p[t - 1], p[t]));
        let k = choose|k: int|
            0 <= k < orders.len() && (#[trigger] orders[k]@).first == p[t - 1]
                && orders[k]@.second == Some(p[t]);
        assert(contains_text(g.labels@, orders[k]@.first));
        assert(contains_text(g.labels@, p[t]));
        vstd::std_specs::vec::axiom_spec_len(&g.labels);
        let i1 = idx_of(g.labels@, p[t - 1]);
        let i2 = idx_of(g.labels@, p[t]);
        assert(0 <= i1 < g.labels@.len());
        assert(0 <= i2 < g.labels@.len());
        assert(g.labels@.len() <= usize::MAX);
        assert(q[t - 1] == i1 as usize);
        assert(q[t] == i2 as usize);
        assert(g.edge(idx_of(g.labels@, orders[k]@.first), idx_of(g.labels@, p[t])));
        assert(idx_of(g.labels@, orders[k]@.first) == i1);
    }
    assert forall|t: int| 0 <= t < q.len() implies ((#[trigger] q[t]) as int) < g.n() by {
        if t >= 1 {
            assert(g.edge(q[t - 1] as int, q[t] as int));
        } else {
            assert(g.edge(q[0] as int, q[1] as int));
        }
    }
    assert(q[0] == q.last());
    assert(is_cycle(g, q));
}

/// Along any path, every edge raises the rank, so a longer path means a
/// strictly higher rank at the end.
pub proof fn lemma_walk_pos(g: Graph, pos: Map<int, nat>, p: Seq<usize>)
    requires
        g.wf(),
        forall|u: int, v: int| #[trigger] g.edge(u, v) ==> pos[u] < pos[v],
        is_path(g, p),
        p.len() >= 2,
    ensures
        pos[p[0] as int] < pos[p.last() as int],
    decreases p.len(),
{
    if p.len() == 2 {
        assert(g.edge(p[0] as int, p[1] as int));
    } else {
        let p2 = p.drop_last();
        assert forall|t: int| 1 <= t < p2.len() implies g.edge(
            p2[t - 1] as int,
            (#[trigger] p2[t]) as int,
        ) by {
            assert(p2[t] == p[t]);
            assert(p2[t - 1] == p[t - 1]);
            assert(g.edge(p[t - 1] as int, p[t] as int));
        }
        assert(is_path(g, p2));
        lemma_walk_pos(g, pos, p2);
        assert(p2.last() == p[p.len() - 2]);
        assert(g.edge(p[p.len() - 2] as int, p.last() as int));
    }
}

/// A relation whose edges all raise a rank admits no cycle.
pub proof fn lemma_pos_acyclic(g: Graph, pos: Map<int, nat>)
    requires
        g.wf(),
        forall|u: int, v: int| #[trigger] g.edge(u, v) ==> pos[u] < pos[v],
    ensures
        !cyclic(g),
{
    if cyclic(g) {
        let p = choose|p: Seq<usize>| #[trigger] is_cycle(g, p);
        lemma_walk_pos(g, pos, p);
    }
}

/// The total duration of the tasks on `p`, with `d[v]` the duration of `v`.
pub open spec fn path_dur(d: Seq<u16>, p: Seq<usize>) -> int
    decreases p.len(),
{
    if p.len() == 0 {
        0
    } else {
        path_dur(d, p.drop_last()) + d[p.last() as int]
    }
}

impl Graph {
    /// An empty successor list is the same as having no successors.
    pub proof fn lemma_sink_iff(&self, v: int)
        requires
            self.wf(),
            0 <= v < self.n(),
        ensures
            (self.adj@[v]@.len() == 0) <==> is_sink(*self, v),
    {
        if self.adj@[v]@.len() == 0 {
            assert forall|w: int| !self.edge(v, w) by {
                if self.edge(v, w) {
                    let k = choose|k: int|
                        0 <= k < self.adj@[v]@.len() && self.adj@[v]@[k] == w as usize;
                }
            }
        } else {
            let w = self.adj@[v]@[0];
            assert(self.adj@[v]@.contains(w));
            assert(self.edge(v, w as int));
        }
    }
}

/// The precedence relation over task indices: successor lists and the count
/// of incoming edges for every task.
pub struct Graph {
    /// All labels the declarations mention, in strictly increasing order.
    pub labels: Vec<TaskLabel>,
    /// `adj[i]` holds the indices of the tasks that task `i` precedes,
    /// strictly sorted.
    pub adj: Vec<Vec<usize>>,
    /// `indeg[j]` counts the tasks that precede task `j`.
    pub indeg: Vec<usize>,
}

impl Graph {
    /// Number of tasks.
    pub open spec fn n(&self) -> int {
        self.labels@.len() as int
    }

    /// Whether task `i` must precede task `j`.
    pub open spec fn edge(&self, i: int, j: int) -> bool {
        0 <= i < self.n() && 0 <= j < self.n() && self.adj@[i]@.contains(j as usize)
    }

    /// The set of tasks that must precede task `j`.
    pub open spec fn preds(&self, j: int) -> Set<int> {
        Set::new(|i: int| 0 <= i < self.n() && self.edge(i, j))
    }

    /// Structural soundness: sorted distinct labels, well-formed successor
    /// lists, no self-edges, and in-degrees that count the predecessors.
    pub open spec fn wf(&self) -> bool {
        &&& labels_strictly_sorted(self.labels@)
        &&& forall|i: int| 0 <= i < self.n() ==> valid_label((#[trigger] self.labels@[i])@)
        &&& self.adj@.len() == self.n()
        &&& self.indeg@.len() == self.n()
        &&& forall|i: int| 0 <= i < self.n() ==> ids_strictly_sorted((#[trigger] self.adj@[i])@)
        &&& forall|i: int, k: int|
            0 <= i < self.n() && 0 <= k < self.adj@[i]@.len() ==> (#[trigger] self.adj@[i]@[k])
                < self.n()
        &&& forall|i: int| !(#[trigger] self.edge(i, i))
        &&& forall|j: int|
            0 <= j < self.n() ==> (#[trigger] self.indeg@[j]) as int == self.preds(j).len()
    }

    /// The graph holds exactly the labels and the edges that `orders`
    /// declares.
    pub open spec fn represents(&self, orders: Seq<TaskOrder>) -> bool {
        &&& forall|k: int|
            0 <= k < orders.len() ==> contains_text(self.labels@, (#[trigger] orders[k]@).first)
        &&& forall|k: int|
            0 <= k < orders.len() ==> match (#[trigger] orders[k]@).second {
                Some(t) => contains_text(self.labels@, t),
                None => true,
            }
        &&& forall|i: int| 0 <= i < self.n() ==> mentioned_in(orders, (#[trigger] self.labels@[i])@)
        &&& forall|i: int, j: int|
            #[trigger] self.edge(i, j) ==> declares_edge(orders, self.labels@[i]@, self.labels@[j]@)
        &&& forall|k: int|
            0 <= k < orders.len() ==> match (#[trigger] orders[k]@).second {
                Some(t) => self.edge(
                    idx_of(self.labels@, orders[k]@.first),
                    idx_of(self.labels@, t),
                ),
                None => true,
            }
    }
}

/// Looks `t` up in `v` by text.
pub fn find_label(v: &Vec<TaskLabel>, t: &TaskLabel) -> (r: Option<usize>)
    ensures
        match r {
            Some(i) => i < v@.len() && v@[i as int]@ == t@,
            None => !contains_text(v@, t@),
        },
{
    let mut k: usize = 0;
    while k < v.len()
        invariant
            0 <= k <= v@.len(),
            forall|m: int| 0 <= m < k ==> (#[trigger] v@[m])@ != t@,
        decreases v@.len() - k,
    {
        if v[k].eq_label(t) {
            return Some(k);
        }
        k += 1;
    }
    None
}

/// Inserts a label with fresh text into a sorted vector, keeping it sorted.
pub(crate) fn insert_label_sorted(v: &mut Vec<TaskLabel>, l: TaskLabel)
    requires
        labels_strictly_sorted(old(v)@),
        !contains_text(old(v)@, l@),
    ensures
        labels_strictly_sorted(final(v)@),
        final(v)@.len() == old(v)@.len() + 1,
        contains_text(final(v)@, l@),
        forall|t: Seq<char>| contains_text(old(v)@, t) ==> contains_text(final(v)@, t),
        forall|i: int|
            0 <= i < final(v)@.len() ==> (#[trigger] final(v)@[i])@ == l@ || contains_text(
                old(v)@,
                final(v)@[i]@,
            ),
{
    let ghost s_old = v@;
    let mut k: usize = 0;
    while k < v.len()
        invariant_except_break
            v@ == s_old,
            0 <= k <= v@.len(),
            forall|m: int| 0 <= m < k ==> lex_lt((#[trigger] v@[m])@, l@),
        ensures
            v@ == s_old,
            0 <= k <= v@.len(),
            forall|m: int| 0 <= m < k ==> lex_lt((#[trigger] v@[m])@, l@),
            k < v@.len() ==> !lex_lt(v@[k as int]@, l@),
        decreases v@.len() - k,
    {
        if !v[k].lt_label(&l) {
            break;
        }
        k += 1;
    }
    proof {
        if (k as int) < s_old.len() {
            if s_old[k as int]@ == l@ {
                assert(contains_text(s_old, l@));
            }
            lemma_lex_connex(s_old[k as int]@, l@);
        }
    }
    v.insert(k, l);
    proof {
        let s_new = v@;
        assert forall|i: int, j: int| 0 <= i < j < s_new.len() implies lex_lt(
            s_new[i]@,
            s_new[j]@,
        ) by {
            let ki = k as int;
            if j < ki {
                assert(s_new[i] == s_old[i]);
                assert(s_new[j] == s_old[j]);
            } else if j == ki {
                assert(s_new[i] == s_old[i]);
                assert(s_new[j] == l);
            } else {
                assert(s_new[j] == s_old[j - 1]);
                if i < ki {
                    assert(s_new[i] == s_old[i]);
                    if i < j - 1 {
                        assert(lex_lt(s_old[i]@, s_old[j - 1]@));
                    } else {
                        assert(i == ki - 1 && j == ki + 1);
                        assert(lex_lt(s_old[i]@, l@));
                        assert(lex_lt(l@, s_old[ki]@));
                        lemma_lex_trans(s_old[i]@, l@, s_old[ki]@);
                    }
                } else if i == ki {
                    assert(s_new[i] == l);
                    assert(lex_lt(l@, s_old[ki]@));
                    if j - 1 > ki {
                        lemma_lex_trans(l@, s_old[ki]@, s_old[j - 1]@);
                    }
                } else {
                    assert(s_new[i] == s_old[i - 1]);
                    assert(lex_lt(s_old[i - 1]@, s_old[j - 1]@));
                }
            }
        }
        assert(s_new[k as int]@ == l@);
        assert forall|t: Seq<char>| contains_text(s_old, t) implies contains_text(s_new, t) by {
            let i = choose|i: int| 0 <= i < s_old.len() && (#[trigger] s_old[i])@ == t;
            if i < k as int {
                assert(s_new[i] == s_old[i]);
            } else {
                assert(s_new[i + 1] == s_old[i]);
            }
        }
        assert forall|i: int| 0 <= i < s_new.len() implies (#[trigger] s_new[i])@ == l@
            || contains_text(s_old, s_new[i]@) by {
            let ki = k as int;
            if i < ki {
                assert(s_new[i] == s_old[i]);
            } else if i > ki {
                assert(s_new[i] == s_old[i - 1]);
            }
        }
    }
}

/// Looks up the position of a text known to occur in `v`.
pub fn index_of_text(v: &Vec<TaskLabel>, t: &TaskLabel) -> (r: usize)
    requires
        contains_text(v@, t@),
    ensures
        r < v@.len(),
        v@[r as int]@ == t@,
{
    let mut k: usize = 0;
    while k < v.len()
        invariant
            0 <= k <= v@.len(),
            contains_text(v@, t@),
            forall|m: int| 0 <= m < k ==> (#[trigger] v@[m])@ != t@,
        decreases v@.len() - k,
    {
        if v[k].eq_label(t) {
            return k;
        }
        k += 1;
    }
    proof {
        assert(false);
    }
    0
}

/// Decides membership of `x` in `v`.
pub fn contains_id(v: &Vec<usize>, x: usize) -> (r: bool)
    ensures
        r == v@.contains(x),
{
    let mut k: usize = 0;
    while k < v.len()
        invariant
            0 <= k <= v@.len(),
            forall|m: int| 0 <= m < k ==> v@[m] != x,
        decreases v@.len() - k,
    {
        if v[k] == x {
            return true;
        }
        k += 1;
    }
    false
}

/// Inserts `x` into a strictly sorted vector of indices, keeping it sorted;
/// inserting a present element changes nothing.
fn insert_id_sorted(v: &mut Vec<usize>, x: usize)
    requires
        ids_strictly_sorted(old(v)@),
    ensures
        ids_strictly_sorted(final(v)@),
        forall|y: usize| final(v)@.contains(y) <==> (old(v)@.contains(y) || y == x),
{
    let ghost s_old = v@;
    let mut k: usize = 0;
    while k < v.len()
        invariant_except_break
            v@ == s_old,
            0 <= k <= v@.len(),
            forall|m: int| 0 <= m < k ==> v@[m] < x,
        ensures
            v@ == s_old,
            0 <= k <= v@.len(),
            forall|m: int| 0 <= m < k ==> v@[m] < x,
            k < v@.len() ==> v@[k as int] >= x,
        decreases v@.len() - k,
    {
        if v[k] >= x {
            break;
        }
        k += 1;
    }
    if k < v.len() {
        let here = v[k];
        if here == x {
            proof {
                assert(s_old.contains(x));
                assert forall|y: usize| s_old.contains(y) <==> (s_old.contains(y) || y == x) by {}
            }
            return;
        }
    }
    v.insert(k, x);
    proof {
        let s_new = v@;
        let ki = k as int;
        assert forall|i: int, j: int| 0 <= i < j < s_new.len() implies s_new[i] < s_new[j] by {
            if j < ki {
            } else if j == ki {
                assert(s_new[i] == s_old[i]);
            } else {
                assert(s_new[j] == s_old[j - 1]);
                if i < ki {
                    assert(s_new[i] == s_old[i]);
                } else if i == ki {
                    assert(s_old[ki] > x || ki == s_old.len());
                } else {
                    assert(s_new[i] == s_old[i - 1]);
                }
            }
        }
        assert forall|y: usize| s_new.contains(y) <==> (s_old.contains(y) || y == x) by {
            if s_new.contains(y) {
                let i = choose|i: int| 0 <= i < s_new.len() && s_new[i] == y;
                if i < ki {
                    assert(s_old[i] == y);
                } else if i > ki {
                    assert(s_old[i - 1] == y);
                }
            }
            if s_old.contains(y) {
                let i = choose|i: int| 0 <= i < s_old.len() && s_old[i] == y;
                if i < ki {
                    assert(s_new[i] == y);
                } else {
                    assert(s_new[i + 1] == y);
                }
            }
            if y == x {
                assert(s_new[ki] == y);
            }
        }
    }
}

/// Collects every label the declarations mention, in strictly increasing
/// lexicographic order, each once.
pub fn collect_labels(orders: &Vec<TaskOrder>) -> (v: Vec<TaskLabel>)
    requires
        forall|k: int| 0 <= k < orders@.len() ==> (#[trigger] orders@[k]).wf(),
    ensures
        labels_strictly_sorted(v@),
        forall|k: int|
            0 <= k < orders@.len() ==> contains_text(v@, (#[trigger] orders@[k]@).first),
        forall|k: int|
            0 <= k < orders@.len() ==> match (#[trigger] orders@[k]@).second {
                Some(t) => contains_text(v@, t),
                None => true,
            },
        forall|i: int| 0 <= i < v@.len() ==> mentioned_in(orders@, (#[trigger] v@[i])@),
        forall|i: int| 0 <= i < v@.len() ==> valid_label((#[trigger] v@[i])@),
{
    let mut v: Vec<TaskLabel> = Vec::new();
    let mut k: usize = 0;
    while k < orders.len()
        invariant
            0 <= k <= orders@.len(),
            forall|m: int| 0 <= m < orders@.len() ==> (#[trigger] orders@[m]).wf(),
            labels_strictly_sorted(v@),
            forall|m: int| 0 <= m < k ==> contains_text(v@, (#[trigger] orders@[m]@).first),
            forall|m: int|
                0 <= m < k ==> match (#[trigger] orders@[m]@).second {
                    Some(t) => contains_text(v@, t),
                    None => true,
                },
            forall|i: int| 0 <= i < v@.len() ==> mentioned_in(orders@, (#[trigger] v@[i])@),
            forall|i: int| 0 <= i < v@.len() ==> valid_label((#[trigger] v@[i])@),
        decreases orders@.len() - k,
    {
        let first = orders[k].first();
        if find_label(&v, &first).is_none() {
            proof {
                assert(mentions(orders@[k as int]@, first@));
            }
            insert_label_sorted(&mut v, first);
        }
        match orders[k].second() {
            Some(second) => {
                if find_label(&v, &second).is_none() {
                    proof {
                        assert(mentions(orders@[k as int]@, second@));
                    }
                    insert_label_sorted(&mut v, second);
                }
            },
            None => {},
        }
        k += 1;
    }
    v
}

/// The predecessors of `j` among the tasks below `m`, per adjacency `adj`.
pub open spec fn preds_upto(adj: Seq<Vec<usize>>, j: int, m: int) -> Set<int> {
    Set::new(|i: int| 0 <= i < m && adj[i]@.contains(j as usize))
}

/// The predecessor sets grow one element at a time and stay finite.
proof fn lemma_preds_upto_step(adj: Seq<Vec<usize>>, j: int, m: int)
    requires
        0 <= m < adj.len(),
    ensures
        adj[m]@.contains(j as usize) ==> preds_upto(adj, j, m + 1) =~= preds_upto(
            adj,
            j,
            m,
        ).insert(m),
        !adj[m]@.contains(j as usize) ==> preds_upto(adj, j, m + 1) =~= preds_upto(adj, j, m),
{
}

/// The predecessor sets are finite, with at most `m` elements.
proof fn lemma_preds_upto_finite(adj: Seq<Vec<usize>>, j: int, m: int)
    requires
        0 <= m <= adj.len(),
    ensures
        preds_upto(adj, j, m).finite(),
        preds_upto(adj, j, m).len() <= m,
    decreases m,
{
    if m == 0 {
        assert(preds_upto(adj, j, 0) =~= Set::<int>::empty());
    } else {
        lemma_preds_upto_finite(adj, j, m - 1);
        lemma_preds_upto_step(adj, j, m - 1);
    }
}

impl Graph {
    /// Builds the graph that the declarations describe: every mentioned
    /// label becomes a task, every "first precedes second" declaration an
    /// edge.  Repeated declarations of the same edge count once.
    pub fn new(orders: &Vec<TaskOrder>) -> (g: Graph)
        requires
            forall|k: int| 0 <= k < orders@.len() ==> (#[trigger] orders@[k]).wf(),
        ensures
            g.wf(),
            g.represents(orders@),
    {
        let labels = collect_labels(orders);
        let n = labels.len();
        let mut adj: Vec<Vec<usize>> = Vec::new();
        let mut i: usize = 0;
        while i < n
            invariant
                0 <= i <= n,
                n == labels@.len(),
                forall|k: int| 0 <= k < orders@.len() ==> (#[trigger] orders@[k]).wf(),
                labels_strictly_sorted(labels@),
                forall|k: int|
                    0 <= k < orders@.len() ==> contains_text(
                        labels@,
                        (#[trigger] orders@[k]@).first,
                    ),
                forall|k: int|
                    0 <= k < orders@.len() ==> match (#[trigger] orders@[k]@).second {
                        Some(t) => contains_text(labels@, t),
                        None => true,
                    },
                forall|p: int| 0 <= p < adj@.len() ==> mentioned_in(orders@, (#[trigger] labels@[p])@),
                forall|q: int| 0 <= q < labels@.len() ==> mentioned_in(orders@, (#[trigger] labels@[q])@),
                forall|q: int| 0 <= q < labels@.len() ==> valid_label((#[trigger] labels@[q])@),
                adj@.len() == i,
                forall|p: int| 0 <= p < i ==> ids_strictly_sorted((#[trigger] adj@[p])@),
                forall|p: int, q: usize|
                    0 <= p < i && (#[trigger] adj@[p]@.contains(q)) ==> q < n && p != q as int
                        && declares_edge(orders@, labels@[p]@, labels@[q as int]@),
                forall|k: int|
                    0 <= k < orders@.len() ==> match (#[trigger] orders@[k]@).second {
                        Some(t) => {
                            let p = idx_of(labels@, orders@[k]@.first);
                            p < i ==> adj@[p]@.contains(idx_of(labels@, t) as usize)
                        },
                        None => true,
                    },
            decreases n - i,
        {
            let mut row: Vec<usize> = Vec::new();
            let mut k: usize = 0;
            while k < orders.len()
                invariant
                    0 <= k <= orders@.len(),
                    0 <= i < n,
                    n == labels@.len(),
                    forall|m: int| 0 <= m < orders@.len() ==> (#[trigger] orders@[m]).wf(),
                    labels_strictly_sorted(labels@),
                    forall|m: int|
                        0 <= m < orders@.len() ==> contains_text(
                            labels@,
                            (#[trigger] orders@[m]@).first,
                        ),
                    forall|m: int|
                        0 <= m < orders@.len() ==> match (#[trigger] orders@[m]@).second {
                            Some(t) => contains_text(labels@, t),
                            None => true,
                        },
                    ids_strictly_sorted(row@),
                    forall|q: usize|
                        #[trigger] row@.contains(q) ==> q < n && q as int != i as int
                            && declares_edge(orders@, labels@[i as int]@, labels@[q as int]@),
                    forall|m: int|
                        0 <= m < k ==> match (#[trigger] orders@[m]@).second {
                            Some(t) => orders@[m]@.first == labels@[i as int]@ ==> row@.contains(
                                idx_of(labels@, t) as usize,
                            ),
                            None => true,
                        },
                decreases orders@.len() - k,
            {
                match orders[k].second() {
                    Some(second) => {
                        let first = orders[k].first();
                        if first.eq_label(&labels[i]) {
                            let j = index_of_text(&labels, &second);
                            proof {
                                lemma_sorted_unique(labels@, idx_of(labels@, second@), j as int);
                                if j as int == i as int {
                                    assert(orders@[k as int]@.second == Some(second@));
                                    assert(second@ != orders@[k as int]@.first);
                                }
                            }
                            insert_id_sorted(&mut row, j);
                            proof {
                                assert(declares_edge(
                                    orders@,
                                    labels@[i as int]@,
                                    labels@[j as int]@,
                                ));
                            }
                        }
                    },
                    None => {},
                }
                proof {
                    match orders@[k as int]@.second {
                        Some(t) => {
                            let p = idx_of(labels@, orders@[k as int]@.first);
                            if orders@[k as int]@.first == labels@[i as int]@ {
                                lemma_sorted_unique(labels@, p, i as int);
                            }
                        },
                        None => {},
                    }
                }
                k += 1;
            }
            adj.push(row);
            proof {
                assert forall|m: int| 0 <= m < orders@.len() implies match (
                #[trigger] orders@[m]@).second {
                    Some(t) => {
                        let p = idx_of(labels@, orders@[m]@.first);
                        p < i + 1 ==> adj@[p]@.contains(idx_of(labels@, t) as usize)
                    },
                    None => true,
                } by {
                    match orders@[m]@.second {
                        Some(t) => {
                            let p = idx_of(labels@, orders@[m]@.first);
                            if p < i as int {
                                assert(adj@[p] == adj@.subrange(0, i as int)[p]);
                            }
                        },
                        None => {},
                    }
                }
            }
            i += 1;
        }
        let mut indeg: Vec<usize> = Vec::new();
        let mut j: usize = 0;
        while j < n
            invariant
                0 <= j <= n,
                n == labels@.len(),
                adj@.len() == n,
                indeg@.len() == j,
                forall|q: int|
                    0 <= q < j ==> (#[trigger] indeg@[q]) as int == preds_upto(
                        adj@,
                        q,
                        n as int,
                    ).len(),
            decreases n - j,
        {
            let mut c: usize = 0;
            let mut p: usize = 0;
            proof {
                assert(preds_upto(adj@, j as int, 0) =~= Set::<int>::empty());
            }
            while p < n
                invariant
                    0 <= p <= n,
                    n == adj@.len(),
                    0 <= j < n,
                    preds_upto(adj@, j as int, p as int).finite(),
                    c as int == preds_upto(adj@, j as int, p as int).len(),
                    c <= p,
                decreases n - p,
            {
                proof {
                    lemma_preds_upto_step(adj@, j as int, p as int);
                    lemma_preds_upto_finite(adj@, j as int, p as int);
                }
                if contains_id(&adj[p], j) {
                    c += 1;
                }
                p += 1;
            }
            indeg.push(c);
            j += 1;
        }
        let g = Graph { labels, adj, indeg };
        proof {
            assert forall|jj: int| 0 <= jj < g.n() implies (#[trigger] g.indeg@[jj]) as int
                == g.preds(jj).len() by {
                assert(preds_upto(g.adj@, jj, g.n()) =~= g.preds(jj));
            }
            assert forall|ii: int| !(#[trigger] g.edge(ii, ii)) by {
                if 0 <= ii < g.n() {
                    assert(!g.adj@[ii]@.contains(ii as usize));
                }
            }
            assert forall|ii: int, kk: int|
                0 <= ii < g.n() && 0 <= kk < g.adj@[ii]@.len() implies (#[trigger] g.adj@[ii]@[kk])
                < g.n() by {
                assert(g.adj@[ii]@.contains(g.adj@[ii]@[kk]));
            }
            assert forall|ii: int, jj: int| #[trigger] g.edge(ii, jj) implies declares_edge(
                orders@,
                g.labels@[ii]@,
                g.labels@[jj]@,
            ) by {
                assert(g.adj@[ii]@.contains(jj as usize));
            }
            assert forall|k: int| 0 <= k < orders@.len() implies match (
            #[trigger] orders@[k]@).second {
                Some(t) => g.edge(idx_of(g.labels@, orders@[k]@.first), idx_of(g.labels@, t)),
                None => true,
            } by {
                match orders@[k]@.second {
                    Some(t) => {
                        let p = idx_of(g.labels@, orders@[k]@.first);
                        let q = idx_of(g.labels@, t);
                        assert(contains_text(g.labels@, orders@[k]@.first));
                        assert(contains_text(g.labels@, t));
                        assert(0 <= p < g.n());
                        assert(0 <= q < g.n());
                        assert(g.adj@[p]@.contains(q as usize));
                    },
                    None => {},
                }
            }
        }
        g
    }
}

} // verus!
