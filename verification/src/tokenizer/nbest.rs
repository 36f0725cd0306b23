//! N-best search over a lattice: a best-first search from EOS back to BOS
//! whose estimate of the cost still to come is the exact minimum cost that
//! each node holds, so that complete paths come out by increasing cost.
use vstd::prelude::*;

use crate::dictionary::connector::MatrixConnector;
use crate::tokenizer::lattice::{
    bellman, eos_ok, is_bos, is_complete_path, is_path, last_right, lemma_step_mono,
    lemma_step_succ, lemma_take_path, node_at, node_ok, path_cost, path_end, total_path_cost,
    valid_ref, via_cost, Lattice, Node, STEP_BOUND,
};

verus! {

/// The node that a search state stands at.
#[derive(Clone, Copy, PartialEq, Eq, Structural, Debug)]
pub enum StateNode {
    /// The end of the sentence, where the search starts.
    Eos,
    /// The beginning of the sentence: the state holds a complete path.
    Bos,
    /// The node at `(end, index)` of the lattice.
    Word(usize, usize),
}

/// A search state: a path from a node to EOS.
#[derive(Clone, Copy, PartialEq, Eq, Structural, Debug)]
pub struct SearchState {
    pub node: StateNode,
    /// The expanded state that this one extends.
    pub parent: usize,
    /// The cost from after the node to EOS.
    pub tail: i64,
    /// The cost of the best complete path through this state.
    pub estimate: i64,
}

/// The cost of going from a node with right id `r` through the nodes `s`
/// and then to EOS.
pub open spec fn suffix_cost(ends: Seq<Seq<Node>>, conn: &MatrixConnector, s: Seq<(int, int)>, r: int) -> int
    decreases s.len(),
{
    if s.len() == 0 {
        conn.spec_cost(r, 0)
    } else {
        let n = node_at(ends, s[0]);
        conn.spec_cost(r, n.left_id as int) + n.word_cost + suffix_cost(
            ends,
            conn,
            s.drop_first(),
            n.right_id as int,
        )
    }
}

/// `s` is a chain of nodes of the lattice, each starting where the previous
/// one ends, the last one ending where EOS starts.
pub open spec fn chain_to_eos(ends: Seq<Seq<Node>>, eos: Node, s: Seq<(int, int)>) -> bool {
    &&& forall|i: int| 0 <= i < s.len() ==> valid_ref(ends, #[trigger] s[i])
    &&& forall|i: int| 0 < i < s.len() ==> #[trigger] node_at(ends, s[i]).start_node == s[i - 1].0
    &&& s.len() > 0 ==> s.last().0 == eos.start_node
}

/// The state `st`, whose path to EOS is `s`, is consistent with the lattice.
pub open spec fn state_ok(
    ends: Seq<Seq<Node>>,
    conn: &MatrixConnector,
    eos: Node,
    len: int,
    st: SearchState,
    s: Seq<(int, int)>,
) -> bool {
    match st.node {
        StateNode::Eos => s.len() == 0 && st.tail == 0 && st.estimate == eos.min_cost,
        StateNode::Bos => {
            &&& is_complete_path(ends, eos, s)
            &&& st.tail == suffix_cost(ends, conn, s, 0)
            &&& st.estimate == st.tail
            &&& -(STEP_BOUND * (len + 1)) <= st.tail <= STEP_BOUND * (len + 1)
        },
        StateNode::Word(e, k) => {
            &&& valid_ref(ends, (e as int, k as int))
            &&& s.len() > 0
            &&& s[0] == (e as int, k as int)
            &&& chain_to_eos(ends, eos, s)
            &&& st.tail == suffix_cost(ends, conn, s.drop_first(), ends[e as int][k as int].right_id as int)
            &&& st.estimate == ends[e as int][k as int].min_cost + st.tail
            &&& -(STEP_BOUND * (len + 1 - e)) <= st.tail <= STEP_BOUND * (len + 1 - e)
        },
    }
}

/// The sum of the first `j` measures of the nodes ending at `s` (BOS counts
/// one).
pub open spec fn measure_list(ends: Seq<Seq<Node>>, s: int, j: int) -> nat
    decreases s, 2int, j,
{
    if s <= 0 {
        1
    } else if j <= 0 {
        0
    } else {
        measure_list(ends, s, j - 1) + measure_node(ends, s, j - 1)
    }
}

/// The number of paths from BOS to the node at `(e, k)` and of their
/// suffixes: the number of states that can still come from it.
pub open spec fn measure_node(ends: Seq<Seq<Node>>, e: int, k: int) -> nat
    decreases e, 1int, 0int,
{
    let s = ends[e][k].start_node as int;
    if 0 < e && s < e {
        1 + measure_list(ends, s, ends[s].len() as int)
    } else {
        1
    }
}

pub open spec fn measure_state(ends: Seq<Seq<Node>>, eos_start: int, n: StateNode) -> nat {
    match n {
        StateNode::Eos => 1 + measure_list(ends, eos_start, ends[eos_start].len() as int),
        StateNode::Bos => 1,
        StateNode::Word(e, k) => measure_node(ends, e as int, k as int),
    }
}

/// The measure of the states of the queue, which each step decreases.
pub open spec fn queue_measure(ends: Seq<Seq<Node>>, eos_start: int, q: Seq<SearchState>) -> nat
    decreases q.len(),
{
    if q.len() == 0 {
        0
    } else {
        queue_measure(ends, eos_start, q.drop_last()) + measure_state(ends, eos_start, q.last().node)
    }
}

proof fn lemma_queue_push(ends: Seq<Seq<Node>>, es: int, q: Seq<SearchState>, x: SearchState)
    ensures
        queue_measure(ends, es, q.push(x)) == queue_measure(ends, es, q) + measure_state(ends, es, x.node),
{
    assert(q.push(x).drop_last() =~= q);
}

proof fn lemma_queue_remove(ends: Seq<Seq<Node>>, es: int, q: Seq<SearchState>, i: int)
    requires
        0 <= i < q.len(),
    ensures
        queue_measure(ends, es, q.remove(i)) + measure_state(ends, es, q[i].node) == queue_measure(
            ends,
            es,
            q,
        ),
    decreases q.len(),
{
    if i == q.len() - 1 {
        assert(q.remove(i) =~= q.drop_last());
    } else {
        let d = q.drop_last();
        lemma_queue_remove(ends, es, d, i);
        assert(q.remove(i) =~= d.remove(i).push(q.last()));
        lemma_queue_push(ends, es, d.remove(i), q.last());
    }
}

/// Splitting a path: the cost from BOS through `p` and on through `q` to EOS.
proof fn lemma_suffix_split(ends: Seq<Seq<Node>>, conn: &MatrixConnector, p: Seq<(int, int)>, q: Seq<(int, int)>)
    ensures
        suffix_cost(ends, conn, p + q, 0) == path_cost(ends, conn, p) + suffix_cost(
            ends,
            conn,
            q,
            last_right(ends, p),
        ),
    decreases p.len(),
{
    if p.len() == 0 {
        assert(p + q =~= q);
    } else {
        let x = p.last();
        let pp = p.drop_last();
        let xq = seq![x] + q;
        assert(p + q =~= pp + xq);
        lemma_suffix_split(ends, conn, pp, xq);
        assert(xq[0] == x);
        assert(xq.drop_first() =~= q);
    }
}

/// The cost of a complete path read from its end is its total cost.
pub proof fn lemma_suffix_total(ends: Seq<Seq<Node>>, conn: &MatrixConnector, p: Seq<(int, int)>)
    ensures
        suffix_cost(ends, conn, p, 0) == total_path_cost(ends, conn, p),
{
    lemma_suffix_split(ends, conn, p, Seq::empty());
    assert(p + Seq::<(int, int)>::empty() =~= p);
}

/// `s` is what remains of `p` after one of its prefixes.
pub open spec fn is_suffix(s: Seq<(int, int)>, p: Seq<(int, int)>) -> bool {
    &&& s.len() <= p.len()
    &&& p.skip(p.len() - s.len()) == s
}

/// Some state of the queue, whose path to EOS is among `qs`, leads to `p`.
pub open spec fn queued(qs: Seq<Seq<(int, int)>>, p: Seq<(int, int)>) -> bool {
    exists|j: int| 0 <= j < qs.len() && is_suffix(#[trigger] qs[j], p)
}

/// `p` is one of the paths `outs`.
pub open spec fn found(outs: Seq<Seq<(int, int)>>, p: Seq<(int, int)>) -> bool {
    exists|i: int| 0 <= i < outs.len() && #[trigger] outs[i] == p
}

proof fn lemma_suffix_trans(a: Seq<(int, int)>, b: Seq<(int, int)>, c: Seq<(int, int)>)
    requires
        is_suffix(a, b),
        is_suffix(b, c),
    ensures
        is_suffix(a, c),
{
    assert(c.skip(c.len() - a.len()) =~= c.skip(c.len() - b.len()).skip(b.len() - a.len()));
}

/// A path to EOS is a suffix of itself extended by one node.
proof fn lemma_suffix_cons(x: (int, int), s: Seq<(int, int)>)
    ensures
        is_suffix(s, seq![x] + s),
        (seq![x] + s).drop_first() == s,
{
    assert((seq![x] + s).skip(1) =~= s);
    assert((seq![x] + s).drop_first() =~= s);
}

/// What is a suffix of `x` followed by `s` is a suffix of `s` or that whole
/// path.
proof fn lemma_suffix_of_cons(t: Seq<(int, int)>, x: (int, int), s: Seq<(int, int)>)
    requires
        is_suffix(t, seq![x] + s),
    ensures
        t.len() <= s.len() ==> is_suffix(t, s),
        t.len() > s.len() ==> t == seq![x] + s,
{
    let c = seq![x] + s;
    if t.len() <= s.len() {
        assert(c.skip(c.len() - t.len()) =~= s.skip(s.len() - t.len()));
    } else {
        assert(c.skip(0) =~= c);
    }
}

/// Two suffixes of one length are equal.
proof fn lemma_suffix_same_len(a: Seq<(int, int)>, b: Seq<(int, int)>)
    requires
        is_suffix(a, b),
        a.len() == b.len(),
    ensures
        a == b,
{
    assert(b.skip(0) =~= b);
}

proof fn lemma_suffix_refl(x: Seq<(int, int)>)
    ensures
        is_suffix(x, x),
{
    assert(x.skip(0) =~= x);
}

/// A path from BOS to EOS that ends another one is that one.
proof fn lemma_complete_suffix_eq(ends: Seq<Seq<Node>>, eos: Node, s: Seq<(int, int)>, p: Seq<(int, int)>)
    requires
        is_complete_path(ends, eos, s),
        is_complete_path(ends, eos, p),
        is_suffix(s, p),
    ensures
        s == p,
{
    let m = p.len() - s.len();
    if m > 0 {
        assert(s[0] == p[m]);
        assert(node_at(ends, p[m]).start_node == p[m - 1].0);
        assert(valid_ref(ends, p[m - 1]));
    } else {
        assert(p.skip(0) =~= p);
    }
}

/// A child of a state is unrelated to what that state is unrelated to.
proof fn lemma_child_unrelated(t: Seq<(int, int)>, c: Seq<(int, int)>, s: Seq<(int, int)>)
    requires
        !is_suffix(t, s),
        !is_suffix(s, t),
        c == s || c == seq![c[0]] + s,
    ensures
        !is_suffix(t, c),
        !is_suffix(c, t),
{
    if c == s {
    } else {
        lemma_suffix_cons(c[0], s);
        if is_suffix(c, t) {
            lemma_suffix_trans(s, c, t);
        }
        if is_suffix(t, c) {
            lemma_suffix_of_cons(t, c[0], s);
            if t.len() > s.len() {
                lemma_suffix_trans(s, c, t);
                lemma_suffix_refl(t);
            }
        }
    }
}

/// What a child of a state leads to, the state leads to.
proof fn lemma_child_suffix(c: Seq<(int, int)>, s: Seq<(int, int)>, p: Seq<(int, int)>)
    requires
        c == s || c == seq![c[0]] + s,
        is_suffix(c, p),
    ensures
        is_suffix(s, p),
{
    if c != s {
        lemma_suffix_cons(c[0], s);
        lemma_suffix_trans(s, c, p);
    }
}

impl Lattice {
    /// A state of the search costs at most any complete path it leads to:
    /// its estimate is a lower bound of their costs.
    pub proof fn lemma_cover_cost(
        &self,
        conn: &MatrixConnector,
        st: SearchState,
        s: Seq<(int, int)>,
        p: Seq<(int, int)>,
    )
        requires
            self.wf(conn),
            self.spec_eos() is Some,
            state_ok(self.spec_ends(), conn, self.spec_eos().unwrap(), self.spec_len(), st, s),
            is_suffix(s, p),
            is_complete_path(self.spec_ends(), self.spec_eos().unwrap(), p),
        ensures
            st.estimate <= total_path_cost(self.spec_ends(), conn, p),
    {
        let ends = self.spec_ends();
        let eos = self.spec_eos().unwrap();
        let m = p.len() - s.len();
        lemma_suffix_total(ends, conn, p);
        match st.node {
            StateNode::Eos => {
                self.lemma_viterbi_optimal(conn, p);
            },
            StateNode::Bos => {
                if m > 0 {
                    assert(s[0] == p[m]);
                    assert(node_at(ends, p[m]).start_node == p[m - 1].0);
                    assert(valid_ref(ends, p[m - 1]));
                } else {
                    assert(p.skip(0) =~= p);
                }
            },
            StateNode::Word(e, k) => {
                let p1 = p.take(m + 1);
                let q = p.skip(m + 1);
                assert(s[0] == p[m]);
                assert(q =~= s.drop_first());
                assert(p1 + q =~= p);
                lemma_suffix_split(ends, conn, p1, q);
                lemma_take_path(ends, p, m + 1);
                self.lemma_prefix_cost(conn, p1);
                assert(p1.last() == p[m]);
            },
        }
    }
}

/// A state of the queue: consistent, not cheaper than the last path found,
/// and extending the expanded state that it names.
pub open spec fn queue_entry_ok(
    ends: Seq<Seq<Node>>,
    conn: &MatrixConnector,
    eos: Node,
    len: int,
    arena: Seq<SearchState>,
    arena_s: Seq<Seq<(int, int)>>,
    last: int,
    st: SearchState,
    s: Seq<(int, int)>,
) -> bool {
    &&& state_ok(ends, conn, eos, len, st, s)
    &&& last <= st.estimate
    &&& st.node != StateNode::Eos ==> {
        &&& st.parent < arena.len()
        &&& match st.node {
            StateNode::Word(e, k) => s.drop_first() == arena_s[st.parent as int],
            _ => {
                &&& s == arena_s[st.parent as int]
                &&& arena[st.parent as int].node matches StateNode::Word(pe, pk) ==> ends[pe as int][pk as int].start_node == 0
                &&& arena[st.parent as int].node == StateNode::Eos ==> eos.start_node == 0
            },
        }
    }
}

/// The expanded states: EOS first, then nodes, each extending an earlier
/// state.
pub open spec fn arena_ok(
    ends: Seq<Seq<Node>>,
    conn: &MatrixConnector,
    eos: Node,
    len: int,
    arena: Seq<SearchState>,
    arena_s: Seq<Seq<(int, int)>>,
) -> bool {
    &&& arena_s.len() == arena.len()
    &&& arena.len() > 0 ==> arena[0].node == StateNode::Eos
    &&& forall|i: int| 0 <= i < arena.len() ==> state_ok(ends, conn, eos, len, #[trigger] arena[i], arena_s[i])
    &&& forall|i: int|
        0 < i < arena.len() ==> (#[trigger] arena[i]).parent < i && (arena[i].node is Word)
            && arena_s[i].drop_first() == arena_s[arena[i].parent as int]
}

impl Lattice {
    /// Proves that the measure of a node counts one more than its
    /// predecessors together.
    proof fn lemma_measure_node(&self, conn: &MatrixConnector, e: int, k: int)
        requires
            self.wf(conn),
            valid_ref(self.spec_ends(), (e, k)),
        ensures
            measure_node(self.spec_ends(), e, k) == 1 + measure_list(
                self.spec_ends(),
                self.spec_ends()[e][k].start_node as int,
                self.spec_ends()[self.spec_ends()[e][k].start_node as int].len() as int,
            ),
    {
        assert(node_ok(self.spec_ends(), conn, e, self.spec_ends()[e][k]));
    }

    /// Expands a state: pushes it to the expanded states and queues one
    /// state for each node that it may follow (BOS when it starts the
    /// sentence).
    fn expand(
        &self,
        conn: &MatrixConnector,
        queue: &mut Vec<SearchState>,
        arena: &mut Vec<SearchState>,
        st: SearchState,
        s_pop: Ghost<Seq<(int, int)>>,
        qs: Ghost<Seq<Seq<(int, int)>>>,
        arena_s: Ghost<Seq<Seq<(int, int)>>>,
        last: Ghost<int>,
    ) -> (r: (Ghost<Seq<Seq<(int, int)>>>, Ghost<Seq<Seq<(int, int)>>>))
        requires
            self.wf(conn),
            self.spec_eos() is Some,
            STEP_BOUND * (self.spec_len() + 1) <= STEP_BOUND * 0x1_0000_0001,
            st.node != StateNode::Bos,
            queue_entry_ok(
                self.spec_ends(),
                conn,
                self.spec_eos().unwrap(),
                self.spec_len(),
                old(arena)@,
                arena_s@,
                last@,
                st,
                s_pop@,
            ),
            st.node == StateNode::Eos ==> old(arena)@.len() == 0,
            st.node != StateNode::Eos ==> old(arena)@.len() > 0,
            qs@.len() == old(queue)@.len(),
            forall|i: int|
                0 <= i < old(queue)@.len() ==> queue_entry_ok(
                    self.spec_ends(),
                    conn,
                    self.spec_eos().unwrap(),
                    self.spec_len(),
                    old(arena)@,
                    arena_s@,
                    last@,
                    #[trigger] old(queue)@[i],
                    qs@[i],
                ) && old(queue)@[i].node != StateNode::Eos,
            arena_ok(self.spec_ends(), conn, self.spec_eos().unwrap(), self.spec_len(), old(arena)@, arena_s@),
        ensures
            r.0@.len() == final(queue)@.len(),
            forall|i: int|
                0 <= i < final(queue)@.len() ==> queue_entry_ok(
                    self.spec_ends(),
                    conn,
                    self.spec_eos().unwrap(),
                    self.spec_len(),
                    final(arena)@,
                    r.1@,
                    last@,
                    #[trigger] final(queue)@[i],
                    r.0@[i],
                ) && final(queue)@[i].node != StateNode::Eos,
            final(arena)@.len() > 0,
            arena_ok(self.spec_ends(), conn, self.spec_eos().unwrap(), self.spec_len(), final(arena)@, r.1@),
            queue_measure(self.spec_ends(), self.spec_eos().unwrap().start_node as int, final(queue)@)
                < queue_measure(self.spec_ends(), self.spec_eos().unwrap().start_node as int, old(queue)@)
                + measure_state(self.spec_ends(), self.spec_eos().unwrap().start_node as int, st.node),
            r.0@.len() >= qs@.len(),
            forall|i: int| 0 <= i < qs@.len() ==> #[trigger] r.0@[i] == qs@[i],
            forall|i: int|
                qs@.len() <= i < r.0@.len() ==> #[trigger] r.0@[i] == s_pop@ || r.0@[i] == seq![
                    r.0@[i][0],
                ] + s_pop@,
            forall|i: int, j: int|
                qs@.len() <= i < r.0@.len() && qs@.len() <= j < r.0@.len() && i != j
                    ==> !is_suffix(#[trigger] r.0@[i], #[trigger] r.0@[j]),
            forall|p: Seq<(int, int)>|
                is_complete_path(self.spec_ends(), self.spec_eos().unwrap(), p) && is_suffix(
                    s_pop@,
                    p,
                ) ==> #[trigger] queued(r.0@, p),
    {
        let ghost ends = self.spec_ends();
        let ghost len = self.spec_len();
        let eos = self.eos().unwrap();
        let ghost es = eos.start_node as int;
        let ghost old_arena = arena@;
        let ghost q_in = queue@;
        let ghost mut qs = qs@;
        let ghost qs_in = qs;
        let ghost mut arena_s = arena_s@;
        let ghost old_as = arena_s;
        let idx = arena.len();
        arena.push(st);
        proof {
            arena_s = arena_s.push(s_pop@);
            assert forall|i: int| 0 <= i < arena@.len() implies state_ok(ends, conn, eos, len, #[trigger] arena@[i], arena_s[i]) by {
                if i < idx {
                    assert(arena@[i] == old_arena[i]);
                    assert(arena_s[i] == old_as[i]);
                    assert(state_ok(ends, conn, eos, len, old_arena[i], old_as[i]));
                }
            }
            assert forall|i: int| 0 < i < arena@.len() implies (#[trigger] arena@[i]).parent < i && (arena@[i].node is Word)
                && arena_s[i].drop_first() == arena_s[arena@[i].parent as int] by {
                if i < idx {
                    assert(arena@[i] == old_arena[i]);
                } else {
                    assert(arena@[i] == st);
                }
            }
            assert forall|i: int| 0 <= i < queue@.len() implies queue_entry_ok(
                ends,
                conn,
                eos,
                len,
                arena@,
                arena_s,
                last@,
                #[trigger] queue@[i],
                qs[i],
            ) && queue@[i].node != StateNode::Eos by {
                assert(queue_entry_ok(ends, conn, eos, len, old_arena, arena_s.drop_last(), last@, q_in[i], qs[i]));
                assert(arena_s.drop_last() =~= arena_s.take(idx as int));
                if queue@[i].node != StateNode::Eos {
                    assert(arena@[queue@[i].parent as int] == old_arena[queue@[i].parent as int]);
                }
            }
        }
        let (s, left_id, wc): (usize, u16, i16) = match st.node {
            StateNode::Word(e, k) => {
                let nd = self.node(e, k);
                (nd.start_node, nd.left_id, nd.word_cost)
            },
            _ => (eos.start_node, 0, 0),
        };
        proof {
            match st.node {
                StateNode::Word(e, k) => {
                    assert(node_ok(ends, conn, e as int, ends[e as int][k as int]));
                    lemma_step_mono(len + 1 - e, len - s);
                    lemma_step_succ(len - s);
                    self.lemma_measure_node(conn, e as int, k as int);
                },
                _ => {
                    assert(eos_ok(ends, conn, len, eos));
                    lemma_step_mono(1, len + 1 - s);
                },
            }
            lemma_step_mono(len + 1 - s, len + 1);
        }
        if s == 0 {
            proof {
                assert(is_bos(ends[0][0]));
                assert(via_cost(conn, ends[0][0], left_id, wc as int) >= st.estimate - st.tail);
            }
            let tail = st.tail + wc as i64 + conn.cost(0, left_id) as i64;
            let child = SearchState { node: StateNode::Bos, parent: idx, tail, estimate: tail };
            let ghost q_before = queue@;
            queue.push(child);
            proof {
                lemma_queue_push(ends, es, q_before, child);
                qs = qs.push(s_pop@);
                let p = s_pop@;
                match st.node {
                    StateNode::Word(e, k) => {
                        assert(p[0] == (e as int, k as int));
                        assert(node_at(ends, p[0]).start_node == 0);
                        assert(p.len() > 0);
                    },
                    _ => {},
                }
                assert(suffix_cost(ends, conn, p, 0) == tail);
                assert forall|pp: Seq<(int, int)>|
                    is_complete_path(ends, eos, pp) && is_suffix(s_pop@, pp) implies #[trigger] queued(
                    qs,
                    pp,
                ) by {
                    assert(qs[qs.len() - 1] == s_pop@);
                }
                assert forall|i: int| 0 <= i < queue@.len() implies queue_entry_ok(
                    ends,
                    conn,
                    eos,
                    len,
                    arena@,
                    arena_s,
                    last@,
                    #[trigger] queue@[i],
                    qs[i],
                ) && queue@[i].node != StateNode::Eos by {
                    if i < q_before.len() {
                        assert(queue@[i] == q_before[i]);
                    }
                }
            }
        } else {
            let cnt = self.num_nodes_at(s);
            let mut j: usize = 0;
            let ghost q_base = queue@;
            while j < cnt
                invariant
                    self.wf(conn),
                    ends == self.spec_ends(),
                    len == self.spec_len(),
                    Some(eos) == self.spec_eos(),
                    es == eos.start_node,
                    1 <= s <= len,
                    cnt == ends[s as int].len(),
                    j <= cnt,
                    left_id < conn.spec_num_left(),
                    idx < arena@.len(),
                    arena@[idx as int] == st,
                    arena_s[idx as int] == s_pop@,
                    arena@.len() > 0,
                    arena_ok(ends, conn, eos, len, arena@, arena_s),
                    state_ok(ends, conn, eos, len, st, s_pop@),
                    last@ <= st.estimate,
                    match st.node {
                        StateNode::Word(e, k) => {
                            &&& s == ends[e as int][k as int].start_node
                            &&& left_id == ends[e as int][k as int].left_id
                            &&& wc == ends[e as int][k as int].word_cost
                            &&& s < e
                            &&& bellman(conn, ends[s as int], left_id, wc as int, ends[e as int][k as int].min_idx as int, ends[e as int][k as int].min_cost as int)
                            &&& -(STEP_BOUND * (len - s)) <= st.tail <= STEP_BOUND * (len - s)
                        },
                        _ => {
                            &&& s == eos.start_node
                            &&& left_id == 0 && wc == 0
                            &&& bellman(conn, ends[s as int], 0, 0, eos.min_idx as int, eos.min_cost as int)
                        },
                    },
                    STEP_BOUND * (len - s) + 65536 == STEP_BOUND * (len + 1 - s),
                    65536 <= STEP_BOUND * (len + 1 - s) <= STEP_BOUND * 0x1_0000_0001,
                    qs.len() == queue@.len(),
                    forall|i: int|
                        0 <= i < queue@.len() ==> queue_entry_ok(
                            ends,
                            conn,
                            eos,
                            len,
                            arena@,
                            arena_s,
                            last@,
                            #[trigger] queue@[i],
                            qs[i],
                        ) && queue@[i].node != StateNode::Eos,
                    queue_measure(ends, es, queue@) == queue_measure(ends, es, q_base) + measure_list(
                        ends,
                        s as int,
                        j as int,
                    ),
                    qs.len() == qs_in.len() + j,
                    forall|i: int| 0 <= i < qs_in.len() ==> #[trigger] qs[i] == qs_in[i],
                    forall|jj: int| 0 <= jj < j ==> #[trigger] qs[qs_in.len() + jj] == seq![(s as int, jj)] + s_pop@,
                decreases cnt - j,
            {
                let q = self.node(s, j);
                proof {
                    self.lemma_right_ids(conn, s as int, j as int);
                    assert(node_ok(ends, conn, s as int, ends[s as int][j as int]));
                    lemma_step_mono(s as int, len + 1);
                    lemma_step_mono(len + 1 - s, len + 1);
                    assert(via_cost(conn, ends[s as int][j as int], left_id, wc as int) >= st.estimate - st.tail);
                }
                let tail = st.tail + wc as i64 + conn.cost(q.right_id, left_id) as i64;
                let child = SearchState {
                    node: StateNode::Word(s, j),
                    parent: idx,
                    tail,
                    estimate: q.min_cost + tail,
                };
                let ghost q_before = queue@;
                queue.push(child);
                proof {
                    lemma_queue_push(ends, es, q_before, child);
                    let cs = seq![(s as int, j as int)] + s_pop@;
                    let ghost qs_prev = qs;
                    qs = qs.push(cs);
                    assert forall|jj: int| 0 <= jj < j + 1 implies #[trigger] qs[qs_in.len() + jj] == seq![(s as int, jj)] + s_pop@ by {
                        if jj < j {
                            assert(qs[qs_in.len() + jj] == qs_prev[qs_in.len() + jj]);
                        }
                    }
                    assert forall|i: int| 0 <= i < qs_in.len() implies #[trigger] qs[i] == qs_in[i] by {
                        assert(qs[i] == qs_prev[i]);
                    }
                    assert(cs.drop_first() =~= s_pop@);
                    assert(cs[0] == (s as int, j as int));
                    assert(valid_ref(ends, (s as int, j as int)));
                    assert(chain_to_eos(ends, eos, cs)) by {
                        assert forall|i: int| 0 <= i < cs.len() implies valid_ref(ends, #[trigger] cs[i]) by {
                            if i > 0 {
                                assert(cs[i] == s_pop@[i - 1]);
                            }
                        }
                        assert forall|i: int| 0 < i < cs.len() implies #[trigger] node_at(ends, cs[i]).start_node
                            == cs[i - 1].0 by {
                            assert(cs[i] == s_pop@[i - 1]);
                            if i > 1 {
                                assert(cs[i - 1] == s_pop@[i - 2]);
                            }
                        }
                        if s_pop@.len() > 0 {
                            assert(cs.last() == s_pop@.last());
                        }
                    }
                    assert(suffix_cost(ends, conn, s_pop@, q.right_id as int) == tail);
                    assert(state_ok(ends, conn, eos, len, child, cs));
                    assert forall|i: int| 0 <= i < queue@.len() implies queue_entry_ok(
                        ends,
                        conn,
                        eos,
                        len,
                        arena@,
                        arena_s,
                        last@,
                        #[trigger] queue@[i],
                        qs[i],
                    ) && queue@[i].node != StateNode::Eos by {
                        if i < q_before.len() {
                            assert(queue@[i] == q_before[i]);
                        }
                    }
                }
                j += 1;
            }
            proof {
                assert forall|i: int, k2: int|
                    qs_in.len() <= i < qs.len() && qs_in.len() <= k2 < qs.len() && i != k2
                        implies !is_suffix(#[trigger] qs[i], #[trigger] qs[k2]) by {
                    let a = i - qs_in.len();
                    let b = k2 - qs_in.len();
                    assert(qs[qs_in.len() + a] == seq![(s as int, a)] + s_pop@);
                    assert(qs[qs_in.len() + b] == seq![(s as int, b)] + s_pop@);
                    if is_suffix(qs[i], qs[k2]) {
                        lemma_suffix_same_len(qs[i], qs[k2]);
                        assert(qs[i][0] == qs[k2][0]);
                    }
                }
                assert forall|i: int| qs_in.len() <= i < qs.len() implies #[trigger] qs[i] == s_pop@
                    || qs[i] == seq![qs[i][0]] + s_pop@ by {
                    let a = i - qs_in.len();
                    assert(qs[qs_in.len() + a] == seq![(s as int, a)] + s_pop@);
                }
                assert forall|pp: Seq<(int, int)>|
                    is_complete_path(ends, eos, pp) && is_suffix(s_pop@, pp) implies #[trigger] queued(
                    qs,
                    pp,
                ) by {
                    let m = pp.len() - s_pop@.len();
                    match st.node {
                        StateNode::Word(e, k) => {
                            assert(s_pop@[0] == pp[m]);
                            if m == 0 {
                                assert(node_at(ends, pp[0]).start_node == 0);
                            }
                            assert(node_at(ends, pp[m]).start_node == pp[m - 1].0);
                        },
                        _ => {
                            if m == 0 {
                                assert(path_end(pp) == 0);
                            }
                            assert(pp.last() == pp[m - 1]);
                        },
                    }
                    let x = pp[m - 1];
                    assert(valid_ref(ends, pp[m - 1]));
                    assert(x.0 == s);
                    let c = qs_in.len() + x.1;
                    assert(qs[c] == seq![(s as int, x.1)] + s_pop@);
                    assert(pp.skip(m - 1) =~= seq![x] + s_pop@);
                    assert(is_suffix(qs[c], pp));
                }
            }
        }
        (Ghost(qs), Ghost(arena_s))
    }

    /// Searches the `n` best paths from BOS to EOS, by increasing cost; each
    /// comes with its nodes in order and its cost.
    pub fn nbest_paths(&self, conn: &MatrixConnector, n: usize) -> (r: (
        Vec<(Vec<(usize, Node)>, i64)>,
        Ghost<Seq<Seq<(int, int)>>>,
    ))
        requires
            self.wf(conn),
            self.spec_eos() is Some,
        ensures
            r.0@.len() == r.1@.len(),
            r.0@.len() <= n,
            forall|i: int|
                0 <= i < r.0@.len() ==> {
                    &&& is_complete_path(self.spec_ends(), self.spec_eos().unwrap(), #[trigger] r.1@[i])
                    &&& r.0@[i].0@.len() == r.1@[i].len()
                    &&& forall|j: int|
                        0 <= j < r.1@[i].len() ==> #[trigger] r.0@[i].0@[j] == (
                            r.1@[i][j].0 as usize,
                            node_at(self.spec_ends(), r.1@[i][j]),
                        )
                    &&& r.0@[i].1 == total_path_cost(self.spec_ends(), conn, r.1@[i])
                },
            forall|i: int, j: int|
                0 <= i <= j < r.0@.len() ==> self.spec_eos().unwrap().min_cost <= #[trigger] r.0@[i].1
                    <= #[trigger] r.0@[j].1,
            forall|i: int, j: int| 0 <= i < j < r.1@.len() ==> #[trigger] r.1@[i] != #[trigger] r.1@[j],
            forall|p: Seq<(int, int)>|
                is_complete_path(self.spec_ends(), self.spec_eos().unwrap(), p) && !found(r.1@, p)
                    ==> r.0@.len() == n && forall|i: int|
                    0 <= i < r.0@.len() ==> #[trigger] r.0@[i].1 <= total_path_cost(
                        self.spec_ends(),
                        conn,
                        p,
                    ),
    {
        let ghost ends = self.spec_ends();
        let ghost len = self.spec_len();
        let eos = self.eos().unwrap();
        let ghost es = eos.start_node as int;
        let mut queue: Vec<SearchState> = Vec::new();
        let mut arena: Vec<SearchState> = Vec::new();
        let mut out: Vec<(Vec<(usize, Node)>, i64)> = Vec::new();
        let ghost mut qs: Seq<Seq<(int, int)>> = seq![Seq::empty()];
        let ghost mut arena_s: Seq<Seq<(int, int)>> = Seq::empty();
        let ghost mut outs: Seq<Seq<(int, int)>> = Seq::empty();
        let ghost mut last: int = eos.min_cost as int;
        queue.push(SearchState { node: StateNode::Eos, parent: 0, tail: 0, estimate: eos.min_cost });
        proof {
            lemma_step_mono(len + 1, 0x1_0000_0001);
            assert forall|p: Seq<(int, int)>| is_complete_path(ends, eos, p) implies found(outs, p)
                || queued(qs, p) by {
                assert(p.skip(p.len() as int) =~= Seq::<(int, int)>::empty());
                assert(is_suffix(qs[0], p));
            }
        }
        while out.len() < n && queue.len() > 0
            invariant
                self.wf(conn),
                ends == self.spec_ends(),
                len == self.spec_len(),
                Some(eos) == self.spec_eos(),
                es == eos.start_node,
                STEP_BOUND * (len + 1) <= STEP_BOUND * 0x1_0000_0001,
                qs.len() == queue@.len(),
                forall|i: int|
                    0 <= i < queue@.len() ==> queue_entry_ok(
                        ends,
                        conn,
                        eos,
                        len,
                        arena@,
                        arena_s,
                        last,
                        #[trigger] queue@[i],
                        qs[i],
                    ),
                forall|i: int|
                    0 <= i < queue@.len() ==> (#[trigger] queue@[i]).node == StateNode::Eos ==> i == 0
                        && queue@.len() == 1 && arena@.len() == 0,
                forall|i: int| 0 <= i < queue@.len() ==> (#[trigger] queue@[i]).node != StateNode::Eos
                    ==> arena@.len() > 0,
                arena_ok(ends, conn, eos, len, arena@, arena_s),
                outs.len() == out@.len(),
                out@.len() <= n,
                forall|i: int|
                    0 <= i < out@.len() ==> {
                        &&& is_complete_path(ends, eos, #[trigger] outs[i])
                        &&& out@[i].0@.len() == outs[i].len()
                        &&& forall|j: int|
                            0 <= j < outs[i].len() ==> #[trigger] out@[i].0@[j] == (
                                outs[i][j].0 as usize,
                                node_at(ends, outs[i][j]),
                            )
                        &&& out@[i].1 == total_path_cost(ends, conn, outs[i])
                    },
                forall|i: int, j: int|
                    0 <= i <= j < out@.len() ==> eos.min_cost <= #[trigger] out@[i].1 <= #[trigger] out@[j].1,
                forall|i: int| 0 <= i < out@.len() ==> #[trigger] out@[i].1 <= last,
                eos.min_cost <= last,
                forall|i: int, j: int|
                    0 <= i < qs.len() && 0 <= j < qs.len() && i != j ==> !is_suffix(
                        #[trigger] qs[i],
                        #[trigger] qs[j],
                    ),
                forall|i: int, j: int|
                    0 <= i < outs.len() && 0 <= j < qs.len() ==> !is_suffix(#[trigger] qs[j], #[trigger] outs[i]),
                forall|p: Seq<(int, int)>|
                    is_complete_path(ends, eos, p) ==> found(outs, p) || #[trigger] queued(qs, p),
                forall|i: int, j: int| 0 <= i < j < outs.len() ==> #[trigger] outs[i] != #[trigger] outs[j],
            decreases n - out@.len(), queue_measure(ends, es, queue@),
        {
            let mut best: usize = 0;
            let mut i: usize = 1;
            while i < queue.len()
                invariant
                    0 < queue@.len(),
                    best < i <= queue@.len(),
                    forall|j: int| 0 <= j < i ==> queue@[best as int].estimate <= #[trigger] queue@[j].estimate,
                decreases queue@.len() - i,
            {
                if queue[i].estimate < queue[best].estimate {
                    best = i;
                }
                i += 1;
            }
            let ghost q0 = queue@;
            let ghost qs0 = qs;
            let ghost s_pop = qs[best as int];
            let ghost outs0 = outs;
            let st = queue.remove(best);
            proof {
                lemma_queue_remove(ends, es, q0, best as int);
                qs = qs.remove(best as int);
                assert forall|j: int| 0 <= j < qs.len() implies #[trigger] qs[j] == qs0[if j < best {
                    j
                } else {
                    j + 1
                }] by {}
                assert forall|j: int| 0 <= j < qs.len() implies !is_suffix(#[trigger] qs[j], s_pop)
                    && !is_suffix(s_pop, qs[j]) by {
                    let j0 = if j < best {
                        j
                    } else {
                        j + 1
                    };
                    assert(qs[j] == qs0[j0]);
                }
                assert forall|i: int, j: int|
                    0 <= i < qs.len() && 0 <= j < qs.len() && i != j implies !is_suffix(
                        #[trigger] qs[i],
                        #[trigger] qs[j],
                    ) by {
                    let i0 = if i < best {
                        i
                    } else {
                        i + 1
                    };
                    let j0 = if j < best {
                        j
                    } else {
                        j + 1
                    };
                    assert(qs[i] == qs0[i0] && qs[j] == qs0[j0]);
                }
                assert forall|i: int, j: int|
                    0 <= i < outs.len() && 0 <= j < qs.len() implies !is_suffix(#[trigger] qs[j], #[trigger] outs[i]) by {
                    let j0 = if j < best {
                        j
                    } else {
                        j + 1
                    };
                    assert(qs[j] == qs0[j0]);
                }
                assert forall|p: Seq<(int, int)>| is_complete_path(ends, eos, p) implies found(outs, p)
                    || queued(qs, p) || is_suffix(s_pop, p) by {
                    assert(found(outs, p) || queued(qs0, p));
                    if !found(outs, p) {
                        let j0 = choose|j0: int| 0 <= j0 < qs0.len() && is_suffix(#[trigger] qs0[j0], p);
                        if j0 != best {
                            let j = if j0 < best {
                                j0
                            } else {
                                j0 - 1
                            };
                            assert(qs[j] == qs0[j0]);
                        }
                    }
                }
                assert forall|i: int| 0 <= i < outs.len() implies !is_suffix(s_pop, #[trigger] outs[i]) by {
                    assert(!is_suffix(qs0[best as int], outs[i]));
                }
                assert(queue_entry_ok(ends, conn, eos, len, arena@, arena_s, last, q0[best as int], qs0[best as int]));
                assert forall|j: int| 0 <= j < queue@.len() implies st.estimate <= #[trigger] queue@[j].estimate
                    && queue_entry_ok(ends, conn, eos, len, arena@, arena_s, last, queue@[j], qs[j])
                    && (queue@[j].node == StateNode::Eos ==> false)
                    && (queue@[j].node != StateNode::Eos ==> arena@.len() > 0) by {
                    if j < best {
                        assert(queue@[j] == q0[j]);
                        assert(qs[j] == qs0[j]);
                    } else {
                        assert(queue@[j] == q0[j + 1]);
                        assert(qs[j] == qs0[j + 1]);
                    }
                }
            }
            match st.node {
                StateNode::Bos => {
                    let mut nodes: Vec<(usize, Node)> = Vec::new();
                    let mut cur = st.parent;
                    let ghost p = s_pop;
                    while cur != 0
                        invariant
                            self.wf(conn),
                            ends == self.spec_ends(),
                            Some(eos) == self.spec_eos(),
                            arena_ok(ends, conn, eos, len, arena@, arena_s),
                            cur < arena@.len(),
                            is_complete_path(ends, eos, p),
                            nodes@.len() <= p.len(),
                            arena_s[cur as int] == p.skip(nodes@.len() as int),
                            forall|j: int| 0 <= j < nodes@.len() ==> #[trigger] nodes@[j] == (p[j].0 as usize, node_at(ends, p[j])),
                        decreases cur,
                    {
                        let a = arena[cur];
                        proof {
                            assert(state_ok(ends, conn, eos, len, arena@[cur as int], arena_s[cur as int]));
                        }
                        match a.node {
                            StateNode::Word(e, k) => {
                                let ghost m = nodes@.len() as int;
                                proof {
                                    assert(p.skip(m)[0] == p[m]);
                                }
                                let node = self.node(e, k);
                                nodes.push((e, node));
                                proof {
                                    assert(p.skip(m).drop_first() =~= p.skip(m + 1));
                                }
                                cur = a.parent;
                            },
                            _ => {
                                proof {
                                    assert(false);
                                }
                            },
                        }
                    }
                    proof {
                        assert(state_ok(ends, conn, eos, len, arena@[0], arena_s[0]));
                        assert(nodes@.len() == p.len());
                        lemma_suffix_total(ends, conn, p);
                        outs = outs.push(p);
                        last = st.estimate as int;
                    }
                    out.push((nodes, st.tail));
                    proof {
                        assert forall|i: int| 0 <= i < out@.len() implies {
                            &&& is_complete_path(ends, eos, #[trigger] outs[i])
                            &&& out@[i].0@.len() == outs[i].len()
                            &&& forall|j: int|
                                0 <= j < outs[i].len() ==> #[trigger] out@[i].0@[j] == (
                                    outs[i][j].0 as usize,
                                    node_at(ends, outs[i][j]),
                                )
                            &&& out@[i].1 == total_path_cost(ends, conn, outs[i])
                        } by {
                            if i == out@.len() - 1 {
                                assert(out@[i].0@ == nodes@);
                            }
                        }
                        assert forall|j: int| 0 <= j < queue@.len() implies queue_entry_ok(
                            ends,
                            conn,
                            eos,
                            len,
                            arena@,
                            arena_s,
                            last,
                            #[trigger] queue@[j],
                            qs[j],
                        ) by {}
                        assert(outs.last() == s_pop);
                        assert forall|i: int, j: int|
                            0 <= i < outs.len() && 0 <= j < qs.len() implies !is_suffix(
                                #[trigger] qs[j],
                                #[trigger] outs[i],
                            ) by {
                            if i < outs0.len() {
                                assert(outs[i] == outs0[i]);
                            }
                        }
                        assert forall|pp: Seq<(int, int)>|
                            is_complete_path(ends, eos, pp) implies found(outs, pp) || #[trigger] queued(
                            qs,
                            pp,
                        ) by {
                            if found(outs0, pp) {
                                let i = choose|i: int| 0 <= i < outs0.len() && #[trigger] outs0[i] == pp;
                                assert(outs[i] == outs0[i]);
                            } else if !queued(qs, pp) {
                                lemma_complete_suffix_eq(ends, eos, s_pop, pp);
                                assert(outs[outs.len() - 1] == pp);
                            }
                        }
                        assert forall|i: int, j: int| 0 <= i < j < outs.len() implies #[trigger] outs[i]
                            != #[trigger] outs[j] by {
                            if j == outs.len() - 1 {
                                assert(outs[i] == outs0[i]);
                                lemma_suffix_refl(s_pop);
                            } else {
                                assert(outs[i] == outs0[i] && outs[j] == outs0[j]);
                            }
                        }
                    }
                },
                _ => {
                    let (nqs, nas) = self.expand(
                        conn,
                        &mut queue,
                        &mut arena,
                        st,
                        Ghost(s_pop),
                        Ghost(qs),
                        Ghost(arena_s),
                        Ghost(last),
                    );
                    proof {
                        let qs1 = qs;
                        qs = nqs@;
                        arena_s = nas@;
                        assert forall|i: int, j: int|
                            0 <= i < qs.len() && 0 <= j < qs.len() && i != j implies !is_suffix(
                                #[trigger] qs[i],
                                #[trigger] qs[j],
                            ) by {
                            if i < qs1.len() && j < qs1.len() {
                                assert(qs[i] == qs1[i] && qs[j] == qs1[j]);
                            } else if i < qs1.len() {
                                assert(qs[i] == qs1[i]);
                                lemma_child_unrelated(qs1[i], qs[j], s_pop);
                            } else if j < qs1.len() {
                                assert(qs[j] == qs1[j]);
                                lemma_child_unrelated(qs1[j], qs[i], s_pop);
                            }
                        }
                        assert forall|i: int, j: int|
                            0 <= i < outs.len() && 0 <= j < qs.len() implies !is_suffix(
                                #[trigger] qs[j],
                                #[trigger] outs[i],
                            ) by {
                            if j < qs1.len() {
                                assert(qs[j] == qs1[j]);
                            } else if is_suffix(qs[j], outs[i]) {
                                lemma_child_suffix(qs[j], s_pop, outs[i]);
                            }
                        }
                        assert forall|pp: Seq<(int, int)>|
                            is_complete_path(ends, eos, pp) implies found(outs, pp) || #[trigger] queued(
                            qs,
                            pp,
                        ) by {
                            if !found(outs, pp) {
                                if queued(qs1, pp) {
                                    let j = choose|j: int| 0 <= j < qs1.len() && is_suffix(#[trigger] qs1[j], pp);
                                    assert(qs[j] == qs1[j]);
                                } else {
                                    assert(is_suffix(s_pop, pp));
                                }
                            }
                        }
                    }
                },
            }
        }
        proof {
            assert forall|p: Seq<(int, int)>|
                is_complete_path(ends, eos, p) && !found(outs, p) implies out@.len() == n && forall|i: int|
                0 <= i < out@.len() ==> #[trigger] out@[i].1 <= total_path_cost(ends, conn, p) by {
                assert(queued(qs, p));
                let j = choose|j: int| 0 <= j < qs.len() && is_suffix(#[trigger] qs[j], p);
                assert(queue_entry_ok(ends, conn, eos, len, arena@, arena_s, last, queue@[j], qs[j]));
                self.lemma_cover_cost(conn, queue@[j], qs[j], p);
            }
        }
        (out, Ghost(outs))
    }
}

} // verus!
