//! The lattice of candidate words and its shortest-path (Viterbi) search.
use vstd::prelude::*;

use crate::dictionary::connector::MatrixConnector;
use crate::dictionary::lexicon::WordParam;
use crate::dictionary::mapper::{counted, lemma_counted_len, ConnIdCounter};
use crate::dictionary::word_idx::{LexType, WordIdx};

verus! {

/// The bound on the absolute cost added by one word and its connection.
pub const STEP_BOUND: i64 = 65536;

/// A node of the lattice: a candidate word ending at the position of the
/// list that holds it.
#[derive(Clone, Copy, PartialEq, Eq, Structural, Debug)]
pub struct Node {
    pub word_id: u32,
    pub lex_type: LexType,
    /// Position of the previous boundary, before any skipped spaces.
    pub start_node: usize,
    /// Position where the word itself starts.
    pub start_word: usize,
    pub left_id: u16,
    pub right_id: u16,
    pub word_cost: i16,
    /// Index of the best previous node in the list at `start_node`.
    pub min_idx: usize,
    /// Minimum cost from BOS through this node, its word cost included.
    pub min_cost: i64,
}

impl Node {
    pub open spec fn word_idx_spec(&self) -> WordIdx {
        WordIdx { lex_type: self.lex_type, word_id: self.word_id }
    }

    pub fn word_idx(&self) -> (w: WordIdx)
        ensures
            w == self.word_idx_spec(),
    {
        WordIdx { lex_type: self.lex_type, word_id: self.word_id }
    }

    pub open spec fn param(&self) -> WordParam {
        WordParam { left_id: self.left_id, right_id: self.right_id, word_cost: self.word_cost }
    }
}

/// The node of the lattice that `r = (end, index)` refers to.
pub open spec fn node_at(ends: Seq<Seq<Node>>, r: (int, int)) -> Node {
    ends[r.0][r.1]
}

/// Whether `r` refers to a node of the lattice other than BOS.
pub open spec fn valid_ref(ends: Seq<Seq<Node>>, r: (int, int)) -> bool {
    &&& 1 <= r.0 < ends.len()
    &&& 0 <= r.1 < ends[r.0].len()
}

/// The cost of reaching a node with left id `left_id` and word cost `wc`
/// through the node `prev`.
pub open spec fn via_cost(conn: &MatrixConnector, prev: Node, left_id: u16, wc: int) -> int {
    prev.min_cost + conn.spec_cost(prev.right_id as int, left_id as int) + wc
}

/// Bellman's condition: a node with predecessor list `preds`, left id
/// `left_id` and word cost `wc` has the minimum over `preds` as its cost,
/// and its `min_idx` attains it.
pub open spec fn bellman(
    conn: &MatrixConnector,
    preds: Seq<Node>,
    left_id: u16,
    wc: int,
    min_idx: int,
    min_cost: int,
) -> bool {
    &&& 0 <= min_idx < preds.len()
    &&& min_cost == via_cost(conn, preds[min_idx], left_id, wc)
    &&& forall|j: int| 0 <= j < preds.len() ==> min_cost <= #[trigger] via_cost(conn, preds[j], left_id, wc)
}

/// Whether `n` stands for an unknown word.
pub open spec fn is_unknown(n: Node) -> bool {
    n.lex_type == LexType::Unknown
}

/// `j` is the predecessor that ties are broken to among `preds`, for a node
/// with left id `left_id` and word cost `wc`: of the predecessors of
/// minimum cost, the last one; with `prefer`, the last dictionary word if
/// there is one among them.
pub open spec fn tie_pick(
    conn: &MatrixConnector,
    preds: Seq<Node>,
    left_id: u16,
    wc: int,
    prefer: bool,
    j: int,
) -> bool {
    let c = via_cost(conn, preds[j], left_id, wc);
    &&& 0 <= j < preds.len()
    &&& forall|k: int| 0 <= k < preds.len() ==> c <= #[trigger] via_cost(conn, preds[k], left_id, wc)
    &&& forall|k: int|
        j < k < preds.len() && #[trigger] via_cost(conn, preds[k], left_id, wc) == c ==> prefer
            && is_unknown(preds[k]) && !is_unknown(preds[j])
    &&& prefer && is_unknown(preds[j]) ==> forall|k: int|
        0 <= k < j && #[trigger] via_cost(conn, preds[k], left_id, wc) == c ==> is_unknown(preds[k])
}

/// Every node (BOS aside) has as best predecessor the one that ties are
/// broken to.
pub open spec fn ties_ok(ends: Seq<Seq<Node>>, conn: &MatrixConnector, prefer: bool) -> bool {
    forall|e: int, k: int|
        1 <= e < ends.len() && 0 <= k < ends[e].len() ==> #[trigger] tie_pick(
            conn,
            ends[ends[e][k].start_node as int],
            ends[e][k].left_id,
            ends[e][k].word_cost as int,
            prefer,
            ends[e][k].min_idx as int,
        )
}

/// The conditions on a node held at end position `e`.
pub open spec fn node_ok(ends: Seq<Seq<Node>>, conn: &MatrixConnector, e: int, n: Node) -> bool {
    &&& n.start_node <= n.start_word < e
    &&& ends[n.start_node as int].len() > 0
    &&& n.left_id < conn.spec_num_left()
    &&& n.right_id < conn.spec_num_right()
    &&& bellman(conn, ends[n.start_node as int], n.left_id, n.word_cost as int, n.min_idx as int, n.min_cost as int)
    &&& -(STEP_BOUND * e) <= n.min_cost <= STEP_BOUND * e
}

/// The beginning-of-sentence node.
pub open spec fn is_bos(n: Node) -> bool {
    n.right_id == 0 && n.min_cost == 0
}

/// The lattice of a sentence.
pub struct Lattice {
    pub(crate) ends: Vec<Vec<Node>>,
    pub(crate) eos: Option<Node>,
    pub(crate) len_char: usize,
}

impl Lattice {
    /// The nodes, by end position; BOS is the only node at position 0.
    pub closed spec fn spec_ends(&self) -> Seq<Seq<Node>> {
        Seq::new(self.ends@.len(), |i: int| self.ends@[i]@)
    }

    pub closed spec fn spec_eos(&self) -> Option<Node> {
        self.eos
    }

    pub closed spec fn spec_len(&self) -> int {
        self.len_char as int
    }

    /// The lattice is well formed for the connector: BOS starts it, every
    /// node meets Bellman's condition, and so does EOS.
    pub open spec fn wf(&self, conn: &MatrixConnector) -> bool {
        let ends = self.spec_ends();
        &&& conn.wf()
        &&& ends.len() == self.spec_len() + 1
        &&& self.spec_len() <= u32::MAX
        &&& ends[0].len() == 1
        &&& is_bos(ends[0][0])
        &&& forall|e: int, k: int|
            1 <= e < ends.len() && 0 <= k < ends[e].len() ==> #[trigger] node_ok(
                ends,
                conn,
                e,
                ends[e][k],
            )
        &&& (self.spec_eos() matches Some(eos) ==> eos_ok(ends, conn, self.spec_len(), eos))
    }

    /// A lattice holding BOS only.
    pub fn new(len_char: usize) -> (l: Self)
        requires
            len_char <= u32::MAX,
        ensures
            l.spec_len() == len_char,
            l.spec_eos() is None,
            l.spec_ends().len() == len_char + 1,
            l.spec_ends()[0] == seq![bos_node()],
            forall|e: int| 1 <= e <= len_char ==> #[trigger] l.spec_ends()[e].len() == 0,
    {
        let mut ends: Vec<Vec<Node>> = Vec::new();
        let mut first: Vec<Node> = Vec::new();
        first.push(bos_node_exec());
        ends.push(first);
        let mut i: usize = 0;
        while i < len_char
            invariant
                i <= len_char,
                ends@.len() == i + 1,
                ends@[0]@ == seq![bos_node()],
                forall|e: int| 1 <= e < ends@.len() ==> #[trigger] ends@[e]@.len() == 0,
            decreases len_char - i,
        {
            ends.push(Vec::new());
            i += 1;
        }
        let l = Lattice { ends, eos: None, len_char };
        proof {
            assert(l.spec_ends()[0] == ends@[0]@);
        }
        l
    }

    pub proof fn lemma_new_wf(&self, conn: &MatrixConnector)
        requires
            conn.wf(),
            self.spec_len() <= u32::MAX,
            self.spec_eos() is None,
            self.spec_ends().len() == self.spec_len() + 1,
            self.spec_ends()[0] == seq![bos_node()],
            forall|e: int| 1 <= e <= self.spec_len() ==> #[trigger] self.spec_ends()[e].len() == 0,
        ensures
            self.wf(conn),
    {
    }

    pub fn len_char(&self) -> (n: usize)
        ensures
            n == self.spec_len(),
    {
        self.len_char
    }

    pub fn eos(&self) -> (r: Option<Node>)
        ensures
            r == self.spec_eos(),
    {
        self.eos
    }

    /// Whether a node ends at position `i`.
    pub fn has_previous_node(&self, i: usize) -> (b: bool)
        ensures
            b == (i < self.spec_ends().len() && self.spec_ends()[i as int].len() > 0),
    {
        if i < self.ends.len() {
            self.ends[i].len() > 0
        } else {
            false
        }
    }

    /// The number of nodes ending at `e`.
    pub fn num_nodes_at(&self, e: usize) -> (n: usize)
        requires
            e < self.spec_ends().len(),
        ensures
            n == self.spec_ends()[e as int].len(),
    {
        self.ends[e].len()
    }

    /// The node at `(e, k)`.
    pub fn node(&self, e: usize, k: usize) -> (n: Node)
        requires
            e < self.spec_ends().len(),
            k < self.spec_ends()[e as int].len(),
        ensures
            n == self.spec_ends()[e as int][k as int],
    {
        self.ends[e][k]
    }

    /// Finds the best previous node at `start_node` for a node with left id
    /// `left_id` and word cost `wc`. With `prefer_dictionary`, a tie keeps a
    /// dictionary word before an unknown word; otherwise the last best wins.
    pub fn search_min_node(
        &self,
        start_node: usize,
        left_id: u16,
        wc: i16,
        conn: &MatrixConnector,
        prefer_dictionary: bool,
    ) -> (r: (usize, i64))
        requires
            self.wf(conn),
            start_node <= self.spec_len(),
            self.spec_ends()[start_node as int].len() > 0,
            left_id < conn.spec_num_left(),
        ensures
            bellman(
                conn,
                self.spec_ends()[start_node as int],
                left_id,
                wc as int,
                r.0 as int,
                r.1 as int,
            ),
            -(STEP_BOUND * (start_node + 1)) <= r.1 <= STEP_BOUND * (start_node + 1),
            tie_pick(
                conn,
                self.spec_ends()[start_node as int],
                left_id,
                wc as int,
                prefer_dictionary,
                r.0 as int,
            ),
    {
        let ghost ends = self.spec_ends();
        let list = &self.ends[start_node];
        proof {
            assert(list@ == ends[start_node as int]);
            assert forall|j: int| 0 <= j < list@.len() implies -(STEP_BOUND * start_node)
                <= (#[trigger] list@[j]).min_cost <= STEP_BOUND * start_node && list@[j].right_id
                < conn.spec_num_right() by {
                if start_node == 0 {
                } else {
                    assert(node_ok(ends, conn, start_node as int, ends[start_node as int][j]));
                }
            }
        }
        let mut min_idx: usize = 0;
        let n0 = list[0];
        let mut min_cost: i64 = n0.min_cost + conn.cost(n0.right_id, left_id) as i64 + wc as i64;
        let mut min_unknown = n0.lex_type == LexType::Unknown;
        let mut i: usize = 1;
        proof {
            assert(STEP_BOUND * start_node + 65536 == STEP_BOUND * (start_node + 1));
            assert(list@.take(1)[0] == list@[0]);
        }
        while i < list.len()
            invariant
                list@ == ends[start_node as int],
                conn.wf(),
                left_id < conn.spec_num_left(),
                start_node <= u32::MAX,
                1 <= i <= list@.len(),
                forall|j: int|
                    0 <= j < list@.len() ==> -(STEP_BOUND * start_node) <= (
                    #[trigger] list@[j]).min_cost <= STEP_BOUND * start_node && list@[j].right_id
                        < conn.spec_num_right(),
                0 <= min_idx < i,
                min_cost == via_cost(conn, list@[min_idx as int], left_id, wc as int),
                min_unknown == (list@[min_idx as int].lex_type == LexType::Unknown),
                forall|j: int| 0 <= j < i ==> min_cost <= #[trigger] via_cost(conn, list@[j], left_id, wc as int),
                -(STEP_BOUND * (start_node + 1)) <= min_cost <= STEP_BOUND * (start_node + 1),
                tie_pick(conn, list@.take(i as int), left_id, wc as int, prefer_dictionary, min_idx as int),
            decreases list@.len() - i,
        {
            let n = list[i];
            let c = conn.cost(n.right_id, left_id) as i64;
            proof {
                assert(-(STEP_BOUND * start_node) <= list@[i as int].min_cost <= STEP_BOUND * start_node);
                lemma_step_mono(start_node as int, 0x1_0000_0000);
            }
            let new_cost = n.min_cost + c + wc as i64;
            let unknown_here = n.lex_type == LexType::Unknown;
            let replace = if new_cost < min_cost {
                true
            } else if new_cost == min_cost {
                !(prefer_dictionary && unknown_here && !min_unknown)
            } else {
                false
            };
            let ghost pre = list@.take(i as int);
            let ghost post = list@.take(i + 1);
            let ghost old_idx = min_idx as int;
            proof {
                assert forall|k: int| 0 <= k < post.len() implies #[trigger] post[k] == list@[k] by {}
                assert forall|k: int| 0 <= k < pre.len() implies #[trigger] pre[k] == list@[k] by {}
            }
            if replace {
                min_idx = i;
                min_cost = new_cost;
                min_unknown = unknown_here;
            }
            proof {
                let c = via_cost(conn, post[min_idx as int], left_id, wc as int);
                assert(c == min_cost);
                assert forall|k: int| 0 <= k < post.len() implies c <= #[trigger] via_cost(conn, post[k], left_id, wc as int) by {
                    if k < i {
                        assert(via_cost(conn, pre[k], left_id, wc as int) == via_cost(conn, post[k], left_id, wc as int));
                    }
                }
                assert forall|k: int|
                    min_idx < k < post.len() && #[trigger] via_cost(conn, post[k], left_id, wc as int) == c
                        implies prefer_dictionary && is_unknown(post[k]) && !is_unknown(post[min_idx as int]) by {
                    if k < i {
                        assert(via_cost(conn, pre[k], left_id, wc as int) == via_cost(conn, post[k], left_id, wc as int));
                        assert(pre[old_idx] == post[old_idx]);
                    }
                }
                if prefer_dictionary && is_unknown(post[min_idx as int]) {
                    assert forall|k: int|
                        0 <= k < min_idx && #[trigger] via_cost(conn, post[k], left_id, wc as int) == c
                            implies is_unknown(post[k]) by {
                        assert(via_cost(conn, pre[k], left_id, wc as int) == via_cost(conn, post[k], left_id, wc as int));
                        assert(pre[old_idx] == post[old_idx]);
                        if !replace {
                        } else if k != old_idx && k < old_idx {
                        }
                    }
                }
            }
            i += 1;
        }
        proof {
            assert(list@.take(list@.len() as int) =~= list@);
        }
        (min_idx, min_cost)
    }

    /// Adds a node for the word `word_idx` spanning `[start_word, end_word)`,
    /// preceded by the boundary `start_node`.
    pub fn insert_node(
        &mut self,
        start_node: usize,
        start_word: usize,
        end_word: usize,
        word_idx: WordIdx,
        param: WordParam,
        conn: &MatrixConnector,
        prefer_dictionary: bool,
    )
        requires
            old(self).wf(conn),
            start_node <= start_word < end_word <= old(self).spec_len(),
            old(self).spec_ends()[start_node as int].len() > 0,
            param.left_id < conn.spec_num_left(),
            param.right_id < conn.spec_num_right(),
            forall|e: int, k: int|
                1 <= e < old(self).spec_ends().len() && 0 <= k < old(self).spec_ends()[e].len()
                    ==> (#[trigger] old(self).spec_ends()[e][k]).start_node <= start_node,
            old(self).spec_eos() is None,
        ensures
            final(self).wf(conn),
            final(self).spec_len() == old(self).spec_len(),
            final(self).spec_eos() is None,
            final(self).spec_ends().len() == old(self).spec_ends().len(),
            forall|e: int| 0 <= e < old(self).spec_ends().len() && e != end_word ==> #[trigger] final(self).spec_ends()[e] == old(self).spec_ends()[e],
            exists|n: Node|
                final(self).spec_ends()[end_word as int] == old(self).spec_ends()[end_word as int].push(n)
                    && n.word_idx_spec() == word_idx && n.param() == param && n.start_node == start_node
                    && n.start_word == start_word && tie_pick(
                    conn,
                    old(self).spec_ends()[start_node as int],
                    n.left_id,
                    n.word_cost as int,
                    prefer_dictionary,
                    n.min_idx as int,
                ),
    {
        let (min_idx, min_cost) = self.search_min_node(
            start_node,
            param.left_id,
            param.word_cost,
            conn,
            prefer_dictionary,
        );
        let node = Node {
            word_id: word_idx.word_id,
            lex_type: word_idx.lex_type,
            start_node,
            start_word,
            left_id: param.left_id,
            right_id: param.right_id,
            word_cost: param.word_cost,
            min_idx,
            min_cost,
        };
        let ghost old_ends = self.spec_ends();
        let mut list: Vec<Node> = Vec::new();
        std::mem::swap(&mut list, &mut self.ends[end_word]);
        list.push(node);
        self.ends.set(end_word, list);
        proof {
            let ends = self.spec_ends();
            assert(ends[end_word as int] == old_ends[end_word as int].push(node));
            assert forall|e: int| 0 <= e < old_ends.len() && e != end_word implies #[trigger] ends[e] == old_ends[e] by {
                assert(ends[e] == self.ends@[e]@);
            }
            assert(ends[start_node as int] == old_ends[start_node as int]);
            assert(node_ok(ends, conn, end_word as int, node)) by {
                lemma_step_mono(start_node + 1, end_word as int);
                assert(bellman(conn, ends[start_node as int], node.left_id, node.word_cost as int, node.min_idx as int, node.min_cost as int));
            }
            assert forall|e: int, k: int|
                1 <= e < ends.len() && 0 <= k < ends[e].len() implies #[trigger] node_ok(
                ends,
                conn,
                e,
                ends[e][k],
            ) by {
                if e == end_word && k == old_ends[e].len() {
                } else {
                    let n = old_ends[e][k];
                    assert(ends[e][k] == n);
                    assert(node_ok(old_ends, conn, e, n));
                    assert(n.start_node <= start_node);
                    assert(ends[n.start_node as int] == old_ends[n.start_node as int]);
                }
            }
            assert(ends[0] == old_ends[0]);
            assert(node.word_idx_spec() == word_idx && node.param() == param);
            assert(self.spec_ends()[end_word as int] == old_ends[end_word as int].push(node));
        }
    }

    /// Adds EOS after the boundary `start_node`, if a node ends there.
    pub fn insert_eos(&mut self, start_node: usize, conn: &MatrixConnector, prefer_dictionary: bool)
        requires
            old(self).wf(conn),
            start_node <= old(self).spec_len(),
        ensures
            final(self).wf(conn),
            final(self).spec_len() == old(self).spec_len(),
            final(self).spec_ends() == old(self).spec_ends(),
            match final(self).spec_eos() {
                Some(eos) => eos.start_node == start_node && tie_pick(
                    conn,
                    old(self).spec_ends()[start_node as int],
                    0,
                    0,
                    prefer_dictionary,
                    eos.min_idx as int,
                ),
                None => old(self).spec_ends()[start_node as int].len() == 0,
            },
    {
        if self.ends[start_node].len() == 0 {
            proof {
                assert(self.spec_ends()[start_node as int] == self.ends@[start_node as int]@);
            }
            self.eos = None;
            return;
        }
        proof {
            assert(self.spec_ends()[start_node as int] == self.ends@[start_node as int]@);
        }
        let (min_idx, min_cost) = self.search_min_node(start_node, 0, 0, conn, prefer_dictionary);
        self.eos = Some(
            Node {
                word_id: u32::MAX,
                lex_type: LexType::System,
                start_node,
                start_word: self.len_char,
                left_id: 0,
                right_id: 0,
                word_cost: 0,
                min_idx,
                min_cost,
            },
        );
    }
}

/// Whether `p`, node references in sentence order, is a path of the lattice
/// starting right after BOS: each node starts where the previous one ends.
pub open spec fn is_path(ends: Seq<Seq<Node>>, p: Seq<(int, int)>) -> bool {
    &&& forall|i: int| 0 <= i < p.len() ==> valid_ref(ends, #[trigger] p[i])
    &&& forall|i: int| 0 < i < p.len() ==> #[trigger] node_at(ends, p[i]).start_node == p[i - 1].0
    &&& p.len() > 0 ==> node_at(ends, p[0]).start_node == 0
}

/// The position where the path ends (0 for the empty path).
pub open spec fn path_end(p: Seq<(int, int)>) -> int {
    if p.len() == 0 {
        0
    } else {
        p.last().0
    }
}

/// The right id at the end of the path (that of BOS for the empty path).
pub open spec fn last_right(ends: Seq<Seq<Node>>, p: Seq<(int, int)>) -> int {
    if p.len() == 0 {
        0
    } else {
        node_at(ends, p.last()).right_id as int
    }
}

/// The cost of a path from BOS: its word costs and connection costs.
pub open spec fn path_cost(ends: Seq<Seq<Node>>, conn: &MatrixConnector, p: Seq<(int, int)>) -> int
    decreases p.len(),
{
    if p.len() == 0 {
        0
    } else {
        let q = p.drop_last();
        let n = node_at(ends, p.last());
        path_cost(ends, conn, q) + conn.spec_cost(last_right(ends, q), n.left_id as int)
            + n.word_cost
    }
}

/// The cost of a path from BOS to EOS.
pub open spec fn total_path_cost(ends: Seq<Seq<Node>>, conn: &MatrixConnector, p: Seq<(int, int)>) -> int {
    path_cost(ends, conn, p) + conn.spec_cost(last_right(ends, p), 0)
}

/// Whether `p` is a path from BOS to EOS.
pub open spec fn is_complete_path(ends: Seq<Seq<Node>>, eos: Node, p: Seq<(int, int)>) -> bool {
    &&& is_path(ends, p)
    &&& path_end(p) == eos.start_node
}

/// Each node of `p` has the previous one (or BOS) as its best predecessor.
pub open spec fn chain_links(ends: Seq<Seq<Node>>, p: Seq<(int, int)>) -> bool {
    &&& p.len() > 0 ==> node_at(ends, p[0]).min_idx == 0
    &&& forall|i: int| 0 < i < p.len() ==> #[trigger] node_at(ends, p[i]).min_idx == p[i - 1].1
}

/// Whether `p` is the path found by following the best predecessors back
/// from EOS.
pub open spec fn is_best_chain(ends: Seq<Seq<Node>>, eos: Node, p: Seq<(int, int)>) -> bool {
    &&& is_complete_path(ends, eos, p)
    &&& chain_links(ends, p)
    &&& eos.min_idx == if p.len() == 0 {
        0
    } else {
        p.last().1
    }
}

proof fn lemma_prefix_path(ends: Seq<Seq<Node>>, p: Seq<(int, int)>)
    requires
        is_path(ends, p),
        p.len() > 0,
    ensures
        is_path(ends, p.drop_last()),
        chain_links(ends, p) ==> chain_links(ends, p.drop_last()),
{
    let q = p.drop_last();
    assert forall|i: int| 0 < i < q.len() implies #[trigger] node_at(ends, q[i]).start_node == q[i
        - 1].0 by {
        assert(q[i] == p[i] && q[i - 1] == p[i - 1]);
    }
    assert forall|i: int| 0 <= i < q.len() implies valid_ref(ends, #[trigger] q[i]) by {
        assert(q[i] == p[i]);
    }
    if chain_links(ends, p) {
        assert forall|i: int| 0 < i < q.len() implies #[trigger] node_at(ends, q[i]).min_idx == q[i
            - 1].1 by {
            assert(q[i] == p[i] && q[i - 1] == p[i - 1]);
        }
    }
}

impl Lattice {
    /// The last node of a path costs at most the path: its minimum cost is
    /// a lower bound of every path from BOS to it, and equal to that of the
    /// chain of best predecessors.
    pub proof fn lemma_prefix_cost(&self, conn: &MatrixConnector, p: Seq<(int, int)>)
        requires
            self.wf(conn),
            is_path(self.spec_ends(), p),
            p.len() > 0,
        ensures
            node_at(self.spec_ends(), p.last()).min_cost <= path_cost(self.spec_ends(), conn, p),
            chain_links(self.spec_ends(), p) ==> node_at(self.spec_ends(), p.last()).min_cost
                == path_cost(self.spec_ends(), conn, p),
        decreases p.len(),
    {
        let ends = self.spec_ends();
        let q = p.drop_last();
        let (e, k) = p.last();
        let n = ends[e][k];
        assert(valid_ref(ends, p[p.len() - 1]));
        assert(node_ok(ends, conn, e, ends[e][k]));
        assert(path_cost(ends, conn, p) == path_cost(ends, conn, q) + conn.spec_cost(
            last_right(ends, q),
            n.left_id as int,
        ) + n.word_cost);
        if p.len() == 1 {
            assert(path_cost(ends, conn, q) == 0);
            assert(last_right(ends, q) == 0);
            assert(n.start_node == 0);
            assert(via_cost(conn, ends[0][0], n.left_id, n.word_cost as int) >= n.min_cost);
            if chain_links(ends, p) {
                assert(n.min_idx == 0);
            }
        } else {
            lemma_prefix_path(ends, p);
            self.lemma_prefix_cost(conn, q);
            let (pe, pk) = q.last();
            assert(q.last() == p[p.len() - 2]);
            assert(node_at(ends, p[p.len() - 1]).start_node == p[p.len() - 2].0);
            assert(n.start_node == pe);
            assert(valid_ref(ends, p[p.len() - 2]));
            assert(last_right(ends, q) == ends[pe][pk].right_id);
            assert(via_cost(conn, ends[pe][pk], n.left_id, n.word_cost as int) >= n.min_cost);
            if chain_links(ends, p) {
                assert(node_at(ends, p[p.len() - 1]).min_idx == p[p.len() - 2].1);
                assert(n.min_idx == pk);
            }
        }
    }

    /// Viterbi's optimality: every path from BOS to EOS costs at least the
    /// minimum cost that EOS holds.
    pub proof fn lemma_viterbi_optimal(&self, conn: &MatrixConnector, p: Seq<(int, int)>)
        requires
            self.wf(conn),
            self.spec_eos() is Some,
            is_complete_path(self.spec_ends(), self.spec_eos().unwrap(), p),
        ensures
            self.spec_eos().unwrap().min_cost <= total_path_cost(self.spec_ends(), conn, p),
    {
        let ends = self.spec_ends();
        let eos = self.spec_eos().unwrap();
        if p.len() == 0 {
            assert(via_cost(conn, ends[0][0], 0, 0) >= eos.min_cost);
        } else {
            self.lemma_prefix_cost(conn, p);
            let (e, k) = p.last();
            assert(valid_ref(ends, p[p.len() - 1]));
            assert(via_cost(conn, ends[e][k], 0, 0) >= eos.min_cost);
        }
    }

    /// The chain of best predecessors from EOS costs exactly the minimum.
    pub proof fn lemma_best_chain_cost(&self, conn: &MatrixConnector, p: Seq<(int, int)>)
        requires
            self.wf(conn),
            self.spec_eos() is Some,
            is_best_chain(self.spec_ends(), self.spec_eos().unwrap(), p),
        ensures
            self.spec_eos().unwrap().min_cost == total_path_cost(self.spec_ends(), conn, p),
    {
        let ends = self.spec_ends();
        let eos = self.spec_eos().unwrap();
        if p.len() == 0 {
            assert(eos.min_cost == via_cost(conn, ends[0][0], 0, 0));
        } else {
            self.lemma_prefix_cost(conn, p);
            let (e, k) = p.last();
            assert(valid_ref(ends, p[p.len() - 1]));
            assert(eos.min_cost == via_cost(conn, ends[e][k], 0, 0));
        }
    }
}

/// `top` lists the nodes of `p` from the last to the first, with their ends.
pub open spec fn top_matches(ends: Seq<Seq<Node>>, top: Seq<(usize, Node)>, p: Seq<(int, int)>) -> bool {
    &&& top.len() == p.len()
    &&& forall|j: int|
        0 <= j < top.len() ==> #[trigger] top[j] == (
            p[p.len() - 1 - j].0 as usize,
            node_at(ends, p[p.len() - 1 - j]),
        )
}

impl Lattice {
    /// Follows the best predecessors back from EOS; returns the nodes met,
    /// from the last to the first, with the path they form.
    pub fn append_top_nodes(&self, conn: &MatrixConnector) -> (r: (
        Vec<(usize, Node)>,
        Ghost<Seq<(int, int)>>,
    ))
        requires
            self.wf(conn),
            self.spec_eos() is Some,
        ensures
            is_best_chain(self.spec_ends(), self.spec_eos().unwrap(), r.1@),
            top_matches(self.spec_ends(), r.0@, r.1@),
    {
        let ghost ends = self.spec_ends();
        let eos = self.eos.unwrap();
        let mut top: Vec<(usize, Node)> = Vec::new();
        let mut end_node = eos.start_node;
        let mut min_idx = eos.min_idx;
        let ghost mut s: Seq<(int, int)> = Seq::empty();
        while end_node != 0
            invariant
                self.wf(conn),
                ends == self.spec_ends(),
                Some(eos) == self.spec_eos(),
                end_node < ends.len(),
                min_idx < ends[end_node as int].len(),
                forall|i: int| 0 <= i < s.len() ==> valid_ref(ends, #[trigger] s[i]),
                forall|i: int|
                    0 < i < s.len() ==> #[trigger] node_at(ends, s[i]).start_node == s[i - 1].0
                        && node_at(ends, s[i]).min_idx == s[i - 1].1,
                s.len() > 0 ==> node_at(ends, s[0]).start_node == end_node && node_at(
                    ends,
                    s[0],
                ).min_idx == min_idx,
                s.len() > 0 ==> eos.start_node == s.last().0 && eos.min_idx == s.last().1,
                s.len() == 0 ==> eos.start_node == end_node && eos.min_idx == min_idx,
                top_matches(ends, top@, s),
            decreases end_node,
        {
            proof {
                assert(self.ends@[end_node as int]@ == ends[end_node as int]);
                assert(node_ok(ends, conn, end_node as int, ends[end_node as int][min_idx as int]));
            }
            let node = self.ends[end_node][min_idx];
            let ghost old_s = s;
            top.push((end_node, node));
            proof {
                s = seq![(end_node as int, min_idx as int)] + s;
                assert forall|j: int| 0 <= j < top@.len() implies #[trigger] top@[j] == (
                    s[s.len() - 1 - j].0 as usize,
                    node_at(ends, s[s.len() - 1 - j]),
                ) by {
                    if j < old_s.len() {
                        assert(s[s.len() - 1 - j] == old_s[old_s.len() - 1 - j]);
                    }
                }
                assert forall|i: int| 0 < i < s.len() implies #[trigger] node_at(ends, s[i]).start_node
                    == s[i - 1].0 && node_at(ends, s[i]).min_idx == s[i - 1].1 by {
                    assert(s[i] == old_s[i - 1]);
                    if i > 1 {
                        assert(s[i - 1] == old_s[i - 2]);
                    }
                }
                assert forall|i: int| 0 <= i < s.len() implies valid_ref(ends, #[trigger] s[i]) by {
                    if i > 0 {
                        assert(s[i] == old_s[i - 1]);
                    }
                }
                if old_s.len() > 0 {
                    assert(s.last() == old_s.last());
                }
            }
            end_node = node.start_node;
            min_idx = node.min_idx;
        }
        proof {
            assert(ends[0].len() == 1);
            assert(min_idx == 0);
            assert forall|i: int| 0 < i < s.len() implies #[trigger] node_at(ends, s[i]).min_idx
                == s[i - 1].1 by {
                assert(node_at(ends, s[i]).start_node == s[i - 1].0);
            }
            assert(chain_links(ends, s));
        }
        (top, Ghost(s))
    }
}

/// The pairs (left id of `n`, right id of a node that `n` may follow).
pub open spec fn node_pairs(ends: Seq<Seq<Node>>, n: Node) -> Seq<(u16, u16)> {
    ends[n.start_node as int].map_values(|l: Node| (n.left_id, l.right_id))
}

/// The pairs of the first `k` nodes ending at `e`.
pub open spec fn list_pairs(ends: Seq<Seq<Node>>, e: int, k: int) -> Seq<(u16, u16)>
    decreases k,
{
    if k <= 0 {
        Seq::empty()
    } else {
        list_pairs(ends, e, k - 1) + node_pairs(ends, ends[e][k - 1])
    }
}

/// The pairs of the nodes ending at positions `1..=e`.
pub open spec fn lattice_pairs(ends: Seq<Seq<Node>>, e: int) -> Seq<(u16, u16)>
    decreases e,
{
    if e <= 0 {
        Seq::empty()
    } else {
        lattice_pairs(ends, e - 1) + list_pairs(ends, e, ends[e].len() as int)
    }
}

/// Every pair of connection ids that the lattice holds, in the order of
/// the nodes, then the pairs of EOS with the nodes ending the sentence.
pub open spec fn connid_pairs(l: &Lattice) -> Seq<(u16, u16)> {
    let ends = l.spec_ends();
    lattice_pairs(ends, l.spec_len()) + ends[l.spec_len()].map_values(
        |n: Node| (l.spec_eos().unwrap().left_id, n.right_id),
    )
}

/// The property of a pair of connection ids that its left id is `k`.
pub open spec fn left_id_is(k: int) -> spec_fn(u16, u16) -> bool {
    |a: u16, b: u16| a == k
}

/// The property of a pair of connection ids that its right id is `k`.
pub open spec fn right_id_is(k: int) -> spec_fn(u16, u16) -> bool {
    |a: u16, b: u16| b == k
}

/// How many pairs of `s` satisfy `f`.
pub open spec fn pair_count(s: Seq<(u16, u16)>, f: spec_fn(u16, u16) -> bool) -> nat
    decreases s.len(),
{
    if s.len() == 0 {
        0
    } else {
        pair_count(s.drop_last(), f) + if f(s.last().0, s.last().1) {
            1nat
        } else {
            0nat
        }
    }
}

/// How many of the nodes `preds`, each followed by a node with left id
/// `lid`, make a connection whose ids satisfy `f(lid, right id)`.
pub open spec fn pred_count(preds: Seq<Node>, lid: u16, f: spec_fn(u16, u16) -> bool) -> nat
    decreases preds.len(),
{
    if preds.len() == 0 {
        0
    } else {
        pred_count(preds.drop_last(), lid, f) + if f(lid, preds.last().right_id) {
            1nat
        } else {
            0nat
        }
    }
}

/// How many connections into the first `k` nodes ending at `e`, each from a
/// node ending where it starts, satisfy `f`.
pub open spec fn list_conn_count(ends: Seq<Seq<Node>>, e: int, k: int, f: spec_fn(u16, u16) -> bool) -> nat
    decreases k,
{
    if k <= 0 {
        0
    } else {
        let n = ends[e][k - 1];
        list_conn_count(ends, e, k - 1, f) + pred_count(ends[n.start_node as int], n.left_id, f)
    }
}

/// How many connections into the nodes ending at positions `1..=e`
/// satisfy `f`.
pub open spec fn lattice_conn_count(ends: Seq<Seq<Node>>, e: int, f: spec_fn(u16, u16) -> bool) -> nat
    decreases e,
{
    if e <= 0 {
        0
    } else {
        lattice_conn_count(ends, e - 1, f) + list_conn_count(ends, e, ends[e].len() as int, f)
    }
}

/// How many connections of the lattice satisfy `f(left id of the following
/// node, right id of the preceding node)`: into each node from each node
/// ending where it starts (BOS included), and into EOS from each node
/// ending the sentence.
pub open spec fn conn_count(l: &Lattice, f: spec_fn(u16, u16) -> bool) -> nat {
    let ends = l.spec_ends();
    lattice_conn_count(ends, l.spec_len(), f) + pred_count(ends[l.spec_len()], l.spec_eos().unwrap().left_id, f)
}

proof fn lemma_pair_count_add(a: Seq<(u16, u16)>, b: Seq<(u16, u16)>, f: spec_fn(u16, u16) -> bool)
    ensures
        pair_count(a + b, f) == pair_count(a, f) + pair_count(b, f),
    decreases b.len(),
{
    if b.len() == 0 {
        assert(a + b =~= a);
    } else {
        lemma_pair_count_add(a, b.drop_last(), f);
        assert((a + b).drop_last() =~= a + b.drop_last());
        assert((a + b).last() == b.last());
    }
}

proof fn lemma_pair_count_le(s: Seq<(u16, u16)>, f: spec_fn(u16, u16) -> bool)
    ensures
        pair_count(s, f) <= s.len(),
    decreases s.len(),
{
    if s.len() > 0 {
        lemma_pair_count_le(s.drop_last(), f);
    }
}

/// The pairs of a node with each of its possible predecessors count as
/// its connections.
proof fn lemma_pairs_of_preds(s: Seq<(u16, u16)>, preds: Seq<Node>, lid: u16, f: spec_fn(u16, u16) -> bool)
    requires
        s.len() == preds.len(),
        forall|i: int| 0 <= i < s.len() ==> #[trigger] s[i] == (lid, preds[i].right_id),
    ensures
        pair_count(s, f) == pred_count(preds, lid, f),
    decreases s.len(),
{
    if s.len() > 0 {
        let s1 = s.drop_last();
        let p1 = preds.drop_last();
        assert forall|i: int| 0 <= i < s1.len() implies #[trigger] s1[i] == (lid, p1[i].right_id) by {
            assert(s1[i] == s[i] && p1[i] == preds[i]);
        }
        lemma_pairs_of_preds(s1, p1, lid, f);
        assert(s.last() == s[s.len() - 1]);
    }
}

proof fn lemma_list_pairs_count(ends: Seq<Seq<Node>>, e: int, k: int, f: spec_fn(u16, u16) -> bool)
    requires
        0 <= k,
    ensures
        pair_count(list_pairs(ends, e, k), f) == list_conn_count(ends, e, k, f),
    decreases k,
{
    if k > 0 {
        lemma_list_pairs_count(ends, e, k - 1, f);
        let n = ends[e][k - 1];
        let np = node_pairs(ends, n);
        lemma_pair_count_add(list_pairs(ends, e, k - 1), np, f);
        lemma_pairs_of_preds(np, ends[n.start_node as int], n.left_id, f);
    }
}

proof fn lemma_lattice_pairs_count(ends: Seq<Seq<Node>>, e: int, f: spec_fn(u16, u16) -> bool)
    ensures
        pair_count(lattice_pairs(ends, e), f) == lattice_conn_count(ends, e, f),
    decreases e,
{
    if e > 0 {
        lemma_lattice_pairs_count(ends, e - 1, f);
        lemma_list_pairs_count(ends, e, ends[e].len() as int, f);
        lemma_pair_count_add(lattice_pairs(ends, e - 1), list_pairs(ends, e, ends[e].len() as int), f);
    }
}

/// For every property of a pair of connection ids, the pairs that the
/// lattice gives to the counter have it exactly as often as the
/// connections of the lattice do, each taken as (left id of the following
/// node, right id of the preceding node).
pub proof fn lemma_connid_pairs_are_connections(l: &Lattice, f: spec_fn(u16, u16) -> bool)
    requires
        l.spec_eos() is Some,
    ensures
        pair_count(connid_pairs(l), f) == conn_count(l, f),
        connid_pairs(l).len() == conn_count(l, |a: u16, b: u16| true),
{
    let ends = l.spec_ends();
    let len = l.spec_len();
    let eos = l.spec_eos().unwrap();
    let ep = ends[len].map_values(|n: Node| (eos.left_id, n.right_id));
    let all = |a: u16, b: u16| true;
    lemma_lattice_pairs_count(ends, len, f);
    lemma_pair_count_add(lattice_pairs(ends, len), ep, f);
    lemma_pairs_of_preds(ep, ends[len], eos.left_id, f);
    lemma_lattice_pairs_count(ends, len, all);
    lemma_pair_count_add(lattice_pairs(ends, len), ep, all);
    lemma_pairs_of_preds(ep, ends[len], eos.left_id, all);
    lemma_pair_count_all(connid_pairs(l));
}

proof fn lemma_pair_count_all(s: Seq<(u16, u16)>)
    ensures
        pair_count(s, |a: u16, b: u16| true) == s.len(),
    decreases s.len(),
{
    if s.len() > 0 {
        lemma_pair_count_all(s.drop_last());
    }
}

/// Counting pairs adds to the count of each left id the number of pairs
/// with that left id, and to the count of each right id the number of
/// pairs with that right id (as long as no count reaches its maximum).
pub proof fn lemma_counted_by_id(lid: Seq<u64>, rid: Seq<u64>, pairs: Seq<(u16, u16)>, k: int)
    ensures
        0 <= k < lid.len() && lid[k] + pairs.len() <= u64::MAX ==> counted(lid, rid, pairs).0[k] == lid[k]
            + pair_count(pairs, left_id_is(k)),
        0 <= k < rid.len() && rid[k] + pairs.len() <= u64::MAX ==> counted(lid, rid, pairs).1[k] == rid[k]
            + pair_count(pairs, right_id_is(k)),
    decreases pairs.len(),
{
    if pairs.len() > 0 {
        let q = pairs.drop_last();
        lemma_counted_by_id(lid, rid, q, k);
        lemma_counted_len(lid, rid, q);
        lemma_pair_count_le(q, left_id_is(k));
        lemma_pair_count_le(q, right_id_is(k));
    }
}

/// Counting the connection ids of a lattice adds to the count of each
/// left id `k` the number of connections whose following node (EOS
/// included) has left id `k`, and to the count of each right id `k` the
/// number of connections whose preceding node (BOS included) has right id
/// `k` (as long as no count reaches its maximum).
pub proof fn lemma_connid_counts(l: &Lattice, lid: Seq<u64>, rid: Seq<u64>, k: int)
    requires
        l.spec_eos() is Some,
    ensures
        0 <= k < lid.len() && lid[k] + connid_pairs(l).len() <= u64::MAX ==> counted(lid, rid, connid_pairs(l)).0[k]
            == lid[k] + conn_count(l, left_id_is(k)),
        0 <= k < rid.len() && rid[k] + connid_pairs(l).len() <= u64::MAX ==> counted(lid, rid, connid_pairs(l)).1[k]
            == rid[k] + conn_count(l, right_id_is(k)),
{
    lemma_counted_by_id(lid, rid, connid_pairs(l), k);
    lemma_connid_pairs_are_connections(l, left_id_is(k));
    lemma_connid_pairs_are_connections(l, right_id_is(k));
}

impl Lattice {
    /// Every node's right id, BOS included, is defined by the connector.
    pub proof fn lemma_right_ids(&self, conn: &MatrixConnector, e: int, k: int)
        requires
            self.wf(conn),
            0 <= e < self.spec_ends().len(),
            0 <= k < self.spec_ends()[e].len(),
        ensures
            self.spec_ends()[e][k].right_id < conn.spec_num_right(),
            e > 0 ==> self.spec_ends()[e][k].left_id < conn.spec_num_left(),
            self.spec_ends()[e][k].start_node < e || e == 0,
    {
        if e > 0 {
            assert(node_ok(self.spec_ends(), conn, e, self.spec_ends()[e][k]));
        }
    }

    /// Adds to the counter the connection ids of every pair of adjacent
    /// nodes, EOS included.
    pub fn add_connid_counts(&self, conn: &MatrixConnector, counter: &mut ConnIdCounter)
        requires
            self.wf(conn),
            self.spec_eos() is Some,
            old(counter).spec_lid_count().len() == conn.spec_num_left(),
            old(counter).spec_rid_count().len() == conn.spec_num_right(),
        ensures
            (final(counter).spec_lid_count(), final(counter).spec_rid_count()) == counted(
                old(counter).spec_lid_count(),
                old(counter).spec_rid_count(),
                connid_pairs(self),
            ),
    {
        let ghost ends = self.spec_ends();
        let ghost lid0 = counter.spec_lid_count();
        let ghost rid0 = counter.spec_rid_count();
        let len = self.len_char;
        let mut e: usize = 0;
        while e < len
            invariant
                self.wf(conn),
                ends == self.spec_ends(),
                len == self.spec_len(),
                e <= len,
                (counter.spec_lid_count(), counter.spec_rid_count()) == counted(
                    lid0,
                    rid0,
                    lattice_pairs(ends, e as int),
                ),
                lid0.len() == conn.spec_num_left(),
                rid0.len() == conn.spec_num_right(),
            decreases len - e,
        {
            let pos = e + 1;
            let ghost base = lattice_pairs(ends, e as int);
            proof {
                assert(self.ends@[pos as int]@ == ends[pos as int]);
            }
            let list = &self.ends[pos];
            let mut k: usize = 0;
            while k < list.len()
                invariant
                    self.wf(conn),
                    ends == self.spec_ends(),
                    list@ == ends[pos as int],
                    1 <= pos <= len,
                    len == self.spec_len(),
                    k <= list@.len(),
                    (counter.spec_lid_count(), counter.spec_rid_count()) == counted(
                        lid0,
                        rid0,
                        base + list_pairs(ends, pos as int, k as int),
                    ),
                    lid0.len() == conn.spec_num_left(),
                    rid0.len() == conn.spec_num_right(),
                decreases list@.len() - k,
            {
                let r_node = list[k];
                proof {
                    self.lemma_right_ids(conn, pos as int, k as int);
                    assert(self.ends@[r_node.start_node as int]@ == ends[r_node.start_node as int]);
                }
                let preds = &self.ends[r_node.start_node];
                let ghost before = base + list_pairs(ends, pos as int, k as int);
                let mut j: usize = 0;
                while j < preds.len()
                    invariant
                        self.wf(conn),
                        ends == self.spec_ends(),
                        r_node.start_node < ends.len(),
                        preds@ == ends[r_node.start_node as int],
                        r_node.left_id < conn.spec_num_left(),
                        j <= preds@.len(),
                        (counter.spec_lid_count(), counter.spec_rid_count()) == counted(
                            lid0,
                            rid0,
                            before + node_pairs(ends, r_node).take(j as int),
                        ),
                        lid0.len() == conn.spec_num_left(),
                        rid0.len() == conn.spec_num_right(),
                    decreases preds@.len() - j,
                {
                    let l_node = preds[j];
                    proof {
                        self.lemma_right_ids(conn, r_node.start_node as int, j as int);
                        lemma_counted_len(lid0, rid0, before + node_pairs(ends, r_node).take(j as int));
                    }
                    counter.add(r_node.left_id, l_node.right_id, 1);
                    proof {
                        let np = node_pairs(ends, r_node);
                        let prev = before + np.take(j as int);
                        let next = prev.push(np[j as int]);
                        assert(before + np.take(j + 1) =~= next);
                        assert(next.drop_last() =~= prev);
                        assert(np[j as int] == (r_node.left_id, l_node.right_id));
                    }
                    j += 1;
                }
                proof {
                    let np = node_pairs(ends, r_node);
                    assert(np.take(preds@.len() as int) =~= np);
                    assert(list_pairs(ends, pos as int, k + 1) == list_pairs(ends, pos as int, k as int) + np);
                    assert(before + np =~= base + list_pairs(ends, pos as int, k + 1));
                }
                k += 1;
            }
            proof {
                assert(base + list_pairs(ends, pos as int, list@.len() as int) == lattice_pairs(ends, pos as int));
            }
            e += 1;
        }
        let eos = self.eos.unwrap();
        proof {
            assert(self.ends@[len as int]@ == ends[len as int]);
        }
        let last = &self.ends[len];
        let ghost base = lattice_pairs(ends, len as int);
        let ghost eos_pairs = ends[len as int].map_values(|n: Node| (eos.left_id, n.right_id));
        let mut j: usize = 0;
        while j < last.len()
            invariant
                self.wf(conn),
                ends == self.spec_ends(),
                len == self.spec_len(),
                last@ == ends[len as int],
                Some(eos) == self.spec_eos(),
                eos_pairs == ends[len as int].map_values(|n: Node| (eos.left_id, n.right_id)),
                j <= last@.len(),
                (counter.spec_lid_count(), counter.spec_rid_count()) == counted(
                    lid0,
                    rid0,
                    base + eos_pairs.take(j as int),
                ),
                lid0.len() == conn.spec_num_left(),
                rid0.len() == conn.spec_num_right(),
            decreases last@.len() - j,
        {
            let l_node = last[j];
            proof {
                self.lemma_right_ids(conn, len as int, j as int);
                lemma_counted_len(lid0, rid0, base + eos_pairs.take(j as int));
            }
            counter.add(eos.left_id, l_node.right_id, 1);
            proof {
                let prev = base + eos_pairs.take(j as int);
                let next = prev.push(eos_pairs[j as int]);
                assert(base + eos_pairs.take(j + 1) =~= next);
                assert(next.drop_last() =~= prev);
                assert(eos_pairs[j as int] == (eos.left_id, l_node.right_id));
            }
            j += 1;
        }
        proof {
            assert(eos_pairs.take(last@.len() as int) =~= eos_pairs);
        }
    }
}

/// The references of the nodes ending at positions `1..=e`, by end and then
/// by insertion.
pub open spec fn flat_refs(ends: Seq<Seq<Node>>, e: int) -> Seq<(int, int)>
    decreases e,
{
    if e <= 0 {
        Seq::empty()
    } else {
        flat_refs(ends, e - 1) + Seq::new(ends[e].len(), |k: int| (e, k))
    }
}

/// The position of the reference `r` among the flattened references.
pub open spec fn flat_index(ends: Seq<Seq<Node>>, r: (int, int)) -> int {
    flat_refs(ends, r.0 - 1).len() + r.1
}

pub proof fn lemma_flat_refs(ends: Seq<Seq<Node>>, e: int)
    requires
        0 <= e < ends.len(),
    ensures
        forall|i: int|
            0 <= i < flat_refs(ends, e).len() ==> 1 <= (#[trigger] flat_refs(ends, e)[i]).0 <= e
                && valid_ref(ends, flat_refs(ends, e)[i]),
        forall|r: (int, int)|
            valid_ref(ends, r) && r.0 <= e ==> #[trigger] flat_index(ends, r) < flat_refs(ends, e).len()
                && flat_refs(ends, e)[flat_index(ends, r)] == r && 0 <= flat_index(ends, r),
        forall|a: int, b: int|
            0 <= a <= b < flat_refs(ends, e).len() ==> (#[trigger] flat_refs(ends, e)[a]).0 <= (
            #[trigger] flat_refs(ends, e)[b]).0,
    decreases e,
{
    if e > 0 {
        lemma_flat_refs(ends, e - 1);
        let prev = flat_refs(ends, e - 1);
        let cur = flat_refs(ends, e);
        let new = Seq::new(ends[e].len(), |k: int| (e, k));
        assert(cur == prev + new);
        assert forall|i: int| 0 <= i < cur.len() implies 1 <= (#[trigger] cur[i]).0 <= e && valid_ref(
            ends,
            cur[i],
        ) by {
            if i < prev.len() {
                assert(cur[i] == prev[i]);
            } else {
                assert(cur[i] == new[i - prev.len()]);
            }
        }
        assert forall|r: (int, int)| valid_ref(ends, r) && r.0 <= e implies #[trigger] flat_index(
            ends,
            r,
        ) < cur.len() && cur[flat_index(ends, r)] == r && 0 <= flat_index(ends, r) by {
            if r.0 < e {
                assert(flat_index(ends, r) < prev.len());
                assert(cur[flat_index(ends, r)] == prev[flat_index(ends, r)]);
            } else {
                assert(flat_index(ends, r) == prev.len() + r.1);
                assert(cur[flat_index(ends, r)] == new[r.1]);
            }
        }
        assert forall|a: int, b: int| 0 <= a <= b < cur.len() implies (#[trigger] cur[a]).0 <= (
        #[trigger] cur[b]).0 by {
            if b < prev.len() {
                assert(cur[a] == prev[a] && cur[b] == prev[b]);
            } else if a < prev.len() {
                assert(cur[a] == prev[a]);
                assert(cur[b] == new[b - prev.len()]);
            } else {
                assert(cur[a] == new[a - prev.len()]);
                assert(cur[b] == new[b - prev.len()]);
            }
        }
    }
}

/// Each flattened reference is found back at its own position.
pub proof fn lemma_flat_index(ends: Seq<Seq<Node>>, e: int)
    requires
        0 <= e < ends.len(),
    ensures
        forall|i: int|
            0 <= i < flat_refs(ends, e).len() ==> flat_index(ends, #[trigger] flat_refs(ends, e)[i]) == i,
    decreases e,
{
    if e > 0 {
        lemma_flat_index(ends, e - 1);
        let prev = flat_refs(ends, e - 1);
        let cur = flat_refs(ends, e);
        let new = Seq::new(ends[e].len(), |k: int| (e, k));
        assert(cur == prev + new);
        assert forall|i: int| 0 <= i < cur.len() implies flat_index(ends, #[trigger] cur[i]) == i by {
            if i < prev.len() {
                assert(cur[i] == prev[i]);
            } else {
                assert(cur[i] == new[i - prev.len()]);
            }
        }
    }
}

/// The lesser of two costs, where `None` stands for no cost.
pub open spec fn opt_min(a: Option<int>, b: Option<int>) -> Option<int> {
    match a {
        Some(x) => match b {
            Some(y) => Some(
                if x <= y {
                    x
                } else {
                    y
                },
            ),
            None => Some(x),
        },
        None => b,
    }
}

/// The best cost from after node `fl[i]` to EOS through one of the nodes
/// `fl[i + 1..j]` that follow it, where `rest[m]` is the best cost from
/// `fl[i + 1 + m]` on (`None` if EOS cannot be reached from it).
pub open spec fn succ_best(
    ends: Seq<Seq<Node>>,
    conn: &MatrixConnector,
    fl: Seq<(int, int)>,
    i: int,
    rest: Seq<Option<int>>,
    j: int,
) -> Option<int>
    decreases j - i,
{
    if j <= i + 1 {
        None
    } else {
        let acc = succ_best(ends, conn, fl, i, rest, j - 1);
        let m = node_at(ends, fl[j - 1]);
        let r = rest[j - 2 - i];
        if m.start_node == fl[i].0 && r is Some {
            opt_min(
                acc,
                Some(
                    r.unwrap() + m.word_cost + conn.spec_cost(
                        node_at(ends, fl[i]).right_id as int,
                        m.left_id as int,
                    ),
                ),
            )
        } else {
            acc
        }
    }
}

/// The best cost from after each node of `fl[i..]` to EOS, its own word
/// cost excluded, or `None` where EOS cannot be reached.
pub open spec fn tails(
    ends: Seq<Seq<Node>>,
    conn: &MatrixConnector,
    eos_start: int,
    fl: Seq<(int, int)>,
    i: int,
) -> Seq<Option<int>>
    decreases fl.len() - i,
{
    if i >= fl.len() || i < 0 {
        Seq::empty()
    } else {
        let rest = tails(ends, conn, eos_start, fl, i + 1);
        let n = node_at(ends, fl[i]);
        let at_eos = if fl[i].0 == eos_start {
            Some(conn.spec_cost(n.right_id as int, 0))
        } else {
            None
        };
        seq![opt_min(at_eos, succ_best(ends, conn, fl, i, rest, fl.len() as int))] + rest
    }
}

pub proof fn lemma_tails_len(
    ends: Seq<Seq<Node>>,
    conn: &MatrixConnector,
    eos_start: int,
    fl: Seq<(int, int)>,
    i: int,
)
    requires
        0 <= i <= fl.len(),
    ensures
        tails(ends, conn, eos_start, fl, i).len() == fl.len() - i,
    decreases fl.len() - i,
{
    if i < fl.len() {
        lemma_tails_len(ends, conn, eos_start, fl, i + 1);
    }
}

/// Entry `j` of the tails from `i` is the first of the tails from `j`.
pub proof fn lemma_tails_index(
    ends: Seq<Seq<Node>>,
    conn: &MatrixConnector,
    eos_start: int,
    fl: Seq<(int, int)>,
    i: int,
    j: int,
)
    requires
        0 <= i <= j < fl.len(),
    ensures
        tails(ends, conn, eos_start, fl, i)[j - i] == tails(ends, conn, eos_start, fl, j)[0],
    decreases j - i,
{
    if i < j {
        lemma_tails_index(ends, conn, eos_start, fl, i + 1, j);
        lemma_tails_len(ends, conn, eos_start, fl, i + 1);
        let t = tails(ends, conn, eos_start, fl, i);
        let rest = tails(ends, conn, eos_start, fl, i + 1);
        assert(t == seq![t[0]] + rest);
        assert(t[j - i] == rest[j - i - 1]);
    }
}

/// A reachable successor makes the best over the successors defined.
proof fn lemma_succ_best_some(
    ends: Seq<Seq<Node>>,
    conn: &MatrixConnector,
    fl: Seq<(int, int)>,
    i: int,
    rest: Seq<Option<int>>,
    j: int,
    m: int,
)
    requires
        i < m < j,
        node_at(ends, fl[m]).start_node == fl[i].0,
        rest[m - 1 - i] is Some,
    ensures
        succ_best(ends, conn, fl, i, rest, j) matches Some(x) && x <= rest[m - 1 - i].unwrap()
            + node_at(ends, fl[m]).word_cost + conn.spec_cost(
            node_at(ends, fl[i]).right_id as int,
            node_at(ends, fl[m]).left_id as int,
        ),
    decreases j - i,
{
    if m < j - 1 {
        lemma_succ_best_some(ends, conn, fl, i, rest, j - 1, m);
    }
}

/// A lower bound that holds through every reachable successor holds for
/// the best over them.
proof fn lemma_succ_best_lower(
    ends: Seq<Seq<Node>>,
    conn: &MatrixConnector,
    fl: Seq<(int, int)>,
    i: int,
    rest: Seq<Option<int>>,
    j: int,
    base: int,
    bound: int,
)
    requires
        forall|m: int|
            i < m < j && node_at(ends, #[trigger] fl[m]).start_node == fl[i].0 && rest[m - 1 - i] is Some
                ==> base + rest[m - 1 - i].unwrap() + node_at(ends, fl[m]).word_cost
                + conn.spec_cost(node_at(ends, fl[i]).right_id as int, node_at(ends, fl[m]).left_id as int)
                >= bound,
    ensures
        succ_best(ends, conn, fl, i, rest, j) matches Some(x) ==> base + x >= bound,
    decreases j - i,
{
    if j > i + 1 {
        lemma_succ_best_lower(ends, conn, fl, i, rest, j - 1, base, bound);
        let m = j - 1;
        assert(fl[m] == fl[j - 1]);
    }
}

/// The lists kept from `bs[..n]`: the positions of its defined entries.
pub open spec fn kept(bs: Seq<Option<int>>, n: int) -> Seq<int>
    decreases n,
{
    if n <= 0 {
        Seq::empty()
    } else if bs[n - 1] is Some {
        kept(bs, n - 1).push(n - 1)
    } else {
        kept(bs, n - 1)
    }
}

pub proof fn lemma_kept(bs: Seq<Option<int>>, n: int)
    requires
        0 <= n,
    ensures
        kept(bs, n).len() <= n,
        forall|m: int|
            0 <= m < kept(bs, n).len() ==> 0 <= #[trigger] kept(bs, n)[m] < n && bs[kept(bs, n)[m]] is Some,
    decreases n,
{
    if n > 0 {
        lemma_kept(bs, n - 1);
    }
}

impl Lattice {
    /// Every node of a path to EOS has a defined best cost to EOS.
    pub proof fn lemma_path_tails(&self, conn: &MatrixConnector, p: Seq<(int, int)>, t: int)
        requires
            self.wf(conn),
            self.spec_eos() is Some,
            is_complete_path(self.spec_ends(), self.spec_eos().unwrap(), p),
            0 <= t < p.len(),
        ensures
            ({
                let ends = self.spec_ends();
                let fl = flat_refs(ends, self.spec_len());
                tails(ends, conn, self.spec_eos().unwrap().start_node as int, fl, 0)[flat_index(
                    ends,
                    p[t],
                )] is Some
            }),
        decreases p.len() - t,
    {
        let ends = self.spec_ends();
        let len = self.spec_len();
        let fl = flat_refs(ends, len);
        let es = self.spec_eos().unwrap().start_node as int;
        lemma_flat_refs(ends, len);
        assert(valid_ref(ends, p[t]));
        let i = flat_index(ends, p[t]);
        assert(fl[i] == p[t]);
        lemma_tails_index(ends, conn, es, fl, 0, i);
        if t == p.len() - 1 {
        } else {
            self.lemma_path_tails(conn, p, t + 1);
            assert(valid_ref(ends, p[t + 1]));
            let m = flat_index(ends, p[t + 1]);
            assert(fl[m] == p[t + 1]);
            assert(node_at(ends, p[t + 1]).start_node == p[t].0);
            assert(node_ok(ends, conn, p[t + 1].0, ends[p[t + 1].0][p[t + 1].1]));
            assert(fl[i].0 < fl[m].0);
            assert(i < m);
            lemma_tails_index(ends, conn, es, fl, 0, m);
            lemma_tails_index(ends, conn, es, fl, i + 1, m);
            lemma_tails_len(ends, conn, es, fl, i + 1);
            lemma_succ_best_some(
                ends,
                conn,
                fl,
                i,
                tails(ends, conn, es, fl, i + 1),
                fl.len() as int,
                m,
            );
        }
    }
}

/// A prefix of a path is a path, and keeps the links of a chain.
pub proof fn lemma_take_path(ends: Seq<Seq<Node>>, p: Seq<(int, int)>, k: int)
    requires
        is_path(ends, p),
        0 < k <= p.len(),
    ensures
        is_path(ends, p.take(k)),
        chain_links(ends, p) ==> chain_links(ends, p.take(k)),
{
    let q = p.take(k);
    assert forall|i: int| 0 < i < q.len() implies #[trigger] node_at(ends, q[i]).start_node == q[i
        - 1].0 by {
        assert(q[i] == p[i] && q[i - 1] == p[i - 1]);
    }
    assert forall|i: int| 0 <= i < q.len() implies valid_ref(ends, #[trigger] q[i]) by {
        assert(q[i] == p[i]);
    }
    if chain_links(ends, p) {
        assert forall|i: int| 0 < i < q.len() implies #[trigger] node_at(ends, q[i]).min_idx == q[i
            - 1].1 by {
            assert(q[i] == p[i] && q[i - 1] == p[i - 1]);
        }
    }
}

impl Lattice {
    /// Passing through a node costs at least the optimum: the minimum cost
    /// of a node plus its best cost to EOS is at least the cost of EOS.
    pub proof fn lemma_tail_lower(&self, conn: &MatrixConnector, i: int)
        requires
            self.wf(conn),
            self.spec_eos() is Some,
            0 <= i < flat_refs(self.spec_ends(), self.spec_len()).len(),
        ensures
            ({
                let ends = self.spec_ends();
                let fl = flat_refs(ends, self.spec_len());
                let eos = self.spec_eos().unwrap();
                tails(ends, conn, eos.start_node as int, fl, i)[0] matches Some(t) ==> node_at(
                    ends,
                    fl[i],
                ).min_cost + t >= eos.min_cost
            }),
        decreases flat_refs(self.spec_ends(), self.spec_len()).len() - i,
    {
        let ends = self.spec_ends();
        let len = self.spec_len();
        let fl = flat_refs(ends, len);
        let eos = self.spec_eos().unwrap();
        let es = eos.start_node as int;
        lemma_flat_refs(ends, len);
        lemma_tails_len(ends, conn, es, fl, i + 1);
        let rest = tails(ends, conn, es, fl, i + 1);
        let n = node_at(ends, fl[i]);
        assert(valid_ref(ends, fl[i]));
        if fl[i].0 == es {
            assert(via_cost(conn, ends[es][fl[i].1], 0, 0) >= eos.min_cost);
        }
        assert forall|m: int|
            i < m < fl.len() && node_at(ends, #[trigger] fl[m]).start_node == fl[i].0 && rest[m - 1
                - i] is Some implies n.min_cost + rest[m - 1 - i].unwrap() + node_at(
            ends,
            fl[m],
        ).word_cost + conn.spec_cost(n.right_id as int, node_at(ends, fl[m]).left_id as int)
            >= eos.min_cost by {
            lemma_tails_index(ends, conn, es, fl, i + 1, m);
            self.lemma_tail_lower(conn, m);
            assert(valid_ref(ends, fl[m]));
            let mn = node_at(ends, fl[m]);
            assert(node_ok(ends, conn, fl[m].0, ends[fl[m].0][fl[m].1]));
            assert(via_cost(conn, ends[fl[i].0][fl[i].1], mn.left_id, mn.word_cost as int)
                >= mn.min_cost);
        }
        lemma_succ_best_lower(ends, conn, fl, i, rest, fl.len() as int, n.min_cost as int, eos.min_cost as int);
    }

    /// The best cost to EOS from a node of a path to EOS is at most what
    /// the rest of the path costs.
    pub proof fn lemma_path_tail_upper(&self, conn: &MatrixConnector, p: Seq<(int, int)>, t: int)
        requires
            self.wf(conn),
            self.spec_eos() is Some,
            is_complete_path(self.spec_ends(), self.spec_eos().unwrap(), p),
            0 <= t < p.len(),
        ensures
            ({
                let ends = self.spec_ends();
                let fl = flat_refs(ends, self.spec_len());
                tails(ends, conn, self.spec_eos().unwrap().start_node as int, fl, 0)[flat_index(
                    ends,
                    p[t],
                )] matches Some(x) && path_cost(ends, conn, p.take(t + 1)) + x <= total_path_cost(
                    ends,
                    conn,
                    p,
                )
            }),
        decreases p.len() - t,
    {
        let ends = self.spec_ends();
        let len = self.spec_len();
        let fl = flat_refs(ends, len);
        let es = self.spec_eos().unwrap().start_node as int;
        lemma_flat_refs(ends, len);
        assert(valid_ref(ends, p[t]));
        let i = flat_index(ends, p[t]);
        assert(fl[i] == p[t]);
        lemma_tails_index(ends, conn, es, fl, 0, i);
        lemma_tails_len(ends, conn, es, fl, i + 1);
        let rest = tails(ends, conn, es, fl, i + 1);
        let n = node_at(ends, p[t]);
        if t == p.len() - 1 {
            assert(p.take(t + 1) =~= p);
            assert(fl[i].0 == es);
        } else {
            self.lemma_path_tail_upper(conn, p, t + 1);
            assert(valid_ref(ends, p[t + 1]));
            let m = flat_index(ends, p[t + 1]);
            assert(fl[m] == p[t + 1]);
            assert(node_at(ends, p[t + 1]).start_node == p[t].0);
            assert(node_ok(ends, conn, p[t + 1].0, ends[p[t + 1].0][p[t + 1].1]));
            assert(i < m);
            lemma_tails_index(ends, conn, es, fl, 0, m);
            lemma_tails_index(ends, conn, es, fl, i + 1, m);
            lemma_succ_best_some(ends, conn, fl, i, rest, fl.len() as int, m);
            let q = p.take(t + 2);
            assert(q.drop_last() =~= p.take(t + 1));
            assert(q.last() == p[t + 1]);
            assert(last_right(ends, p.take(t + 1)) == n.right_id);
        }
    }

    /// The nodes of the chain of best predecessors cost exactly the optimum
    /// when passed through: their minimum cost plus their best cost to EOS
    /// is the cost of EOS.
    pub proof fn lemma_best_chain_tails(&self, conn: &MatrixConnector, p: Seq<(int, int)>, t: int)
        requires
            self.wf(conn),
            self.spec_eos() is Some,
            is_best_chain(self.spec_ends(), self.spec_eos().unwrap(), p),
            0 <= t < p.len(),
        ensures
            ({
                let ends = self.spec_ends();
                let fl = flat_refs(ends, self.spec_len());
                let eos = self.spec_eos().unwrap();
                tails(ends, conn, eos.start_node as int, fl, 0)[flat_index(ends, p[t])] matches Some(
                    x,
                ) && node_at(ends, p[t]).min_cost + x == eos.min_cost
            }),
    {
        let ends = self.spec_ends();
        let len = self.spec_len();
        let fl = flat_refs(ends, len);
        let es = self.spec_eos().unwrap().start_node as int;
        lemma_flat_refs(ends, len);
        self.lemma_path_tail_upper(conn, p, t);
        self.lemma_best_chain_cost(conn, p);
        lemma_take_path(ends, p, t + 1);
        self.lemma_prefix_cost(conn, p.take(t + 1));
        assert(p.take(t + 1).last() == p[t]);
        assert(valid_ref(ends, p[t]));
        let i = flat_index(ends, p[t]);
        assert(fl[i] == p[t]);
        lemma_tails_index(ends, conn, es, fl, 0, i);
        self.lemma_tail_lower(conn, i);
    }
}

/// `q` goes on from its first node to EOS: each node starts where the
/// previous one ends, and the last ends where EOS starts.
pub open spec fn is_tail_path(ends: Seq<Seq<Node>>, eos_start: int, q: Seq<(int, int)>) -> bool {
    &&& q.len() > 0
    &&& forall|i: int| 0 <= i < q.len() ==> valid_ref(ends, #[trigger] q[i])
    &&& forall|i: int| 0 < i < q.len() ==> #[trigger] node_at(ends, q[i]).start_node == q[i - 1].0
    &&& q.last().0 == eos_start
}

/// The cost of going on from the first node of `q` to EOS along `q`: the
/// connections and word costs of the other nodes, and the connection to EOS.
pub open spec fn tail_cost(ends: Seq<Seq<Node>>, conn: &MatrixConnector, q: Seq<(int, int)>) -> int
    decreases q.len(),
{
    if q.len() <= 1 {
        conn.spec_cost(node_at(ends, q[0]).right_id as int, 0)
    } else {
        conn.spec_cost(node_at(ends, q[0]).right_id as int, node_at(ends, q[1]).left_id as int)
            + node_at(ends, q[1]).word_cost + tail_cost(ends, conn, q.drop_first())
    }
}

/// The chain of best predecessors from BOS to the node `r`.
pub open spec fn chain_to(ends: Seq<Seq<Node>>, r: (int, int)) -> Seq<(int, int)>
    decreases r.0,
{
    let n = node_at(ends, r);
    if n.start_node == 0 || r.0 <= n.start_node {
        seq![r]
    } else {
        chain_to(ends, (n.start_node as int, n.min_idx as int)).push(r)
    }
}

/// The best over the successors, where defined, is reached through one of
/// them.
proof fn lemma_succ_best_witness(
    ends: Seq<Seq<Node>>,
    conn: &MatrixConnector,
    fl: Seq<(int, int)>,
    i: int,
    rest: Seq<Option<int>>,
    j: int,
)
    requires
        succ_best(ends, conn, fl, i, rest, j) is Some,
    ensures
        exists|m: int|
            i < m < j && node_at(ends, #[trigger] fl[m]).start_node == fl[i].0 && rest[m - 1 - i] is Some
                && succ_best(ends, conn, fl, i, rest, j).unwrap() == rest[m - 1 - i].unwrap()
                + node_at(ends, fl[m]).word_cost + conn.spec_cost(
                node_at(ends, fl[i]).right_id as int,
                node_at(ends, fl[m]).left_id as int,
            ),
    decreases j - i,
{
    let acc = succ_best(ends, conn, fl, i, rest, j - 1);
    let m = j - 1;
    let r = rest[j - 2 - i];
    if node_at(ends, fl[m]).start_node == fl[i].0 && r is Some {
        let v = r.unwrap() + node_at(ends, fl[m]).word_cost + conn.spec_cost(
            node_at(ends, fl[i]).right_id as int,
            node_at(ends, fl[m]).left_id as int,
        );
        if acc is Some && acc.unwrap() <= v {
            lemma_succ_best_witness(ends, conn, fl, i, rest, j - 1);
        } else {
            assert(succ_best(ends, conn, fl, i, rest, j) == Some(v));
            assert(m - 1 - i == j - 2 - i);
        }
    } else {
        lemma_succ_best_witness(ends, conn, fl, i, rest, j - 1);
    }
}

/// A path from BOS followed by a way on from its last node to EOS is a path
/// from BOS to EOS, whose cost is the sum of the two.
pub proof fn lemma_join_tail(
    ends: Seq<Seq<Node>>,
    conn: &MatrixConnector,
    eos_start: int,
    a: Seq<(int, int)>,
    q: Seq<(int, int)>,
)
    requires
        is_path(ends, a),
        a.len() > 0,
        is_tail_path(ends, eos_start, q),
        q[0] == a.last(),
    ensures
        is_path(ends, a + q.drop_first()),
        path_end(a + q.drop_first()) == eos_start,
        total_path_cost(ends, conn, a + q.drop_first()) == path_cost(ends, conn, a) + tail_cost(ends, conn, q),
    decreases q.len(),
{
    if q.len() == 1 {
        assert(a + q.drop_first() =~= a);
    } else {
        let a1 = a.push(q[1]);
        let q1 = q.drop_first();
        assert(valid_ref(ends, q[1]));
        assert(node_at(ends, q[1]).start_node == q[0].0);
        assert forall|i: int| 0 <= i < a1.len() implies valid_ref(ends, #[trigger] a1[i]) by {
            if i < a.len() {
                assert(a1[i] == a[i]);
            }
        }
        assert forall|i: int| 0 < i < a1.len() implies #[trigger] node_at(ends, a1[i]).start_node
            == a1[i - 1].0 by {
            if i < a.len() {
                assert(a1[i] == a[i] && a1[i - 1] == a[i - 1]);
            }
        }
        assert forall|i: int| 0 <= i < q1.len() implies valid_ref(ends, #[trigger] q1[i]) by {
            assert(q1[i] == q[i + 1]);
        }
        assert forall|i: int| 0 < i < q1.len() implies #[trigger] node_at(ends, q1[i]).start_node
            == q1[i - 1].0 by {
            assert(q1[i] == q[i + 1] && q1[i - 1] == q[i]);
        }
        assert(is_path(ends, a1));
        assert(is_tail_path(ends, eos_start, q1));
        lemma_join_tail(ends, conn, eos_start, a1, q1);
        assert(a1 + q1.drop_first() =~= a + q.drop_first());
        assert(a1.drop_last() =~= a);
        assert(path_cost(ends, conn, a1) == path_cost(ends, conn, a) + conn.spec_cost(
            last_right(ends, a),
            node_at(ends, q[1]).left_id as int,
        ) + node_at(ends, q[1]).word_cost);
    }
}

impl Lattice {
    /// Following the best predecessors back from a node gives a path from
    /// BOS to it that costs its minimum cost.
    pub proof fn lemma_chain_to(&self, conn: &MatrixConnector, r: (int, int))
        requires
            self.wf(conn),
            valid_ref(self.spec_ends(), r),
        ensures
            is_path(self.spec_ends(), chain_to(self.spec_ends(), r)),
            chain_to(self.spec_ends(), r).len() > 0,
            chain_to(self.spec_ends(), r).last() == r,
            path_cost(self.spec_ends(), conn, chain_to(self.spec_ends(), r)) == node_at(
                self.spec_ends(),
                r,
            ).min_cost,
        decreases r.0,
    {
        let ends = self.spec_ends();
        let n = node_at(ends, r);
        assert(node_ok(ends, conn, r.0, ends[r.0][r.1]));
        let c = chain_to(ends, r);
        if n.start_node == 0 {
            assert(c == seq![r]);
            assert(n.min_idx == 0);
            assert(chain_links(ends, c));
            self.lemma_prefix_cost(conn, c);
        } else {
            let pr = (n.start_node as int, n.min_idx as int);
            assert(valid_ref(ends, pr));
            self.lemma_chain_to(conn, pr);
            let b = chain_to(ends, pr);
            assert(c == b.push(r));
            assert forall|i: int| 0 <= i < c.len() implies valid_ref(ends, #[trigger] c[i]) by {
                if i < b.len() {
                    assert(c[i] == b[i]);
                }
            }
            assert forall|i: int| 0 < i < c.len() implies #[trigger] node_at(ends, c[i]).start_node
                == c[i - 1].0 by {
                if i < b.len() {
                    assert(c[i] == b[i] && c[i - 1] == b[i - 1]);
                } else {
                    assert(c[i - 1] == b.last());
                }
            }
            assert(c.drop_last() =~= b);
            assert(last_right(ends, b) == ends[pr.0][pr.1].right_id);
            assert(n.min_cost == via_cost(conn, ends[pr.0][pr.1], n.left_id, n.word_cost as int));
        }
    }

    /// Where the best cost to EOS of the node `fl[i]` is defined, some way
    /// on from the node to EOS costs exactly that.
    pub proof fn lemma_tail_witness(&self, conn: &MatrixConnector, i: int)
        requires
            self.wf(conn),
            self.spec_eos() is Some,
            0 <= i < flat_refs(self.spec_ends(), self.spec_len()).len(),
            tails(
                self.spec_ends(),
                conn,
                self.spec_eos().unwrap().start_node as int,
                flat_refs(self.spec_ends(), self.spec_len()),
                i,
            )[0] is Some,
        ensures
            ({
                let ends = self.spec_ends();
                let fl = flat_refs(ends, self.spec_len());
                let es = self.spec_eos().unwrap().start_node as int;
                exists|q: Seq<(int, int)>|
                    is_tail_path(ends, es, q) && q[0] == fl[i] && tail_cost(ends, conn, q) == tails(
                        ends,
                        conn,
                        es,
                        fl,
                        i,
                    )[0].unwrap()
            }),
        decreases flat_refs(self.spec_ends(), self.spec_len()).len() - i,
    {
        let ends = self.spec_ends();
        let len = self.spec_len();
        let fl = flat_refs(ends, len);
        let es = self.spec_eos().unwrap().start_node as int;
        lemma_flat_refs(ends, len);
        let rest = tails(ends, conn, es, fl, i + 1);
        let n = node_at(ends, fl[i]);
        let at_eos = if fl[i].0 == es {
            Some(conn.spec_cost(n.right_id as int, 0))
        } else {
            None
        };
        let sb = succ_best(ends, conn, fl, i, rest, fl.len() as int);
        let x = tails(ends, conn, es, fl, i)[0].unwrap();
        assert(tails(ends, conn, es, fl, i)[0] == opt_min(at_eos, sb));
        if at_eos is Some && x == at_eos.unwrap() {
            let q = seq![fl[i]];
            assert(is_tail_path(ends, es, q));
            assert(tail_cost(ends, conn, q) == x);
        } else {
            assert(sb is Some && x == sb.unwrap());
            lemma_succ_best_witness(ends, conn, fl, i, rest, fl.len() as int);
            let m = choose|m: int|
                i < m < fl.len() && node_at(ends, #[trigger] fl[m]).start_node == fl[i].0
                    && rest[m - 1 - i] is Some && sb.unwrap() == rest[m - 1 - i].unwrap()
                    + node_at(ends, fl[m]).word_cost + conn.spec_cost(
                    node_at(ends, fl[i]).right_id as int,
                    node_at(ends, fl[m]).left_id as int,
                );
            lemma_tails_index(ends, conn, es, fl, i + 1, m);
            self.lemma_tail_witness(conn, m);
            let q1 = choose|q: Seq<(int, int)>|
                is_tail_path(ends, es, q) && q[0] == fl[m] && tail_cost(ends, conn, q) == tails(
                    ends,
                    conn,
                    es,
                    fl,
                    m,
                )[0].unwrap();
            let q = seq![fl[i]] + q1;
            assert(q.drop_first() =~= q1);
            assert(q[1] == q1[0]);
            assert forall|k: int| 0 <= k < q.len() implies valid_ref(ends, #[trigger] q[k]) by {
                if k > 0 {
                    assert(q[k] == q1[k - 1]);
                }
            }
            assert forall|k: int| 0 < k < q.len() implies #[trigger] node_at(ends, q[k]).start_node
                == q[k - 1].0 by {
                if k > 1 {
                    assert(q[k] == q1[k - 1] && q[k - 1] == q1[k - 2]);
                }
            }
            assert(q.last() == q1.last());
            assert(is_tail_path(ends, es, q));
            assert(tail_cost(ends, conn, q) == x);
        }
    }

    /// The best cost to EOS of a node is the least cost of going on from it
    /// to EOS: where it is defined, the node's minimum cost plus it is the
    /// cost of some path from BOS to EOS through the node, and no such path
    /// costs less; where it is not defined, no path from BOS to EOS goes
    /// through the node.
    pub proof fn lemma_tail_exact(&self, conn: &MatrixConnector, r: (int, int))
        requires
            self.wf(conn),
            self.spec_eos() is Some,
            valid_ref(self.spec_ends(), r),
        ensures
            ({
                let ends = self.spec_ends();
                let eos = self.spec_eos().unwrap();
                let fl = flat_refs(ends, self.spec_len());
                let t = tails(ends, conn, eos.start_node as int, fl, 0)[flat_index(ends, r)];
                &&& t matches Some(x) ==> {
                    &&& exists|p: Seq<(int, int)>, k: int|
                        is_complete_path(ends, eos, p) && 0 <= k < p.len() && #[trigger] p[k] == r
                            && total_path_cost(ends, conn, p) == node_at(ends, r).min_cost + x
                    &&& forall|p: Seq<(int, int)>, k: int|
                        is_complete_path(ends, eos, p) && 0 <= k < p.len() && #[trigger] p[k] == r
                            ==> total_path_cost(ends, conn, p) >= node_at(ends, r).min_cost + x
                }
                &&& t is None ==> forall|p: Seq<(int, int)>, k: int|
                    is_complete_path(ends, eos, p) && 0 <= k < p.len() ==> #[trigger] p[k] != r
            }),
    {
        let ends = self.spec_ends();
        let len = self.spec_len();
        let eos = self.spec_eos().unwrap();
        let es = eos.start_node as int;
        let fl = flat_refs(ends, len);
        lemma_flat_refs(ends, len);
        let i = flat_index(ends, r);
        assert(fl[i] == r);
        lemma_tails_index(ends, conn, es, fl, 0, i);
        let t = tails(ends, conn, es, fl, 0)[i];
        assert forall|p: Seq<(int, int)>, k: int|
            is_complete_path(ends, eos, p) && 0 <= k < p.len() && #[trigger] p[k] == r implies (t matches Some(x)
                && total_path_cost(ends, conn, p) >= node_at(ends, r).min_cost + x) by {
            self.lemma_path_tail_upper(conn, p, k);
            lemma_take_path(ends, p, k + 1);
            self.lemma_prefix_cost(conn, p.take(k + 1));
            assert(p.take(k + 1).last() == p[k]);
        }
        if t is Some {
            let x = t.unwrap();
            self.lemma_tail_witness(conn, i);
            let q = choose|q: Seq<(int, int)>|
                is_tail_path(ends, es, q) && q[0] == fl[i] && tail_cost(ends, conn, q) == tails(
                    ends,
                    conn,
                    es,
                    fl,
                    i,
                )[0].unwrap();
            self.lemma_chain_to(conn, r);
            let a = chain_to(ends, r);
            lemma_join_tail(ends, conn, es, a, q);
            let p = a + q.drop_first();
            let k = a.len() - 1;
            assert(p[k] == a[k]);
            assert(is_complete_path(ends, eos, p));
        }
    }
}

/// The kept positions are increasing, and every defined entry is kept.
pub proof fn lemma_kept_all(bs: Seq<Option<int>>, n: int)
    requires
        0 <= n <= bs.len(),
    ensures
        forall|a: int, b: int|
            0 <= a < b < kept(bs, n).len() ==> #[trigger] kept(bs, n)[a] < #[trigger] kept(bs, n)[b],
        forall|x: int| 0 <= x < n && bs[x] is Some ==> exists|m: int| 0 <= m < kept(bs, n).len() && #[trigger] kept(bs, n)[m] == x,
    decreases n,
{
    if n > 0 {
        lemma_kept_all(bs, n - 1);
        lemma_kept(bs, n - 1);
        let k0 = kept(bs, n - 1);
        let k1 = kept(bs, n);
        if bs[n - 1] is Some {
            assert(k1 == k0.push(n - 1));
            assert forall|a: int, b: int| 0 <= a < b < k1.len() implies #[trigger] k1[a] < #[trigger] k1[b] by {
                assert(k1[a] == k0[a]);
                if b < k0.len() {
                    assert(k1[b] == k0[b]);
                }
            }
            assert forall|x: int| 0 <= x < n && bs[x] is Some implies exists|m: int| 0 <= m < k1.len() && #[trigger] k1[m] == x by {
                if x == n - 1 {
                    assert(k1[k0.len() as int] == x);
                } else {
                    let m = choose|m: int| 0 <= m < k0.len() && #[trigger] k0[m] == x;
                    assert(k1[m] == x);
                }
            }
        }
    }
}

impl Lattice {
    /// The nodes kept by their best cost to EOS are exactly the nodes that
    /// lie on some path from BOS to EOS, each once, in lattice order. For
    /// each, its minimum cost is the least cost of a path from BOS to it,
    /// and its minimum cost plus its best cost to EOS is the least cost of a
    /// path from BOS to EOS through it; both are attained.
    pub proof fn lemma_kept_nodes(&self, conn: &MatrixConnector)
        requires
            self.wf(conn),
            self.spec_eos() is Some,
        ensures
            ({
                let ends = self.spec_ends();
                let eos = self.spec_eos().unwrap();
                let fl = flat_refs(ends, self.spec_len());
                let ts = tails(ends, conn, eos.start_node as int, fl, 0);
                let ks = kept(ts, fl.len() as int);
                &&& forall|a: int, b: int|
                    0 <= a < b < ks.len() ==> #[trigger] ks[a] < #[trigger] ks[b] && fl[ks[a]] != fl[ks[b]]
                &&& forall|r: (int, int)|
                    valid_ref(ends, r) ==> ((exists|p: Seq<(int, int)>, k: int|
                        is_complete_path(ends, eos, p) && 0 <= k < p.len() && #[trigger] p[k] == r)
                        <==> (exists|m: int| 0 <= m < ks.len() && #[trigger] fl[ks[m]] == r))
                &&& forall|m: int|
                    0 <= m < ks.len() ==> {
                        let r = #[trigger] fl[ks[m]];
                        let x = ts[ks[m]].unwrap();
                        &&& valid_ref(ends, r)
                        &&& ts[ks[m]] is Some
                        &&& (exists|a: Seq<(int, int)>|
                            is_path(ends, a) && a.len() > 0 && a.last() == r && path_cost(ends, conn, a)
                                == node_at(ends, r).min_cost)
                        &&& forall|a: Seq<(int, int)>|
                            is_path(ends, a) && a.len() > 0 && a.last() == r ==> node_at(ends, r).min_cost
                                <= #[trigger] path_cost(ends, conn, a)
                        &&& (exists|p: Seq<(int, int)>, k: int|
                            is_complete_path(ends, eos, p) && 0 <= k < p.len() && #[trigger] p[k] == r
                                && total_path_cost(ends, conn, p) == node_at(ends, r).min_cost + x)
                        &&& forall|p: Seq<(int, int)>, k: int|
                            is_complete_path(ends, eos, p) && 0 <= k < p.len() && #[trigger] p[k] == r
                                ==> total_path_cost(ends, conn, p) >= node_at(ends, r).min_cost + x
                    }
            }),
    {
        let ends = self.spec_ends();
        let len = self.spec_len();
        let eos = self.spec_eos().unwrap();
        let es = eos.start_node as int;
        let fl = flat_refs(ends, len);
        let ts = tails(ends, conn, es, fl, 0);
        lemma_flat_refs(ends, len);
        lemma_flat_index(ends, len);
        lemma_tails_len(ends, conn, es, fl, 0);
        lemma_kept(ts, fl.len() as int);
        lemma_kept_all(ts, fl.len() as int);
        let ks = kept(ts, fl.len() as int);
        assert forall|a: int, b: int| 0 <= a < b < ks.len() implies #[trigger] ks[a] < #[trigger] ks[b]
            && fl[ks[a]] != fl[ks[b]] by {
            assert(flat_index(ends, fl[ks[a]]) == ks[a]);
            assert(flat_index(ends, fl[ks[b]]) == ks[b]);
        }
        assert forall|r: (int, int)| valid_ref(ends, r) implies ((exists|p: Seq<(int, int)>, k: int|
            is_complete_path(ends, eos, p) && 0 <= k < p.len() && #[trigger] p[k] == r) <==> (exists|m: int|
            0 <= m < ks.len() && #[trigger] fl[ks[m]] == r)) by {
            self.lemma_tail_exact(conn, r);
            let i = flat_index(ends, r);
            assert(fl[i] == r);
            if ts[i] is Some {
                let m = choose|m: int| 0 <= m < ks.len() && #[trigger] ks[m] == i;
                assert(fl[ks[m]] == r);
            }
            if exists|m: int| 0 <= m < ks.len() && #[trigger] fl[ks[m]] == r {
                let m = choose|m: int| 0 <= m < ks.len() && #[trigger] fl[ks[m]] == r;
                assert(flat_index(ends, fl[ks[m]]) == ks[m]);
                assert(ts[i] is Some);
            }
        }
        assert forall|m: int| 0 <= m < ks.len() implies {
            let r = #[trigger] fl[ks[m]];
            let x = ts[ks[m]].unwrap();
            &&& valid_ref(ends, r)
            &&& ts[ks[m]] is Some
            &&& (exists|a: Seq<(int, int)>|
                is_path(ends, a) && a.len() > 0 && a.last() == r && path_cost(ends, conn, a)
                    == node_at(ends, r).min_cost)
            &&& forall|a: Seq<(int, int)>|
                is_path(ends, a) && a.len() > 0 && a.last() == r ==> node_at(ends, r).min_cost
                    <= #[trigger] path_cost(ends, conn, a)
            &&& (exists|p: Seq<(int, int)>, k: int|
                is_complete_path(ends, eos, p) && 0 <= k < p.len() && #[trigger] p[k] == r
                    && total_path_cost(ends, conn, p) == node_at(ends, r).min_cost + x)
            &&& forall|p: Seq<(int, int)>, k: int|
                is_complete_path(ends, eos, p) && 0 <= k < p.len() && #[trigger] p[k] == r
                    ==> total_path_cost(ends, conn, p) >= node_at(ends, r).min_cost + x
        } by {
            let r = fl[ks[m]];
            assert(flat_index(ends, r) == ks[m]);
            self.lemma_tail_exact(conn, r);
            self.lemma_chain_to(conn, r);
            let a0 = chain_to(ends, r);
            assert(is_path(ends, a0) && a0.len() > 0 && a0.last() == r);
            assert forall|a: Seq<(int, int)>|
                is_path(ends, a) && a.len() > 0 && a.last() == r implies node_at(ends, r).min_cost
                    <= #[trigger] path_cost(ends, conn, a) by {
                self.lemma_prefix_cost(conn, a);
            }
        }
    }
}

impl Lattice {
    /// Where EOS is reached, some path from BOS to EOS costs its minimum
    /// cost: the chain of best predecessors.
    pub proof fn lemma_best_path_exists(&self, conn: &MatrixConnector)
        requires
            self.wf(conn),
            self.spec_eos() is Some,
        ensures
            exists|p: Seq<(int, int)>|
                is_complete_path(self.spec_ends(), self.spec_eos().unwrap(), p) && #[trigger] total_path_cost(
                    self.spec_ends(),
                    conn,
                    p,
                ) == self.spec_eos().unwrap().min_cost,
    {
        let ends = self.spec_ends();
        let eos = self.spec_eos().unwrap();
        if eos.start_node == 0 {
            let p = Seq::<(int, int)>::empty();
            assert(eos.min_idx == 0);
            assert(is_complete_path(ends, eos, p));
            assert(total_path_cost(ends, conn, p) == eos.min_cost);
        } else {
            let r = (eos.start_node as int, eos.min_idx as int);
            assert(valid_ref(ends, r));
            self.lemma_chain_to(conn, r);
            let p = chain_to(ends, r);
            assert(is_complete_path(ends, eos, p));
            assert(total_path_cost(ends, conn, p) == eos.min_cost);
        }
    }
}

/// The cost encoded in `x`, where `i64::MAX` stands for none.
pub open spec fn dec_cost(x: i64) -> Option<int> {
    if x == i64::MAX {
        None
    } else {
        Some(x as int)
    }
}

/// `refs` holds the references `fl` as machine integers.
pub open spec fn refs_match(refs: Seq<(usize, usize)>, fl: Seq<(int, int)>) -> bool {
    &&& refs.len() == fl.len()
    &&& forall|i: int| 0 <= i < refs.len() ==> (#[trigger] refs[i].0 as int, refs[i].1 as int) == fl[i]
}

/// `(x + 1)` steps bound `x` steps and one more.
pub proof fn lemma_step_succ(x: int)
    ensures
        STEP_BOUND * (x + 1) == STEP_BOUND * x + 65536,
{
    assert(65536 * (x + 1) == 65536 * x + 65536) by (nonlinear_arith);
}

impl Lattice {
    /// The references of all nodes (BOS aside) by end position, with the
    /// position of the first node of each end among them.
    pub fn flat_node_refs(&self) -> (r: (Vec<(usize, usize)>, Vec<usize>))
        requires
            self.spec_ends().len() == self.spec_len() + 1,
        ensures
            refs_match(r.0@, flat_refs(self.spec_ends(), self.spec_len())),
            r.1@.len() == self.spec_len() + 1,
            forall|e: int|
                1 <= e <= self.spec_len() ==> #[trigger] r.1@[e] == flat_refs(self.spec_ends(), e - 1).len(),
    {
        let ghost ends = self.spec_ends();
        let len = self.len_char;
        let mut refs: Vec<(usize, usize)> = Vec::new();
        let mut start_of: Vec<usize> = Vec::new();
        start_of.push(0);
        let mut e: usize = 0;
        while e < len
            invariant
                ends == self.spec_ends(),
                ends.len() == len + 1,
                len == self.spec_len(),
                e <= len,
                refs_match(refs@, flat_refs(ends, e as int)),
                start_of@.len() == e + 1,
                forall|x: int| 1 <= x <= e ==> #[trigger] start_of@[x] == flat_refs(ends, x - 1).len(),
            decreases len - e,
        {
            let pos = e + 1;
            start_of.push(refs.len());
            proof {
                assert(self.ends@[pos as int]@ == ends[pos as int]);
            }
            let cnt = self.ends[pos].len();
            let ghost base = refs@;
            let mut k: usize = 0;
            while k < cnt
                invariant
                    cnt == ends[pos as int].len(),
                    k <= cnt,
                    refs_match(base, flat_refs(ends, e as int)),
                    refs@.len() == base.len() + k,
                    forall|i: int| 0 <= i < base.len() ==> #[trigger] refs@[i] == base[i],
                    forall|i: int| 0 <= i < k ==> #[trigger] refs@[base.len() + i] == (pos, i as usize),
                decreases cnt - k,
            {
                refs.push((pos, k));
                k += 1;
            }
            proof {
                let fl = flat_refs(ends, pos as int);
                assert(fl == flat_refs(ends, e as int) + Seq::new(ends[pos as int].len(), |k: int| (pos as int, k)));
                assert forall|i: int| 0 <= i < refs@.len() implies (#[trigger] refs@[i].0 as int, refs@[i].1 as int) == fl[i] by {
                    if i < base.len() {
                        assert(refs@[i] == base[i]);
                    } else {
                        assert(refs@[base.len() + (i - base.len())] == (pos, (i - base.len()) as usize));
                    }
                }
                assert forall|x: int| 1 <= x <= pos implies #[trigger] start_of@[x] == flat_refs(ends, x - 1).len() by {
                }
            }
            e += 1;
        }
        (refs, start_of)
    }

    /// The best cost from after each node to EOS (`i64::MAX` where EOS cannot
    /// be reached), computed from the last node to the first.
    pub fn backward_costs(&self, conn: &MatrixConnector, refs: &Vec<(usize, usize)>) -> (r: Vec<i64>)
        requires
            self.wf(conn),
            self.spec_eos() is Some,
            refs_match(refs@, flat_refs(self.spec_ends(), self.spec_len())),
        ensures
            r@.len() == refs@.len(),
            forall|j: int|
                0 <= j < r@.len() ==> dec_cost(#[trigger] r@[j]) == tails(
                    self.spec_ends(),
                    conn,
                    self.spec_eos().unwrap().start_node as int,
                    flat_refs(self.spec_ends(), self.spec_len()),
                    0,
                )[j],
            forall|j: int|
                0 <= j < r@.len() && r@[j] != i64::MAX ==> -(STEP_BOUND * (self.spec_len() + 1
                    - refs@[j].0)) <= #[trigger] r@[j] <= STEP_BOUND * (self.spec_len() + 1 - refs@[j].0),
    {
        let ghost ends = self.spec_ends();
        let ghost len = self.spec_len();
        let ghost fl = flat_refs(ends, len);
        let eos = self.eos.unwrap();
        let ghost es = eos.start_node as int;
        proof {
            lemma_flat_refs(ends, len);
        }
        let n = refs.len();
        let mut backward: Vec<i64> = Vec::new();
        let mut z: usize = 0;
        while z < n
            invariant
                z <= n,
                backward@.len() == z,
            decreases n - z,
        {
            backward.push(i64::MAX);
            z += 1;
        }
        let mut i = n;
        proof {
            lemma_tails_len(ends, conn, es, fl, n as int);
        }
        while i > 0
            invariant
                self.wf(conn),
                ends == self.spec_ends(),
                len == self.spec_len(),
                fl == flat_refs(ends, len),
                Some(eos) == self.spec_eos(),
                es == eos.start_node,
                refs_match(refs@, fl),
                n == refs@.len(),
                i <= n,
                backward@.len() == n,
                forall|x: int|
                    0 <= x < fl.len() ==> 1 <= (#[trigger] fl[x]).0 <= len && valid_ref(ends, fl[x]),
                forall|a: int, b: int|
                    0 <= a <= b < fl.len() ==> (#[trigger] fl[a]).0 <= (#[trigger] fl[b]).0,
                tails(ends, conn, es, fl, i as int).len() == n - i,
                forall|j: int|
                    i <= j < n ==> dec_cost(#[trigger] backward@[j]) == tails(ends, conn, es, fl, i as int)[j
                        - i],
                forall|j: int|
                    i <= j < n && backward@[j] != i64::MAX ==> -(STEP_BOUND * (len + 1 - fl[j].0))
                        <= #[trigger] backward@[j] <= STEP_BOUND * (len + 1 - fl[j].0),
            decreases i,
        {
            i -= 1;
            let ghost rs = tails(ends, conn, es, fl, i + 1);
            let (ei, ki) = refs[i];
            proof {
                assert(fl[i as int] == (ei as int, ki as int));
                assert(self.ends@[ei as int]@ == ends[ei as int]);
                self.lemma_right_ids(conn, ei as int, ki as int);
            }
            let ni = self.ends[ei][ki];
            let mut rest: i64 = if ei == eos.start_node {
                conn.cost(ni.right_id, 0) as i64
            } else {
                i64::MAX
            };
            let ghost at_eos = if fl[i as int].0 == es {
                Some(conn.spec_cost(ni.right_id as int, 0))
            } else {
                None
            };
            proof {
                lemma_step_mono(1, len + 1 - ei);
                lemma_step_mono(len + 1 - ei, 0x1_0000_0002);
            }
            let mut j = i + 1;
            while j < n
                invariant
                    self.wf(conn),
                    ends == self.spec_ends(),
                    len == self.spec_len(),
                    fl == flat_refs(ends, len),
                    refs_match(refs@, fl),
                    n == refs@.len(),
                    i < j <= n,
                    backward@.len() == n,
                    fl[i as int] == (ei as int, ki as int),
                    ni == ends[ei as int][ki as int],
                    1 <= ei <= len,
                    ni.right_id < conn.spec_num_right(),
                    forall|x: int|
                        0 <= x < fl.len() ==> 1 <= (#[trigger] fl[x]).0 <= len && valid_ref(ends, fl[x]),
                    rs == tails(ends, conn, es, fl, i + 1),
                    rs.len() == n - i - 1,
                    forall|x: int|
                        i + 1 <= x < n ==> dec_cost(#[trigger] backward@[x]) == rs[x - i - 1],
                    forall|x: int|
                        i + 1 <= x < n && backward@[x] != i64::MAX ==> -(STEP_BOUND * (len + 1
                            - fl[x].0)) <= #[trigger] backward@[x] <= STEP_BOUND * (len + 1 - fl[x].0),
                    dec_cost(rest) == opt_min(at_eos, succ_best(ends, conn, fl, i as int, rs, j as int)),
                    rest != i64::MAX ==> -(STEP_BOUND * (len + 1 - ei)) <= rest <= STEP_BOUND * (len + 1
                        - ei),
                    STEP_BOUND * (len + 1 - ei) <= STEP_BOUND * 0x1_0000_0002,
                decreases n - j,
            {
                let (ej, kj) = refs[j];
                proof {
                    assert(fl[j as int] == (ej as int, kj as int));
                    assert(self.ends@[ej as int]@ == ends[ej as int]);
                    self.lemma_right_ids(conn, ej as int, kj as int);
                }
                let nj = self.ends[ej][kj];
                let bj = backward[j];
                let ghost sb = succ_best(ends, conn, fl, i as int, rs, j as int);
                if nj.start_node == ei && bj != i64::MAX {
                    proof {
                        lemma_step_mono(len + 1 - ej, len - ei);
                        lemma_step_succ(len - ei);
                        assert(rs[j - i - 1] == Some(bj as int));
                    }
                    let cand = bj + nj.word_cost as i64 + conn.cost(ni.right_id, nj.left_id) as i64;
                    proof {
                        let c = Some(cand as int);
                        assert(succ_best(ends, conn, fl, i as int, rs, j + 1) == opt_min(sb, c));
                        assert(opt_min(at_eos, opt_min(sb, c)) == opt_min(opt_min(at_eos, sb), c));
                    }
                    if cand < rest {
                        rest = cand;
                    }
                } else {
                    proof {
                        assert(succ_best(ends, conn, fl, i as int, rs, j + 1) == sb);
                    }
                }
                j += 1;
            }
            backward.set(i, rest);
            proof {
                let t = tails(ends, conn, es, fl, i as int);
                assert(t == seq![opt_min(at_eos, succ_best(ends, conn, fl, i as int, rs, n as int))] + rs);
                assert forall|x: int| i <= x < n implies dec_cost(#[trigger] backward@[x]) == t[x - i] by {
                    if x > i {
                        assert(t[x - i] == rs[x - i - 1]);
                    }
                }
            }
        }
        proof {
            assert forall|j: int| 0 <= j < n && backward@[j] != i64::MAX implies -(STEP_BOUND * (
            len + 1 - refs@[j].0)) <= #[trigger] backward@[j] <= STEP_BOUND * (len + 1 - refs@[j].0) by {
                assert(fl[j] == (refs@[j].0 as int, refs@[j].1 as int));
            }
        }
        backward
    }
}

/// Scaling by `STEP_BOUND` keeps the order.
pub proof fn lemma_step_mono(a: int, b: int)
    requires
        0 <= a <= b,
    ensures
        0 <= STEP_BOUND * a <= STEP_BOUND * b,
{
    assert(0 <= 65536 * a <= 65536 * b) by (nonlinear_arith)
        requires
            0 <= a <= b,
    ;
}

/// The beginning-of-sentence node.
pub open spec fn bos_node() -> Node {
    Node {
        word_id: u32::MAX,
        lex_type: LexType::System,
        start_node: 0,
        start_word: 0,
        left_id: 0,
        right_id: 0,
        word_cost: 0,
        min_idx: 0,
        min_cost: 0,
    }
}

#[verifier::when_used_as_spec(bos_node)]
pub fn bos_node_exec() -> (n: Node)
    ensures
        n == bos_node(),
{
    Node {
        word_id: u32::MAX,
        lex_type: LexType::System,
        start_node: 0,
        start_word: 0,
        left_id: 0,
        right_id: 0,
        word_cost: 0,
        min_idx: 0,
        min_cost: 0,
    }
}

/// The conditions on EOS for a sentence of `len` characters.
pub open spec fn eos_ok(ends: Seq<Seq<Node>>, conn: &MatrixConnector, len: int, eos: Node) -> bool {
    &&& eos.start_node <= len
    &&& eos.left_id == 0
    &&& ends[eos.start_node as int].len() > 0
    &&& bellman(conn, ends[eos.start_node as int], 0, 0, eos.min_idx as int, eos.min_cost as int)
    &&& -(STEP_BOUND * (len + 1)) <= eos.min_cost <= STEP_BOUND * (len + 1)
}

} // verus!
