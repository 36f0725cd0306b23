//! Provider of a routine for tokenization.
use std::ops::Range;

use vstd::prelude::*;

use crate::dictionary::mapper::{counted, ConnIdCounter};
use crate::dictionary::word_idx::{LexType, WordIdx};
use crate::dictionary::connector::MatrixConnector;
use crate::dictionary::Dictionary;
use crate::sentence::{byte_pos, Sentence};
use crate::dictionary::DictionaryInner;
use crate::tokenizer::lattice::{
    conn_count, connid_pairs, dec_cost, flat_index, flat_refs, is_best_chain, is_complete_path, is_path, kept,
    path_cost,
    lemma_flat_index, lemma_flat_refs, lemma_kept, lemma_tails_index, lemma_step_mono, lemma_tails_len, node_at, node_ok, tails,
    top_matches, total_path_cost, valid_ref, Lattice, Node, STEP_BOUND,
};
use crate::tokenizer::nbest::found;
use crate::tokenizer::{lattice_complete, lattice_sound, lattice_ties, node_sound, Tokenizer};

verus! {

/// Provider of a routine for tokenization.
///
/// It holds the internal data structures used in tokenization, which can be
/// reused for the next sentence.
pub struct Worker<'t> {
    pub(crate) tokenizer: &'t Tokenizer,
    pub(crate) sent: Sentence,
    pub(crate) lattice: Lattice,
    pub(crate) lattice_chars: Ghost<Seq<char>>,
    pub(crate) one_best_ready: bool,
    pub(crate) nbest_mode: bool,
    pub(crate) empty_tokenized: bool,
    pub(crate) top_nodes: Vec<(usize, Node)>,
    pub(crate) top_path: Ghost<Seq<(int, int)>>,
    pub(crate) counter: Option<ConnIdCounter>,
    pub(crate) nbest_paths: Vec<(Vec<(usize, Node)>, i64)>,
    pub(crate) nbest_refs: Ghost<Seq<Seq<(int, int)>>>,
}

/// `nodes` lists the nodes of `p` in order, with their ends.
pub open spec fn path_nodes(ends: Seq<Seq<Node>>, nodes: Seq<(usize, Node)>, p: Seq<(int, int)>) -> bool {
    &&& nodes.len() == p.len()
    &&& forall|i: int|
        0 <= i < nodes.len() ==> #[trigger] nodes[i] == (p[i].0 as usize, node_at(ends, p[i]))
}

/// Paths from BOS to EOS in lattice lists ordered by start, kind and id
/// that differ as paths differ in the tokens they show.
pub proof fn lemma_nbest_keys_distinct(
    ends: Seq<Seq<Node>>,
    eos: Node,
    nb: Seq<(Seq<(usize, Node)>, i64)>,
    refs: Seq<Seq<(int, int)>>,
)
    requires
        crate::tokenizer::lists_sorted(ends),
        ends.len() <= usize::MAX + 1,
        refs.len() == nb.len(),
        forall|i: int|
            0 <= i < nb.len() ==> is_complete_path(ends, eos, #[trigger] refs[i]) && path_nodes(
                ends,
                nb[i].0,
                refs[i],
            ),
        forall|i: int, j: int| 0 <= i < j < refs.len() ==> #[trigger] refs[i] != #[trigger] refs[j],
    ensures
        forall|i: int, j: int|
            0 <= i < j < nb.len() ==> crate::tokenizer::path_keys(#[trigger] nb[i].0)
                != crate::tokenizer::path_keys(#[trigger] nb[j].0),
{
    assert forall|i: int, j: int| 0 <= i < j < nb.len() implies crate::tokenizer::path_keys(
        #[trigger] nb[i].0,
    ) != crate::tokenizer::path_keys(#[trigger] nb[j].0) by {
        let p = refs[i];
        let q = refs[j];
        assert(is_complete_path(ends, eos, p) && path_nodes(ends, nb[i].0, p));
        assert(is_complete_path(ends, eos, q) && path_nodes(ends, nb[j].0, q));
        let kp = crate::tokenizer::path_keys(nb[i].0);
        let kq = crate::tokenizer::path_keys(nb[j].0);
        if kp == kq {
            assert(kp.len() == nb[i].0.len() && kq.len() == nb[j].0.len());
            assert(p.len() == q.len());
            assert forall|t: int| 0 <= t < p.len() implies crate::tokenizer::token_key(
                p[t].0,
                node_at(ends, p[t]),
            ) == #[trigger] crate::tokenizer::token_key(q[t].0, node_at(ends, q[t])) by {
                assert(nb[i].0[t] == (p[t].0 as usize, node_at(ends, p[t])));
                assert(nb[j].0[t] == (q[t].0 as usize, node_at(ends, q[t])));
                assert(valid_ref(ends, p[t]) && valid_ref(ends, q[t]));
                assert(kp[t] == kq[t]);
            }
            crate::tokenizer::lemma_paths_by_keys(ends, p, q);
        }
    }
}

impl<'t> Worker<'t> {
    pub closed spec fn spec_tokenizer(&self) -> &Tokenizer {
        self.tokenizer
    }

    /// The sentence set last.
    pub closed spec fn spec_sent(&self) -> Sentence {
        self.sent
    }

    /// The lattice built last.
    pub closed spec fn spec_lattice(&self) -> Lattice {
        self.lattice
    }

    /// The characters of the sentence that the lattice was built for.
    pub closed spec fn spec_lattice_chars(&self) -> Seq<char> {
        self.lattice_chars@
    }

    /// Whether the 1-best tokenization of the current sentence is available.
    pub closed spec fn spec_ready(&self) -> bool {
        self.one_best_ready
    }

    /// Whether the lattice was last built for N-best tokenization.
    pub closed spec fn spec_nbest_mode(&self) -> bool {
        self.nbest_mode
    }

    /// Whether the last tokenization was of an empty sentence, which has no
    /// lattice and so no connections.
    pub closed spec fn spec_empty_tokenized(&self) -> bool {
        self.empty_tokenized
    }

    /// The resultant nodes with their ends, from the last token to the first.
    pub closed spec fn spec_top(&self) -> Seq<(usize, Node)> {
        self.top_nodes@
    }

    /// The path of the resultant tokens through the lattice.
    pub closed spec fn spec_top_path(&self) -> Seq<(int, int)> {
        self.top_path@
    }

    pub closed spec fn spec_counter(&self) -> Option<ConnIdCounter> {
        self.counter
    }

    /// The N-best paths, each as its nodes in order with its cost.
    pub closed spec fn spec_nbest(&self) -> Seq<(Seq<(usize, Node)>, i64)> {
        self.nbest_paths@.map_values(|x: (Vec<(usize, Node)>, i64)| (x.0@, x.1))
    }

    /// The N-best paths as references into the lattice.
    pub closed spec fn spec_nbest_refs(&self) -> Seq<Seq<(int, int)>> {
        self.nbest_refs@
    }

    /// The worker's parts agree with each other: the lattice is sound for
    /// the characters it was built for, the tokens form the best chain of
    /// the lattice of the current sentence, and each N-best path is a path
    /// from BOS to EOS of that lattice with its cost.
    pub open spec fn wf(&self) -> bool {
        let t = self.spec_tokenizer();
        let d = t.spec_inner();
        let conn = d.connector_spec();
        let l = self.spec_lattice();
        let ends = l.spec_ends();
        let nb = self.spec_nbest();
        let refs = self.spec_nbest_refs();
        &&& t.wf()
        &&& self.spec_sent().wf(d.char_prop_spec())
        &&& l.wf(conn)
        &&& l.spec_len() == self.spec_lattice_chars().len()
        &&& lattice_sound(d, self.spec_lattice_chars(), ends)
        &&& self.spec_ready() ==> self.spec_lattice_chars() == self.spec_sent().spec_chars()
            && !self.spec_nbest_mode()
        &&& (self.spec_ready() && l.spec_eos() is Some) ==> is_best_chain(
            ends,
            l.spec_eos().unwrap(),
            self.spec_top_path(),
        ) && top_matches(ends, self.spec_top(), self.spec_top_path())
        &&& !(self.spec_ready() && l.spec_eos() is Some) ==> self.spec_top().len() == 0
        &&& refs.len() == nb.len()
        &&& nb.len() > 0 ==> self.spec_nbest_mode() && l.spec_eos() is Some
            && self.spec_lattice_chars() == self.spec_sent().spec_chars()
        &&& forall|i: int|
            0 <= i < nb.len() ==> {
                &&& is_complete_path(ends, l.spec_eos().unwrap(), #[trigger] refs[i])
                &&& path_nodes(ends, nb[i].0, refs[i])
                &&& nb[i].1 == total_path_cost(ends, conn, refs[i])
            }
        &&& self.spec_counter() matches Some(c) ==> c.spec_lid_count().len() == conn.spec_num_left()
            && c.spec_rid_count().len() == conn.spec_num_right()
    }

    /// Creates a new worker for the tokenizer, with an empty sentence.
    pub fn new(tokenizer: &'t Tokenizer) -> (w: Self)
        requires
            tokenizer.wf(),
        ensures
            w.wf(),
            w.spec_tokenizer() == tokenizer,
            w.spec_sent().spec_len() == 0,
            !w.spec_ready(),
            w.spec_nbest().len() == 0,
            w.spec_counter() is None,
            !w.spec_empty_tokenized(),
    {
        let d = tokenizer.dictionary().data();
        let empty = String::new();
        let sent = Sentence::compile(empty.as_str(), d.char_prop());
        let lattice = Lattice::new(0);
        let conn = d.connector();
        proof {
            lattice.lemma_new_wf(conn);
        }
        Worker {
            tokenizer,
            sent,
            lattice,
            lattice_chars: Ghost(Seq::empty()),
            one_best_ready: false,
            nbest_mode: false,
            empty_tokenized: false,
            top_nodes: Vec::new(),
            top_path: Ghost(Seq::empty()),
            counter: None,
            nbest_paths: Vec::new(),
            nbest_refs: Ghost(Seq::empty()),
        }
    }

    /// Resets the input sentence to be tokenized.
    pub fn reset_sentence(&mut self, input: &str)
        requires
            old(self).wf(),
            input@.len() <= u32::MAX,
        ensures
            final(self).wf(),
            final(self).spec_tokenizer() == old(self).spec_tokenizer(),
            final(self).spec_sent().spec_chars() == input@,
            !final(self).spec_ready(),
            final(self).spec_top().len() == 0,
            final(self).spec_nbest().len() == 0,
            final(self).spec_lattice() == old(self).spec_lattice(),
            final(self).spec_nbest_mode() == old(self).spec_nbest_mode(),
            final(self).spec_empty_tokenized() == old(self).spec_empty_tokenized(),
            final(self).spec_counter() == old(self).spec_counter(),
    {
        self.nbest_paths = Vec::new();
        self.nbest_refs = Ghost(Seq::empty());
        self.one_best_ready = false;
        self.top_nodes = Vec::new();
        let d = self.tokenizer.dictionary().data();
        self.sent = Sentence::compile(input, d.char_prop());
        proof {
            assert(self.spec_nbest() =~= Seq::empty());
        }
    }

    /// Drops the lattice of the last tokenization, for an empty sentence.
    fn clear_lattice(&mut self)
        requires
            old(self).wf(),
            !old(self).spec_ready(),
            old(self).spec_nbest().len() == 0,
            old(self).spec_top().len() == 0,
        ensures
            final(self).wf(),
            final(self).spec_tokenizer() == old(self).spec_tokenizer(),
            final(self).spec_sent() == old(self).spec_sent(),
            final(self).spec_counter() == old(self).spec_counter(),
            final(self).spec_nbest_mode() == old(self).spec_nbest_mode(),
            !final(self).spec_ready(),
            final(self).spec_nbest().len() == 0,
            final(self).spec_top().len() == 0,
            final(self).spec_empty_tokenized(),
            final(self).spec_lattice().spec_len() == 0,
            final(self).spec_lattice().spec_eos() is None,
    {
        let lattice = Lattice::new(0);
        proof {
            lattice.lemma_new_wf(self.tokenizer.spec_inner().connector_spec());
        }
        self.lattice = lattice;
        self.lattice_chars = Ghost(Seq::empty());
        self.empty_tokenized = true;
    }

    /// Tokenizes the sentence set by `reset_sentence`: builds its lattice and
    /// takes the path of minimum cost from BOS to EOS.
    pub fn tokenize(&mut self)
        requires
            old(self).wf(),
        ensures
            final(self).wf(),
            final(self).spec_tokenizer() == old(self).spec_tokenizer(),
            final(self).spec_sent() == old(self).spec_sent(),
            final(self).spec_counter() == old(self).spec_counter(),
            final(self).spec_nbest().len() == 0,
            final(self).spec_ready() == (old(self).spec_sent().spec_len() > 0),
            final(self).spec_empty_tokenized() == (old(self).spec_sent().spec_len() == 0),
            old(self).spec_sent().spec_len() == 0 ==> final(self).spec_lattice().spec_len() == 0
                && final(self).spec_lattice().spec_eos() is None,
            final(self).spec_ready() ==> lattice_complete(
                final(self).spec_tokenizer(),
                final(self).spec_sent().spec_chars(),
                final(self).spec_sent().spec_cinfos(),
                &final(self).spec_lattice(),
            ) && lattice_ties(final(self).spec_tokenizer(), &final(self).spec_lattice()),
            final(self).spec_ready() ==> ({
                let l = final(self).spec_lattice();
                let conn = final(self).spec_tokenizer().spec_inner().connector_spec();
                l.spec_eos() matches Some(eos) ==> forall|p: Seq<(int, int)>|
                    is_complete_path(l.spec_ends(), eos, p) ==> total_path_cost(
                        l.spec_ends(),
                        conn,
                        final(self).spec_top_path(),
                    ) == eos.min_cost <= #[trigger] total_path_cost(l.spec_ends(), conn, p)
            }),
    {
        self.one_best_ready = false;
        self.top_nodes = Vec::new();
        self.nbest_paths = Vec::new();
        self.nbest_refs = Ghost(Seq::empty());
        proof {
            assert(self.spec_nbest() =~= Seq::empty());
        }
        if self.sent.len_char() == 0 {
            self.clear_lattice();
            self.nbest_mode = false;
            return;
        }
        let tokenizer = self.tokenizer;
        let conn = tokenizer.dictionary().data().connector();
        let lattice = tokenizer.build_lattice(&self.sent);
        self.lattice = lattice;
        self.lattice_chars = Ghost(self.sent.spec_chars());
        self.empty_tokenized = false;
        self.nbest_mode = false;
        if self.lattice.eos().is_some() {
            let (top, path) = self.lattice.append_top_nodes(conn);
            self.top_nodes = top;
            self.top_path = path;
            proof {
                let l = self.lattice;
                let eos = l.spec_eos().unwrap();
                l.lemma_best_chain_cost(conn, path@);
                assert forall|p: Seq<(int, int)>|
                    is_complete_path(l.spec_ends(), eos, p) implies total_path_cost(
                    l.spec_ends(),
                    conn,
                    path@,
                ) == eos.min_cost <= #[trigger] total_path_cost(l.spec_ends(), conn, p) by {
                    l.lemma_viterbi_optimal(conn, p);
                }
            }
        }
        self.one_best_ready = true;
    }

    /// Tokenizes the sentence and keeps up to `n` best paths through its
    /// lattice, by increasing cost.
    ///
    /// After calling this, the results can be accessed via `num_nbest_paths()`,
    /// `path_cost(path_idx)`, and `nbest_token_iter(path_idx)`.
    pub fn tokenize_nbest(&mut self, n: usize)
        requires
            old(self).wf(),
        ensures
            final(self).wf(),
            final(self).spec_tokenizer() == old(self).spec_tokenizer(),
            final(self).spec_sent() == old(self).spec_sent(),
            final(self).spec_counter() == old(self).spec_counter(),
            !final(self).spec_ready(),
            final(self).spec_top().len() == 0,
            final(self).spec_nbest().len() <= n,
            final(self).spec_empty_tokenized() == (old(self).spec_sent().spec_len() == 0),
            old(self).spec_sent().spec_len() == 0 ==> final(self).spec_nbest().len() == 0
                && final(self).spec_lattice().spec_len() == 0
                && final(self).spec_lattice().spec_eos() is None
                && final(self).spec_nbest_mode(),
            old(self).spec_sent().spec_len() > 0 ==> final(self).spec_nbest_mode()
                && final(self).spec_lattice_chars() == old(self).spec_sent().spec_chars()
                && lattice_complete(
                final(self).spec_tokenizer(),
                final(self).spec_sent().spec_chars(),
                final(self).spec_sent().spec_cinfos(),
                &final(self).spec_lattice(),
            ) && lattice_ties(final(self).spec_tokenizer(), &final(self).spec_lattice()),
            forall|i: int, j: int|
                0 <= i <= j < final(self).spec_nbest().len() ==> final(self).spec_lattice().spec_eos().unwrap().min_cost
                    <= #[trigger] final(self).spec_nbest()[i].1 <= #[trigger] final(self).spec_nbest()[j].1,
            forall|i: int, j: int|
                0 <= i < j < final(self).spec_nbest_refs().len() ==> #[trigger] final(self).spec_nbest_refs()[i]
                    != #[trigger] final(self).spec_nbest_refs()[j],
            n > 0 && final(self).spec_lattice().spec_eos() is Some && old(self).spec_sent().spec_len() > 0
                ==> final(self).spec_nbest().len() > 0 && final(self).spec_nbest()[0].1
                == final(self).spec_lattice().spec_eos().unwrap().min_cost,
            forall|i: int, j: int|
                0 <= i < j < final(self).spec_nbest().len() ==> crate::tokenizer::path_keys(
                    #[trigger] final(self).spec_nbest()[i].0,
                ) != crate::tokenizer::path_keys(#[trigger] final(self).spec_nbest()[j].0),
            old(self).spec_sent().spec_len() > 0 && final(self).spec_lattice().spec_eos() is Some ==> forall|
                p: Seq<(int, int)>,
            |
                is_complete_path(
                    final(self).spec_lattice().spec_ends(),
                    final(self).spec_lattice().spec_eos().unwrap(),
                    p,
                ) && !found(final(self).spec_nbest_refs(), p) ==> final(self).spec_nbest().len() == n
                    && forall|i: int|
                    0 <= i < final(self).spec_nbest().len() ==> #[trigger] final(self).spec_nbest()[i].1
                        <= total_path_cost(
                        final(self).spec_lattice().spec_ends(),
                        final(self).spec_tokenizer().spec_inner().connector_spec(),
                        p,
                    ),
    {
        self.one_best_ready = false;
        self.top_nodes = Vec::new();
        self.nbest_paths = Vec::new();
        self.nbest_refs = Ghost(Seq::empty());
        proof {
            assert(self.spec_nbest() =~= Seq::empty());
        }
        if self.sent.len_char() == 0 {
            self.clear_lattice();
            self.nbest_mode = true;
            return;
        }
        let tokenizer = self.tokenizer;
        let conn = tokenizer.dictionary().data().connector();
        let lattice = tokenizer.build_lattice(&self.sent);
        self.lattice = lattice;
        self.lattice_chars = Ghost(self.sent.spec_chars());
        self.empty_tokenized = false;
        self.nbest_mode = true;
        if self.lattice.eos().is_some() {
            let (paths, refs) = self.lattice.nbest_paths(conn, n);
            self.nbest_paths = paths;
            self.nbest_refs = refs;
            proof {
                let nb = self.spec_nbest();
                assert forall|i: int| 0 <= i < nb.len() implies {
                    &&& is_complete_path(
                        self.lattice.spec_ends(),
                        self.lattice.spec_eos().unwrap(),
                        #[trigger] self.nbest_refs@[i],
                    )
                    &&& path_nodes(self.lattice.spec_ends(), nb[i].0, self.nbest_refs@[i])
                    &&& nb[i].1 == total_path_cost(
                        self.lattice.spec_ends(),
                        conn,
                        self.nbest_refs@[i],
                    )
                } by {
                    assert(nb[i] == (paths@[i].0@, paths@[i].1));
                }
                assert forall|i: int, j: int|
                    0 <= i <= j < nb.len() implies self.lattice.spec_eos().unwrap().min_cost
                    <= #[trigger] nb[i].1 <= #[trigger] nb[j].1 by {
                    assert(nb[i] == (paths@[i].0@, paths@[i].1));
                    assert(nb[j] == (paths@[j].0@, paths@[j].1));
                }
                assert forall|p: Seq<(int, int)>|
                    is_complete_path(self.lattice.spec_ends(), self.lattice.spec_eos().unwrap(), p)
                        && !found(self.nbest_refs@, p) implies nb.len() == n && forall|i: int|
                    0 <= i < nb.len() ==> #[trigger] nb[i].1 <= total_path_cost(
                        self.lattice.spec_ends(),
                        conn,
                        p,
                    ) by {
                    assert forall|i: int| 0 <= i < nb.len() implies #[trigger] nb[i].1 <= total_path_cost(
                        self.lattice.spec_ends(),
                        conn,
                        p,
                    ) by {
                        assert(nb[i] == (paths@[i].0@, paths@[i].1));
                    }
                }
                lemma_nbest_keys_distinct(
                    self.lattice.spec_ends(),
                    self.lattice.spec_eos().unwrap(),
                    nb,
                    self.nbest_refs@,
                );
                if n > 0 {
                    let eos = self.lattice.spec_eos().unwrap();
                    let ends = self.lattice.spec_ends();
                    self.lattice.lemma_best_path_exists(conn);
                    let bp = choose|p: Seq<(int, int)>|
                        is_complete_path(ends, eos, p) && #[trigger] total_path_cost(ends, conn, p)
                            == eos.min_cost;
                    if found(self.nbest_refs@, bp) {
                        let i = choose|i: int| 0 <= i < self.nbest_refs@.len() && #[trigger] self.nbest_refs@[i] == bp;
                        assert(nb[i].1 == total_path_cost(ends, conn, self.nbest_refs@[i]));
                        assert(nb[0].1 <= nb[i].1);
                    } else {
                        assert(nb[0].1 <= total_path_cost(ends, conn, bp));
                    }
                    assert(eos.min_cost <= nb[0].1 <= nb[0].1);
                }
            }
        }
    }

    /// Gets the number of resultant tokens.
    pub fn num_tokens(&self) -> (n: usize)
        ensures
            n == self.spec_top().len(),
    {
        self.top_nodes.len()
    }

    /// Gets the `i`-th resultant token.
    pub fn token<'w>(&'w self, i: usize) -> (t: Token<'w>)
        requires
            self.wf(),
            i < self.spec_top().len(),
        ensures
            t.wf(),
            t.spec_sent() == self.spec_sent(),
            t.spec_dict() == self.spec_tokenizer().spec_dict(),
            (t.spec_end(), t.spec_node()) == self.spec_top()[self.spec_top().len() - 1 - i],
    {
        let index = self.top_nodes.len() - i - 1;
        let (end, node) = self.top_nodes[index];
        proof {
            let ends = self.lattice.spec_ends();
            let p = self.top_path@;
            let r = p[p.len() - 1 - index];
            assert(self.top_nodes@[index as int] == (r.0 as usize, node_at(ends, r)));
            assert(crate::tokenizer::lattice::valid_ref(ends, p[p.len() - 1 - index]));
            assert(node_sound(
                self.tokenizer.spec_inner(),
                self.lattice_chars@,
                r.0,
                ends[r.0][r.1],
            ));
        }
        Token { sent: &self.sent, dict: self.tokenizer.dictionary(), end, node }
    }

    /// Gets the resultant tokens in order.
    pub fn token_iter<'w>(&'w self) -> (r: Vec<Token<'w>>)
        requires
            self.wf(),
        ensures
            r@.len() == self.spec_top().len(),
            forall|i: int|
                0 <= i < r@.len() ==> (#[trigger] r@[i]).wf() && r@[i].spec_sent() == self.spec_sent()
                    && r@[i].spec_dict() == self.spec_tokenizer().spec_dict() && (
                    r@[i].spec_end(),
                    r@[i].spec_node(),
                ) == self.spec_top()[self.spec_top().len() - 1 - i],
    {
        let mut r: Vec<Token<'w>> = Vec::new();
        let n = self.num_tokens();
        let mut i: usize = 0;
        while i < n
            invariant
                self.wf(),
                n == self.spec_top().len(),
                i <= n,
                r@.len() == i,
                forall|k: int|
                    0 <= k < i ==> (#[trigger] r@[k]).wf() && r@[k].spec_sent() == self.spec_sent()
                        && r@[k].spec_dict() == self.spec_tokenizer().spec_dict() && (
                        r@[k].spec_end(),
                        r@[k].spec_node(),
                    ) == self.spec_top()[self.spec_top().len() - 1 - k],
            decreases n - i,
        {
            r.push(self.token(i));
            i += 1;
        }
        r
    }

    /// Returns the minimum cost of the sentence after a 1-best tokenization
    /// of a non-empty sentence.
    pub fn total_cost(&self) -> (r: Option<i64>)
        ensures
            r == if self.spec_ready() && !self.spec_nbest_mode() && self.spec_lattice().spec_eos() is Some {
                Some(self.spec_lattice().spec_eos().unwrap().min_cost)
            } else {
                None::<i64>
            },
    {
        if !self.one_best_ready {
            return None;
        }
        if self.nbest_mode {
            return None;
        }
        match self.lattice.eos() {
            Some(node) => Some(node.min_cost),
            None => None,
        }
    }

    /// Initializes a counter to compute occurrence probabilities of connection ids.
    pub fn init_connid_counter(&mut self)
        requires
            old(self).wf(),
        ensures
            final(self).wf(),
            final(self).spec_tokenizer() == old(self).spec_tokenizer(),
            final(self).spec_sent() == old(self).spec_sent(),
            final(self).spec_lattice() == old(self).spec_lattice(),
            final(self).spec_ready() == old(self).spec_ready(),
            final(self).spec_top() == old(self).spec_top(),
            final(self).spec_nbest() == old(self).spec_nbest(),
            final(self).spec_empty_tokenized() == old(self).spec_empty_tokenized(),
            final(self).spec_counter() matches Some(c) && c.spec_lid_count() == Seq::new(
                old(self).spec_tokenizer().spec_inner().connector_spec().spec_num_left() as nat,
                |_i: int| 0u64,
            ) && c.spec_rid_count() == Seq::new(
                old(self).spec_tokenizer().spec_inner().connector_spec().spec_num_right() as nat,
                |_i: int| 0u64,
            ),
    {
        let conn = self.tokenizer.dictionary().data().connector();
        self.counter = Some(ConnIdCounter::new(conn.num_left(), conn.num_right()));
    }

    /// Updates the frequencies of connection ids at the last tokenization:
    /// each pair of adjacent nodes of its lattice counts once, and an empty
    /// sentence has none.
    pub fn update_connid_counts(&mut self)
        requires
            old(self).wf(),
            old(self).spec_counter() is Some,
            old(self).spec_lattice().spec_eos() is Some || old(self).spec_empty_tokenized(),
        ensures
            final(self).wf(),
            final(self).spec_tokenizer() == old(self).spec_tokenizer(),
            final(self).spec_sent() == old(self).spec_sent(),
            final(self).spec_lattice() == old(self).spec_lattice(),
            final(self).spec_ready() == old(self).spec_ready(),
            final(self).spec_top() == old(self).spec_top(),
            final(self).spec_nbest() == old(self).spec_nbest(),
            final(self).spec_empty_tokenized() == old(self).spec_empty_tokenized(),
            old(self).spec_empty_tokenized() ==> final(self).spec_counter() == old(self).spec_counter(),
            !old(self).spec_empty_tokenized() ==> (final(self).spec_counter() matches Some(c) && (
            c.spec_lid_count(), c.spec_rid_count()) == counted(
                old(self).spec_counter().unwrap().spec_lid_count(),
                old(self).spec_counter().unwrap().spec_rid_count(),
                connid_pairs(&old(self).spec_lattice()),
            )),
            !old(self).spec_empty_tokenized() ==> forall|k: int|
                0 <= k < old(self).spec_counter().unwrap().spec_rid_count().len()
                    && old(self).spec_counter().unwrap().spec_rid_count()[k] + connid_pairs(
                    &old(self).spec_lattice(),
                ).len() <= u64::MAX ==> #[trigger] final(self).spec_counter().unwrap().spec_rid_count()[k]
                    == old(self).spec_counter().unwrap().spec_rid_count()[k] + conn_count(
                    &old(self).spec_lattice(),
                    crate::tokenizer::lattice::right_id_is(k),
                ),
            !old(self).spec_empty_tokenized() ==> forall|k: int|
                0 <= k < old(self).spec_counter().unwrap().spec_lid_count().len()
                    && old(self).spec_counter().unwrap().spec_lid_count()[k] + connid_pairs(
                    &old(self).spec_lattice(),
                ).len() <= u64::MAX ==> #[trigger] final(self).spec_counter().unwrap().spec_lid_count()[k]
                    == old(self).spec_counter().unwrap().spec_lid_count()[k] + conn_count(
                    &old(self).spec_lattice(),
                    crate::tokenizer::lattice::left_id_is(k),
                ),
    {
        if self.empty_tokenized {
            return;
        }
        let conn = self.tokenizer.dictionary().data().connector();
        let mut c = self.counter.take().unwrap();
        self.lattice.add_connid_counts(conn, &mut c);
        proof {
            crate::dictionary::mapper::lemma_counted_len(
                old(self).spec_counter().unwrap().spec_lid_count(),
                old(self).spec_counter().unwrap().spec_rid_count(),
                connid_pairs(&old(self).spec_lattice()),
            );
            let lid0 = old(self).spec_counter().unwrap().spec_lid_count();
            let rid0 = old(self).spec_counter().unwrap().spec_rid_count();
            assert forall|k: int|
                0 <= k < rid0.len() && rid0[k] + connid_pairs(&old(self).spec_lattice()).len() <= u64::MAX
                    implies #[trigger] c.spec_rid_count()[k] == rid0[k] + conn_count(
                    &old(self).spec_lattice(),
                    crate::tokenizer::lattice::right_id_is(k),
                ) by {
                crate::tokenizer::lattice::lemma_connid_counts(&old(self).spec_lattice(), lid0, rid0, k);
            }
            assert forall|k: int|
                0 <= k < lid0.len() && lid0[k] + connid_pairs(&old(self).spec_lattice()).len() <= u64::MAX
                    implies #[trigger] c.spec_lid_count()[k] == lid0[k] + conn_count(
                    &old(self).spec_lattice(),
                    crate::tokenizer::lattice::left_id_is(k),
                ) by {
                crate::tokenizer::lattice::lemma_connid_counts(&old(self).spec_lattice(), lid0, rid0, k);
            }
        }
        self.counter = Some(c);
    }

    /// Gets the counter of connection ids, if it was initialized.
    pub fn connid_counter(&self) -> (r: Option<&ConnIdCounter>)
        ensures
            r matches Some(c) ==> self.spec_counter() == Some(*c),
            r is None ==> self.spec_counter() is None,
    {
        match &self.counter {
            Some(c) => Some(c),
            None => None,
        }
    }

    /// Returns the number of N-best paths found.
    pub fn num_nbest_paths(&self) -> (n: usize)
        ensures
            n == self.spec_nbest().len(),
    {
        self.nbest_paths.len()
    }

    /// Returns the total cost of the N-best path at `path_idx`.
    pub fn path_cost(&self, path_idx: usize) -> (r: Option<i64>)
        ensures
            r == if path_idx < self.spec_nbest().len() {
                Some(self.spec_nbest()[path_idx as int].1)
            } else {
                None::<i64>
            },
    {
        if path_idx < self.nbest_paths.len() {
            Some(self.nbest_paths[path_idx].1)
        } else {
            None
        }
    }

    /// Returns the tokens of the N-best path at `path_idx`.
    pub fn nbest_token_iter<'w>(&'w self, path_idx: usize) -> (r: Option<Vec<Token<'w>>>)
        requires
            self.wf(),
        ensures
            r is Some <==> path_idx < self.spec_nbest().len(),
            r matches Some(ts) ==> {
                let nodes = self.spec_nbest()[path_idx as int].0;
                &&& ts@.len() == nodes.len()
                &&& forall|i: int|
                    0 <= i < ts@.len() ==> (#[trigger] ts@[i]).wf() && ts@[i].spec_sent()
                        == self.spec_sent() && ts@[i].spec_dict() == self.spec_tokenizer().spec_dict()
                        && (ts@[i].spec_end(), ts@[i].spec_node()) == nodes[i]
            },
    {
        if path_idx >= self.nbest_paths.len() {
            return None;
        }
        let nodes = &self.nbest_paths[path_idx].0;
        let ghost p = self.nbest_refs@[path_idx as int];
        proof {
            assert(self.spec_nbest()[path_idx as int].0 == nodes@);
        }
        let mut r: Vec<Token<'w>> = Vec::new();
        let mut i: usize = 0;
        while i < nodes.len()
            invariant
                self.wf(),
                path_idx < self.spec_nbest().len(),
                p == self.spec_nbest_refs()[path_idx as int],
                nodes@ == self.spec_nbest()[path_idx as int].0,
                i <= nodes@.len(),
                r@.len() == i,
                forall|k: int|
                    0 <= k < i ==> (#[trigger] r@[k]).wf() && r@[k].spec_sent() == self.spec_sent()
                        && r@[k].spec_dict() == self.spec_tokenizer().spec_dict() && (
                        r@[k].spec_end(),
                        r@[k].spec_node(),
                    ) == nodes@[k],
            decreases nodes@.len() - i,
        {
            let (end, node) = nodes[i];
            proof {
                let ends = self.lattice.spec_ends();
                assert(is_complete_path(ends, self.lattice.spec_eos().unwrap(), self.nbest_refs@[path_idx as int]));
                assert(nodes@[i as int] == (p[i as int].0 as usize, node_at(ends, p[i as int])));
                assert(crate::tokenizer::lattice::valid_ref(ends, p[i as int]));
                assert(node_sound(
                    self.tokenizer.spec_inner(),
                    self.lattice_chars@,
                    p[i as int].0,
                    ends[p[i as int].0][p[i as int].1],
                ));
            }
            r.push(Token { sent: &self.sent, dict: self.tokenizer.dictionary(), end, node });
            i += 1;
        }
        Some(r)
    }
}

/// A candidate on a complete path through the tokenized sentence.
#[derive(Debug, PartialEq, Eq)]
pub struct LatticeCandidate {
    /// Character boundary including any skipped leading spaces.
    pub start_node: usize,
    /// Character span of the surface, excluding skipped spaces.
    pub range_char: Range<usize>,
    /// Byte span of the surface, excluding skipped spaces.
    pub range_byte: Range<usize>,
    /// Dictionary feature string.
    pub feature: String,
    /// Identifier of the dictionary entry.
    pub word_idx: WordIdx,
    /// Left connection identifier.
    pub left_id: u16,
    /// Right connection identifier.
    pub right_id: u16,
    /// Dictionary word cost.
    pub word_cost: i16,
    /// Minimum cost from BOS through this candidate, including its word cost.
    pub cost: i64,
    /// Additional sentence cost when the path must pass through this candidate.
    pub delta: i64,
}

impl Clone for LatticeCandidate {
    fn clone(&self) -> (c: Self)
        ensures
            c.start_node == self.start_node,
            c.range_char == self.range_char,
            c.range_byte == self.range_byte,
            c.feature@ == self.feature@,
            c.word_idx == self.word_idx,
            c.left_id == self.left_id,
            c.right_id == self.right_id,
            c.word_cost == self.word_cost,
            c.cost == self.cost,
            c.delta == self.delta,
    {
        LatticeCandidate {
            start_node: self.start_node,
            range_char: self.range_char.start..self.range_char.end,
            range_byte: self.range_byte.start..self.range_byte.end,
            feature: self.feature.clone(),
            word_idx: self.word_idx,
            left_id: self.left_id,
            right_id: self.right_id,
            word_cost: self.word_cost,
            cost: self.cost,
            delta: self.delta,
        }
    }
}

/// Owned lattice candidates and the selected best path.
#[derive(Debug, Clone, PartialEq, Eq)]
pub struct LatticeSnapshot {
    /// Candidates lying on at least one complete path from BOS to EOS.
    pub nodes: Vec<LatticeCandidate>,
    /// Indices into `nodes`, in the selected path's order.
    pub best_path: Vec<usize>,
    /// Minimum sentence cost including the transition to EOS.
    pub total_cost: i64,
}

/// `c` describes the node `r` of the lattice of `chars`, whose best cost to
/// EOS is `tail`, in a sentence of minimum cost `total`.
pub open spec fn candidate_of(
    c: LatticeCandidate,
    d: &DictionaryInner,
    chars: Seq<char>,
    ends: Seq<Seq<Node>>,
    r: (int, int),
    tail: int,
    total: int,
) -> bool {
    let n = node_at(ends, r);
    &&& c.start_node == n.start_node
    &&& c.range_char.start == n.start_word
    &&& c.range_char.end == r.0
    &&& c.range_byte.start == byte_pos(chars, n.start_word as int)
    &&& c.range_byte.end == byte_pos(chars, r.0)
    &&& c.feature@ == d.spec_word_feature(n.word_idx_spec())
    &&& c.word_idx == n.word_idx_spec()
    &&& c.left_id == n.left_id
    &&& c.right_id == n.right_id
    &&& c.word_cost == n.word_cost
    &&& c.cost == n.min_cost
    &&& c.delta == n.min_cost + tail - total
}

/// The candidates `nodes`, taken from the references `fl[ks[m]]` of the
/// lattice `ends` with EOS `eos` and total cost `total`, are exactly the
/// nodes on some path from BOS to EOS, each once; each one's cost is the
/// least cost of a path from BOS to it, and the total plus its delta is the
/// least cost of a path from BOS to EOS through it, both attained.
pub open spec fn snapshot_exact(
    ends: Seq<Seq<Node>>,
    conn: &MatrixConnector,
    eos: Node,
    fl: Seq<(int, int)>,
    ks: Seq<int>,
    nodes: Seq<LatticeCandidate>,
    total: int,
) -> bool {
    &&& forall|a: int, b: int| 0 <= a < b < ks.len() ==> #[trigger] fl[ks[a]] != #[trigger] fl[ks[b]]
    &&& forall|r: (int, int)|
        valid_ref(ends, r) ==> ((exists|p: Seq<(int, int)>, k: int|
            is_complete_path(ends, eos, p) && 0 <= k < p.len() && #[trigger] p[k] == r) <==> (exists|m: int|
            0 <= m < ks.len() && #[trigger] fl[ks[m]] == r))
    &&& forall|m: int|
        0 <= m < nodes.len() ==> {
            let r = fl[ks[m]];
            &&& (exists|a: Seq<(int, int)>|
                is_path(ends, a) && a.len() > 0 && a.last() == r && path_cost(ends, conn, a)
                    == (#[trigger] nodes[m]).cost)
            &&& forall|a: Seq<(int, int)>|
                is_path(ends, a) && a.len() > 0 && a.last() == r ==> nodes[m].cost <= #[trigger] path_cost(
                    ends,
                    conn,
                    a,
                )
            &&& (exists|p: Seq<(int, int)>, k: int|
                is_complete_path(ends, eos, p) && 0 <= k < p.len() && #[trigger] p[k] == r
                    && total_path_cost(ends, conn, p) == total + nodes[m].delta)
            &&& forall|p: Seq<(int, int)>, k: int|
                is_complete_path(ends, eos, p) && 0 <= k < p.len() && #[trigger] p[k] == r
                    ==> total_path_cost(ends, conn, p) >= total + nodes[m].delta
        }
}

/// Candidates made from the kept nodes of a lattice, as `lattice_snapshot`
/// makes them, meet `snapshot_exact`.
proof fn lemma_snapshot_exact(
    l: &Lattice,
    conn: &MatrixConnector,
    d: &DictionaryInner,
    chars: Seq<char>,
    nodes: Seq<LatticeCandidate>,
)
    requires
        l.wf(conn),
        l.spec_eos() is Some,
        ({
            let ends = l.spec_ends();
            let eos = l.spec_eos().unwrap();
            let fl = flat_refs(ends, l.spec_len());
            let ts = tails(ends, conn, eos.start_node as int, fl, 0);
            let ks = kept(ts, fl.len() as int);
            &&& nodes.len() == ks.len()
            &&& forall|m: int|
                0 <= m < ks.len() ==> candidate_of(
                    #[trigger] nodes[m],
                    d,
                    chars,
                    ends,
                    fl[ks[m]],
                    ts[ks[m]].unwrap(),
                    eos.min_cost as int,
                )
        }),
    ensures
        ({
            let ends = l.spec_ends();
            let eos = l.spec_eos().unwrap();
            let fl = flat_refs(ends, l.spec_len());
            let ts = tails(ends, conn, eos.start_node as int, fl, 0);
            let ks = kept(ts, fl.len() as int);
            snapshot_exact(ends, conn, eos, fl, ks, nodes, eos.min_cost as int)
        }),
{
    let ends = l.spec_ends();
    let eos = l.spec_eos().unwrap();
    let fl = flat_refs(ends, l.spec_len());
    let ts = tails(ends, conn, eos.start_node as int, fl, 0);
    let ks = kept(ts, fl.len() as int);
    let total = eos.min_cost as int;
    l.lemma_kept_nodes(conn);
    assert forall|m: int| 0 <= m < nodes.len() implies {
        let r = fl[ks[m]];
        &&& (exists|a: Seq<(int, int)>|
            is_path(ends, a) && a.len() > 0 && a.last() == r && path_cost(ends, conn, a)
                == (#[trigger] nodes[m]).cost)
        &&& forall|a: Seq<(int, int)>|
            is_path(ends, a) && a.len() > 0 && a.last() == r ==> nodes[m].cost <= #[trigger] path_cost(
                ends,
                conn,
                a,
            )
        &&& (exists|p: Seq<(int, int)>, k: int|
            is_complete_path(ends, eos, p) && 0 <= k < p.len() && #[trigger] p[k] == r
                && total_path_cost(ends, conn, p) == total + nodes[m].delta)
        &&& forall|p: Seq<(int, int)>, k: int|
            is_complete_path(ends, eos, p) && 0 <= k < p.len() && #[trigger] p[k] == r
                ==> total_path_cost(ends, conn, p) >= total + nodes[m].delta
    } by {
        assert(candidate_of(nodes[m], d, chars, ends, fl[ks[m]], ts[ks[m]].unwrap(), total));
        assert(fl[ks[m]] == fl[ks[m]]);
    }
}

impl<'t> Worker<'t> {
    /// Returns all candidates after `tokenize`, including their minimum
    /// path-cost differences.
    ///
    /// Returns `None` before tokenization or after N-best tokenization. The
    /// snapshot owns its data and remains valid when the worker is reused.
    /// BOS and EOS are omitted.
    pub fn lattice_snapshot(&self) -> (r: Option<LatticeSnapshot>)
        requires
            self.wf(),
        ensures
            r is Some <==> (self.spec_ready() && !self.spec_nbest_mode()
                && self.spec_lattice().spec_eos() is Some),
            r matches Some(snap) ==> {
                let d = self.spec_tokenizer().spec_inner();
                let conn = d.connector_spec();
                let l = self.spec_lattice();
                let ends = l.spec_ends();
                let eos = l.spec_eos().unwrap();
                let fl = flat_refs(ends, l.spec_len());
                let ts = tails(ends, conn, eos.start_node as int, fl, 0);
                let ks = kept(ts, fl.len() as int);
                &&& snap.total_cost == eos.min_cost
                &&& snap.nodes@.len() == ks.len()
                &&& forall|m: int|
                    0 <= m < ks.len() ==> candidate_of(
                        #[trigger] snap.nodes@[m],
                        d,
                        self.spec_sent().spec_chars(),
                        ends,
                        fl[ks[m]],
                        ts[ks[m]].unwrap(),
                        eos.min_cost as int,
                    )
                &&& snap.best_path@.len() == self.spec_top_path().len()
                &&& forall|t: int|
                    0 <= t < snap.best_path@.len() ==> #[trigger] snap.best_path@[t] < ks.len()
                        && fl[ks[snap.best_path@[t] as int]] == self.spec_top_path()[t]
                &&& forall|m: int| 0 <= m < snap.nodes@.len() ==> #[trigger] snap.nodes@[m].delta >= 0
                &&& snapshot_exact(ends, conn, eos, fl, ks, snap.nodes@, snap.total_cost as int)
                &&& forall|t: int|
                    #![trigger snap.best_path@[t]]
                    0 <= t < snap.best_path@.len() ==> snap.nodes@[snap.best_path@[t] as int].delta
                        == 0
            },
    {
        if !self.one_best_ready {
            return None;
        }
        if self.nbest_mode {
            return None;
        }
        let eos = match self.lattice.eos() {
            Some(e) => e,
            None => {
                return None;
            },
        };
        let dict = self.tokenizer.dictionary();
        let d = dict.data();
        let conn = d.connector();
        let ghost ends = self.lattice.spec_ends();
        let ghost len = self.lattice.spec_len();
        let ghost fl = flat_refs(ends, len);
        let ghost es = eos.start_node as int;
        let (refs, start_of) = self.lattice.flat_node_refs();
        let backward = self.lattice.backward_costs(conn, &refs);
        let ghost ts = tails(ends, conn, es, fl, 0);
        proof {
            lemma_flat_refs(ends, len);
            lemma_tails_len(ends, conn, es, fl, 0);
            lemma_step_mono(len + 1, 0x1_0000_0001);
        }
        let total_cost = eos.min_cost;
        let n = refs.len();
        let mut nodes: Vec<LatticeCandidate> = Vec::new();
        let mut pos_of: Vec<usize> = Vec::new();
        let mut i: usize = 0;
        while i < n
            invariant
                self.wf(),
                self.spec_ready(),
                dict == self.spec_tokenizer().spec_dict(),
                d == dict.inner(),
                conn == d.connector_spec(),
                ends == self.lattice.spec_ends(),
                len == self.lattice.spec_len(),
                fl == flat_refs(ends, len),
                Some(eos) == self.lattice.spec_eos(),
                es == eos.start_node,
                total_cost == eos.min_cost,
                ts == tails(ends, conn, es, fl, 0),
                ts.len() == n,
                crate::tokenizer::lattice::refs_match(refs@, fl),
                n == refs@.len(),
                backward@.len() == n,
                forall|j: int| 0 <= j < n ==> dec_cost(#[trigger] backward@[j]) == ts[j],
                forall|j: int|
                    0 <= j < n && backward@[j] != i64::MAX ==> -(STEP_BOUND * (len + 1 - refs@[j].0))
                        <= #[trigger] backward@[j] <= STEP_BOUND * (len + 1 - refs@[j].0),
                forall|x: int|
                    0 <= x < fl.len() ==> 1 <= (#[trigger] fl[x]).0 <= len && valid_ref(ends, fl[x]),
                STEP_BOUND * (len + 1) <= STEP_BOUND * 0x1_0000_0001,
                i <= n,
                pos_of@.len() == i,
                nodes@.len() == kept(ts, i as int).len(),
                forall|x: int|
                    0 <= x < i && ts[x] is Some ==> #[trigger] pos_of@[x] < nodes@.len() && kept(
                        ts,
                        i as int,
                    )[pos_of@[x] as int] == x,
                forall|m: int|
                    0 <= m < nodes@.len() ==> candidate_of(
                        #[trigger] nodes@[m],
                        d,
                        self.spec_sent().spec_chars(),
                        ends,
                        fl[kept(ts, i as int)[m]],
                        ts[kept(ts, i as int)[m]].unwrap(),
                        total_cost as int,
                    ),
            decreases n - i,
        {
            pos_of.push(nodes.len());
            let rest = backward[i];
            let ghost old_kept = kept(ts, i as int);
            proof {
                lemma_kept(ts, i as int);
            }
            if rest != i64::MAX {
                let (e, k) = refs[i];
                proof {
                    assert(fl[i as int] == (e as int, k as int));
                    assert(valid_ref(ends, fl[i as int]));
                    assert(node_ok(ends, conn, e as int, ends[e as int][k as int]));
                    assert(node_sound(d, self.lattice_chars@, e as int, ends[e as int][k as int]));
                    lemma_step_mono(e as int, len + 1);
                    lemma_step_mono(len + 1 - e, len + 1);
                }
                let node = self.lattice.node(e, k);
                let w = node.word_idx();
                let feature = dict.word_feature(w).to_owned();
                let cand = LatticeCandidate {
                    start_node: node.start_node,
                    range_char: node.start_word..e,
                    range_byte: self.sent.byte_position(node.start_word)..self.sent.byte_position(e),
                    feature,
                    word_idx: w,
                    left_id: node.left_id,
                    right_id: node.right_id,
                    word_cost: node.word_cost,
                    cost: node.min_cost,
                    delta: node.min_cost + rest - total_cost,
                };
                nodes.push(cand);
                proof {
                    assert(kept(ts, i + 1) == old_kept.push(i as int));
                    assert(ts[i as int] == Some(rest as int));
                    assert forall|m: int| 0 <= m < nodes@.len() implies candidate_of(
                        #[trigger] nodes@[m],
                        d,
                        self.spec_sent().spec_chars(),
                        ends,
                        fl[kept(ts, i + 1)[m]],
                        ts[kept(ts, i + 1)[m]].unwrap(),
                        total_cost as int,
                    ) by {
                        if m < old_kept.len() {
                            assert(kept(ts, i + 1)[m] == old_kept[m]);
                        }
                    }
                    assert forall|x: int| 0 <= x < i + 1 && ts[x] is Some implies #[trigger] pos_of@[x]
                        < nodes@.len() && kept(ts, i + 1)[pos_of@[x] as int] == x by {
                        if x < i {
                            assert(kept(ts, i + 1)[pos_of@[x] as int] == old_kept[pos_of@[x] as int]);
                        }
                    }
                }
            } else {
                proof {
                    assert(kept(ts, i + 1) == old_kept);
                    assert(ts[i as int] is None);
                }
            }
            i += 1;
        }
        let num = self.top_nodes.len();
        let ghost p = self.top_path@;
        let mut best_path: Vec<usize> = Vec::new();
        let mut t: usize = 0;
        while t < num
            invariant
                self.wf(),
                self.spec_ready(),
                ends == self.lattice.spec_ends(),
                len == self.lattice.spec_len(),
                fl == flat_refs(ends, len),
                Some(eos) == self.lattice.spec_eos(),
                es == eos.start_node,
                ts == tails(ends, conn, es, fl, 0),
                conn == self.spec_tokenizer().spec_inner().connector_spec(),
                p == self.top_path@,
                num == p.len(),
                is_best_chain(ends, eos, p),
                top_matches(ends, self.top_nodes@, p),
                start_of@.len() == len + 1,
                forall|e: int| 1 <= e <= len ==> #[trigger] start_of@[e] == flat_refs(ends, e - 1).len(),
                n == fl.len(),
                pos_of@.len() == n,
                nodes@.len() == kept(ts, n as int).len(),
                forall|x: int|
                    0 <= x < n && ts[x] is Some ==> #[trigger] pos_of@[x] < nodes@.len() && kept(
                        ts,
                        n as int,
                    )[pos_of@[x] as int] == x,
                t <= num,
                best_path@.len() == t,
                forall|u: int|
                    0 <= u < t ==> #[trigger] best_path@[u] < nodes@.len() && fl[kept(
                        ts,
                        n as int,
                    )[best_path@[u] as int]] == p[u],
            decreases num - t,
        {
            let (e, _node) = self.top_nodes[num - 1 - t];
            let k = if t + 1 < num {
                self.top_nodes[num - 2 - t].1.min_idx
            } else {
                eos.min_idx
            };
            proof {
                assert(self.top_nodes@[num - 1 - t] == (p[p.len() - 1 - (num - 1 - t)].0 as usize, node_at(ends, p[p.len() - 1 - (num - 1 - t)])));
                assert(p.len() - 1 - (num - 1 - t) == t);
                if t + 1 < num {
                    assert(self.top_nodes@[num - 2 - t] == (p[p.len() - 1 - (num - 2 - t)].0 as usize, node_at(ends, p[p.len() - 1 - (num - 2 - t)])));
                    assert(p.len() - 1 - (num - 2 - t) == t + 1);
                    assert(node_at(ends, p[t + 1]).min_idx == p[t as int].1);
                }
                assert(valid_ref(ends, p[t as int]));
                assert(k == p[t as int].1);
                assert(self.lattice.wf(conn));
                lemma_flat_refs(ends, len);
                assert(flat_index(ends, p[t as int]) < fl.len() && fl[flat_index(ends, p[t as int])] == p[t as int]);
                self.lattice.lemma_path_tails(conn, p, t as int);
            }
            let idx = start_of[e] + k;
            best_path.push(pos_of[idx]);
            t += 1;
        }
        proof {
            let ks = kept(ts, n as int);
            lemma_kept(ts, n as int);
            assert forall|m: int| 0 <= m < nodes@.len() implies #[trigger] nodes@[m].delta >= 0 by {
                lemma_tails_index(ends, conn, es as int, fl, 0, ks[m]);
                self.lattice.lemma_tail_lower(conn, ks[m]);
            }
            lemma_flat_index(ends, len);
            lemma_flat_refs(ends, len);
            assert forall|t: int|
                #![trigger best_path@[t]]
                0 <= t < best_path@.len() implies nodes@[best_path@[t] as int].delta == 0 by {
                let m = best_path@[t] as int;
                self.lattice.lemma_best_chain_tails(conn, p, t);
                assert(flat_index(ends, fl[ks[m]]) == ks[m]);
            }
            lemma_snapshot_exact(&self.lattice, conn, d, self.spec_sent().spec_chars(), nodes@);
        }
        Some(LatticeSnapshot { nodes, best_path, total_cost })
    }
}

/// A resultant token.
pub struct Token<'a> {
    pub(crate) sent: &'a Sentence,
    pub(crate) dict: &'a Dictionary,
    pub(crate) end: usize,
    pub(crate) node: Node,
}

impl<'a> Token<'a> {
    pub closed spec fn spec_sent(&self) -> Sentence {
        *self.sent
    }

    pub closed spec fn spec_dict(&self) -> &Dictionary {
        self.dict
    }

    /// The position where the token ends.
    pub closed spec fn spec_end(&self) -> usize {
        self.end
    }

    /// The lattice node of the token.
    pub closed spec fn spec_node(&self) -> Node {
        self.node
    }

    /// The token is a word of its dictionary found in its sentence.
    pub open spec fn wf(&self) -> bool {
        &&& self.spec_dict().wf()
        &&& self.spec_sent().text_wf()
        &&& node_sound(
            self.spec_dict().inner(),
            self.spec_sent().spec_chars(),
            self.spec_end() as int,
            self.spec_node(),
        )
    }

    /// Gets the position range of the token in characters.
    pub fn range_char(&self) -> (r: Range<usize>)
        ensures
            r.start == self.spec_node().start_word,
            r.end == self.spec_end(),
    {
        self.node.start_word..self.end
    }

    /// Gets the position range of the token in bytes.
    pub fn range_byte(&self) -> (r: Range<usize>)
        requires
            self.wf(),
        ensures
            r.start == byte_pos(self.spec_sent().spec_chars(), self.spec_node().start_word as int),
            r.end == byte_pos(self.spec_sent().spec_chars(), self.spec_end() as int),
    {
        self.sent.byte_position(self.node.start_word)..self.sent.byte_position(self.end)
    }

    /// Gets the surface string of the token.
    pub fn surface(&self) -> (s: &'a str)
        requires
            self.wf(),
        ensures
            s@ == self.spec_sent().spec_chars().subrange(
                self.spec_node().start_word as int,
                self.spec_end() as int,
            ),
    {
        let sent: &'a Sentence = self.sent;
        sent.substring(self.node.start_word, self.end)
    }

    /// Gets the word index of the token.
    pub fn word_idx(&self) -> (w: WordIdx)
        ensures
            w == self.spec_node().word_idx_spec(),
    {
        self.node.word_idx()
    }

    /// Gets the feature string of the token.
    pub fn feature(&self) -> (f: &'a str)
        requires
            self.wf(),
        ensures
            f@ == self.spec_dict().inner().spec_word_feature(self.spec_node().word_idx_spec()),
    {
        let dict: &'a Dictionary = self.dict;
        dict.word_feature(self.node.word_idx())
    }

    /// Gets the type of the lexicon containing the token's word.
    pub fn lex_type(&self) -> (t: LexType)
        ensures
            t == self.spec_node().lex_type,
    {
        self.node.lex_type
    }

    /// Gets the left id of the token's word.
    pub fn left_id(&self) -> (id: u16)
        requires
            self.wf(),
        ensures
            id == self.spec_dict().inner().spec_word_param(self.spec_node().word_idx_spec()).left_id,
    {
        self.node.left_id
    }

    /// Gets the right id of the token's word.
    pub fn right_id(&self) -> (id: u16)
        requires
            self.wf(),
        ensures
            id == self.spec_dict().inner().spec_word_param(self.spec_node().word_idx_spec()).right_id,
    {
        self.node.right_id
    }

    /// Gets the word cost of the token's word.
    pub fn word_cost(&self) -> (c: i16)
        requires
            self.wf(),
        ensures
            c == self.spec_dict().inner().spec_word_param(self.spec_node().word_idx_spec()).word_cost,
    {
        self.node.word_cost
    }

    /// Gets the minimum cost from BOS through the token, its word included.
    pub fn total_cost(&self) -> (c: i64)
        ensures
            c == self.spec_node().min_cost,
    {
        self.node.min_cost
    }
}

impl Tokenizer {
    /// Creates a new worker.
    pub fn new_worker(&self) -> (w: Worker<'_>)
        requires
            self.wf(),
        ensures
            w.wf(),
            w.spec_tokenizer() == self,
            w.spec_sent().spec_len() == 0,
            !w.spec_ready(),
            w.spec_nbest().len() == 0,
            w.spec_counter() is None,
            !w.spec_empty_tokenized(),
    {
        Worker::new(self)
    }
}

} // verus!
