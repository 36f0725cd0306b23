//! Viterbi-based tokenizer.
pub mod lattice;
pub mod nbest;
pub mod worker;

use vstd::prelude::*;

use crate::dictionary::character::{CharInfo, CharProperty};
use crate::dictionary::connector::MatrixConnector;
use crate::dictionary::lexicon::Lexicon;
use crate::dictionary::unknown::lemma_entry_category;
use crate::dictionary::word_idx::{LexType, WordIdx};
use crate::dictionary::{Dictionary, DictionaryInner};
use crate::errors::{Source, VibratoError};
use crate::sentence::{groupable_at, lemma_groupable_bounds, Sentence};
use crate::tokenizer::lattice::{is_path, node_at, ties_ok, tie_pick, valid_ref, Lattice, Node};

verus! {

/// The information of each character of `chars`.
pub open spec fn cinfos_of(prop: &CharProperty, chars: Seq<char>) -> Seq<CharInfo> {
    Seq::new(chars.len(), |i: int| prop.spec_char_info(chars[i]))
}

/// The surface of a lexicon word (empty for an unknown word).
pub open spec fn word_surface(d: &DictionaryInner, w: WordIdx) -> Seq<char> {
    match w.lex_type {
        LexType::System => d.system_lexicon_spec().spec_surfaces()[w.word_id as int],
        LexType::User => d.user_lexicon_spec().unwrap().spec_surfaces()[w.word_id as int],
        LexType::Unknown => Seq::empty(),
    }
}

/// Word `w` may span `[s, e)` of `chars`: a lexicon word whose surface is
/// that span, or an unknown word of the category of the character at `s`
/// whose span lies within the group of characters starting at `s`.
pub open spec fn word_fits(d: &DictionaryInner, chars: Seq<char>, s: int, e: int, w: WordIdx) -> bool {
    if w.lex_type == LexType::Unknown {
        &&& d.unk_handler_spec().spec_cate_ids()[w.word_id as int] == d.char_prop_spec().spec_char_info(
            chars[s],
        ).base_id
        &&& e - s <= groupable_at(cinfos_of(d.char_prop_spec(), chars), s)
    } else {
        chars.subrange(s, e) == word_surface(d, w)
    }
}

/// The node `n`, ending at position `e` of `chars`, stands for a word of `d`
/// that fits its span, with the word's parameters.
pub open spec fn node_sound(d: &DictionaryInner, chars: Seq<char>, e: int, n: Node) -> bool {
    &&& d.valid_word(n.word_idx_spec())
    &&& n.param() == d.spec_word_param(n.word_idx_spec())
    &&& n.start_word < e <= chars.len()
    &&& word_fits(d, chars, n.start_word as int, e, n.word_idx_spec())
}

/// Every node of the lattice (BOS aside) is sound.
pub open spec fn lattice_sound(d: &DictionaryInner, chars: Seq<char>, ends: Seq<Seq<Node>>) -> bool {
    forall|e: int, k: int|
        1 <= e < ends.len() && 0 <= k < ends[e].len() ==> #[trigger] node_sound(
            d,
            chars,
            e,
            ends[e][k],
        )
}

/// No node of `ends` (BOS aside) has its boundary after `s`.
pub open spec fn starts_at_most(ends: Seq<Seq<Node>>, s: int) -> bool {
    forall|e: int, k: int|
        1 <= e < ends.len() && 0 <= k < ends[e].len() ==> (#[trigger] ends[e][k]).start_node <= s
}

/// The state of a lattice under construction, with boundaries up to `s`.
pub open spec fn building(l: &Lattice, d: &DictionaryInner, chars: Seq<char>, s: int, prefer: bool) -> bool {
    &&& l.wf(d.connector_spec())
    &&& ties_ok(l.spec_ends(), d.connector_spec(), prefer)
    &&& lists_sorted(l.spec_ends())
    &&& l.spec_eos() is None
    &&& l.spec_len() == chars.len()
    &&& lattice_sound(d, chars, l.spec_ends())
    &&& starts_at_most(l.spec_ends(), s)
}

/// The rank of the kind of a word in the order in which words found at one
/// position are added: user words, system words, unknown words.
pub open spec fn kind_rank(t: LexType) -> int {
    match t {
        LexType::User => 0,
        LexType::System => 1,
        LexType::Unknown => 2,
    }
}

/// Node `a` comes before a node after the boundary `s` for a word of kind
/// `t` and id `id`: by boundary, then by kind, then by id.
pub open spec fn key_before(a: Node, s: int, t: LexType, id: int) -> bool {
    ||| a.start_node < s
    ||| (a.start_node == s && kind_rank(a.lex_type) < kind_rank(t))
    ||| (a.start_node == s && a.lex_type == t && a.word_id < id)
}

/// Each list holds its nodes by boundary, then by kind (user, system,
/// unknown words), then by id.
pub open spec fn lists_sorted(ends: Seq<Seq<Node>>) -> bool {
    forall|e: int, i: int, j: int|
        1 <= e < ends.len() && 0 <= i < j < ends[e].len() ==> key_before(
            #[trigger] ends[e][i],
            ends[e][j].start_node as int,
            ends[e][j].lex_type,
            #[trigger] ends[e][j].word_id as int,
        )
}

/// What a node of a path shows as a token: where its word starts, where it
/// ends and which word it is.
pub open spec fn token_key(e: int, n: Node) -> (int, int, WordIdx) {
    (n.start_word as int, e, n.word_idx_spec())
}

/// The token keys of the nodes of a path, with their ends.
pub open spec fn path_keys(nodes: Seq<(usize, Node)>) -> Seq<(int, int, WordIdx)> {
    nodes.map_values(|x: (usize, Node)| token_key(x.0 as int, x.1))
}

/// In lattice lists ordered by start, kind and id, two paths from BOS whose
/// nodes show the same tokens are the same path.
pub proof fn lemma_paths_by_keys(ends: Seq<Seq<Node>>, p: Seq<(int, int)>, q: Seq<(int, int)>)
    requires
        lists_sorted(ends),
        is_path(ends, p),
        is_path(ends, q),
        p.len() == q.len(),
        forall|i: int|
            0 <= i < p.len() ==> token_key(p[i].0, node_at(ends, p[i])) == #[trigger] token_key(
                q[i].0,
                node_at(ends, q[i]),
            ),
    ensures
        p == q,
{
    assert forall|i: int| 0 <= i < p.len() implies p[i] == q[i] by {
        lemma_path_ref_eq(ends, p, q, i);
    }
    assert(p =~= q);
}

proof fn lemma_path_ref_eq(ends: Seq<Seq<Node>>, p: Seq<(int, int)>, q: Seq<(int, int)>, i: int)
    requires
        lists_sorted(ends),
        is_path(ends, p),
        is_path(ends, q),
        p.len() == q.len(),
        0 <= i < p.len(),
        forall|i: int|
            0 <= i < p.len() ==> token_key(p[i].0, node_at(ends, p[i])) == #[trigger] token_key(
                q[i].0,
                node_at(ends, q[i]),
            ),
    ensures
        p[i] == q[i],
    decreases i,
{
    assert(token_key(p[i].0, node_at(ends, p[i])) == token_key(q[i].0, node_at(ends, q[i])));
    assert(valid_ref(ends, p[i]) && valid_ref(ends, q[i]));
    let e = p[i].0;
    let a = node_at(ends, p[i]);
    let b = node_at(ends, q[i]);
    if i > 0 {
        lemma_path_ref_eq(ends, p, q, i - 1);
    }
    assert(a.start_node == b.start_node);
    assert(a.word_idx_spec() == b.word_idx_spec());
    assert(a.lex_type == b.lex_type && a.word_id == b.word_id);
    let x = p[i].1;
    let y = q[i].1;
    if x < y {
        assert(key_before(ends[e][x], ends[e][y].start_node as int, ends[e][y].lex_type, ends[e][y].word_id as int));
    } else if y < x {
        assert(key_before(ends[e][y], ends[e][x].start_node as int, ends[e][x].lex_type, ends[e][x].word_id as int));
    }
}

/// The nodes after the boundary `s` are all of kinds ranked below `r`.
pub open spec fn kinds_below(ends: Seq<Seq<Node>>, s: int, r: int) -> bool {
    forall|e: int, k: int|
        1 <= e < ends.len() && 0 <= k < ends[e].len() && (#[trigger] ends[e][k]).start_node == s
            ==> kind_rank(ends[e][k].lex_type) < r
}

/// Node `nd`, ending at `e2`, is of a kind ranked below `t`, or is a word of
/// kind `t` listed in `found` (by end and id) among those added once all
/// ending before `e + 1`, and the first `k` entries ending at `e + 1`, are in.
pub open spec fn placed(
    nd: Node,
    e2: int,
    t: LexType,
    found: Seq<(usize, usize)>,
    e: int,
    k: int,
) -> bool {
    ||| kind_rank(nd.lex_type) < kind_rank(t)
    ||| (nd.lex_type == t && exists|k2: int|
        0 <= k2 < found.len() && #[trigger] found[k2] == (e2 as usize, nd.word_id as usize) && (
        e2 <= e || (e2 == e + 1 && k2 < k)))
}

/// Every node after the boundary `s` is `placed`.
pub open spec fn lex_nodes_placed(
    ends: Seq<Seq<Node>>,
    s: int,
    t: LexType,
    found: Seq<(usize, usize)>,
    e: int,
    k: int,
) -> bool {
    forall|e2: int, i: int|
        1 <= e2 < ends.len() && 0 <= i < ends[e2].len() && (#[trigger] ends[e2][i]).start_node == s
            ==> placed(ends[e2][i], e2, t, found, e, k)
}

proof fn lemma_placed_later(
    ends: Seq<Seq<Node>>,
    s: int,
    t: LexType,
    found: Seq<(usize, usize)>,
    e: int,
    k: int,
    e1: int,
    k1: int,
)
    requires
        lex_nodes_placed(ends, s, t, found, e, k),
        e < e1 || (e == e1 && k <= k1),
    ensures
        lex_nodes_placed(ends, s, t, found, e1, k1),
{
    assert forall|e2: int, i: int|
        1 <= e2 < ends.len() && 0 <= i < ends[e2].len() && (#[trigger] ends[e2][i]).start_node == s
            implies placed(ends[e2][i], e2, t, found, e1, k1) by {
        assert(placed(ends[e2][i], e2, t, found, e, k));
    }
}

/// The lists `b` extend the lists `a`: each keeps its nodes and may have
/// more at its end.
pub open spec fn extends(a: Seq<Seq<Node>>, b: Seq<Seq<Node>>) -> bool {
    &&& a.len() == b.len()
    &&& forall|e: int|
        0 <= e < a.len() ==> a[e].len() <= (#[trigger] b[e]).len() && b[e].subrange(
            0,
            a[e].len() as int,
        ) == a[e]
}

/// Node `n` stands for word `w` starting at `sw`, after the boundary `s`.
pub open spec fn node_is(n: Node, s: int, sw: int, w: WordIdx) -> bool {
    &&& n.start_node == s
    &&& n.start_word == sw
    &&& n.word_idx_spec() == w
}

/// Some node ending at `e` stands for word `w` starting at `sw`, after the
/// boundary `s`.
pub open spec fn has_node(ends: Seq<Seq<Node>>, s: int, sw: int, e: int, w: WordIdx) -> bool {
    exists|k: int| 0 <= k < ends[e].len() && node_is(#[trigger] ends[e][k], s, sw, w)
}

/// The text `surf` is found in `chars` at `sw`.
pub open spec fn surface_at(chars: Seq<char>, sw: int, surf: Seq<char>) -> bool {
    &&& sw + surf.len() <= chars.len()
    &&& chars.subrange(sw, sw + surf.len()) == surf
}

/// Some word of `lex` is found in `chars` at `sw`.
pub open spec fn lex_matched(lex: &Lexicon, chars: Seq<char>, sw: int) -> bool {
    exists|id: int| 0 <= id < lex.spec_len() && surface_at(chars, sw, #[trigger] lex.spec_surfaces()[id])
}

/// Some word of the system or user lexicon is found in `chars` at `sw`.
pub open spec fn dict_matched(d: &DictionaryInner, chars: Seq<char>, sw: int) -> bool {
    lex_matched(d.system_lexicon_spec(), chars, sw) || (d.user_lexicon_spec() matches Some(u)
        && lex_matched(&u, chars, sw))
}

/// Every node that `b` has beyond the nodes of `a` meets `ok` (given the
/// position where it ends).
pub open spec fn added_nodes(a: Seq<Seq<Node>>, b: Seq<Seq<Node>>, ok: spec_fn(Node, int) -> bool) -> bool {
    forall|e: int, k: int| 0 <= e < b.len() && a[e].len() <= k < b[e].len() ==> ok(#[trigger] b[e][k], e)
}

pub proof fn lemma_added_trans(a: Seq<Seq<Node>>, b: Seq<Seq<Node>>, c: Seq<Seq<Node>>, ok: spec_fn(Node, int) -> bool)
    requires
        extends(a, b),
        extends(b, c),
        added_nodes(a, b, ok),
        added_nodes(b, c, ok),
    ensures
        added_nodes(a, c, ok),
{
    assert forall|e: int, k: int| 0 <= e < c.len() && a[e].len() <= k < c[e].len() implies ok(#[trigger] c[e][k], e) by {
        if k < b[e].len() {
            assert(c[e].subrange(0, b[e].len() as int) == b[e]);
            assert(c[e][k] == c[e].subrange(0, b[e].len() as int)[k]);
            assert(ok(b[e][k], e));
        }
    }
}

pub proof fn lemma_added_weaken(a: Seq<Seq<Node>>, b: Seq<Seq<Node>>, ok1: spec_fn(Node, int) -> bool, ok2: spec_fn(Node, int) -> bool)
    requires
        added_nodes(a, b, ok1),
        forall|n: Node, e: int| #[trigger] ok1(n, e) ==> ok2(n, e),
    ensures
        added_nodes(a, b, ok2),
{
    assert forall|e: int, k: int| 0 <= e < b.len() && a[e].len() <= k < b[e].len() implies ok2(#[trigger] b[e][k], e) by {
        assert(ok1(b[e][k], e));
    }
}

pub proof fn lemma_added_none(a: Seq<Seq<Node>>, ok: spec_fn(Node, int) -> bool)
    ensures
        added_nodes(a, a, ok),
{
}

/// Every word of `lex` found in `chars` at `sw` has a node after the
/// boundary `s`.
pub open spec fn lex_complete(lex: &Lexicon, chars: Seq<char>, ends: Seq<Seq<Node>>, s: int, sw: int) -> bool {
    forall|id: int|
        0 <= id < lex.spec_len() && surface_at(chars, sw, #[trigger] lex.spec_surfaces()[id])
            ==> has_node(
            ends,
            s,
            sw,
            sw + lex.spec_surfaces()[id].len(),
            WordIdx { lex_type: lex.spec_lex_type(), word_id: id as u32 },
        )
}

/// Whether unknown words of `n` characters are generated at a position
/// whose character has information `cinfo` and starts a group of `g`
/// characters, as MeCab does: nothing when a lexicon word was found there
/// and the category is not invoked anyway; otherwise the whole group (if
/// within the grouping limit) and each prefix of up to `cinfo.length`
/// characters other than the group, or else the first character alone.
pub open spec fn unk_length_ok(
    cinfo: CharInfo,
    g: int,
    max_grouping: Option<usize>,
    has_matched: bool,
    n: int,
) -> bool {
    let within = match max_grouping {
        Some(m) => g - 1 <= m,
        None => true,
    };
    let limit = if cinfo.length < g {
        cinfo.length as int
    } else {
        g
    };
    let by_group = cinfo.group && within && n == g;
    let by_prefix = 1 <= n <= limit && !(cinfo.group && n == g);
    let prefix_any = limit >= 1 && (!cinfo.group || limit < g || g >= 2);
    let some = has_matched || (cinfo.group && within) || prefix_any;
    if has_matched && !cinfo.invoke {
        false
    } else {
        by_group || by_prefix || (!some && n == 1)
    }
}

/// Every unknown word that the rule generates at `sw` has a node after the
/// boundary `s`: one for each entry of the category of the character there.
pub open spec fn unk_complete(
    d: &DictionaryInner,
    max_grouping: Option<usize>,
    cinfos: Seq<CharInfo>,
    ends: Seq<Seq<Node>>,
    s: int,
    sw: int,
    has_matched: bool,
) -> bool {
    let cinfo = cinfos[sw];
    let offs = d.unk_handler_spec().spec_offsets();
    forall|n: int, id: int|
        unk_length_ok(cinfo, groupable_at(cinfos, sw), max_grouping, has_matched, n) && offs[cinfo.base_id as int] <= id
            < offs[cinfo.base_id + 1] ==> #[trigger] has_node(
            ends,
            s,
            sw,
            sw + n,
            WordIdx { lex_type: LexType::Unknown, word_id: id as u32 },
        )
}

/// Where the word after the boundary `s` starts: after the spaces there,
/// when spaces are skipped.
pub open spec fn word_start(space: Option<u32>, cinfos: Seq<CharInfo>, s: int) -> int {
    match space {
        Some(c) => if (cinfos[s].cate_idset & c) != 0 {
            s + groupable_at(cinfos, s)
        } else {
            s
        },
        None => s,
    }
}

/// Every word found or generated after the boundary `s`, starting at `sw`,
/// has a node: those of the user and system lexicons, and the unknown words
/// that the rule generates there.
pub open spec fn position_complete(
    d: &DictionaryInner,
    max_grouping: Option<usize>,
    chars: Seq<char>,
    cinfos: Seq<CharInfo>,
    ends: Seq<Seq<Node>>,
    s: int,
    sw: int,
) -> bool {
    let sys = d.system_lexicon_spec();
    let has_matched = dict_matched(d, chars, sw);
    &&& lex_complete(sys, chars, ends, s, sw)
    &&& (d.user_lexicon_spec() matches Some(u) ==> lex_complete(&u, chars, ends, s, sw))
    &&& unk_complete(d, max_grouping, cinfos, ends, s, sw, has_matched)
}

/// The boundary visited after the boundary `s`: the next position if no
/// node ends at `s`; otherwise the position after the first character of
/// the words that follow `s` (so that positions within skipped spaces are
/// not boundaries).
pub open spec fn next_boundary(space: Option<u32>, cinfos: Seq<CharInfo>, ends: Seq<Seq<Node>>, s: int) -> int {
    if ends[s].len() == 0 {
        s + 1
    } else {
        word_start(space, cinfos, s) + 1
    }
}

/// The boundary `s` is visited from the boundary `c` by going from each
/// boundary to the next.
pub open spec fn reaches(space: Option<u32>, cinfos: Seq<CharInfo>, ends: Seq<Seq<Node>>, c: int, s: int) -> bool
    decreases s - c,
{
    let n = next_boundary(space, cinfos, ends, c);
    if c >= s {
        c == s
    } else if n <= c || n > s {
        // A next boundary always comes after `c`; past `s`, `s` is missed.
        false
    } else {
        reaches(space, cinfos, ends, n, s)
    }
}

/// `b` is where the sentence ends for the lattice: the first visited
/// boundary followed by spaces only (when spaces are skipped), or the end.
pub open spec fn final_boundary(space: Option<u32>, cinfos: Seq<CharInfo>, ends: Seq<Seq<Node>>, len: int, b: int) -> bool {
    &&& 0 <= b <= len
    &&& reaches(space, cinfos, ends, 0, b)
    &&& b == len || (ends[b].len() > 0 && word_start(space, cinfos, b) == len)
}

/// Node `n`, ending at `e`, is one that the tokenizer adds: it follows a
/// visited boundary where a node ends, starts where the words after that
/// boundary start (before the end of the sentence), and, if unknown, spans a
/// number of characters that the rule generates there.
pub open spec fn node_expected(
    t: &Tokenizer,
    chars: Seq<char>,
    cinfos: Seq<CharInfo>,
    ends: Seq<Seq<Node>>,
    e: int,
    n: Node,
) -> bool {
    let space = t.spec_space_cateset();
    let s = n.start_node as int;
    let sw = n.start_word as int;
    &&& reaches(space, cinfos, ends, 0, s)
    &&& ends[s].len() > 0
    &&& sw == word_start(space, cinfos, s)
    &&& sw < chars.len()
    &&& n.lex_type == LexType::Unknown ==> unk_length_ok(
        cinfos[sw],
        groupable_at(cinfos, sw),
        t.spec_max_grouping_len(),
        dict_matched(t.spec_inner(), chars, sw),
        e - sw,
    )
}

/// The nodes ending at each position are listed by their start, then by
/// kind (user, system, unknown words), then by word id; and every node of
/// the lattice, EOS included, has as best predecessor the one that the
/// tokenizer's tie rule picks in that order.
pub open spec fn lattice_ties(t: &Tokenizer, l: &Lattice) -> bool {
    let conn = t.spec_inner().connector_spec();
    let ends = l.spec_ends();
    &&& lists_sorted(ends)
    &&& ties_ok(ends, conn, t.spec_prefer_dictionary())
    &&& (l.spec_eos() matches Some(eos) ==> tie_pick(
        conn,
        ends[eos.start_node as int],
        0,
        0,
        t.spec_prefer_dictionary(),
        eos.min_idx as int,
    ))
}

/// The lattice holds every word that the tokenizer finds or generates at
/// every visited boundary before the end of the sentence, and EOS (if any
/// node ends there) at that end.
pub open spec fn lattice_complete(t: &Tokenizer, chars: Seq<char>, cinfos: Seq<CharInfo>, l: &Lattice) -> bool {
    let ends = l.spec_ends();
    let len = chars.len() as int;
    let space = t.spec_space_cateset();
    let b = match l.spec_eos() {
        Some(eos) => eos.start_node as int,
        None => len,
    };
    &&& final_boundary(space, cinfos, ends, len, b)
    &&& (l.spec_eos() is None ==> ends[len].len() == 0)
    &&& forall|e: int, k: int|
        1 <= e < ends.len() && 0 <= k < ends[e].len() ==> #[trigger] node_expected(
            t,
            chars,
            cinfos,
            ends,
            e,
            ends[e][k],
        )
    &&& forall|s: int|
        0 <= s < b && reaches(space, cinfos, ends, 0, s) && ends[s].len() > 0 ==> word_start(
            space,
            cinfos,
            s,
        ) < len && #[trigger] position_complete(
            t.spec_inner(),
            t.spec_max_grouping_len(),
            chars,
            cinfos,
            ends,
            s,
            word_start(space, cinfos, s),
        )
}

pub proof fn lemma_groupable_pos(cs: Seq<CharInfo>, i: int)
    ensures
        groupable_at(cs, i) >= 1,
    decreases cs.len() - i,
{
    if i + 1 < cs.len() && (cs[i].cate_idset & cs[i + 1].cate_idset) != 0 {
        lemma_groupable_pos(cs, i + 1);
    }
}

/// Visiting goes on to the boundary after a visited one.
pub proof fn lemma_reaches_step(space: Option<u32>, cinfos: Seq<CharInfo>, ends: Seq<Seq<Node>>, c: int, a: int)
    requires
        reaches(space, cinfos, ends, c, a),
    ensures
        reaches(space, cinfos, ends, c, next_boundary(space, cinfos, ends, a)),
    decreases a - c,
{
    lemma_groupable_pos(cinfos, c);
    lemma_groupable_pos(cinfos, a);
    if c < a {
        lemma_reaches_step(space, cinfos, ends, next_boundary(space, cinfos, ends, c), a);
    } else {
        let n = next_boundary(space, cinfos, ends, a);
        assert(reaches(space, cinfos, ends, n, n));
    }
}

/// No boundary is visited strictly between a visited boundary and the next.
pub proof fn lemma_reaches_between(
    space: Option<u32>,
    cinfos: Seq<CharInfo>,
    ends: Seq<Seq<Node>>,
    c: int,
    a: int,
    s: int,
)
    requires
        reaches(space, cinfos, ends, c, a),
        reaches(space, cinfos, ends, c, s),
        s < next_boundary(space, cinfos, ends, a),
    ensures
        s <= a,
    decreases a - c,
{
    lemma_groupable_pos(cinfos, c);
    lemma_groupable_pos(cinfos, a);
    if c < a && c < s {
        lemma_reaches_between(space, cinfos, ends, next_boundary(space, cinfos, ends, c), a, s);
    } else if c == a && c < s {
        lemma_reaches_ge(space, cinfos, ends, next_boundary(space, cinfos, ends, c), s);
    }
}

pub proof fn lemma_reaches_ge(space: Option<u32>, cinfos: Seq<CharInfo>, ends: Seq<Seq<Node>>, c: int, s: int)
    requires
        reaches(space, cinfos, ends, c, s),
    ensures
        c <= s,
    decreases s - c,
{
}

/// Visiting up to `s` reads only the lists before `s`.
pub proof fn lemma_reaches_frozen(
    space: Option<u32>,
    cinfos: Seq<CharInfo>,
    e1: Seq<Seq<Node>>,
    e2: Seq<Seq<Node>>,
    c: int,
    s: int,
)
    requires
        forall|x: int| 0 <= x < s ==> #[trigger] e1[x] == e2[x],
        0 <= c,
    ensures
        reaches(space, cinfos, e1, c, s) == reaches(space, cinfos, e2, c, s),
    decreases s - c,
{
    lemma_groupable_pos(cinfos, c);
    if c < s {
        assert(e1[c] == e2[c]);
        let n = next_boundary(space, cinfos, e1, c);
        if c < n <= s {
            lemma_reaches_frozen(space, cinfos, e1, e2, n, s);
        }
    }
}

pub proof fn lemma_extends_refl(a: Seq<Seq<Node>>)
    ensures
        extends(a, a),
{
    assert forall|e: int| 0 <= e < a.len() implies a[e].len() <= (#[trigger] a[e]).len()
        && a[e].subrange(0, a[e].len() as int) == a[e] by {
        assert(a[e].subrange(0, a[e].len() as int) =~= a[e]);
    }
}

pub proof fn lemma_extends_trans(a: Seq<Seq<Node>>, b: Seq<Seq<Node>>, c: Seq<Seq<Node>>)
    requires
        extends(a, b),
        extends(b, c),
    ensures
        extends(a, c),
{
    assert forall|e: int| 0 <= e < a.len() implies a[e].len() <= (#[trigger] c[e]).len()
        && c[e].subrange(0, a[e].len() as int) == a[e] by {
        assert(b[e].subrange(0, a[e].len() as int) == a[e]);
        assert(c[e].subrange(0, b[e].len() as int) == b[e]);
        assert(c[e].subrange(0, a[e].len() as int) =~= b[e].subrange(0, a[e].len() as int));
    }
}

pub proof fn lemma_has_node_extends(a: Seq<Seq<Node>>, b: Seq<Seq<Node>>, s: int, sw: int, e: int, w: WordIdx)
    requires
        extends(a, b),
        0 <= e < a.len(),
        has_node(a, s, sw, e, w),
    ensures
        has_node(b, s, sw, e, w),
{
    let k = choose|k: int| 0 <= k < a[e].len() && node_is(#[trigger] a[e][k], s, sw, w);
    assert(b[e].subrange(0, a[e].len() as int) == a[e]);
    assert(b[e][k] == b[e].subrange(0, a[e].len() as int)[k]);
}

pub proof fn lemma_lex_complete_extends(
    lex: &Lexicon,
    chars: Seq<char>,
    a: Seq<Seq<Node>>,
    b: Seq<Seq<Node>>,
    s: int,
    sw: int,
)
    requires
        lex_complete(lex, chars, a, s, sw),
        extends(a, b),
        a.len() == chars.len() + 1,
        0 <= sw,
    ensures
        lex_complete(lex, chars, b, s, sw),
{
    assert forall|id: int|
        0 <= id < lex.spec_len() && surface_at(chars, sw, #[trigger] lex.spec_surfaces()[id])
            implies has_node(
            b,
            s,
            sw,
            sw + lex.spec_surfaces()[id].len(),
            WordIdx { lex_type: lex.spec_lex_type(), word_id: id as u32 },
        ) by {
        lemma_has_node_extends(
            a,
            b,
            s,
            sw,
            sw + lex.spec_surfaces()[id].len(),
            WordIdx { lex_type: lex.spec_lex_type(), word_id: id as u32 },
        );
    }
}

pub proof fn lemma_position_complete_extends(
    d: &DictionaryInner,
    max_grouping: Option<usize>,
    chars: Seq<char>,
    cinfos: Seq<CharInfo>,
    a: Seq<Seq<Node>>,
    b: Seq<Seq<Node>>,
    s: int,
    sw: int,
)
    requires
        position_complete(d, max_grouping, chars, cinfos, a, s, sw),
        extends(a, b),
        a.len() == chars.len() + 1,
        cinfos.len() == chars.len(),
        0 <= sw < chars.len(),
    ensures
        position_complete(d, max_grouping, chars, cinfos, b, s, sw),
{
    lemma_lex_complete_extends(d.system_lexicon_spec(), chars, a, b, s, sw);
    match d.user_lexicon_spec() {
        Some(u) => lemma_lex_complete_extends(&u, chars, a, b, s, sw),
        None => {},
    }
    let sys = d.system_lexicon_spec();
    let hm = lex_matched(sys, chars, sw) || (d.user_lexicon_spec() matches Some(u) && lex_matched(
        &u,
        chars,
        sw,
    ));
    let cinfo = cinfos[sw];
    let offs = d.unk_handler_spec().spec_offsets();
    lemma_groupable_bounds(cinfos, sw);
    assert forall|n: int, id: int|
        unk_length_ok(cinfo, groupable_at(cinfos, sw), max_grouping, hm, n) && offs[cinfo.base_id as int] <= id
            < offs[cinfo.base_id + 1] implies #[trigger] has_node(
            b,
            s,
            sw,
            sw + n,
            WordIdx { lex_type: LexType::Unknown, word_id: id as u32 },
        ) by {
        assert(has_node(a, s, sw, sw + n, WordIdx { lex_type: LexType::Unknown, word_id: id as u32 }));
        lemma_has_node_extends(a, b, s, sw, sw + n, WordIdx { lex_type: LexType::Unknown, word_id: id as u32 });
    }
}

proof fn lemma_push_node(
    d: &DictionaryInner,
    conn: &MatrixConnector,
    prefer: bool,
    chars: Seq<char>,
    old_ends: Seq<Seq<Node>>,
    new_ends: Seq<Seq<Node>>,
    end: int,
    n: Node,
    s: int,
)
    requires
        lattice_sound(d, chars, old_ends),
        starts_at_most(old_ends, s),
        new_ends.len() == old_ends.len(),
        1 <= end < old_ends.len(),
        new_ends[end] == old_ends[end].push(n),
        forall|e: int| 0 <= e < old_ends.len() && e != end ==> #[trigger] new_ends[e] == old_ends[e],
        node_sound(d, chars, end, n),
        n.start_node <= s,
        s < end,
        ties_ok(old_ends, conn, prefer),
        tie_pick(conn, old_ends[n.start_node as int], n.left_id, n.word_cost as int, prefer, n.min_idx as int),
        lists_sorted(old_ends),
        forall|i: int|
            0 <= i < old_ends[end].len() ==> key_before(
                #[trigger] old_ends[end][i],
                n.start_node as int,
                n.lex_type,
                n.word_id as int,
            ),
    ensures
        lattice_sound(d, chars, new_ends),
        starts_at_most(new_ends, s),
        ties_ok(new_ends, conn, prefer),
        lists_sorted(new_ends),
{
    assert forall|e: int, i: int, j: int|
        1 <= e < new_ends.len() && 0 <= i < j < new_ends[e].len() implies key_before(
            #[trigger] new_ends[e][i],
            new_ends[e][j].start_node as int,
            new_ends[e][j].lex_type,
            #[trigger] new_ends[e][j].word_id as int,
        ) by {
        if e == end {
            assert(new_ends[e][i] == old_ends[e][i]);
            if j < old_ends[e].len() {
                assert(new_ends[e][j] == old_ends[e][j]);
            } else {
                assert(new_ends[e][j] == n);
            }
        } else {
            assert(new_ends[e] == old_ends[e]);
        }
    }
    assert forall|e: int, k: int| 1 <= e < new_ends.len() && 0 <= k < new_ends[e].len() implies #[trigger] tie_pick(
        conn,
        new_ends[new_ends[e][k].start_node as int],
        new_ends[e][k].left_id,
        new_ends[e][k].word_cost as int,
        prefer,
        new_ends[e][k].min_idx as int,
    ) by {
        if e == end && k == old_ends[e].len() {
            assert(new_ends[e][k] == n);
            assert(new_ends[n.start_node as int] == old_ends[n.start_node as int]);
        } else {
            let m = old_ends[e][k];
            assert(new_ends[e][k] == m);
            assert(m.start_node <= s);
            assert(new_ends[m.start_node as int] == old_ends[m.start_node as int]);
        }
    }
    assert forall|e: int, k: int| 1 <= e < new_ends.len() && 0 <= k < new_ends[e].len() implies #[trigger] node_sound(
        d,
        chars,
        e,
        new_ends[e][k],
    ) && new_ends[e][k].start_node <= s by {
        if e == end && k == old_ends[e].len() {
        } else {
            assert(new_ends[e][k] == old_ends[e][k]);
        }
    }
}

/// Viterbi-based tokenizer.
#[derive(Clone, Debug)]
pub struct Tokenizer {
    pub(crate) dict: Dictionary,
    pub(crate) space_cateset: Option<u32>,
    pub(crate) max_grouping_len: Option<usize>,
    pub(crate) prefer_dictionary: bool,
}

/// The name of the category of space characters.
pub open spec fn space_name() -> Seq<char> {
    seq!['S', 'P', 'A', 'C', 'E']
}

impl Tokenizer {
    pub closed spec fn spec_dict(&self) -> &Dictionary {
        &self.dict
    }

    /// The category set of the space characters to skip, if any.
    pub closed spec fn spec_space_cateset(&self) -> Option<u32> {
        self.space_cateset
    }

    pub closed spec fn spec_max_grouping_len(&self) -> Option<usize> {
        self.max_grouping_len
    }

    pub closed spec fn spec_prefer_dictionary(&self) -> bool {
        self.prefer_dictionary
    }

    /// The inner data of the dictionary.
    pub open spec fn spec_inner(&self) -> &DictionaryInner {
        self.spec_dict().inner()
    }

    /// The dictionary is consistent.
    pub open spec fn wf(&self) -> bool {
        self.spec_dict().wf()
    }

    /// Creates a new tokenizer of the dictionary, with spaces kept, no limit
    /// on grouping and no preference on ties.
    pub fn new(dict: Dictionary) -> (t: Self)
        requires
            dict.wf(),
        ensures
            t.wf(),
            t.spec_dict() == dict,
            t.spec_space_cateset() is None,
            t.spec_max_grouping_len() is None,
            !t.spec_prefer_dictionary(),
    {
        Tokenizer { dict, space_cateset: None, max_grouping_len: None, prefer_dictionary: false }
    }

    /// Creates a new tokenizer of a dictionary made of `data`.
    pub fn from_inner(data: DictionaryInner) -> (t: Self)
        requires
            data.wf(),
        ensures
            t.wf(),
            *t.spec_inner() == data,
            t.spec_space_cateset() is None,
            t.spec_max_grouping_len() is None,
            !t.spec_prefer_dictionary(),
    {
        Tokenizer::new(Dictionary::from_inner(data))
    }

    /// Makes the tokenizer skip space characters (the category `SPACE` of
    /// `char.def`) between words, or stop skipping them.
    ///
    /// # Errors
    ///
    /// When `yes` holds and the dictionary defines no category `SPACE`.
    pub fn ignore_space(self, yes: bool) -> (r: Result<Self, VibratoError>)
        requires
            self.wf(),
        ensures
            match r {
                Ok(t) => {
                    &&& t.wf()
                    &&& t.spec_dict() == self.spec_dict()
                    &&& t.spec_max_grouping_len() == self.spec_max_grouping_len()
                    &&& t.spec_prefer_dictionary() == self.spec_prefer_dictionary()
                    &&& !yes ==> t.spec_space_cateset() is None
                    &&& yes ==> exists|id: u32|
                        #![trigger self.spec_inner().char_prop_spec().spec_categories()[id as int]]
                        {
                            let cats = self.spec_inner().char_prop_spec().spec_categories();
                            &&& id < cats.len()
                            &&& cats[id as int] == space_name()
                            &&& forall|j: int| 0 <= j < id ==> cats[j] != space_name()
                            &&& t.spec_space_cateset() == Some(1u32 << id)
                        }
                },
                Err(e) => {
                    &&& yes
                    &&& e == VibratoError::InvalidArgument(Source::CharDef)
                    &&& forall|j: int|
                        0 <= j < self.spec_inner().char_prop_spec().spec_categories().len()
                            ==> self.spec_inner().char_prop_spec().spec_categories()[j]
                            != space_name()
                },
            },
    {
        let mut t = self;
        if yes {
            let name: Vec<char> = vec!['S', 'P', 'A', 'C', 'E'];
            proof {
                assert(name@ == space_name());
            }
            let prop = t.dict.data().char_prop();
            match prop.cate_id(&name) {
                Some(id) => {
                    proof {
                        assert(id < crate::dictionary::character::MAX_CATEGORIES);
                    }
                    t.space_cateset = Some(1u32 << id);
                    Ok(t)
                },
                None => Err(VibratoError::InvalidArgument(Source::CharDef)),
            }
        } else {
            t.space_cateset = None;
            Ok(t)
        }
    }

    /// Limits the number of characters grouped into one unknown word (the
    /// first one aside); `0` removes the limit.
    pub fn max_grouping_len(self, max_grouping_len: usize) -> (t: Self)
        ensures
            self.wf() ==> t.wf(),
            t.spec_dict() == self.spec_dict(),
            t.spec_space_cateset() == self.spec_space_cateset(),
            t.spec_prefer_dictionary() == self.spec_prefer_dictionary(),
            t.spec_max_grouping_len() == if max_grouping_len != 0 {
                Some(max_grouping_len)
            } else {
                None
            },
    {
        let mut t = self;
        if max_grouping_len != 0 {
            t.max_grouping_len = Some(max_grouping_len);
        } else {
            t.max_grouping_len = None;
        }
        t
    }

    /// Makes a tie between a dictionary word and an unknown word resolve to
    /// the dictionary word, or to the word met last (the default).
    pub fn prefer_dictionary_on_tie(self, yes: bool) -> (t: Self)
        ensures
            self.wf() ==> t.wf(),
            t.spec_dict() == self.spec_dict(),
            t.spec_space_cateset() == self.spec_space_cateset(),
            t.spec_max_grouping_len() == self.spec_max_grouping_len(),
            t.spec_prefer_dictionary() == yes,
    {
        let mut t = self;
        t.prefer_dictionary = yes;
        t
    }

    /// Gets the dictionary.
    pub fn dictionary(&self) -> (d: &Dictionary)
        ensures
            d == self.spec_dict(),
    {
        &self.dict
    }

    /// Replaces the user lexicon of the dictionary by the one read from the
    /// bytes of a lexicon file.
    ///
    /// # Errors
    ///
    /// When the bytes are not a valid lexicon file for the dictionary.
    pub fn with_user_lexicon(self, rdr: &[u8]) -> (r: Result<Self, VibratoError>)
        requires
            self.wf(),
        ensures
            r matches Ok(t) ==> {
                let (a, b) = (t.spec_inner(), self.spec_inner());
                &&& t.wf()
                &&& a.system_lexicon_spec() == b.system_lexicon_spec()
                &&& a.connector_spec() == b.connector_spec()
                &&& a.char_prop_spec() == b.char_prop_spec()
                &&& a.unk_handler_spec() == b.unk_handler_spec()
                &&& a.mapper_spec() == b.mapper_spec()
                &&& vstd::utf8::valid_utf8(rdr@)
                &&& b.user_lexicon_error(vstd::utf8::decode_utf8(rdr@)) is None
                &&& a.holds_user_words(vstd::utf8::decode_utf8(rdr@))
                &&& t.spec_space_cateset() == self.spec_space_cateset()
                &&& t.spec_max_grouping_len() == self.spec_max_grouping_len()
                &&& t.spec_prefer_dictionary() == self.spec_prefer_dictionary()
            },
            r matches Err(e) ==> if vstd::utf8::valid_utf8(rdr@) {
                self.spec_inner().user_lexicon_error(vstd::utf8::decode_utf8(rdr@)) == Some(e)
            } else {
                e == VibratoError::InvalidFormat(Source::Lexicon)
            },
    {
        let Tokenizer { dict, space_cateset, max_grouping_len, prefer_dictionary } = self;
        let inner = dict.into_inner();
        let inner = inner.reset_user_lexicon_from_reader(Some(rdr))?;
        Ok(Tokenizer { dict: Dictionary::from_inner(inner), space_cateset, max_grouping_len, prefer_dictionary })
    }

    /// Builds the lattice of a sentence: from each boundary reached by a
    /// word, the words of the user and system lexicons found there and the
    /// unknown words generated there, then EOS.
    pub fn build_lattice(&self, sent: &Sentence) -> (l: Lattice)
        requires
            self.wf(),
            sent.wf(self.spec_inner().char_prop_spec()),
        ensures
            l.wf(self.spec_inner().connector_spec()),
            l.spec_len() == sent.spec_len(),
            lattice_sound(self.spec_inner(), sent.spec_chars(), l.spec_ends()),
            lattice_complete(self, sent.spec_chars(), sent.spec_cinfos(), &l),
            lattice_ties(self, &l),
    {
        let d = self.dict.data();
        let conn = d.connector();
        let len = sent.len_char();
        let ghost chars = sent.spec_chars();
        let ghost cinfos = sent.spec_cinfos();
        let ghost space = self.spec_space_cateset();
        let ghost maxg = self.spec_max_grouping_len();
        let mut lattice = Lattice::new(len);
        proof {
            lattice.lemma_new_wf(conn);
        }
        let mut start_node: usize = 0;
        let mut start_word: usize = 0;
        while start_word < len
            invariant_except_break
                start_node == start_word,
            invariant
                self.spec_dict().wf(),
                d == self.spec_inner(),
                conn == d.connector_spec(),
                sent.wf(d.char_prop_spec()),
                len == sent.spec_len(),
                chars == sent.spec_chars(),
                cinfos == sent.spec_cinfos(),
                space == self.spec_space_cateset(),
                maxg == self.spec_max_grouping_len(),
                start_node <= start_word <= len,
                building(&lattice, d, chars, start_node as int, self.spec_prefer_dictionary()),
                starts_at_most(lattice.spec_ends(), start_node - 1),
                reaches(space, cinfos, lattice.spec_ends(), 0, start_node as int),
                forall|e: int, k: int|
                    1 <= e < lattice.spec_ends().len() && 0 <= k < lattice.spec_ends()[e].len()
                        ==> #[trigger] node_expected(
                        self,
                        chars,
                        cinfos,
                        lattice.spec_ends(),
                        e,
                        lattice.spec_ends()[e][k],
                    ),
                forall|s: int|
                    0 <= s < start_node && reaches(space, cinfos, lattice.spec_ends(), 0, s)
                        && #[trigger] lattice.spec_ends()[s].len() > 0 ==> word_start(
                        space,
                        cinfos,
                        s,
                    ) < len && position_complete(
                        d,
                        maxg,
                        chars,
                        cinfos,
                        lattice.spec_ends(),
                        s,
                        word_start(space, cinfos, s),
                    ),
            ensures
                start_node == len || (lattice.spec_ends()[start_node as int].len() > 0 && word_start(
                    space,
                    cinfos,
                    start_node as int,
                ) == len),
            decreases len - start_word,
        {
            if !lattice.has_previous_node(start_node) {
                proof {
                    let ends0 = lattice.spec_ends();
                    lemma_reaches_step(space, cinfos, ends0, 0, start_node as int);
                    assert forall|s: int|
                        0 <= s < start_node + 1 && reaches(space, cinfos, ends0, 0, s)
                            && #[trigger] ends0[s].len() > 0 implies word_start(space, cinfos, s) < len
                            && position_complete(d, maxg, chars, cinfos, ends0, s, word_start(space, cinfos, s)) by {
                        lemma_reaches_between(space, cinfos, ends0, 0, start_node as int, s);
                    }
                }
                start_word += 1;
                start_node = start_word;
                proof {
                    assert(starts_at_most(lattice.spec_ends(), start_node as int));
                    assert(starts_at_most(lattice.spec_ends(), start_node - 1));
                }
                continue;
            }
            proof {
                assert(cinfos.len() == chars.len());
                assert(sent.spec_groupable()[start_node as int] == groupable_at(cinfos, start_node as int));
            }
            match self.space_cateset {
                Some(space_cateset) => {
                    let is_space = (sent.char_info(start_node).cate_idset & space_cateset) != 0;
                    if is_space {
                        let g = sent.groupable(start_node);
                        proof {
                            lemma_groupable_bounds(sent.spec_cinfos(), start_node as int);
                        }
                        start_word += g;
                    }
                },
                None => {},
            }
            proof {
                assert(start_word == word_start(space, cinfos, start_node as int));
            }
            if start_word == len {
                break;
            }
            let ghost before = lattice.spec_ends();
            proof {
                assert forall|e: int, k: int|
                    1 <= e < before.len() && 0 <= k < before[e].len() && (#[trigger] before[e][k]).start_node
                        == start_node implies kind_rank(before[e][k].lex_type) < 0 by {
                    assert(before[e][k].start_node <= start_node - 1);
                }
            }
            self.add_lattice_edges(&mut lattice, sent, start_node, start_word);
            proof {
                let after = lattice.spec_ends();
                assert(before.len() == chars.len() + 1);
                let nb = start_word + 1;
                assert(nb == next_boundary(space, cinfos, before, start_node as int));
                lemma_reaches_step(space, cinfos, before, 0, start_node as int);
                lemma_reaches_frozen(space, cinfos, before, after, 0, nb);
                assert forall|s: int|
                    0 <= s < nb && reaches(space, cinfos, after, 0, s) && #[trigger] after[s].len() > 0
                        implies word_start(
                        space,
                        cinfos,
                        s,
                    ) < len && position_complete(d, maxg, chars, cinfos, after, s, word_start(space, cinfos, s)) by {
                    lemma_reaches_frozen(space, cinfos, before, after, 0, s);
                    lemma_reaches_between(space, cinfos, before, 0, start_node as int, s);
                    if s < start_node {
                        assert(after[s] == before[s]);
                        lemma_groupable_bounds(cinfos, s);
                        lemma_position_complete_extends(
                            d,
                            maxg,
                            chars,
                            cinfos,
                            before,
                            after,
                            s,
                            word_start(space, cinfos, s),
                        );
                    }
                }
            }
            proof {
                let after = lattice.spec_ends();
                assert forall|e: int, k: int|
                    1 <= e < after.len() && 0 <= k < after[e].len() implies #[trigger] node_expected(
                    self,
                    chars,
                    cinfos,
                    after,
                    e,
                    after[e][k],
                ) by {
                    let n = after[e][k];
                    if k < before[e].len() {
                        assert(after[e].subrange(0, before[e].len() as int) == before[e]);
                        assert(after[e][k] == after[e].subrange(0, before[e].len() as int)[k]);
                        assert(node_expected(self, chars, cinfos, before, e, before[e][k]));
                        assert(starts_at_most(before, start_node as int));
                        lemma_reaches_frozen(space, cinfos, before, after, 0, n.start_node as int);
                        assert(after[n.start_node as int] == before[n.start_node as int]);
                    } else {
                        lemma_reaches_frozen(space, cinfos, before, after, 0, start_node as int);
                        assert(after[start_node as int] == before[start_node as int]);
                    }
                }
            }
            start_word += 1;
            start_node = start_word;
            proof {
                assert(starts_at_most(lattice.spec_ends(), start_node as int));
                assert(starts_at_most(lattice.spec_ends(), start_node - 1));
            }
        }
        let ghost ends = lattice.spec_ends();
        lattice.insert_eos(start_node, conn, self.prefer_dictionary);
        proof {
            let b = match lattice.spec_eos() {
                Some(eos) => eos.start_node as int,
                None => len as int,
            };
            assert(lattice.spec_ends() == ends);
            assert(b == start_node);
        }
        lattice
    }

    /// Adds the words found or generated at `start_word`, after the boundary
    /// `start_node`.
    fn add_lattice_edges(
        &self,
        lattice: &mut Lattice,
        sent: &Sentence,
        start_node: usize,
        start_word: usize,
    )
        requires
            self.spec_dict().wf(),
            sent.wf(self.spec_inner().char_prop_spec()),
            building(old(lattice), self.spec_inner(), sent.spec_chars(), start_node as int, self.spec_prefer_dictionary()),
            start_node <= start_word < sent.spec_len(),
            old(lattice).spec_ends()[start_node as int].len() > 0,
            kinds_below(old(lattice).spec_ends(), start_node as int, 0),
        ensures
            building(final(lattice), self.spec_inner(), sent.spec_chars(), start_node as int, self.spec_prefer_dictionary()),
            forall|e: int|
                0 <= e <= start_word ==> #[trigger] final(lattice).spec_ends()[e] == old(lattice).spec_ends()[e],
            extends(old(lattice).spec_ends(), final(lattice).spec_ends()),
            added_nodes(
                old(lattice).spec_ends(),
                final(lattice).spec_ends(),
                |n: Node, e: int|
                    n.start_node == start_node && n.start_word == start_word && (n.lex_type
                        == LexType::Unknown ==> unk_length_ok(
                        sent.spec_cinfos()[start_word as int],
                        groupable_at(sent.spec_cinfos(), start_word as int),
                        self.spec_max_grouping_len(),
                        dict_matched(self.spec_inner(), sent.spec_chars(), start_word as int),
                        e - start_word,
                    )),
            ),
            position_complete(
                self.spec_inner(),
                self.spec_max_grouping_len(),
                sent.spec_chars(),
                sent.spec_cinfos(),
                final(lattice).spec_ends(),
                start_node as int,
                start_word as int,
            ),
    {
        let d = self.dict.data();
        let ghost chars = sent.spec_chars();
        let ghost s0 = start_node as int;
        let ghost sw = start_word as int;
        let ghost l0 = lattice.spec_ends();
        proof {
            lemma_extends_refl(l0);
        }
        let ghost oka = |n: Node, e: int|
                    n.start_node == start_node && n.start_word == start_word && (n.lex_type
                        == LexType::Unknown ==> unk_length_ok(
                        sent.spec_cinfos()[start_word as int],
                        groupable_at(sent.spec_cinfos(), start_word as int),
                        self.spec_max_grouping_len(),
                        dict_matched(self.spec_inner(), sent.spec_chars(), start_word as int),
                        e - start_word,
                    ));
        proof {
            lemma_added_none(l0, oka);
        }
        let mut has_matched = false;
        match d.user_lexicon() {
            Some(u) => {
                if self.add_lexicon_edges(lattice, u, sent, start_node, start_word) {
                    has_matched = true;
                }
                proof {
                    lemma_added_weaken(
                        l0,
                        lattice.spec_ends(),
                        |n: Node, e: int|
                            n.start_node == start_node && n.start_word == start_word && n.lex_type
                                == u.spec_lex_type(),
                        oka,
                    );
                }
            },
            None => {},
        }
        let ghost l1 = lattice.spec_ends();
        if self.add_lexicon_edges(lattice, d.system_lexicon(), sent, start_node, start_word) {
            has_matched = true;
        }
        let ghost l2 = lattice.spec_ends();
        proof {
            lemma_added_weaken(
                l1,
                l2,
                |n: Node, e: int|
                    n.start_node == start_node && n.start_word == start_word && n.lex_type
                        == d.system_lexicon_spec().spec_lex_type(),
                oka,
            );
            assert(has_matched == dict_matched(d, chars, sw));
        }
        self.add_unknown_edges(lattice, sent, start_node, start_word, has_matched);
        proof {
            let l3 = lattice.spec_ends();
            lemma_added_weaken(
                l2,
                l3,
                |n: Node, e: int|
                    n.start_node == start_node && n.start_word == start_word && n.lex_type
                        == LexType::Unknown && unk_length_ok(
                        sent.spec_cinfos()[start_word as int],
                        groupable_at(sent.spec_cinfos(), start_word as int),
                        self.spec_max_grouping_len(),
                        has_matched,
                        e - start_word,
                    ),
                oka,
            );
            lemma_extends_trans(l0, l1, l2);
            lemma_added_trans(l0, l1, l2, oka);
            lemma_added_trans(l0, l2, l3, oka);
            assert(l0.len() == chars.len() + 1);
            lemma_extends_trans(l0, l1, l2);
            lemma_extends_trans(l1, l2, l3);
            lemma_extends_trans(l0, l2, l3);
            lemma_lex_complete_extends(d.system_lexicon_spec(), chars, l2, l3, s0, sw);
            match d.user_lexicon_spec() {
                Some(u) => {
                    lemma_lex_complete_extends(&u, chars, l1, l3, s0, sw);
                },
                None => {},
            }
        }
    }

    /// Adds a node for word `w` spanning `[start_word, end_word)`.
    fn insert_word(
        &self,
        lattice: &mut Lattice,
        sent: &Sentence,
        start_node: usize,
        start_word: usize,
        end_word: usize,
        w: WordIdx,
    )
        requires
            self.spec_dict().wf(),
            building(old(lattice), self.spec_inner(), sent.spec_chars(), start_node as int, self.spec_prefer_dictionary()),
            start_node <= start_word < end_word <= sent.spec_len(),
            old(lattice).spec_ends()[start_node as int].len() > 0,
            self.spec_inner().valid_word(w),
            word_fits(self.spec_inner(), sent.spec_chars(), start_word as int, end_word as int, w),
            forall|i: int|
                0 <= i < old(lattice).spec_ends()[end_word as int].len() ==> key_before(
                    #[trigger] old(lattice).spec_ends()[end_word as int][i],
                    start_node as int,
                    w.lex_type,
                    w.word_id as int,
                ),
        ensures
            building(final(lattice), self.spec_inner(), sent.spec_chars(), start_node as int, self.spec_prefer_dictionary()),
            forall|e: int|
                0 <= e < old(lattice).spec_ends().len() && e != end_word ==> #[trigger] final(lattice).spec_ends()[e] == old(lattice).spec_ends()[e],
            final(lattice).spec_ends()[end_word as int].len() == old(lattice).spec_ends()[end_word as int].len() + 1,
            extends(old(lattice).spec_ends(), final(lattice).spec_ends()),
            has_node(final(lattice).spec_ends(), start_node as int, start_word as int, end_word as int, w),
            added_nodes(
                old(lattice).spec_ends(),
                final(lattice).spec_ends(),
                |n: Node, e: int| node_is(n, start_node as int, start_word as int, w) && e == end_word,
            ),
    {
        let d = self.dict.data();
        let param = d.word_param(w);
        proof {
            d.lemma_word_param_ids(w);
        }
        let ghost old_ends = lattice.spec_ends();
        lattice.insert_node(
            start_node,
            start_word,
            end_word,
            w,
            param,
            d.connector(),
            self.prefer_dictionary,
        );
        proof {
            let n = choose|n: Node|
                lattice.spec_ends()[end_word as int] == old_ends[end_word as int].push(n)
                    && n.word_idx_spec() == w && n.param() == param && n.start_node == start_node
                    && n.start_word == start_word && tie_pick(
                    d.connector_spec(),
                    old_ends[start_node as int],
                    n.left_id,
                    n.word_cost as int,
                    self.prefer_dictionary,
                    n.min_idx as int,
                );
            assert(n.word_idx_spec() == w);
            let new_ends = lattice.spec_ends();
            assert(new_ends[end_word as int][old_ends[end_word as int].len() as int] == n);
            assert(node_is(new_ends[end_word as int][old_ends[end_word as int].len() as int], start_node as int, start_word as int, w));
            assert forall|e: int| 0 <= e < old_ends.len() implies old_ends[e].len() <= (
            #[trigger] new_ends[e]).len() && new_ends[e].subrange(0, old_ends[e].len() as int)
                == old_ends[e] by {
                if e == end_word {
                    assert(new_ends[e].subrange(0, old_ends[e].len() as int) =~= old_ends[e]);
                } else {
                    assert(new_ends[e].subrange(0, old_ends[e].len() as int) =~= old_ends[e]);
                }
            }
            assert forall|e: int, k: int|
                0 <= e < new_ends.len() && old_ends[e].len() <= k < new_ends[e].len() implies node_is(
                #[trigger] new_ends[e][k],
                start_node as int,
                start_word as int,
                w,
            ) && e == end_word by {
                if e != end_word {
                    assert(new_ends[e] == old_ends[e]);
                }
            }
            lemma_push_node(
                d,
                d.connector_spec(),
                self.prefer_dictionary,
                sent.spec_chars(),
                old_ends,
                lattice.spec_ends(),
                end_word as int,
                n,
                start_node as int,
            );
        }
    }

    /// Adds the words of `lex` whose surface starts at `start_word`, by
    /// increasing length and then by word id; tells whether there was one.
    fn add_lexicon_edges(
        &self,
        lattice: &mut Lattice,
        lex: &Lexicon,
        sent: &Sentence,
        start_node: usize,
        start_word: usize,
    ) -> (matched: bool)
        requires
            self.spec_dict().wf(),
            *lex == *self.spec_inner().system_lexicon_spec() || self.spec_inner().user_lexicon_spec()
                == Some(*lex),
            building(old(lattice), self.spec_inner(), sent.spec_chars(), start_node as int, self.spec_prefer_dictionary()),
            start_node <= start_word < sent.spec_len(),
            old(lattice).spec_ends()[start_node as int].len() > 0,
            kinds_below(old(lattice).spec_ends(), start_node as int, kind_rank(lex.spec_lex_type())),
        ensures
            building(final(lattice), self.spec_inner(), sent.spec_chars(), start_node as int, self.spec_prefer_dictionary()),
            forall|e: int|
                0 <= e <= start_word ==> #[trigger] final(lattice).spec_ends()[e] == old(lattice).spec_ends()[e],
            extends(old(lattice).spec_ends(), final(lattice).spec_ends()),
            kinds_below(final(lattice).spec_ends(), start_node as int, kind_rank(lex.spec_lex_type()) + 1),
            matched == lex_matched(lex, sent.spec_chars(), start_word as int),
            added_nodes(
                old(lattice).spec_ends(),
                final(lattice).spec_ends(),
                |n: Node, e: int|
                    n.start_node == start_node && n.start_word == start_word && n.lex_type
                        == lex.spec_lex_type(),
            ),
            lex_complete(lex, sent.spec_chars(), final(lattice).spec_ends(), start_node as int, start_word as int),
    {
        let ghost d = self.spec_inner();
        let ghost sw = start_word as int;
        let ghost s0 = start_node as int;
        let chars = sent.chars();
        let len = chars.len();
        let n = lex.len();
        let lt = lex.lex_type();
        let mut found: Vec<(usize, usize)> = Vec::new();
        let mut max_end = start_word;
        let mut id: usize = 0;
        while id < n
            invariant
                lex.wf(),
                n == lex.spec_len(),
                len == chars@.len(),
                start_word < len,
                start_word <= max_end <= len,
                id <= n,
                sw == start_word,
                forall|k1: int, k2: int|
                    0 <= k1 < k2 < found@.len() ==> (#[trigger] found@[k1]).1 < (#[trigger] found@[k2]).1,
                forall|k: int|
                    0 <= k < found@.len() ==> (#[trigger] found@[k]).1 < id && start_word
                        < found@[k].0 <= max_end && found@[k].0 == sw + lex.spec_surfaces()[found@[k].1 as int].len()
                        && chars@.subrange(start_word as int, found@[k].0 as int)
                        == lex.spec_surfaces()[found@[k].1 as int],
                forall|x: int|
                    0 <= x < id && surface_at(chars@, sw, #[trigger] lex.spec_surfaces()[x]) ==> exists|k: int|
                        0 <= k < found@.len() && #[trigger] found@[k] == (
                            (sw + lex.spec_surfaces()[x].len()) as usize,
                            x as usize,
                        ),
            decreases n - id,
        {
            if lex.matches_at(id, chars, start_word) {
                let e = start_word + lex.surface_len(id);
                proof {
                    assert(lex.spec_surfaces()[id as int].len() > 0);
                }
                let ghost found0 = found@;
                found.push((e, id));
                if e > max_end {
                    max_end = e;
                }
                proof {
                    assert forall|x: int|
                        0 <= x < id + 1 && surface_at(chars@, sw, #[trigger] lex.spec_surfaces()[x]) implies exists|k: int|
                        0 <= k < found@.len() && #[trigger] found@[k] == (
                            (sw + lex.spec_surfaces()[x].len()) as usize,
                            x as usize,
                        ) by {
                        if x < id {
                            let k = choose|k: int|
                                0 <= k < found0.len() && #[trigger] found0[k] == (
                                    (sw + lex.spec_surfaces()[x].len()) as usize,
                                    x as usize,
                                );
                            assert(found@[k] == found0[k]);
                        } else {
                            assert(found@[found0.len() as int] == (e, id));
                        }
                    }
                }
            }
            id += 1;
        }
        let ghost lattice0 = lattice.spec_ends();
        let ghost okl = |n: Node, e: int|
                    n.start_node == start_node && n.start_word == start_word && n.lex_type
                        == lex.spec_lex_type();
        proof {
            lemma_extends_refl(lattice0);
            lemma_added_none(lattice0, okl);
            assert(lattice0.len() == len + 1);
            assert forall|e2: int, i: int|
                1 <= e2 < lattice0.len() && 0 <= i < lattice0[e2].len() && (#[trigger] lattice0[e2][i]).start_node
                    == s0 implies placed(lattice0[e2][i], e2, lt, found@, start_word as int, 0) by {
            }
        }
        let mut e = start_word;
        while e < max_end
            invariant
                self.spec_dict().wf(),
                d == self.spec_inner(),
                *lex == *d.system_lexicon_spec() || d.user_lexicon_spec() == Some(*lex),
                lt == lex.spec_lex_type(),
                lex.wf(),
                n == lex.spec_len(),
                chars@ == sent.spec_chars(),
                len == chars@.len(),
                start_node <= start_word < len,
                start_word <= e <= max_end,
                max_end <= len,
                sw == start_word,
                s0 == start_node,
                forall|k: int|
                    0 <= k < found@.len() ==> (#[trigger] found@[k]).1 < n && start_word
                        < found@[k].0 <= max_end && chars@.subrange(start_word as int, found@[k].0 as int)
                        == lex.spec_surfaces()[found@[k].1 as int],
                building(lattice, d, chars@, start_node as int, self.spec_prefer_dictionary()),
                lattice.spec_ends().len() == lattice0.len(),
                lattice0.len() == len + 1,
                forall|x: int| 0 <= x <= start_word ==> #[trigger] lattice.spec_ends()[x] == lattice0[x],
                lattice.spec_ends()[start_node as int].len() > 0,
                len <= u32::MAX,
                extends(lattice0, lattice.spec_ends()),
                okl == |n: Node, e: int|
                    n.start_node == start_node && n.start_word == start_word && n.lex_type
                        == lex.spec_lex_type(),
                added_nodes(lattice0, lattice.spec_ends(), okl),
                n <= u32::MAX,
                forall|k1: int, k2: int|
                    0 <= k1 < k2 < found@.len() ==> (#[trigger] found@[k1]).1 < (#[trigger] found@[k2]).1,
                lex_nodes_placed(lattice.spec_ends(), s0, lt, found@, e as int, 0),
                forall|k: int|
                    0 <= k < found@.len() && found@[k].0 <= e ==> has_node(
                        lattice.spec_ends(),
                        s0,
                        sw,
                        (#[trigger] found@[k]).0 as int,
                        WordIdx { lex_type: lt, word_id: found@[k].1 as u32 },
                    ),
            decreases max_end - e,
        {
            let mut k: usize = 0;
            let ghost lattice_e = lattice.spec_ends();
            proof {
                lemma_extends_refl(lattice_e);
            }
            while k < found.len()
                invariant
                    self.spec_dict().wf(),
                    d == self.spec_inner(),
                    *lex == *d.system_lexicon_spec() || d.user_lexicon_spec() == Some(*lex),
                    lt == lex.spec_lex_type(),
                    lex.wf(),
                    n == lex.spec_len(),
                    chars@ == sent.spec_chars(),
                    len == chars@.len(),
                    start_node <= start_word < len,
                    start_word <= e < max_end <= len,
                    sw == start_word,
                    s0 == start_node,
                    k <= found@.len(),
                    forall|k: int|
                        0 <= k < found@.len() ==> (#[trigger] found@[k]).1 < n && start_word
                            < found@[k].0 <= max_end && chars@.subrange(
                            start_word as int,
                            found@[k].0 as int,
                        ) == lex.spec_surfaces()[found@[k].1 as int],
                    building(lattice, d, chars@, start_node as int, self.spec_prefer_dictionary()),
                    lattice.spec_ends().len() == lattice0.len(),
                    lattice0.len() == len + 1,
                    forall|x: int| 0 <= x <= start_word ==> #[trigger] lattice.spec_ends()[x] == lattice0[x],
                    lattice.spec_ends()[start_node as int].len() > 0,
                    extends(lattice0, lattice_e),
                    extends(lattice_e, lattice.spec_ends()),
                    okl == |n: Node, e: int|
                    n.start_node == start_node && n.start_word == start_word && n.lex_type
                        == lex.spec_lex_type(),
                    added_nodes(lattice0, lattice.spec_ends(), okl),
                    n <= u32::MAX,
                    forall|k1: int, k2: int|
                        0 <= k1 < k2 < found@.len() ==> (#[trigger] found@[k1]).1 < (#[trigger] found@[k2]).1,
                    lex_nodes_placed(lattice.spec_ends(), s0, lt, found@, e as int, k as int),
                    forall|j: int|
                        0 <= j < found@.len() && found@[j].0 <= e ==> has_node(
                            lattice_e,
                            s0,
                            sw,
                            (#[trigger] found@[j]).0 as int,
                            WordIdx { lex_type: lt, word_id: found@[j].1 as u32 },
                        ),
                    forall|j: int|
                        0 <= j < k && found@[j].0 == e + 1 ==> has_node(
                            lattice.spec_ends(),
                            s0,
                            sw,
                            (#[trigger] found@[j]).0 as int,
                            WordIdx { lex_type: lt, word_id: found@[j].1 as u32 },
                        ),
                decreases found@.len() - k,
            {
                let (end, word_id) = found[k];
                let ghost before = lattice.spec_ends();
                if end == e + 1 {
                    let w = WordIdx::new(lt, word_id as u32);
                    proof {
                        assert(lattice.spec_ends()[start_node as int] == lattice0[start_node as int]);
                        assert(word_surface(d, w) == lex.spec_surfaces()[word_id as int]);
                        let cur = lattice.spec_ends();
                        assert forall|i: int| 0 <= i < cur[end as int].len() implies key_before(
                            #[trigger] cur[end as int][i],
                            s0,
                            w.lex_type,
                            w.word_id as int,
                        ) by {
                            let nd = cur[end as int][i];
                            assert(nd.start_node <= s0);
                            if nd.start_node == s0 {
                                assert(placed(nd, end as int, lt, found@, e as int, k as int));
                                if kind_rank(nd.lex_type) >= kind_rank(lt) {
                                    let k2 = choose|k2: int|
                                        0 <= k2 < found@.len() && #[trigger] found@[k2] == (
                                            end,
                                            nd.word_id as usize,
                                        ) && (end <= e || (end == e + 1 && k2 < k));
                                    assert(found@[k2].1 < found@[k as int].1);
                                }
                            }
                        }
                    }
                    self.insert_word(lattice, sent, start_node, start_word, end, w);
                    proof {
                        let b = lattice.spec_ends();
                        assert forall|e2: int, i: int|
                            1 <= e2 < b.len() && 0 <= i < b[e2].len() && (#[trigger] b[e2][i]).start_node
                                == s0 implies placed(b[e2][i], e2, lt, found@, e as int, k + 1) by {
                            if e2 == end && i == before[e2].len() {
                                assert(node_is(b[e2][i], s0, sw, w));
                                assert(found@[k as int] == (e2 as usize, b[e2][i].word_id as usize));
                            } else {
                                if e2 == end {
                                    assert(b[e2].subrange(0, before[e2].len() as int) == before[e2]);
                                    assert(b[e2][i] == b[e2].subrange(0, before[e2].len() as int)[i]);
                                } else {
                                    assert(b[e2] == before[e2]);
                                }
                                assert(placed(before[e2][i], e2, lt, found@, e as int, k as int));
                            }
                        }
                    }
                    proof {
                        lemma_added_weaken(
                            before,
                            lattice.spec_ends(),
                            |n: Node, e2: int| node_is(n, start_node as int, start_word as int, w) && e2 == end,
                            okl,
                        );
                        lemma_extends_trans(lattice0, lattice_e, before);
                        lemma_added_trans(lattice0, before, lattice.spec_ends(), okl);
                    }
                } else {
                    proof {
                        lemma_extends_refl(before);
                        lemma_placed_later(before, s0, lt, found@, e as int, k as int, e as int, k + 1);
                    }
                }
                proof {
                    lemma_extends_trans(lattice_e, before, lattice.spec_ends());
                    assert forall|j: int|
                        0 <= j < k + 1 && found@[j].0 == e + 1 implies has_node(
                            lattice.spec_ends(),
                            s0,
                            sw,
                            (#[trigger] found@[j]).0 as int,
                            WordIdx { lex_type: lt, word_id: found@[j].1 as u32 },
                        ) by {
                        if j < k {
                            lemma_has_node_extends(
                                before,
                                lattice.spec_ends(),
                                s0,
                                sw,
                                found@[j].0 as int,
                                WordIdx { lex_type: lt, word_id: found@[j].1 as u32 },
                            );
                        }
                    }
                }
                k += 1;
            }
            proof {
                lemma_placed_later(lattice.spec_ends(), s0, lt, found@, e as int, k as int, e + 1, 0);
                lemma_extends_trans(lattice0, lattice_e, lattice.spec_ends());
                assert forall|j: int|
                    0 <= j < found@.len() && found@[j].0 <= e + 1 implies has_node(
                        lattice.spec_ends(),
                        s0,
                        sw,
                        (#[trigger] found@[j]).0 as int,
                        WordIdx { lex_type: lt, word_id: found@[j].1 as u32 },
                    ) by {
                    if found@[j].0 <= e {
                        lemma_has_node_extends(
                            lattice_e,
                            lattice.spec_ends(),
                            s0,
                            sw,
                            found@[j].0 as int,
                            WordIdx { lex_type: lt, word_id: found@[j].1 as u32 },
                        );
                    }
                }
            }
            e += 1;
        }
        proof {
            let fin = lattice.spec_ends();
            assert forall|x: int|
                0 <= x < lex.spec_len() && surface_at(chars@, sw, #[trigger] lex.spec_surfaces()[x])
                    implies has_node(
                    fin,
                    s0,
                    sw,
                    sw + lex.spec_surfaces()[x].len(),
                    WordIdx { lex_type: lex.spec_lex_type(), word_id: x as u32 },
                ) by {
                let k = choose|k: int|
                    0 <= k < found@.len() && #[trigger] found@[k] == (
                        (sw + lex.spec_surfaces()[x].len()) as usize,
                        x as usize,
                    );
                assert(found@[k].0 <= max_end);
            }
            if found@.len() > 0 {
                let x = found@[0].1 as int;
                assert(surface_at(chars@, sw, lex.spec_surfaces()[x]));
            }
            if lex_matched(lex, chars@, sw) {
                let x = choose|x: int| 0 <= x < lex.spec_len() && surface_at(chars@, sw, #[trigger] lex.spec_surfaces()[x]);
                assert(exists|k: int|
                    0 <= k < found@.len() && #[trigger] found@[k] == (
                        (sw + lex.spec_surfaces()[x].len()) as usize,
                        x as usize,
                    ));
            }
            assert forall|e2: int, i: int|
                1 <= e2 < fin.len() && 0 <= i < fin[e2].len() && (#[trigger] fin[e2][i]).start_node == s0
                    implies kind_rank(fin[e2][i].lex_type) < kind_rank(lt) + 1 by {
                assert(placed(fin[e2][i], e2, lt, found@, e as int, 0));
            }
        }
        found.len() > 0
    }

    /// Adds unknown words starting at `start_word`, as MeCab does: unless a
    /// lexicon word was found there and the category is not invoked anyway,
    /// the whole group (within the grouping limit) and each prefix of up to
    /// `length` characters, or else the first character alone.
    fn add_unknown_edges(
        &self,
        lattice: &mut Lattice,
        sent: &Sentence,
        start_node: usize,
        start_word: usize,
        has_matched: bool,
    )
        requires
            self.spec_dict().wf(),
            sent.wf(self.spec_inner().char_prop_spec()),
            building(old(lattice), self.spec_inner(), sent.spec_chars(), start_node as int, self.spec_prefer_dictionary()),
            start_node <= start_word < sent.spec_len(),
            old(lattice).spec_ends()[start_node as int].len() > 0,
            kinds_below(old(lattice).spec_ends(), start_node as int, 2),
        ensures
            building(final(lattice), self.spec_inner(), sent.spec_chars(), start_node as int, self.spec_prefer_dictionary()),
            forall|e: int|
                0 <= e <= start_word ==> #[trigger] final(lattice).spec_ends()[e] == old(lattice).spec_ends()[e],
            extends(old(lattice).spec_ends(), final(lattice).spec_ends()),
            added_nodes(
                old(lattice).spec_ends(),
                final(lattice).spec_ends(),
                |n: Node, e: int|
                    n.start_node == start_node && n.start_word == start_word && n.lex_type
                        == LexType::Unknown && unk_length_ok(
                        sent.spec_cinfos()[start_word as int],
                        groupable_at(sent.spec_cinfos(), start_word as int),
                        self.spec_max_grouping_len(),
                        has_matched,
                        e - start_word,
                    ),
            ),
            unk_complete(
                self.spec_inner(),
                self.spec_max_grouping_len(),
                sent.spec_cinfos(),
                final(lattice).spec_ends(),
                start_node as int,
                start_word as int,
                has_matched,
            ),
    {
        let ghost d = self.spec_inner();
        let ghost lattice0 = lattice.spec_ends();
        let ghost s0 = start_node as int;
        let ghost sw = start_word as int;
        let ghost offs = d.unk_handler_spec().spec_offsets();
        let ghost oku = |n: Node, e: int|
                    n.start_node == start_node && n.start_word == start_word && n.lex_type
                        == LexType::Unknown && unk_length_ok(
                        sent.spec_cinfos()[start_word as int],
                        groupable_at(sent.spec_cinfos(), start_word as int),
                        self.spec_max_grouping_len(),
                        has_matched,
                        e - start_word,
                    );
        proof {
            lemma_extends_refl(lattice0);
            lemma_added_none(lattice0, oku);
        }
        let cinfo = sent.char_info(start_word);
        if has_matched && !cinfo.invoke {
            return;
        }
        let mut matched = has_matched;
        let mut grouped = false;
        let groupable = sent.groupable(start_word);
        proof {
            lemma_groupable_bounds(sent.spec_cinfos(), start_word as int);
        }
        let ghost g = groupable as int;
        let ghost within = match self.max_grouping_len {
            Some(m) => g - 1 <= m,
            None => true,
        };
        if cinfo.group {
            grouped = true;
            let within_exec = match self.max_grouping_len {
                Some(m) => groupable - 1 <= m,
                None => true,
            };
            if within_exec {
                let ghost before = lattice.spec_ends();
                proof {
                    assert forall|j: int|
                        0 <= j < before[start_word + groupable].len() && (#[trigger] before[start_word
                            + groupable][j]).start_node == start_node implies kind_rank(
                        before[start_word + groupable][j].lex_type,
                    ) < 2 by {
                        assert(sent.spec_len() < before.len());
                    }
                }
                self.scan_unknown(lattice, sent, start_node, start_word, start_word + groupable, cinfo);
                proof {
                    assert(unk_length_ok(cinfo, g, self.spec_max_grouping_len(), has_matched, g));
                    lemma_added_weaken(
                        before,
                        lattice.spec_ends(),
                        |n: Node, e: int|
                            n.start_node == start_node && n.start_word == start_word && n.lex_type
                                == LexType::Unknown && e == start_word + groupable,
                        oku,
                    );
                    lemma_added_trans(lattice0, before, lattice.spec_ends(), oku);
                }
                matched = true;
            }
        }
        let ghost lattice1 = lattice.spec_ends();
        proof {
            lemma_extends_refl(lattice1);
            assert(lattice0.len() == sent.spec_len() + 1);
            assert forall|e: int, k: int|
                1 <= e < lattice1.len() && 0 <= k < lattice1[e].len() && (#[trigger] lattice1[e][k]).start_node
                    == start_node && lattice1[e][k].lex_type == LexType::Unknown implies cinfo.group
                && within && e - sw == g by {
                if k < lattice0[e].len() {
                    assert(lattice1[e].subrange(0, lattice0[e].len() as int) == lattice0[e]);
                    assert(lattice1[e][k] == lattice1[e].subrange(0, lattice0[e].len() as int)[k]);
                } else {
                    assert(oku(lattice1[e][k], e));
                }
            }
        }
        let limit: usize = if (cinfo.length as usize) < groupable {
            cinfo.length as usize
        } else {
            groupable
        };
        let mut i: usize = 0;
        while i < limit
            invariant
                self.spec_dict().wf(),
                d == self.spec_inner(),
                offs == d.unk_handler_spec().spec_offsets(),
                sent.wf(d.char_prop_spec()),
                cinfo == sent.spec_cinfos()[start_word as int],
                groupable == groupable_at(sent.spec_cinfos(), start_word as int),
                g == groupable,
                grouped == cinfo.group,
                1 <= groupable <= sent.spec_len() - start_word,
                limit <= groupable,
                start_node <= start_word < sent.spec_len(),
                i <= limit,
                building(lattice, d, sent.spec_chars(), start_node as int, self.spec_prefer_dictionary()),
                lattice.spec_ends().len() == lattice0.len(),
                forall|x: int| 0 <= x <= start_word ==> #[trigger] lattice.spec_ends()[x] == lattice0[x],
                lattice.spec_ends()[start_node as int].len() > 0,
                extends(lattice0, lattice.spec_ends()),
                extends(lattice1, lattice.spec_ends()),
                oku == |n: Node, e: int|
                    n.start_node == start_node && n.start_word == start_word && n.lex_type
                        == LexType::Unknown && unk_length_ok(
                        sent.spec_cinfos()[start_word as int],
                        groupable_at(sent.spec_cinfos(), start_word as int),
                        self.spec_max_grouping_len(),
                        has_matched,
                        e - start_word,
                    ),
                added_nodes(lattice0, lattice.spec_ends(), oku),
                kinds_below(lattice0, s0, 2),
                forall|e: int, k: int|
                    1 <= e < lattice.spec_ends().len() && 0 <= k < lattice.spec_ends()[e].len() && (
                    #[trigger] lattice.spec_ends()[e][k]).start_node == start_node
                        && lattice.spec_ends()[e][k].lex_type == LexType::Unknown ==> (cinfo.group
                        && within && e - sw == g) || (1 <= e - sw <= i && !(cinfo.group && e - sw
                        == g)),
                has_matched ==> cinfo.invoke,
                limit == (if cinfo.length < g {
                    cinfo.length as int
                } else {
                    g
                }),
                lattice0.len() == sent.spec_len() + 1,
                sw == start_word,
                s0 == start_node,
                within == match self.spec_max_grouping_len() {
                    Some(m) => g - 1 <= m,
                    None => true,
                },
                matched == (has_matched || (cinfo.group && within) || (i >= 1 && (!cinfo.group
                    || i < g || g >= 2))),
                forall|n: int, id: int|
                    1 <= n <= i && !(cinfo.group && n == g) && offs[cinfo.base_id as int] <= id
                        < offs[cinfo.base_id + 1] ==> #[trigger] has_node(
                        lattice.spec_ends(),
                        s0,
                        sw,
                        sw + n,
                        WordIdx { lex_type: LexType::Unknown, word_id: id as u32 },
                    ),
            decreases limit - i,
        {
            let n = i + 1;
            let ghost before = lattice.spec_ends();
            if !(grouped && n == groupable) {
                proof {
                    assert forall|j: int|
                        0 <= j < before[start_word + n].len() && (#[trigger] before[start_word
                            + n][j]).start_node == start_node implies kind_rank(
                        before[start_word + n][j].lex_type,
                    ) < 2 by {
                        if before[start_word + n][j].lex_type == LexType::Unknown {
                            assert(start_word + n < before.len());
                        }
                    }
                }
                self.scan_unknown(lattice, sent, start_node, start_word, start_word + n, cinfo);
                proof {
                    assert(unk_length_ok(cinfo, g, self.spec_max_grouping_len(), has_matched, n as int));
                    lemma_added_weaken(
                        before,
                        lattice.spec_ends(),
                        |nd: Node, e: int|
                            nd.start_node == start_node && nd.start_word == start_word && nd.lex_type
                                == LexType::Unknown && e == start_word + n,
                        oku,
                    );
                    lemma_added_trans(lattice0, before, lattice.spec_ends(), oku);
                }
                matched = true;
            } else {
                proof {
                    lemma_extends_refl(before);
                }
            }
            proof {
                lemma_extends_trans(lattice0, before, lattice.spec_ends());
                lemma_extends_trans(lattice1, before, lattice.spec_ends());
                let after = lattice.spec_ends();
                assert forall|e: int, k: int|
                    1 <= e < after.len() && 0 <= k < after[e].len() && (#[trigger] after[e][k]).start_node
                        == start_node && after[e][k].lex_type == LexType::Unknown implies (cinfo.group
                    && within && e - sw == g) || (1 <= e - sw <= i + 1 && !(cinfo.group && e - sw
                    == g)) by {
                    if k < before[e].len() {
                        assert(after[e].subrange(0, before[e].len() as int) == before[e]);
                        assert(after[e][k] == after[e].subrange(0, before[e].len() as int)[k]);
                    } else {
                        assert(added_nodes(before, after, |nd: Node, e2: int|
                            nd.start_node == start_node && nd.start_word == start_word && nd.lex_type
                                == LexType::Unknown && e2 == start_word + n));
                        assert(after[e][k].start_node == start_node && e == start_word + n);
                    }
                }
                assert forall|n2: int, id: int|
                    1 <= n2 <= i + 1 && !(cinfo.group && n2 == g) && offs[cinfo.base_id as int]
                        <= id < offs[cinfo.base_id + 1] implies #[trigger] has_node(
                        lattice.spec_ends(),
                        s0,
                        sw,
                        sw + n2,
                        WordIdx { lex_type: LexType::Unknown, word_id: id as u32 },
                    ) by {
                    if n2 <= i {
                        assert(has_node(
                            before,
                            s0,
                            sw,
                            sw + n2,
                            WordIdx { lex_type: LexType::Unknown, word_id: id as u32 },
                        ));
                        lemma_has_node_extends(
                            before,
                            lattice.spec_ends(),
                            s0,
                            sw,
                            sw + n2,
                            WordIdx { lex_type: LexType::Unknown, word_id: id as u32 },
                        );
                    }
                }
            }
            i += 1;
        }
        let ghost lattice2 = lattice.spec_ends();
        if !matched {
            proof {
                assert forall|j: int|
                    0 <= j < lattice2[start_word + 1].len() && (#[trigger] lattice2[start_word
                        + 1][j]).start_node == start_node implies kind_rank(
                    lattice2[start_word + 1][j].lex_type,
                ) < 2 by {
                    assert(start_word + 1 < lattice2.len());
                }
            }
            self.scan_unknown(lattice, sent, start_node, start_word, start_word + 1, cinfo);
            proof {
                assert(unk_length_ok(cinfo, g, self.spec_max_grouping_len(), has_matched, 1));
                lemma_added_weaken(
                    lattice2,
                    lattice.spec_ends(),
                    |nd: Node, e: int|
                        nd.start_node == start_node && nd.start_word == start_word && nd.lex_type
                            == LexType::Unknown && e == start_word + 1,
                    oku,
                );
                lemma_added_trans(lattice0, lattice2, lattice.spec_ends(), oku);
            }
        } else {
            proof {
                lemma_extends_refl(lattice2);
            }
        }
        proof {
            let fin = lattice.spec_ends();
            lemma_extends_trans(lattice0, lattice2, fin);
            lemma_extends_trans(lattice1, lattice2, fin);
            assert(sent.spec_len() < lattice0.len());
            assert forall|n: int, id: int|
                unk_length_ok(cinfo, g, self.spec_max_grouping_len(), has_matched, n)
                    && offs[cinfo.base_id as int] <= id < offs[cinfo.base_id + 1] implies #[trigger] has_node(
                    fin,
                    s0,
                    sw,
                    sw + n,
                    WordIdx { lex_type: LexType::Unknown, word_id: id as u32 },
                ) by {
                let w = WordIdx { lex_type: LexType::Unknown, word_id: id as u32 };
                if cinfo.group && within && n == g {
                    assert(has_node(lattice1, s0, sw, sw + n, w));
                    lemma_has_node_extends(lattice1, fin, s0, sw, sw + n, w);
                } else if 1 <= n <= limit && !(cinfo.group && n == g) {
                    assert(has_node(lattice2, s0, sw, sw + n, w));
                    lemma_has_node_extends(lattice2, fin, s0, sw, sw + n, w);
                } else {
                    assert(!matched && n == 1);
                }
            }
        }
    }

    /// Adds one node for each unknown-word entry of the category of `cinfo`,
    /// spanning `[start_word, end_word)`.
    fn scan_unknown(
        &self,
        lattice: &mut Lattice,
        sent: &Sentence,
        start_node: usize,
        start_word: usize,
        end_word: usize,
        cinfo: CharInfo,
    )
        requires
            self.spec_dict().wf(),
            sent.wf(self.spec_inner().char_prop_spec()),
            building(old(lattice), self.spec_inner(), sent.spec_chars(), start_node as int, self.spec_prefer_dictionary()),
            start_node <= start_word < end_word,
            end_word - start_word <= groupable_at(sent.spec_cinfos(), start_word as int),
            start_word < sent.spec_len(),
            cinfo == sent.spec_cinfos()[start_word as int],
            old(lattice).spec_ends()[start_node as int].len() > 0,
            forall|j: int|
                0 <= j < old(lattice).spec_ends()[end_word as int].len() && (#[trigger] old(
                    lattice,
                ).spec_ends()[end_word as int][j]).start_node == start_node ==> kind_rank(
                    old(lattice).spec_ends()[end_word as int][j].lex_type,
                ) < 2,
        ensures
            building(final(lattice), self.spec_inner(), sent.spec_chars(), start_node as int, self.spec_prefer_dictionary()),
            final(lattice).spec_ends().len() == old(lattice).spec_ends().len(),
            forall|e: int|
                0 <= e <= start_word ==> #[trigger] final(lattice).spec_ends()[e] == old(lattice).spec_ends()[e],
            extends(old(lattice).spec_ends(), final(lattice).spec_ends()),
            added_nodes(
                old(lattice).spec_ends(),
                final(lattice).spec_ends(),
                |n: Node, e: int|
                    n.start_node == start_node && n.start_word == start_word && n.lex_type
                        == LexType::Unknown && e == end_word,
            ),
            forall|id: int|
                self.spec_inner().unk_handler_spec().spec_offsets()[cinfo.base_id as int] <= id
                    < self.spec_inner().unk_handler_spec().spec_offsets()[cinfo.base_id + 1]
                    ==> #[trigger] has_node(
                    final(lattice).spec_ends(),
                    start_node as int,
                    start_word as int,
                    end_word as int,
                    WordIdx { lex_type: LexType::Unknown, word_id: id as u32 },
                ),
    {
        let ghost d = self.spec_inner();
        let ghost chars = sent.spec_chars();
        let ghost lattice0 = lattice.spec_ends();
        let prop = self.dict.data().char_prop();
        let unk = self.dict.data().unk_handler();
        proof {
            lemma_groupable_bounds(sent.spec_cinfos(), start_word as int);
            prop.lemma_info_wf(chars[start_word as int]);
            assert(sent.spec_cinfos() =~= cinfos_of(prop, chars));
        }
        let ghost ncat = prop.spec_categories().len() as int;
        let (lo, hi) = unk.entry_range(cinfo.base_id as usize);
        proof {
            lemma_extends_refl(lattice0);
            lemma_added_none(
                lattice0,
                |n: Node, e: int|
                    n.start_node == start_node && n.start_word == start_word && n.lex_type
                        == LexType::Unknown && e == end_word,
            );
        }
        let mut id = lo;
        while id < hi
            invariant
                self.spec_dict().wf(),
                d == self.spec_inner(),
                prop == d.char_prop_spec(),
                unk == d.unk_handler_spec(),
                ncat == prop.spec_categories().len(),
                chars == sent.spec_chars(),
                cinfo == prop.spec_char_info(chars[start_word as int]),
                cinfo.base_id < ncat,
                lo == unk.spec_offsets()[cinfo.base_id as int],
                hi == unk.spec_offsets()[cinfo.base_id + 1],
                hi <= unk.spec_len(),
                lo <= id <= hi,
                start_node <= start_word < end_word <= chars.len(),
                end_word - start_word <= groupable_at(cinfos_of(prop, chars), start_word as int),
                building(lattice, d, chars, start_node as int, self.spec_prefer_dictionary()),
                lattice.spec_ends().len() == lattice0.len(),
                forall|x: int| 0 <= x <= start_word ==> #[trigger] lattice.spec_ends()[x] == lattice0[x],
                lattice.spec_ends()[start_node as int].len() > 0,
                extends(lattice0, lattice.spec_ends()),
                added_nodes(
                    lattice0,
                    lattice.spec_ends(),
                    |n: Node, e: int|
                        n.start_node == start_node && n.start_word == start_word && n.lex_type
                            == LexType::Unknown && e == end_word,
                ),
                end_word < lattice0.len(),
                forall|j: int|
                    lo <= j < id ==> #[trigger] has_node(
                        lattice.spec_ends(),
                        start_node as int,
                        start_word as int,
                        end_word as int,
                        WordIdx { lex_type: LexType::Unknown, word_id: j as u32 },
                    ),
                hi <= u32::MAX,
                forall|j: int|
                    0 <= j < lattice.spec_ends()[end_word as int].len() && (
                    #[trigger] lattice.spec_ends()[end_word as int][j]).start_node == start_node
                        ==> kind_rank(lattice.spec_ends()[end_word as int][j].lex_type) < 2 || (
                    lattice.spec_ends()[end_word as int][j].lex_type == LexType::Unknown
                        && lattice.spec_ends()[end_word as int][j].word_id < id),
            decreases hi - id,
        {
            proof {
                lemma_entry_category(unk, ncat, cinfo.base_id as int, id as int);
                assert(lattice.spec_ends()[start_node as int] == lattice0[start_node as int]);
            }
            let w = WordIdx::new(LexType::Unknown, id as u32);
            let ghost before = lattice.spec_ends();
            proof {
                assert(starts_at_most(before, start_node as int));
                assert forall|i: int| 0 <= i < before[end_word as int].len() implies key_before(
                    #[trigger] before[end_word as int][i],
                    start_node as int,
                    w.lex_type,
                    w.word_id as int,
                ) by {
                    assert(before[end_word as int][i].start_node <= start_node);
                }
            }
            self.insert_word(lattice, sent, start_node, start_word, end_word, w);
            proof {
                let after = lattice.spec_ends();
                assert forall|j: int|
                    0 <= j < after[end_word as int].len() && (#[trigger] after[end_word as int][j]).start_node
                        == start_node implies kind_rank(after[end_word as int][j].lex_type) < 2 || (
                after[end_word as int][j].lex_type == LexType::Unknown && after[end_word as int][j].word_id
                    < id + 1) by {
                    if j < before[end_word as int].len() {
                        assert(after[end_word as int].subrange(0, before[end_word as int].len() as int) == before[end_word as int]);
                        assert(after[end_word as int][j] == after[end_word as int].subrange(0, before[end_word as int].len() as int)[j]);
                    } else {
                        assert(node_is(after[end_word as int][j], start_node as int, start_word as int, w));
                    }
                }
                let ok = |n: Node, e: int|
                    n.start_node == start_node && n.start_word == start_word && n.lex_type
                        == LexType::Unknown && e == end_word;
                lemma_added_weaken(
                    before,
                    lattice.spec_ends(),
                    |n: Node, e: int| node_is(n, start_node as int, start_word as int, w) && e == end_word,
                    ok,
                );
                lemma_added_trans(lattice0, before, lattice.spec_ends(), ok);
                lemma_extends_trans(lattice0, before, lattice.spec_ends());
                assert forall|j: int|
                    lo <= j < id + 1 implies #[trigger] has_node(
                        lattice.spec_ends(),
                        start_node as int,
                        start_word as int,
                        end_word as int,
                        WordIdx { lex_type: LexType::Unknown, word_id: j as u32 },
                    ) by {
                    if j < id {
                        lemma_has_node_extends(
                            before,
                            lattice.spec_ends(),
                            start_node as int,
                            start_word as int,
                            end_word as int,
                            WordIdx { lex_type: LexType::Unknown, word_id: j as u32 },
                        );
                    }
                }
            }
            id += 1;
        }
    }
}

} // verus!
