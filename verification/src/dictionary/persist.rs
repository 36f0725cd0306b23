//! Writing a dictionary as a binary image and reading it back.
use vstd::prelude::*;

use crate::dictionary::character::{info_wf, CharInfo, CharProperty, CharRange, MAX_CATEGORIES};
use crate::dictionary::connector::{is_id_permutation, MatrixConnector};
use crate::dictionary::image::{
    fields_words_fwd, lemma_parse_fields, lemma_words_roundtrip, parse_fields_from, push_field,
    push_words, read_fields, read_words, bytes_words, words_bytes, lemma_words_bytes_len,
};
use crate::dictionary::layout::{
    bools_field, field_bools, field_i16s, field_of_bools, field_of_i16s, field_of_u16s,
    field_u16s, fields_view, i16s_field, lemma_fields_back, lemma_parse_texts, parse_texts,
    push_texts, read_bools, read_i16s, read_texts, read_u16s, texts_fields, texts_fit, texts_view,
    u16s_field,
};
use crate::dictionary::mapper::check_id_permutation;
use crate::dictionary::Dictionary;
use crate::errors::{Source, VibratoError};
use crate::dictionary::lexicon::{Lexicon, WordParam};
use crate::dictionary::mapper::ConnIdMapper;
use crate::dictionary::unknown::UnkHandler;
use crate::dictionary::word_idx::LexType;
use crate::dictionary::DictionaryInner;

verus! {

/// The first field of every image.
pub const IMAGE_MAGIC: u32 = 0x5642_4b44;

/// A lexicon as its surfaces, parameters and features.
pub type LexView = (Seq<Seq<char>>, Seq<WordParam>, Seq<Seq<char>>);

/// A connector as its numbers of right and left ids and its costs.
pub type ConnView = (int, int, Seq<i16>);

/// A mapper as its lists of new left and right ids.
pub type MapView = Option<(Seq<u16>, Seq<u16>)>;

/// A character property as its ranges, default information and categories.
pub type PropView = (Seq<CharRange>, CharInfo, Seq<Seq<char>>);

/// A handler of unknown words as its offsets and, per entry, category,
/// parameter and feature.
pub type UnkView = (Seq<usize>, Seq<u16>, Seq<WordParam>, Seq<Seq<char>>);

/// A dictionary as the views of its parts.
pub type DictView = (LexView, Option<LexView>, ConnView, MapView, PropView, UnkView);

pub open spec fn lex_view(l: Lexicon) -> LexView {
    (l.spec_surfaces(), l.spec_params(), l.spec_features())
}

/// The view of a dictionary.
pub open spec fn dict_view(d: DictionaryInner) -> DictView {
    let c = d.connector_spec();
    let p = d.char_prop_spec();
    let h = d.unk_handler_spec();
    (
        lex_view(*d.system_lexicon_spec()),
        match d.user_lexicon_spec() {
            Some(u) => Some(lex_view(u)),
            None => None,
        },
        (c.spec_num_right(), c.spec_num_left(), c.spec_data()),
        match d.mapper_spec() {
            Some(m) => Some((m.spec_left(), m.spec_right())),
            None => None,
        },
        (p.spec_ranges(), p.spec_default(), p.spec_categories()),
        (h.spec_offsets(), h.spec_cate_ids(), h.spec_params(), h.spec_features()),
    )
}

pub open spec fn lefts(ps: Seq<WordParam>) -> Seq<u16> {
    ps.map_values(|p: WordParam| p.left_id)
}

pub open spec fn rights(ps: Seq<WordParam>) -> Seq<u16> {
    ps.map_values(|p: WordParam| p.right_id)
}

pub open spec fn costs(ps: Seq<WordParam>) -> Seq<i16> {
    ps.map_values(|p: WordParam| p.word_cost)
}

pub open spec fn zip_params(l: Seq<u16>, r: Seq<u16>, c: Seq<i16>) -> Seq<WordParam> {
    Seq::new(l.len(), |k: int| WordParam { left_id: l[k], right_id: r[k], word_cost: c[k] })
}

pub open spec fn lex_fields(v: LexView) -> Seq<Seq<u32>> {
    texts_fields(v.0) + seq![
        u16s_field(lefts(v.1)),
        u16s_field(rights(v.1)),
        i16s_field(costs(v.1)),
    ] + texts_fields(v.2)
}

pub open spec fn parse_lex(fs: Seq<Seq<u32>>, i: int) -> Option<(LexView, int)> {
    match parse_texts(fs, i) {
        Some((surf, j)) => if 0 <= j && j + 3 <= fs.len() {
            match (field_u16s(fs[j]), field_u16s(fs[j + 1]), field_i16s(fs[j + 2])) {
                (Some(l), Some(r), Some(c)) => if l.len() == r.len() && r.len() == c.len() {
                    match parse_texts(fs, j + 3) {
                        Some((feat, k)) => Some(((surf, zip_params(l, r, c), feat), k)),
                        None => None,
                    }
                } else {
                    None
                },
                _ => None,
            }
        } else {
            None
        },
        None => None,
    }
}

/// The lexicon fits the fields of an image.
pub open spec fn lex_fits(v: LexView) -> bool {
    &&& texts_fit(v.0)
    &&& texts_fit(v.2)
    &&& v.1.len() <= u32::MAX
}

pub proof fn lemma_parse_lex(pre: Seq<Seq<u32>>, v: LexView, rest: Seq<Seq<u32>>)
    requires
        lex_fits(v),
    ensures
        parse_lex(pre + lex_fields(v) + rest, pre.len() as int) == Some(
            (v, (pre.len() + lex_fields(v).len()) as int),
        ),
        lex_fields(v).len() == 5 + v.0.len() + v.2.len(),
{
    let mid = seq![u16s_field(lefts(v.1)), u16s_field(rights(v.1)), i16s_field(costs(v.1))];
    let fs = pre + lex_fields(v) + rest;
    lemma_parse_texts(pre, v.0, mid + texts_fields(v.2) + rest);
    assert(fs =~= pre + texts_fields(v.0) + (mid + texts_fields(v.2) + rest));
    let j = (pre.len() + 1 + v.0.len()) as int;
    let pre2 = pre + texts_fields(v.0) + mid;
    lemma_parse_texts(pre2, v.2, rest);
    assert(fs =~= pre2 + texts_fields(v.2) + rest);
    assert(fs[j] == u16s_field(lefts(v.1)));
    assert(fs[j + 1] == u16s_field(rights(v.1)));
    assert(fs[j + 2] == i16s_field(costs(v.1)));
    lemma_fields_back(lefts(v.1), costs(v.1), Seq::empty());
    lemma_fields_back(rights(v.1), costs(v.1), Seq::empty());
    assert(zip_params(lefts(v.1), rights(v.1), costs(v.1)) =~= v.1);
}

pub open spec fn opt_lex_fields(u: Option<LexView>) -> Seq<Seq<u32>> {
    match u {
        Some(v) => seq![seq![1u32]] + lex_fields(v),
        None => seq![Seq::empty()],
    }
}

pub open spec fn parse_opt_lex(fs: Seq<Seq<u32>>, i: int) -> Option<(Option<LexView>, int)> {
    if 0 <= i < fs.len() {
        if fs[i].len() == 0 {
            Some((None, i + 1))
        } else if fs[i] == seq![1u32] {
            match parse_lex(fs, i + 1) {
                Some((v, j)) => Some((Some(v), j)),
                None => None,
            }
        } else {
            None
        }
    } else {
        None
    }
}

pub proof fn lemma_parse_opt_lex(pre: Seq<Seq<u32>>, u: Option<LexView>, rest: Seq<Seq<u32>>)
    requires
        u matches Some(v) ==> lex_fits(v),
    ensures
        parse_opt_lex(pre + opt_lex_fields(u) + rest, pre.len() as int) == Some(
            (u, (pre.len() + opt_lex_fields(u).len()) as int),
        ),
{
    let fs = pre + opt_lex_fields(u) + rest;
    match u {
        Some(v) => {
            let pre2 = pre + seq![seq![1u32]];
            assert(fs =~= pre2 + lex_fields(v) + rest);
            assert(fs[pre.len() as int] == seq![1u32]);
            lemma_parse_lex(pre2, v, rest);
        },
        None => {
            assert(fs[pre.len() as int] == Seq::<u32>::empty());
        },
    }
}

pub open spec fn conn_fields(c: ConnView) -> Seq<Seq<u32>> {
    seq![seq![c.0 as u32, c.1 as u32], i16s_field(c.2)]
}

pub open spec fn parse_conn(fs: Seq<Seq<u32>>, i: int) -> Option<(ConnView, int)> {
    if 0 <= i && i + 2 <= fs.len() && fs[i].len() == 2 {
        match field_i16s(fs[i + 1]) {
            Some(d) => Some(((fs[i][0] as int, fs[i][1] as int, d), i + 2)),
            None => None,
        }
    } else {
        None
    }
}

pub open spec fn conn_fits(c: ConnView) -> bool {
    &&& 0 <= c.0 <= u32::MAX
    &&& 0 <= c.1 <= u32::MAX
    &&& c.2.len() <= u32::MAX
}

pub proof fn lemma_parse_conn(pre: Seq<Seq<u32>>, c: ConnView, rest: Seq<Seq<u32>>)
    requires
        conn_fits(c),
    ensures
        parse_conn(pre + conn_fields(c) + rest, pre.len() as int) == Some(
            (c, pre.len() + 2int),
        ),
{
    let fs = pre + conn_fields(c) + rest;
    let i = pre.len() as int;
    assert(fs[i] == seq![c.0 as u32, c.1 as u32]);
    assert(fs[i + 1] == i16s_field(c.2));
    lemma_fields_back(Seq::empty(), c.2, Seq::empty());
}

pub open spec fn map_fields(m: MapView) -> Seq<Seq<u32>> {
    match m {
        Some((l, r)) => seq![seq![1u32], u16s_field(l), u16s_field(r)],
        None => seq![Seq::empty()],
    }
}

pub open spec fn parse_map(fs: Seq<Seq<u32>>, i: int) -> Option<(MapView, int)> {
    if 0 <= i < fs.len() {
        if fs[i].len() == 0 {
            Some((None, i + 1))
        } else if fs[i] == seq![1u32] && i + 3 <= fs.len() {
            match (field_u16s(fs[i + 1]), field_u16s(fs[i + 2])) {
                (Some(l), Some(r)) => Some((Some((l, r)), i + 3)),
                _ => None,
            }
        } else {
            None
        }
    } else {
        None
    }
}

pub open spec fn map_fits(m: MapView) -> bool {
    m matches Some((l, r)) ==> l.len() <= u32::MAX && r.len() <= u32::MAX
}

pub proof fn lemma_parse_map(pre: Seq<Seq<u32>>, m: MapView, rest: Seq<Seq<u32>>)
    requires
        map_fits(m),
    ensures
        parse_map(pre + map_fields(m) + rest, pre.len() as int) == Some(
            (m, (pre.len() + map_fields(m).len()) as int),
        ),
{
    let fs = pre + map_fields(m) + rest;
    let i = pre.len() as int;
    match m {
        Some((l, r)) => {
            assert(fs[i] == seq![1u32]);
            assert(fs[i + 1] == u16s_field(l));
            assert(fs[i + 2] == u16s_field(r));
            lemma_fields_back(l, Seq::empty(), Seq::empty());
            lemma_fields_back(r, Seq::empty(), Seq::empty());
        },
        None => {
            assert(fs[i] == Seq::<u32>::empty());
        },
    }
}

pub open spec fn info_field(i: CharInfo) -> Seq<u32> {
    seq![
        i.cate_idset,
        i.base_id,
        if i.invoke {
            1u32
        } else {
            0u32
        },
        if i.group {
            1u32
        } else {
            0u32
        },
        i.length as u32,
    ]
}

pub open spec fn field_info(xs: Seq<u32>) -> Option<CharInfo> {
    if xs.len() == 5 && xs[2] <= 1 && xs[3] <= 1 && xs[4] <= u16::MAX {
        Some(
            CharInfo {
                cate_idset: xs[0],
                base_id: xs[1],
                invoke: xs[2] == 1,
                group: xs[3] == 1,
                length: xs[4] as u16,
            },
        )
    } else {
        None
    }
}

pub open spec fn prop_fields(p: PropView) -> Seq<Seq<u32>> {
    let rs = p.0;
    seq![
        rs.map_values(|r: CharRange| r.start),
        rs.map_values(|r: CharRange| r.end),
        rs.map_values(|r: CharRange| r.info.cate_idset),
        rs.map_values(|r: CharRange| r.info.base_id),
        bools_field(rs.map_values(|r: CharRange| r.info.invoke)),
        bools_field(rs.map_values(|r: CharRange| r.info.group)),
        u16s_field(rs.map_values(|r: CharRange| r.info.length)),
        info_field(p.1),
    ] + texts_fields(p.2)
}

pub open spec fn zip_ranges(
    s: Seq<u32>,
    e: Seq<u32>,
    c: Seq<u32>,
    b: Seq<u32>,
    inv: Seq<bool>,
    g: Seq<bool>,
    len: Seq<u16>,
) -> Seq<CharRange> {
    Seq::new(
        s.len(),
        |k: int|
            CharRange {
                start: s[k],
                end: e[k],
                info: CharInfo {
                    cate_idset: c[k],
                    base_id: b[k],
                    invoke: inv[k],
                    group: g[k],
                    length: len[k],
                },
            },
    )
}

pub open spec fn parse_prop(fs: Seq<Seq<u32>>, i: int) -> Option<(PropView, int)> {
    if 0 <= i && i + 8 <= fs.len() {
        let n = fs[i].len();
        match (
            field_bools(fs[i + 4]),
            field_bools(fs[i + 5]),
            field_u16s(fs[i + 6]),
            field_info(fs[i + 7]),
        ) {
            (Some(inv), Some(g), Some(len), Some(def)) => if fs[i + 1].len() == n && fs[i + 2].len()
                == n && fs[i + 3].len() == n && inv.len() == n && g.len() == n && len.len() == n {
                match parse_texts(fs, i + 8) {
                    Some((cats, j)) => Some(
                        (
                            (
                                zip_ranges(fs[i], fs[i + 1], fs[i + 2], fs[i + 3], inv, g, len),
                                def,
                                cats,
                            ),
                            j,
                        ),
                    ),
                    None => None,
                }
            } else {
                None
            },
            _ => None,
        }
    } else {
        None
    }
}

pub open spec fn prop_fits(p: PropView) -> bool {
    &&& p.0.len() <= u32::MAX
    &&& texts_fit(p.2)
}

pub proof fn lemma_parse_prop(pre: Seq<Seq<u32>>, p: PropView, rest: Seq<Seq<u32>>)
    requires
        prop_fits(p),
    ensures
        parse_prop(pre + prop_fields(p) + rest, pre.len() as int) == Some(
            (p, (pre.len() + prop_fields(p).len()) as int),
        ),
{
    let rs = p.0;
    let head = seq![
        rs.map_values(|r: CharRange| r.start),
        rs.map_values(|r: CharRange| r.end),
        rs.map_values(|r: CharRange| r.info.cate_idset),
        rs.map_values(|r: CharRange| r.info.base_id),
        bools_field(rs.map_values(|r: CharRange| r.info.invoke)),
        bools_field(rs.map_values(|r: CharRange| r.info.group)),
        u16s_field(rs.map_values(|r: CharRange| r.info.length)),
        info_field(p.1),
    ];
    let fs = pre + prop_fields(p) + rest;
    let i = pre.len() as int;
    let pre2 = pre + head;
    assert(fs =~= pre2 + texts_fields(p.2) + rest);
    lemma_parse_texts(pre2, p.2, rest);
    assert(fs[i] == head[0]);
    assert(fs[i + 1] == head[1]);
    assert(fs[i + 2] == head[2]);
    assert(fs[i + 3] == head[3]);
    assert(fs[i + 4] == head[4]);
    assert(fs[i + 5] == head[5]);
    assert(fs[i + 6] == head[6]);
    assert(fs[i + 7] == head[7]);
    lemma_fields_back(
        rs.map_values(|r: CharRange| r.info.length),
        Seq::empty(),
        rs.map_values(|r: CharRange| r.info.invoke),
    );
    lemma_fields_back(Seq::empty(), Seq::empty(), rs.map_values(|r: CharRange| r.info.group));
    assert(field_info(info_field(p.1)) == Some(p.1));
    assert(zip_ranges(
        head[0],
        head[1],
        head[2],
        head[3],
        rs.map_values(|r: CharRange| r.info.invoke),
        rs.map_values(|r: CharRange| r.info.group),
        rs.map_values(|r: CharRange| r.info.length),
    ) =~= rs);
}

pub open spec fn unk_fields(h: UnkView) -> Seq<Seq<u32>> {
    seq![
        h.0.map_values(|o: usize| o as u32),
        u16s_field(h.1),
        u16s_field(lefts(h.2)),
        u16s_field(rights(h.2)),
        i16s_field(costs(h.2)),
    ] + texts_fields(h.3)
}

pub open spec fn parse_unk(fs: Seq<Seq<u32>>, i: int) -> Option<(UnkView, int)> {
    if 0 <= i && i + 5 <= fs.len() {
        match (
            field_u16s(fs[i + 1]),
            field_u16s(fs[i + 2]),
            field_u16s(fs[i + 3]),
            field_i16s(fs[i + 4]),
        ) {
            (Some(cs), Some(l), Some(r), Some(c)) => if l.len() == cs.len() && r.len() == cs.len()
                && c.len() == cs.len() {
                match parse_texts(fs, i + 5) {
                    Some((feat, j)) => Some(
                        (
                            (
                                fs[i].map_values(|o: u32| o as usize),
                                cs,
                                zip_params(l, r, c),
                                feat,
                            ),
                            j,
                        ),
                    ),
                    None => None,
                }
            } else {
                None
            },
            _ => None,
        }
    } else {
        None
    }
}

pub open spec fn unk_fits(h: UnkView) -> bool {
    &&& h.0.len() <= u32::MAX
    &&& forall|k: int| 0 <= k < h.0.len() ==> #[trigger] h.0[k] <= u32::MAX
    &&& h.1.len() <= u32::MAX
    &&& h.2.len() == h.1.len()
    &&& texts_fit(h.3)
}

pub proof fn lemma_parse_unk(pre: Seq<Seq<u32>>, h: UnkView, rest: Seq<Seq<u32>>)
    requires
        unk_fits(h),
    ensures
        parse_unk(pre + unk_fields(h) + rest, pre.len() as int) == Some(
            (h, (pre.len() + unk_fields(h).len()) as int),
        ),
{
    let head = seq![
        h.0.map_values(|o: usize| o as u32),
        u16s_field(h.1),
        u16s_field(lefts(h.2)),
        u16s_field(rights(h.2)),
        i16s_field(costs(h.2)),
    ];
    let fs = pre + unk_fields(h) + rest;
    let i = pre.len() as int;
    let pre2 = pre + head;
    assert(fs =~= pre2 + texts_fields(h.3) + rest);
    lemma_parse_texts(pre2, h.3, rest);
    assert(fs[i] == head[0]);
    assert(fs[i + 1] == head[1]);
    assert(fs[i + 2] == head[2]);
    assert(fs[i + 3] == head[3]);
    assert(fs[i + 4] == head[4]);
    lemma_fields_back(h.1, costs(h.2), Seq::empty());
    lemma_fields_back(lefts(h.2), Seq::empty(), Seq::empty());
    lemma_fields_back(rights(h.2), Seq::empty(), Seq::empty());
    assert(head[0].map_values(|o: u32| o as usize) =~= h.0);
    assert(zip_params(lefts(h.2), rights(h.2), costs(h.2)) =~= h.2);
}

/// The fields of the image of a dictionary.
pub open spec fn dict_fields(v: DictView) -> Seq<Seq<u32>> {
    seq![seq![IMAGE_MAGIC]] + lex_fields(v.0) + opt_lex_fields(v.1) + conn_fields(v.2) + map_fields(
        v.3,
    ) + prop_fields(v.4) + unk_fields(v.5)
}

/// Reads the parts of a dictionary from the fields of its image.
pub open spec fn parse_dict(fs: Seq<Seq<u32>>) -> Option<DictView> {
    if fs.len() > 0 && fs[0] == seq![IMAGE_MAGIC] {
        match parse_lex(fs, 1) {
            Some((sys, i1)) => match parse_opt_lex(fs, i1) {
                Some((user, i2)) => match parse_conn(fs, i2) {
                    Some((conn, i3)) => match parse_map(fs, i3) {
                        Some((map, i4)) => match parse_prop(fs, i4) {
                            Some((prop, i5)) => match parse_unk(fs, i5) {
                                Some((unk, i6)) => if i6 == fs.len() {
                                    Some((sys, user, conn, map, prop, unk))
                                } else {
                                    None
                                },
                                None => None,
                            },
                            None => None,
                        },
                        None => None,
                    },
                    None => None,
                },
                None => None,
            },
            None => None,
        }
    } else {
        None
    }
}

/// Every part of the dictionary fits the fields of an image.
pub open spec fn dict_fits(v: DictView) -> bool {
    &&& lex_fits(v.0)
    &&& v.1 matches Some(u) ==> lex_fits(u)
    &&& conn_fits(v.2)
    &&& map_fits(v.3)
    &&& prop_fits(v.4)
    &&& unk_fits(v.5)
}

#[verifier::spinoff_prover]
#[verifier::rlimit(50)]
pub proof fn lemma_parse_dict(v: DictView)
    requires
        dict_fits(v),
    ensures
        parse_dict(dict_fields(v)) == Some(v),
{
    let m = seq![seq![IMAGE_MAGIC]];
    let a = lex_fields(v.0);
    let b = opt_lex_fields(v.1);
    let c = conn_fields(v.2);
    let d = map_fields(v.3);
    let e = prop_fields(v.4);
    let f = unk_fields(v.5);
    let fs = dict_fields(v);
    assert(fs =~= m + a + (b + c + d + e + f));
    lemma_parse_lex(m, v.0, b + c + d + e + f);
    assert(fs =~= (m + a) + b + (c + d + e + f));
    lemma_parse_opt_lex(m + a, v.1, c + d + e + f);
    assert(fs =~= (m + a + b) + c + (d + e + f));
    lemma_parse_conn(m + a + b, v.2, d + e + f);
    assert(fs =~= (m + a + b + c) + d + (e + f));
    lemma_parse_map(m + a + b + c, v.3, e + f);
    assert(fs =~= (m + a + b + c + d) + e + f);
    lemma_parse_prop(m + a + b + c + d, v.4, f);
    assert(fs =~= (m + a + b + c + d + e) + f + Seq::<Seq<u32>>::empty());
    lemma_parse_unk(m + a + b + c + d + e, v.5, Seq::empty());
    assert(fs[0] == seq![IMAGE_MAGIC]);
}

/// The parts of a dictionary are consistent (as `DictionaryInner::wf`
/// requires of them).
pub open spec fn dict_valid(v: DictView) -> bool {
    let nr = v.2.0;
    let nl = v.2.1;
    &&& conn_valid(v.2)
    &&& lex_valid(v.0, nl, nr)
    &&& v.1 matches Some(u) ==> lex_valid(u, nl, nr)
    &&& prop_valid(v.4)
    &&& unk_valid(v.5, v.4.2.len() as int, nl, nr)
    &&& map_valid(v.3, nl, nr)
}

/// The costs fill a matrix of up to `2^16` right and left ids.
pub open spec fn conn_valid(c: ConnView) -> bool {
    &&& c.2.len() == c.0 * c.1
    &&& 1 <= c.0 <= u16::MAX + 1
    &&& 1 <= c.1 <= u16::MAX + 1
}

/// There are up to `MAX_CATEGORIES` categories, and every information
/// names them.
pub open spec fn prop_valid(p: PropView) -> bool {
    let ncat = p.2.len() as int;
    &&& 0 < ncat <= MAX_CATEGORIES
    &&& info_wf(p.1, ncat)
    &&& forall|k: int| 0 <= k < p.0.len() ==> info_wf(#[trigger] p.0[k].info, ncat)
}

/// The entries of unknown words are grouped by their categories, and their
/// ids are below the connector's numbers of ids.
pub open spec fn unk_valid(h: UnkView, ncat: int, nl: int, nr: int) -> bool {
    let hl = h.2.len() as int;
    &&& h.0.len() == ncat + 1
    &&& h.0[0] == 0
    &&& h.0[ncat] == hl
    &&& forall|c: int| 0 <= c < ncat ==> #[trigger] h.0[c] <= h.0[c + 1]
    &&& forall|k: int|
        0 <= k < hl ==> #[trigger] h.1[k] < ncat && h.0[h.1[k] as int] <= k < h.0[h.1[k] + 1]
    &&& h.1.len() == hl
    &&& h.3.len() == hl
    &&& hl <= u32::MAX
    &&& forall|i: int| 0 <= i < hl ==> (#[trigger] h.2[i]).left_id < nl && h.2[i].right_id < nr
}

/// A mapper renumbers exactly the connector's ids.
pub open spec fn map_valid(m: MapView, nl: int, nr: int) -> bool {
    m matches Some((l, r)) ==> is_id_permutation(l) && is_id_permutation(r) && l.len() == nl
        && r.len() == nr
}

pub open spec fn lex_valid(v: LexView, nl: int, nr: int) -> bool {
    &&& v.0.len() == v.1.len()
    &&& v.2.len() == v.1.len()
    &&& v.1.len() <= u32::MAX
    &&& forall|i: int| 0 <= i < v.0.len() ==> #[trigger] v.0[i].len() > 0
    &&& forall|i: int| 0 <= i < v.1.len() ==> (#[trigger] v.1[i]).left_id < nl && v.1[i].right_id < nr
}

/// The image of a dictionary as words.
pub open spec fn image_words(v: DictView) -> Seq<u32> {
    fields_words_fwd(dict_fields(v))
}

/// The image of a dictionary as bytes.
pub open spec fn image_bytes(v: DictView) -> Seq<u8> {
    words_bytes(image_words(v))
}

/// The parts of the dictionary that the bytes hold, if they are an image.
pub open spec fn image_view(b: Seq<u8>) -> Option<DictView> {
    if b.len() % 4 == 0 {
        match parse_fields_from(bytes_words(b), 0) {
            Some(fs) => parse_dict(fs),
            None => None,
        }
    } else {
        None
    }
}

/// Reading the image of a dictionary gives back its parts: a consistent
/// dictionary whose parts fit the image comes back with the same surfaces,
/// parameters, features, costs, mappings, character classes and unknown-word
/// entries.
pub proof fn lemma_image_roundtrip(d: DictionaryInner)
    requires
        d.wf(),
        dict_fits(dict_view(d)),
    ensures
        image_view(image_bytes(dict_view(d))) == Some(dict_view(d)),
        dict_valid(dict_view(d)),
{
    let v = dict_view(d);
    let fs = dict_fields(v);
    lemma_words_roundtrip(image_words(v));
    lemma_words_bytes_len(image_words(v));
    lemma_dict_fields_fit(v);
    lemma_parse_fields(Seq::empty(), fs);
    assert(Seq::<u32>::empty() + fields_words_fwd(fs) =~= image_words(v));
    lemma_parse_dict(v);
}

/// Every field of the image of a dictionary that fits is short enough.
proof fn lemma_dict_fields_fit(v: DictView)
    requires
        dict_fits(v),
    ensures
        forall|i: int| 0 <= i < dict_fields(v).len() ==> (#[trigger] dict_fields(v)[i]).len() <= u32::MAX,
{
    let fs = dict_fields(v);
    assert forall|i: int| 0 <= i < fs.len() implies (#[trigger] fs[i]).len() <= u32::MAX by {
        lemma_texts_fields_short(v.0.0);
        lemma_texts_fields_short(v.0.2);
        lemma_texts_fields_short(v.4.2);
        lemma_texts_fields_short(v.5.3);
        match v.1 {
            Some(u) => {
                lemma_texts_fields_short(u.0);
                lemma_texts_fields_short(u.2);
            },
            None => {},
        }
    }
}

proof fn lemma_texts_fields_short(ts: Seq<Seq<char>>)
    requires
        texts_fit(ts),
    ensures
        forall|i: int| 0 <= i < texts_fields(ts).len() ==> (#[trigger] texts_fields(ts)[i]).len() <= u32::MAX,
{
    assert forall|i: int| 0 <= i < texts_fields(ts).len() implies (#[trigger] texts_fields(ts)[i]).len() <= u32::MAX by {
        if i > 0 {
            assert(texts_fields(ts)[i] == crate::dictionary::image::char_codes(ts[i - 1]));
        }
    }
}

/// The columns of parameters.
fn param_columns(ps: &Vec<WordParam>) -> (r: (Vec<u16>, Vec<u16>, Vec<i16>))
    ensures
        r.0@ == lefts(ps@),
        r.1@ == rights(ps@),
        r.2@ == costs(ps@),
{
    let mut l: Vec<u16> = Vec::new();
    let mut rr: Vec<u16> = Vec::new();
    let mut c: Vec<i16> = Vec::new();
    let mut i: usize = 0;
    while i < ps.len()
        invariant
            i <= ps@.len(),
            l@ == lefts(ps@.take(i as int)),
            rr@ == rights(ps@.take(i as int)),
            c@ == costs(ps@.take(i as int)),
        decreases ps@.len() - i,
    {
        let p = ps[i];
        l.push(p.left_id);
        rr.push(p.right_id);
        c.push(p.word_cost);
        proof {
            assert(l@ =~= lefts(ps@.take(i + 1)));
            assert(rr@ =~= rights(ps@.take(i + 1)));
            assert(c@ =~= costs(ps@.take(i + 1)));
        }
        i += 1;
    }
    proof {
        assert(ps@.take(ps@.len() as int) =~= ps@);
    }
    (l, rr, c)
}

/// The parameters of columns of one length.
fn zip_param_columns(l: &Vec<u16>, r: &Vec<u16>, c: &Vec<i16>) -> (ps: Vec<WordParam>)
    requires
        l@.len() == r@.len(),
        r@.len() == c@.len(),
    ensures
        ps@ == zip_params(l@, r@, c@),
{
    let mut ps: Vec<WordParam> = Vec::new();
    let mut i: usize = 0;
    while i < l.len()
        invariant
            l@.len() == r@.len(),
            r@.len() == c@.len(),
            i <= l@.len(),
            ps@ == zip_params(l@, r@, c@).take(i as int),
        decreases l@.len() - i,
    {
        ps.push(WordParam { left_id: l[i], right_id: r[i], word_cost: c[i] });
        proof {
            assert(ps@ =~= zip_params(l@, r@, c@).take(i + 1));
        }
        i += 1;
    }
    proof {
        assert(zip_params(l@, r@, c@).take(l@.len() as int) =~= zip_params(l@, r@, c@));
    }
    ps
}

/// Whether the texts fit the fields of an image.
fn texts_fit_exec(ts: &Vec<Vec<char>>) -> (b: bool)
    ensures
        b == texts_fit(texts_view(ts@)),
{
    if ts.len() > 0xFFFF_FFFF {
        return false;
    }
    let mut i: usize = 0;
    while i < ts.len()
        invariant
            i <= ts@.len(),
            forall|k: int| 0 <= k < i ==> (#[trigger] ts@[k])@.len() <= u32::MAX,
        decreases ts@.len() - i,
    {
        if ts[i].len() > 0xFFFF_FFFF {
            proof {
                assert(texts_view(ts@)[i as int] == ts@[i as int]@);
            }
            return false;
        }
        i += 1;
    }
    proof {
        assert forall|k: int| 0 <= k < texts_view(ts@).len() implies (#[trigger] texts_view(ts@)[k]).len() <= u32::MAX by {
            assert(texts_view(ts@)[k] == ts@[k]@);
        }
    }
    true
}

/// Reads a lexicon at field `i`.
fn read_lex(fs: &Vec<Vec<u32>>, i: usize) -> (r: Option<(Vec<Vec<char>>, Vec<WordParam>, Vec<Vec<char>>, usize)>)
    ensures
        match r {
            Some((a, b, c, j)) => parse_lex(fields_view(fs@), i as int) == Some(
                ((texts_view(a@), b@, texts_view(c@)), j as int),
            ),
            None => parse_lex(fields_view(fs@), i as int) is None,
        },
{
    let ghost fv = fields_view(fs@);
    let (surf, j) = match read_texts(fs, i) {
        Some(x) => x,
        None => {
            return None;
        },
    };
    if j > fs.len() || fs.len() - j < 3 {
        return None;
    }
    proof {
        assert(fv[j as int] == fs@[j as int]@);
        assert(fv[j + 1] == fs@[j + 1]@);
        assert(fv[j + 2] == fs@[j + 2]@);
    }
    let l = match read_u16s(fs, j) {
        Some(x) => x,
        None => {
            return None;
        },
    };
    let rr = match read_u16s(fs, j + 1) {
        Some(x) => x,
        None => {
            return None;
        },
    };
    let c = match read_i16s(fs, j + 2) {
        Some(x) => x,
        None => {
            return None;
        },
    };
    if l.len() != rr.len() || rr.len() != c.len() {
        return None;
    }
    let (feat, k) = match read_texts(fs, j + 3) {
        Some(x) => x,
        None => {
            return None;
        },
    };
    let ps = zip_param_columns(&l, &rr, &c);
    Some((surf, ps, feat, k))
}

/// Reads an optional lexicon at field `i`.
fn read_opt_lex(fs: &Vec<Vec<u32>>, i: usize) -> (r: Option<(Option<(Vec<Vec<char>>, Vec<WordParam>, Vec<Vec<char>>)>, usize)>)
    ensures
        match r {
            Some((u, j)) => parse_opt_lex(fields_view(fs@), i as int) == Some(
                (
                    match u {
                        Some((a, b, c)) => Some((texts_view(a@), b@, texts_view(c@))),
                        None => None,
                    },
                    j as int,
                ),
            ),
            None => parse_opt_lex(fields_view(fs@), i as int) is None,
        },
{
    let ghost fv = fields_view(fs@);
    if i >= fs.len() {
        return None;
    }
    proof {
        assert(fv[i as int] == fs@[i as int]@);
    }
    if fs[i].len() == 0 {
        return Some((None, i + 1));
    }
    if fs[i].len() != 1 || fs[i][0] != 1 {
        proof {
            assert(fv[i as int] != seq![1u32]);
        }
        return None;
    }
    proof {
        assert(fv[i as int] == seq![1u32]);
    }
    match read_lex(fs, i + 1) {
        Some((a, b, c, j)) => Some((Some((a, b, c)), j)),
        None => None,
    }
}

/// Reads a connector at field `i`.
fn read_conn(fs: &Vec<Vec<u32>>, i: usize) -> (r: Option<(u32, u32, Vec<i16>, usize)>)
    ensures
        match r {
            Some((nr, nl, d, j)) => parse_conn(fields_view(fs@), i as int) == Some(
                ((nr as int, nl as int, d@), j as int),
            ),
            None => parse_conn(fields_view(fs@), i as int) is None,
        },
{
    let ghost fv = fields_view(fs@);
    if i >= fs.len() || fs.len() - i < 2 {
        return None;
    }
    proof {
        assert(fv[i as int] == fs@[i as int]@);
        assert(fv[i + 1] == fs@[i + 1]@);
    }
    if fs[i].len() != 2 {
        return None;
    }
    let nr = fs[i][0];
    let nl = fs[i][1];
    match read_i16s(fs, i + 1) {
        Some(d) => Some((nr, nl, d, i + 2)),
        None => None,
    }
}

/// Reads an optional mapper at field `i`.
fn read_map(fs: &Vec<Vec<u32>>, i: usize) -> (r: Option<(Option<(Vec<u16>, Vec<u16>)>, usize)>)
    ensures
        match r {
            Some((m, j)) => parse_map(fields_view(fs@), i as int) == Some(
                (
                    match m {
                        Some((l, rr)) => Some((l@, rr@)),
                        None => None,
                    },
                    j as int,
                ),
            ),
            None => parse_map(fields_view(fs@), i as int) is None,
        },
{
    let ghost fv = fields_view(fs@);
    if i >= fs.len() {
        return None;
    }
    proof {
        assert(fv[i as int] == fs@[i as int]@);
    }
    if fs[i].len() == 0 {
        return Some((None, i + 1));
    }
    if fs[i].len() != 1 || fs[i][0] != 1 || fs.len() - i < 3 {
        proof {
            if fv[i as int] == seq![1u32] {
                assert(fs@[i as int]@[0] == 1);
            }
        }
        return None;
    }
    proof {
        assert(fv[i as int] == seq![1u32]);
        assert(fv[i + 1] == fs@[i + 1]@);
        assert(fv[i + 2] == fs@[i + 2]@);
    }
    let l = match read_u16s(fs, i + 1) {
        Some(x) => x,
        None => {
            return None;
        },
    };
    let rr = match read_u16s(fs, i + 2) {
        Some(x) => x,
        None => {
            return None;
        },
    };
    Some((Some((l, rr)), i + 3))
}


/// The information of a field.
fn info_of_field(xs: &Vec<u32>) -> (r: Option<CharInfo>)
    ensures
        r == field_info(xs@),
{
    if xs.len() != 5 || xs[2] > 1 || xs[3] > 1 || xs[4] > 0xFFFF {
        return None;
    }
    Some(
        CharInfo {
            cate_idset: xs[0],
            base_id: xs[1],
            invoke: xs[2] == 1,
            group: xs[3] == 1,
            length: xs[4] as u16,
        },
    )
}

/// The ranges of columns of one length.
fn zip_range_columns(
    s: &Vec<u32>,
    e: &Vec<u32>,
    c: &Vec<u32>,
    b: &Vec<u32>,
    inv: &Vec<bool>,
    g: &Vec<bool>,
    len: &Vec<u16>,
) -> (rs: Vec<CharRange>)
    requires
        e@.len() == s@.len(),
        c@.len() == s@.len(),
        b@.len() == s@.len(),
        inv@.len() == s@.len(),
        g@.len() == s@.len(),
        len@.len() == s@.len(),
    ensures
        rs@ == zip_ranges(s@, e@, c@, b@, inv@, g@, len@),
{
    let mut rs: Vec<CharRange> = Vec::new();
    let mut i: usize = 0;
    while i < s.len()
        invariant
            e@.len() == s@.len(),
            c@.len() == s@.len(),
            b@.len() == s@.len(),
            inv@.len() == s@.len(),
            g@.len() == s@.len(),
            len@.len() == s@.len(),
            i <= s@.len(),
            rs@ == zip_ranges(s@, e@, c@, b@, inv@, g@, len@).take(i as int),
        decreases s@.len() - i,
    {
        rs.push(
            CharRange {
                start: s[i],
                end: e[i],
                info: CharInfo {
                    cate_idset: c[i],
                    base_id: b[i],
                    invoke: inv[i],
                    group: g[i],
                    length: len[i],
                },
            },
        );
        proof {
            assert(rs@ =~= zip_ranges(s@, e@, c@, b@, inv@, g@, len@).take(i + 1));
        }
        i += 1;
    }
    proof {
        assert(zip_ranges(s@, e@, c@, b@, inv@, g@, len@).take(s@.len() as int) =~= zip_ranges(
            s@,
            e@,
            c@,
            b@,
            inv@,
            g@,
            len@,
        ));
    }
    rs
}

/// Reads a character property at field `i`.
fn read_prop(fs: &Vec<Vec<u32>>, i: usize) -> (r: Option<(Vec<CharRange>, CharInfo, Vec<Vec<char>>, usize)>)
    ensures
        match r {
            Some((rs, def, cats, j)) => parse_prop(fields_view(fs@), i as int) == Some(
                ((rs@, def, texts_view(cats@)), j as int),
            ),
            None => parse_prop(fields_view(fs@), i as int) is None,
        },
{
    let ghost fv = fields_view(fs@);
    if i >= fs.len() || fs.len() - i < 8 {
        return None;
    }
    proof {
        assert(fv[i as int] == fs@[i as int]@);
        assert(fv[i + 1] == fs@[i + 1]@);
        assert(fv[i + 2] == fs@[i + 2]@);
        assert(fv[i + 3] == fs@[i + 3]@);
        assert(fv[i + 7] == fs@[i + 7]@);
    }
    let inv = match read_bools(fs, i + 4) {
        Some(x) => x,
        None => {
            return None;
        },
    };
    let g = match read_bools(fs, i + 5) {
        Some(x) => x,
        None => {
            return None;
        },
    };
    let len = match read_u16s(fs, i + 6) {
        Some(x) => x,
        None => {
            return None;
        },
    };
    let def = match info_of_field(&fs[i + 7]) {
        Some(x) => x,
        None => {
            return None;
        },
    };
    let n = fs[i].len();
    if fs[i + 1].len() != n || fs[i + 2].len() != n || fs[i + 3].len() != n || inv.len() != n
        || g.len() != n || len.len() != n {
        return None;
    }
    let (cats, j) = match read_texts(fs, i + 8) {
        Some(x) => x,
        None => {
            return None;
        },
    };
    let rs = zip_range_columns(&fs[i], &fs[i + 1], &fs[i + 2], &fs[i + 3], &inv, &g, &len);
    Some((rs, def, cats, j))
}

/// Reads a handler of unknown words at field `i`.
fn read_unk(fs: &Vec<Vec<u32>>, i: usize) -> (r: Option<(Vec<usize>, Vec<u16>, Vec<WordParam>, Vec<Vec<char>>, usize)>)
    ensures
        match r {
            Some((o, cs, ps, feat, j)) => parse_unk(fields_view(fs@), i as int) == Some(
                ((o@, cs@, ps@, texts_view(feat@)), j as int),
            ),
            None => parse_unk(fields_view(fs@), i as int) is None,
        },
{
    let ghost fv = fields_view(fs@);
    if i >= fs.len() || fs.len() - i < 5 {
        return None;
    }
    proof {
        assert(fv[i as int] == fs@[i as int]@);
    }
    let cs = match read_u16s(fs, i + 1) {
        Some(x) => x,
        None => {
            return None;
        },
    };
    let l = match read_u16s(fs, i + 2) {
        Some(x) => x,
        None => {
            return None;
        },
    };
    let rr = match read_u16s(fs, i + 3) {
        Some(x) => x,
        None => {
            return None;
        },
    };
    let c = match read_i16s(fs, i + 4) {
        Some(x) => x,
        None => {
            return None;
        },
    };
    if l.len() != cs.len() || rr.len() != cs.len() || c.len() != cs.len() {
        return None;
    }
    let (feat, j) = match read_texts(fs, i + 5) {
        Some(x) => x,
        None => {
            return None;
        },
    };
    let xs = &fs[i];
    let mut o: Vec<usize> = Vec::new();
    let mut k: usize = 0;
    while k < xs.len()
        invariant
            k <= xs@.len(),
            o@ == xs@.take(k as int).map_values(|v: u32| v as usize),
        decreases xs@.len() - k,
    {
        o.push(xs[k] as usize);
        proof {
            assert(o@ =~= xs@.take(k + 1).map_values(|v: u32| v as usize));
        }
        k += 1;
    }
    proof {
        assert(xs@.take(xs@.len() as int) =~= xs@);
    }
    let ps = zip_param_columns(&l, &rr, &c);
    Some((o, cs, ps, feat, j))
}

/// The field of an information.
fn field_of_info(i: CharInfo) -> (r: Vec<u32>)
    ensures
        r@ == info_field(i),
{
    let mut r: Vec<u32> = Vec::new();
    r.push(i.cate_idset);
    r.push(i.base_id);
    r.push(if i.invoke { 1 } else { 0 });
    r.push(if i.group { 1 } else { 0 });
    r.push(i.length as u32);
    proof {
        assert(r@ =~= info_field(i));
    }
    r
}

/// The columns of ranges.
fn range_columns(rs: &Vec<CharRange>) -> (r: (Vec<u32>, Vec<u32>, Vec<u32>, Vec<u32>, Vec<bool>, Vec<bool>, Vec<u16>))
    ensures
        r.0@ == rs@.map_values(|x: CharRange| x.start),
        r.1@ == rs@.map_values(|x: CharRange| x.end),
        r.2@ == rs@.map_values(|x: CharRange| x.info.cate_idset),
        r.3@ == rs@.map_values(|x: CharRange| x.info.base_id),
        r.4@ == rs@.map_values(|x: CharRange| x.info.invoke),
        r.5@ == rs@.map_values(|x: CharRange| x.info.group),
        r.6@ == rs@.map_values(|x: CharRange| x.info.length),
{
    let mut s: Vec<u32> = Vec::new();
    let mut e: Vec<u32> = Vec::new();
    let mut c: Vec<u32> = Vec::new();
    let mut b: Vec<u32> = Vec::new();
    let mut inv: Vec<bool> = Vec::new();
    let mut g: Vec<bool> = Vec::new();
    let mut len: Vec<u16> = Vec::new();
    let mut i: usize = 0;
    while i < rs.len()
        invariant
            i <= rs@.len(),
            s@ == rs@.take(i as int).map_values(|x: CharRange| x.start),
            e@ == rs@.take(i as int).map_values(|x: CharRange| x.end),
            c@ == rs@.take(i as int).map_values(|x: CharRange| x.info.cate_idset),
            b@ == rs@.take(i as int).map_values(|x: CharRange| x.info.base_id),
            inv@ == rs@.take(i as int).map_values(|x: CharRange| x.info.invoke),
            g@ == rs@.take(i as int).map_values(|x: CharRange| x.info.group),
            len@ == rs@.take(i as int).map_values(|x: CharRange| x.info.length),
        decreases rs@.len() - i,
    {
        let x = rs[i];
        s.push(x.start);
        e.push(x.end);
        c.push(x.info.cate_idset);
        b.push(x.info.base_id);
        inv.push(x.info.invoke);
        g.push(x.info.group);
        len.push(x.info.length);
        proof {
            let t = rs@.take(i + 1);
            assert(s@ =~= t.map_values(|x: CharRange| x.start));
            assert(e@ =~= t.map_values(|x: CharRange| x.end));
            assert(c@ =~= t.map_values(|x: CharRange| x.info.cate_idset));
            assert(b@ =~= t.map_values(|x: CharRange| x.info.base_id));
            assert(inv@ =~= t.map_values(|x: CharRange| x.info.invoke));
            assert(g@ =~= t.map_values(|x: CharRange| x.info.group));
            assert(len@ =~= t.map_values(|x: CharRange| x.info.length));
        }
        i += 1;
    }
    proof {
        assert(rs@.take(rs@.len() as int) =~= rs@);
    }
    (s, e, c, b, inv, g, len)
}

/// Appends the fields of a lexicon.
fn push_lex(ws: &mut Vec<u32>, lex: &Lexicon, Ghost(fs): Ghost<Seq<Seq<u32>>>)
    requires
        old(ws)@ == fields_words_fwd(fs),
        lex.wf(),
        lex_fits(lex_view(*lex)),
    ensures
        final(ws)@ == fields_words_fwd(fs + lex_fields(lex_view(*lex))),
{
    let ghost v = lex_view(*lex);
    push_texts(ws, lex.surfaces(), Ghost(fs));
    let ghost f1 = fs + texts_fields(v.0);
    let (l, rr, c) = param_columns(lex.params());
    let fl = field_of_u16s(&l);
    push_field(ws, &fl, Ghost(f1));
    let fr = field_of_u16s(&rr);
    push_field(ws, &fr, Ghost(f1.push(fl@)));
    let fc = field_of_i16s(&c);
    push_field(ws, &fc, Ghost(f1.push(fl@).push(fr@)));
    let ghost f2 = f1.push(fl@).push(fr@).push(fc@);
    let feats = lex.feature_texts();
    push_texts(ws, &feats, Ghost(f2));
    proof {
        assert(f2 + texts_fields(v.2) =~= fs + lex_fields(v));
    }
}

/// Appends the fields of an optional lexicon.
fn push_opt_lex(ws: &mut Vec<u32>, lex: Option<&Lexicon>, Ghost(fs): Ghost<Seq<Seq<u32>>>)
    requires
        old(ws)@ == fields_words_fwd(fs),
        lex matches Some(l) ==> l.wf() && lex_fits(lex_view(*l)),
    ensures
        final(ws)@ == fields_words_fwd(
            fs + opt_lex_fields(
                match lex {
                    Some(l) => Some(lex_view(*l)),
                    None => None,
                },
            ),
        ),
{
    match lex {
        Some(l) => {
            let mut one: Vec<u32> = Vec::new();
            one.push(1);
            push_field(ws, &one, Ghost(fs));
            push_lex(ws, l, Ghost(fs.push(one@)));
            proof {
                assert(one@ =~= seq![1u32]);
                assert(fs.push(one@) + lex_fields(lex_view(*l)) =~= fs + opt_lex_fields(
                    Some(lex_view(*l)),
                ));
            }
        },
        None => {
            let empty: Vec<u32> = Vec::new();
            push_field(ws, &empty, Ghost(fs));
            proof {
                assert(fs.push(empty@) =~= fs + opt_lex_fields(None));
            }
        },
    }
}

/// Appends the fields of a connector.
fn push_conn(ws: &mut Vec<u32>, conn: &MatrixConnector, Ghost(fs): Ghost<Seq<Seq<u32>>>)
    requires
        old(ws)@ == fields_words_fwd(fs),
        conn.wf(),
        conn.spec_data().len() <= u32::MAX,
    ensures
        final(ws)@ == fields_words_fwd(
            fs + conn_fields((conn.spec_num_right(), conn.spec_num_left(), conn.spec_data())),
        ),
{
    let ghost c = (conn.spec_num_right(), conn.spec_num_left(), conn.spec_data());
    let mut dims: Vec<u32> = Vec::new();
    dims.push(conn.num_right() as u32);
    dims.push(conn.num_left() as u32);
    push_field(ws, &dims, Ghost(fs));
    let d = field_of_i16s(conn.data());
    push_field(ws, &d, Ghost(fs.push(dims@)));
    proof {
        assert(dims@ =~= seq![c.0 as u32, c.1 as u32]);
        assert(fs.push(dims@).push(d@) =~= fs + conn_fields(c));
    }
}

/// Appends the fields of an optional mapper.
fn push_map(ws: &mut Vec<u32>, m: Option<&ConnIdMapper>, Ghost(fs): Ghost<Seq<Seq<u32>>>)
    requires
        old(ws)@ == fields_words_fwd(fs),
        m matches Some(x) ==> x.spec_left().len() <= u32::MAX && x.spec_right().len() <= u32::MAX,
    ensures
        final(ws)@ == fields_words_fwd(
            fs + map_fields(
                match m {
                    Some(x) => Some((x.spec_left(), x.spec_right())),
                    None => None,
                },
            ),
        ),
{
    match m {
        Some(x) => {
            let mut one: Vec<u32> = Vec::new();
            one.push(1);
            push_field(ws, &one, Ghost(fs));
            let l = field_of_u16s(x.left_map());
            push_field(ws, &l, Ghost(fs.push(one@)));
            let r = field_of_u16s(x.right_map());
            push_field(ws, &r, Ghost(fs.push(one@).push(l@)));
            proof {
                assert(fs.push(one@).push(l@).push(r@) =~= fs + map_fields(
                    Some((x.spec_left(), x.spec_right())),
                ));
            }
        },
        None => {
            let empty: Vec<u32> = Vec::new();
            push_field(ws, &empty, Ghost(fs));
            proof {
                assert(fs.push(empty@) =~= fs + map_fields(None));
            }
        },
    }
}

/// Appends the fields of a character property.
fn push_prop(ws: &mut Vec<u32>, p: &CharProperty, Ghost(fs): Ghost<Seq<Seq<u32>>>)
    requires
        old(ws)@ == fields_words_fwd(fs),
        prop_fits((p.spec_ranges(), p.spec_default(), p.spec_categories())),
    ensures
        final(ws)@ == fields_words_fwd(
            fs + prop_fields((p.spec_ranges(), p.spec_default(), p.spec_categories())),
        ),
{
    let ghost v = (p.spec_ranges(), p.spec_default(), p.spec_categories());
    let (s, e, c, b, inv, g, len) = range_columns(p.ranges());
    push_field(ws, &s, Ghost(fs));
    let ghost f1 = fs.push(s@);
    push_field(ws, &e, Ghost(f1));
    let ghost f2 = f1.push(e@);
    push_field(ws, &c, Ghost(f2));
    let ghost f3 = f2.push(c@);
    push_field(ws, &b, Ghost(f3));
    let ghost f4 = f3.push(b@);
    let finv = field_of_bools(&inv);
    push_field(ws, &finv, Ghost(f4));
    let ghost f5 = f4.push(finv@);
    let fg = field_of_bools(&g);
    push_field(ws, &fg, Ghost(f5));
    let ghost f6 = f5.push(fg@);
    let flen = field_of_u16s(&len);
    push_field(ws, &flen, Ghost(f6));
    let ghost f7 = f6.push(flen@);
    let fi = field_of_info(p.default_info());
    push_field(ws, &fi, Ghost(f7));
    let ghost f8 = f7.push(fi@);
    push_texts(ws, p.categories(), Ghost(f8));
    proof {
        assert(f8 + texts_fields(v.2) =~= fs + prop_fields(v));
    }
}

/// Appends the fields of a handler of unknown words.
fn push_unk(ws: &mut Vec<u32>, h: &UnkHandler, Ghost(fs): Ghost<Seq<Seq<u32>>>)
    requires
        old(ws)@ == fields_words_fwd(fs),
        unk_fits((h.spec_offsets(), h.spec_cate_ids(), h.spec_params(), h.spec_features())),
    ensures
        final(ws)@ == fields_words_fwd(
            fs + unk_fields((h.spec_offsets(), h.spec_cate_ids(), h.spec_params(), h.spec_features())),
        ),
{
    let ghost v = (h.spec_offsets(), h.spec_cate_ids(), h.spec_params(), h.spec_features());
    let offs = h.offsets();
    let mut o: Vec<u32> = Vec::new();
    let mut k: usize = 0;
    while k < offs.len()
        invariant
            offs@ == v.0,
            forall|j: int| 0 <= j < v.0.len() ==> #[trigger] v.0[j] <= u32::MAX,
            k <= offs@.len(),
            o@ == offs@.take(k as int).map_values(|x: usize| x as u32),
        decreases offs@.len() - k,
    {
        o.push(offs[k] as u32);
        proof {
            assert(o@ =~= offs@.take(k + 1).map_values(|x: usize| x as u32));
        }
        k += 1;
    }
    proof {
        assert(offs@.take(offs@.len() as int) =~= offs@);
    }
    push_field(ws, &o, Ghost(fs));
    let ghost f1 = fs.push(o@);
    let (cs, ps, feats) = h.entry_parts();
    let fcs = field_of_u16s(&cs);
    push_field(ws, &fcs, Ghost(f1));
    let ghost f2 = f1.push(fcs@);
    let (l, rr, c) = param_columns(&ps);
    let fl = field_of_u16s(&l);
    push_field(ws, &fl, Ghost(f2));
    let fr = field_of_u16s(&rr);
    push_field(ws, &fr, Ghost(f2.push(fl@)));
    let fc = field_of_i16s(&c);
    push_field(ws, &fc, Ghost(f2.push(fl@).push(fr@)));
    let ghost f3 = f2.push(fl@).push(fr@).push(fc@);
    push_texts(ws, &feats, Ghost(f3));
    proof {
        assert(f3 + texts_fields(v.3) =~= fs + unk_fields(v));
    }
}

/// Whether a lexicon fits the fields of an image.
fn lex_fits_exec(lex: &Lexicon) -> (b: bool)
    requires
        lex.wf(),
    ensures
        b == lex_fits(lex_view(*lex)),
{
    texts_fit_exec(lex.surfaces()) && texts_fit_exec(&lex.feature_texts())
}

impl DictionaryInner {
    /// Whether every part fits the fields of an image: each list of the
    /// dictionary has at most `u32::MAX` items.
    pub fn fits_image(&self) -> (b: bool)
        requires
            self.wf(),
        ensures
            b == dict_fits(dict_view(*self)),
    {
        let ghost v = dict_view(*self);
        proof {
            let h = self.unk_handler_spec();
            let n = self.char_prop_spec().spec_categories().len() as int;
            assert forall|k: int| 0 <= k < v.5.0.len() implies #[trigger] v.5.0[k] <= u32::MAX by {
                crate::dictionary::unknown::lemma_offsets_mono(h, n, k);
            }
        }
        if !lex_fits_exec(self.system_lexicon()) {
            return false;
        }
        match self.user_lexicon() {
            Some(u) => {
                if !lex_fits_exec(u) {
                    return false;
                }
            },
            None => {},
        }
        if self.connector().data().len() > 0xFFFF_FFFF {
            return false;
        }
        let p = self.char_prop();
        if p.ranges().len() > 0xFFFF_FFFF || !texts_fit_exec(p.categories()) {
            return false;
        }
        let (_cs, _ps, feats) = self.unk_handler().entry_parts();
        texts_fit_exec(&feats)
    }

    /// Appends the image of the dictionary to `out` and returns the number
    /// of bytes written.
    ///
    /// Fails with `InvalidArgument(Model)`, writing nothing, when a list of
    /// the dictionary is too long for the image.
    pub fn write(&self, out: &mut Vec<u8>) -> (r: Result<usize, VibratoError>)
        requires
            self.wf(),
        ensures
            match r {
                Ok(n) => {
                    &&& dict_fits(dict_view(*self))
                    &&& final(out)@ == old(out)@ + image_bytes(dict_view(*self))
                    &&& n == image_bytes(dict_view(*self)).len()
                },
                Err(e) => {
                    &&& e == VibratoError::InvalidArgument(Source::Model)
                    &&& !dict_fits(dict_view(*self))
                    &&& final(out)@ == old(out)@
                },
            },
    {
        if !self.fits_image() {
            return Err(VibratoError::InvalidArgument(Source::Model));
        }
        let ghost v = dict_view(*self);
        let mut ws: Vec<u32> = Vec::new();
        let mut magic: Vec<u32> = Vec::new();
        magic.push(IMAGE_MAGIC);
        proof {
            assert(ws@ =~= fields_words_fwd(Seq::<Seq<u32>>::empty()));
        }
        push_field(&mut ws, &magic, Ghost(Seq::empty()));
        let ghost f0 = Seq::<Seq<u32>>::empty().push(magic@);
        push_lex(&mut ws, self.system_lexicon(), Ghost(f0));
        let ghost f1 = f0 + lex_fields(v.0);
        push_opt_lex(&mut ws, self.user_lexicon(), Ghost(f1));
        let ghost f2 = f1 + opt_lex_fields(v.1);
        push_conn(&mut ws, self.connector(), Ghost(f2));
        let ghost f3 = f2 + conn_fields(v.2);
        push_map(&mut ws, self.mapper(), Ghost(f3));
        let ghost f4 = f3 + map_fields(v.3);
        push_prop(&mut ws, self.char_prop(), Ghost(f4));
        let ghost f5 = f4 + prop_fields(v.4);
        push_unk(&mut ws, self.unk_handler(), Ghost(f5));
        proof {
            assert(f0 =~= seq![seq![IMAGE_MAGIC]]);
            assert(f5 + unk_fields(v.5) =~= dict_fields(v));
        }
        let before = out.len();
        push_words(out, &ws);
        proof {
            lemma_words_bytes_len(ws@);
        }
        Ok(out.len() - before)
    }
}

/// The lists of a lexicon read from an image.
struct LexParts {
    surfaces: Vec<Vec<char>>,
    params: Vec<WordParam>,
    features: Vec<Vec<char>>,
}

spec fn lex_parts_view(p: LexParts) -> LexView {
    (texts_view(p.surfaces@), p.params@, texts_view(p.features@))
}

/// The parts of a dictionary read from an image, not yet checked.
struct ImageParts {
    system: LexParts,
    user: Option<LexParts>,
    num_right: u32,
    num_left: u32,
    costs: Vec<i16>,
    map: Option<(Vec<u16>, Vec<u16>)>,
    ranges: Vec<CharRange>,
    default_info: CharInfo,
    categories: Vec<Vec<char>>,
    offsets: Vec<usize>,
    cate_ids: Vec<u16>,
    unk_params: Vec<WordParam>,
    unk_features: Vec<Vec<char>>,
}

spec fn parts_view(p: ImageParts) -> DictView {
    (
        lex_parts_view(p.system),
        match p.user {
            Some(u) => Some(lex_parts_view(u)),
            None => None,
        },
        (p.num_right as int, p.num_left as int, p.costs@),
        match p.map {
            Some((l, r)) => Some((l@, r@)),
            None => None,
        },
        (p.ranges@, p.default_info, texts_view(p.categories@)),
        (p.offsets@, p.cate_ids@, p.unk_params@, texts_view(p.unk_features@)),
    )
}

/// Reads the parts that the bytes hold, if they are an image.
#[verifier::rlimit(30)]
fn read_image(bytes: &[u8]) -> (r: Option<ImageParts>)
    ensures
        match r {
            Some(p) => image_view(bytes@) == Some(parts_view(p)),
            None => image_view(bytes@) is None,
        },
{
    if bytes.len() % 4 != 0 {
        return None;
    }
    let ws = match read_words(bytes, 0) {
        Some(x) => x,
        None => {
            return None;
        },
    };
    proof {
        assert(bytes@.subrange(0, bytes@.len() as int) =~= bytes@);
    }
    let fs = match read_fields(&ws) {
        Some(x) => x,
        None => {
            return None;
        },
    };
    let ghost fv = fields_view(fs@);
    proof {
        assert(Seq::new(fs@.len(), |i: int| fs@[i]@) =~= fv);
    }
    if fs.len() == 0 || fs[0].len() != 1 || fs[0][0] != IMAGE_MAGIC {
        proof {
            if fs@.len() > 0 {
                assert(fv[0] == fs@[0]@);
                if fv[0] == seq![IMAGE_MAGIC] {
                    assert(fs@[0]@[0] == IMAGE_MAGIC);
                }
            }
        }
        return None;
    }
    proof {
        assert(fv[0] =~= seq![IMAGE_MAGIC]);
    }
    let (s_surf, s_params, s_feat, i1) = match read_lex(&fs, 1) {
        Some(x) => x,
        None => {
            return None;
        },
    };
    let (user, i2) = match read_opt_lex(&fs, i1) {
        Some(x) => x,
        None => {
            return None;
        },
    };
    let (nr, nl, costs, i3) = match read_conn(&fs, i2) {
        Some(x) => x,
        None => {
            return None;
        },
    };
    let (map, i4) = match read_map(&fs, i3) {
        Some(x) => x,
        None => {
            return None;
        },
    };
    let (ranges, def, cats, i5) = match read_prop(&fs, i4) {
        Some(x) => x,
        None => {
            return None;
        },
    };
    let (offsets, cate_ids, unk_params, unk_features, i6) = match read_unk(&fs, i5) {
        Some(x) => x,
        None => {
            return None;
        },
    };
    if i6 != fs.len() {
        return None;
    }
    let user_parts = match user {
        Some((a, b, c)) => Some(LexParts { surfaces: a, params: b, features: c }),
        None => None,
    };
    Some(
        ImageParts {
            system: LexParts { surfaces: s_surf, params: s_params, features: s_feat },
            user: user_parts,
            num_right: nr,
            num_left: nl,
            costs,
            map,
            ranges,
            default_info: def,
            categories: cats,
            offsets,
            cate_ids,
            unk_params,
            unk_features,
        },
    )
}

/// Builds a lexicon of parts read from an image, if they are consistent
/// with the connector's numbers of ids.
fn build_lex(p: LexParts, lex_type: LexType, nl: usize, nr: usize) -> (r: Option<Lexicon>)
    ensures
        match r {
            Some(l) => {
                &&& l.wf()
                &&& l.spec_lex_type() == lex_type
                &&& l.ids_within(nl as int, nr as int)
                &&& lex_view(l) == lex_parts_view(p)
            },
            None => !lex_valid(lex_parts_view(p), nl as int, nr as int),
        },
{
    let ghost v = lex_parts_view(p);
    let l = match Lexicon::from_parts(p.surfaces, p.params, p.features, lex_type) {
        Some(l) => l,
        None => {
            proof {
                if lex_valid(v, nl as int, nr as int) {
                    assert forall|i: int| 0 <= i < p.surfaces@.len() implies (
                    #[trigger] p.surfaces@[i])@.len() > 0 by {
                        assert(v.0[i] == p.surfaces@[i]@);
                    }
                }
            }
            return None;
        },
    };
    if !l.verify(nl, nr) {
        return None;
    }
    Some(l)
}

/// Builds a connector of parts read from an image, if they are consistent.
fn build_conn(nr: u32, nl: u32, costs: Vec<i16>) -> (r: Option<MatrixConnector>)
    ensures
        match r {
            Some(c) => c.wf() && c.spec_num_right() == nr && c.spec_num_left() == nl
                && c.spec_data() == costs@,
            None => !conn_valid((nr as int, nl as int, costs@)),
        },
{
    let conn = MatrixConnector::new(costs, nr as usize, nl as usize);
    if conn.check_wf() {
        Some(conn)
    } else {
        None
    }
}

/// Builds a character property of parts read from an image, if they are
/// consistent.
fn build_prop(ranges: Vec<CharRange>, def: CharInfo, cats: Vec<Vec<char>>) -> (r: Option<CharProperty>)
    ensures
        match r {
            Some(p) => p.wf() && p.spec_ranges() == ranges@ && p.spec_default() == def
                && p.spec_categories() == texts_view(cats@),
            None => !prop_valid((ranges@, def, texts_view(cats@))),
        },
{
    let ghost v = (ranges@, def, texts_view(cats@));
    let prop = CharProperty::from_parts(ranges, def, cats);
    if prop.check_wf() {
        Some(prop)
    } else {
        proof {
            if prop_valid(v) {
                let n = v.2.len() as int;
                assert forall|k: int| 0 <= k < prop.spec_ranges().len() implies info_wf(
                    #[trigger] prop.spec_ranges()[k].info,
                    n,
                ) by {
                    assert(v.0[k] == prop.spec_ranges()[k]);
                }
            }
        }
        None
    }
}

/// Builds a handler of unknown words of parts read from an image, if they
/// are consistent with `n` categories and the connector's numbers of ids.
fn build_unk(
    offsets: Vec<usize>,
    cate_ids: Vec<u16>,
    params: Vec<WordParam>,
    feats: Vec<Vec<char>>,
    n: usize,
    nl: usize,
    nr: usize,
) -> (r: Option<UnkHandler>)
    ensures
        match r {
            Some(h) => {
                &&& h.wf(n as int)
                &&& h.ids_within(nl as int, nr as int)
                &&& (h.spec_offsets(), h.spec_cate_ids(), h.spec_params(), h.spec_features()) == (
                    offsets@,
                    cate_ids@,
                    params@,
                    texts_view(feats@),
                )
            },
            None => !unk_valid(
                (offsets@, cate_ids@, params@, texts_view(feats@)),
                n as int,
                nl as int,
                nr as int,
            ),
        },
{
    let ghost v = (offsets@, cate_ids@, params@, texts_view(feats@));
    let unk = match UnkHandler::from_parts(offsets, cate_ids, params, feats) {
        Some(h) => h,
        None => {
            return None;
        },
    };
    if !unk.check_wf(n) || !unk.verify(nl, nr) {
        return None;
    }
    Some(unk)
}

/// Builds a mapper of parts read from an image, if they renumber exactly
/// the connector's ids.
fn build_map(map: Option<(Vec<u16>, Vec<u16>)>, nl: usize, nr: usize) -> (r: Option<Option<ConnIdMapper>>)
    ensures
        match r {
            Some(m) => (m matches Some(x) ==> x.wf() && x.spec_left().len() == nl
                && x.spec_right().len() == nr) && match m {
                Some(x) => map matches Some((l, rr)) && x.spec_left() == l@ && x.spec_right() == rr@,
                None => map is None,
            },
            None => !map_valid(
                match map {
                    Some((l, rr)) => Some((l@, rr@)),
                    None => None,
                },
                nl as int,
                nr as int,
            ),
        },
{
    match map {
        Some((l, r)) => {
            if l.len() != nl || r.len() != nr || !check_id_permutation(&l)
                || !check_id_permutation(&r) {
                return None;
            }
            Some(Some(ConnIdMapper::from_maps(l, r)))
        },
        None => Some(None),
    }
}

/// Builds a dictionary of parts read from an image, if they are consistent.
fn build_inner(p: ImageParts) -> (r: Option<DictionaryInner>)
    ensures
        match r {
            Some(d) => d.wf() && dict_view(d) == parts_view(p),
            None => !dict_valid(parts_view(p)),
        },
{
    let ghost v = parts_view(p);
    let nr = p.num_right as usize;
    let nl = p.num_left as usize;
    let conn = match build_conn(p.num_right, p.num_left, p.costs) {
        Some(c) => c,
        None => {
            return None;
        },
    };
    let system = match build_lex(p.system, LexType::System, nl, nr) {
        Some(l) => l,
        None => {
            return None;
        },
    };
    let user = match p.user {
        Some(u) => match build_lex(u, LexType::User, nl, nr) {
            Some(l) => Some(l),
            None => {
                return None;
            },
        },
        None => None,
    };
    let prop = match build_prop(p.ranges, p.default_info, p.categories) {
        Some(x) => x,
        None => {
            return None;
        },
    };
    let unk = match build_unk(
        p.offsets,
        p.cate_ids,
        p.unk_params,
        p.unk_features,
        prop.num_categories(),
        nl,
        nr,
    ) {
        Some(h) => h,
        None => {
            return None;
        },
    };
    let mapper = match build_map(p.map, nl, nr) {
        Some(m) => m,
        None => {
            return None;
        },
    };
    let d = DictionaryInner::from_parts(system, user, conn, mapper, prop, unk);
    Some(d)
}

impl Dictionary {
    /// Reads a dictionary from its image, as `DictionaryInner::write`
    /// writes it.
    ///
    /// Fails with `InvalidFormat(Model)` unless the bytes are an image of
    /// consistent parts.
    pub fn from_bytes(bytes: &[u8]) -> (r: Result<Dictionary, VibratoError>)
        ensures
            match r {
                Ok(d) => d.wf() && image_view(bytes@) == Some(dict_view(*d.inner())),
                Err(e) => e == VibratoError::InvalidFormat(Source::Model) && !(image_view(
                    bytes@,
                ) matches Some(v) && dict_valid(v)),
            },
    {
        let parts = match read_image(bytes) {
            Some(p) => p,
            None => {
                return Err(VibratoError::InvalidFormat(Source::Model));
            },
        };
        match build_inner(parts) {
            Some(d) => Ok(Dictionary::from_inner(d)),
            None => Err(VibratoError::InvalidFormat(Source::Model)),
        }
    }
}

} // verus!
