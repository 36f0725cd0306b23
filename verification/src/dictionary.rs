//! Dictionary for tokenization.
pub mod builder;
pub mod character;
pub mod connector;
pub mod image;
pub mod layout;
pub mod lexicon;
pub mod mapper;
pub mod model;
pub mod persist;
pub mod unknown;
pub mod word_idx;

use vstd::prelude::*;

use crate::dictionary::character::CharProperty;
use crate::dictionary::connector::{is_id_permutation, MatrixConnector};
use crate::dictionary::lexicon::{Lexicon, WordParam};
use crate::dictionary::mapper::ConnIdMapper;
use crate::dictionary::unknown::UnkHandler;
use crate::dictionary::word_idx::{LexType, WordIdx};
use crate::errors::{Source, VibratoError};

pub use crate::dictionary::builder::SystemDictionaryBuilder;

verus! {

/// The fixed connection id of BOS/EOS.
pub const BOS_EOS_CONNECTION_ID: u16 = 0;

/// Inner data of [`Dictionary`].
#[derive(Clone, Debug)]
pub struct DictionaryInner {
    pub(crate) system_lexicon: Lexicon,
    pub(crate) user_lexicon: Option<Lexicon>,
    pub(crate) connector: MatrixConnector,
    pub(crate) mapper: Option<ConnIdMapper>,
    pub(crate) char_prop: CharProperty,
    pub(crate) unk_handler: UnkHandler,
}

/// A lexicon that the dictionary can hold: well-formed, of the given type,
/// and with connection ids that the connector defines.
pub open spec fn lexicon_fits(lex: &Lexicon, lex_type: LexType, conn: &MatrixConnector) -> bool {
    &&& lex.wf()
    &&& lex.spec_lex_type() == lex_type
    &&& lex.ids_within(conn.spec_num_left(), conn.spec_num_right())
}

/// The parameter `p` with its connection ids renumbered by the mapper `m`.
pub open spec fn mapped_param(m: ConnIdMapper, p: WordParam) -> WordParam {
    WordParam {
        left_id: m.spec_left()[p.left_id as int],
        right_id: m.spec_right()[p.right_id as int],
        word_cost: p.word_cost,
    }
}

/// The parameter that a word read with parameter `p` gets in a dictionary
/// with the mapper `m`, if any.
pub open spec fn param_under(m: Option<ConnIdMapper>, p: WordParam) -> WordParam {
    match m {
        Some(m) => mapped_param(m, p),
        None => p,
    }
}

/// `new` is `old` with its connection ids renumbered by the mapper of
/// `new`: each word of each lexicon, unknown-word entries included, keeps
/// its cost and gets the new numbers of its ids; the id 0 of BOS and EOS
/// stays; and the matrix holds each cost under the new numbers.
pub open spec fn remaps(new: &DictionaryInner, old: &DictionaryInner) -> bool {
    &&& new.mapper_spec() matches Some(m) && {
        &&& m.spec_left()[0] == 0
        &&& m.spec_right()[0] == 0
        &&& forall|w: WordIdx|
            #![trigger old.valid_word(w)]
            #![trigger new.spec_word_param(w)]
            old.valid_word(w) ==> new.valid_word(w) && new.spec_word_param(w) == mapped_param(
                m,
                old.spec_word_param(w),
            )
        &&& forall|r: int, l: int|
            0 <= r < old.connector_spec().spec_num_right() && 0 <= l < old.connector_spec().spec_num_left()
                ==> #[trigger] new.connector_spec().spec_cost(m.spec_right()[r] as int, m.spec_left()[l] as int)
                == old.connector_spec().spec_cost(r, l)
    }
}

/// Every cost that a path can add is the same in `new` as in `old`: each
/// word's cost, the connection between any two words, and those between
/// BOS or EOS and any word.
pub open spec fn costs_kept(new: &DictionaryInner, old: &DictionaryInner) -> bool {
    &&& new.connector_spec().spec_cost(0, 0) == old.connector_spec().spec_cost(0, 0)
    &&& forall|w: WordIdx|
        #![trigger old.valid_word(w)]
        #![trigger new.spec_word_param(w)]
        old.valid_word(w) ==> {
            &&& new.valid_word(w)
            &&& new.spec_word_param(w).word_cost == old.spec_word_param(w).word_cost
            &&& new.connector_spec().spec_cost(0, new.spec_word_param(w).left_id as int)
                == old.connector_spec().spec_cost(0, old.spec_word_param(w).left_id as int)
            &&& new.connector_spec().spec_cost(new.spec_word_param(w).right_id as int, 0)
                == old.connector_spec().spec_cost(old.spec_word_param(w).right_id as int, 0)
        }
    &&& forall|w1: WordIdx, w2: WordIdx|
        #![trigger old.valid_word(w1), old.valid_word(w2)]
        #![trigger new.spec_word_param(w1), new.spec_word_param(w2)]
        old.valid_word(w1) && old.valid_word(w2) ==> new.connector_spec().spec_cost(
            new.spec_word_param(w1).right_id as int,
            new.spec_word_param(w2).left_id as int,
        ) == old.connector_spec().spec_cost(
            old.spec_word_param(w1).right_id as int,
            old.spec_word_param(w2).left_id as int,
        )
}

/// Renumbering the connection ids of a dictionary keeps every cost of
/// every path: the cost of each word, and of each connection between two
/// words or with BOS or EOS.
pub proof fn lemma_remap_keeps_costs(new: &DictionaryInner, old: &DictionaryInner)
    requires
        old.wf(),
        remaps(new, old),
    ensures
        costs_kept(new, old),
{
    let m = new.mapper_spec().unwrap();
    let nr = old.connector_spec().spec_num_right();
    let nl = old.connector_spec().spec_num_left();
    assert(old.connector_spec().wf());
    assert(new.connector_spec().spec_cost(m.spec_right()[0] as int, m.spec_left()[0] as int)
        == old.connector_spec().spec_cost(0, 0));
    assert forall|w: WordIdx| #![trigger old.valid_word(w)] #![trigger new.spec_word_param(w)] old.valid_word(w) implies {
        &&& new.valid_word(w)
        &&& new.spec_word_param(w).word_cost == old.spec_word_param(w).word_cost
        &&& new.connector_spec().spec_cost(0, new.spec_word_param(w).left_id as int)
            == old.connector_spec().spec_cost(0, old.spec_word_param(w).left_id as int)
        &&& new.connector_spec().spec_cost(new.spec_word_param(w).right_id as int, 0)
            == old.connector_spec().spec_cost(old.spec_word_param(w).right_id as int, 0)
    } by {
        old.lemma_word_param_ids(w);
        let p = old.spec_word_param(w);
        assert(new.spec_word_param(w) == mapped_param(m, p));
        assert(new.valid_word(w));
        assert(new.spec_word_param(w).left_id == m.spec_left()[p.left_id as int]);
        assert(new.connector_spec().spec_cost(m.spec_right()[0] as int, m.spec_left()[p.left_id as int] as int)
            == old.connector_spec().spec_cost(0, p.left_id as int));
        assert(new.connector_spec().spec_cost(m.spec_right()[p.right_id as int] as int, m.spec_left()[0] as int)
            == old.connector_spec().spec_cost(p.right_id as int, 0));
    }
    assert forall|w1: WordIdx, w2: WordIdx|
        #![trigger old.valid_word(w1), old.valid_word(w2)]
        #![trigger new.spec_word_param(w1), new.spec_word_param(w2)]
        old.valid_word(w1) && old.valid_word(w2) implies new.connector_spec().spec_cost(
        new.spec_word_param(w1).right_id as int,
        new.spec_word_param(w2).left_id as int,
    ) == old.connector_spec().spec_cost(
        old.spec_word_param(w1).right_id as int,
        old.spec_word_param(w2).left_id as int,
    ) by {
        old.lemma_word_param_ids(w1);
        old.lemma_word_param_ids(w2);
        let p1 = old.spec_word_param(w1);
        let p2 = old.spec_word_param(w2);
        assert(new.spec_word_param(w1) == mapped_param(m, p1));
        assert(new.spec_word_param(w2) == mapped_param(m, p2));
        assert(new.connector_spec().spec_cost(
            m.spec_right()[p1.right_id as int] as int,
            m.spec_left()[p2.left_id as int] as int,
        ) == old.connector_spec().spec_cost(p1.right_id as int, p2.left_id as int));
    }
    assert(new.connector_spec().spec_cost(0, 0) == old.connector_spec().spec_cost(0, 0));
}

/// `new` is `old` with the user lexicon read from the text `t` of a
/// lexicon file: the same other parts, and a user lexicon holding the
/// words of `t` with their surfaces and features, whose parameters are
/// those of `t` with the ids renumbered by the mapper of `old`, if any.
pub open spec fn loads_user(new: &DictionaryInner, old: &DictionaryInner, t: Seq<char>) -> bool {
    &&& new.system_lexicon_spec() == old.system_lexicon_spec()
    &&& new.connector_spec() == old.connector_spec()
    &&& new.char_prop_spec() == old.char_prop_spec()
    &&& new.unk_handler_spec() == old.unk_handler_spec()
    &&& new.mapper_spec() == old.mapper_spec()
    &&& new.user_lexicon_spec() matches Some(u) && crate::dictionary::lexicon::csv_spec(t) matches Some(es)
        && es.len() == u.spec_len() && forall|i: int|
        0 <= i < es.len() ==> (#[trigger] es[i]).0 == u.spec_surfaces()[i] && es[i].2
            == u.spec_features()[i] && u.spec_params()[i] == param_under(old.mapper_spec(), es[i].1)
}

/// A user lexicon added to a renumbered dictionary costs what it costs in
/// the dictionary before renumbering: where `c` renumbers `d0` (which has
/// no mapper), loading the text `t` into `c` gives a dictionary with every
/// cost of loading `t` into `d0`.
pub proof fn lemma_user_lexicon_after_remap(
    d0: &DictionaryInner,
    a: &DictionaryInner,
    c: &DictionaryInner,
    e: &DictionaryInner,
    t: Seq<char>,
)
    requires
        d0.wf(),
        d0.mapper_spec() is None,
        a.wf(),
        loads_user(a, d0, t),
        remaps(c, d0),
        loads_user(e, c, t),
    ensures
        remaps(e, a),
        costs_kept(e, a),
{
    let m = c.mapper_spec().unwrap();
    let u = a.user_lexicon_spec().unwrap();
    let v = e.user_lexicon_spec().unwrap();
    let es = crate::dictionary::lexicon::csv_spec(t).unwrap();
    assert forall|w: WordIdx| #![trigger a.valid_word(w)] #![trigger e.spec_word_param(w)] a.valid_word(w) implies e.valid_word(w)
        && e.spec_word_param(w) == mapped_param(m, a.spec_word_param(w)) by {
        match w.lex_type {
            LexType::User => {
                let i = w.word_id as int;
                assert(u.spec_params()[i] == param_under(d0.mapper_spec(), es[i].1));
                assert(v.spec_params()[i] == param_under(c.mapper_spec(), es[i].1));
            },
            _ => {
                assert(d0.valid_word(w));
                assert(c.spec_word_param(w) == mapped_param(m, d0.spec_word_param(w)));
            },
        }
    }
    assert(remaps(e, a));
    lemma_remap_keeps_costs(e, a);
}

impl DictionaryInner {
    pub closed spec fn system_lexicon_spec(&self) -> &Lexicon {
        &self.system_lexicon
    }

    pub closed spec fn user_lexicon_spec(&self) -> Option<Lexicon> {
        self.user_lexicon
    }

    pub closed spec fn connector_spec(&self) -> &MatrixConnector {
        &self.connector
    }

    pub closed spec fn char_prop_spec(&self) -> &CharProperty {
        &self.char_prop
    }

    pub closed spec fn unk_handler_spec(&self) -> &UnkHandler {
        &self.unk_handler
    }

    pub closed spec fn mapper_spec(&self) -> Option<ConnIdMapper> {
        self.mapper
    }

    /// The members agree with each other: every connection id is defined by
    /// the connector, the unknown-word entries cover the character categories,
    /// and a mapper renumbers exactly the connector's ids.
    pub open spec fn wf(&self) -> bool {
        &&& self.connector_spec().wf()
        &&& lexicon_fits(self.system_lexicon_spec(), LexType::System, self.connector_spec())
        &&& (self.user_lexicon_spec() matches Some(u) ==> lexicon_fits(
            &u,
            LexType::User,
            self.connector_spec(),
        ))
        &&& self.char_prop_spec().wf()
        &&& self.unk_handler_spec().wf(self.char_prop_spec().spec_categories().len() as int)
        &&& self.unk_handler_spec().ids_within(
            self.connector_spec().spec_num_left(),
            self.connector_spec().spec_num_right(),
        )
        &&& (self.mapper_spec() matches Some(m) ==> m.wf() && m.spec_left().len()
            == self.connector_spec().spec_num_left() && m.spec_right().len()
            == self.connector_spec().spec_num_right())
    }

    /// Whether `w` names a word of the dictionary.
    pub open spec fn valid_word(&self, w: WordIdx) -> bool {
        match w.lex_type {
            LexType::System => w.word_id < self.system_lexicon_spec().spec_len(),
            LexType::User => self.user_lexicon_spec() matches Some(u) && w.word_id < u.spec_len(),
            LexType::Unknown => w.word_id < self.unk_handler_spec().spec_len(),
        }
    }

    /// The parameter of word `w`.
    pub open spec fn spec_word_param(&self, w: WordIdx) -> WordParam {
        match w.lex_type {
            LexType::System => self.system_lexicon_spec().spec_params()[w.word_id as int],
            LexType::User => self.user_lexicon_spec().unwrap().spec_params()[w.word_id as int],
            LexType::Unknown => self.unk_handler_spec().spec_params()[w.word_id as int],
        }
    }

    /// The feature of word `w`.
    pub open spec fn spec_word_feature(&self, w: WordIdx) -> Seq<char> {
        match w.lex_type {
            LexType::System => self.system_lexicon_spec().spec_features()[w.word_id as int],
            LexType::User => self.user_lexicon_spec().unwrap().spec_features()[w.word_id as int],
            LexType::Unknown => self.unk_handler_spec().spec_features()[w.word_id as int],
        }
    }

    pub proof fn lemma_word_param_ids(&self, w: WordIdx)
        requires
            self.wf(),
            self.valid_word(w),
        ensures
            self.spec_word_param(w).left_id < self.connector_spec().spec_num_left(),
            self.spec_word_param(w).right_id < self.connector_spec().spec_num_right(),
    {
        match w.lex_type {
            LexType::System => {
                let p = self.system_lexicon_spec().spec_params()[w.word_id as int];
            },
            LexType::User => {
                let p = self.user_lexicon_spec().unwrap().spec_params()[w.word_id as int];
            },
            LexType::Unknown => {
                let p = self.unk_handler_spec().spec_params()[w.word_id as int];
            },
        }
    }

    /// Builds the inner data of its parts.
    pub fn from_parts(
        system_lexicon: Lexicon,
        user_lexicon: Option<Lexicon>,
        connector: MatrixConnector,
        mapper: Option<ConnIdMapper>,
        char_prop: CharProperty,
        unk_handler: UnkHandler,
    ) -> (d: Self)
        ensures
            *d.system_lexicon_spec() == system_lexicon,
            d.user_lexicon_spec() == user_lexicon,
            *d.connector_spec() == connector,
            d.mapper_spec() == mapper,
            *d.char_prop_spec() == char_prop,
            *d.unk_handler_spec() == unk_handler,
    {
        DictionaryInner { system_lexicon, user_lexicon, connector, mapper, char_prop, unk_handler }
    }

    /// Gets the mapper of connection ids, if any.
    pub fn mapper(&self) -> (r: Option<&ConnIdMapper>)
        ensures
            match r {
                Some(m) => self.mapper_spec() == Some(*m),
                None => self.mapper_spec() is None,
            },
    {
        match &self.mapper {
            Some(m) => Some(m),
            None => None,
        }
    }

    /// Gets the reference to the system lexicon.
    pub fn system_lexicon(&self) -> (r: &Lexicon)
        ensures
            r == self.system_lexicon_spec(),
    {
        &self.system_lexicon
    }

    /// Gets the reference to the user lexicon.
    pub fn user_lexicon(&self) -> (r: Option<&Lexicon>)
        ensures
            match r {
                Some(u) => self.user_lexicon_spec() == Some(*u),
                None => self.user_lexicon_spec() is None,
            },
    {
        match &self.user_lexicon {
            Some(u) => Some(u),
            None => None,
        }
    }

    /// Gets the reference to the connection matrix.
    pub fn connector(&self) -> (r: &MatrixConnector)
        ensures
            r == self.connector_spec(),
    {
        &self.connector
    }

    /// Gets the reference to the character property.
    pub fn char_prop(&self) -> (r: &CharProperty)
        ensures
            r == self.char_prop_spec(),
    {
        &self.char_prop
    }

    /// Gets the reference to the handler of unknown words.
    pub fn unk_handler(&self) -> (r: &UnkHandler)
        ensures
            r == self.unk_handler_spec(),
    {
        &self.unk_handler
    }

    /// Gets the parameter of a word.
    pub fn word_param(&self, w: WordIdx) -> (p: WordParam)
        requires
            self.wf(),
            self.valid_word(w),
        ensures
            p == self.spec_word_param(w),
    {
        match w.lex_type {
            LexType::System => self.system_lexicon.word_param(w.word_id as usize),
            LexType::User => {
                let u = self.user_lexicon.as_ref().unwrap();
                u.word_param(w.word_id as usize)
            },
            LexType::Unknown => self.unk_handler.word_param(w.word_id as usize),
        }
    }

    /// Gets the feature of a word.
    pub fn word_feature(&self, w: WordIdx) -> (f: &str)
        requires
            self.wf(),
            self.valid_word(w),
        ensures
            f@ == self.spec_word_feature(w),
    {
        match w.lex_type {
            LexType::System => self.system_lexicon.word_feature(w.word_id as usize),
            LexType::User => {
                let u = self.user_lexicon.as_ref().unwrap();
                u.word_feature(w.word_id as usize)
            },
            LexType::Unknown => self.unk_handler.word_feature(w.word_id as usize),
        }
    }

    /// The error of reading the text `t` of a user lexicon for this
    /// dictionary, if any: a text that is no lexicon file, or one with too
    /// many words or with connection ids that the connector does not define.
    pub open spec fn user_lexicon_error(&self, t: Seq<char>) -> Option<VibratoError> {
        match crate::dictionary::lexicon::csv_spec(t) {
            None => Some(VibratoError::InvalidFormat(Source::Lexicon)),
            Some(es) => if es.len() > u32::MAX || crate::dictionary::builder::ids_beyond(
                es,
                self.connector_spec().spec_num_left(),
                self.connector_spec().spec_num_right(),
            ) {
                Some(VibratoError::InvalidArgument(Source::Lexicon))
            } else {
                None
            },
        }
    }

    /// The user lexicon holds the words of the text `t` of a lexicon file:
    /// their surfaces, features and costs (their ids renumbered by the
    /// mapper, if any).
    pub open spec fn holds_user_words(&self, t: Seq<char>) -> bool {
        self.user_lexicon_spec() matches Some(u) && crate::dictionary::lexicon::csv_spec(t) matches Some(
            es,
        ) && es.len() == u.spec_len() && forall|i: int|
            0 <= i < es.len() ==> (#[trigger] es[i]).0 == u.spec_surfaces()[i] && es[i].2
                == u.spec_features()[i] && es[i].1.word_cost == u.spec_params()[i].word_cost
                && u.spec_params()[i] == param_under(self.mapper_spec(), es[i].1)
    }

    /// Replaces the user lexicon by the one read from the text of a lexicon
    /// file, or removes it if `None`. The ids of the new lexicon are mapped
    /// with the dictionary's mapper, if it has one.
    pub fn reset_user_lexicon_from_chars(self, text: Option<&Vec<char>>) -> (r: Result<
        DictionaryInner,
        VibratoError,
    >)
        requires
            self.wf(),
        ensures
            match r {
                Ok(d) => {
                    &&& d.wf()
                    &&& d.system_lexicon_spec() == self.system_lexicon_spec()
                    &&& d.connector_spec() == self.connector_spec()
                    &&& d.char_prop_spec() == self.char_prop_spec()
                    &&& d.unk_handler_spec() == self.unk_handler_spec()
                    &&& d.mapper_spec() == self.mapper_spec()
                    &&& (text is None ==> d.user_lexicon_spec() is None)
                    &&& (text matches Some(t) ==> d.user_lexicon_spec() matches Some(u)
                        && crate::dictionary::lexicon::csv_spec(t@) matches Some(es) && es.len()
                        == u.spec_len() && !crate::dictionary::builder::ids_beyond(
                        es,
                        self.connector_spec().spec_num_left(),
                        self.connector_spec().spec_num_right(),
                    ) && forall|i: int|
                        0 <= i < es.len() ==> (#[trigger] es[i]).0 == u.spec_surfaces()[i]
                            && es[i].2 == u.spec_features()[i] && es[i].1.word_cost
                            == u.spec_params()[i].word_cost)
                    &&& (text matches Some(t) ==> loads_user(&d, &self, t@))
                },
                Err(e) => text matches Some(t) && self.user_lexicon_error(t@) == Some(e),
            },
    {
        let mut d = self;
        match text {
            None => {
                d.user_lexicon = None;
                Ok(d)
            },
            Some(t) => {
                let mut lex = Lexicon::from_chars(t, LexType::User)?;
                let ghost before = lex;
                let ghost es = crate::dictionary::lexicon::csv_spec(t@).unwrap();
                let ghost nl = d.connector.spec_num_left();
                let ghost nr = d.connector.spec_num_right();
                proof {
                    assert(forall|i: int| 0 <= i < es.len() ==> #[trigger] es[i].1 == before.spec_params()[i]);
                    if crate::dictionary::builder::ids_beyond(es, nl, nr) {
                        let i = choose|i: int|
                            0 <= i < es.len() && ((#[trigger] es[i]).1.left_id >= nl || es[i].1.right_id >= nr);
                        assert(!before.ids_within(nl, nr)) by {
                            assert(before.spec_params()[i] == es[i].1);
                        }
                    }
                }
                match &d.mapper {
                    Some(m) => {
                        proof {
                            assert(m.spec_left().len() == nl && m.spec_right().len() == nr);
                        }
                        if !lex.verify(m.left_map().len(), m.right_map().len()) {
                            proof {
                                let i = choose|i: int|
                                    0 <= i < before.spec_len() && !((#[trigger] before.spec_params()[i]).left_id
                                        < nl && before.spec_params()[i].right_id < nr);
                                assert(es[i].1 == before.spec_params()[i]);
                            }
                            return Err(VibratoError::InvalidArgument(Source::Lexicon));
                        }
                        proof {
                            assert(before.ids_within(nl, nr));
                        }
                        lex.map_connection_ids(m.left_map(), m.right_map());
                    },
                    None => {},
                }
                if !lex.verify(d.connector.num_left(), d.connector.num_right()) {
                    proof {
                        if d.mapper is None {
                            let i = choose|i: int|
                                0 <= i < before.spec_len() && !((#[trigger] before.spec_params()[i]).left_id
                                    < nl && before.spec_params()[i].right_id < nr);
                            assert(es[i].1 == before.spec_params()[i]);
                        } else {
                            let m = d.mapper.unwrap();
                            assert(before.ids_within(nl, nr));
                            assert(m.spec_left().len() == nl && m.spec_right().len() == nr);
                            assert forall|i: int| 0 <= i < lex.spec_len() implies (
                            #[trigger] lex.spec_params()[i]).left_id < nl && lex.spec_params()[i].right_id
                                < nr by {
                                let p = before.spec_params()[i];
                                assert(p.left_id < nl && p.right_id < nr);
                                assert(m.spec_left()[p.left_id as int] < nl);
                                assert(m.spec_right()[p.right_id as int] < nr);
                            }
                        }
                    }
                    return Err(VibratoError::InvalidArgument(Source::Lexicon));
                }
                proof {
                    let es = crate::dictionary::lexicon::csv_spec(t@).unwrap();
                    assert forall|i: int| 0 <= i < es.len() implies (#[trigger] es[i]).0
                        == lex.spec_surfaces()[i] && es[i].2 == lex.spec_features()[i]
                        && es[i].1.word_cost == lex.spec_params()[i].word_cost
                        && lex.spec_params()[i] == param_under(d.mapper_spec(), es[i].1) by {
                        assert(es[i].1 == before.spec_params()[i]);
                    }
                }
                d.user_lexicon = Some(lex);
                Ok(d)
            },
        }
    }

    /// Replaces the user lexicon by the one read from the bytes of a lexicon
    /// file, or removes it if `None`.
    pub fn reset_user_lexicon_from_reader(self, rdr: Option<&[u8]>) -> (r: Result<
        DictionaryInner,
        VibratoError,
    >)
        requires
            self.wf(),
        ensures
            match r {
                Ok(d) => {
                    &&& d.wf()
                    &&& d.system_lexicon_spec() == self.system_lexicon_spec()
                    &&& d.connector_spec() == self.connector_spec()
                    &&& d.char_prop_spec() == self.char_prop_spec()
                    &&& d.unk_handler_spec() == self.unk_handler_spec()
                    &&& d.mapper_spec() == self.mapper_spec()
                    &&& (rdr is None ==> d.user_lexicon_spec() is None)
                    &&& (rdr matches Some(b) ==> vstd::utf8::valid_utf8(b@) && self.user_lexicon_error(
                        vstd::utf8::decode_utf8(b@),
                    ) is None && d.holds_user_words(vstd::utf8::decode_utf8(b@)))
                },
                Err(e) => rdr matches Some(b) && if vstd::utf8::valid_utf8(b@) {
                    self.user_lexicon_error(vstd::utf8::decode_utf8(b@)) == Some(e)
                } else {
                    e == VibratoError::InvalidFormat(Source::Lexicon)
                },
            },
    {
        match rdr {
            None => self.reset_user_lexicon_from_chars(None),
            Some(bytes) => {
                let text = crate::dictionary::builder::decode_text(bytes, Source::Lexicon)?;
                self.reset_user_lexicon_from_chars(Some(&text))
            },
        }
    }

    /// Edits connection ids with the given mappings, where the `i`-th item
    /// (1-origin) of `lmap`/`rmap` is the old id that becomes the new id `i`.
    ///
    /// Fails with `InvalidArgument(Mapping)` exactly when a list does not
    /// hold each of its ids once, or does not cover the ids of the connector
    /// (all but id 0, which stays).
    pub fn map_connection_ids_from_iter(self, lmap: Vec<u16>, rmap: Vec<u16>) -> (r: Result<
        DictionaryInner,
        VibratoError,
    >)
        requires
            self.wf(),
        ensures
            r is Ok <==> (crate::dictionary::mapper::is_valid_list(lmap@)
                && crate::dictionary::mapper::is_valid_list(rmap@) && lmap@.len() + 1
                == self.connector_spec().spec_num_left() && rmap@.len() + 1
                == self.connector_spec().spec_num_right()),
            match r {
                Ok(d) => {
                    &&& d.wf()
                    &&& remaps(&d, &self)
                    &&& costs_kept(&d, &self)
                    &&& d.user_lexicon_spec() is Some == self.user_lexicon_spec() is Some
                    &&& d.mapper_spec() matches Some(m) && crate::dictionary::mapper::is_inverse_of_list(
                        m.spec_left(),
                        lmap@,
                    ) && crate::dictionary::mapper::is_inverse_of_list(m.spec_right(), rmap@)
                    &&& d.system_lexicon_spec().spec_len() == self.system_lexicon_spec().spec_len()
                    &&& forall|r: int, l: int|
                        0 <= r < self.connector_spec().spec_num_right() && 0 <= l
                            < self.connector_spec().spec_num_left() ==> #[trigger] d.connector_spec().spec_cost(
                            d.mapper_spec().unwrap().spec_right()[r] as int,
                            d.mapper_spec().unwrap().spec_left()[l] as int,
                        ) == self.connector_spec().spec_cost(r, l)
                    &&& forall|i: int|
                        0 <= i < self.system_lexicon_spec().spec_len() ==> (
                        #[trigger] d.system_lexicon_spec().spec_params()[i]).left_id
                            == d.mapper_spec().unwrap().spec_left()[self.system_lexicon_spec().spec_params()[i].left_id as int]
                            && d.system_lexicon_spec().spec_params()[i].right_id
                            == d.mapper_spec().unwrap().spec_right()[self.system_lexicon_spec().spec_params()[i].right_id as int]
                            && d.system_lexicon_spec().spec_params()[i].word_cost
                            == self.system_lexicon_spec().spec_params()[i].word_cost
                },
                Err(e) => e == VibratoError::InvalidArgument(Source::Mapping),
            },
    {
        let mapper = ConnIdMapper::from_iter(lmap, rmap)?;
        let ml = mapper.left_map();
        let mr = mapper.right_map();
        if ml.len() != self.connector.num_left() || mr.len() != self.connector.num_right() {
            return Err(VibratoError::InvalidArgument(Source::Mapping));
        }
        let mut d = self;
        d.system_lexicon.map_connection_ids(ml, mr);
        match d.user_lexicon {
            Some(mut u) => {
                u.map_connection_ids(ml, mr);
                d.user_lexicon = Some(u);
            },
            None => {},
        }
        d.connector.map_connection_ids(ml, mr);
        d.unk_handler.map_connection_ids(ml, mr);
        proof {
            let nl = ml@.len() as int;
            let nr = mr@.len() as int;
            assert forall|i: int| 0 <= i < d.system_lexicon.spec_len() implies (
            #[trigger] d.system_lexicon.spec_params()[i]).left_id < nl
                && d.system_lexicon.spec_params()[i].right_id < nr by {
                let p = self.system_lexicon.spec_params()[i];
                assert(ml@[p.left_id as int] < nl);
                assert(mr@[p.right_id as int] < nr);
            }
            assert forall|i: int| 0 <= i < d.unk_handler.spec_len() implies (
            #[trigger] d.unk_handler.spec_params()[i]).left_id < nl
                && d.unk_handler.spec_params()[i].right_id < nr by {
                let p = self.unk_handler.spec_params()[i];
                assert(ml@[p.left_id as int] < nl);
                assert(mr@[p.right_id as int] < nr);
            }
            if d.user_lexicon is Some {
                let u = d.user_lexicon.unwrap();
                let u0 = self.user_lexicon.unwrap();
                assert forall|i: int| 0 <= i < u.spec_len() implies (
                #[trigger] u.spec_params()[i]).left_id < nl && u.spec_params()[i].right_id
                    < nr by {
                    let p = u0.spec_params()[i];
                    assert(ml@[p.left_id as int] < nl);
                    assert(mr@[p.right_id as int] < nr);
                }
            }
        }
        d.mapper = Some(mapper);
        proof {
            let m = d.mapper.unwrap();
            assert(m.spec_left() == ml@ && m.spec_right() == mr@);
            assert forall|w: WordIdx| #![trigger self.valid_word(w)] #![trigger d.spec_word_param(w)] self.valid_word(w) implies d.valid_word(w) && d.spec_word_param(w)
                == mapped_param(m, self.spec_word_param(w)) by {
                match w.lex_type {
                    LexType::System => {},
                    LexType::User => {},
                    LexType::Unknown => {},
                }
            }
            assert(remaps(&d, &self));
            lemma_remap_keeps_costs(&d, &self);
        }
        Ok(d)
    }
}

/// Dictionary for tokenization.
#[derive(Clone, Debug)]
pub struct Dictionary {
    pub(crate) data: DictionaryInner,
}

impl Dictionary {
    pub closed spec fn inner(&self) -> &DictionaryInner {
        &self.data
    }

    /// The inner data is consistent.
    pub open spec fn wf(&self) -> bool {
        self.inner().wf()
    }

    /// Creates a dictionary from its inner data.
    pub fn from_inner(data: DictionaryInner) -> (d: Self)
        requires
            data.wf(),
        ensures
            d.inner() == data,
            d.wf(),
    {
        Dictionary { data }
    }

    /// Takes the inner data out.
    pub fn into_inner(self) -> (r: DictionaryInner)
        ensures
            r == *self.inner(),
    {
        self.data
    }

    /// Gets the inner data.
    pub fn data(&self) -> (r: &DictionaryInner)
        ensures
            r == self.inner(),
    {
        &self.data
    }

    /// Gets the feature of a word.
    pub fn word_feature(&self, w: WordIdx) -> (f: &str)
        requires
            self.wf(),
            self.inner().valid_word(w),
        ensures
            f@ == self.inner().spec_word_feature(w),
    {
        self.data.word_feature(w)
    }
}

} // verus!
