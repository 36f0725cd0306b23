//! Lexicons of words read from CSV files.
pub mod feature;

use vstd::prelude::*;

use crate::dictionary::lexicon::feature::WordFeatures;
use crate::dictionary::word_idx::{LexType, WordIdx};
use crate::errors::{Source, VibratoError};
use crate::text::{
    chars_to_string, i16_text, lines, line_ranges, parse_i16_text, parse_u16, split,
    split_ranges, strip_cr, strip_cr_exec, sub_vec, u16_text,
};

verus! {

/// Connection ids and the cost of a word.
#[derive(Clone, Copy, PartialEq, Eq, Structural, Debug)]
pub struct WordParam {
    pub left_id: u16,
    pub right_id: u16,
    pub word_cost: i16,
}

impl WordParam {
    pub fn new(left_id: u16, right_id: u16, word_cost: i16) -> (r: Self)
        ensures
            r == (WordParam { left_id, right_id, word_cost }),
    {
        WordParam { left_id, right_id, word_cost }
    }
}

/// A row of a lexicon file.
pub struct RawWordEntry {
    pub surface: Vec<char>,
    pub param: WordParam,
    pub feature: Vec<char>,
}

/// The meaning of a row: surface, parameters and feature.
pub type EntrySpec = (Seq<char>, WordParam, Seq<char>);

impl RawWordEntry {
    pub open spec fn spec(&self) -> EntrySpec {
        (self.surface@, self.param, self.feature@)
    }
}

/// The meaning of the line `s[lo..hi0]` of a lexicon file: `None` when it
/// breaks the format, `Some(None)` when it is skipped (blank, or an empty
/// surface), and otherwise the entry. A row is `surface,left_id,right_id,cost`
/// followed optionally by `,feature`; the feature is the rest of the line.
pub open spec fn line_entry(s: Seq<char>, lo: int, hi0: int) -> Option<Option<EntrySpec>> {
    let hi = strip_cr(s, lo, hi0);
    let f = split_ranges(s, ',', lo, hi);
    if lo >= hi {
        Some(None)
    } else if f.len() < 4 {
        None
    } else {
        match (u16_text(s, f[1].0, f[1].1), u16_text(s, f[2].0, f[2].1), i16_text(s, f[3].0, f[3].1)) {
            (Some(l), Some(r), Some(c)) => if f[0].0 >= f[0].1 {
                Some(None)
            } else {
                Some(
                    Some(
                        (
                            s.subrange(f[0].0, f[0].1),
                            WordParam { left_id: l, right_id: r, word_cost: c },
                            if f.len() == 4 {
                                Seq::empty()
                            } else {
                                s.subrange(f[4].0, hi)
                            },
                        ),
                    ),
                )
            },
            _ => None,
        }
    }
}

/// The entries of the lines `ls` of `s`, or `None` if a line breaks the format.
pub open spec fn csv_entries(s: Seq<char>, ls: Seq<(int, int)>) -> Option<Seq<EntrySpec>>
    decreases ls.len(),
{
    if ls.len() == 0 {
        Some(Seq::empty())
    } else {
        match (csv_entries(s, ls.drop_last()), line_entry(s, ls.last().0, ls.last().1)) {
            (Some(es), Some(Some(e))) => Some(es.push(e)),
            (Some(es), Some(None)) => Some(es),
            _ => None,
        }
    }
}

/// The entries of a lexicon file.
pub open spec fn csv_spec(s: Seq<char>) -> Option<Seq<EntrySpec>> {
    csv_entries(s, line_ranges(s, 0, s.len() as int))
}

/// Reads the entries of a lexicon file.
pub fn parse_csv(text: &Vec<char>, source: Source) -> (r: Result<Vec<RawWordEntry>, VibratoError>)
    ensures
        match r {
            Ok(es) => csv_spec(text@) == Some(es@.map_values(|e: RawWordEntry| e.spec())),
            Err(e) => csv_spec(text@) is None && e == VibratoError::InvalidFormat(source),
        },
{
    let ls = lines(text);
    let ghost lsv = line_ranges(text@, 0, text@.len() as int);
    let mut entries: Vec<RawWordEntry> = Vec::new();
    let mut li: usize = 0;
    while li < ls.len()
        invariant
            crate::text::ranges_view(ls@) == lsv,
            lsv == line_ranges(text@, 0, text@.len() as int),
            li <= ls@.len(),
            forall|k: int| 0 <= k < ls@.len() ==> (#[trigger] ls@[k]).0 <= ls@[k].1 <= text@.len(),
            csv_entries(text@, lsv.take(li as int)) == Some(
                entries@.map_values(|e: RawWordEntry| e.spec()),
            ),
        decreases ls@.len() - li,
    {
        let (lo, hi0) = ls[li];
        let ghost prev = entries@.map_values(|e: RawWordEntry| e.spec());
        proof {
            assert(lsv[li as int] == (lo as int, hi0 as int));
            assert(lsv.take(li + 1).drop_last() =~= lsv.take(li as int));
            assert(lsv.take(li + 1).last() == (lo as int, hi0 as int));
        }
        let hi = strip_cr_exec(text, lo, hi0);
        if lo < hi {
            let f = split(text, ',', lo, hi);
            proof {
                assert(crate::text::ranges_view(f@)[0] == (f@[0].0 as int, f@[0].1 as int));
            }
            if f.len() < 4 {
                proof {
                    assert(line_entry(text@, lo as int, hi0 as int) is None);
                    assert(csv_entries(text@, lsv.take(li + 1)) is None);
                    lemma_csv_none_prefix(text@, lsv, li + 1);
                }
                return Err(VibratoError::InvalidFormat(source));
            }
            proof {
                assert(crate::text::ranges_view(f@)[1] == (f@[1].0 as int, f@[1].1 as int));
                assert(crate::text::ranges_view(f@)[2] == (f@[2].0 as int, f@[2].1 as int));
                assert(crate::text::ranges_view(f@)[3] == (f@[3].0 as int, f@[3].1 as int));
            }
            let l = parse_u16(text, f[1].0, f[1].1);
            let r = parse_u16(text, f[2].0, f[2].1);
            let c = parse_i16_text(text, f[3].0, f[3].1);
            match (l, r, c) {
                (Some(l), Some(r), Some(c)) => {
                    if f[0].0 < f[0].1 {
                        let surface = sub_vec(text, f[0].0, f[0].1);
                        let feature = if f.len() == 4 {
                            Vec::new()
                        } else {
                            proof {
                                assert(crate::text::ranges_view(f@)[4] == (
                                    f@[4].0 as int,
                                    f@[4].1 as int,
                                ));
                            }
                            sub_vec(text, f[4].0, hi)
                        };
                        proof {
                            if f.len() == 4 {
                                assert(feature@ =~= Seq::<char>::empty());
                            }
                        }
                        let e = RawWordEntry {
                            surface,
                            param: WordParam { left_id: l, right_id: r, word_cost: c },
                            feature,
                        };
                        entries.push(e);
                        proof {
                            assert(entries@.map_values(|e: RawWordEntry| e.spec()) =~= prev.push(
                                e.spec(),
                            ));
                        }
                    }
                },
                _ => {
                    proof {
                        assert(line_entry(text@, lo as int, hi0 as int) is None);
                        assert(csv_entries(text@, lsv.take(li + 1)) is None);
                        lemma_csv_none_prefix(text@, lsv, li + 1);
                    }
                    return Err(VibratoError::InvalidFormat(source));
                },
            }
        }
        li += 1;
    }
    proof {
        assert(lsv.take(ls@.len() as int) =~= lsv);
    }
    Ok(entries)
}

/// Lexicon of words.
#[derive(Clone, Debug)]
pub struct Lexicon {
    pub(crate) surfaces: Vec<Vec<char>>,
    pub(crate) params: Vec<WordParam>,
    pub(crate) features: WordFeatures,
    pub(crate) lex_type: LexType,
}

impl Lexicon {
    /// The surfaces of the words, indexed by word id.
    pub closed spec fn spec_surfaces(&self) -> Seq<Seq<char>> {
        Seq::new(self.surfaces@.len(), |i: int| self.surfaces@[i]@)
    }

    /// The parameters of the words, indexed by word id.
    pub closed spec fn spec_params(&self) -> Seq<WordParam> {
        self.params@
    }

    /// The features of the words, indexed by word id.
    pub closed spec fn spec_features(&self) -> Seq<Seq<char>> {
        self.features@
    }

    pub closed spec fn spec_lex_type(&self) -> LexType {
        self.lex_type
    }

    /// The number of words.
    pub open spec fn spec_len(&self) -> int {
        self.spec_params().len() as int
    }

    pub open spec fn wf(&self) -> bool {
        &&& self.spec_surfaces().len() == self.spec_len()
        &&& self.spec_features().len() == self.spec_len()
        &&& self.spec_len() <= u32::MAX
        &&& forall|i: int| 0 <= i < self.spec_len() ==> #[trigger] self.spec_surfaces()[i].len() > 0
    }

    /// Whether all connection ids are below the given bounds.
    pub open spec fn ids_within(&self, num_left: int, num_right: int) -> bool {
        forall|i: int|
            0 <= i < self.spec_len() ==> (#[trigger] self.spec_params()[i]).left_id < num_left
                && self.spec_params()[i].right_id < num_right
    }

    /// Builds a lexicon of the entries, the `i`-th with word id `i`.
    pub fn from_entries(entries: &Vec<RawWordEntry>, lex_type: LexType) -> (r: Result<
        Lexicon,
        VibratoError,
    >)
        requires
            forall|i: int| 0 <= i < entries@.len() ==> (#[trigger] entries@[i]).surface@.len() > 0,
        ensures
            match r {
                Ok(lex) => {
                    &&& lex.wf()
                    &&& lex.spec_lex_type() == lex_type
                    &&& lex.spec_len() == entries@.len()
                    &&& forall|i: int|
                        0 <= i < entries@.len() ==> lex.spec_surfaces()[i]
                            == (#[trigger] entries@[i]).surface@ && lex.spec_params()[i]
                            == entries@[i].param && lex.spec_features()[i] == entries@[i].feature@
                },
                Err(e) => entries@.len() > u32::MAX && e == VibratoError::InvalidArgument(
                    Source::Lexicon,
                ),
            },
    {
        if entries.len() > 0xFFFF_FFFF {
            return Err(VibratoError::InvalidArgument(Source::Lexicon));
        }
        let mut surfaces: Vec<Vec<char>> = Vec::new();
        let mut params: Vec<WordParam> = Vec::new();
        let mut features: Vec<String> = Vec::new();
        let mut i: usize = 0;
        while i < entries.len()
            invariant
                i <= entries@.len(),
                surfaces@.len() == i,
                params@.len() == i,
                features@.len() == i,
                forall|k: int|
                    0 <= k < i ==> (#[trigger] surfaces@[k])@ == entries@[k].surface@ && params@[k]
                        == entries@[k].param && features@[k]@ == entries@[k].feature@,
            decreases entries@.len() - i,
        {
            let e = &entries[i];
            surfaces.push(crate::text::sub_vec(&e.surface, 0, e.surface.len()));
            proof {
                assert(e.surface@.subrange(0, e.surface@.len() as int) =~= e.surface@);
            }
            params.push(e.param);
            features.push(chars_to_string(&e.feature));
            i += 1;
        }
        let wfs = WordFeatures::new(features);
        let lex = Lexicon { surfaces, params, features: wfs, lex_type };
        proof {
            assert(lex.spec_features() == wfs@);
            assert forall|k: int| 0 <= k < entries@.len() implies lex.spec_surfaces()[k]
                == (#[trigger] entries@[k]).surface@ && lex.spec_params()[k] == entries@[k].param
                && lex.spec_features()[k] == entries@[k].feature@ by {
                assert(wfs@[k] == features@[k]@);
                assert(surfaces@[k]@ == entries@[k].surface@);
            }
            assert forall|k: int| 0 <= k < lex.spec_len() implies #[trigger] lex.spec_surfaces()[k].len()
                > 0 by {
                assert(lex.spec_surfaces()[k] == entries@[k].surface@);
            }
        }
        Ok(lex)
    }

    /// Builds a lexicon from the text of a lexicon file.
    pub fn from_chars(text: &Vec<char>, lex_type: LexType) -> (r: Result<Lexicon, VibratoError>)
        ensures
            match r {
                Ok(lex) => {
                    &&& lex.wf()
                    &&& lex.spec_lex_type() == lex_type
                    &&& csv_spec(text@) matches Some(es) && es.len() == lex.spec_len()
                        && forall|i: int|
                        0 <= i < es.len() ==> (#[trigger] es[i]).0 == lex.spec_surfaces()[i]
                            && es[i].1 == lex.spec_params()[i] && es[i].2
                            == lex.spec_features()[i]
                },
                Err(e) => (csv_spec(text@) is None && e == VibratoError::InvalidFormat(Source::Lexicon))
                    || (csv_spec(text@) is Some && csv_spec(text@).unwrap().len() > u32::MAX && e
                    == VibratoError::InvalidArgument(Source::Lexicon)),
            },
    {
        let entries = parse_csv(text, Source::Lexicon)?;
        proof {
            crate::text::lemma_line_ranges_bounds(text@, 0, text@.len() as int);
            lemma_csv_surfaces_nonempty(text@, line_ranges(text@, 0, text@.len() as int));
            assert forall|i: int| 0 <= i < entries@.len() implies (#[trigger] entries@[i]).surface@.len()
                > 0 by {
                assert(entries@.map_values(|e: RawWordEntry| e.spec())[i] == entries@[i].spec());
            }
        }
        let lex = Self::from_entries(&entries, lex_type)?;
        proof {
            let es = csv_spec(text@).unwrap();
            assert forall|i: int| 0 <= i < es.len() implies (#[trigger] es[i]).0
                == lex.spec_surfaces()[i] && es[i].1 == lex.spec_params()[i] && es[i].2
                == lex.spec_features()[i] by {
                assert(es[i] == entries@[i].spec());
            }
        }
        Ok(lex)
    }

    /// Returns the number of words.
    pub fn len(&self) -> (n: usize)
        requires
            self.wf(),
        ensures
            n == self.spec_len(),
    {
        self.params.len()
    }

    /// Builds a lexicon of its parts, the `i`-th of each for word id `i`;
    /// `None` unless they have one length, fitting word ids, and no surface
    /// is empty.
    pub fn from_parts(
        surfaces: Vec<Vec<char>>,
        params: Vec<WordParam>,
        features: Vec<Vec<char>>,
        lex_type: LexType,
    ) -> (r: Option<Lexicon>)
        ensures
            match r {
                Some(l) => {
                    &&& l.spec_surfaces() == crate::dictionary::layout::texts_view(surfaces@)
                    &&& l.spec_params() == params@
                    &&& l.spec_features() == crate::dictionary::layout::texts_view(features@)
                    &&& l.spec_lex_type() == lex_type
                    &&& l.wf()
                },
                None => !(surfaces@.len() == params@.len() && features@.len() == params@.len()
                    && params@.len() <= u32::MAX && forall|i: int|
                    0 <= i < surfaces@.len() ==> (#[trigger] surfaces@[i])@.len() > 0),
            },
    {
        if surfaces.len() != params.len() || features.len() != params.len() || params.len()
            > 0xFFFF_FFFF {
            return None;
        }
        let mut i: usize = 0;
        while i < surfaces.len()
            invariant
                i <= surfaces@.len(),
                forall|k: int| 0 <= k < i ==> (#[trigger] surfaces@[k])@.len() > 0,
            decreases surfaces@.len() - i,
        {
            if surfaces[i].len() == 0 {
                return None;
            }
            i += 1;
        }
        let strings = crate::dictionary::layout::strings_of_texts(&features);
        proof {
            assert(crate::dictionary::layout::strings_view(strings@).len() == strings@.len());
            assert(crate::dictionary::layout::texts_view(features@).len() == features@.len());
            assert(strings@.len() == features@.len());
        }
        let ghost sv = strings@;
        let feats = WordFeatures::new(strings);
        let l = Lexicon { surfaces, params, features: feats, lex_type };
        proof {
            assert(l.spec_surfaces() =~= crate::dictionary::layout::texts_view(surfaces@));
            assert(l.spec_features() =~= crate::dictionary::layout::texts_view(features@)) by {
                assert forall|k: int| 0 <= k < features@.len() implies #[trigger] l.spec_features()[k] == features@[k]@ by {
                    assert(crate::dictionary::layout::strings_view(sv)[k] == features@[k]@);
                    assert(feats@[k] == sv[k]@);
                }
            }
        }
        Some(l)
    }

    /// The surfaces of the words.
    pub fn surfaces(&self) -> (r: &Vec<Vec<char>>)
        ensures
            crate::dictionary::layout::texts_view(r@) == self.spec_surfaces(),
    {
        proof {
            assert(crate::dictionary::layout::texts_view(self.surfaces@) =~= self.spec_surfaces());
        }
        &self.surfaces
    }

    /// The parameters of the words.
    pub fn params(&self) -> (r: &Vec<WordParam>)
        ensures
            r@ == self.spec_params(),
    {
        &self.params
    }

    /// The features of the words, as characters.
    pub fn feature_texts(&self) -> (r: Vec<Vec<char>>)
        requires
            self.wf(),
        ensures
            crate::dictionary::layout::texts_view(r@) == self.spec_features(),
    {
        let mut r: Vec<Vec<char>> = Vec::new();
        let n = self.features.len();
        let mut i: usize = 0;
        while i < n
            invariant
                n == self.spec_features().len(),
                i <= n,
                r@.len() == i,
                forall|k: int| 0 <= k < i ==> #[trigger] r@[k]@ == self.spec_features()[k],
            decreases n - i,
        {
            r.push(crate::text::str_chars(self.features.get(i)));
            i += 1;
        }
        proof {
            assert(crate::dictionary::layout::texts_view(r@) =~= self.spec_features());
        }
        r
    }

    /// The length of the surface of a word.
    pub fn surface_len(&self, word_id: usize) -> (n: usize)
        requires
            self.wf(),
            word_id < self.spec_len(),
        ensures
            n == self.spec_surfaces()[word_id as int].len(),
    {
        self.surfaces[word_id].len()
    }

    /// Gets the parameter of a word.
    pub fn word_param(&self, word_id: usize) -> (p: WordParam)
        requires
            word_id < self.spec_len(),
        ensures
            p == self.spec_params()[word_id as int],
    {
        self.params[word_id]
    }

    /// Gets the feature of a word.
    pub fn word_feature(&self, word_id: usize) -> (f: &str)
        requires
            self.wf(),
            word_id < self.spec_len(),
        ensures
            f@ == self.spec_features()[word_id as int],
    {
        self.features.get(word_id)
    }

    /// Returns the type of the lexicon.
    pub fn lex_type(&self) -> (t: LexType)
        ensures
            t == self.spec_lex_type(),
    {
        self.lex_type
    }

    /// Whether the surface of word `word_id` is a prefix of `chars[start..]`.
    pub fn matches_at(&self, word_id: usize, chars: &Vec<char>, start: usize) -> (b: bool)
        requires
            self.wf(),
            word_id < self.spec_len(),
            start <= chars@.len(),
        ensures
            b == (start + self.spec_surfaces()[word_id as int].len() <= chars@.len()
                && chars@.subrange(
                start as int,
                start + self.spec_surfaces()[word_id as int].len(),
            ) == self.spec_surfaces()[word_id as int]),
    {
        let w = &self.surfaces[word_id];
        proof {
            assert(w@ == self.spec_surfaces()[word_id as int]);
        }
        if w.len() > chars.len() - start {
            return false;
        }
        crate::text::slice_eq_exec(chars, start, start + w.len(), w)
    }

    /// Checks whether all connection ids are below the given bounds.
    pub fn verify(&self, num_left: usize, num_right: usize) -> (b: bool)
        requires
            self.wf(),
        ensures
            b == self.ids_within(num_left as int, num_right as int),
    {
        let mut i: usize = 0;
        while i < self.params.len()
            invariant
                i <= self.params@.len(),
                forall|k: int|
                    0 <= k < i ==> (#[trigger] self.spec_params()[k]).left_id < num_left
                        && self.spec_params()[k].right_id < num_right,
            decreases self.params@.len() - i,
        {
            let p = self.params[i];
            assert(self.spec_params()[i as int] == p);
            if p.left_id as usize >= num_left || p.right_id as usize >= num_right {
                return false;
            }
            i += 1;
        }
        true
    }

    /// Replaces the connection ids of every word by `left[id]` and `right[id]`.
    pub fn map_connection_ids(&mut self, left: &Vec<u16>, right: &Vec<u16>)
        requires
            old(self).wf(),
            old(self).ids_within(left@.len() as int, right@.len() as int),
        ensures
            final(self).wf(),
            final(self).spec_len() == old(self).spec_len(),
            final(self).spec_surfaces() == old(self).spec_surfaces(),
            final(self).spec_features() == old(self).spec_features(),
            final(self).spec_lex_type() == old(self).spec_lex_type(),
            forall|i: int|
                0 <= i < old(self).spec_len() ==> (#[trigger] final(self).spec_params()[i])
                    == (WordParam {
                    left_id: left@[old(self).spec_params()[i].left_id as int],
                    right_id: right@[old(self).spec_params()[i].right_id as int],
                    word_cost: old(self).spec_params()[i].word_cost,
                }),
    {
        let n = self.params.len();
        let mut i: usize = 0;
        while i < n
            invariant
                n == self.params@.len(),
                n == old(self).params@.len(),
                i <= n,
                self.surfaces == old(self).surfaces,
                self.features == old(self).features,
                self.lex_type == old(self).lex_type,
                old(self).ids_within(left@.len() as int, right@.len() as int),
                forall|k: int| i <= k < n ==> self.params@[k] == old(self).params@[k],
                forall|k: int|
                    0 <= k < i ==> (#[trigger] self.params@[k]) == (WordParam {
                        left_id: left@[old(self).params@[k].left_id as int],
                        right_id: right@[old(self).params@[k].right_id as int],
                        word_cost: old(self).params@[k].word_cost,
                    }),
            decreases n - i,
        {
            let p = self.params[i];
            proof {
                assert(old(self).spec_params()[i as int] == p);
            }
            let q = WordParam {
                left_id: left[p.left_id as usize],
                right_id: right[p.right_id as usize],
                word_cost: p.word_cost,
            };
            self.params.set(i, q);
            i += 1;
        }
    }
}

proof fn lemma_csv_none_prefix(s: Seq<char>, ls: Seq<(int, int)>, k: int)
    requires
        0 <= k <= ls.len(),
        csv_entries(s, ls.take(k)) is None,
    ensures
        csv_entries(s, ls) is None,
    decreases ls.len() - k,
{
    if k < ls.len() {
        assert(ls.take(k + 1).drop_last() =~= ls.take(k));
        lemma_csv_none_prefix(s, ls, k + 1);
    } else {
        assert(ls.take(k) =~= ls);
    }
}

proof fn lemma_csv_surfaces_nonempty(s: Seq<char>, ls: Seq<(int, int)>)
    requires
        forall|k: int| 0 <= k < ls.len() ==> 0 <= (#[trigger] ls[k]).0 <= ls[k].1 <= s.len(),
    ensures
        csv_entries(s, ls) matches Some(es) ==> forall|i: int|
            0 <= i < es.len() ==> (#[trigger] es[i]).0.len() > 0,
    decreases ls.len(),
{
    if ls.len() > 0 {
        assert forall|k: int| 0 <= k < ls.drop_last().len() implies 0 <= (
        #[trigger] ls.drop_last()[k]).0 <= ls.drop_last()[k].1 <= s.len() by {
            assert(ls.drop_last()[k] == ls[k]);
        }
        lemma_csv_surfaces_nonempty(s, ls.drop_last());
        assert(ls.last() == ls[ls.len() - 1]);
        lemma_line_entry_surface(s, ls.last().0, ls.last().1);
    }
}

proof fn lemma_line_entry_surface(s: Seq<char>, lo: int, hi0: int)
    requires
        0 <= lo <= hi0 <= s.len(),
    ensures
        line_entry(s, lo, hi0) matches Some(Some(e)) ==> e.0.len() > 0,
{
    let hi = strip_cr(s, lo, hi0);
    if lo < hi && 0 <= lo {
        crate::text::lemma_split_ranges_bounds(s, ',', lo, hi);
    }
}

} // verus!
