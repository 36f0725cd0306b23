//! Handler of unknown words defined in `unk.def`.
use vstd::prelude::*;

use crate::dictionary::character::{lemma_name_index, name_index, CharProperty};
use crate::dictionary::lexicon::{csv_spec, parse_csv, EntrySpec, RawWordEntry, WordParam};
use crate::errors::{Source, VibratoError};
use crate::text::chars_to_string;

verus! {

/// An entry of `unk.def`: the parameters of unknown words of a category.
#[derive(Clone, Debug)]
pub struct UnkEntry {
    pub cate_id: u16,
    pub left_id: u16,
    pub right_id: u16,
    pub word_cost: i16,
    pub feature: String,
}

/// Handler of unknown words.
#[derive(Clone, Debug)]
pub struct UnkHandler {
    pub(crate) offsets: Vec<usize>,
    pub(crate) entries: Vec<UnkEntry>,
}

impl UnkHandler {
    /// The first entry of each category, and the number of entries at the end.
    pub closed spec fn spec_offsets(&self) -> Seq<usize> {
        self.offsets@
    }

    pub closed spec fn spec_cate_ids(&self) -> Seq<u16> {
        self.entries@.map_values(|e: UnkEntry| e.cate_id)
    }

    pub closed spec fn spec_params(&self) -> Seq<WordParam> {
        self.entries@.map_values(
            |e: UnkEntry| WordParam { left_id: e.left_id, right_id: e.right_id, word_cost: e.word_cost },
        )
    }

    pub closed spec fn spec_features(&self) -> Seq<Seq<char>> {
        self.entries@.map_values(|e: UnkEntry| e.feature@)
    }

    /// The number of entries.
    pub open spec fn spec_len(&self) -> int {
        self.spec_params().len() as int
    }

    /// The entries of category `c` are those in `[offsets[c], offsets[c + 1])`.
    pub open spec fn wf(&self, num_categories: int) -> bool {
        &&& self.spec_offsets().len() == num_categories + 1
        &&& self.spec_offsets()[0] == 0
        &&& self.spec_offsets()[num_categories] == self.spec_len()
        &&& forall|c: int|
            0 <= c < num_categories ==> #[trigger] self.spec_offsets()[c] <= self.spec_offsets()[c
                + 1]
        &&& forall|k: int|
            0 <= k < self.spec_len() ==> #[trigger] self.spec_cate_ids()[k] < num_categories
                && self.spec_offsets()[self.spec_cate_ids()[k] as int] <= k < self.spec_offsets()[self.spec_cate_ids()[k]
                + 1]
        &&& self.spec_cate_ids().len() == self.spec_len()
        &&& self.spec_features().len() == self.spec_len()
        &&& self.spec_len() <= u32::MAX
    }

    /// Whether all connection ids are below the given bounds.
    pub open spec fn ids_within(&self, num_left: int, num_right: int) -> bool {
        forall|i: int|
            0 <= i < self.spec_len() ==> (#[trigger] self.spec_params()[i]).left_id < num_left
                && self.spec_params()[i].right_id < num_right
    }

    /// The range of the entries of category `cate_id`.
    pub fn entry_range(&self, cate_id: usize) -> (r: (usize, usize))
        requires
            self.wf(self.spec_offsets().len() - 1),
            cate_id + 1 < self.spec_offsets().len(),
        ensures
            r.0 == self.spec_offsets()[cate_id as int],
            r.1 == self.spec_offsets()[cate_id + 1],
            r.0 <= r.1 <= self.spec_len(),
    {
        proof {
            lemma_offsets_mono(self, self.spec_offsets().len() - 1, cate_id + 1);
        }
        let n = self.offsets.len();
        assert(cate_id + 1 < n);
        (self.offsets[cate_id], self.offsets[cate_id + 1])
    }

    /// Gets the parameter of an entry.
    pub fn word_param(&self, word_id: usize) -> (p: WordParam)
        requires
            word_id < self.spec_len(),
        ensures
            p == self.spec_params()[word_id as int],
    {
        let e = &self.entries[word_id];
        WordParam { left_id: e.left_id, right_id: e.right_id, word_cost: e.word_cost }
    }

    /// Gets the feature of an entry.
    pub fn word_feature(&self, word_id: usize) -> (f: &str)
        requires
            word_id < self.spec_len(),
        ensures
            f@ == self.spec_features()[word_id as int],
    {
        self.entries[word_id].feature.as_str()
    }

    /// Builds a handler of its parts: the offsets of the categories and,
    /// for each entry, its category, parameter and feature; `None` unless
    /// the entry parts have one length.
    pub fn from_parts(
        offsets: Vec<usize>,
        cate_ids: Vec<u16>,
        params: Vec<WordParam>,
        features: Vec<Vec<char>>,
    ) -> (r: Option<Self>)
        ensures
            match r {
                Some(h) => {
                    &&& h.spec_offsets() == offsets@
                    &&& h.spec_cate_ids() == cate_ids@
                    &&& h.spec_params() == params@
                    &&& h.spec_features() == crate::dictionary::layout::texts_view(features@)
                },
                None => !(cate_ids@.len() == params@.len() && features@.len() == params@.len()),
            },
    {
        if cate_ids.len() != params.len() || features.len() != params.len() {
            return None;
        }
        let mut entries: Vec<UnkEntry> = Vec::new();
        let mut i: usize = 0;
        while i < params.len()
            invariant
                cate_ids@.len() == params@.len(),
                features@.len() == params@.len(),
                i <= params@.len(),
                entries@.len() == i,
                forall|k: int|
                    0 <= k < i ==> (#[trigger] entries@[k]).cate_id == cate_ids@[k] && entries@[k].left_id
                        == params@[k].left_id && entries@[k].right_id == params@[k].right_id
                        && entries@[k].word_cost == params@[k].word_cost && entries@[k].feature@
                        == features@[k]@,
            decreases params@.len() - i,
        {
            let p = params[i];
            entries.push(
                UnkEntry {
                    cate_id: cate_ids[i],
                    left_id: p.left_id,
                    right_id: p.right_id,
                    word_cost: p.word_cost,
                    feature: chars_to_string(&features[i]),
                },
            );
            i += 1;
        }
        let h = UnkHandler { offsets, entries };
        proof {
            assert(h.spec_cate_ids() =~= cate_ids@);
            assert(h.spec_params() =~= params@);
            assert(h.spec_features() =~= crate::dictionary::layout::texts_view(features@));
        }
        Some(h)
    }

    /// Checks the consistency of the handler with `n` categories.
    pub fn check_wf(&self, n: usize) -> (b: bool)
        ensures
            b == self.wf(n as int),
    {
        let len = self.entries.len();
        if self.offsets.len() == 0 || self.offsets.len() - 1 != n || len > 0xFFFF_FFFF {
            return false;
        }
        if self.offsets[0] != 0 || self.offsets[n] != len {
            return false;
        }
        let mut c: usize = 0;
        while c < n
            invariant
                self.offsets@.len() == n + 1,
                c <= n,
                forall|d: int| 0 <= d < c ==> #[trigger] self.spec_offsets()[d] <= self.spec_offsets()[d + 1],
            decreases n - c,
        {
            if self.offsets[c] > self.offsets[c + 1] {
                return false;
            }
            c += 1;
        }
        let mut k: usize = 0;
        while k < len
            invariant
                len == self.entries@.len(),
                self.offsets@.len() == n + 1,
                k <= len,
                forall|j: int|
                    0 <= j < k ==> #[trigger] self.spec_cate_ids()[j] < n && self.spec_offsets()[self.spec_cate_ids()[j] as int]
                        <= j < self.spec_offsets()[self.spec_cate_ids()[j] + 1],
            decreases len - k,
        {
            let cid = self.entries[k].cate_id as usize;
            proof {
                assert(self.spec_cate_ids()[k as int] == cid);
            }
            if cid >= n || self.offsets[cid] > k || k >= self.offsets[cid + 1] {
                return false;
            }
            k += 1;
        }
        true
    }

    /// The offsets of the categories.
    pub fn offsets(&self) -> (r: &Vec<usize>)
        ensures
            r@ == self.spec_offsets(),
    {
        &self.offsets
    }

    /// The categories, parameters and features of the entries.
    pub fn entry_parts(&self) -> (r: (Vec<u16>, Vec<WordParam>, Vec<Vec<char>>))
        ensures
            r.0@ == self.spec_cate_ids(),
            r.1@ == self.spec_params(),
            crate::dictionary::layout::texts_view(r.2@) == self.spec_features(),
    {
        let mut cates: Vec<u16> = Vec::new();
        let mut params: Vec<WordParam> = Vec::new();
        let mut feats: Vec<Vec<char>> = Vec::new();
        let mut i: usize = 0;
        while i < self.entries.len()
            invariant
                i <= self.entries@.len(),
                cates@ == self.spec_cate_ids().take(i as int),
                params@ == self.spec_params().take(i as int),
                feats@.len() == i,
                forall|k: int| 0 <= k < i ==> #[trigger] feats@[k]@ == self.spec_features()[k],
            decreases self.entries@.len() - i,
        {
            let e = &self.entries[i];
            cates.push(e.cate_id);
            params.push(WordParam { left_id: e.left_id, right_id: e.right_id, word_cost: e.word_cost });
            feats.push(crate::text::str_chars(e.feature.as_str()));
            proof {
                assert(cates@ =~= self.spec_cate_ids().take(i + 1));
                assert(params@ =~= self.spec_params().take(i + 1));
            }
            i += 1;
        }
        proof {
            assert(cates@ =~= self.spec_cate_ids());
            assert(params@ =~= self.spec_params());
            assert(crate::dictionary::layout::texts_view(feats@) =~= self.spec_features());
        }
        (cates, params, feats)
    }

    /// Checks whether all connection ids are below the given bounds.
    pub fn verify(&self, num_left: usize, num_right: usize) -> (b: bool)
        ensures
            b == self.ids_within(num_left as int, num_right as int),
    {
        let mut i: usize = 0;
        while i < self.entries.len()
            invariant
                i <= self.entries@.len(),
                forall|k: int|
                    0 <= k < i ==> (#[trigger] self.spec_params()[k]).left_id < num_left
                        && self.spec_params()[k].right_id < num_right,
            decreases self.entries@.len() - i,
        {
            let e = &self.entries[i];
            assert(self.spec_params()[i as int].left_id == e.left_id);
            assert(self.spec_params()[i as int].right_id == e.right_id);
            if e.left_id as usize >= num_left || e.right_id as usize >= num_right {
                return false;
            }
            i += 1;
        }
        true
    }

    /// Replaces the connection ids of every entry by `left[id]` and `right[id]`.
    pub fn map_connection_ids(&mut self, left: &Vec<u16>, right: &Vec<u16>)
        requires
            old(self).ids_within(left@.len() as int, right@.len() as int),
        ensures
            final(self).spec_offsets() == old(self).spec_offsets(),
            final(self).spec_cate_ids() == old(self).spec_cate_ids(),
            final(self).spec_features() == old(self).spec_features(),
            final(self).spec_len() == old(self).spec_len(),
            forall|i: int|
                0 <= i < old(self).spec_len() ==> (#[trigger] final(self).spec_params()[i])
                    == (WordParam {
                    left_id: left@[old(self).spec_params()[i].left_id as int],
                    right_id: right@[old(self).spec_params()[i].right_id as int],
                    word_cost: old(self).spec_params()[i].word_cost,
                }),
    {
        let n = self.entries.len();
        let mut i: usize = 0;
        while i < n
            invariant
                n == self.entries@.len(),
                n == old(self).entries@.len(),
                i <= n,
                self.offsets == old(self).offsets,
                old(self).ids_within(left@.len() as int, right@.len() as int),
                forall|k: int|
                    i <= k < n ==> #[trigger] self.entries@[k] == old(self).entries@[k],
                forall|k: int|
                    0 <= k < n ==> (#[trigger] self.entries@[k]).cate_id
                        == old(self).entries@[k].cate_id && self.entries@[k].feature
                        == old(self).entries@[k].feature && self.entries@[k].word_cost
                        == old(self).entries@[k].word_cost,
                forall|k: int|
                    0 <= k < i ==> (#[trigger] self.entries@[k]).left_id == left@[old(
                        self,
                    ).entries@[k].left_id as int] && self.entries@[k].right_id == right@[old(
                        self,
                    ).entries@[k].right_id as int],
            decreases n - i,
        {
            proof {
                assert(old(self).spec_params()[i as int].left_id == old(self).entries@[i as int].left_id);
                assert(old(self).spec_params()[i as int].right_id == old(self).entries@[i as int].right_id);
            }
            let l = left[self.entries[i].left_id as usize];
            let r = right[self.entries[i].right_id as usize];
            let e = UnkEntry {
                cate_id: self.entries[i].cate_id,
                left_id: l,
                right_id: r,
                word_cost: self.entries[i].word_cost,
                feature: self.entries[i].feature.clone(),
            };
            self.entries.set(i, e);
            i += 1;
        }
        proof {
            assert(self.spec_cate_ids() =~= old(self).spec_cate_ids());
            assert(self.spec_features() =~= old(self).spec_features());
        }
    }

    /// Creates a new instance from the text of `unk.def`, whose rows are those
    /// of a lexicon file with a category name in place of the surface.
    pub fn from_chars(text: &Vec<char>, char_prop: &CharProperty) -> (r: Result<
        UnkHandler,
        VibratoError,
    >)
        requires
            char_prop.wf(),
        ensures
            r matches Ok(h) ==> h.wf(char_prop.spec_categories().len() as int) && csv_spec(text@) is Some && ({
                let es = csv_spec(text@).unwrap();
                let cs = unk_cates(char_prop.spec_categories(), es);
                let ord = grouped_rows(cs, char_prop.spec_categories().len() as int);
                &&& h.spec_len() == ord.len()
                &&& forall|k: int|
                    0 <= k < ord.len() ==> h.spec_cate_ids()[k] == cs[#[trigger] ord[k]]
                        && h.spec_params()[k] == es[ord[k]].1 && h.spec_features()[k] == es[ord[k]].2
            }),
            r matches Err(_) ==> crate::dictionary::lexicon::csv_spec(text@) is None
                || crate::dictionary::lexicon::csv_spec(text@).unwrap().len() > u32::MAX || exists|
                i: int,
            |
                0 <= i < crate::dictionary::lexicon::csv_spec(text@).unwrap().len() && forall|
                    c: int,
                |
                    0 <= c < char_prop.spec_categories().len() ==> char_prop.spec_categories()[c]
                        != (#[trigger] crate::dictionary::lexicon::csv_spec(text@).unwrap()[i]).0,
    {
        let rows = parse_csv(text, Source::UnkDef)?;
        let ghost specs = rows@.map_values(|e: RawWordEntry| e.spec());
        let num = char_prop.num_categories();
        let mut cates: Vec<u16> = Vec::new();
        let mut i: usize = 0;
        while i < rows.len()
            invariant
                char_prop.wf(),
                num == char_prop.spec_categories().len(),
                specs == rows@.map_values(|e: RawWordEntry| e.spec()),
                crate::dictionary::lexicon::csv_spec(text@) == Some(specs),
                i <= rows@.len(),
                cates@.len() == i,
                forall|k: int| 0 <= k < i ==> (#[trigger] cates@[k]) < num,
                forall|k: int| 0 <= k < i ==> #[trigger] cates@[k] == unk_cates(char_prop.spec_categories(), specs)[k],
            decreases rows@.len() - i,
        {
            match char_prop.cate_id(&rows[i].surface) {
                Some(id) => {
                    proof {
                        assert(specs[i as int].0 == rows@[i as int].surface@);
                        lemma_name_index(char_prop.spec_categories(), specs[i as int].0, id as int);
                    }
                    cates.push(id as u16);
                },
                None => {
                    proof {
                        assert(specs[i as int].0 == rows@[i as int].surface@);
                        assert(forall|c: int|
                            0 <= c < char_prop.spec_categories().len()
                                ==> char_prop.spec_categories()[c] != (#[trigger] specs[i as int]).0);
                    }
                    return Err(VibratoError::InvalidFormat(Source::UnkDef));
                },
            }
            i += 1;
        }
        let ghost cs = unk_cates(char_prop.spec_categories(), specs);
        proof {
            assert(cates@ =~= cs);
        }
        let mut offsets: Vec<usize> = Vec::new();
        let mut entries: Vec<UnkEntry> = Vec::new();
        let mut c: usize = 0;
        proof {
            lemma_count_zero(cates@, cates@.len() as int);
        }
        while c < num
            invariant
                num == char_prop.spec_categories().len(),
                num <= crate::dictionary::character::MAX_CATEGORIES,
                cates@.len() == rows@.len(),
                forall|k: int| 0 <= k < cates@.len() ==> (#[trigger] cates@[k]) < num,
                c <= num,
                offsets@.len() == c,
                c > 0 ==> offsets@[0] == 0,
                forall|d: int| 0 <= d < c ==> #[trigger] offsets@[d] <= entries@.len(),
                forall|d: int| 0 <= d && d + 1 < c ==> #[trigger] offsets@[d] <= offsets@[d + 1],
                forall|k: int|
                    0 <= k < entries@.len() ==> (#[trigger] entries@[k]).cate_id < c
                        && offsets@[entries@[k].cate_id as int] <= k && (entries@[k].cate_id + 1
                        < c ==> k < offsets@[entries@[k].cate_id + 1]),
                entries@.len() == count_below(cates@, c as int, cates@.len() as int),
                cates@ == cs,
                specs == rows@.map_values(|e: RawWordEntry| e.spec()),
                entries@.len() == grouped_rows(cs, c as int).len(),
                forall|j: int|
                    0 <= j < entries@.len() ==> entry_of(#[trigger] entries@[j], specs, cs, grouped_rows(cs, c as int)[j]),
            decreases num - c,
        {
            let ghost before = entries@.len();
            proof {
                if c > 0 {
                    assert(offsets@[c - 1] <= entries@.len());
                }
            }
            let ghost old_offsets = offsets@;
            offsets.push(entries.len());
            proof {
                lemma_count_zero(cates@, cates@.len() as int);
                assert forall|d: int| 0 <= d && d + 1 < c + 1 implies #[trigger] offsets@[d] <= offsets@[d
                    + 1] by {
                    if d + 1 < c {
                        assert(offsets@[d] == old_offsets[d]);
                        assert(offsets@[d + 1] == old_offsets[d + 1]);
                    } else {
                        assert(offsets@[d] == old_offsets[d]);
                    }
                }
            }
            let mut k: usize = 0;
            while k < rows.len()
                invariant
                    num == char_prop.spec_categories().len(),
                    num <= crate::dictionary::character::MAX_CATEGORIES,
                    cates@.len() == rows@.len(),
                    c < num,
                    k <= rows@.len(),
                    offsets@.len() == c + 1,
                    offsets@[c as int] == before,
                    c > 0 ==> offsets@[0] == 0,
                    c == 0 ==> before == 0,
                    forall|d: int| 0 <= d <= c ==> #[trigger] offsets@[d] <= entries@.len(),
                    forall|d: int| 0 <= d && d + 1 < c + 1 ==> #[trigger] offsets@[d] <= offsets@[d + 1],
                    forall|k2: int|
                        0 <= k2 < entries@.len() ==> (#[trigger] entries@[k2]).cate_id < c + 1
                            && offsets@[entries@[k2].cate_id as int] <= k2 && (entries@[k2].cate_id
                            + 1 < c + 1 ==> k2 < offsets@[entries@[k2].cate_id + 1]),
                    before == count_below(cates@, c as int, cates@.len() as int),
                    entries@.len() == before + count_eq(cates@, c as int, k as int),
                    cates@ == cs,
                    specs == rows@.map_values(|e: RawWordEntry| e.spec()),
                    entries@.len() == (grouped_rows(cs, c as int) + rows_of(cs, c as int, k as int)).len(),
                    forall|j: int|
                        0 <= j < entries@.len() ==> entry_of(
                            #[trigger] entries@[j],
                            specs,
                            cs,
                            (grouped_rows(cs, c as int) + rows_of(cs, c as int, k as int))[j],
                        ),
                decreases rows@.len() - k,
            {
                let ghost e0 = entries@;
                let ghost ord0 = grouped_rows(cs, c as int) + rows_of(cs, c as int, k as int);
                let ghost ord1 = grouped_rows(cs, c as int) + rows_of(cs, c as int, k + 1);
                proof {
                    if cs[k as int] == c {
                        assert(ord1 =~= ord0.push(k as int));
                    } else {
                        assert(ord1 =~= ord0);
                    }
                }
                if cates[k] as usize == c {
                    let row = &rows[k];
                    proof {
                        assert(specs[k as int] == rows@[k as int].spec());
                    }
                    entries.push(
                        UnkEntry {
                            cate_id: c as u16,
                            left_id: row.param.left_id,
                            right_id: row.param.right_id,
                            word_cost: row.param.word_cost,
                            feature: chars_to_string(&row.feature),
                        },
                    );
                    proof {
                        assert forall|j: int| 0 <= j < entries@.len() implies entry_of(
                            #[trigger] entries@[j],
                            specs,
                            cs,
                            ord1[j],
                        ) by {
                            if j < e0.len() {
                                assert(entries@[j] == e0[j]);
                            }
                        }
                    }
                } else {
                    proof {
                        assert forall|j: int| 0 <= j < entries@.len() implies entry_of(
                            #[trigger] entries@[j],
                            specs,
                            cs,
                            ord1[j],
                        ) by {
                            assert(entries@[j] == e0[j]);
                        }
                    }
                }
                k += 1;
            }
            proof {
                lemma_count_step(cates@, c as int, cates@.len() as int);
                assert(grouped_rows(cs, c + 1) =~= grouped_rows(cs, c as int) + rows_of(cs, c as int, cates@.len() as int));
            }
            c += 1;
        }
        proof {
            lemma_count_all(cates@, num as int, cates@.len() as int);
        }
        if entries.len() > 0xFFFF_FFFF {
            return Err(VibratoError::InvalidFormat(Source::UnkDef));
        }
        offsets.push(entries.len());
        let h = UnkHandler { offsets, entries };
        proof {
            let ord = grouped_rows(cs, num as int);
            assert forall|k: int| 0 <= k < ord.len() implies h.spec_cate_ids()[k] == cs[#[trigger] ord[k]]
                && h.spec_params()[k] == specs[ord[k]].1 && h.spec_features()[k] == specs[ord[k]].2 by {
                assert(entry_of(h.entries@[k], specs, cs, ord[k]));
            }
            assert forall|k: int| 0 <= k < h.spec_len() implies #[trigger] h.spec_cate_ids()[k] < num
                && h.spec_offsets()[h.spec_cate_ids()[k] as int] <= k < h.spec_offsets()[h.spec_cate_ids()[k]
                + 1] by {
                assert(h.spec_cate_ids()[k] == h.entries@[k].cate_id);
            }
        }
        Ok(h)
    }
}

/// The rows among the first `n` whose category is `c`, in order.
pub open spec fn rows_of(cates: Seq<u16>, c: int, n: int) -> Seq<int>
    decreases n,
{
    if n <= 0 {
        Seq::empty()
    } else {
        rows_of(cates, c, n - 1) + if cates[n - 1] == c {
            seq![n - 1]
        } else {
            Seq::<int>::empty()
        }
    }
}

/// The rows whose category is below `c`, grouped by category and in order
/// within each.
pub open spec fn grouped_rows(cates: Seq<u16>, c: int) -> Seq<int>
    decreases c,
{
    if c <= 0 {
        Seq::empty()
    } else {
        grouped_rows(cates, c - 1) + rows_of(cates, c - 1, cates.len() as int)
    }
}

/// The category of each row of `unk.def`: the index of its name.
pub open spec fn unk_cates(names: Seq<Seq<char>>, es: Seq<EntrySpec>) -> Seq<u16> {
    es.map_values(|e: EntrySpec| name_index(names, e.0) as u16)
}

proof fn lemma_rows_of_bounds(cates: Seq<u16>, c: int, n: int)
    requires
        0 <= n <= cates.len(),
    ensures
        forall|j: int| 0 <= j < rows_of(cates, c, n).len() ==> 0 <= #[trigger] rows_of(cates, c, n)[j] < n
            && cates[rows_of(cates, c, n)[j]] == c,
    decreases n,
{
    if n > 0 {
        lemma_rows_of_bounds(cates, c, n - 1);
        let a = rows_of(cates, c, n - 1);
        assert forall|j: int| 0 <= j < rows_of(cates, c, n).len() implies 0 <= #[trigger] rows_of(cates, c, n)[j] < n
            && cates[rows_of(cates, c, n)[j]] == c by {
            if j < a.len() {
                assert(rows_of(cates, c, n)[j] == a[j]);
            }
        }
    }
}

pub proof fn lemma_grouped_bounds(cates: Seq<u16>, c: int)
    ensures
        forall|j: int| 0 <= j < grouped_rows(cates, c).len() ==> 0 <= #[trigger] grouped_rows(cates, c)[j] < cates.len(),
    decreases c,
{
    if c > 0 {
        lemma_grouped_bounds(cates, c - 1);
        lemma_rows_of_bounds(cates, c - 1, cates.len() as int);
        let a = grouped_rows(cates, c - 1);
        let b = rows_of(cates, c - 1, cates.len() as int);
        assert forall|j: int| 0 <= j < grouped_rows(cates, c).len() implies 0 <= #[trigger] grouped_rows(cates, c)[j] < cates.len() by {
            if j < a.len() {
                assert(grouped_rows(cates, c)[j] == a[j]);
            } else {
                assert(grouped_rows(cates, c)[j] == b[j - a.len()]);
            }
        }
    }
}

/// The entry holds the category, parameter and feature of row `i`.
pub open spec fn entry_of(e: UnkEntry, es: Seq<EntrySpec>, cs: Seq<u16>, i: int) -> bool {
    &&& e.cate_id == cs[i]
    &&& (WordParam { left_id: e.left_id, right_id: e.right_id, word_cost: e.word_cost }) == es[i].1
    &&& e.feature@ == es[i].2
}

/// The number of `k < n` with `cates[k] < c`.
pub open spec fn count_below(cates: Seq<u16>, c: int, n: int) -> int
    decreases n,
{
    if n <= 0 {
        0
    } else {
        count_below(cates, c, n - 1) + if cates[n - 1] < c {
            1int
        } else {
            0
        }
    }
}

/// The number of `k < n` with `cates[k] == c`.
pub open spec fn count_eq(cates: Seq<u16>, c: int, n: int) -> int
    decreases n,
{
    if n <= 0 {
        0
    } else {
        count_eq(cates, c, n - 1) + if cates[n - 1] == c {
            1int
        } else {
            0
        }
    }
}

proof fn lemma_count_step(cates: Seq<u16>, c: int, n: int)
    ensures
        count_below(cates, c + 1, n) == count_below(cates, c, n) + count_eq(cates, c, n),
    decreases n,
{
    if n > 0 {
        lemma_count_step(cates, c, n - 1);
    }
}

proof fn lemma_count_zero(cates: Seq<u16>, n: int)
    ensures
        count_below(cates, 0, n) == 0,
    decreases n,
{
    if n > 0 {
        lemma_count_zero(cates, n - 1);
    }
}

proof fn lemma_count_all(cates: Seq<u16>, c: int, n: int)
    requires
        0 <= n <= cates.len(),
        forall|k: int| 0 <= k < cates.len() ==> (#[trigger] cates[k]) < c,
    ensures
        count_below(cates, c, n) == n,
    decreases n,
{
    if n > 0 {
        lemma_count_all(cates, c, n - 1);
    }
}

pub proof fn lemma_offsets_mono(h: &UnkHandler, n: int, c: int)
    requires
        h.wf(n),
        0 <= c <= n,
    ensures
        h.spec_offsets()[c] <= h.spec_offsets()[n],
    decreases n - c,
{
    if c < n {
        lemma_offsets_mono(h, n, c + 1);
    }
}

/// The offsets never decrease.
pub proof fn lemma_offsets_ordered(h: &UnkHandler, n: int, i: int, j: int)
    requires
        h.wf(n),
        0 <= i <= j <= n,
    ensures
        h.spec_offsets()[i] <= h.spec_offsets()[j],
    decreases j - i,
{
    if i < j {
        lemma_offsets_ordered(h, n, i + 1, j);
    }
}

/// An entry in the range of category `b` belongs to category `b`.
pub proof fn lemma_entry_category(h: &UnkHandler, n: int, b: int, k: int)
    requires
        h.wf(n),
        0 <= b < n,
        h.spec_offsets()[b] <= k < h.spec_offsets()[b + 1],
    ensures
        h.spec_cate_ids()[k] == b,
{
    lemma_offsets_ordered(h, n, b + 1, n);
    let c = h.spec_cate_ids()[k] as int;
    if c < b {
        lemma_offsets_ordered(h, n, c + 1, b);
    } else if c > b {
        lemma_offsets_ordered(h, n, b + 1, c);
    }
}

} // verus!
