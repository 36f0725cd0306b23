//! Character categories defined in `char.def`.
use vstd::prelude::*;

use crate::errors::{Source, VibratoError};
use crate::dictionary::layout::texts_view;
use crate::text::{
    hex_value, int_text, line_ranges, lines, parse_hex, parse_unsigned, ranges_view, slice_eq_exec,
    split_words, strip_cr, strip_cr_exec, sub_vec, word_ranges,
};

verus! {

/// The maximum number of character categories.
pub const MAX_CATEGORIES: usize = 18;

/// Information of a character defined in `char.def`.
#[derive(Clone, Copy, PartialEq, Eq, Structural, Debug)]
pub struct CharInfo {
    /// Set of the ids of the categories of the character, as bits.
    pub cate_idset: u32,
    /// The id of the first (base) category, which decides the unknown words.
    pub base_id: u32,
    /// Whether unknown words are generated even where a dictionary word matches.
    pub invoke: bool,
    /// Whether characters of the category are grouped into one unknown word.
    pub group: bool,
    /// The maximum length of unknown words generated from the category.
    pub length: u16,
}

/// A range `[start, end)` of character codes mapped to one information.
#[derive(Clone, Copy, PartialEq, Eq, Structural, Debug)]
pub struct CharRange {
    pub start: u32,
    pub end: u32,
    pub info: CharInfo,
}

/// Mapping from characters to their information.
#[derive(Clone, Debug)]
pub struct CharProperty {
    pub(crate) ranges: Vec<CharRange>,
    pub(crate) default_info: CharInfo,
    pub(crate) categories: Vec<Vec<char>>,
}

/// The information of `code` given by `ranges[..k]`: the last range that
/// contains it wins, and a code in none gets `default`.
pub open spec fn info_at(ranges: Seq<CharRange>, default: CharInfo, code: int, k: int) -> CharInfo
    decreases k,
{
    if k <= 0 {
        default
    } else if ranges[k - 1].start <= code < ranges[k - 1].end {
        ranges[k - 1].info
    } else {
        info_at(ranges, default, code, k - 1)
    }
}

/// Whether `info` is consistent with `num_categories` categories.
pub open spec fn info_wf(info: CharInfo, num_categories: int) -> bool {
    &&& info.base_id < num_categories
    &&& info.cate_idset < 0x40000
}

/// What `char.def` defines so far: the names of the categories (`DEFAULT`
/// first), their definitions `(invoke, group, length)` if given, and the
/// code ranges with their category names.
pub type CharDefState = (
    Seq<Seq<char>>,
    Seq<Option<(bool, bool, u16)>>,
    Seq<(u32, u32, Seq<Seq<char>>)>,
);

/// The view of the range lines read so far.
pub open spec fn raws_view(v: Seq<(u32, u32, Vec<Vec<char>>)>) -> Seq<(u32, u32, Seq<Seq<char>>)> {
    v.map_values(|r: (u32, u32, Vec<Vec<char>>)| (r.0, r.1, texts_view(r.2@)))
}

/// The name of the default category.
pub open spec fn default_name_spec() -> Seq<char> {
    seq!['D', 'E', 'F', 'A', 'U', 'L', 'T']
}

/// The first index of `name` in `names`, or `names.len()`.
pub open spec fn name_index(names: Seq<Seq<char>>, name: Seq<char>) -> int
    decreases names.len(),
{
    if names.len() == 0 {
        0
    } else if names[0] == name {
        0
    } else {
        1 + name_index(names.drop_first(), name)
    }
}

/// The flag written `1` or `0`.
pub open spec fn flag_spec(s: Seq<char>, lo: int, hi: int) -> Option<bool> {
    if hi == lo + 1 && s[lo] == '1' {
        Some(true)
    } else if hi == lo + 1 && s[lo] == '0' {
        Some(false)
    } else {
        None
    }
}

/// The number written in decimal, if at most `max`.
pub open spec fn uint_opt(s: Seq<char>, lo: int, hi: int, max: int) -> Option<int> {
    match int_text(s, lo, hi, false) {
        Some(x) => if x <= max {
            Some(x)
        } else {
            None
        },
        None => None,
    }
}

/// The number written in hexadecimal (at least one digit), if at most `max`.
pub open spec fn hex_opt(s: Seq<char>, lo: int, hi: int, max: int) -> Option<int> {
    match hex_value(s, lo, hi) {
        Some(x) => if lo < hi && x <= max {
            Some(x)
        } else {
            None
        },
        None => None,
    }
}

/// The position after the repeated `0x` prefixes at `lo`.
pub open spec fn skip_hex(s: Seq<char>, lo: int, hi: int) -> int
    decreases hi - lo,
{
    if hi - lo >= 2 && s[lo] == '0' && s[lo + 1] == 'x' {
        skip_hex(s, lo + 2, hi)
    } else {
        lo
    }
}

/// The first position from `k` where `..` starts, or where less than two
/// characters are left.
pub open spec fn dots_from(s: Seq<char>, k: int, hi: int) -> int
    decreases hi - k,
{
    if hi - k >= 2 && !(s[k] == '.' && s[k + 1] == '.') {
        dots_from(s, k + 1, hi)
    } else {
        k
    }
}

/// The code range `0xSTART` or `0xSTART..0xEND` of `s[lo..hi]`, as
/// `[start, end)`.
pub open spec fn code_range_spec(s: Seq<char>, lo: int, hi: int) -> Option<(u32, u32)> {
    let k = dots_from(s, lo, hi);
    if hi - k >= 2 {
        match hex_opt(s, skip_hex(s, lo, k), k, 0xFFFF) {
            Some(start) => {
                let m0 = dots_from(s, k + 2, hi);
                let m = if hi - m0 >= 2 {
                    m0
                } else {
                    hi
                };
                match hex_opt(s, skip_hex(s, k + 2, m), m, 0xFFFF) {
                    Some(last) => if start > last {
                        None
                    } else {
                        Some((start as u32, (last + 1) as u32))
                    },
                    None => None,
                }
            },
            None => None,
        }
    } else {
        match hex_opt(s, skip_hex(s, lo, hi), hi, 0xFFFF) {
            Some(start) => Some((start as u32, (start + 1) as u32)),
            None => None,
        }
    }
}

/// The category names of a range line: its words from the second one up to
/// a comment.
pub open spec fn cate_words(s: Seq<char>, ws: Seq<(int, int)>, wi: int) -> Seq<Seq<char>>
    decreases ws.len() - wi,
{
    if wi < 0 || wi >= ws.len() || s[ws[wi].0] == '#' {
        Seq::empty()
    } else {
        seq![s.subrange(ws[wi].0, ws[wi].1)] + cate_words(s, ws, wi + 1)
    }
}

/// The state after the line `s[lo..hi0]` of `char.def`, or `None` if the
/// line breaks the format. A line is blank, a comment, a category
/// definition `NAME INVOKE GROUP LENGTH`, or a range `0xSTART[..0xEND]`
/// followed by category names.
pub open spec fn chardef_line(s: Seq<char>, lo: int, hi0: int, st: CharDefState) -> Option<CharDefState> {
    let hi = strip_cr(s, lo, hi0);
    let ws = word_ranges(s, lo, hi);
    if ws.len() == 0 {
        Some(st)
    } else {
        let b0 = ws[0].0;
        let e0 = ws[0].1;
        if s[b0] == '#' {
            Some(st)
        } else if e0 - b0 >= 2 && s[b0] == '0' && s[b0 + 1] == 'x' {
            if ws.len() < 2 {
                None
            } else {
                match code_range_spec(s, b0, e0) {
                    Some((a, b)) => {
                        let cs = cate_words(s, ws, 1);
                        if cs.len() == 0 {
                            None
                        } else {
                            Some((st.0, st.1, st.2.push((a, b, cs))))
                        }
                    },
                    None => None,
                }
            }
        } else if ws.len() < 4 {
            None
        } else {
            match (
                flag_spec(s, ws[1].0, ws[1].1),
                flag_spec(s, ws[2].0, ws[2].1),
                uint_opt(s, ws[3].0, ws[3].1, 15),
            ) {
                (Some(inv), Some(g), Some(len)) => {
                    let name = s.subrange(b0, e0);
                    let id = name_index(st.0, name);
                    let def = Some((inv, g, len as u16));
                    if id < st.0.len() {
                        Some((st.0, st.1.update(id, def), st.2))
                    } else if st.0.len() >= MAX_CATEGORIES {
                        None
                    } else {
                        Some((st.0.push(name), st.1.push(def), st.2))
                    }
                },
                _ => None,
            }
        }
    }
}

/// The state after the lines `ls` of `s`.
pub open spec fn chardef_lines(s: Seq<char>, ls: Seq<(int, int)>) -> Option<CharDefState>
    decreases ls.len(),
{
    if ls.len() == 0 {
        Some((seq![default_name_spec()], seq![None], Seq::empty()))
    } else {
        match chardef_lines(s, ls.drop_last()) {
            Some(st) => chardef_line(s, ls.last().0, ls.last().1, st),
            None => None,
        }
    }
}

/// The set of the categories `cs`, as bits, if all are defined.
pub open spec fn cate_set(names: Seq<Seq<char>>, defs: Seq<Option<(bool, bool, u16)>>, cs: Seq<Seq<char>>) -> Option<u32>
    decreases cs.len(),
{
    if cs.len() == 0 {
        Some(0u32)
    } else {
        match cate_set(names, defs, cs.drop_last()) {
            Some(acc) => {
                let id = name_index(names, cs.last());
                if id < names.len() && defs[id] is Some {
                    Some(acc | (1u32 << (id as u32)))
                } else {
                    None
                }
            },
            None => None,
        }
    }
}

/// The range of a range line: its first category decides the information.
pub open spec fn range_info(
    names: Seq<Seq<char>>,
    defs: Seq<Option<(bool, bool, u16)>>,
    raw: (u32, u32, Seq<Seq<char>>),
) -> Option<CharRange> {
    let first = name_index(names, raw.2[0]);
    if first < names.len() {
        match (defs[first], cate_set(names, defs, raw.2)) {
            (Some((inv, g, len)), Some(set)) => Some(
                CharRange {
                    start: raw.0,
                    end: raw.1,
                    info: CharInfo { cate_idset: set, base_id: first as u32, invoke: inv, group: g, length: len },
                },
            ),
            _ => None,
        }
    } else {
        None
    }
}

/// The ranges of the range lines `raws`, if all their categories are defined.
pub open spec fn ranges_of(
    names: Seq<Seq<char>>,
    defs: Seq<Option<(bool, bool, u16)>>,
    raws: Seq<(u32, u32, Seq<Seq<char>>)>,
) -> Option<Seq<CharRange>>
    decreases raws.len(),
{
    if raws.len() == 0 {
        Some(Seq::empty())
    } else {
        match ranges_of(names, defs, raws.drop_last()) {
            Some(rs) => match range_info(names, defs, raws.last()) {
                Some(r) => Some(rs.push(r)),
                None => None,
            },
            None => None,
        }
    }
}

/// What the text of `char.def` defines: the ranges with their
/// information, that of the codes in no range (the `DEFAULT` category,
/// which must be defined) and the names of the categories.
pub open spec fn chardef_spec(s: Seq<char>) -> Option<(Seq<CharRange>, CharInfo, Seq<Seq<char>>)> {
    match chardef_lines(s, line_ranges(s, 0, s.len() as int)) {
        Some((names, defs, raws)) => match defs[0] {
            Some((inv, g, len)) => match ranges_of(names, defs, raws) {
                Some(rs) => Some(
                    (rs, CharInfo { cate_idset: 1, base_id: 0, invoke: inv, group: g, length: len }, names),
                ),
                None => None,
            },
            None => None,
        },
        None => None,
    }
}

pub proof fn lemma_name_index(names: Seq<Seq<char>>, name: Seq<char>, r: int)
    requires
        0 <= r <= names.len(),
        r < names.len() ==> names[r] == name,
        forall|j: int| 0 <= j < r ==> names[j] != name,
    ensures
        name_index(names, name) == r,
    decreases names.len(),
{
    if names.len() > 0 && r > 0 {
        assert(names[0] != name);
        let t = names.drop_first();
        assert forall|j: int| 0 <= j < r - 1 implies t[j] != name by {
            assert(t[j] == names[j + 1]);
        }
        if r - 1 < t.len() {
            assert(t[r - 1] == names[r]);
        }
        lemma_name_index(t, name, r - 1);
    }
}

proof fn lemma_chardef_prefix(s: Seq<char>, ls: Seq<(int, int)>, n: int)
    requires
        0 <= n <= ls.len(),
        chardef_lines(s, ls.take(n)) is None,
    ensures
        chardef_lines(s, ls) is None,
    decreases ls.len() - n,
{
    if n < ls.len() {
        assert(ls.take(n + 1).drop_last() =~= ls.take(n));
        lemma_chardef_prefix(s, ls, n + 1);
    } else {
        assert(ls.take(n) =~= ls);
    }
}

proof fn lemma_ranges_prefix(
    names: Seq<Seq<char>>,
    defs: Seq<Option<(bool, bool, u16)>>,
    raws: Seq<(u32, u32, Seq<Seq<char>>)>,
    n: int,
)
    requires
        0 <= n <= raws.len(),
        ranges_of(names, defs, raws.take(n)) is None,
    ensures
        ranges_of(names, defs, raws) is None,
    decreases raws.len() - n,
{
    if n < raws.len() {
        assert(raws.take(n + 1).drop_last() =~= raws.take(n));
        lemma_ranges_prefix(names, defs, raws, n + 1);
    } else {
        assert(raws.take(n) =~= raws);
    }
}

proof fn lemma_cate_set_prefix(
    names: Seq<Seq<char>>,
    defs: Seq<Option<(bool, bool, u16)>>,
    cs: Seq<Seq<char>>,
    n: int,
)
    requires
        0 <= n <= cs.len(),
        cate_set(names, defs, cs.take(n)) is None,
    ensures
        cate_set(names, defs, cs) is None,
    decreases cs.len() - n,
{
    if n < cs.len() {
        assert(cs.take(n + 1).drop_last() =~= cs.take(n));
        lemma_cate_set_prefix(names, defs, cs, n + 1);
    } else {
        assert(cs.take(n) =~= cs);
    }
}

impl CharProperty {
    pub closed spec fn spec_ranges(&self) -> Seq<CharRange> {
        self.ranges@
    }

    pub closed spec fn spec_default(&self) -> CharInfo {
        self.default_info
    }

    /// The names of the categories, indexed by category id.
    pub closed spec fn spec_categories(&self) -> Seq<Seq<char>> {
        Seq::new(self.categories@.len(), |i: int| self.categories@[i]@)
    }

    /// The information of character `c`; a code beyond `0xFFFF` gets that of code 0.
    pub open spec fn spec_char_info(&self, c: char) -> CharInfo {
        let code = if (c as u32) > 0xFFFF {
            0
        } else {
            c as u32 as int
        };
        info_at(self.spec_ranges(), self.spec_default(), code, self.spec_ranges().len() as int)
    }

    pub open spec fn wf(&self) -> bool {
        &&& 0 < self.spec_categories().len() <= MAX_CATEGORIES
        &&& info_wf(self.spec_default(), self.spec_categories().len() as int)
        &&& forall|k: int|
            0 <= k < self.spec_ranges().len() ==> info_wf(
                #[trigger] self.spec_ranges()[k].info,
                self.spec_categories().len() as int,
            )
    }

    pub proof fn lemma_info_wf(&self, c: char)
        requires
            self.wf(),
        ensures
            info_wf(self.spec_char_info(c), self.spec_categories().len() as int),
    {
        let code = if (c as u32) > 0xFFFF {
            0
        } else {
            c as u32 as int
        };
        lemma_info_at_wf(
            self.spec_ranges(),
            self.spec_default(),
            code,
            self.spec_ranges().len() as int,
            self.spec_categories().len() as int,
        );
    }

    /// Gets the information of a character.
    pub fn char_info(&self, c: char) -> (r: CharInfo)
        ensures
            r == self.spec_char_info(c),
    {
        let code: u32 = if (c as u32) > 0xFFFF {
            0
        } else {
            c as u32
        };
        let mut k = self.ranges.len();
        assert(self.spec_char_info(c) == info_at(
            self.ranges@,
            self.default_info,
            code as int,
            self.ranges@.len() as int,
        ));
        while k > 0
            invariant
                k <= self.ranges@.len(),
                self.spec_char_info(c) == info_at(
                    self.ranges@,
                    self.default_info,
                    code as int,
                    self.ranges@.len() as int,
                ),
                info_at(self.ranges@, self.default_info, code as int, self.ranges@.len() as int)
                    == info_at(self.ranges@, self.default_info, code as int, k as int),
            decreases k,
        {
            let r = self.ranges[k - 1];
            if r.start <= code && code < r.end {
                proof {
                    assert(info_at(self.ranges@, self.default_info, code as int, k as int) == r.info);
                }
                return r.info;
            }
            k -= 1;
        }
        self.default_info
    }

    /// Gets the id of a category by its name.
    pub fn cate_id(&self, category: &Vec<char>) -> (r: Option<u32>)
        requires
            self.wf(),
        ensures
            match r {
                Some(id) => id < self.spec_categories().len() && self.spec_categories()[id as int]
                    == category@ && forall|j: int|
                    0 <= j < id ==> self.spec_categories()[j] != category@,
                None => forall|j: int|
                    0 <= j < self.spec_categories().len() ==> self.spec_categories()[j]
                        != category@,
            },
    {
        let n = self.categories.len();
        let mut i: usize = 0;
        while i < n
            invariant
                n == self.categories@.len(),
                i <= n,
                n <= MAX_CATEGORIES,
                forall|j: int| 0 <= j < i ==> self.spec_categories()[j] != category@,
            decreases n - i,
        {
            let name = &self.categories[i];
            if slice_eq_exec(name, 0, name.len(), category) {
                proof {
                    assert(name@.subrange(0, name@.len() as int) =~= name@);
                }
                return Some(i as u32);
            } else {
                proof {
                    assert(name@.subrange(0, name@.len() as int) =~= name@);
                }
            }
            i += 1;
        }
        None
    }

    /// Builds a character property of its parts.
    pub fn from_parts(ranges: Vec<CharRange>, default_info: CharInfo, categories: Vec<Vec<char>>) -> (r: Self)
        ensures
            r.spec_ranges() == ranges@,
            r.spec_default() == default_info,
            r.spec_categories() == crate::dictionary::layout::texts_view(categories@),
    {
        let r = CharProperty { ranges, default_info, categories };
        proof {
            assert(r.spec_categories() =~= crate::dictionary::layout::texts_view(categories@));
        }
        r
    }

    /// The ranges of codes with their information.
    pub fn ranges(&self) -> (r: &Vec<CharRange>)
        ensures
            r@ == self.spec_ranges(),
    {
        &self.ranges
    }

    /// The information of the codes in no range.
    pub fn default_info(&self) -> (r: CharInfo)
        ensures
            r == self.spec_default(),
    {
        self.default_info
    }

    /// The names of the categories.
    pub fn categories(&self) -> (r: &Vec<Vec<char>>)
        ensures
            crate::dictionary::layout::texts_view(r@) == self.spec_categories(),
    {
        proof {
            assert(crate::dictionary::layout::texts_view(self.categories@) =~= self.spec_categories());
        }
        &self.categories
    }

    /// Checks the consistency of the categories and the information of
    /// every range (see `wf`).
    pub fn check_wf(&self) -> (b: bool)
        ensures
            b == self.wf(),
    {
        let n = self.categories.len();
        if n == 0 || n > MAX_CATEGORIES {
            return false;
        }
        if !check_info(self.default_info, n) {
            return false;
        }
        let mut k: usize = 0;
        while k < self.ranges.len()
            invariant
                n == self.spec_categories().len(),
                k <= self.spec_ranges().len(),
                forall|j: int| 0 <= j < k ==> info_wf(#[trigger] self.spec_ranges()[j].info, n as int),
            decreases self.spec_ranges().len() - k,
        {
            if !check_info(self.ranges[k].info, n) {
                return false;
            }
            k += 1;
        }
        true
    }

    /// Returns the number of categories.
    pub fn num_categories(&self) -> (n: usize)
        ensures
            n == self.spec_categories().len(),
    {
        self.categories.len()
    }

    /// Creates a new instance from the text of `char.def`.
    ///
    /// # Errors
    ///
    /// When the text breaks the format (see `chardef_spec`).
    pub fn from_chars(text: &Vec<char>) -> (r: Result<CharProperty, VibratoError>)
        ensures
            match r {
                Ok(p) => p.wf() && chardef_spec(text@) == Some(
                    (p.spec_ranges(), p.spec_default(), p.spec_categories()),
                ),
                Err(e) => e == VibratoError::InvalidFormat(Source::CharDef) && chardef_spec(text@) is None,
            },
    {
        let err = VibratoError::InvalidFormat(Source::CharDef);
        let mut names: Vec<Vec<char>> = Vec::new();
        let mut defs: Vec<Option<(bool, bool, u16)>> = Vec::new();
        names.push(default_name());
        defs.push(None);
        let mut raw_ranges: Vec<(u32, u32, Vec<Vec<char>>)> = Vec::new();
        let lines = lines(text);
        let ghost lsv = ranges_view(lines@);
        proof {
            assert(texts_view(names@) =~= seq![default_name_spec()]);
            assert(raws_view(raw_ranges@) =~= Seq::empty());
            assert(lsv.take(0) =~= Seq::empty());
        }
        let mut li: usize = 0;
        while li < lines.len()
            invariant
                err == VibratoError::InvalidFormat(Source::CharDef),
                names@.len() == defs@.len(),
                1 <= names@.len() <= MAX_CATEGORIES,
                forall|k: int| 0 <= k < raw_ranges@.len() ==> (#[trigger] raw_ranges@[k]).2@.len() > 0,
                forall|k: int|
                    0 <= k < lines@.len() ==> (#[trigger] lines@[k]).0 <= lines@[k].1
                        <= text@.len(),
                lsv == ranges_view(lines@),
                lsv == line_ranges(text@, 0, text@.len() as int),
                li <= lines@.len(),
                chardef_lines(text@, lsv.take(li as int)) == Some(
                    (texts_view(names@), defs@, raws_view(raw_ranges@)),
                ),
            decreases lines@.len() - li,
        {
            let ghost st = (texts_view(names@), defs@, raws_view(raw_ranges@));
            let (lo, hi0) = lines[li];
            proof {
                assert(lsv[li as int] == (lo as int, hi0 as int));
                assert(lsv.take(li + 1).drop_last() =~= lsv.take(li as int));
                assert(lsv.take(li + 1).last() == (lo as int, hi0 as int));
            }
            li += 1;
            let hi = strip_cr_exec(text, lo, hi0);
            let words = split_words(text, lo, hi);
            let ghost wsv = ranges_view(words@);
            if words.len() == 0 {
                continue;
            }
            let (b0, e0) = words[0];
            proof {
                assert(wsv[0] == (b0 as int, e0 as int));
            }
            if text[b0] == '#' {
                continue;
            }
            let is_range = e0 - b0 >= 2 && text[b0] == '0' && text[b0 + 1] == 'x';
            if !is_range {
                if words.len() < 4 {
                    proof {
                        lemma_chardef_prefix(text@, lsv, li as int);
                    }
                    return Err(err);
                }
                proof {
                    assert(wsv[1] == (words@[1].0 as int, words@[1].1 as int));
                    assert(wsv[2] == (words@[2].0 as int, words@[2].1 as int));
                    assert(wsv[3] == (words@[3].0 as int, words@[3].1 as int));
                }
                let name = sub_vec(text, b0, e0);
                let invoke = match parse_flag(text, words[1].0, words[1].1) {
                    Some(f) => f,
                    None => {
                        proof {
                            lemma_chardef_prefix(text@, lsv, li as int);
                        }
                        return Err(err);
                    },
                };
                let group = match parse_flag(text, words[2].0, words[2].1) {
                    Some(f) => f,
                    None => {
                        proof {
                            lemma_chardef_prefix(text@, lsv, li as int);
                        }
                        return Err(err);
                    },
                };
                let length = match parse_unsigned(text, words[3].0, words[3].1, 15) {
                    Some(v) => v as u16,
                    None => {
                        proof {
                            lemma_chardef_prefix(text@, lsv, li as int);
                        }
                        return Err(err);
                    },
                };
                let id = find_name(&names, &name);
                proof {
                    assert forall|j: int| 0 <= j < id implies texts_view(names@)[j] != name@ by {
                        assert(texts_view(names@)[j] == names@[j]@);
                    }
                    if id < names@.len() {
                        assert(texts_view(names@)[id as int] == names@[id as int]@);
                    }
                    lemma_name_index(texts_view(names@), name@, id as int);
                }
                if id < names.len() {
                    defs.set(id, Some((invoke, group, length)));
                } else {
                    if names.len() >= MAX_CATEGORIES {
                        proof {
                            lemma_chardef_prefix(text@, lsv, li as int);
                        }
                        return Err(err);
                    }
                    names.push(name);
                    defs.push(Some((invoke, group, length)));
                    proof {
                        assert(texts_view(names@) =~= st.0.push(name@));
                    }
                }
            } else {
                if words.len() < 2 {
                    proof {
                        lemma_chardef_prefix(text@, lsv, li as int);
                    }
                    return Err(err);
                }
                let (start, end) = match parse_code_range(text, b0, e0) {
                    Some(p) => p,
                    None => {
                        proof {
                            lemma_chardef_prefix(text@, lsv, li as int);
                        }
                        return Err(err);
                    },
                };
                let mut cates: Vec<Vec<char>> = Vec::new();
                let mut wi: usize = 1;
                proof {
                    assert(texts_view(cates@) + cate_words(text@, wsv, 1) =~= cate_words(text@, wsv, 1));
                }
                while wi < words.len()
                    invariant
                        err == VibratoError::InvalidFormat(Source::CharDef),
                        1 <= wi <= words@.len(),
                        forall|k: int|
                            0 <= k < words@.len() ==> (#[trigger] words@[k]).0 < words@[k].1
                                <= text@.len(),
                        wsv == ranges_view(words@),
                        texts_view(cates@) + cate_words(text@, wsv, wi as int) == cate_words(
                            text@,
                            wsv,
                            1,
                        ),
                    ensures
                        texts_view(cates@) == cate_words(text@, wsv, 1),
                    decreases words@.len() - wi,
                {
                    let (b, e) = words[wi];
                    proof {
                        assert(wsv[wi as int] == (b as int, e as int));
                    }
                    if text[b] == '#' {
                        proof {
                            assert(texts_view(cates@) + Seq::<Seq<char>>::empty() =~= texts_view(cates@));
                        }
                        break;
                    }
                    let ghost before = texts_view(cates@);
                    cates.push(sub_vec(text, b, e));
                    proof {
                        assert(texts_view(cates@) =~= before.push(text@.subrange(b as int, e as int)));
                        assert(texts_view(cates@) + cate_words(text@, wsv, wi + 1) =~= before + cate_words(
                            text@,
                            wsv,
                            wi as int,
                        ));
                    }
                    wi += 1;
                }
                proof {
                    if wi >= words.len() {
                        assert(texts_view(cates@) + Seq::<Seq<char>>::empty() =~= texts_view(cates@));
                    }
                }
                if cates.len() == 0 {
                    proof {
                        lemma_chardef_prefix(text@, lsv, li as int);
                    }
                    return Err(err);
                }
                let ghost before = raws_view(raw_ranges@);
                raw_ranges.push((start, end, cates));
                proof {
                    assert(raws_view(raw_ranges@) =~= before.push((start, end, cate_words(text@, wsv, 1))));
                }
            }
        }
        proof {
            assert(lsv.take(lines@.len() as int) =~= lsv);
        }
        let ghost nv = texts_view(names@);
        let ghost rv = raws_view(raw_ranges@);
        let ghost lines_state = chardef_lines(text@, line_ranges(text@, 0, text@.len() as int));
        proof {
            assert(lines_state == Some((nv, defs@, rv)));
        }
        let num = names.len();
        let default_info = match defs[0] {
            Some((invoke, group, length)) => CharInfo {
                cate_idset: 1,
                base_id: 0,
                invoke,
                group,
                length,
            },
            None => {
                return Err(err);
            },
        };
        let mut ranges: Vec<CharRange> = Vec::new();
        let mut ri: usize = 0;
        proof {
            assert(rv.take(0) =~= Seq::empty());
        }
        while ri < raw_ranges.len()
            invariant
                err == VibratoError::InvalidFormat(Source::CharDef),
                forall|k: int| 0 <= k < raw_ranges@.len() ==> (#[trigger] raw_ranges@[k]).2@.len() > 0,
                names@.len() == defs@.len() == num,
                1 <= num <= MAX_CATEGORIES,
                forall|k: int|
                    0 <= k < ranges@.len() ==> info_wf(#[trigger] ranges@[k].info, num as int),
                nv == texts_view(names@),
                rv == raws_view(raw_ranges@),
                ri <= raw_ranges@.len(),
                ranges_of(nv, defs@, rv.take(ri as int)) == Some(ranges@),
                lines_state == chardef_lines(text@, line_ranges(text@, 0, text@.len() as int)),
                lines_state == Some((nv, defs@, rv)),
                defs@[0] == Some((default_info.invoke, default_info.group, default_info.length)),
                default_info.cate_idset == 1 && default_info.base_id == 0,
            decreases raw_ranges@.len() - ri,
        {
            let cates = &raw_ranges[ri].2;
            let ghost cv = texts_view(cates@);
            proof {
                assert(rv[ri as int] == (raw_ranges@[ri as int].0, raw_ranges@[ri as int].1, cv));
                assert(rv.take(ri + 1).drop_last() =~= rv.take(ri as int));
                assert(rv.take(ri + 1).last() == rv[ri as int]);
                assert(cv[0] == cates@[0]@);
            }
            let first = find_name(&names, &cates[0]);
            proof {
                assert forall|j: int| 0 <= j < first implies nv[j] != cv[0] by {
                    assert(nv[j] == names@[j]@);
                }
                if first < names@.len() {
                    assert(nv[first as int] == names@[first as int]@);
                }
                lemma_name_index(nv, cv[0], first as int);
            }
            if first >= num {
                proof {
                    lemma_ranges_prefix(nv, defs@, rv, ri + 1);
                }
                return Err(err);
            }
            let (invoke, group, length) = match defs[first] {
                Some(d) => d,
                None => {
                    proof {
                        lemma_ranges_prefix(nv, defs@, rv, ri + 1);
                    }
                    return Err(err);
                },
            };
            let mut set: u32 = 0;
            let mut ci: usize = 0;
            proof {
                assert(cv.take(0) =~= Seq::empty());
            }
            while ci < cates.len()
                invariant
                    err == VibratoError::InvalidFormat(Source::CharDef),
                    names@.len() == defs@.len() == num,
                    1 <= num <= MAX_CATEGORIES,
                    set < 0x40000,
                    nv == texts_view(names@),
                    cv == texts_view(cates@),
                    ci <= cates@.len(),
                    rv == raws_view(raw_ranges@),
                    ri < raw_ranges@.len(),
                    ranges_of(nv, defs@, rv.take(ri as int)) == Some(ranges@),
                    rv.take(ri + 1).drop_last() == rv.take(ri as int),
                    rv.take(ri + 1).last() == rv[ri as int],
                    rv[ri as int].2 == cv,
                    cv.len() > 0,
                    name_index(nv, cv[0]) == first,
                    first < num,
                    defs@[first as int] is Some,
                    lines_state == chardef_lines(text@, line_ranges(text@, 0, text@.len() as int)),
                    lines_state == Some((nv, defs@, rv)),
                    defs@[0] is Some,
                    cate_set(nv, defs@, cv.take(ci as int)) == Some(set),
                decreases cates@.len() - ci,
            {
                let id = find_name(&names, &cates[ci]);
                proof {
                    assert(cv[ci as int] == cates@[ci as int]@);
                    assert forall|j: int| 0 <= j < id implies nv[j] != cv[ci as int] by {
                        assert(nv[j] == names@[j]@);
                    }
                    if id < names@.len() {
                        assert(nv[id as int] == names@[id as int]@);
                    }
                    lemma_name_index(nv, cv[ci as int], id as int);
                    assert(cv.take(ci + 1).drop_last() =~= cv.take(ci as int));
                    assert(cv.take(ci + 1).last() == cv[ci as int]);
                }
                if id >= num {
                    proof {
                        lemma_cate_set_prefix(nv, defs@, cv, ci + 1);
                        lemma_ranges_prefix(nv, defs@, rv, ri + 1);
                    }
                    return Err(err);
                }
                if defs[id].is_none() {
                    proof {
                        lemma_cate_set_prefix(nv, defs@, cv, ci + 1);
                        lemma_ranges_prefix(nv, defs@, rv, ri + 1);
                    }
                    return Err(err);
                }
                let bit = bit_of(id);
                proof {
                    lemma_or_bound(set, bit);
                }
                set = set | bit;
                ci += 1;
            }
            proof {
                assert(cv.take(cates@.len() as int) =~= cv);
            }
            ranges.push(
                CharRange {
                    start: raw_ranges[ri].0,
                    end: raw_ranges[ri].1,
                    info: CharInfo { cate_idset: set, base_id: first as u32, invoke, group, length },
                },
            );
            ri += 1;
        }
        proof {
            assert(rv.take(raw_ranges@.len() as int) =~= rv);
        }
        let p = CharProperty { ranges, default_info, categories: names };
        proof {
            assert(p.spec_categories().len() == num);
            assert(p.spec_categories() =~= nv);
            assert forall|k: int| 0 <= k < p.spec_ranges().len() implies info_wf(
                #[trigger] p.spec_ranges()[k].info,
                p.spec_categories().len() as int,
            ) by {
                assert(p.spec_ranges()[k] == ranges@[k]);
            }
        }
        Ok(p)
    }
}

proof fn lemma_info_at_wf(
    ranges: Seq<CharRange>,
    default: CharInfo,
    code: int,
    k: int,
    num: int,
)
    requires
        info_wf(default, num),
        k <= ranges.len(),
        forall|j: int| 0 <= j < ranges.len() ==> info_wf(#[trigger] ranges[j].info, num),
    ensures
        info_wf(info_at(ranges, default, code, k), num),
    decreases k,
{
    if k > 0 {
        lemma_info_at_wf(ranges, default, code, k - 1, num);
    }
}

/// Whether `info` is consistent with `n` categories.
fn check_info(info: CharInfo, n: usize) -> (b: bool)
    ensures
        b == info_wf(info, n as int),
{
    (info.base_id as usize) < n && info.cate_idset < 0x40000
}

/// The bit of category `id`.
fn bit_of(id: usize) -> (b: u32)
    requires
        id < MAX_CATEGORIES,
    ensures
        b == 1u32 << (id as u32),
        b < 0x40000,
{
    let s = id as u32;
    assert(s < 18);
    assert((1u32 << s) < 0x40000) by (bit_vector)
        requires
            s < 18,
    ;
    1u32 << s
}

proof fn lemma_or_bound(a: u32, b: u32)
    requires
        a < 0x40000,
        b < 0x40000,
    ensures
        (a | b) < 0x40000,
{
    assert((a | b) < 0x40000) by (bit_vector)
        requires
            a < 0x40000,
            b < 0x40000,
    ;
}

fn default_name() -> (r: Vec<char>)
    ensures
        r@ == seq!['D', 'E', 'F', 'A', 'U', 'L', 'T'],
{
    let mut r = Vec::new();
    r.push('D');
    r.push('E');
    r.push('F');
    r.push('A');
    r.push('U');
    r.push('L');
    r.push('T');
    r
}

/// The index of `name` in `names`, or `names.len()`.
fn find_name(names: &Vec<Vec<char>>, name: &Vec<char>) -> (r: usize)
    ensures
        r <= names@.len(),
        r < names@.len() ==> names@[r as int]@ == name@,
        forall|j: int| 0 <= j < r ==> names@[j]@ != name@,
{
    let mut i: usize = 0;
    while i < names.len()
        invariant
            i <= names@.len(),
            forall|j: int| 0 <= j < i ==> names@[j]@ != name@,
        decreases names@.len() - i,
    {
        let cand = &names[i];
        let eq = slice_eq_exec(cand, 0, cand.len(), name);
        proof {
            assert(cand@.subrange(0, cand@.len() as int) =~= cand@);
        }
        if eq {
            return i;
        }
        i += 1;
    }
    i
}

/// Reads `"1"` or `"0"`.
fn parse_flag(text: &Vec<char>, lo: usize, hi: usize) -> (r: Option<bool>)
    requires
        lo <= hi <= text@.len(),
    ensures
        r == (if hi == lo + 1 && text@[lo as int] == '1' {
            Some(true)
        } else if hi == lo + 1 && text@[lo as int] == '0' {
            Some(false)
        } else {
            None::<bool>
        }),
{
    if hi > lo && hi - lo == 1 && text[lo] == '1' {
        Some(true)
    } else if hi > lo && hi - lo == 1 && text[lo] == '0' {
        Some(false)
    } else {
        None
    }
}

/// Skips repeated `"0x"` prefixes.
fn skip_hex_prefix(text: &Vec<char>, lo: usize, hi: usize) -> (r: usize)
    requires
        lo <= hi <= text@.len(),
    ensures
        lo <= r <= hi,
        r == skip_hex(text@, lo as int, hi as int),
{
    let mut i = lo;
    while hi - i >= 2 && text[i] == '0' && text[i + 1] == 'x'
        invariant
            lo <= i <= hi <= text@.len(),
            skip_hex(text@, lo as int, hi as int) == skip_hex(text@, i as int, hi as int),
        decreases hi - i,
    {
        i += 2;
    }
    i
}

/// Reads a code range `0xSTART` or `0xSTART..0xEND` as `[start, end)`.
fn parse_code_range(text: &Vec<char>, lo: usize, hi: usize) -> (r: Option<(u32, u32)>)
    requires
        lo <= hi <= text@.len(),
    ensures
        r matches Some((s, e)) ==> s < e <= 0x10000,
        r == code_range_spec(text@, lo as int, hi as int),
{
    let mut k = lo;
    while hi - k >= 2 && !(text[k] == '.' && text[k + 1] == '.')
        invariant
            lo <= k <= hi <= text@.len(),
            dots_from(text@, lo as int, hi as int) == dots_from(text@, k as int, hi as int),
        decreases hi - k,
    {
        k += 1;
    }
    if hi - k >= 2 {
        let s0 = skip_hex_prefix(text, lo, k);
        let start = parse_hex(text, s0, k, 0xFFFF)?;
        let mut m = k + 2;
        while hi - m >= 2 && !(text[m] == '.' && text[m + 1] == '.')
            invariant
                k + 2 <= m <= hi <= text@.len(),
                dots_from(text@, k + 2, hi as int) == dots_from(text@, m as int, hi as int),
            decreases hi - m,
        {
            m += 1;
        }
        let m = if hi - m >= 2 {
            m
        } else {
            hi
        };
        let s1 = skip_hex_prefix(text, k + 2, m);
        let last = parse_hex(text, s1, m, 0xFFFF)?;
        if start > last {
            return None;
        }
        Some((start, last + 1))
    } else {
        let s0 = skip_hex_prefix(text, lo, hi);
        let start = parse_hex(text, s0, hi, 0xFFFF)?;
        Some((start, start + 1))
    }
}

} // verus!
