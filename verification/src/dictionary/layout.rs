//! The fields of the parts of a dictionary image: texts (a count, then one
//! field of character codes per text) and columns of numbers.
use vstd::prelude::*;

use crate::dictionary::image::{char_codes, code_chars, fields_words_fwd, lemma_code_chars, push_field};
use crate::text::chars_to_string;

verus! {

/// The fields of a list of texts.
pub open spec fn texts_fields(ts: Seq<Seq<char>>) -> Seq<Seq<u32>> {
    seq![seq![ts.len() as u32]] + Seq::new(ts.len(), |i: int| char_codes(ts[i]))
}

/// Reads a list of texts at field `i`.
pub open spec fn parse_texts(fs: Seq<Seq<u32>>, i: int) -> Option<(Seq<Seq<char>>, int)> {
    if 0 <= i < fs.len() && fs[i].len() == 1 && i + 1 + fs[i][0] <= fs.len() && forall|k: int|
        0 <= k < fs[i][0] ==> #[trigger] code_chars(fs[i + 1 + k]) is Some {
        Some(
            (
                Seq::new(fs[i][0] as nat, |k: int| code_chars(fs[i + 1 + k]).unwrap()),
                i + 1 + fs[i][0],
            ),
        )
    } else {
        None
    }
}

/// The texts fit the fields: their number and lengths are `u32`s.
pub open spec fn texts_fit(ts: Seq<Seq<char>>) -> bool {
    &&& ts.len() <= u32::MAX
    &&& forall|i: int| 0 <= i < ts.len() ==> (#[trigger] ts[i]).len() <= u32::MAX
}

pub proof fn lemma_parse_texts(pre: Seq<Seq<u32>>, ts: Seq<Seq<char>>, rest: Seq<Seq<u32>>)
    requires
        texts_fit(ts),
    ensures
        parse_texts(pre + texts_fields(ts) + rest, pre.len() as int) == Some(
            (ts, (pre.len() + 1 + ts.len()) as int),
        ),
        texts_fields(ts).len() == 1 + ts.len(),
{
    let fs = pre + texts_fields(ts) + rest;
    let i = pre.len() as int;
    assert(fs[i] == seq![ts.len() as u32]);
    assert forall|k: int| 0 <= k < ts.len() implies #[trigger] fs[i + 1 + k] == char_codes(ts[k]) by {
        assert(fs[i + 1 + k] == texts_fields(ts)[1 + k]);
    }
    assert forall|k: int| 0 <= k < fs[i][0] implies #[trigger] code_chars(fs[i + 1 + k]) is Some by {
        lemma_code_chars(ts[k]);
        assert(fs[i + 1 + k] == char_codes(ts[k]));
    }
    let got = Seq::new(fs[i][0] as nat, |k: int| code_chars(fs[i + 1 + k]).unwrap());
    assert forall|k: int| 0 <= k < ts.len() implies #[trigger] got[k] == ts[k] by {
        lemma_code_chars(ts[k]);
        assert(fs[i + 1 + k] == char_codes(ts[k]));
    }
    assert(got =~= ts);
}

/// The code of an `i16`, shifted to be non-negative.
pub open spec fn i16_code(x: i16) -> u32 {
    (x + 32768) as u32
}

/// The `u16` numbers of a field, if all of them are.
pub open spec fn field_u16s(xs: Seq<u32>) -> Option<Seq<u16>> {
    if forall|k: int| 0 <= k < xs.len() ==> #[trigger] xs[k] <= u16::MAX {
        Some(xs.map_values(|v: u32| v as u16))
    } else {
        None
    }
}

/// The `i16` numbers coded in a field, if all of them are.
pub open spec fn field_i16s(xs: Seq<u32>) -> Option<Seq<i16>> {
    if forall|k: int| 0 <= k < xs.len() ==> #[trigger] xs[k] <= u16::MAX {
        Some(xs.map_values(|v: u32| (v - 32768) as i16))
    } else {
        None
    }
}

/// The flags of a field, if all of them are 0 or 1.
pub open spec fn field_bools(xs: Seq<u32>) -> Option<Seq<bool>> {
    if forall|k: int| 0 <= k < xs.len() ==> #[trigger] xs[k] <= 1 {
        Some(xs.map_values(|v: u32| v == 1))
    } else {
        None
    }
}

/// The field of `u16` numbers.
pub open spec fn u16s_field(xs: Seq<u16>) -> Seq<u32> {
    xs.map_values(|v: u16| v as u32)
}

/// The field of coded `i16` numbers.
pub open spec fn i16s_field(xs: Seq<i16>) -> Seq<u32> {
    xs.map_values(|v: i16| i16_code(v))
}

/// The field of flags.
pub open spec fn bools_field(xs: Seq<bool>) -> Seq<u32> {
    xs.map_values(|v: bool| if v { 1u32 } else { 0u32 })
}

pub proof fn lemma_fields_back(xs16: Seq<u16>, xsi: Seq<i16>, xsb: Seq<bool>)
    ensures
        field_u16s(u16s_field(xs16)) == Some(xs16),
        field_i16s(i16s_field(xsi)) == Some(xsi),
        field_bools(bools_field(xsb)) == Some(xsb),
{
    let a = u16s_field(xs16);
    assert forall|k: int| 0 <= k < a.len() implies #[trigger] a[k] <= u16::MAX by {}
    assert(a.map_values(|v: u32| v as u16) =~= xs16);
    let b = i16s_field(xsi);
    assert forall|k: int| 0 <= k < b.len() implies #[trigger] b[k] <= u16::MAX by {}
    assert(b.map_values(|v: u32| (v - 32768) as i16) =~= xsi);
    let c = bools_field(xsb);
    assert forall|k: int| 0 <= k < c.len() implies #[trigger] c[k] <= 1 by {}
    assert(c.map_values(|v: u32| v == 1) =~= xsb);
}

/// The view of exec texts.
pub open spec fn texts_view(ts: Seq<Vec<char>>) -> Seq<Seq<char>> {
    Seq::new(ts.len(), |i: int| ts[i]@)
}

/// The view of exec strings.
pub open spec fn strings_view(ts: Seq<String>) -> Seq<Seq<char>> {
    Seq::new(ts.len(), |i: int| ts[i]@)
}

/// Reads a list of texts at field `i`.
pub fn read_texts(fs: &Vec<Vec<u32>>, i: usize) -> (r: Option<(Vec<Vec<char>>, usize)>)
    ensures
        match r {
            Some((ts, j)) => parse_texts(fields_view(fs@), i as int) == Some((texts_view(ts@), j as int)),
            None => parse_texts(fields_view(fs@), i as int) is None,
        },
{
    let ghost fv = fields_view(fs@);
    let len = fs.len();
    if i >= len || fs[i].len() != 1 {
        return None;
    }
    let n = fs[i][0] as usize;
    if n > len - i - 1 {
        return None;
    }
    let mut ts: Vec<Vec<char>> = Vec::new();
    let mut k: usize = 0;
    while k < n
        invariant
            fv == fields_view(fs@),
            len == fs@.len(),
            i < len,
            fv[i as int].len() == 1,
            n == fv[i as int][0],
            i + 1 + n <= len,
            k <= n,
            ts@.len() == k,
            forall|m: int| 0 <= m < k ==> #[trigger] code_chars(fv[i + 1 + m]) == Some(ts@[m]@),
        decreases n - k,
    {
        match chars_of_codes(&fs[i + 1 + k]) {
            Some(t) => {
                ts.push(t);
            },
            None => {
                proof {
                    assert(code_chars(fv[i + 1 + k]) is None);
                }
                return None;
            },
        }
        k += 1;
    }
    proof {
        let got = Seq::new(fv[i as int][0] as nat, |m: int| code_chars(fv[i + 1 + m]).unwrap());
        assert(got =~= texts_view(ts@));
    }
    Some((ts, i + 1 + n))
}

/// The view of exec fields.
pub open spec fn fields_view(fs: Seq<Vec<u32>>) -> Seq<Seq<u32>> {
    Seq::new(fs.len(), |i: int| fs[i]@)
}

/// The characters of codes, if all are scalar values.
pub fn chars_of_codes(xs: &Vec<u32>) -> (r: Option<Vec<char>>)
    ensures
        match r {
            Some(t) => code_chars(xs@) == Some(t@),
            None => code_chars(xs@) is None,
        },
{
    let mut t: Vec<char> = Vec::new();
    let mut i: usize = 0;
    while i < xs.len()
        invariant
            i <= xs@.len(),
            forall|k: int| 0 <= k < i ==> vstd::utf8::is_scalar(#[trigger] xs@[k]),
            t@ == xs@.take(i as int).map_values(|v: u32| v as char),
        decreases xs@.len() - i,
    {
        match crate::dictionary::image::char_from_code(xs[i]) {
            Some(c) => {
                t.push(c);
                proof {
                    assert(t@ =~= xs@.take(i + 1).map_values(|v: u32| v as char));
                }
            },
            None => {
                proof {
                    assert(!vstd::utf8::is_scalar(xs@[i as int]));
                    assert(code_chars(xs@) is None);
                }
                return None;
            },
        }
        i += 1;
    }
    proof {
        assert(xs@.take(xs@.len() as int) =~= xs@);
    }
    Some(t)
}

/// Reads a field of `u16` numbers.
pub fn read_u16s(fs: &Vec<Vec<u32>>, i: usize) -> (r: Option<Vec<u16>>)
    ensures
        match r {
            Some(v) => i < fs@.len() && field_u16s(fs@[i as int]@) == Some(v@),
            None => i < fs@.len() ==> field_u16s(fs@[i as int]@) is None,
        },
{
    if i >= fs.len() {
        return None;
    }
    let xs = &fs[i];
    let mut v: Vec<u16> = Vec::new();
    let mut k: usize = 0;
    while k < xs.len()
        invariant
            i < fs@.len(),
            xs@ == fs@[i as int]@,
            k <= xs@.len(),
            forall|m: int| 0 <= m < k ==> #[trigger] xs@[m] <= u16::MAX,
            v@ == xs@.take(k as int).map_values(|x: u32| x as u16),
        decreases xs@.len() - k,
    {
        if xs[k] > 0xFFFF {
            proof {
                assert(field_u16s(xs@) is None);
            }
            return None;
        }
        v.push(xs[k] as u16);
        proof {
            assert(v@ =~= xs@.take(k + 1).map_values(|x: u32| x as u16));
        }
        k += 1;
    }
    proof {
        assert(xs@.take(xs@.len() as int) =~= xs@);
    }
    Some(v)
}

/// Reads a field of coded `i16` numbers.
pub fn read_i16s(fs: &Vec<Vec<u32>>, i: usize) -> (r: Option<Vec<i16>>)
    ensures
        match r {
            Some(v) => i < fs@.len() && field_i16s(fs@[i as int]@) == Some(v@),
            None => i < fs@.len() ==> field_i16s(fs@[i as int]@) is None,
        },
{
    if i >= fs.len() {
        return None;
    }
    let xs = &fs[i];
    let mut v: Vec<i16> = Vec::new();
    let mut k: usize = 0;
    while k < xs.len()
        invariant
            i < fs@.len(),
            xs@ == fs@[i as int]@,
            k <= xs@.len(),
            forall|m: int| 0 <= m < k ==> #[trigger] xs@[m] <= u16::MAX,
            v@ == xs@.take(k as int).map_values(|x: u32| (x - 32768) as i16),
        decreases xs@.len() - k,
    {
        if xs[k] > 0xFFFF {
            proof {
                assert(field_i16s(xs@) is None);
            }
            return None;
        }
        let c = (xs[k] as i32 - 32768) as i16;
        v.push(c);
        proof {
            assert(v@ =~= xs@.take(k + 1).map_values(|x: u32| (x - 32768) as i16));
        }
        k += 1;
    }
    proof {
        assert(xs@.take(xs@.len() as int) =~= xs@);
    }
    Some(v)
}

/// Reads a field of flags.
pub fn read_bools(fs: &Vec<Vec<u32>>, i: usize) -> (r: Option<Vec<bool>>)
    ensures
        match r {
            Some(v) => i < fs@.len() && field_bools(fs@[i as int]@) == Some(v@),
            None => i < fs@.len() ==> field_bools(fs@[i as int]@) is None,
        },
{
    if i >= fs.len() {
        return None;
    }
    let xs = &fs[i];
    let mut v: Vec<bool> = Vec::new();
    let mut k: usize = 0;
    while k < xs.len()
        invariant
            i < fs@.len(),
            xs@ == fs@[i as int]@,
            k <= xs@.len(),
            forall|m: int| 0 <= m < k ==> #[trigger] xs@[m] <= 1,
            v@ == xs@.take(k as int).map_values(|x: u32| x == 1),
        decreases xs@.len() - k,
    {
        if xs[k] > 1 {
            proof {
                assert(field_bools(xs@) is None);
            }
            return None;
        }
        v.push(xs[k] == 1);
        proof {
            assert(v@ =~= xs@.take(k + 1).map_values(|x: u32| x == 1));
        }
        k += 1;
    }
    proof {
        assert(xs@.take(xs@.len() as int) =~= xs@);
    }
    Some(v)
}

/// Appends the fields of a list of texts.
pub(crate) fn push_texts(ws: &mut Vec<u32>, ts: &Vec<Vec<char>>, Ghost(fs): Ghost<Seq<Seq<u32>>>)
    requires
        old(ws)@ == fields_words_fwd(fs),
        texts_fit(texts_view(ts@)),
    ensures
        final(ws)@ == fields_words_fwd(fs + texts_fields(texts_view(ts@))),
{
    let ghost tv = texts_view(ts@);
    let mut count: Vec<u32> = Vec::new();
    count.push(ts.len() as u32);
    push_field(ws, &count, Ghost(fs));
    let ghost mut cur = fs.push(count@);
    let mut i: usize = 0;
    while i < ts.len()
        invariant
            tv == texts_view(ts@),
            texts_fit(tv),
            i <= ts@.len(),
            cur == fs + texts_fields(tv).take(1 + i),
            ws@ == fields_words_fwd(cur),
        decreases ts@.len() - i,
    {
        let codes = codes_of_chars(&ts[i]);
        proof {
            assert(ts@[i as int]@ == tv[i as int]);
        }
        push_field(ws, &codes, Ghost(cur));
        proof {
            assert(texts_fields(tv).take(1 + i + 1) =~= texts_fields(tv).take(1 + i).push(char_codes(tv[i as int])));
            cur = cur.push(codes@);
            assert(cur =~= fs + texts_fields(tv).take(1 + i + 1));
        }
        i += 1;
    }
    proof {
        assert(texts_fields(tv).take(1 + ts@.len() as int) =~= texts_fields(tv));
    }
}

/// The codes of the characters of `t`.
pub fn codes_of_chars(t: &Vec<char>) -> (r: Vec<u32>)
    ensures
        r@ == char_codes(t@),
{
    let mut r: Vec<u32> = Vec::new();
    let mut i: usize = 0;
    while i < t.len()
        invariant
            i <= t@.len(),
            r@ == char_codes(t@.take(i as int)),
        decreases t@.len() - i,
    {
        r.push(t[i] as u32);
        proof {
            assert(r@ =~= char_codes(t@.take(i + 1)));
        }
        i += 1;
    }
    proof {
        assert(t@.take(t@.len() as int) =~= t@);
    }
    r
}

/// The field of `u16` numbers.
pub fn field_of_u16s(xs: &Vec<u16>) -> (r: Vec<u32>)
    ensures
        r@ == u16s_field(xs@),
{
    let mut r: Vec<u32> = Vec::new();
    let mut i: usize = 0;
    while i < xs.len()
        invariant
            i <= xs@.len(),
            r@ == u16s_field(xs@.take(i as int)),
        decreases xs@.len() - i,
    {
        r.push(xs[i] as u32);
        proof {
            assert(r@ =~= u16s_field(xs@.take(i + 1)));
        }
        i += 1;
    }
    proof {
        assert(xs@.take(xs@.len() as int) =~= xs@);
    }
    r
}

/// The field of coded `i16` numbers.
pub fn field_of_i16s(xs: &Vec<i16>) -> (r: Vec<u32>)
    ensures
        r@ == i16s_field(xs@),
{
    let mut r: Vec<u32> = Vec::new();
    let mut i: usize = 0;
    while i < xs.len()
        invariant
            i <= xs@.len(),
            r@ == i16s_field(xs@.take(i as int)),
        decreases xs@.len() - i,
    {
        r.push((xs[i] as i32 + 32768) as u32);
        proof {
            assert(r@ =~= i16s_field(xs@.take(i + 1)));
        }
        i += 1;
    }
    proof {
        assert(xs@.take(xs@.len() as int) =~= xs@);
    }
    r
}

/// The field of flags.
pub fn field_of_bools(xs: &Vec<bool>) -> (r: Vec<u32>)
    ensures
        r@ == bools_field(xs@),
{
    let mut r: Vec<u32> = Vec::new();
    let mut i: usize = 0;
    while i < xs.len()
        invariant
            i <= xs@.len(),
            r@ == bools_field(xs@.take(i as int)),
        decreases xs@.len() - i,
    {
        r.push(if xs[i] { 1 } else { 0 });
        proof {
            assert(r@ =~= bools_field(xs@.take(i + 1)));
        }
        i += 1;
    }
    proof {
        assert(xs@.take(xs@.len() as int) =~= xs@);
    }
    r
}

/// The strings of texts.
pub fn strings_of_texts(ts: &Vec<Vec<char>>) -> (r: Vec<String>)
    ensures
        strings_view(r@) == texts_view(ts@),
{
    let mut r: Vec<String> = Vec::new();
    let mut i: usize = 0;
    while i < ts.len()
        invariant
            i <= ts@.len(),
            r@.len() == i,
            forall|k: int| 0 <= k < i ==> #[trigger] r@[k]@ == ts@[k]@,
        decreases ts@.len() - i,
    {
        r.push(chars_to_string(&ts[i]));
        i += 1;
    }
    proof {
        assert(strings_view(r@) =~= texts_view(ts@));
    }
    r
}

} // verus!
