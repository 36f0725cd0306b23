//! Splitting and number parsing on character sequences, used by the
//! readers of the dictionary source files.
use vstd::prelude::*;

verus! {

/// The first position `j` in `[i, hi)` with `s[j] == c`, or `hi` if there is none.
pub open spec fn find_char(s: Seq<char>, c: char, i: int, hi: int) -> int
    decreases hi - i,
{
    if i >= hi {
        hi
    } else if s[i] == c {
        i
    } else {
        find_char(s, c, i + 1, hi)
    }
}

pub proof fn lemma_find_char_bounds(s: Seq<char>, c: char, i: int, hi: int)
    requires
        i <= hi,
    ensures
        i <= find_char(s, c, i, hi) <= hi,
        find_char(s, c, i, hi) < hi ==> s[find_char(s, c, i, hi)] == c,
        forall|k: int| i <= k < find_char(s, c, i, hi) ==> s[k] != c,
    decreases hi - i,
{
    if i < hi && s[i] != c {
        lemma_find_char_bounds(s, c, i + 1, hi);
    }
}

/// The ranges of the lines of `s[i..hi]`: pieces separated by `'\n'`,
/// where a final `'\n'` does not start an empty last line.
pub open spec fn line_ranges(s: Seq<char>, i: int, hi: int) -> Seq<(int, int)> {
    sep_ranges(s, '\n', i, hi)
}

pub proof fn lemma_line_ranges_bounds(s: Seq<char>, i: int, hi: int)
    requires
        0 <= i,
    ensures
        forall|k: int|
            0 <= k < line_ranges(s, i, hi).len() ==> i <= (#[trigger] line_ranges(s, i, hi)[k]).0
                <= line_ranges(s, i, hi)[k].1 <= hi,
{
    lemma_sep_ranges_bounds(s, '\n', i, hi);
}

/// The ranges of the pieces of `s[i..hi]` terminated by `c` (or by `hi`).
pub open spec fn sep_ranges(s: Seq<char>, c: char, i: int, hi: int) -> Seq<(int, int)>
    decreases hi - i,
{
    let j = find_char(s, c, i, hi);
    if i >= hi {
        Seq::empty()
    } else if j >= hi {
        seq![(i, j)]
    } else {
        proof {
            lemma_find_char_bounds(s, c, i, hi);
        }
        seq![(i, j)] + sep_ranges(s, c, j + 1, hi)
    }
}

/// The ranges of the fields of `s[i..hi]` separated by `c`; there is always
/// at least one field, possibly empty.
pub open spec fn split_ranges(s: Seq<char>, c: char, i: int, hi: int) -> Seq<(int, int)>
    decreases hi - i,
{
    let j = find_char(s, c, i, hi);
    if i > hi || j >= hi {
        seq![(i, hi)]
    } else {
        proof {
            lemma_find_char_bounds(s, c, i, hi);
        }
        seq![(i, j)] + split_ranges(s, c, j + 1, hi)
    }
}

/// Whitespace characters separating columns.
pub open spec fn is_space(c: char) -> bool {
    c == ' ' || c == '\t' || c == '\r' || c == '\n' || c == '\x0b' || c == '\x0c'
}

/// The first position in `[i, hi)` whose character satisfies `is_space == sp`, or `hi`.
pub open spec fn skip_while(s: Seq<char>, sp: bool, i: int, hi: int) -> int
    decreases hi - i,
{
    if i >= hi {
        hi
    } else if is_space(s[i]) != sp {
        i
    } else {
        skip_while(s, sp, i + 1, hi)
    }
}

pub proof fn lemma_skip_while_bounds(s: Seq<char>, sp: bool, i: int, hi: int)
    requires
        i <= hi,
    ensures
        i <= skip_while(s, sp, i, hi) <= hi,
        skip_while(s, sp, i, hi) < hi ==> is_space(s[skip_while(s, sp, i, hi)]) != sp,
        forall|k: int| i <= k < skip_while(s, sp, i, hi) ==> is_space(s[k]) == sp,
    decreases hi - i,
{
    if i < hi && is_space(s[i]) == sp {
        lemma_skip_while_bounds(s, sp, i + 1, hi);
    }
}

/// The ranges of the maximal runs of non-space characters in `s[i..hi]`.
pub open spec fn word_ranges(s: Seq<char>, i: int, hi: int) -> Seq<(int, int)>
    decreases hi - i,
{
    let b = skip_while(s, true, i, hi);
    if i >= hi || b >= hi {
        Seq::empty()
    } else {
        let e = skip_while(s, false, b, hi);
        proof {
            lemma_skip_while_bounds(s, true, i, hi);
            lemma_skip_while_bounds(s, false, b, hi);
        }
        seq![(b, e)] + word_ranges(s, e, hi)
    }
}

pub proof fn lemma_sep_ranges_bounds(s: Seq<char>, c: char, i: int, hi: int)
    requires
        0 <= i,
    ensures
        forall|k: int|
            0 <= k < sep_ranges(s, c, i, hi).len() ==> i <= (#[trigger] sep_ranges(
                s,
                c,
                i,
                hi,
            )[k]).0 <= sep_ranges(s, c, i, hi)[k].1 <= hi,
    decreases hi - i,
{
    if i < hi {
        lemma_find_char_bounds(s, c, i, hi);
        let j = find_char(s, c, i, hi);
        if j < hi {
            lemma_sep_ranges_bounds(s, c, j + 1, hi);
            let r = sep_ranges(s, c, i, hi);
            let t = sep_ranges(s, c, j + 1, hi);
            assert forall|k: int| 0 <= k < r.len() implies i <= (#[trigger] r[k]).0 <= r[k].1
                <= hi by {
                if k > 0 {
                    assert(r[k] == t[k - 1]);
                }
            }
        }
    }
}

pub proof fn lemma_split_ranges_bounds(s: Seq<char>, c: char, i: int, hi: int)
    requires
        0 <= i <= hi,
    ensures
        forall|k: int|
            0 <= k < split_ranges(s, c, i, hi).len() ==> i <= (#[trigger] split_ranges(
                s,
                c,
                i,
                hi,
            )[k]).0 <= split_ranges(s, c, i, hi)[k].1 <= hi,
    decreases hi - i,
{
    lemma_find_char_bounds(s, c, i, hi);
    let j = find_char(s, c, i, hi);
    if j < hi {
        lemma_split_ranges_bounds(s, c, j + 1, hi);
        let r = split_ranges(s, c, i, hi);
        let t = split_ranges(s, c, j + 1, hi);
        assert forall|k: int| 0 <= k < r.len() implies i <= (#[trigger] r[k]).0 <= r[k].1
            <= hi by {
            if k > 0 {
                assert(r[k] == t[k - 1]);
            }
        }
    }
}

pub proof fn lemma_word_ranges_bounds(s: Seq<char>, i: int, hi: int)
    requires
        0 <= i <= hi,
    ensures
        forall|k: int|
            0 <= k < word_ranges(s, i, hi).len() ==> i <= (#[trigger] word_ranges(s, i, hi)[k]).0
                < word_ranges(s, i, hi)[k].1 <= hi,
    decreases hi - i,
{
    lemma_skip_while_bounds(s, true, i, hi);
    let b = skip_while(s, true, i, hi);
    if b < hi {
        lemma_skip_while_bounds(s, false, b, hi);
        let e = skip_while(s, false, b, hi);
        lemma_word_ranges_bounds(s, e, hi);
        let r = word_ranges(s, i, hi);
        let t = word_ranges(s, e, hi);
        assert forall|k: int| 0 <= k < r.len() implies i <= (#[trigger] r[k]).0 < r[k].1
            <= hi by {
            if k > 0 {
                assert(r[k] == t[k - 1]);
            }
        }
    }
}

/// Ranges as pairs of integers.
pub open spec fn ranges_view(v: Seq<(usize, usize)>) -> Seq<(int, int)> {
    v.map_values(|p: (usize, usize)| (p.0 as int, p.1 as int))
}

/// Returns the line ranges of `s`, as `str::lines` would give them (the
/// trailing `'\r'` of a line is removed by the callers).
pub fn lines(s: &Vec<char>) -> (r: Vec<(usize, usize)>)
    ensures
        ranges_view(r@) == line_ranges(s@, 0, s@.len() as int),
        forall|k: int| 0 <= k < r@.len() ==> (#[trigger] r@[k]).0 <= r@[k].1 <= s@.len(),
{
    let n = s.len();
    let mut r: Vec<(usize, usize)> = Vec::new();
    let mut i: usize = 0;
    while i < n
        invariant
            n == s@.len(),
            i <= n,
            ranges_view(r@) + line_ranges(s@, i as int, n as int) == line_ranges(
                s@,
                0,
                n as int,
            ),
        decreases n - i,
    {
        let mut j = i;
        while j < n && s[j] != '\n'
            invariant
                n == s@.len(),
                i <= j <= n,
                find_char(s@, '\n', i as int, n as int) == find_char(s@, '\n', j as int, n as int),
            decreases n - j,
        {
            j += 1;
        }
        let ghost old_r = ranges_view(r@);
        r.push((i, j));
        proof {
            assert(ranges_view(r@) =~= old_r.push((i as int, j as int)));
            assert(old_r.push((i as int, j as int)) + line_ranges(s@, j + 1, n as int) =~= old_r
                + line_ranges(s@, i as int, n as int));
        }
        if j >= n {
            proof {
                assert(ranges_view(r@) =~= old_r + line_ranges(s@, i as int, n as int));
            }
            i = n;
        } else {
            i = j + 1;
        }
    }
    proof {
        assert(ranges_view(r@) + line_ranges(s@, i as int, n as int) =~= ranges_view(r@));
        lemma_line_ranges_bounds(s@, 0, n as int);
        lemma_ranges_view_bounds(r@, line_ranges(s@, 0, n as int), 0, n as int);
    }
    r
}

/// Bounds of ranges carry over to their exec counterparts.
pub proof fn lemma_ranges_view_bounds(v: Seq<(usize, usize)>, r: Seq<(int, int)>, lo: int, hi: int)
    requires
        ranges_view(v) == r,
        forall|k: int| 0 <= k < r.len() ==> lo <= (#[trigger] r[k]).0 <= r[k].1 <= hi,
    ensures
        forall|k: int| 0 <= k < v.len() ==> lo <= (#[trigger] v[k]).0 <= v[k].1 <= hi,
{
    assert forall|k: int| 0 <= k < v.len() implies lo <= (#[trigger] v[k]).0 <= v[k].1 <= hi by {
        assert(r[k] == (v[k].0 as int, v[k].1 as int));
    }
}

/// Returns the ranges of the fields of `s[lo..hi]` separated by `c`,
/// as `str::split` would give them.
pub fn split(s: &Vec<char>, c: char, lo: usize, hi: usize) -> (r: Vec<(usize, usize)>)
    requires
        lo <= hi <= s@.len(),
    ensures
        ranges_view(r@) == split_ranges(s@, c, lo as int, hi as int),
        r@.len() >= 1,
        forall|k: int| 0 <= k < r@.len() ==> lo <= (#[trigger] r@[k]).0 <= r@[k].1 <= hi,
{
    let mut r: Vec<(usize, usize)> = Vec::new();
    let mut i: usize = lo;
    loop
        invariant
            lo <= i <= hi <= s@.len(),
            ranges_view(r@) + split_ranges(s@, c, i as int, hi as int) == split_ranges(
                s@,
                c,
                lo as int,
                hi as int,
            ),
        decreases hi - i,
    {
        let mut j = i;
        while j < hi && s[j] != c
            invariant
                hi <= s@.len(),
                i <= j <= hi,
                find_char(s@, c, i as int, hi as int) == find_char(s@, c, j as int, hi as int),
            decreases hi - j,
        {
            j += 1;
        }
        let ghost old_r = ranges_view(r@);
        r.push((i, j));
        proof {
            assert(ranges_view(r@) =~= old_r.push((i as int, j as int)));
        }
        if j >= hi {
            proof {
                assert(ranges_view(r@) =~= old_r + split_ranges(s@, c, i as int, hi as int));
                lemma_split_ranges_bounds(s@, c, lo as int, hi as int);
                lemma_ranges_view_bounds(r@, split_ranges(s@, c, lo as int, hi as int), lo as int, hi as int);
            }
            return r;
        }
        proof {
            assert(old_r.push((i as int, j as int)) + split_ranges(s@, c, j + 1, hi as int)
                =~= old_r + split_ranges(s@, c, i as int, hi as int));
        }
        i = j + 1;
    }
}

fn is_space_exec(c: char) -> (b: bool)
    ensures
        b == is_space(c),
{
    c == ' ' || c == '\t' || c == '\r' || c == '\n' || c == '\x0b' || c == '\x0c'
}

/// Returns the ranges of the whitespace-separated words of `s[lo..hi]`,
/// as `str::split_whitespace` gives them for ASCII whitespace.
pub fn split_words(s: &Vec<char>, lo: usize, hi: usize) -> (r: Vec<(usize, usize)>)
    requires
        lo <= hi <= s@.len(),
    ensures
        ranges_view(r@) == word_ranges(s@, lo as int, hi as int),
        forall|k: int| 0 <= k < r@.len() ==> lo <= (#[trigger] r@[k]).0 < r@[k].1 <= hi,
{
    let mut r: Vec<(usize, usize)> = Vec::new();
    let mut i: usize = lo;
    loop
        invariant
            lo <= i <= hi <= s@.len(),
            ranges_view(r@) + word_ranges(s@, i as int, hi as int) == word_ranges(
                s@,
                lo as int,
                hi as int,
            ),
        decreases hi - i,
    {
        let mut b = i;
        while b < hi && is_space_exec(s[b])
            invariant
                hi <= s@.len(),
                i <= b <= hi,
                skip_while(s@, true, i as int, hi as int) == skip_while(
                    s@,
                    true,
                    b as int,
                    hi as int,
                ),
            decreases hi - b,
        {
            b += 1;
        }
        if b >= hi {
            proof {
                assert(ranges_view(r@) + word_ranges(s@, i as int, hi as int) =~= ranges_view(r@));
                lemma_word_ranges_bounds(s@, lo as int, hi as int);
                let rr = word_ranges(s@, lo as int, hi as int);
                assert forall|k: int| 0 <= k < r@.len() implies lo <= (#[trigger] r@[k]).0 < r@[k].1
                    <= hi by {
                    assert(rr[k] == (r@[k].0 as int, r@[k].1 as int));
                }
            }
            return r;
        }
        let mut e = b;
        while e < hi && !is_space_exec(s[e])
            invariant
                hi <= s@.len(),
                b <= e <= hi,
                skip_while(s@, false, b as int, hi as int) == skip_while(
                    s@,
                    false,
                    e as int,
                    hi as int,
                ),
            decreases hi - e,
        {
            e += 1;
        }
        let ghost old_r = ranges_view(r@);
        r.push((b, e));
        proof {
            assert(ranges_view(r@) =~= old_r.push((b as int, e as int)));
            assert(old_r.push((b as int, e as int)) + word_ranges(s@, e as int, hi as int)
                =~= old_r + word_ranges(s@, i as int, hi as int));
        }
        i = e;
    }
}

/// The end of a line without its trailing carriage return.
pub open spec fn strip_cr(s: Seq<char>, lo: int, hi: int) -> int {
    if lo < hi && s[hi - 1] == '\r' {
        hi - 1
    } else {
        hi
    }
}

pub fn strip_cr_exec(s: &Vec<char>, lo: usize, hi: usize) -> (e: usize)
    requires
        lo <= hi <= s@.len(),
    ensures
        e == strip_cr(s@, lo as int, hi as int),
{
    if lo < hi && s[hi - 1] == '\r' {
        hi - 1
    } else {
        hi
    }
}

/// Whether `s[lo..hi]` equals `t`.
pub open spec fn slice_eq(s: Seq<char>, lo: int, hi: int, t: Seq<char>) -> bool {
    s.subrange(lo, hi) == t
}

pub fn slice_eq_exec(s: &Vec<char>, lo: usize, hi: usize, t: &Vec<char>) -> (b: bool)
    requires
        lo <= hi <= s@.len(),
    ensures
        b == slice_eq(s@, lo as int, hi as int, t@),
{
    if hi - lo != t.len() {
        proof {
            assert(s@.subrange(lo as int, hi as int).len() != t@.len());
        }
        return false;
    }
    let mut k: usize = 0;
    while k < t.len()
        invariant
            lo <= hi <= s@.len(),
            hi - lo == t@.len(),
            k <= t@.len(),
            forall|m: int| 0 <= m < k ==> s@[lo + m] == t@[m],
        decreases t@.len() - k,
    {
        if s[lo + k] != t[k] {
            proof {
                assert(s@.subrange(lo as int, hi as int)[k as int] != t@[k as int]);
            }
            return false;
        }
        k += 1;
    }
    proof {
        assert(s@.subrange(lo as int, hi as int) =~= t@);
    }
    true
}

/// Copies `s[lo..hi]` into a new vector.
pub fn sub_vec(s: &Vec<char>, lo: usize, hi: usize) -> (r: Vec<char>)
    requires
        lo <= hi <= s@.len(),
    ensures
        r@ == s@.subrange(lo as int, hi as int),
{
    let mut r: Vec<char> = Vec::new();
    let mut k = lo;
    while k < hi
        invariant
            lo <= k <= hi <= s@.len(),
            r@ == s@.subrange(lo as int, k as int),
        decreases hi - k,
    {
        r.push(s[k]);
        proof {
            assert(r@ =~= s@.subrange(lo as int, k + 1));
        }
        k += 1;
    }
    r
}

/// The value of a decimal digit.
pub open spec fn digit_value(c: char) -> int {
    (c as u32) - ('0' as u32)
}

pub open spec fn is_digit(c: char) -> bool {
    '0' <= c && c <= '9'
}

/// Whether `s[lo..hi]` is a non-empty run of decimal digits.
pub open spec fn all_digits(s: Seq<char>, lo: int, hi: int) -> bool {
    lo < hi && forall|k: int| lo <= k < hi ==> is_digit(#[trigger] s[k])
}

/// The decimal value of the digits `s[lo..hi]`.
pub open spec fn dec_value(s: Seq<char>, lo: int, hi: int) -> int
    decreases hi - lo,
{
    if hi <= lo {
        0
    } else {
        dec_value(s, lo, hi - 1) * 10 + digit_value(s[hi - 1])
    }
}

/// The integer written in `s[lo..hi]`, as Rust's `from_str` for integers reads
/// it: an optional sign (a `'-'` only where `signed`), then decimal digits.
pub open spec fn int_text(s: Seq<char>, lo: int, hi: int, signed: bool) -> Option<int> {
    if lo < hi && s[lo] == '+' && all_digits(s, lo + 1, hi) {
        Some(dec_value(s, lo + 1, hi))
    } else if signed && lo < hi && s[lo] == '-' && all_digits(s, lo + 1, hi) {
        Some(-dec_value(s, lo + 1, hi))
    } else if all_digits(s, lo, hi) {
        Some(dec_value(s, lo, hi))
    } else {
        None
    }
}

proof fn lemma_dec_value_nonneg(s: Seq<char>, lo: int, hi: int)
    requires
        forall|k: int| lo <= k < hi ==> is_digit(#[trigger] s[k]),
    ensures
        dec_value(s, lo, hi) >= 0,
    decreases hi - lo,
{
    if hi > lo {
        lemma_dec_value_nonneg(s, lo, hi - 1);
    }
}

/// Parses the digits `s[lo..hi]` as long as the value stays at most `max`.
fn parse_digits(s: &Vec<char>, lo: usize, hi: usize, max: u64) -> (r: Option<u64>)
    requires
        lo <= hi <= s@.len(),
        max < 0x1000_0000_0000_0000,
    ensures
        match r {
            Some(v) => all_digits(s@, lo as int, hi as int) && v == dec_value(
                s@,
                lo as int,
                hi as int,
            ) && v <= max,
            None => !all_digits(s@, lo as int, hi as int) || dec_value(s@, lo as int, hi as int)
                > max,
        },
{
    if lo >= hi {
        return None;
    }
    let mut v: u64 = 0;
    let mut k = lo;
    while k < hi
        invariant
            lo <= k <= hi <= s@.len(),
            max < 0x1000_0000_0000_0000,
            v == dec_value(s@, lo as int, k as int),
            v <= max,
            forall|m: int| lo <= m < k ==> is_digit(#[trigger] s@[m]),
        decreases hi - k,
    {
        let c = s[k];
        if !('0' <= c && c <= '9') {
            return None;
        }
        let d = (c as u32 - '0' as u32) as u64;
        if d > max || v > (max - d) / 10 {
            proof {
                assert(v * 10 + d > max) by (nonlinear_arith)
                    requires
                        d > max || v > (max - d) / 10,
                        d <= 9,
                        v >= 0,
                ;
                lemma_dec_value_nonneg(s@, lo as int, k + 1);
                assert(dec_value(s@, lo as int, k + 1) == v * 10 + d);
                lemma_dec_prefix_mono(s@, lo as int, k + 1, hi as int);
            }
            return None;
        }
        proof {
            assert(v * 10 + d <= max) by (nonlinear_arith)
                requires
                    v <= (max - d) / 10,
                    d <= max,
            ;
        }
        v = v * 10 + d;
        k += 1;
    }
    Some(v)
}

proof fn lemma_dec_prefix_mono(s: Seq<char>, lo: int, mid: int, hi: int)
    requires
        lo <= mid <= hi,
        forall|k: int| lo <= k < mid ==> is_digit(#[trigger] s[k]),
    ensures
        all_digits(s, lo, hi) ==> dec_value(s, lo, hi) >= dec_value(s, lo, mid),
    decreases hi - mid,
{
    if all_digits(s, lo, hi) && mid < hi {
        lemma_dec_prefix_mono(s, lo, mid, hi - 1);
        assert(forall|k: int| lo <= k < hi - 1 ==> is_digit(#[trigger] s[k]));
        lemma_dec_value_nonneg(s, lo, hi - 1);
        if mid == hi - 1 {
        } else {
            assert(all_digits(s, lo, hi - 1));
        }
        assert(dec_value(s, lo, hi) == dec_value(s, lo, hi - 1) * 10 + digit_value(s[hi - 1]));
    }
}

/// Parses `s[lo..hi]` as an unsigned integer of at most `max`.
pub fn parse_unsigned(s: &Vec<char>, lo: usize, hi: usize, max: u64) -> (r: Option<u64>)
    requires
        lo <= hi <= s@.len(),
        max < 0x1000_0000_0000_0000,
    ensures
        match r {
            Some(v) => int_text(s@, lo as int, hi as int, false) == Some(v as int) && v <= max,
            None => match int_text(s@, lo as int, hi as int, false) {
                Some(x) => x > max,
                None => true,
            },
        },
{
    if lo < hi && s[lo] == '+' {
        let r = parse_digits(s, lo + 1, hi, max);
        proof {
            if all_digits(s@, lo as int, hi as int) {
                assert(is_digit(s@[lo as int]));
            }
        }
        r
    } else {
        parse_digits(s, lo, hi, max)
    }
}

/// Parses `s[lo..hi]` as an `i16`.
pub fn parse_i16(s: &Vec<char>, lo: usize, hi: usize) -> (r: Option<i16>)
    requires
        lo <= hi <= s@.len(),
    ensures
        match r {
            Some(v) => int_text(s@, lo as int, hi as int, true) == Some(v as int),
            None => match int_text(s@, lo as int, hi as int, true) {
                Some(x) => x < i16::MIN || x > i16::MAX,
                None => true,
            },
        },
{
    if lo < hi && s[lo] == '-' {
        let r = parse_digits(s, lo + 1, hi, 32768);
        proof {
            if all_digits(s@, lo as int, hi as int) {
                assert(is_digit(s@[lo as int]));
            }
        }
        match r {
            Some(v) => Some((0 - v as i32) as i16),
            None => None,
        }
    } else {
        let r = parse_unsigned(s, lo, hi, 32767);
        match r {
            Some(v) => Some(v as i16),
            None => None,
        }
    }
}

/// The value of a hexadecimal digit, or `None`.
pub open spec fn hex_digit(c: char) -> Option<int> {
    if '0' <= c && c <= '9' {
        Some((c as u32) - ('0' as u32))
    } else if 'a' <= c && c <= 'f' {
        Some((c as u32) - ('a' as u32) + 10)
    } else if 'A' <= c && c <= 'F' {
        Some((c as u32) - ('A' as u32) + 10)
    } else {
        None
    }
}

/// The value of the hexadecimal digits `s[lo..hi]`, or `None` if one is not a digit.
pub open spec fn hex_value(s: Seq<char>, lo: int, hi: int) -> Option<int>
    decreases hi - lo,
{
    if hi <= lo {
        Some(0)
    } else {
        match (hex_value(s, lo, hi - 1), hex_digit(s[hi - 1])) {
            (Some(v), Some(d)) => Some(v * 16 + d),
            _ => None,
        }
    }
}

proof fn lemma_hex_value_nonneg(s: Seq<char>, lo: int, hi: int)
    ensures
        hex_value(s, lo, hi) matches Some(v) ==> v >= 0,
    decreases hi - lo,
{
    if hi > lo {
        lemma_hex_value_nonneg(s, lo, hi - 1);
    }
}

proof fn lemma_hex_prefix(s: Seq<char>, lo: int, mid: int, hi: int)
    requires
        lo <= mid <= hi,
    ensures
        hex_value(s, lo, hi) is Some ==> hex_value(s, lo, mid) is Some && hex_value(
            s,
            lo,
            hi,
        )->0 >= hex_value(s, lo, mid)->0,
    decreases hi - mid,
{
    if mid < hi {
        lemma_hex_prefix(s, lo, mid, hi - 1);
        lemma_hex_value_nonneg(s, lo, hi - 1);
    }
}

/// Parses the hexadecimal digits `s[lo..hi]` (at least one) as a value of at most `max`.
pub fn parse_hex(s: &Vec<char>, lo: usize, hi: usize, max: u32) -> (r: Option<u32>)
    requires
        lo <= hi <= s@.len(),
    ensures
        match r {
            Some(v) => lo < hi && hex_value(s@, lo as int, hi as int) == Some(v as int) && v
                <= max,
            None => lo >= hi || match hex_value(s@, lo as int, hi as int) {
                Some(x) => x > max,
                None => true,
            },
        },
{
    if lo >= hi {
        return None;
    }
    let mut v: u32 = 0;
    let mut k = lo;
    while k < hi
        invariant
            lo <= k <= hi <= s@.len(),
            hex_value(s@, lo as int, k as int) == Some(v as int),
            v <= max,
        decreases hi - k,
    {
        let c = s[k];
        let d: u32 = if '0' <= c && c <= '9' {
            c as u32 - '0' as u32
        } else if 'a' <= c && c <= 'f' {
            c as u32 - 'a' as u32 + 10
        } else if 'A' <= c && c <= 'F' {
            c as u32 - 'A' as u32 + 10
        } else {
            proof {
                lemma_hex_prefix(s@, lo as int, k + 1, hi as int);
            }
            return None;
        };
        if d > max || v > (max - d) / 16 {
            proof {
                assert(v * 16 + d > max) by (nonlinear_arith)
                    requires
                        d > max || v > (max - d) / 16,
                        d <= 15,
                        v >= 0,
                ;
                lemma_hex_prefix(s@, lo as int, k + 1, hi as int);
            }
            return None;
        }
        proof {
            assert(v * 16 + d <= max) by (nonlinear_arith)
                requires
                    v <= (max - d) / 16,
                    d <= max,
            ;
        }
        v = v * 16 + d;
        k += 1;
    }
    Some(v)
}

/// Returns the characters of `s`.
pub fn str_chars(s: &str) -> (r: Vec<char>)
    ensures
        r@ == s@,
{
    let mut r: Vec<char> = Vec::new();
    broadcast use vstd::string::group_string_axioms;
    for c in it: s.chars()
        invariant
            it.seq() == s@,
            r@ == it.seq().take(it.index() as int),
    {
        r.push(c);
        proof {
            assert(r@ =~= it.seq().take(it.index() + 1));
        }
    }
    proof {
        assert(r@ =~= s@);
    }
    r
}

/// Appends `c` to `s`.
///
/// Wraps `String::push`, which appends one character; the contract claims
/// that the string's characters are the old ones followed by `c`.
#[verifier::external_body]
fn string_push(s: &mut String, c: char)
    ensures
        final(s)@ == old(s)@.push(c),
{
    s.push(c)
}

/// Builds a string of the characters `v`.
pub fn chars_to_string(v: &Vec<char>) -> (s: String)
    ensures
        s@ == v@,
{
    let mut s = String::new();
    let mut k: usize = 0;
    while k < v.len()
        invariant
            k <= v@.len(),
            s@ == v@.take(k as int),
        decreases v@.len() - k,
    {
        string_push(&mut s, v[k]);
        proof {
            assert(s@ =~= v@.take(k + 1));
        }
        k += 1;
    }
    proof {
        assert(v@.take(v@.len() as int) =~= v@);
    }
    s
}

/// The value of `s[lo..hi]` as a `u16`.
pub open spec fn u16_text(s: Seq<char>, lo: int, hi: int) -> Option<u16> {
    match int_text(s, lo, hi, false) {
        Some(v) => if v <= u16::MAX {
            Some(v as u16)
        } else {
            None
        },
        None => None,
    }
}

/// The value of `s[lo..hi]` as an `i16`.
pub open spec fn i16_text(s: Seq<char>, lo: int, hi: int) -> Option<i16> {
    match int_text(s, lo, hi, true) {
        Some(v) => if i16::MIN <= v <= i16::MAX {
            Some(v as i16)
        } else {
            None
        },
        None => None,
    }
}

/// Parses `s[lo..hi]` as a `u16`.
pub fn parse_u16(s: &Vec<char>, lo: usize, hi: usize) -> (r: Option<u16>)
    requires
        lo <= hi <= s@.len(),
    ensures
        r == u16_text(s@, lo as int, hi as int),
{
    match parse_unsigned(s, lo, hi, 0xFFFF) {
        Some(v) => Some(v as u16),
        None => None,
    }
}

/// Parses `s[lo..hi]` as an `i16`.
pub fn parse_i16_text(s: &Vec<char>, lo: usize, hi: usize) -> (r: Option<i16>)
    requires
        lo <= hi <= s@.len(),
    ensures
        r == i16_text(s@, lo as int, hi as int),
{
    parse_i16(s, lo, hi)
}

} // verus!
