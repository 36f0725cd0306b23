//! Reading the files of reordered connection-id mappings.
use vstd::prelude::*;

use crate::dictionary::builder::decode_text;
use crate::errors::{Source, VibratoError};
use crate::text::{
    find_char, lemma_find_char_bounds, lemma_line_ranges_bounds, line_ranges, lines, parse_u16,
    ranges_view, strip_cr, strip_cr_exec, u16_text,
};

verus! {

/// The end of the text of the line `[lo, hi)` of `s`: a carriage return at
/// its end is dropped only where a line feed follows it.
pub open spec fn line_text_end(s: Seq<char>, lo: int, hi: int) -> int {
    if hi < s.len() {
        strip_cr(s, lo, hi)
    } else {
        hi
    }
}

/// The ids of the lines `ls` of `s`: the first tab-separated column of each
/// line, read as a `u16`; `None` if one of them is not such a number.
pub open spec fn mapping_ids(s: Seq<char>, ls: Seq<(int, int)>) -> Option<Seq<u16>>
    decreases ls.len(),
{
    if ls.len() == 0 {
        Some(Seq::empty())
    } else {
        let (lo, hi) = ls.last();
        let end = line_text_end(s, lo, hi);
        match (mapping_ids(s, ls.drop_last()), u16_text(s, lo, find_char(s, '\t', lo, end))) {
            (Some(v), Some(x)) => Some(v.push(x)),
            _ => None,
        }
    }
}

/// The ids of a mapping file: one line per new id, whose first column is
/// the old id. Lines end at line feeds (a final one starts no empty line),
/// and a carriage return is removed only before a line feed.
pub open spec fn mapping_spec(s: Seq<char>) -> Option<Seq<u16>> {
    mapping_ids(s, line_ranges(s, 0, s.len() as int))
}

/// Parses the text of a mapping file.
///
/// # Errors
///
/// When the first column of a line is not a `u16`.
pub fn parse_mapping(text: &Vec<char>) -> (r: Result<Vec<u16>, VibratoError>)
    ensures
        match r {
            Ok(v) => mapping_spec(text@) == Some(v@),
            Err(e) => mapping_spec(text@) is None && e == VibratoError::InvalidFormat(Source::Mapping),
        },
{
    let ls = lines(text);
    let ghost lsv = ranges_view(ls@);
    let mut ids: Vec<u16> = Vec::new();
    let mut i: usize = 0;
    while i < ls.len()
        invariant
            lsv == ranges_view(ls@),
            lsv == line_ranges(text@, 0, text@.len() as int),
            forall|k: int| 0 <= k < ls@.len() ==> (#[trigger] ls@[k]).0 <= ls@[k].1 <= text@.len(),
            i <= ls@.len(),
            mapping_ids(text@, lsv.take(i as int)) == Some(ids@),
        decreases ls@.len() - i,
    {
        let (lo, hi) = ls[i];
        let end = if hi < text.len() {
            strip_cr_exec(text, lo, hi)
        } else {
            hi
        };
        let mut j = lo;
        proof {
            lemma_find_char_bounds(text@, '\t', lo as int, end as int);
        }
        while j < end && text[j] != '\t'
            invariant
                lo <= j <= end <= text@.len(),
                find_char(text@, '\t', lo as int, end as int) == find_char(text@, '\t', j as int, end as int),
            decreases end - j,
        {
            j += 1;
        }
        let ghost prefix = lsv.take(i as int);
        proof {
            assert(lsv[i as int] == (lo as int, hi as int));
            assert(lsv.take(i + 1).drop_last() =~= prefix);
            assert(lsv.take(i + 1).last() == (lo as int, hi as int));
            assert(find_char(text@, '\t', lo as int, end as int) == j);
        }
        match parse_u16(text, lo, j) {
            Some(x) => {
                ids.push(x);
            },
            None => {
                proof {
                    lemma_mapping_prefix(text@, lsv, i as int + 1);
                }
                return Err(VibratoError::InvalidFormat(Source::Mapping));
            },
        }
        i += 1;
    }
    proof {
        assert(lsv.take(ls@.len() as int) =~= lsv);
    }
    Ok(ids)
}

/// A line that is not read makes the whole file unreadable.
proof fn lemma_mapping_prefix(s: Seq<char>, ls: Seq<(int, int)>, n: int)
    requires
        0 <= n <= ls.len(),
        mapping_ids(s, ls.take(n)) is None,
    ensures
        mapping_ids(s, ls) is None,
    decreases ls.len() - n,
{
    if n < ls.len() {
        assert(ls.take(n + 1).drop_last() =~= ls.take(n));
        lemma_mapping_prefix(s, ls, n + 1);
    } else {
        assert(ls.take(n) =~= ls);
    }
}

/// Reads the bytes of a mapping file.
///
/// # Errors
///
/// When the bytes are not UTF-8 or a line is not read.
pub fn load_mapping(bytes: &[u8]) -> (r: Result<Vec<u16>, VibratoError>)
    ensures
        match r {
            Ok(v) => vstd::utf8::valid_utf8(bytes@) && mapping_spec(vstd::utf8::decode_utf8(bytes@))
                == Some(v@),
            Err(e) => e == VibratoError::InvalidFormat(Source::Mapping) && (!vstd::utf8::valid_utf8(
                bytes@,
            ) || mapping_spec(vstd::utf8::decode_utf8(bytes@)) is None),
        },
{
    let text = decode_text(bytes, Source::Mapping)?;
    parse_mapping(&text)
}

} // verus!
