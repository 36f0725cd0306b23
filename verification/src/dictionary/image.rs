//! The binary image of a dictionary: a header, then 32-bit little-endian
//! words. Lists are written as their length followed by their items; texts
//! as lists of character codes.
use vstd::bytes::{
    lemma_auto_spec_u32_to_from_le_bytes, spec_u32_from_le_bytes, spec_u32_to_le_bytes,
    u32_from_le_bytes, u32_to_le_bytes,
};
use vstd::prelude::*;
use vstd::utf8::is_scalar;

verus! {

/// Gets the character of a code.
///
/// Wraps `char::from_u32`, which returns the character of a Unicode scalar
/// value (a code up to `0x10FFFF` outside the surrogates) and `None` for
/// any other code; the contract claims exactly that.
#[verifier::external_body]
pub(crate) fn char_from_code(v: u32) -> (r: Option<char>)
    ensures
        r == if is_scalar(v) {
            Some(v as char)
        } else {
            None::<char>
        },
{
    char::from_u32(v)
}

/// The bytes of the words `ws`, four per word, little end first.
pub open spec fn words_bytes(ws: Seq<u32>) -> Seq<u8>
    decreases ws.len(),
{
    if ws.len() == 0 {
        Seq::empty()
    } else {
        words_bytes(ws.drop_last()) + spec_u32_to_le_bytes(ws.last())
    }
}

/// The words of `b`, four bytes each.
pub open spec fn bytes_words(b: Seq<u8>) -> Seq<u32> {
    Seq::new(b.len() / 4, |i: int| spec_u32_from_le_bytes(b.subrange(4 * i, 4 * i + 4)))
}

pub proof fn lemma_words_bytes_len(ws: Seq<u32>)
    ensures
        words_bytes(ws).len() == 4 * ws.len(),
    decreases ws.len(),
{
    lemma_auto_spec_u32_to_from_le_bytes();
    if ws.len() > 0 {
        lemma_words_bytes_len(ws.drop_last());
    }
}

/// Reading the bytes of words gives the words back.
pub proof fn lemma_words_roundtrip(ws: Seq<u32>)
    ensures
        bytes_words(words_bytes(ws)) == ws,
    decreases ws.len(),
{
    lemma_auto_spec_u32_to_from_le_bytes();
    lemma_words_bytes_len(ws);
    if ws.len() > 0 {
        let d = ws.drop_last();
        lemma_words_roundtrip(d);
        lemma_words_bytes_len(d);
        let b = words_bytes(ws);
        let bd = words_bytes(d);
        assert(b == bd + spec_u32_to_le_bytes(ws.last()));
        assert forall|i: int| 0 <= i < ws.len() implies #[trigger] bytes_words(b)[i] == ws[i] by {
            if i < d.len() {
                assert(b.subrange(4 * i, 4 * i + 4) =~= bd.subrange(4 * i, 4 * i + 4));
                assert(bytes_words(bd)[i] == d[i]);
            } else {
                assert(b.subrange(4 * i, 4 * i + 4) =~= spec_u32_to_le_bytes(ws.last()));
            }
        }
        assert(bytes_words(b) =~= ws);
    }
}

/// Appends the bytes of the words `ws`.
pub fn push_words(out: &mut Vec<u8>, ws: &Vec<u32>)
    ensures
        final(out)@ == old(out)@ + words_bytes(ws@),
{
    let ghost start = out@;
    let mut i: usize = 0;
    while i < ws.len()
        invariant
            i <= ws@.len(),
            out@ == start + words_bytes(ws@.take(i as int)),
        decreases ws@.len() - i,
    {
        let b = u32_to_le_bytes(ws[i]);
        let ghost before = out@;
        let mut k: usize = 0;
        while k < 4
            invariant
                b@.len() == 4,
                k <= 4,
                out@ == before + b@.take(k as int),
            decreases 4 - k,
        {
            out.push(b[k]);
            proof {
                assert(b@.take(k + 1) =~= b@.take(k as int).push(b@[k as int]));
            }
            k += 1;
        }
        proof {
            assert(ws@.take(i + 1).drop_last() =~= ws@.take(i as int));
            assert(b@.take(4) =~= b@);
        }
        i += 1;
    }
    proof {
        assert(ws@.take(ws@.len() as int) =~= ws@);
    }
}

/// Reads the words of `b[start..]`, whose length must be a multiple of four.
pub fn read_words(b: &[u8], start: usize) -> (r: Option<Vec<u32>>)
    requires
        start <= b@.len(),
    ensures
        match r {
            Some(ws) => (b@.len() - start) % 4 == 0 && ws@ == bytes_words(b@.subrange(start as int, b@.len() as int)),
            None => (b@.len() - start) % 4 != 0,
        },
{
    let total = b.len();
    let n = total - start;
    if n % 4 != 0 {
        return None;
    }
    let ghost body = b@.subrange(start as int, b@.len() as int);
    let mut ws: Vec<u32> = Vec::new();
    let mut i: usize = 0;
    while i < n / 4
        invariant
            n == b@.len() - start,
            total == b@.len(),
            start + n == total,
            body == b@.subrange(start as int, b@.len() as int),
            n % 4 == 0,
            i <= n / 4,
            ws@ == bytes_words(body).take(i as int),
        decreases n / 4 - i,
    {
        proof {
            assert(4 * i + 4 <= n) by (nonlinear_arith)
                requires
                    i < n / 4,
                    n % 4 == 0,
            ;
        }
        let p = start + 4 * i;
        let mut four: Vec<u8> = Vec::new();
        four.push(b[p]);
        four.push(b[p + 1]);
        four.push(b[p + 2]);
        four.push(b[p + 3]);
        proof {
            assert(four@ =~= body.subrange(4 * i, 4 * i + 4));
        }
        let w = u32_from_le_bytes(four.as_slice());
        ws.push(w);
        proof {
            assert(ws@ =~= bytes_words(body).take(i + 1));
        }
        i += 1;
    }
    proof {
        assert(bytes_words(body).take((n / 4) as int) =~= bytes_words(body));
    }
    Some(ws)
}

/// A list of words: its length, then its items.
pub open spec fn list_words(xs: Seq<u32>) -> Seq<u32> {
    seq![xs.len() as u32] + xs
}

/// Reads a list of words at `p`, giving it and the position after it.
pub open spec fn parse_list(ws: Seq<u32>, p: int) -> Option<(Seq<u32>, int)> {
    if 0 <= p < ws.len() && p + 1 + ws[p] <= ws.len() {
        Some((ws.subrange(p + 1, p + 1 + ws[p]), p + 1 + ws[p]))
    } else {
        None
    }
}

pub proof fn lemma_parse_list(pre: Seq<u32>, xs: Seq<u32>, rest: Seq<u32>)
    requires
        xs.len() <= u32::MAX,
    ensures
        parse_list(pre + list_words(xs) + rest, pre.len() as int) == Some(
            (xs, (pre.len() + list_words(xs).len()) as int),
        ),
{
    let ws = pre + list_words(xs) + rest;
    let p = pre.len() as int;
    assert(ws[p] == xs.len());
    assert(ws.subrange(p + 1, p + 1 + xs.len()) =~= xs);
}

/// Reads a list of words at `p`.
pub fn read_list(ws: &Vec<u32>, p: usize) -> (r: Option<(Vec<u32>, usize)>)
    ensures
        match r {
            Some((xs, q)) => parse_list(ws@, p as int) == Some((xs@, q as int)),
            None => parse_list(ws@, p as int) is None,
        },
{
    let len = ws.len();
    if p >= len {
        return None;
    }
    let n = ws[p] as usize;
    if n > len - p - 1 {
        return None;
    }
    let mut xs: Vec<u32> = Vec::new();
    let mut i: usize = 0;
    while i < n
        invariant
            len == ws@.len(),
            p < ws@.len(),
            n == ws@[p as int],
            p + 1 + n <= ws@.len(),
            i <= n,
            xs@ == ws@.subrange(p + 1, p + 1 + i),
        decreases n - i,
    {
        assert(p + 1 + i < ws@.len());
        xs.push(ws[p + 1 + i]);
        proof {
            assert(xs@ =~= ws@.subrange(p + 1, p + 1 + i + 1));
        }
        i += 1;
    }
    Some((xs, p + 1 + n))
}

/// Reads fields from `p` to the end of `ws`.
pub open spec fn parse_fields_from(ws: Seq<u32>, p: int) -> Option<Seq<Seq<u32>>>
    decreases ws.len() - p,
{
    if p >= ws.len() || p < 0 {
        Some(Seq::empty())
    } else {
        match parse_list(ws, p) {
            Some((xs, q)) => match parse_fields_from(ws, q) {
                Some(rest) => Some(seq![xs] + rest),
                None => None,
            },
            None => None,
        }
    }
}

/// The fields of `fs`, written after `pre`, read back from the end of `pre`.
pub proof fn lemma_parse_fields(pre: Seq<u32>, fs: Seq<Seq<u32>>)
    requires
        forall|i: int| 0 <= i < fs.len() ==> (#[trigger] fs[i]).len() <= u32::MAX,
    ensures
        parse_fields_from(pre + fields_words_fwd(fs), pre.len() as int) == Some(fs),
    decreases fs.len(),
{
    if fs.len() > 0 {
        let first = fs[0];
        let tail = fs.drop_first();
        let ws = pre + fields_words_fwd(fs);
        assert(fields_words_fwd(fs) == list_words(first) + fields_words_fwd(tail));
        assert(ws =~= pre + list_words(first) + fields_words_fwd(tail));
        lemma_parse_list(pre, first, fields_words_fwd(tail));
        let pre2 = pre + list_words(first);
        assert(ws =~= pre2 + fields_words_fwd(tail));
        lemma_parse_fields(pre2, tail);
        assert(seq![first] + tail =~= fs);
    } else {
        assert(pre + fields_words_fwd(fs) =~= pre);
    }
}

/// The words of a sequence of fields, from the first one on.
pub open spec fn fields_words_fwd(fs: Seq<Seq<u32>>) -> Seq<u32>
    decreases fs.len(),
{
    if fs.len() == 0 {
        Seq::empty()
    } else {
        list_words(fs[0]) + fields_words_fwd(fs.drop_first())
    }
}

/// Appends a field.
pub(crate) fn push_field(ws: &mut Vec<u32>, xs: &Vec<u32>, Ghost(fs): Ghost<Seq<Seq<u32>>>)
    requires
        old(ws)@ == fields_words_fwd(fs),
        xs@.len() <= u32::MAX,
    ensures
        final(ws)@ == fields_words_fwd(fs.push(xs@)),
{
    proof {
        lemma_fields_push(fs, xs@);
    }
    ws.push(xs.len() as u32);
    let mut i: usize = 0;
    let ghost base = old(ws)@;
    while i < xs.len()
        invariant
            i <= xs@.len(),
            xs@.len() <= u32::MAX,
            ws@ == base + seq![xs@.len() as u32] + xs@.take(i as int),
        decreases xs@.len() - i,
    {
        ws.push(xs[i]);
        proof {
            assert(xs@.take(i + 1) =~= xs@.take(i as int).push(xs@[i as int]));
        }
        i += 1;
    }
    proof {
        assert(xs@.take(xs@.len() as int) =~= xs@);
        assert(base + seq![xs@.len() as u32] + xs@ =~= base + list_words(xs@));
    }
}

/// Appending a field appends its words.
pub proof fn lemma_fields_push(fs: Seq<Seq<u32>>, xs: Seq<u32>)
    ensures
        fields_words_fwd(fs.push(xs)) == fields_words_fwd(fs) + list_words(xs),
    decreases fs.len(),
{
    if fs.len() == 0 {
        let one = fs.push(xs);
        assert(one.drop_first() =~= Seq::<Seq<u32>>::empty());
        assert(fields_words_fwd(one.drop_first()) == Seq::<u32>::empty());
        assert(one[0] == xs);
        assert(fields_words_fwd(one) =~= list_words(xs));
        assert(fields_words_fwd(fs) == Seq::<u32>::empty());
    } else {
        lemma_fields_push(fs.drop_first(), xs);
        assert(fs.push(xs).drop_first() =~= fs.drop_first().push(xs));
        assert(fs.push(xs)[0] == fs[0]);
        assert(fields_words_fwd(fs.push(xs)) =~= fields_words_fwd(fs) + list_words(xs));
    }
}

/// Reads all the fields of `ws`.
pub fn read_fields(ws: &Vec<u32>) -> (r: Option<Vec<Vec<u32>>>)
    ensures
        match r {
            Some(fs) => parse_fields_from(ws@, 0) == Some(Seq::new(fs@.len(), |i: int| fs@[i]@)),
            None => parse_fields_from(ws@, 0) is None,
        },
{
    let mut fs: Vec<Vec<u32>> = Vec::new();
    let mut p: usize = 0;
    let len = ws.len();
    while p < len
        invariant
            len == ws@.len(),
            p <= len,
            match parse_fields_from(ws@, p as int) {
                Some(f) => parse_fields_from(ws@, 0) == Some(
                    Seq::new(fs@.len(), |i: int| fs@[i]@) + f,
                ),
                None => parse_fields_from(ws@, 0) is None,
            },
        decreases len - p,
    {
        match read_list(ws, p) {
            Some((xs, q)) => {
                let ghost before = Seq::new(fs@.len(), |i: int| fs@[i]@);
                fs.push(xs);
                proof {
                    let after = Seq::new(fs@.len(), |i: int| fs@[i]@);
                    assert(after =~= before.push(xs@));
                    match parse_fields_from(ws@, q as int) {
                        Some(f) => {
                            assert(parse_fields_from(ws@, p as int) == Some(seq![xs@] + f));
                            assert(before + (seq![xs@] + f) =~= after + f);
                        },
                        None => {},
                    }
                }
                p = q;
            },
            None => {
                return None;
            },
        }
    }
    proof {
        assert(parse_fields_from(ws@, p as int) == Some(Seq::<Seq<u32>>::empty()));
        assert(Seq::new(fs@.len(), |i: int| fs@[i]@) + Seq::<Seq<u32>>::empty() =~= Seq::new(fs@.len(), |i: int| fs@[i]@));
    }
    Some(fs)
}

/// The codes of the characters of `t`.
pub open spec fn char_codes(t: Seq<char>) -> Seq<u32> {
    t.map_values(|c: char| c as u32)
}

/// The characters of codes that are all scalar values.
pub open spec fn code_chars(xs: Seq<u32>) -> Option<Seq<char>> {
    if forall|i: int| 0 <= i < xs.len() ==> is_scalar(#[trigger] xs[i]) {
        Some(xs.map_values(|v: u32| v as char))
    } else {
        None
    }
}

pub proof fn lemma_code_chars(t: Seq<char>)
    ensures
        code_chars(char_codes(t)) == Some(t),
{
    let codes = char_codes(t);
    assert forall|i: int| 0 <= i < codes.len() implies is_scalar(#[trigger] codes[i]) by {
        vstd::utf8::char_is_scalar(t[i]);
    }
    let back = codes.map_values(|v: u32| v as char);
    assert forall|i: int| 0 <= i < t.len() implies #[trigger] back[i] == t[i] by {
        vstd::utf8::char_u32_cast(t[i], codes[i]);
    }
    assert(back =~= t);
}

} // verus!
