//! An input sentence with the per-character information used in tokenization.
use vstd::prelude::*;
use vstd::string::StringSliceAdditionalSpecFns;
use vstd::utf8::{
    decode_utf8, encode_scalar, encode_utf8, encode_utf8_decode_utf8, encode_utf8_first_scalar,
    encode_utf8_valid_utf8, is_char_boundary, pop_first_scalar,
};

use crate::dictionary::character::{CharInfo, CharProperty};
use crate::text::str_chars;

verus! {

/// The number of characters after position `i` (itself included) that
/// share a category with their predecessor: the length of the longest run
/// starting at `i` in which adjacent characters have a common category.
pub open spec fn groupable_at(cs: Seq<CharInfo>, i: int) -> int
    decreases cs.len() - i,
{
    if i + 1 < cs.len() && (cs[i].cate_idset & cs[i + 1].cate_idset) != 0 {
        groupable_at(cs, i + 1) + 1
    } else {
        1
    }
}

pub proof fn lemma_groupable_bounds(cs: Seq<CharInfo>, i: int)
    requires
        0 <= i < cs.len(),
    ensures
        1 <= groupable_at(cs, i) <= cs.len() - i,
    decreases cs.len() - i,
{
    if i + 1 < cs.len() && (cs[i].cate_idset & cs[i + 1].cate_idset) != 0 {
        lemma_groupable_bounds(cs, i + 1);
    }
}

/// The byte offset of character position `i` in the UTF-8 encoding of `chars`.
pub open spec fn byte_pos(chars: Seq<char>, i: int) -> int {
    encode_utf8(chars.take(i)).len() as int
}

/// An input sentence.
pub struct Sentence {
    pub(crate) input: String,
    pub(crate) chars: Vec<char>,
    pub(crate) c2b: Vec<usize>,
    pub(crate) cinfos: Vec<CharInfo>,
    pub(crate) groupable: Vec<usize>,
}

impl Sentence {
    pub closed spec fn spec_chars(&self) -> Seq<char> {
        self.chars@
    }

    pub closed spec fn spec_input(&self) -> Seq<char> {
        self.input@
    }

    pub closed spec fn spec_cinfos(&self) -> Seq<CharInfo> {
        self.cinfos@
    }

    pub closed spec fn spec_groupable(&self) -> Seq<usize> {
        self.groupable@
    }

    pub closed spec fn spec_c2b(&self) -> Seq<usize> {
        self.c2b@
    }

    /// The number of characters.
    pub open spec fn spec_len(&self) -> int {
        self.spec_chars().len() as int
    }

    /// The input holds the characters, and the byte offset of each
    /// character position is known.
    pub open spec fn text_wf(&self) -> bool {
        &&& self.spec_input() == self.spec_chars()
        &&& self.spec_c2b().len() == self.spec_len() + 1
        &&& forall|i: int|
            0 <= i <= self.spec_len() ==> #[trigger] self.spec_c2b()[i] == byte_pos(
                self.spec_chars(),
                i,
            )
    }

    /// The sentence holds the characters of its input, the information of
    /// each under `prop`, the groupable lengths and the byte offsets.
    pub open spec fn wf(&self, prop: &CharProperty) -> bool {
        &&& self.text_wf()
        &&& self.spec_input() == self.spec_chars()
        &&& self.spec_cinfos().len() == self.spec_len()
        &&& self.spec_groupable().len() == self.spec_len()
        &&& self.spec_c2b().len() == self.spec_len() + 1
        &&& self.spec_len() <= u32::MAX
        &&& forall|i: int|
            0 <= i < self.spec_len() ==> #[trigger] self.spec_cinfos()[i] == prop.spec_char_info(
                self.spec_chars()[i],
            )
        &&& forall|i: int|
            0 <= i < self.spec_len() ==> #[trigger] self.spec_groupable()[i] == groupable_at(
                self.spec_cinfos(),
                i,
            )
        &&& forall|i: int|
            0 <= i <= self.spec_len() ==> #[trigger] self.spec_c2b()[i] == byte_pos(
                self.spec_chars(),
                i,
            )
    }

    /// Creates an empty sentence: no input, characters, character
    /// information, groupable lengths or byte offsets.
    pub fn new() -> (s: Self)
        ensures
            s.spec_len() == 0,
            s.spec_input() == Seq::<char>::empty(),
            s.spec_chars() == Seq::<char>::empty(),
            s.spec_cinfos() == Seq::<CharInfo>::empty(),
            s.spec_groupable() == Seq::<usize>::empty(),
            s.spec_c2b() == Seq::<usize>::empty(),
    {
        Sentence {
            input: String::new(),
            chars: Vec::new(),
            c2b: Vec::new(),
            cinfos: Vec::new(),
            groupable: Vec::new(),
        }
    }

    /// Sets the sentence to `input` and computes its character information.
    pub fn compile(input: &str, prop: &CharProperty) -> (s: Self)
        requires
            input@.len() <= u32::MAX,
        ensures
            s.wf(prop),
            s.spec_chars() == input@,
    {
        broadcast use vstd::utf8::char_is_scalar;

        let chars = str_chars(input);
        let n = chars.len();
        let total = input.as_bytes().len();
        let mut c2b: Vec<usize> = Vec::new();
        let mut cinfos: Vec<CharInfo> = Vec::new();
        let mut pos: usize = 0;
        let mut i: usize = 0;
        proof {
            assert(chars@.take(0) =~= Seq::<char>::empty());
            lemma_byte_pos_le(chars@, 0);
        }
        while i < n
            invariant
                n == chars@.len(),
                chars@ == input@,
                total == encode_utf8(input@).len(),
                i <= n,
                pos == byte_pos(chars@, i as int),
                c2b@.len() == i,
                cinfos@.len() == i,
                forall|k: int| 0 <= k < i ==> #[trigger] c2b@[k] == byte_pos(chars@, k),
                forall|k: int|
                    0 <= k < i ==> #[trigger] cinfos@[k] == prop.spec_char_info(chars@[k]),
            decreases n - i,
        {
            let c = chars[i];
            c2b.push(pos);
            cinfos.push(prop.char_info(c));
            let w = char_width(c);
            proof {
                lemma_byte_pos_step(chars@, i as int);
                lemma_byte_pos_le(chars@, i + 1);
            }
            pos = pos + w;
            i += 1;
        }
        c2b.push(pos);
        let mut groupable: Vec<usize> = Vec::new();
        let mut k: usize = 0;
        while k < n
            invariant
                k <= n,
                groupable@.len() == k,
            decreases n - k,
        {
            groupable.push(1);
            k += 1;
        }
        let mut j: usize = n;
        while j > 0
            invariant
                n == cinfos@.len(),
                j <= n,
                groupable@.len() == n,
                forall|t: int| j <= t < n ==> #[trigger] groupable@[t] == groupable_at(cinfos@, t),
            decreases j,
        {
            let i = j - 1;
            if i + 1 < n && (cinfos[i].cate_idset & cinfos[i + 1].cate_idset) != 0 {
                proof {
                    lemma_groupable_bounds(cinfos@, i + 1);
                }
                let g = groupable[i + 1] + 1;
                groupable.set(i, g);
            } else {
                groupable.set(i, 1);
            }
            j = i;
        }
        let s = Sentence { input: crate::text::chars_to_string(&chars), chars, c2b, cinfos, groupable };
        proof {
            assert forall|t: int| 0 <= t <= s.spec_len() implies #[trigger] s.spec_c2b()[t]
                == byte_pos(s.spec_chars(), t) by {
                if t < n {
                    assert(c2b@[t] == byte_pos(chars@, t));
                }
            }
        }
        s
    }

    /// The characters of the sentence.
    pub fn chars(&self) -> (r: &Vec<char>)
        ensures
            r@ == self.spec_chars(),
    {
        &self.chars
    }

    /// The raw input.
    pub fn raw(&self) -> (r: &str)
        ensures
            r@ == self.spec_input(),
    {
        self.input.as_str()
    }

    pub fn len_char(&self) -> (n: usize)
        ensures
            n == self.spec_len(),
    {
        self.chars.len()
    }

    pub fn byte_position(&self, pos_char: usize) -> (b: usize)
        requires
            pos_char < self.spec_c2b().len(),
        ensures
            b == self.spec_c2b()[pos_char as int],
    {
        self.c2b[pos_char]
    }

    /// The part of the input between two character positions.
    pub fn substring(&self, start: usize, end: usize) -> (r: &str)
        requires
            self.text_wf(),
            start <= end <= self.spec_len(),
        ensures
            r@ == self.spec_chars().subrange(start as int, end as int),
    {
        let ghost chars = self.spec_chars();
        let b_start = self.c2b[start];
        let b_end = self.c2b[end];
        let s = self.input.as_str();
        proof {
            assert(chars =~= chars.take(end as int) + chars.skip(end as int));
            lemma_char_boundary(chars.take(end as int), chars.skip(end as int));
            lemma_encode_utf8_concat(chars.take(end as int), chars.skip(end as int));
        }
        let (head, _) = s.split_at(b_end);
        proof {
            assert(head.spec_bytes() =~= encode_utf8(chars.take(end as int)));
            lemma_encode_injective(head@, chars.take(end as int));
            let t = chars.take(end as int);
            assert(t =~= t.take(start as int) + t.skip(start as int));
            assert(t.take(start as int) =~= chars.take(start as int));
            lemma_char_boundary(t.take(start as int), t.skip(start as int));
            lemma_encode_utf8_concat(t.take(start as int), t.skip(start as int));
        }
        let (_, mid) = head.split_at(b_start);
        proof {
            let t = chars.take(end as int);
            assert(mid.spec_bytes() =~= encode_utf8(t.skip(start as int)));
            lemma_encode_injective(mid@, t.skip(start as int));
            assert(t.skip(start as int) =~= chars.subrange(start as int, end as int));
        }
        mid
    }

    pub fn char_info(&self, pos_char: usize) -> (c: CharInfo)
        requires
            pos_char < self.spec_cinfos().len(),
        ensures
            c == self.spec_cinfos()[pos_char as int],
    {
        self.cinfos[pos_char]
    }

    pub fn groupable(&self, pos_char: usize) -> (g: usize)
        requires
            pos_char < self.spec_groupable().len(),
        ensures
            g == self.spec_groupable()[pos_char as int],
    {
        self.groupable[pos_char]
    }
}

/// The number of bytes of the UTF-8 encoding of `c`.
fn char_width(c: char) -> (w: usize)
    ensures
        w == encode_scalar(c as u32).len(),
{
    broadcast use vstd::utf8::char_is_scalar;

    let v = c as u32;
    if v <= 0x7F {
        1
    } else if v <= 0x7FF {
        2
    } else if v <= 0xFFFF {
        3
    } else {
        4
    }
}

pub proof fn lemma_encode_utf8_concat(x: Seq<char>, y: Seq<char>)
    ensures
        encode_utf8(x + y) == encode_utf8(x) + encode_utf8(y),
    decreases x.len(),
{
    if x.len() == 0 {
        assert(x + y =~= y);
    } else {
        assert((x + y).drop_first() =~= x.drop_first() + y);
        lemma_encode_utf8_concat(x.drop_first(), y);
        assert(encode_utf8(x + y) =~= encode_utf8(x) + encode_utf8(y));
    }
}

proof fn lemma_encode_single(c: char)
    ensures
        encode_utf8(seq![c]) == encode_scalar(c as u32),
{
    reveal_with_fuel(encode_utf8, 2);
    assert(seq![c].drop_first() =~= Seq::<char>::empty());
    assert(encode_utf8(Seq::<char>::empty()) =~= Seq::<u8>::empty());
    assert(encode_utf8(seq![c]) =~= encode_scalar(c as u32));
}

proof fn lemma_byte_pos_step(chars: Seq<char>, i: int)
    requires
        0 <= i < chars.len(),
    ensures
        byte_pos(chars, i + 1) == byte_pos(chars, i) + encode_scalar(chars[i] as u32).len(),
{
    assert(chars.take(i + 1) =~= chars.take(i) + seq![chars[i]]);
    lemma_encode_utf8_concat(chars.take(i), seq![chars[i]]);
    lemma_encode_single(chars[i]);
}

/// The end of the encoding of `x` is a character boundary of that of `x + y`.
proof fn lemma_char_boundary(x: Seq<char>, y: Seq<char>)
    ensures
        is_char_boundary(encode_utf8(x + y), encode_utf8(x).len() as int),
    decreases x.len(),
{
    broadcast use encode_utf8_valid_utf8;

    if x.len() > 0 {
        let xy = x + y;
        encode_utf8_first_scalar(xy);
        assert(xy.drop_first() =~= x.drop_first() + y);
        assert(pop_first_scalar(encode_utf8(xy)) =~= encode_utf8(xy.drop_first()));
        lemma_char_boundary(x.drop_first(), y);
        assert(xy[0] == x[0]);
    }
}

/// Equal encodings come from equal characters.
proof fn lemma_encode_injective(x: Seq<char>, y: Seq<char>)
    requires
        encode_utf8(x) == encode_utf8(y),
    ensures
        x == y,
{
    encode_utf8_decode_utf8(x);
    encode_utf8_decode_utf8(y);
}

proof fn lemma_byte_pos_le(chars: Seq<char>, i: int)
    requires
        0 <= i <= chars.len(),
    ensures
        byte_pos(chars, i) <= encode_utf8(chars).len(),
{
    assert(chars =~= chars.take(i) + chars.skip(i));
    lemma_encode_utf8_concat(chars.take(i), chars.skip(i));
}

} // verus!
