//! Matrix of connection costs between adjacent words.
use vstd::prelude::*;

use crate::errors::{Source, VibratoError};
use crate::text::{
    int_text, i16_text, line_ranges, lines, parse_i16_text, parse_u16, parse_unsigned, split,
    split_ranges, strip_cr, strip_cr_exec, u16_text,
};

verus! {

/// Matrix of connection costs.
#[derive(Clone, Debug)]
pub struct MatrixConnector {
    pub(crate) data: Vec<i16>,
    pub(crate) num_right: usize,
    pub(crate) num_left: usize,
}

impl MatrixConnector {
    pub closed spec fn spec_data(&self) -> Seq<i16> {
        self.data@
    }

    pub closed spec fn spec_num_right(&self) -> int {
        self.num_right as int
    }

    pub closed spec fn spec_num_left(&self) -> int {
        self.num_left as int
    }

    pub open spec fn wf(&self) -> bool {
        &&& self.spec_data().len() == self.spec_num_right() * self.spec_num_left()
        &&& 1 <= self.spec_num_right() <= u16::MAX + 1
        &&& 1 <= self.spec_num_left() <= u16::MAX + 1
    }

    /// The cost of connecting a word with right id `right_id` to a following
    /// word with left id `left_id`.
    pub open spec fn spec_cost(&self, right_id: int, left_id: int) -> int {
        self.spec_data()[left_id * self.spec_num_right() + right_id] as int
    }

    pub fn new(data: Vec<i16>, num_right: usize, num_left: usize) -> (r: Self)
        ensures
            r.spec_data() == data@,
            r.spec_num_right() == num_right,
            r.spec_num_left() == num_left,
    {
        MatrixConnector { data, num_right, num_left }
    }

    /// The costs, indexed by `left_id * num_right + right_id`.
    pub fn data(&self) -> (r: &Vec<i16>)
        ensures
            r@ == self.spec_data(),
    {
        &self.data
    }

    /// Checks the shape of the matrix (see `wf`).
    pub fn check_wf(&self) -> (b: bool)
        ensures
            b == self.wf(),
    {
        if self.num_right == 0 || self.num_right > 0x10000 || self.num_left == 0 || self.num_left
            > 0x10000 {
            return false;
        }
        let a = self.num_right as u64;
        let c = self.num_left as u64;
        assert(a * c <= 0x10000 * 0x10000) by (nonlinear_arith)
            requires
                a <= 0x10000,
                c <= 0x10000,
        ;
        let prod: u64 = a * c;
        prod == self.data.len() as u64
    }

    pub fn num_left(&self) -> (n: usize)
        ensures
            n == self.spec_num_left(),
    {
        self.num_left
    }

    pub fn num_right(&self) -> (n: usize)
        ensures
            n == self.spec_num_right(),
    {
        self.num_right
    }

    /// Gets the connection cost.
    pub fn cost(&self, right_id: u16, left_id: u16) -> (c: i16)
        requires
            self.wf(),
            right_id < self.spec_num_right(),
            left_id < self.spec_num_left(),
        ensures
            c == self.spec_cost(right_id as int, left_id as int),
    {
        let li = left_id as usize;
        let ri = right_id as usize;
        let n = self.data.len();
        proof {
            lemma_index_in(ri as int, li as int, self.num_right as int, self.num_left as int);
            assert(li * self.num_right + ri < n);
        }
        self.data[li * self.num_right + ri]
    }

    /// Creates a new instance from the text of `matrix.def`.
    #[verifier::rlimit(50)]
    pub fn from_chars(text: &Vec<char>) -> (r: Result<MatrixConnector, VibratoError>)
        ensures
            match r {
                Ok(m) => m.wf() && matrix_spec(text@) == Some(
                    (m.spec_num_right(), m.spec_num_left(), m.spec_data()),
                ),
                Err(e) => matrix_spec(text@) is None && e == VibratoError::InvalidFormat(
                    Source::Matrix,
                ),
            },
    {
        let err = VibratoError::InvalidFormat(Source::Matrix);
        let ls = lines(text);
        let ghost lsv = line_ranges(text@, 0, text@.len() as int);
        if ls.len() == 0 {
            return Err(err);
        }
        let (lo, hi0) = ls[0];
        proof {
            assert(lsv[0] == (lo as int, hi0 as int));
        }
        let hi = strip_cr_exec(text, lo, hi0);
        let cols = split(text, ' ', lo, hi);
        if cols.len() != 2 {
            return Err(err);
        }
        proof {
            assert(crate::text::ranges_view(cols@)[0] == (cols@[0].0 as int, cols@[0].1 as int));
            assert(crate::text::ranges_view(cols@)[1] == (cols@[1].0 as int, cols@[1].1 as int));
        }
        let num_right = match parse_u16(text, cols[0].0, cols[0].1) {
            Some(v) => v as usize,
            None => {
                return Err(err);
            },
        };
        let num_left = match parse_u16(text, cols[1].0, cols[1].1) {
            Some(v) => v as usize,
            None => {
                return Err(err);
            },
        };
        if num_right == 0 || num_left == 0 {
            return Err(err);
        }
        proof {
            assert(num_right * num_left <= 0xFFFF * 0xFFFF) by (nonlinear_arith)
                requires
                    num_right <= 0xFFFF,
                    num_left <= 0xFFFF,
            ;
        }
        let len = num_right * num_left;
        let mut data: Vec<i16> = Vec::new();
        let mut k: usize = 0;
        while k < len
            invariant
                k <= len,
                data@ == Seq::new(k as nat, |_i: int| 0i16),
            decreases len - k,
        {
            data.push(0);
            proof {
                assert(data@ =~= Seq::new((k + 1) as nat, |_i: int| 0i16));
            }
            k += 1;
        }
        let ghost nr = num_right as int;
        let ghost nl = num_left as int;
        proof {
            assert(lsv.subrange(1, 1) =~= Seq::<(int, int)>::empty());
            assert(data@ =~= Seq::new((nr * nl) as nat, |_i: int| 0i16));
        }
        let mut li: usize = 1;
        while li < ls.len()
            invariant
                err == VibratoError::InvalidFormat(Source::Matrix),
                crate::text::ranges_view(ls@) == lsv,
                1 <= li <= ls@.len(),
                forall|k: int| 0 <= k < ls@.len() ==> (#[trigger] ls@[k]).0 <= ls@[k].1 <= text@.len(),
                nr == num_right,
                nl == num_left,
                1 <= num_right <= 0xFFFF,
                1 <= num_left <= 0xFFFF,
                data@.len() == nr * nl,
                matrix_body(text@, lsv.subrange(1, li as int), nr, nl) == Some(data@),
                matrix_spec(text@) == (match matrix_body(text@, lsv.drop_first(), nr, nl) {
                    Some(d) => Some((nr, nl, d)),
                    None => None,
                }),
            decreases ls@.len() - li,
        {
            let (lo, hi0) = ls[li];
            proof {
                assert(lsv[li as int] == (lo as int, hi0 as int));
                assert(lsv.subrange(1, li + 1).drop_last() =~= lsv.subrange(1, li as int));
                assert(lsv.subrange(1, li + 1).last() == (lo as int, hi0 as int));
            }
            let hi = strip_cr_exec(text, lo, hi0);
            if lo < hi {
                let cols = split(text, ' ', lo, hi);
                if cols.len() != 3 {
                    proof {
                        assert(lsv.subrange(1, lsv.len() as int).take(li as int) =~= lsv.subrange(1, li + 1));
                        lemma_body_none_prefix(text@, lsv.subrange(1, lsv.len() as int), li as int, nr, nl);
                        assert(lsv.subrange(1, lsv.len() as int) =~= lsv.drop_first());
                    }
                    return Err(err);
                }
                proof {
                    assert(crate::text::ranges_view(cols@)[0] == (cols@[0].0 as int, cols@[0].1 as int));
                    assert(crate::text::ranges_view(cols@)[1] == (cols@[1].0 as int, cols@[1].1 as int));
                    assert(crate::text::ranges_view(cols@)[2] == (cols@[2].0 as int, cols@[2].1 as int));
                }
                let right = parse_unsigned(text, cols[0].0, cols[0].1, 0xFFFF);
                let left = parse_unsigned(text, cols[1].0, cols[1].1, 0xFFFF);
                let cost = parse_i16_text(text, cols[2].0, cols[2].1);
                match (right, left, cost) {
                    (Some(right), Some(left), Some(cost)) => {
                        if right as usize >= num_right || left as usize >= num_left {
                            proof {
                                assert(lsv.subrange(1, lsv.len() as int).take(li as int) =~= lsv.subrange(1, li + 1));
                                lemma_body_none_prefix(text@, lsv.subrange(1, lsv.len() as int), li as int, nr, nl);
                                assert(lsv.subrange(1, lsv.len() as int) =~= lsv.drop_first());
                            }
                            return Err(err);
                        }
                        let right = right as usize;
                        let left = left as usize;
                        let n = data.len();
                        proof {
                            lemma_index_in(right as int, left as int, nr, nl);
                            assert(left * num_right + right < n);
                        }
                        data.set(left * num_right + right, cost);
                    },
                    _ => {
                        proof {
                            assert(lsv.subrange(1, lsv.len() as int).take(li as int) =~= lsv.subrange(1, li + 1));
                            lemma_body_none_prefix(text@, lsv.subrange(1, lsv.len() as int), li as int, nr, nl);
                            assert(lsv.subrange(1, lsv.len() as int) =~= lsv.drop_first());
                        }
                        return Err(err);
                    },
                }
            }
            li += 1;
        }
        proof {
            assert(lsv.subrange(1, ls@.len() as int) =~= lsv.drop_first());
        }
        Ok(MatrixConnector { data, num_right, num_left })
    }

    /// Renumbers the connection ids: right id `r` becomes `right[r]` and left
    /// id `l` becomes `left[l]`, keeping every cost.
    pub fn map_connection_ids(&mut self, left: &Vec<u16>, right: &Vec<u16>)
        requires
            old(self).wf(),
            left@.len() == old(self).spec_num_left(),
            right@.len() == old(self).spec_num_right(),
            is_id_permutation(left@),
            is_id_permutation(right@),
        ensures
            final(self).wf(),
            final(self).spec_num_left() == old(self).spec_num_left(),
            final(self).spec_num_right() == old(self).spec_num_right(),
            forall|r: int, l: int|
                0 <= r < right@.len() && 0 <= l < left@.len() ==> #[trigger] final(self).spec_cost(
                    right@[r] as int,
                    left@[l] as int,
                ) == old(self).spec_cost(r, l),
    {
        let nr = self.num_right;
        let nl = self.num_left;
        let mut mapped: Vec<i16> = self.data.clone();
        let mut r: usize = 0;
        while r < nr
            invariant
                nr == old(self).num_right,
                nl == old(self).num_left,
                self.num_right == nr,
                self.num_left == nl,
                self.data == old(self).data,
                old(self).wf(),
                left@.len() == nl,
                right@.len() == nr,
                is_id_permutation(left@),
                is_id_permutation(right@),
                mapped@.len() == nr * nl,
                r <= nr,
                forall|r1: int, l1: int|
                    0 <= r1 < r && 0 <= l1 < nl ==> #[trigger] mapped@[left@[l1] * nr + right@[r1]]
                        == old(self).data@[l1 * nr + r1],
            decreases nr - r,
        {
            let mut l: usize = 0;
            while l < nl
                invariant
                    nr == old(self).num_right,
                    nl == old(self).num_left,
                    self.data == old(self).data,
                    old(self).wf(),
                    left@.len() == nl,
                    right@.len() == nr,
                    is_id_permutation(left@),
                    is_id_permutation(right@),
                    mapped@.len() == nr * nl,
                    r < nr,
                    l <= nl,
                    forall|r1: int, l1: int|
                        (0 <= r1 < r && 0 <= l1 < nl) || (r1 == r && 0 <= l1 < l)
                            ==> #[trigger] mapped@[left@[l1] * nr + right@[r1]]
                            == old(self).data@[l1 * nr + r1],
                decreases nl - l,
            {
                let nrid = right[r] as usize;
                let nlid = left[l] as usize;
                proof {
                    lemma_index_in(r as int, l as int, nr as int, nl as int);
                    lemma_index_in(nrid as int, nlid as int, nr as int, nl as int);
                }
                let n1 = self.data.len();
                let n2 = mapped.len();
                assert(l * nr + r < n1);
                assert(nlid * nr + nrid < n2);
                let v = self.data[l * nr + r];
                let ghost before = mapped@;
                mapped.set(nlid * nr + nrid, v);
                proof {
                    assert forall|r1: int, l1: int|
                        (0 <= r1 < r && 0 <= l1 < nl) || (r1 == r && 0 <= l1 < l + 1)
                            implies #[trigger] mapped@[left@[l1] * nr + right@[r1]]
                            == old(self).data@[l1 * nr + r1] by {
                        assert(mapped@ == before.update(nlid * nr + nrid, v));
                        if r1 == r && l1 == l {
                            assert(left@[l1] * nr + right@[r1] == nlid * nr + nrid);
                            assert(mapped@[left@[l1] * nr + right@[r1]] == v);
                        } else {
                            assert(right@[r1] < nr && left@[l1] < nl);
                            if r1 != r {
                                assert(right@[r1] != right@[r as int]);
                            } else {
                                assert(left@[l1] != left@[l as int]);
                            }
                            lemma_index_inj(
                                right@[r1] as int,
                                left@[l1] as int,
                                nrid as int,
                                nlid as int,
                                nr as int,
                            );
                            assert(before[left@[l1] * nr + right@[r1]] == old(self).data@[l1 * nr
                                + r1]);
                            assert(left@[l1] * nr + right@[r1] != nlid * nr + nrid);
                            lemma_index_in(right@[r1] as int, left@[l1] as int, nr as int, nl as int);
                            assert(mapped@[left@[l1] * nr + right@[r1]] == before[left@[l1] * nr
                                + right@[r1]]);
                        }
                    }
                }
                l += 1;
            }
            r += 1;
        }
        self.data = mapped;
        proof {
            assert forall|r1: int, l1: int|
                0 <= r1 < right@.len() && 0 <= l1 < left@.len() implies #[trigger] self.spec_cost(
                right@[r1] as int,
                left@[l1] as int,
            ) == old(self).spec_cost(r1, l1) by {
                assert(mapped@[left@[l1] * nr + right@[r1]] == old(self).data@[l1 * nr + r1]);
            }
        }
    }
}

/// Whether `m` maps the ids `0..m.len()` one-to-one onto themselves.
pub open spec fn is_id_permutation(m: Seq<u16>) -> bool {
    &&& forall|i: int| 0 <= i < m.len() ==> (#[trigger] m[i]) < m.len()
    &&& forall|i: int, j: int| 0 <= i < m.len() && 0 <= j < m.len() && i != j ==> #[trigger] m[i]
        != #[trigger] m[j]
}

proof fn lemma_index_in(r: int, l: int, nr: int, nl: int)
    requires
        0 <= r < nr,
        0 <= l < nl,
    ensures
        0 <= l * nr,
        0 <= l * nr + r < nr * nl,
{
    assert(0 <= l * nr + r < nr * nl) by (nonlinear_arith)
        requires
            0 <= r < nr,
            0 <= l < nl,
    ;
}

proof fn lemma_index_inj(r1: int, l1: int, r2: int, l2: int, nr: int)
    requires
        0 <= r1 < nr,
        0 <= r2 < nr,
        0 <= l1,
        0 <= l2,
        !(r1 == r2 && l1 == l2),
    ensures
        l1 * nr + r1 != l2 * nr + r2,
{
    if l1 == l2 {
    } else if l1 < l2 {
        assert(l1 * nr + r1 < l2 * nr + r2) by (nonlinear_arith)
            requires
                0 <= r1 < nr,
                0 <= r2,
                l1 < l2,
        ;
    } else {
        assert(l2 * nr + r2 < l1 * nr + r1) by (nonlinear_arith)
            requires
                0 <= r2 < nr,
                0 <= r1,
                l2 < l1,
        ;
    }
}

/// The costs set by the body lines `ls` of `matrix.def` over a zero matrix,
/// or `None` if a line breaks the format. A body line is
/// `right_id left_id cost`, separated by single spaces; empty lines are skipped.
pub open spec fn matrix_body(s: Seq<char>, ls: Seq<(int, int)>, nr: int, nl: int) -> Option<Seq<i16>>
    decreases ls.len(),
{
    if ls.len() == 0 {
        Some(Seq::new((nr * nl) as nat, |_i: int| 0i16))
    } else {
        match matrix_body(s, ls.drop_last(), nr, nl) {
            None => None,
            Some(d) => {
                let lo = ls.last().0;
                let hi = strip_cr(s, lo, ls.last().1);
                let c = split_ranges(s, ' ', lo, hi);
                if lo >= hi {
                    Some(d)
                } else if c.len() != 3 {
                    None
                } else {
                    match (
                        int_text(s, c[0].0, c[0].1, false),
                        int_text(s, c[1].0, c[1].1, false),
                        i16_text(s, c[2].0, c[2].1),
                    ) {
                        (Some(r), Some(l), Some(v)) => if r < nr && l < nl {
                            Some(d.update(l * nr + r, v))
                        } else {
                            None
                        },
                        _ => None,
                    }
                }
            },
        }
    }
}

/// The meaning of `matrix.def`: the numbers of right and left ids from the
/// header line `num_right num_left`, and the costs indexed by `left * num_right + right`.
pub open spec fn matrix_spec(s: Seq<char>) -> Option<(int, int, Seq<i16>)> {
    let ls = line_ranges(s, 0, s.len() as int);
    if ls.len() == 0 {
        None
    } else {
        let lo = ls[0].0;
        let hi = strip_cr(s, lo, ls[0].1);
        let c = split_ranges(s, ' ', lo, hi);
        if c.len() != 2 {
            None
        } else {
            match (u16_text(s, c[0].0, c[0].1), u16_text(s, c[1].0, c[1].1)) {
                (Some(nr), Some(nl)) => if nr == 0 || nl == 0 {
                    None
                } else {
                    match matrix_body(s, ls.drop_first(), nr as int, nl as int) {
                        Some(d) => Some((nr as int, nl as int, d)),
                        None => None,
                    }
                },
                _ => None,
            }
        }
    }
}

proof fn lemma_body_none_prefix(s: Seq<char>, ls: Seq<(int, int)>, k: int, nr: int, nl: int)
    requires
        0 <= k <= ls.len(),
        matrix_body(s, ls.take(k), nr, nl) is None,
    ensures
        matrix_body(s, ls, nr, nl) is None,
    decreases ls.len() - k,
{
    if k < ls.len() {
        assert(ls.take(k + 1).drop_last() =~= ls.take(k));
        lemma_body_none_prefix(s, ls, k + 1, nr, nl);
    } else {
        assert(ls.take(k) =~= ls);
    }
}

} // verus!
