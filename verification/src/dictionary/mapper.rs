//! Renumbering of connection ids.
use vstd::prelude::*;

use crate::dictionary::connector::is_id_permutation;
use crate::errors::{Source, VibratoError};

verus! {

/// Mapper for connection ids: old id `i` becomes `left[i]` (or `right[i]`).
#[derive(Clone, Debug)]
pub struct ConnIdMapper {
    pub(crate) left: Vec<u16>,
    pub(crate) right: Vec<u16>,
}

/// The meaning of a mapping list `map`: its `i`-th item (1-origin) is the old
/// id that becomes the new id `i`; id 0 stays 0.
pub open spec fn is_inverse_of_list(m: Seq<u16>, map: Seq<u16>) -> bool {
    &&& m.len() == map.len() + 1
    &&& m[0] == 0
    &&& forall|i: int| 0 <= i < map.len() ==> m[#[trigger] map[i] as int] == i + 1
}

/// Whether `map` lists every id `1..=map.len()` exactly once.
pub open spec fn is_valid_list(map: Seq<u16>) -> bool {
    &&& forall|i: int| 0 <= i < map.len() ==> 1 <= #[trigger] map[i] <= map.len()
    &&& forall|i: int, j: int|
        0 <= i < map.len() && 0 <= j < map.len() && i != j ==> #[trigger] map[i] != #[trigger] map[j]
    &&& map.len() < 0xFFFF
}

impl ConnIdMapper {
    pub closed spec fn spec_left(&self) -> Seq<u16> {
        self.left@
    }

    pub closed spec fn spec_right(&self) -> Seq<u16> {
        self.right@
    }

    pub open spec fn wf(&self) -> bool {
        is_id_permutation(self.spec_left()) && is_id_permutation(self.spec_right())
    }

    /// Creates a mapper from the new ids of the old left and right ids.
    pub(crate) fn from_maps(left: Vec<u16>, right: Vec<u16>) -> (r: Self)
        ensures
            r.spec_left() == left@,
            r.spec_right() == right@,
    {
        ConnIdMapper { left, right }
    }

    pub fn left_map(&self) -> (r: &Vec<u16>)
        ensures
            r@ == self.spec_left(),
    {
        &self.left
    }

    pub fn right_map(&self) -> (r: &Vec<u16>)
        ensures
            r@ == self.spec_right(),
    {
        &self.right
    }

    /// Builds a mapper from the lists of the old left and right ids, in the
    /// order of their new ids starting at 1.
    pub fn from_iter(lmap: Vec<u16>, rmap: Vec<u16>) -> (r: Result<Self, VibratoError>)
        ensures
            match r {
                Ok(m) => m.wf() && is_inverse_of_list(m.spec_left(), lmap@) && is_inverse_of_list(
                    m.spec_right(),
                    rmap@,
                ) && is_valid_list(lmap@) && is_valid_list(rmap@),
                Err(e) => e == VibratoError::InvalidArgument(Source::Mapping) && !(is_valid_list(
                    lmap@,
                ) && is_valid_list(rmap@)),
            },
    {
        let left = Self::parse(&lmap)?;
        let right = Self::parse(&rmap)?;
        Ok(ConnIdMapper { left, right })
    }

    /// Inverts a mapping list.
    fn parse(map: &Vec<u16>) -> (r: Result<Vec<u16>, VibratoError>)
        ensures
            match r {
                Ok(m) => is_id_permutation(m@) && is_inverse_of_list(m@, map@) && is_valid_list(
                    map@,
                ),
                Err(e) => e == VibratoError::InvalidArgument(Source::Mapping) && !is_valid_list(
                    map@,
                ),
            },
    {
        let err = VibratoError::InvalidArgument(Source::Mapping);
        let n = map.len();
        if n >= 0xFFFF {
            return Err(err);
        }
        let mut m: Vec<u16> = Vec::new();
        let mut k: usize = 0;
        while k <= n
            invariant
                n == map@.len(),
                n < 0xFFFF,
                k <= n + 1,
                m@.len() == k,
                forall|j: int| 0 <= j < k ==> m@[j] == u16::MAX,
            decreases n + 1 - k,
        {
            m.push(u16::MAX);
            k += 1;
        }
        m.set(0, 0);
        let mut i: usize = 0;
        while i < n
            invariant
                err == VibratoError::InvalidArgument(Source::Mapping),
                n == map@.len(),
                n < 0xFFFF,
                i <= n,
                m@.len() == n + 1,
                m@[0] == 0,
                forall|j: int| 0 <= j < i ==> 1 <= #[trigger] map@[j] <= n,
                forall|j: int| 0 <= j < i ==> m@[#[trigger] map@[j] as int] == j + 1,
                forall|s: int|
                    1 <= s <= n && m@[s] != u16::MAX ==> 1 <= #[trigger] m@[s] <= i && map@[m@[s]
                        - 1] == s,
                forall|s: int| 1 <= s <= n ==> (#[trigger] m@[s] == u16::MAX || m@[s] <= i),
            decreases n - i,
        {
            let old_id = map[i];
            if old_id == 0 {
                return Err(err);
            }
            if old_id as usize > n {
                return Err(err);
            }
            if m[old_id as usize] != u16::MAX {
                proof {
                    let j = m@[old_id as int] - 1;
                    assert(map@[j] == old_id);
                    assert(j != i);
                }
                return Err(err);
            }
            m.set(old_id as usize, (i + 1) as u16);
            i += 1;
        }
        let mut s: usize = 1;
        while s <= n
            invariant
                err == VibratoError::InvalidArgument(Source::Mapping),
                n == map@.len(),
                n < 0xFFFF,
                1 <= s <= n + 1,
                m@.len() == n + 1,
                forall|t: int| 1 <= t < s ==> #[trigger] m@[t] != u16::MAX,
                m@[0] == 0,
                forall|j: int| 0 <= j < n ==> 1 <= #[trigger] map@[j] <= n,
                forall|j: int| 0 <= j < n ==> m@[#[trigger] map@[j] as int] == j + 1,
                forall|t: int|
                    1 <= t <= n && m@[t] != u16::MAX ==> 1 <= #[trigger] m@[t] <= n && map@[m@[t]
                        - 1] == t,
            decreases n + 1 - s,
        {
            if m[s] == u16::MAX {
                proof {
                    if is_valid_list(map@) {
                        lemma_valid_list_covers(map@, s as int);
                        let i = choose|i: int| 0 <= i < map@.len() && map@[i] == s;
                        assert(m@[map@[i] as int] == i + 1);
                    }
                }
                return Err(err);
            }
            s += 1;
        }
        proof {
            assert forall|a: int, b: int|
                0 <= a < m@.len() && 0 <= b < m@.len() && a != b implies #[trigger] m@[a]
                != #[trigger] m@[b] by {
                if a > 0 && b > 0 && m@[a] == m@[b] {
                    assert(map@[m@[a] - 1] == a);
                    assert(map@[m@[b] - 1] == b);
                }
            }
            assert forall|a: int| 0 <= a < m@.len() implies (#[trigger] m@[a]) < m@.len() by {
                if a > 0 {
                    assert(m@[a] != u16::MAX);
                }
            }
            assert forall|a: int, b: int|
                0 <= a < map@.len() && 0 <= b < map@.len() && a != b implies #[trigger] map@[a]
                != #[trigger] map@[b] by {
                assert(m@[map@[a] as int] == a + 1);
                assert(m@[map@[b] as int] == b + 1);
            }
        }
        Ok(m)
    }
}

proof fn lemma_valid_list_covers(map: Seq<u16>, s: int)
    requires
        is_valid_list(map),
        1 <= s <= map.len(),
    ensures
        exists|i: int| 0 <= i < map.len() && map[i] == s,
{
    broadcast use vstd::seq_lib::group_seq_properties;
    broadcast use vstd::set::group_set_axioms;

    let mi = map.map_values(|x: u16| x as int);
    assert forall|i: int, j: int|
        0 <= i < mi.len() && 0 <= j < mi.len() && i != j implies mi[i] != mi[j] by {
        assert(map[i] != map[j]);
    }
    mi.unique_seq_to_set();
    let x = mi.to_set();
    let y = vstd::set_lib::set_int_range(1, map.len() + 1int);
    vstd::set_lib::lemma_int_range(1, map.len() + 1int);
    assert forall|v: int| x.contains(v) implies y.contains(v) by {
        let i = choose|i: int| 0 <= i < mi.len() && mi[i] == v;
        assert(1 <= map[i] <= map.len());
    }
    vstd::set_lib::lemma_subset_equality(x, y);
    assert(y.contains(s));
    assert(x.contains(s));
    let i = choose|i: int| 0 <= i < mi.len() && mi[i] == s;
    assert(map[i] == s);
}

/// Counter of the occurrences of connection ids, to reorder their mappings.
#[derive(Clone, Debug)]
pub struct ConnIdCounter {
    pub(crate) lid_count: Vec<u64>,
    pub(crate) rid_count: Vec<u64>,
}

impl ConnIdCounter {
    pub closed spec fn spec_lid_count(&self) -> Seq<u64> {
        self.lid_count@
    }

    pub closed spec fn spec_rid_count(&self) -> Seq<u64> {
        self.rid_count@
    }

    /// Creates a new counter for the matrix of `num_left x num_right`.
    pub fn new(num_left: usize, num_right: usize) -> (r: Self)
        ensures
            r.spec_lid_count() == Seq::new(num_left as nat, |_i: int| 0u64),
            r.spec_rid_count() == Seq::new(num_right as nat, |_i: int| 0u64),
    {
        ConnIdCounter { lid_count: zeros(num_left), rid_count: zeros(num_right) }
    }

    /// Adds `num` occurrences of the left id and of the right id; a count
    /// stops at `u64::MAX`.
    pub fn add(&mut self, left_id: u16, right_id: u16, num: u64)
        requires
            left_id < old(self).spec_lid_count().len(),
            right_id < old(self).spec_rid_count().len(),
        ensures
            final(self).spec_lid_count() == old(self).spec_lid_count().update(
                left_id as int,
                sat_add(old(self).spec_lid_count()[left_id as int], num),
            ),
            final(self).spec_rid_count() == old(self).spec_rid_count().update(
                right_id as int,
                sat_add(old(self).spec_rid_count()[right_id as int], num),
            ),
    {
        let l = self.lid_count[left_id as usize].saturating_add(num);
        self.lid_count.set(left_id as usize, l);
        let r = self.rid_count[right_id as usize].saturating_add(num);
        self.rid_count.set(right_id as usize, r);
    }

    /// The counts of the left ids and of the right ids.
    pub fn counts(&self) -> (r: (&Vec<u64>, &Vec<u64>))
        ensures
            r.0@ == self.spec_lid_count(),
            r.1@ == self.spec_rid_count(),
    {
        (&self.lid_count, &self.rid_count)
    }
}

/// The counts after one occurrence of each pair `(left id, right id)` of
/// `pairs` is added to `(lid, rid)`, in order (an id beyond the lists
/// counts nowhere).
pub open spec fn counted(lid: Seq<u64>, rid: Seq<u64>, pairs: Seq<(u16, u16)>) -> (Seq<u64>, Seq<u64>)
    decreases pairs.len(),
{
    if pairs.len() == 0 {
        (lid, rid)
    } else {
        let (l, r) = counted(lid, rid, pairs.drop_last());
        let (a, b) = pairs.last();
        (
            if a < l.len() {
                l.update(a as int, sat_add(l[a as int], 1))
            } else {
                l
            },
            if b < r.len() {
                r.update(b as int, sat_add(r[b as int], 1))
            } else {
                r
            },
        )
    }
}

/// Counting keeps the lengths of the count lists.
pub proof fn lemma_counted_len(lid: Seq<u64>, rid: Seq<u64>, pairs: Seq<(u16, u16)>)
    ensures
        counted(lid, rid, pairs).0.len() == lid.len(),
        counted(lid, rid, pairs).1.len() == rid.len(),
    decreases pairs.len(),
{
    if pairs.len() > 0 {
        lemma_counted_len(lid, rid, pairs.drop_last());
    }
}

/// Whether `m` maps the ids `0..m.len()` one to one onto themselves.
pub fn check_id_permutation(m: &Vec<u16>) -> (b: bool)
    ensures
        b == is_id_permutation(m@),
{
    let n = m.len();
    let mut seen: Vec<bool> = Vec::new();
    let mut z: usize = 0;
    while z < n
        invariant
            z <= n,
            seen@.len() == z,
            forall|k: int| 0 <= k < z ==> !(#[trigger] seen@[k]),
        decreases n - z,
    {
        seen.push(false);
        z += 1;
    }
    let mut i: usize = 0;
    while i < n
        invariant
            n == m@.len(),
            i <= n,
            seen@.len() == n,
            forall|k: int| 0 <= k < i ==> (#[trigger] m@[k]) < n && seen@[m@[k] as int],
            forall|a: int, b: int| 0 <= a < i && 0 <= b < i && a != b ==> #[trigger] m@[a] != #[trigger] m@[b],
            forall|v: int| 0 <= v < n && #[trigger] seen@[v] ==> exists|k: int| 0 <= k < i && m@[k] == v,
        decreases n - i,
    {
        let v = m[i] as usize;
        if v >= n {
            return false;
        }
        if seen[v] {
            proof {
                let k = choose|k: int| 0 <= k < i && m@[k] == v;
                assert(m@[k] == m@[i as int]);
            }
            return false;
        }
        let ghost seen0 = seen@;
        seen.set(v, true);
        proof {
            assert forall|a: int, b: int| 0 <= a < i + 1 && 0 <= b < i + 1 && a != b implies #[trigger] m@[a] != #[trigger] m@[b] by {
                if a == i {
                    assert(seen0[m@[b] as int]);
                } else if b == i {
                    assert(seen0[m@[a] as int]);
                }
            }
            assert forall|w: int| 0 <= w < n && #[trigger] seen@[w] implies exists|k: int| 0 <= k < i + 1 && m@[k] == w by {
                if w == v {
                    assert(m@[i as int] == w);
                }
            }
        }
        i += 1;
    }
    true
}

/// Addition that stops at `u64::MAX`.
pub open spec fn sat_add(a: u64, b: u64) -> u64 {
    if a + b > u64::MAX {
        u64::MAX
    } else {
        (a + b) as u64
    }
}

fn zeros(n: usize) -> (r: Vec<u64>)
    ensures
        r@ == Seq::new(n as nat, |_i: int| 0u64),
{
    let mut r: Vec<u64> = Vec::new();
    let mut k: usize = 0;
    while k < n
        invariant
            k <= n,
            r@ == Seq::new(k as nat, |_i: int| 0u64),
        decreases n - k,
    {
        r.push(0);
        proof {
            assert(r@ =~= Seq::new((k + 1) as nat, |_i: int| 0u64));
        }
        k += 1;
    }
    r
}

} // verus!
