//! Sparse thread-by-resource unit matrices.
//!
//! The synchronization manager keeps, per process, two such matrices per
//! resource kind: `allocation[tid][rid]` (units currently held) and
//! `need[tid][rid]` (units requested but not yet granted).  The matrices are
//! sparse: a cell is stored only while its unit count is positive, and is
//! pruned as soon as it drops to zero, so iteration is bounded by live
//! demand rather than by the resource-id space.

use vstd::prelude::*;

verus! {

/// One stored cell: (thread id, resource id, units), with units >= 1.
pub type MatCell = (usize, usize, usize);

/// Sum of `f` over all cells of `s`.
pub open spec fn mat_sum(s: Seq<MatCell>, f: spec_fn(MatCell) -> nat) -> nat
    decreases s.len(),
{
    if s.len() == 0 {
        0
    } else {
        f(s[0]) + mat_sum(s.drop_first(), f)
    }
}

/// Weight of a cell for the count of pair (t, r).
pub open spec fn pair_weight(t: usize, r: usize) -> spec_fn(MatCell) -> nat {
    |c: MatCell| if c.0 == t && c.1 == r { c.2 as nat } else { 0 }
}

/// Weight of a cell for the column sum of resource r.
pub open spec fn col_weight(r: usize) -> spec_fn(MatCell) -> nat {
    |c: MatCell| if c.1 == r { c.2 as nat } else { 0 }
}

/// Units recorded for thread `t` on resource `r` (0 when no cell is stored).
pub open spec fn cell_cnt(s: Seq<MatCell>, t: usize, r: usize) -> nat {
    mat_sum(s, pair_weight(t, r))
}

/// Total units recorded in column `r`, over all threads.
pub open spec fn col_sum(s: Seq<MatCell>, r: usize) -> nat {
    mat_sum(s, col_weight(r))
}

/// The set of thread ids that own at least one cell.
pub open spec fn tids_of(s: Seq<MatCell>) -> Set<usize>
    decreases s.len(),
{
    if s.len() == 0 {
        Set::empty()
    } else {
        tids_of(s.drop_first()).insert(s[0].0)
    }
}

pub proof fn lemma_mat_sum_push(s: Seq<MatCell>, f: spec_fn(MatCell) -> nat, c: MatCell)
    ensures
        mat_sum(s.push(c), f) == mat_sum(s, f) + f(c),
    decreases s.len(),
{
    if s.len() == 0 {
        assert(s.push(c).drop_first() =~= s);
    } else {
        assert(s.push(c).drop_first() =~= s.drop_first().push(c));
        lemma_mat_sum_push(s.drop_first(), f, c);
    }
}

pub proof fn lemma_mat_sum_update(s: Seq<MatCell>, f: spec_fn(MatCell) -> nat, i: int, c: MatCell)
    requires
        0 <= i < s.len(),
    ensures
        mat_sum(s.update(i, c), f) + f(s[i]) == mat_sum(s, f) + f(c),
    decreases s.len(),
{
    if i == 0 {
        assert(s.update(i, c).drop_first() =~= s.drop_first());
    } else {
        assert(s.update(i, c).drop_first() =~= s.drop_first().update(i - 1, c));
        lemma_mat_sum_update(s.drop_first(), f, i - 1, c);
    }
}

pub proof fn lemma_mat_sum_remove(s: Seq<MatCell>, f: spec_fn(MatCell) -> nat, i: int)
    requires
        0 <= i < s.len(),
    ensures
        mat_sum(s, f) == mat_sum(s.remove(i), f) + f(s[i]),
    decreases s.len(),
{
    if i == 0 {
        assert(s.remove(i) =~= s.drop_first());
    } else {
        assert(s.remove(i).drop_first() =~= s.drop_first().remove(i - 1));
        lemma_mat_sum_remove(s.drop_first(), f, i - 1);
    }
}

/// A sum with no contributing cell is zero.
pub proof fn lemma_mat_sum_zero(s: Seq<MatCell>, f: spec_fn(MatCell) -> nat)
    requires
        forall|i: int| 0 <= i < s.len() ==> f(s[i]) == 0,
    ensures
        mat_sum(s, f) == 0,
    decreases s.len(),
{
    if s.len() > 0 {
        lemma_mat_sum_zero(s.drop_first(), f);
    }
}

/// A sum with exactly one contributing cell equals that cell's weight.
pub proof fn lemma_mat_sum_single(s: Seq<MatCell>, f: spec_fn(MatCell) -> nat, i: int)
    requires
        0 <= i < s.len(),
        forall|j: int| 0 <= j < s.len() && j != i ==> f(s[j]) == 0,
    ensures
        mat_sum(s, f) == f(s[i]),
{
    lemma_mat_sum_remove(s, f, i);
    lemma_mat_sum_zero(s.remove(i), f);
}

pub proof fn lemma_tids_of_push(s: Seq<MatCell>, c: MatCell)
    ensures
        tids_of(s.push(c)) == tids_of(s).insert(c.0),
    decreases s.len(),
{
    if s.len() == 0 {
        assert(s.push(c).drop_first() =~= s);
        assert(tids_of(s.push(c)) =~= tids_of(s).insert(c.0));
    } else {
        assert(s.push(c).drop_first() =~= s.drop_first().push(c));
        lemma_tids_of_push(s.drop_first(), c);
        assert(tids_of(s.push(c)) =~= tids_of(s).insert(c.0));
    }
}

pub proof fn lemma_tids_of_update_same(s: Seq<MatCell>, i: int, c: MatCell)
    requires
        0 <= i < s.len(),
        s[i].0 == c.0,
    ensures
        tids_of(s.update(i, c)) == tids_of(s),
    decreases s.len(),
{
    if i == 0 {
        assert(s.update(i, c).drop_first() =~= s.drop_first());
    } else {
        assert(s.update(i, c).drop_first() =~= s.drop_first().update(i - 1, c));
        lemma_tids_of_update_same(s.drop_first(), i - 1, c);
        assert(tids_of(s.update(i, c)) =~= tids_of(s));
    }
}

/// A thread is in `tids_of` exactly when some cell carries it.
pub proof fn lemma_tids_of_contains(s: Seq<MatCell>, t: usize)
    ensures
        tids_of(s).contains(t) <==> exists|i: int| 0 <= i < s.len() && s[i].0 == t,
    decreases s.len(),
{
    if s.len() > 0 {
        lemma_tids_of_contains(s.drop_first(), t);
        if tids_of(s).contains(t) {
            if s[0].0 == t {
                assert(s[0].0 == t);
            } else {
                let j = choose|j: int| 0 <= j < s.drop_first().len() && s.drop_first()[j].0 == t;
                assert(s[j + 1].0 == t);
            }
        }
        if exists|i: int| 0 <= i < s.len() && s[i].0 == t {
            let i = choose|i: int| 0 <= i < s.len() && s[i].0 == t;
            if i > 0 {
                assert(s.drop_first()[i - 1].0 == t);
            }
        }
    }
}


/// Well-formed cell sequence: unique (thread, resource) pairs, positive
/// counts, resource ids below the registry length.
pub open spec fn cells_wf(s: Seq<MatCell>, nres: nat) -> bool {
    &&& forall|i: int, j: int|
        0 <= i < j < s.len() ==> !(s[i].0 == s[j].0 && s[i].1 == s[j].1)
    &&& forall|i: int| 0 <= i < s.len() ==> s[i].1 < nres && s[i].2 >= 1
}

/// With unique pairs, the stored cell is the whole pair count.
pub proof fn lemma_cell_cnt_at(s: Seq<MatCell>, nres: nat, i: int)
    requires
        cells_wf(s, nres),
        0 <= i < s.len(),
    ensures
        cell_cnt(s, s[i].0, s[i].1) == s[i].2,
{
    lemma_mat_sum_single(s, pair_weight(s[i].0, s[i].1), i);
}

/// A pair with no stored cell counts zero.
pub proof fn lemma_cell_cnt_absent(s: Seq<MatCell>, t: usize, r: usize)
    requires
        forall|i: int| 0 <= i < s.len() ==> !(s[i].0 == t && s[i].1 == r),
    ensures
        cell_cnt(s, t, r) == 0,
{
    lemma_mat_sum_zero(s, pair_weight(t, r));
}

/// Every pair count is bounded by the machine word.
pub proof fn lemma_cell_cnt_le_max(s: Seq<MatCell>, nres: nat, t: usize, r: usize)
    requires
        cells_wf(s, nres),
    ensures
        cell_cnt(s, t, r) <= usize::MAX,
{
    if exists|i: int| 0 <= i < s.len() && s[i].0 == t && s[i].1 == r {
        let i = choose|i: int| 0 <= i < s.len() && s[i].0 == t && s[i].1 == r;
        lemma_mat_sum_single(s, pair_weight(t, r), i);
    } else {
        lemma_cell_cnt_absent(s, t, r);
    }
}

/// A prefix sums to no more than the whole sequence.
pub proof fn lemma_mat_sum_take_le(s: Seq<MatCell>, f: spec_fn(MatCell) -> nat, i: int)
    requires
        0 <= i <= s.len(),
    ensures
        mat_sum(s.take(i), f) <= mat_sum(s, f),
    decreases s.len() - i,
{
    if i < s.len() {
        assert(s.take(i + 1) =~= s.take(i).push(s[i]));
        lemma_mat_sum_push(s.take(i), f, s[i]);
        lemma_mat_sum_take_le(s, f, i + 1);
    } else {
        assert(s.take(i) =~= s);
    }
}


/// The cell sequence after one unit is added for (t, r): the stored cell
/// is bumped in place, or a fresh unit cell is appended.
pub open spec fn cell_inc(s: Seq<MatCell>, t: usize, r: usize) -> Seq<MatCell> {
    if exists|i: int| 0 <= i < s.len() && s[i].0 == t && s[i].1 == r {
        let i = choose|i: int| 0 <= i < s.len() && s[i].0 == t && s[i].1 == r;
        s.update(i, (t, r, (s[i].2 + 1) as usize))
    } else {
        s.push((t, r, 1))
    }
}

/// The cell sequence after one unit is removed from (t, r): the stored
/// cell is lowered in place, or pruned when it held the last unit.
pub open spec fn cell_dec(s: Seq<MatCell>, t: usize, r: usize) -> Seq<MatCell> {
    if exists|i: int| 0 <= i < s.len() && s[i].0 == t && s[i].1 == r {
        let i = choose|i: int| 0 <= i < s.len() && s[i].0 == t && s[i].1 == r;
        if s[i].2 > 1 {
            s.update(i, (t, r, (s[i].2 - 1) as usize))
        } else {
            s.remove(i)
        }
    } else {
        s
    }
}


/// Effect of `cell_inc` on counts, columns and thread ids.
pub proof fn lemma_cell_inc_cnt(s: Seq<MatCell>, nres: nat, t: usize, r: usize)
    requires
        cells_wf(s, nres),
        r < nres,
        cell_cnt(s, t, r) < usize::MAX,
    ensures
        cells_wf(cell_inc(s, t, r), nres),
        cell_cnt(cell_inc(s, t, r), t, r) == cell_cnt(s, t, r) + 1,
        forall|t2: usize, r2: usize|
            !(t2 == t && r2 == r) ==> cell_cnt(cell_inc(s, t, r), t2, r2) == cell_cnt(s, t2, r2),
        col_sum(cell_inc(s, t, r), r) == col_sum(s, r) + 1,
        forall|r2: usize| r2 != r ==> col_sum(cell_inc(s, t, r), r2) == col_sum(s, r2),
        tids_of(cell_inc(s, t, r)) == tids_of(s).insert(t),
{
    let s2 = cell_inc(s, t, r);
    if exists|i: int| 0 <= i < s.len() && s[i].0 == t && s[i].1 == r {
        let i = choose|i: int| 0 <= i < s.len() && s[i].0 == t && s[i].1 == r;
        lemma_cell_cnt_at(s, nres, i);
        let c = (t, r, (s[i].2 + 1) as usize);
        lemma_mat_sum_update(s, pair_weight(t, r), i, c);
        assert forall|t2: usize, r2: usize| !(t2 == t && r2 == r) implies cell_cnt(s2, t2, r2)
            == cell_cnt(s, t2, r2) by {
            lemma_mat_sum_update(s, pair_weight(t2, r2), i, c);
        }
        lemma_mat_sum_update(s, col_weight(r), i, c);
        assert forall|r2: usize| r2 != r implies col_sum(s2, r2) == col_sum(s, r2) by {
            lemma_mat_sum_update(s, col_weight(r2), i, c);
        }
        lemma_tids_of_update_same(s, i, c);
        lemma_tids_of_contains(s, t);
        assert(tids_of(s2) =~= tids_of(s).insert(t));
    } else {
        lemma_cell_cnt_absent(s, t, r);
        let c = (t, r, 1usize);
        lemma_mat_sum_push(s, pair_weight(t, r), c);
        assert forall|t2: usize, r2: usize| !(t2 == t && r2 == r) implies cell_cnt(s2, t2, r2)
            == cell_cnt(s, t2, r2) by {
            lemma_mat_sum_push(s, pair_weight(t2, r2), c);
        }
        lemma_mat_sum_push(s, col_weight(r), c);
        assert forall|r2: usize| r2 != r implies col_sum(s2, r2) == col_sum(s, r2) by {
            lemma_mat_sum_push(s, col_weight(r2), c);
        }
        lemma_tids_of_push(s, c);
        assert forall|a: int, b: int| 0 <= a < b < s2.len() implies !(s2[a].0 == s2[b].0
            && s2[a].1 == s2[b].1) by {
            if b == s2.len() - 1 {
                assert(s2[a] == s[a]);
            }
        }
    }
}

/// One pointwise-smaller weight gives a smaller sum.
pub proof fn lemma_mat_sum_le(s: Seq<MatCell>, f: spec_fn(MatCell) -> nat, g: spec_fn(MatCell) -> nat)
    requires
        forall|i: int| 0 <= i < s.len() ==> f(s[i]) <= g(s[i]),
    ensures
        mat_sum(s, f) <= mat_sum(s, g),
    decreases s.len(),
{
    if s.len() > 0 {
        lemma_mat_sum_le(s.drop_first(), f, g);
    }
}

/// A pair count never exceeds its column sum.
pub proof fn lemma_cnt_le_col_sum(s: Seq<MatCell>, t: usize, r: usize)
    ensures
        cell_cnt(s, t, r) <= col_sum(s, r),
{
    lemma_mat_sum_le(s, pair_weight(t, r), col_weight(r));
}

/// A sparse unit matrix.  Each (thread, resource) pair is stored at most
/// once, every stored count is positive, and every resource id is below the
/// registry length it was created against.
pub struct SparseMat {
    pub cells: Vec<MatCell>,
}

impl SparseMat {
    pub open spec fn wf(&self, nres: nat) -> bool {
        cells_wf(self.cells@, nres)
    }

    pub open spec fn cnt(&self, t: usize, r: usize) -> nat {
        cell_cnt(self.cells@, t, r)
    }

    pub open spec fn tids(&self) -> Set<usize> {
        tids_of(self.cells@)
    }

    pub fn empty() -> (m: Self)
        ensures
            m.cells@.len() == 0,
            forall|nres: nat| m.wf(nres),
    {
        SparseMat { cells: Vec::new() }
    }

    /// Index of the cell for (t, r), if one is stored.
    fn find_cell(&self, t: usize, r: usize) -> (ret: Option<usize>)
        ensures
            match ret {
                Some(i) => i < self.cells@.len() && self.cells@[i as int].0 == t
                    && self.cells@[i as int].1 == r,
                None => forall|i: int|
                    0 <= i < self.cells@.len() ==> !(self.cells@[i].0 == t && self.cells@[i].1
                        == r),
            },
    {
        let mut i: usize = 0;
        while i < self.cells.len()
            invariant
                i <= self.cells@.len(),
                forall|j: int|
                    0 <= j < i ==> !(self.cells@[j].0 == t && self.cells@[j].1 == r),
            decreases self.cells@.len() - i,
        {
            let c = self.cells[i];
            if c.0 == t && c.1 == r {
                return Some(i);
            }
            i = i + 1;
        }
        None
    }

    /// The stored count for a pair is the whole pair sum: pairs are unique.
    proof fn lemma_cnt_at(&self, nres: nat, i: int)
        requires
            self.wf(nres),
            0 <= i < self.cells@.len(),
        ensures
            cell_cnt(self.cells@, self.cells@[i].0, self.cells@[i].1) == self.cells@[i].2,
    {
        lemma_cell_cnt_at(self.cells@, nres, i);
    }

    /// A pair with no stored cell counts zero.
    proof fn lemma_cnt_absent(&self, t: usize, r: usize)
        requires
            forall|i: int|
                0 <= i < self.cells@.len() ==> !(self.cells@[i].0 == t && self.cells@[i].1 == r),
        ensures
            cell_cnt(self.cells@, t, r) == 0,
    {
        lemma_cell_cnt_absent(self.cells@, t, r);
    }

    /// Currently recorded units for (t, r).
    pub fn get_units(&self, nres: usize, t: usize, r: usize) -> (u: usize)
        requires
            self.wf(nres as nat),
        ensures
            u == self.cnt(t, r),
    {
        match self.find_cell(t, r) {
            Some(i) => {
                proof {
                    self.lemma_cnt_at(nres as nat, i as int);
                }
                self.cells[i].2
            },
            None => {
                proof {
                    self.lemma_cnt_absent(t, r);
                }
                0
            },
        }
    }

    /// Add one unit to (t, r), creating the cell when absent.
    pub fn inc_unit(&mut self, nres: usize, t: usize, r: usize)
        requires
            old(self).wf(nres as nat),
            r < nres,
            old(self).cnt(t, r) < usize::MAX,
        ensures
            final(self).wf(nres as nat),
            final(self).cnt(t, r) == old(self).cnt(t, r) + 1,
            forall|t2: usize, r2: usize|
                !(t2 == t && r2 == r) ==> final(self).cnt(t2, r2) == old(self).cnt(t2, r2),
            col_sum(final(self).cells@, r) == col_sum(old(self).cells@, r) + 1,
            forall|r2: usize|
                r2 != r ==> col_sum(final(self).cells@, r2) == col_sum(old(self).cells@, r2),
            final(self).tids() == old(self).tids().insert(t),
            final(self).cells@ == cell_inc(old(self).cells@, t, r),
    {
        let ghost s0 = self.cells@;
        match self.find_cell(t, r) {
            Some(i) => {
                proof {
                    self.lemma_cnt_at(nres as nat, i as int);
                }
                let u = self.cells[i].2;
                self.cells[i] = (t, r, u + 1);
                proof {
                    let i2 = choose|i2: int| 0 <= i2 < s0.len() && s0[i2].0 == t && s0[i2].1 == r;
                    assert(i2 == i as int);
                    let c = (t, r, (u + 1) as usize);
                    lemma_mat_sum_update(s0, pair_weight(t, r), i as int, c);
                    assert forall|t2: usize, r2: usize| !(t2 == t && r2 == r) implies self.cnt(
                        t2,
                        r2,
                    ) == cell_cnt(s0, t2, r2) by {
                        lemma_mat_sum_update(s0, pair_weight(t2, r2), i as int, c);
                    }
                    lemma_mat_sum_update(s0, col_weight(r), i as int, c);
                    assert forall|r2: usize| r2 != r implies col_sum(self.cells@, r2) == col_sum(
                        s0,
                        r2,
                    ) by {
                        lemma_mat_sum_update(s0, col_weight(r2), i as int, c);
                    }
                    lemma_tids_of_update_same(s0, i as int, c);
                    assert(tids_of(s0).contains(t)) by {
                        lemma_tids_of_contains(s0, t);
                    }
                    assert(self.tids() =~= tids_of(s0).insert(t));
                }
            },
            None => {
                proof {
                    self.lemma_cnt_absent(t, r);
                }
                self.cells.push((t, r, 1));
                proof {
                    assert(self.cells@ == cell_inc(s0, t, r));
                    let c = (t, r, 1usize);
                    lemma_mat_sum_push(s0, pair_weight(t, r), c);
                    assert forall|t2: usize, r2: usize| !(t2 == t && r2 == r) implies self.cnt(
                        t2,
                        r2,
                    ) == cell_cnt(s0, t2, r2) by {
                        lemma_mat_sum_push(s0, pair_weight(t2, r2), c);
                    }
                    lemma_mat_sum_push(s0, col_weight(r), c);
                    assert forall|r2: usize| r2 != r implies col_sum(self.cells@, r2) == col_sum(
                        s0,
                        r2,
                    ) by {
                        lemma_mat_sum_push(s0, col_weight(r2), c);
                    }
                    lemma_tids_of_push(s0, c);
                }
            },
        }
    }

    /// Remove one unit from (t, r), pruning the cell when it reaches zero.
    pub fn dec_unit(&mut self, nres: usize, t: usize, r: usize)
        requires
            old(self).wf(nres as nat),
            old(self).cnt(t, r) >= 1,
        ensures
            final(self).wf(nres as nat),
            final(self).cnt(t, r) == old(self).cnt(t, r) - 1,
            forall|t2: usize, r2: usize|
                !(t2 == t && r2 == r) ==> final(self).cnt(t2, r2) == old(self).cnt(t2, r2),
            col_sum(old(self).cells@, r) == col_sum(final(self).cells@, r) + 1,
            forall|r2: usize|
                r2 != r ==> col_sum(final(self).cells@, r2) == col_sum(old(self).cells@, r2),
            final(self).cells@ == cell_dec(old(self).cells@, t, r),
    {
        let ghost s0 = self.cells@;
        match self.find_cell(t, r) {
            Some(i) => {
                proof {
                    self.lemma_cnt_at(nres as nat, i as int);
                }
                let u = self.cells[i].2;
                if u > 1 {
                    self.cells[i] = (t, r, u - 1);
                    proof {
                        let i2 = choose|i2: int|
                            0 <= i2 < s0.len() && s0[i2].0 == t && s0[i2].1 == r;
                        assert(i2 == i as int);
                        let c = (t, r, (u - 1) as usize);
                        lemma_mat_sum_update(s0, pair_weight(t, r), i as int, c);
                        assert forall|t2: usize, r2: usize| !(t2 == t && r2 == r) implies self.cnt(
                            t2,
                            r2,
                        ) == cell_cnt(s0, t2, r2) by {
                            lemma_mat_sum_update(s0, pair_weight(t2, r2), i as int, c);
                        }
                        lemma_mat_sum_update(s0, col_weight(r), i as int, c);
                        assert forall|r2: usize| r2 != r implies col_sum(self.cells@, r2)
                            == col_sum(s0, r2) by {
                            lemma_mat_sum_update(s0, col_weight(r2), i as int, c);
                        }
                    }
                } else {
                    self.cells.remove(i);
                    proof {
                        let i2 = choose|i2: int|
                            0 <= i2 < s0.len() && s0[i2].0 == t && s0[i2].1 == r;
                        assert(i2 == i as int);
                        lemma_mat_sum_remove(s0, pair_weight(t, r), i as int);
                        assert forall|t2: usize, r2: usize| !(t2 == t && r2 == r) implies self.cnt(
                            t2,
                            r2,
                        ) == cell_cnt(s0, t2, r2) by {
                            lemma_mat_sum_remove(s0, pair_weight(t2, r2), i as int);
                        }
                        lemma_mat_sum_remove(s0, col_weight(r), i as int);
                        assert forall|r2: usize| r2 != r implies col_sum(self.cells@, r2)
                            == col_sum(s0, r2) by {
                            lemma_mat_sum_remove(s0, col_weight(r2), i as int);
                        }
                        assert forall|a: int, b: int|
                            0 <= a < b < self.cells@.len() implies !(self.cells@[a].0
                            == self.cells@[b].0 && self.cells@[a].1 == self.cells@[b].1) by {
                            let a0 = if a < i { a } else { a + 1 };
                            let b0 = if b < i { b } else { b + 1 };
                            assert(self.cells@[a] == s0[a0]);
                            assert(self.cells@[b] == s0[b0]);
                        }
                    }
                }
            },
            None => {
                proof {
                    self.lemma_cnt_absent(t, r);
                }
                // Unreachable: the precondition guarantees a stored cell.
            },
        }
    }

    /// A verbatim copy (cells are plain word triples).
    pub fn dup(&self) -> (m: Self)
        ensures
            m.cells@ == self.cells@,
    {
        let mut cells: Vec<MatCell> = Vec::new();
        let mut i: usize = 0;
        while i < self.cells.len()
            invariant
                i <= self.cells@.len(),
                cells@ == self.cells@.take(i as int),
            decreases self.cells@.len() - i,
        {
            cells.push(self.cells[i]);
            proof {
                assert(cells@ =~= self.cells@.take(i + 1));
            }
            i = i + 1;
        }
        proof {
            assert(cells@ =~= self.cells@);
        }
        SparseMat { cells }
    }
}

} // verus!
