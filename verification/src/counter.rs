//! The size counter.
//!
//! The classical table counts entries through a striped counter: a base cell
//! that additions try first, and an array of stripe cells that absorb
//! contended additions; the logical value is the base plus the sum of every
//! stripe.  Under exclusive access an addition always lands on the base, so
//! the stripes stay quiet, but the reader sums them all the same and a
//! subtraction drains whichever cell still holds weight.
use vstd::prelude::*;

verus! {

/// Number of stripe cells beside the base.
pub const NUM_STRIPES: usize = 8;

/// Sum of a sequence of cells.
pub open spec fn cells_sum(s: Seq<u64>) -> int
    decreases s.len(),
{
    if s.len() == 0 {
        0
    } else {
        cells_sum(s.drop_last()) + s.last()
    }
}

/// A sum of cells is never negative.
pub proof fn lemma_cells_sum_nonneg(s: Seq<u64>)
    ensures
        cells_sum(s) >= 0,
    decreases s.len(),
{
    if s.len() > 0 {
        lemma_cells_sum_nonneg(s.drop_last());
    }
}

/// A prefix never sums to more than the whole.
pub proof fn lemma_cells_sum_take_le(s: Seq<u64>, i: int)
    requires
        0 <= i <= s.len(),
    ensures
        cells_sum(s.take(i)) <= cells_sum(s),
    decreases s.len(),
{
    if i == s.len() {
        assert(s.take(i) =~= s);
    } else {
        assert(s.drop_last().take(i) =~= s.take(i));
        lemma_cells_sum_take_le(s.drop_last(), i);
    }
}

/// Replacing one cell shifts the sum by the difference.
pub proof fn lemma_cells_sum_update(s: Seq<u64>, i: int, v: u64)
    requires
        0 <= i < s.len(),
    ensures
        cells_sum(s.update(i, v)) == cells_sum(s) - s[i] + v,
    decreases s.len(),
{
    if i == s.len() - 1 {
        assert(s.update(i, v).drop_last() =~= s.drop_last());
    } else {
        assert(s.update(i, v).drop_last() =~= s.drop_last().update(i, v));
        lemma_cells_sum_update(s.drop_last(), i, v);
    }
}

/// If every cell is zero, the sum is zero.
pub proof fn lemma_cells_sum_zero(s: Seq<u64>)
    requires
        forall|j: int| 0 <= j < s.len() ==> s[j] == 0,
    ensures
        cells_sum(s) == 0,
    decreases s.len(),
{
    if s.len() > 0 {
        lemma_cells_sum_zero(s.drop_last());
    }
}

/// A striped additive counter: a base cell and an array of stripe cells
/// whose sum is the logical value.
#[derive(Debug)]
pub struct Counter {
    base: u64,
    cells: Vec<u64>,
}

impl Counter {
    /// The logical value: the base plus every stripe cell.
    pub closed spec fn total(&self) -> int {
        self.base + cells_sum(self.cells@)
    }

    /// The stripe array has its fixed width.
    pub closed spec fn wf(&self) -> bool {
        self.cells@.len() == NUM_STRIPES
    }

    /// A fresh counter at zero.
    pub fn new() -> (r: Self)
        ensures
            r.wf(),
            r.total() == 0,
    {
        let mut cells: Vec<u64> = Vec::new();
        let mut i: usize = 0;
        while i < NUM_STRIPES
            invariant
                i <= NUM_STRIPES,
                cells@.len() == i,
                forall|j: int| 0 <= j < i ==> cells@[j] == 0,
            decreases NUM_STRIPES - i,
        {
            cells.push(0);
            i = i + 1;
        }
        proof {
            lemma_cells_sum_zero(cells@);
        }
        Counter { base: 0, cells }
    }

    /// Count one more entry.  With no other writer in sight the addition
    /// always lands on the base cell.
    pub fn add_one(&mut self)
        requires
            old(self).wf(),
            old(self).total() < u64::MAX,
        ensures
            final(self).wf(),
            final(self).total() == old(self).total() + 1,
    {
        proof {
            lemma_cells_sum_nonneg(self.cells@);
        }
        self.base = self.base + 1;
    }

    /// Count one entry fewer, draining the base first and otherwise the
    /// first stripe that still holds weight.
    pub fn sub_one(&mut self)
        requires
            old(self).wf(),
            old(self).total() >= 1,
        ensures
            final(self).wf(),
            final(self).total() == old(self).total() - 1,
    {
        if self.base > 0 {
            self.base = self.base - 1;
        } else {
            let ghost cs = self.cells@;
            let mut i: usize = 0;
            while i < self.cells.len()
                invariant
                    self.wf(),
                    self.cells@ == cs,
                    self.base == 0,
                    self.total() >= 1,
                    self.total() == old(self).total(),
                    i <= cs.len(),
                    forall|j: int| 0 <= j < i ==> cs[j] == 0,
                decreases cs.len() - i,
            {
                let c = self.cells[i];
                if c > 0 {
                    let cell = &mut self.cells[i];
                    *cell = c - 1;
                    proof {
                        assert(self.cells@ == cs.update(i as int, (c - 1) as u64));
                        lemma_cells_sum_update(cs, i as int, (c - 1) as u64);
                    }
                    return;
                }
                i = i + 1;
            }
            proof {
                lemma_cells_sum_zero(cs);
                assert(false);
            }
        }
    }

    /// The logical value, summed over the base and every stripe.
    pub fn read(&self) -> (n: u64)
        requires
            self.wf(),
            self.total() <= u64::MAX,
        ensures
            n == self.total(),
    {
        let mut acc: u64 = self.base;
        let mut i: usize = 0;
        while i < self.cells.len()
            invariant
                self.wf(),
                self.total() <= u64::MAX,
                i <= self.cells@.len(),
                acc == self.base + cells_sum(self.cells@.take(i as int)),
            decreases self.cells@.len() - i,
        {
            proof {
                assert(self.cells@.take(i + 1).drop_last() =~= self.cells@.take(i as int));
                assert(self.cells@.take(i + 1).last() == self.cells@[i as int]);
                lemma_cells_sum_take_le(self.cells@, i + 1);
                lemma_cells_sum_nonneg(self.cells@.take(i + 1));
            }
            acc = acc + self.cells[i];
            i = i + 1;
        }
        proof {
            assert(self.cells@.take(self.cells@.len() as int) =~= self.cells@);
        }
        acc
    }
}

} // verus!
