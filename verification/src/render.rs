//! The render grid for one pass: per-cell iteration counts, filled in by
//! completed units of work and read back through antialiased sampling.
//!
//! A pass over a square viewport samples a `(resolution + 1) x (resolution + 1)`
//! grid (the extra row and column feed 2x2 supersampling). Each unit of work
//! carries its own destination slot, so completions may be applied in any
//! order; `lemma_population_order_irrelevant` states that the populated grid
//! does not depend on that order.

use vstd::prelude::*;

verus! {

/// Iteration counts computed for one rendering pass.
///
/// Every cell holds a value in `[0, depth]`; the grid side is one more than
/// the sampling resolution so that `sample_sum` can average 2x2 neighborhoods.
#[derive(Debug)]
pub struct Render {
    resolution: u32,
    depth: u32,
    result: Vec<u32>,
}

/// The grid left by applying a batch of completed units `(slot, value)` to an
/// initial grid, in the order given.
pub open spec fn apply_results(init: Seq<u32>, rs: Seq<(usize, u32)>) -> Seq<u32>
    decreases rs.len(),
{
    if rs.len() == 0 {
        init
    } else {
        apply_results(init, rs.drop_last()).update(rs.last().0 as int, rs.last().1)
    }
}

/// Some unit of the batch targets slot `i`.
pub open spec fn covers(rs: Seq<(usize, u32)>, i: int) -> bool {
    exists|k: int| 0 <= k < rs.len() && rs[k].0 as int == i
}

/// Every unit of the batch targets a slot below `n` and carries the value
/// that `f` assigns to that slot.
pub open spec fn results_of(rs: Seq<(usize, u32)>, f: spec_fn(int) -> u32, n: int) -> bool {
    forall|k: int|
        0 <= k < rs.len() ==> ((#[trigger] rs[k]).0 as int) < n && rs[k].1 == f(rs[k].0 as int)
}

impl Render {
    /// The side length of the sampling grid, as requested.
    pub closed spec fn spec_resolution(self) -> int {
        self.resolution as int
    }

    /// The iteration budget of this pass.
    pub closed spec fn spec_depth(self) -> int {
        self.depth as int
    }

    /// The grid contents, row-major with side `spec_resolution() + 1`.
    pub closed spec fn spec_values(self) -> Seq<u32> {
        self.result@
    }

    /// The cell at column `x`, row `y`.
    pub open spec fn cell(self, x: int, y: int) -> u32 {
        self.spec_values()[y * (self.spec_resolution() + 1) + x]
    }

    /// Well-formedness: the grid holds one cell per point of the sampling
    /// grid, and no cell exceeds the iteration budget. Established by `new`
    /// and preserved by every method.
    pub closed spec fn inv(self) -> bool {
        &&& self.result@.len() == (self.resolution as int + 1) * (self.resolution as int + 1)
        &&& forall|i: int| 0 <= i < self.result@.len() ==> #[trigger] self.result@[i] <= self.depth
    }

    /// Creates the grid for one pass: `(resolution + 1)` cells per side, every
    /// cell starting at zero.
    pub fn new(depth: u32, resolution: u32) -> (r: Render)
        requires
            resolution < u32::MAX,
            (resolution as int + 1) * (resolution as int + 1) <= usize::MAX,
        ensures
            r.inv(),
            r.spec_resolution() == resolution as int,
            r.spec_depth() == depth as int,
            r.spec_values() == Seq::new(
                (((resolution as int) + 1) * ((resolution as int) + 1)) as nat,
                |i: int| 0u32,
            ),
    {
        let side: usize = resolution as usize + 1;
        let total: usize = side * side;
        let mut result: Vec<u32> = Vec::new();
        while result.len() < total
            invariant
                result@.len() <= total,
                forall|i: int| 0 <= i < result@.len() ==> #[trigger] result@[i] == 0u32,
            decreases total - result@.len(),
        {
            result.push(0u32);
        }
        proof {
            assert(result@ =~= Seq::new(total as nat, |i: int| 0u32));
        }
        Render { resolution, depth, result }
    }

    /// The sampling resolution this grid was built for.
    pub fn resolution(&self) -> (r: u32)
        ensures
            r as int == self.spec_resolution(),
    {
        self.resolution
    }

    /// The iteration budget this grid was built for.
    pub fn depth(&self) -> (r: u32)
        ensures
            r as int == self.spec_depth(),
    {
        self.depth
    }

    /// The number of cells in the grid.
    pub fn len(&self) -> (r: usize)
        ensures
            r == self.spec_values().len(),
    {
        self.result.len()
    }

    /// Applies one completed unit of work: stores `value` in slot `pos`.
    pub fn record(&mut self, pos: usize, value: u32)
        requires
            old(self).inv(),
            pos < old(self).spec_values().len(),
            value as int <= old(self).spec_depth(),
        ensures
            final(self).inv(),
            final(self).spec_resolution() == old(self).spec_resolution(),
            final(self).spec_depth() == old(self).spec_depth(),
            final(self).spec_values() == old(self).spec_values().update(pos as int, value),
    {
        self.result[pos] = value;
    }

    /// Applies a drained batch of completed units in the order given.
    pub fn record_all(&mut self, results: &Vec<(usize, u32)>)
        requires
            old(self).inv(),
            forall|k: int|
                0 <= k < results@.len() ==> (#[trigger] results@[k]).0
                    < old(self).spec_values().len() && results@[k].1 as int <= old(
                    self,
                ).spec_depth(),
        ensures
            final(self).inv(),
            final(self).spec_resolution() == old(self).spec_resolution(),
            final(self).spec_depth() == old(self).spec_depth(),
            final(self).spec_values() == apply_results(old(self).spec_values(), results@),
    {
        let mut k: usize = 0;
        while k < results.len()
            invariant
                k <= results@.len(),
                forall|j: int|
                    0 <= j < results@.len() ==> (#[trigger] results@[j]).0
                        < old(self).spec_values().len() && results@[j].1 as int <= old(
                        self,
                    ).spec_depth(),
                self.inv(),
                self.spec_resolution() == old(self).spec_resolution(),
                self.spec_depth() == old(self).spec_depth(),
                self.spec_values() == apply_results(
                    old(self).spec_values(),
                    results@.take(k as int),
                ),
                self.spec_values().len() == old(self).spec_values().len(),
            decreases results@.len() - k,
        {
            let (pos, value) = results[k];
            self.record(pos, value);
            proof {
                assert(results@.take(k as int + 1).drop_last() =~= results@.take(k as int));
                assert(results@.take(k as int + 1).last() == results@[k as int]);
            }
            k += 1;
        }
        proof {
            assert(results@.take(results@.len() as int) =~= results@);
        }
    }

    /// The raw iteration count of one grid cell.
    pub fn actual_point_value(&self, x: u32, y: u32) -> (r: u32)
        requires
            self.inv(),
            x as int <= self.spec_resolution(),
            y as int <= self.spec_resolution(),
        ensures
            r == self.cell(x as int, y as int),
            r as int <= self.spec_depth(),
    {
        let side: u64 = self.resolution as u64 + 1;
        proof {
            assert((y as int) * (side as int) + (x as int) < (side as int) * (side as int)
                && (side as int) * (side as int) <= 0x1_0000_0000_0000_0000) by (nonlinear_arith)
                requires
                    0 <= x as int <= self.resolution as int,
                    0 <= y as int <= self.resolution as int,
                    side as int == self.resolution as int + 1,
                    self.resolution as int + 1 <= 0x1_0000_0000,
            ;
        }
        let index: u64 = (y as u64) * side + (x as u64);
        let total: usize = self.result.len();
        proof {
            assert(index as int == (y as int) * (side as int) + (x as int));
            assert((index as int) < total as int);
        }
        self.result[index as usize]
    }

    /// Antialiased sampling, integer part: the sum of the 2x2 cell
    /// neighborhood at `(x, y)`. The normalized sample is this sum divided by
    /// `4 * depth`; the bound proved here keeps that quotient in `[0, 1]`.
    pub fn sample_sum(&self, x: u32, y: u32) -> (r: u64)
        requires
            self.inv(),
            (x as int) < self.spec_resolution(),
            (y as int) < self.spec_resolution(),
        ensures
            r as int == self.cell(x as int, y as int) + self.cell(x as int + 1, y as int)
                + self.cell(x as int, y as int + 1) + self.cell(x as int + 1, y as int + 1),
            r as int <= 4 * self.spec_depth(),
    {
        let a = self.actual_point_value(x, y);
        let b = self.actual_point_value(x + 1, y);
        let c = self.actual_point_value(x, y + 1);
        let d = self.actual_point_value(x + 1, y + 1);
        (a as u64) + (b as u64) + (c as u64) + (d as u64)
    }
}

proof fn lemma_apply_results_pointwise(init: Seq<u32>, rs: Seq<(usize, u32)>, f: spec_fn(int) -> u32)
    requires
        results_of(rs, f, init.len() as int),
    ensures
        apply_results(init, rs).len() == init.len(),
        forall|i: int|
            0 <= i < init.len() ==> #[trigger] apply_results(init, rs)[i] == (if covers(rs, i) {
                f(i)
            } else {
                init[i]
            }),
    decreases rs.len(),
{
    if rs.len() == 0 {
    } else {
        let prefix = rs.drop_last();
        assert(results_of(prefix, f, init.len() as int)) by {
            assert(forall|k: int| 0 <= k < prefix.len() ==> prefix[k] == #[trigger] rs[k]);
        }
        lemma_apply_results_pointwise(init, prefix, f);
        let p = rs.last().0 as int;
        let v = rs.last().1;
        assert(rs[rs.len() - 1].0 as int == p && rs[rs.len() - 1].1 == v);
        assert(v == f(p));
        assert forall|i: int| 0 <= i < init.len() implies #[trigger] apply_results(init, rs)[i]
            == (if covers(rs, i) {
            f(i)
        } else {
            init[i]
        }) by {
            if i == p {
                assert(covers(rs, i));
            } else {
                assert(apply_results(init, rs)[i] == apply_results(init, prefix)[i]);
                if covers(prefix, i) {
                    let k = choose|k: int| 0 <= k < prefix.len() && prefix[k].0 as int == i;
                    assert(rs[k].0 as int == i);
                    assert(covers(rs, i));
                } else {
                    if covers(rs, i) {
                        let k = choose|k: int| 0 <= k < rs.len() && rs[k].0 as int == i;
                        assert(k < rs.len() - 1);
                        assert(prefix[k].0 as int == i);
                        assert(covers(prefix, i));
                        assert(false);
                    }
                }
            }
        }
    }
}

/// Law: the populated grid is determined by which value each unit of work
/// carries for its own slot, never by the order in which units complete. Two
/// drained batches that both assign `f` to every slot of the grid leave the
/// same grid, namely the one that holds `f(i)` in each slot `i`.
pub proof fn lemma_population_order_irrelevant(
    init: Seq<u32>,
    rs1: Seq<(usize, u32)>,
    rs2: Seq<(usize, u32)>,
    f: spec_fn(int) -> u32,
)
    requires
        results_of(rs1, f, init.len() as int),
        results_of(rs2, f, init.len() as int),
        forall|i: int| 0 <= i < init.len() ==> covers(rs1, i),
        forall|i: int| 0 <= i < init.len() ==> covers(rs2, i),
    ensures
        apply_results(init, rs1) == Seq::new(init.len(), |i: int| f(i)),
        apply_results(init, rs1) == apply_results(init, rs2),
{
    lemma_apply_results_pointwise(init, rs1, f);
    lemma_apply_results_pointwise(init, rs2, f);
    assert(apply_results(init, rs1) =~= Seq::new(init.len(), |i: int| f(i)));
    assert(apply_results(init, rs2) =~= Seq::new(init.len(), |i: int| f(i)));
}

} // verus!
