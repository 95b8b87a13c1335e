use vstd::prelude::*;

use crate::grid::{
    cell_index, count_kept, lemma_column_major_in_bounds, lemma_count_kept_uniform, lemma_column_major_injective,
    lemma_scan_rank_bounds, lemma_scan_rank_injective, scan_rank,
};

verus! {

/// Why a set of observed cells could not be drawn.
#[derive(Debug, Clone, Copy, PartialEq, Eq, Structural)]
pub enum SampleError {
    /// The matrix has no rows or no columns.
    EmptyMatrix,
    /// The keep mask does not hold exactly one flag per cell.
    MaskLength,
}

/// The cells of a `height` x `width` matrix whose true values are known,
/// listed in row-major order, each cell at most once.
pub struct Observations {
    pub height: usize,
    pub width: usize,
    pub indices: Vec<(usize, usize)>,
}

impl Observations {
    /// Position, in the row-major scan, of the `k`-th observed cell.
    pub open spec fn rank_of(&self, k: int) -> int {
        scan_rank(self.width as int, self.indices@[k].0 as int, self.indices@[k].1 as int)
    }

    /// Position, in column-major storage, of the `k`-th observed cell.
    pub open spec fn cell_of(&self, k: int) -> int {
        cell_index(self.height as int, self.indices@[k].0 as int, self.indices@[k].1 as int)
    }

    /// Cell `(i, j)` is among the observed cells.
    pub open spec fn lists(&self, i: usize, j: usize) -> bool {
        exists|k: int| 0 <= k < self.indices@.len() && #[trigger] self.indices@[k] == (i, j)
    }

    /// Storage position `c` holds one of the first `n` observed cells.
    pub open spec fn observes_first(&self, n: int, c: int) -> bool {
        exists|k: int| 0 <= k < n && #[trigger] self.cell_of(k) == c
    }

    /// Storage position `c` holds an observed cell.
    pub open spec fn observes(&self, c: int) -> bool {
        self.observes_first(self.indices@.len() as int, c)
    }

    /// The matrix is not empty, its storage fits in memory, and the observed cells lie
    /// inside it in strictly increasing row-major order (so none repeats).
    pub open spec fn wf(&self) -> bool {
        &&& 0 < self.height
        &&& 0 < self.width
        &&& self.height * self.width <= usize::MAX
        &&& forall|k: int|
            0 <= k < self.indices@.len() ==> {
                &&& #[trigger] self.indices@[k].0 < self.height
                &&& self.indices@[k].1 < self.width
            }
        &&& forall|k1: int, k2: int|
            0 <= k1 < k2 < self.indices@.len() ==> #[trigger] self.rank_of(k1)
                < #[trigger] self.rank_of(k2)
    }

    /// These are the cells of a `height` x `width` matrix that `keep` marks, one flag
    /// per cell in row-major order.
    pub open spec fn drawn_from(&self, height: usize, width: usize, keep: Seq<bool>) -> bool {
        &&& self.wf()
        &&& self.height == height
        &&& self.width == width
        &&& keep.len() == height * width
        &&& self.indices@.len() == count_kept(keep)
        &&& forall|k: int| 0 <= k < self.indices@.len() ==> keep[#[trigger] self.rank_of(k)]
        &&& forall|s: int|
            0 <= s < keep.len() && #[trigger] keep[s] ==> exists|k: int|
                0 <= k < self.indices@.len() && self.rank_of(k) == s
    }

    /// Number of cells of the matrix.
    pub open spec fn area(&self) -> int {
        self.height * self.width
    }

    /// Draws the observed cells: cell `(i, j)` is kept when `keep[i * width + j]` holds.
    pub fn sample(height: usize, width: usize, keep: &Vec<bool>) -> (r: Result<Observations, SampleError>)
        ensures
            r == Err::<Observations, SampleError>(SampleError::EmptyMatrix) <==> (height == 0
                || width == 0),
            r == Err::<Observations, SampleError>(SampleError::MaskLength) <==> (height != 0
                && width != 0 && keep@.len() != height * width),
            r is Ok <==> (height != 0 && width != 0 && keep@.len() == height * width),
            r is Ok ==> r->Ok_0.drawn_from(height, width, keep@),
    {
        if height == 0 || width == 0 {
            return Err(SampleError::EmptyMatrix);
        }
        let cells: usize = keep.len();
        let area = match height.checked_mul(width) {
            Some(a) => a,
            None => {
                return Err(SampleError::MaskLength);
            },
        };
        if cells != area {
            return Err(SampleError::MaskLength);
        }
        let mut indices: Vec<(usize, usize)> = Vec::new();
        let mut s: usize = 0;
        let mut i: usize = 0;
        while i < height
            invariant
                0 < width,
                height * width == area,
                keep@.len() == area,
                i <= height,
                s == i * width,
                indices@.len() == count_kept(keep@.subrange(0, s as int)),
                forall|k: int|
                    0 <= k < indices@.len() ==> {
                        &&& #[trigger] indices@[k].0 < height
                        &&& indices@[k].1 < width
                    },
                forall|k1: int, k2: int|
                    0 <= k1 < k2 < indices@.len() ==> #[trigger] scan_rank(
                        width as int,
                        indices@[k1].0 as int,
                        indices@[k1].1 as int,
                    ) < #[trigger] scan_rank(
                        width as int,
                        indices@[k2].0 as int,
                        indices@[k2].1 as int,
                    ),
                forall|k: int|
                    0 <= k < indices@.len() ==> {
                        let q = #[trigger] scan_rank(
                            width as int,
                            indices@[k].0 as int,
                            indices@[k].1 as int,
                        );
                        &&& q < s
                        &&& keep@[q]
                    },
                forall|q: int|
                    0 <= q < s && #[trigger] keep@[q] ==> exists|k: int|
                        0 <= k < indices@.len() && scan_rank(
                            width as int,
                            indices@[k].0 as int,
                            indices@[k].1 as int,
                        ) == q,
            decreases height - i,
        {
            let mut j: usize = 0;
            while j < width
                invariant
                    0 < width,
                    height * width == area,
                    keep@.len() == area,
                    i < height,
                    j <= width,
                    s == i * width + j,
                    indices@.len() == count_kept(keep@.subrange(0, s as int)),
                    forall|k: int|
                        0 <= k < indices@.len() ==> {
                            &&& #[trigger] indices@[k].0 < height
                            &&& indices@[k].1 < width
                        },
                    forall|k1: int, k2: int|
                        0 <= k1 < k2 < indices@.len() ==> #[trigger] scan_rank(
                            width as int,
                            indices@[k1].0 as int,
                            indices@[k1].1 as int,
                        ) < #[trigger] scan_rank(
                            width as int,
                            indices@[k2].0 as int,
                            indices@[k2].1 as int,
                        ),
                    forall|k: int|
                        0 <= k < indices@.len() ==> {
                            let q = #[trigger] scan_rank(
                                width as int,
                                indices@[k].0 as int,
                                indices@[k].1 as int,
                            );
                            &&& q < s
                            &&& keep@[q]
                        },
                    forall|q: int|
                        0 <= q < s && #[trigger] keep@[q] ==> exists|k: int|
                            0 <= k < indices@.len() && scan_rank(
                                width as int,
                                indices@[k].0 as int,
                                indices@[k].1 as int,
                            ) == q,
                decreases width - j,
            {
                proof {
                    lemma_scan_rank_bounds(height as int, width as int, i as int, j as int);
                    assert(keep@.subrange(0, s + 1).drop_last() =~= keep@.subrange(0, s as int));
                }
                let ghost prev = indices@;
                if keep[s] {
                    indices.push((i, j));
                    proof {
                        let n = indices@.len() - 1;
                        assert(scan_rank(
                            width as int,
                            indices@[n].0 as int,
                            indices@[n].1 as int,
                        ) == s);
                        assert forall|q: int|
                            0 <= q < s + 1 && #[trigger] keep@[q] implies exists|k: int|
                                0 <= k < indices@.len() && scan_rank(
                                    width as int,
                                    indices@[k].0 as int,
                                    indices@[k].1 as int,
                                ) == q by {
                            if q < s {
                                let k = choose|k: int|
                                    0 <= k < prev.len() && scan_rank(
                                        width as int,
                                        prev[k].0 as int,
                                        prev[k].1 as int,
                                    ) == q;
                                assert(indices@[k] == prev[k]);
                            } else {
                                assert(indices@[n] == (i, j));
                            }
                        }
                    }
                }
                s = s + 1;
                j = j + 1;
            }
            proof {
                assert(s == (i + 1) * width) by (nonlinear_arith)
                    requires
                        s == i * width + width,
                ;
            }
            i = i + 1;
        }
        proof {
            assert(keep@.subrange(0, s as int) =~= keep@);
        }
        let o = Observations { height, width, indices };
        proof {
            assert(forall|k: int| 0 <= k < o.indices@.len() ==> #[trigger] o.rank_of(k) == scan_rank(
                width as int,
                o.indices@[k].0 as int,
                o.indices@[k].1 as int,
            ));
            assert forall|q: int| 0 <= q < keep@.len() && #[trigger] keep@[q] implies exists|k: int|
                0 <= k < o.indices@.len() && o.rank_of(k) == q by {
                let k = choose|k: int|
                    0 <= k < o.indices@.len() && scan_rank(
                        width as int,
                        o.indices@[k].0 as int,
                        o.indices@[k].1 as int,
                    ) == q;
                assert(o.rank_of(k) == q);
            }
        }
        Ok(o)
    }

    /// Distinct observations sit at distinct storage positions inside the matrix.
    pub proof fn lemma_cells_distinct(&self, k1: int, k2: int)
        requires
            self.wf(),
            0 <= k1 < self.indices@.len(),
            0 <= k2 < self.indices@.len(),
            k1 != k2,
        ensures
            self.cell_of(k1) != self.cell_of(k2),
    {
        assert(self.indices@[k1].0 < self.height);
        assert(self.indices@[k2].0 < self.height);
        if k1 < k2 {
            assert(self.rank_of(k1) < self.rank_of(k2));
        } else {
            assert(self.rank_of(k2) < self.rank_of(k1));
        }
        if self.cell_of(k1) == self.cell_of(k2) {
            lemma_column_major_injective(
                self.height as int,
                self.indices@[k1].0 as int,
                self.indices@[k1].1 as int,
                self.indices@[k2].0 as int,
                self.indices@[k2].1 as int,
            );
        }
    }

    /// Every observation sits inside the matrix's storage.
    pub proof fn lemma_cell_in_bounds(&self, k: int)
        requires
            self.wf(),
            0 <= k < self.indices@.len(),
        ensures
            0 <= self.cell_of(k) < self.area(),
    {
        assert(self.indices@[k].0 < self.height);
        lemma_column_major_in_bounds(
            self.height as int,
            self.width as int,
            self.indices@[k].0 as int,
            self.indices@[k].1 as int,
        );
    }

    /// Storage position of the `k`-th observed cell.
    fn cell_at(&self, k: usize) -> (c: usize)
        requires
            self.wf(),
            k < self.indices@.len(),
        ensures
            c == self.cell_of(k as int),
            c < self.area(),
    {
        proof {
            self.lemma_cell_in_bounds(k as int);
        }
        let (i, j) = self.indices[k];
        i + j * self.height
    }

    /// Writes into `out` the values of `data` (column-major storage of the matrix)
    /// at the observed cells, in order; entries of `out` past the observations stay.
    pub fn sample_known_indices_into<T: Copy>(&self, data: &Vec<T>, out: &mut Vec<T>)
        requires
            self.wf(),
            data@.len() == self.area(),
            old(out)@.len() >= self.indices@.len(),
        ensures
            final(out)@.len() == old(out)@.len(),
            forall|k: int|
                0 <= k < self.indices@.len() ==> final(out)@[k] == data@[#[trigger] self.cell_of(k)],
            forall|k: int|
                self.indices@.len() <= k < old(out)@.len()
                    ==> #[trigger] final(out)@[k] == old(out)@[k],
    {
        let ghost before = out@;
        let n = self.indices.len();
        let mut k: usize = 0;
        while k < n
            invariant
                self.wf(),
                n == self.indices@.len(),
                data@.len() == self.area(),
                out@.len() == before.len(),
                before.len() >= n,
                k <= n,
                forall|q: int| 0 <= q < k ==> out@[q] == data@[#[trigger] self.cell_of(q)],
                forall|q: int| n <= q < before.len() ==> #[trigger] out@[q] == before[q],
            decreases n - k,
        {
            let c = self.cell_at(k);
            out.set(k, data[c]);
            k = k + 1;
        }
    }

    /// The values of `data` (column-major storage of the matrix) at the observed
    /// cells, in order.
    pub fn sample_known_indices<T: Copy>(&self, data: &Vec<T>) -> (r: Vec<T>)
        requires
            self.wf(),
            data@.len() == self.area(),
        ensures
            r@.len() == self.indices@.len(),
            forall|k: int| 0 <= k < self.indices@.len() ==> r@[k] == data@[#[trigger] self.cell_of(k)],
    {
        let n = self.indices.len();
        let mut r: Vec<T> = Vec::with_capacity(n);
        let mut k: usize = 0;
        while k < n
            invariant
                self.wf(),
                n == self.indices@.len(),
                data@.len() == self.area(),
                r@.len() == k,
                k <= n,
                forall|q: int| 0 <= q < k ==> r@[q] == data@[#[trigger] self.cell_of(q)],
            decreases n - k,
        {
            let c = self.cell_at(k);
            r.push(data[c]);
            k = k + 1;
        }
        r
    }

    /// Writes `vals[k]` at the `k`-th observed cell of `out` for each `k < n`, leaving
    /// every other cell as it was.
    fn scatter_first<T: Copy>(&self, n: usize, vals: &Vec<T>, out: &mut Vec<T>)
        requires
            self.wf(),
            n <= self.indices@.len(),
            n <= vals@.len(),
            old(out)@.len() == self.area(),
        ensures
            final(out)@.len() == self.area(),
            forall|k: int| 0 <= k < n ==> final(out)@[#[trigger] self.cell_of(k)] == vals@[k],
            forall|c: int|
                0 <= c < self.area() && !self.observes_first(n as int, c)
                    ==> #[trigger] final(out)@[c] == old(out)@[c],
    {
        let ghost before = out@;
        let mut k: usize = 0;
        while k < n
            invariant
                self.wf(),
                n <= self.indices@.len(),
                n <= vals@.len(),
                out@.len() == self.area(),
                k <= n,
                forall|q: int| 0 <= q < k ==> out@[#[trigger] self.cell_of(q)] == vals@[q],
                forall|c: int|
                    0 <= c < self.area() && (forall|q: int| 0 <= q < k ==> self.cell_of(q) != c)
                        ==> #[trigger] out@[c] == before[c],
            decreases n - k,
        {
            let c = self.cell_at(k);
            let ghost mid = out@;
            out.set(c, vals[k]);
            proof {
                assert forall|q: int| 0 <= q < k implies self.cell_of(q) != c by {
                    self.lemma_cells_distinct(q, k as int);
                }
                assert forall|q: int| 0 <= q < k + 1 implies out@[#[trigger] self.cell_of(q)] == vals@[q] by {
                    self.lemma_cell_in_bounds(q);
                    if q < k {
                        assert(out@[self.cell_of(q)] == mid[self.cell_of(q)]);
                    }
                }
            }
            k = k + 1;
        }
        proof {
            assert forall|c: int| 0 <= c < self.area() && !self.observes_first(n as int, c) implies #[trigger] out@[c] == before[c] by {
                assert forall|q: int| 0 <= q < n implies self.cell_of(q) != c by {
                    if self.cell_of(q) == c {
                        assert(self.observes_first(n as int, c));
                    }
                }
            }
        }
    }

    /// Writes `vals[k]` at the `k`-th observed cell of `out` (column-major storage of
    /// the matrix) and leaves every other cell as it was; values past the
    /// observations are not used.
    pub fn unsample_known_indices_into<T: Copy>(&self, vals: &Vec<T>, out: &mut Vec<T>)
        requires
            self.wf(),
            vals@.len() >= self.indices@.len(),
            old(out)@.len() == self.area(),
        ensures
            final(out)@.len() == self.area(),
            forall|k: int| 0 <= k < self.indices@.len() ==> final(out)@[#[trigger] self.cell_of(k)] == vals@[k],
            forall|c: int| 0 <= c < self.area() && !self.observes(c) ==> #[trigger] final(out)@[c] == old(out)@[c],
    {
        let n = self.indices.len();
        self.scatter_first(n, vals, out);
    }

    /// The column-major storage of a matrix holding `vals[k]` at the `k`-th observed
    /// cell for each `k < vals.len()`, and `zero` everywhere else.
    pub fn unsample_known_indices<T: Copy>(&self, zero: T, vals: &Vec<T>) -> (r: Vec<T>)
        requires
            self.wf(),
            vals@.len() <= self.indices@.len(),
        ensures
            r@.len() == self.area(),
            forall|k: int| 0 <= k < vals@.len() ==> r@[#[trigger] self.cell_of(k)] == vals@[k],
            forall|c: int|
                0 <= c < self.area() && !self.observes_first(vals@.len() as int, c)
                    ==> #[trigger] r@[c] == zero,
    {
        let area = self.height * self.width;
        let mut r: Vec<T> = Vec::with_capacity(area);
        let mut c: usize = 0;
        while c < area
            invariant
                area == self.area(),
                r@.len() == c,
                c <= area,
                forall|q: int| 0 <= q < c ==> #[trigger] r@[q] == zero,
            decreases area - c,
        {
            r.push(zero);
            c = c + 1;
        }
        let n = vals.len();
        self.scatter_first(n, vals, &mut r);
        r
    }

    /// Drawing with no cell kept observes nothing.
    pub proof fn lemma_nothing_kept(&self, height: usize, width: usize, keep: Seq<bool>)
        requires
            self.drawn_from(height, width, keep),
            forall|s: int| 0 <= s < keep.len() ==> !#[trigger] keep[s],
        ensures
            self.indices@.len() == 0,
    {
        lemma_count_kept_uniform(keep);
    }

    /// Drawing with every cell kept observes each of the `height * width` cells
    /// exactly once.
    pub proof fn lemma_everything_kept(&self, height: usize, width: usize, keep: Seq<bool>)
        requires
            self.drawn_from(height, width, keep),
            forall|s: int| 0 <= s < keep.len() ==> #[trigger] keep[s],
        ensures
            self.indices@.len() == height * width,
            forall|i: usize, j: usize| i < height && j < width ==> #[trigger] self.lists(i, j),
            forall|k1: int, k2: int|
                0 <= k1 < self.indices@.len() && 0 <= k2 < self.indices@.len() && k1 != k2
                    ==> #[trigger] self.indices@[k1] != #[trigger] self.indices@[k2],
    {
        lemma_count_kept_uniform(keep);
        assert forall|i: usize, j: usize| i < height && j < width implies #[trigger] self.lists(
            i,
            j,
        ) by {
            lemma_scan_rank_bounds(height as int, width as int, i as int, j as int);
            let s = scan_rank(width as int, i as int, j as int);
            assert(keep[s]);
            let k = choose|k: int| 0 <= k < self.indices@.len() && self.rank_of(k) == s;
            assert(self.indices@[k].0 < height);
            lemma_scan_rank_injective(
                width as int,
                self.indices@[k].0 as int,
                self.indices@[k].1 as int,
                i as int,
                j as int,
            );
            assert(self.indices@[k] == (i, j));
        }
        assert forall|k1: int, k2: int|
            0 <= k1 < self.indices@.len() && 0 <= k2 < self.indices@.len() && k1 != k2
                implies #[trigger] self.indices@[k1] != #[trigger] self.indices@[k2] by {
            if k1 < k2 {
                assert(self.rank_of(k1) < self.rank_of(k2));
            } else {
                assert(self.rank_of(k2) < self.rank_of(k1));
            }
        }
    }
}

} // verus!
