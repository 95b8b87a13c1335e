use vstd::prelude::*;

verus! {

/// Position of cell `(i, j)` in the column-major storage of a matrix with `height` rows.
pub open spec fn cell_index(height: int, i: int, j: int) -> int {
    i + j * height
}

/// Position of cell `(i, j)` in the row-major scan of a matrix with `width` columns.
pub open spec fn scan_rank(width: int, i: int, j: int) -> int {
    i * width + j
}

/// Number of cells marked as kept.
pub open spec fn count_kept(keep: Seq<bool>) -> nat
    decreases keep.len(),
{
    if keep.len() == 0 {
        0
    } else {
        count_kept(keep.drop_last()) + if keep.last() { 1nat } else { 0nat }
    }
}

/// A cell inside the matrix has its storage position inside the storage.
pub proof fn lemma_column_major_in_bounds(height: int, width: int, i: int, j: int)
    requires
        0 <= i < height,
        0 <= j < width,
    ensures
        0 <= cell_index(height, i, j) < height * width,
{
    assert(0 <= j * height) by (nonlinear_arith)
        requires
            0 <= j,
            0 <= height,
    ;
    assert(j * height + height <= width * height) by (nonlinear_arith)
        requires
            j + 1 <= width,
            0 <= height,
    ;
}

/// Distinct cells with rows in range have distinct storage positions.
pub proof fn lemma_column_major_injective(height: int, i1: int, j1: int, i2: int, j2: int)
    requires
        0 <= i1 < height,
        0 <= i2 < height,
        0 <= j1,
        0 <= j2,
        cell_index(height, i1, j1) == cell_index(height, i2, j2),
    ensures
        i1 == i2,
        j1 == j2,
{
    if j1 < j2 {
        assert(j1 * height + height <= j2 * height) by (nonlinear_arith)
            requires
                j1 + 1 <= j2,
                0 <= height,
        ;
    } else if j2 < j1 {
        assert(j2 * height + height <= j1 * height) by (nonlinear_arith)
            requires
                j2 + 1 <= j1,
                0 <= height,
        ;
    }
}

/// A cell inside the matrix has its row-major position among the first
/// `height * width`.
pub proof fn lemma_scan_rank_bounds(height: int, width: int, i: int, j: int)
    requires
        0 <= i < height,
        0 <= j < width,
    ensures
        0 <= scan_rank(width, i, j) < height * width,
{
    assert(0 <= i * width) by (nonlinear_arith)
        requires
            0 <= i,
            0 <= width,
    ;
    assert(i * width + width <= height * width) by (nonlinear_arith)
        requires
            i + 1 <= height,
            0 <= width,
    ;
}

/// Distinct cells with columns in range have distinct row-major positions.
pub proof fn lemma_scan_rank_injective(width: int, i1: int, j1: int, i2: int, j2: int)
    requires
        0 <= i1,
        0 <= i2,
        0 <= j1 < width,
        0 <= j2 < width,
        scan_rank(width, i1, j1) == scan_rank(width, i2, j2),
    ensures
        i1 == i2,
        j1 == j2,
{
    if i1 < i2 {
        assert(i1 * width + width <= i2 * width) by (nonlinear_arith)
            requires
                i1 + 1 <= i2,
                0 <= width,
        ;
    } else if i2 < i1 {
        assert(i2 * width + width <= i1 * width) by (nonlinear_arith)
            requires
                i2 + 1 <= i1,
                0 <= width,
        ;
    }
}

/// A mask with no flag set keeps nothing; one with every flag set keeps every cell.
pub proof fn lemma_count_kept_uniform(keep: Seq<bool>)
    ensures
        (forall|s: int| 0 <= s < keep.len() ==> !#[trigger] keep[s]) ==> count_kept(keep) == 0,
        (forall|s: int| 0 <= s < keep.len() ==> #[trigger] keep[s]) ==> count_kept(keep)
            == keep.len(),
    decreases keep.len(),
{
    if keep.len() > 0 {
        let rest = keep.drop_last();
        lemma_count_kept_uniform(rest);
        if forall|s: int| 0 <= s < keep.len() ==> !#[trigger] keep[s] {
            assert forall|s: int| 0 <= s < rest.len() implies !#[trigger] rest[s] by {
                assert(rest[s] == keep[s]);
            }
            assert(!keep[keep.len() - 1]);
        }
        if forall|s: int| 0 <= s < keep.len() ==> #[trigger] keep[s] {
            assert forall|s: int| 0 <= s < rest.len() implies #[trigger] rest[s] by {
                assert(rest[s] == keep[s]);
            }
            assert(keep[keep.len() - 1]);
        }
    }
}

} // verus!
