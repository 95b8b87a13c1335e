use vstd::prelude::*;

use crate::grid::{
    cell_index, lemma_column_major_in_bounds, lemma_scan_rank_bounds, lemma_scan_rank_injective,
    scan_rank,
};
use crate::observations::Observations;

verus! {

/// Offset of the first of the four RGBA bytes of pixel `(i, j)` in a row-major
/// image `width` pixels wide.
pub open spec fn pixel_offset(width: int, i: int, j: int) -> int {
    4 * scan_rank(width, i, j)
}

/// Pixel `(i, j)` of `image` is opaque gray at `level`.
pub open spec fn shows_gray(image: Seq<u8>, width: int, i: int, j: int, level: u8) -> bool {
    let p = pixel_offset(width, i, j);
    &&& image[p] == level
    &&& image[p + 1] == level
    &&& image[p + 2] == level
    &&& image[p + 3] == 255
}

/// Sets the four bytes at `p` to opaque gray at `level`, leaving the rest of `image`.
fn put_gray(image: &mut Vec<u8>, p: usize, level: u8)
    requires
        p + 4 <= old(image)@.len(),
    ensures
        final(image)@.len() == old(image)@.len(),
        final(image)@[p as int] == level,
        final(image)@[p + 1] == level,
        final(image)@[p + 2] == level,
        final(image)@[p + 3] == 255,
        forall|q: int|
            0 <= q < old(image)@.len() && (q < p || p + 4 <= q) ==> #[trigger] final(image)@[q]
                == old(image)@[q],
{
    let _len: usize = image.len();
    image.set(p, level);
    image.set(p + 1, level);
    image.set(p + 2, level);
    image.set(p + 3, 255);
}

/// Writes a `height` x `width` matrix of gray levels, given in column-major storage,
/// as opaque gray pixels into the row-major RGBA buffer `image_data`.
pub fn matrix_to_image_data(
    height: usize,
    width: usize,
    intensity: &Vec<u8>,
    image_data: &mut Vec<u8>,
)
    requires
        intensity@.len() == height * width,
        old(image_data)@.len() >= 4 * height * width,
    ensures
        final(image_data)@.len() == old(image_data)@.len(),
        forall|q: int|
            4 * height * width <= q < old(image_data)@.len() ==> #[trigger] final(image_data)@[q]
                == old(image_data)@[q],
        forall|i: int, j: int|
            0 <= i < height && 0 <= j < width ==> #[trigger] shows_gray(
                final(image_data)@,
                width as int,
                i,
                j,
                intensity@[cell_index(height as int, i, j)],
            ),
{
    let ghost start = image_data@;
    let n: usize = image_data.len();
    let cells: usize = intensity.len();
    let mut r: usize = 0;
    let mut i: usize = 0;
    while i < height
        invariant
            intensity@.len() == height * width,
            image_data@.len() == n,
            n >= 4 * height * width,
            n == start.len(),
            cells == height * width,
            forall|q: int| 4 * height * width <= q < n ==> #[trigger] image_data@[q] == start[q],
            i <= height,
            r == i * width,
            forall|a: int, b: int|
                0 <= a < height && 0 <= b < width && scan_rank(width as int, a, b) < r
                    ==> #[trigger] shows_gray(
                    image_data@,
                    width as int,
                    a,
                    b,
                    intensity@[cell_index(height as int, a, b)],
                ),
        decreases height - i,
    {
        let mut j: usize = 0;
        while j < width
            invariant
                intensity@.len() == height * width,
                image_data@.len() == n,
                n >= 4 * height * width,
                n == start.len(),
                cells == height * width,
                forall|q: int| 4 * height * width <= q < n ==> #[trigger] image_data@[q] == start[q],
                i < height,
                j <= width,
                r == i * width + j,
                forall|a: int, b: int|
                    0 <= a < height && 0 <= b < width && scan_rank(width as int, a, b) < r
                        ==> #[trigger] shows_gray(
                        image_data@,
                        width as int,
                        a,
                        b,
                        intensity@[cell_index(height as int, a, b)],
                    ),
            decreases width - j,
        {
            proof {
                lemma_scan_rank_bounds(height as int, width as int, i as int, j as int);
                lemma_column_major_in_bounds(height as int, width as int, i as int, j as int);
                assert(4 * r + 4 <= 4 * height * width) by (nonlinear_arith)
                    requires
                        r + 1 <= height * width,
                ;
            }
            let c = i + j * height;
            let ghost before = image_data@;
            put_gray(image_data, 4 * r, intensity[c]);
            proof {
                assert forall|a: int, b: int|
                    0 <= a < height && 0 <= b < width && scan_rank(width as int, a, b) < r + 1
                        implies #[trigger] shows_gray(
                        image_data@,
                        width as int,
                        a,
                        b,
                        intensity@[cell_index(height as int, a, b)],
                    ) by {
                    lemma_scan_rank_bounds(height as int, width as int, a, b);
                    if scan_rank(width as int, a, b) == r {
                        lemma_scan_rank_injective(width as int, a, b, i as int, j as int);
                    } else {
                        assert(shows_gray(
                            before,
                            width as int,
                            a,
                            b,
                            intensity@[cell_index(height as int, a, b)],
                        ));
                    }
                }
            }
            r = r + 1;
            j = j + 1;
        }
        proof {
            assert(r == (i + 1) * width) by (nonlinear_arith)
                requires
                    r == i * width + width,
            ;
        }
        i = i + 1;
    }
    proof {
        assert forall|a: int, b: int| 0 <= a < height && 0 <= b < width implies #[trigger] shows_gray(
            image_data@,
            width as int,
            a,
            b,
            intensity@[cell_index(height as int, a, b)],
        ) by {
            lemma_scan_rank_bounds(height as int, width as int, a, b);
        }
    }
}

impl Observations {
    /// Gray level of pixel `(i, j)` once the first `n` observed cells are drawn from
    /// `intensity` (column-major storage) over a black background.
    pub open spec fn shown_level(&self, intensity: Seq<u8>, n: int, i: usize, j: usize) -> u8 {
        if exists|q: int| 0 <= q < n && self.indices@[q] == (i, j) {
            intensity[cell_index(self.height as int, i as int, j as int)]
        } else {
            0u8
        }
    }

    /// Writes the view of the matrix that the observations give into the row-major
    /// RGBA buffer `image_data`: an observed cell shows its gray level from
    /// `intensity` (column-major storage), every other cell is opaque black.
    pub fn corrupted_image_data(&self, intensity: &Vec<u8>, image_data: &mut Vec<u8>)
        requires
            self.wf(),
            intensity@.len() == self.area(),
            old(image_data)@.len() >= 4 * self.area(),
        ensures
            final(image_data)@.len() == old(image_data)@.len(),
            forall|q: int|
                4 * self.area() <= q < old(image_data)@.len() ==> #[trigger] final(image_data)@[q]
                    == old(image_data)@[q],
            forall|i: usize, j: usize|
                i < self.height && j < self.width ==> #[trigger] shows_gray(
                    final(image_data)@,
                    self.width as int,
                    i as int,
                    j as int,
                    self.shown_level(intensity@, self.indices@.len() as int, i, j),
                ),
    {
        let height = self.height;
        let width = self.width;
        let ghost start = image_data@;
        let n: usize = image_data.len();
        let pixels = height * width;
        let mut r: usize = 0;
        while r < pixels
            invariant
                self.wf(),
                height == self.height,
                width == self.width,
                pixels == self.area(),
                image_data@.len() == n,
                n >= 4 * pixels,
                n == start.len(),
                forall|q: int| 4 * pixels <= q < n ==> #[trigger] image_data@[q] == start[q],
                r <= pixels,
                forall|q: int| 0 <= q < 4 * r ==> #[trigger] image_data@[q] == if q % 4 == 3 {
                    255u8
                } else {
                    0u8
                },
            decreases pixels - r,
        {
            put_gray(image_data, 4 * r, 0);
            r = r + 1;
        }
        proof {
            assert forall|i: usize, j: usize| i < height && j < width implies #[trigger] shows_gray(
                image_data@,
                width as int,
                i as int,
                j as int,
                0u8,
            ) by {
                lemma_scan_rank_bounds(height as int, width as int, i as int, j as int);
                let p = pixel_offset(width as int, i as int, j as int);
                assert(p % 4 == 0);
                assert((p + 1) % 4 == 1);
                assert((p + 2) % 4 == 2);
                assert((p + 3) % 4 == 3);
            }
        }
        let count = self.indices.len();
        proof {
            assert forall|i: usize, j: usize| i < height && j < width implies #[trigger] shows_gray(
                image_data@,
                width as int,
                i as int,
                j as int,
                self.shown_level(intensity@, 0, i, j),
            ) by {
                assert(shows_gray(image_data@, width as int, i as int, j as int, 0u8));
            }
        }
        let mut k: usize = 0;
        while k < count
            invariant
                self.wf(),
                height == self.height,
                width == self.width,
                intensity@.len() == self.area(),
                count == self.indices@.len(),
                image_data@.len() == n,
                n >= 4 * self.area(),
                n == start.len(),
                forall|q: int| 4 * self.area() <= q < n ==> #[trigger] image_data@[q] == start[q],
                k <= count,
                forall|i: usize, j: usize|
                    i < height && j < width ==> #[trigger] shows_gray(
                        image_data@,
                        width as int,
                        i as int,
                        j as int,
                        self.shown_level(intensity@, k as int, i, j),
                    ),
            decreases count - k,
        {
            let (a, b) = self.indices[k];
            proof {
                assert(self.indices@[k as int].0 < height);
                lemma_scan_rank_bounds(height as int, width as int, a as int, b as int);
                lemma_column_major_in_bounds(height as int, width as int, a as int, b as int);
            }
            let c = a + b * height;
            let p = 4 * (a * width + b);
            let ghost before = image_data@;
            put_gray(image_data, p, intensity[c]);
            proof {
                assert forall|i: usize, j: usize| i < height && j < width implies #[trigger] shows_gray(
                    image_data@,
                    width as int,
                    i as int,
                    j as int,
                    self.shown_level(intensity@, k + 1, i, j),
                ) by {
                    lemma_scan_rank_bounds(height as int, width as int, i as int, j as int);
                    if (i, j) == (a, b) {
                        assert(self.indices@[k as int] == (i, j));
                    } else {
                        if scan_rank(width as int, i as int, j as int) == scan_rank(
                            width as int,
                            a as int,
                            b as int,
                        ) {
                            lemma_scan_rank_injective(
                                width as int,
                                i as int,
                                j as int,
                                a as int,
                                b as int,
                            );
                        }
                        assert(shows_gray(
                            before,
                            width as int,
                            i as int,
                            j as int,
                            self.shown_level(intensity@, k as int, i, j),
                        ));
                        if exists|q: int| 0 <= q < k + 1 && self.indices@[q] == (i, j) {
                            let q = choose|q: int| 0 <= q < k + 1 && self.indices@[q] == (i, j);
                            assert(q < k);
                        }
                    }
                }
            }
            k = k + 1;
        }
    }
}

} // verus!
