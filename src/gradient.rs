use vstd::prelude::*;

use crate::grid::{before, cell, in_grid, lemma_index_bounds, lemma_raster_before, Grid};

verus! {

/// A cell is an edge when its gradient magnitude exceeds a tenth of the largest
/// one; on squared magnitudes, when 100 times it exceeds the largest.
pub const EDGE_RATIO_SQ: u128 = 100;

/// No squared magnitude of 32-bit samples exceeds this.
pub const MAGNITUDE_BOUND: u128 = 0x4_0000_0000_0000_0000_00;

/// Clamp-to-edge: `i` moved to the nearest index of `0..len`.
pub open spec fn clamp_index(i: int, len: int) -> int {
    if i < 0 {
        0
    } else if i >= len {
        len - 1
    } else {
        i
    }
}

/// The stored luminance of an in-grid cell.
#[verifier::opaque]
pub open spec fn pixel(g: Grid<i32>, r: int, c: int) -> int {
    g.at(r, c) as int
}

/// Luminance at `(r, c)`, with out-of-range coordinates clamped to the border.
pub open spec fn lum(g: Grid<i32>, r: int, c: int) -> int {
    pixel(g, clamp_index(r, g.height as int), clamp_index(c, g.width as int))
}

/// Horizontal derivative: corners weigh 3, side midpoints 10, left positive.
#[verifier::opaque]
pub open spec fn grad_x(g: Grid<i32>, r: int, c: int) -> int {
    3 * lum(g, r - 1, c - 1) - 3 * lum(g, r - 1, c + 1) + 10 * lum(g, r, c - 1) - 10 * lum(
        g,
        r,
        c + 1,
    ) + 3 * lum(g, r + 1, c - 1) - 3 * lum(g, r + 1, c + 1)
}

/// Vertical derivative: corners weigh 3, side midpoints 10, top positive.
#[verifier::opaque]
pub open spec fn grad_y(g: Grid<i32>, r: int, c: int) -> int {
    3 * lum(g, r - 1, c - 1) + 10 * lum(g, r - 1, c) + 3 * lum(g, r - 1, c + 1) - 3 * lum(
        g,
        r + 1,
        c - 1,
    ) - 10 * lum(g, r + 1, c) - 3 * lum(g, r + 1, c + 1)
}

/// Squared Euclidean norm of the two derivatives at `(r, c)`.
pub open spec fn magnitude_sq(g: Grid<i32>, r: int, c: int) -> int {
    grad_x(g, r, c) * grad_x(g, r, c) + grad_y(g, r, c) * grad_y(g, r, c)
}

/// `m` is the largest squared magnitude over the grid.
pub open spec fn is_max_magnitude(g: Grid<i32>, m: int) -> bool {
    &&& forall|r: int, c: int|
        #![trigger magnitude_sq(g, r, c)]
        in_grid(g.width as int, g.height as int, r, c) ==> magnitude_sq(g, r, c) <= m
    &&& exists|r: int, c: int|
        #![trigger magnitude_sq(g, r, c)]
        in_grid(g.width as int, g.height as int, r, c) && magnitude_sq(g, r, c) == m
}

/// The largest squared magnitude over the grid.
pub open spec fn max_magnitude(g: Grid<i32>) -> int {
    choose|m: int| is_max_magnitude(g, m)
}

/// Reads the luminance of an in-grid cell.
fn read(img: &Grid<i32>, r: usize, c: usize) -> (v: i32)
    requires
        img.wf(),
        in_grid(img.width as int, img.height as int, r as int, c as int),
    ensures
        v == pixel(*img, r as int, c as int),
{
    let n = img.cells.len();
    proof {
        reveal(pixel);
        lemma_index_bounds(img.width as int, img.height as int, r as int, c as int);
        assert(r * img.width <= r * img.width + c < n);
    }
    img.cells[r * img.width + c]
}

/// The luminance at `(i, j)`, with coordinates clamped to the grid's edge.
pub fn sample(img: &Grid<i32>, i: isize, j: isize) -> (v: i32)
    requires
        img.wf(),
        img.width > 0,
        img.height > 0,
    ensures
        v == lum(*img, i as int, j as int),
{
    let r: usize = if i < 0 {
        0
    } else if i as usize >= img.height {
        img.height - 1
    } else {
        i as usize
    };
    let c: usize = if j < 0 {
        0
    } else if j as usize >= img.width {
        img.width - 1
    } else {
        j as usize
    };
    read(img, r, c)
}

/// Squared gradient magnitude at an in-grid cell.
fn sobel(img: &Grid<i32>, i: usize, j: usize) -> (m: u128)
    requires
        img.wf(),
        in_grid(img.width as int, img.height as int, i as int, j as int),
    ensures
        m == magnitude_sq(*img, i as int, j as int),
        m <= MAGNITUDE_BOUND,
{
    let h = img.height;
    let w = img.width;
    let up: usize = if i == 0 {
        0
    } else {
        i - 1
    };
    let down: usize = if i + 1 < h {
        i + 1
    } else {
        h - 1
    };
    let left: usize = if j == 0 {
        0
    } else {
        j - 1
    };
    let right: usize = if j + 1 < w {
        j + 1
    } else {
        w - 1
    };
    let a00 = read(img, up, left);
    let a01 = read(img, up, j);
    let a02 = read(img, up, right);
    let a10 = read(img, i, left);
    let a12 = read(img, i, right);
    let a20 = read(img, down, left);
    let a21 = read(img, down, j);
    let a22 = read(img, down, right);
    proof {
        let (g, ii, jj) = (*img, i as int, j as int);
        assert(clamp_index(ii - 1, h as int) == up);
        assert(clamp_index(ii + 1, h as int) == down);
        assert(clamp_index(ii, h as int) == i);
        assert(clamp_index(jj - 1, w as int) == left);
        assert(clamp_index(jj + 1, w as int) == right);
        assert(clamp_index(jj, w as int) == j);
        reveal(grad_x);
        reveal(grad_y);
    }
    let gx = derivative_x(a00, a02, a10, a12, a20, a22);
    let gy = derivative_y(a00, a01, a02, a20, a21, a22);
    square_sum(gx, gy)
}

/// The horizontal kernel applied to the six samples it weighs.
fn derivative_x(a00: i32, a02: i32, a10: i32, a12: i32, a20: i32, a22: i32) -> (g: i64)
    ensures
        g == 3 * a00 - 3 * a02 + 10 * a10 - 10 * a12 + 3 * a20 - 3 * a22,
        -0x10_0000_0000 <= g <= 0x10_0000_0000,
{
    3 * (a00 as i64) - 3 * (a02 as i64) + 10 * (a10 as i64) - 10 * (a12 as i64) + 3 * (a20 as i64)
        - 3 * (a22 as i64)
}

/// The vertical kernel applied to the six samples it weighs.
fn derivative_y(a00: i32, a01: i32, a02: i32, a20: i32, a21: i32, a22: i32) -> (g: i64)
    ensures
        g == 3 * a00 + 10 * a01 + 3 * a02 - 3 * a20 - 10 * a21 - 3 * a22,
        -0x10_0000_0000 <= g <= 0x10_0000_0000,
{
    3 * (a00 as i64) + 10 * (a01 as i64) + 3 * (a02 as i64) - 3 * (a20 as i64) - 10 * (a21 as i64)
        - 3 * (a22 as i64)
}

/// `gx² + gy²`, for derivatives of 32-bit samples.
fn square_sum(gx: i64, gy: i64) -> (m: u128)
    requires
        -0x10_0000_0000 <= gx <= 0x10_0000_0000,
        -0x10_0000_0000 <= gy <= 0x10_0000_0000,
    ensures
        m == gx * gx + gy * gy,
        m <= MAGNITUDE_BOUND,
{
    proof {
        assert(0 <= gx * gx <= 0x1_0000_0000_0000_0000_00) by (nonlinear_arith)
            requires
                -0x10_0000_0000 <= gx <= 0x10_0000_0000,
        ;
        assert(0 <= gy * gy <= 0x1_0000_0000_0000_0000_00) by (nonlinear_arith)
            requires
                -0x10_0000_0000 <= gy <= 0x10_0000_0000,
        ;
    }
    let gx2 = gx as i128 * gx as i128;
    let gy2 = gy as i128 * gy as i128;
    (gx2 + gy2) as u128
}


/// The squared gradient magnitude of every cell.
pub fn gradient_magnitudes(img: &Grid<i32>) -> (mags: Grid<u128>)
    requires
        img.wf(),
    ensures
        mags.wf(),
        mags.width == img.width,
        mags.height == img.height,
        forall|p: int| #![trigger mags.cells@[p]] 0 <= p < mags.cells@.len() ==> mags.cells@[p] <= MAGNITUDE_BOUND,
        forall|r: int, c: int|
            #![trigger mags.at(r, c)]
            in_grid(img.width as int, img.height as int, r, c) ==> mags.at(r, c) == magnitude_sq(*img, r, c),
{
    let w = img.width;
    let h = img.height;
    let ghost (wi, hi) = (w as int, h as int);
    let mut cells: Vec<u128> = Vec::new();
    let mut i: usize = 0;
    while i < h
        invariant
            img.wf(),
            w == img.width,
            h == img.height,
            wi == w,
            hi == h,
            i <= h,
            cells@.len() == i * w,
            forall|p: int| #![trigger cells@[p]] 0 <= p < cells@.len() ==> cells@[p] <= MAGNITUDE_BOUND,
            forall|r: int, c: int|
                #![trigger cell(cells@, wi, r, c)]
                in_grid(wi, hi, r, c) && r < i ==> cell(cells@, wi, r, c) == magnitude_sq(*img, r, c),
        decreases h - i,
    {
        let mut j: usize = 0;
        while j < w
            invariant
                img.wf(),
                w == img.width,
                h == img.height,
                wi == w,
                hi == h,
                i < h,
                j <= w,
                cells@.len() == i * w + j,
                forall|p: int| #![trigger cells@[p]] 0 <= p < cells@.len() ==> cells@[p] <= MAGNITUDE_BOUND,
                forall|r: int, c: int|
                    #![trigger cell(cells@, wi, r, c)]
                    in_grid(wi, hi, r, c) && before(r, c, i as int, j as int) ==> cell(cells@, wi, r, c)
                        == magnitude_sq(*img, r, c),
            decreases w - j,
        {
            let m = sobel(img, i, j);
            let ghost old_cells = cells@;
            cells.push(m);
            proof {
                assert forall|r: int, c: int|
                    #![trigger cell(cells@, wi, r, c)]
                    in_grid(wi, hi, r, c) && before(r, c, i as int, j + 1) implies cell(cells@, wi, r, c)
                        == magnitude_sq(*img, r, c) by {
                    lemma_index_bounds(wi, hi, r, c);
                    if before(r, c, i as int, j as int) {
                        lemma_raster_before(wi, r, c, i as int, j as int);
                        assert(cell(cells@, wi, r, c) == cell(old_cells, wi, r, c));
                    }
                }
            }
            j = j + 1;
        }
        proof {
            assert((i + 1) * w == i * w + w) by (nonlinear_arith);
        }
        i = i + 1;
    }
    proof {
        assert(h * w == w * h) by (nonlinear_arith);
    }
    Grid { width: w, height: h, cells }
}


/// Binarises the gradient field: a cell is an edge when its squared magnitude,
/// times `EDGE_RATIO_SQ`, exceeds the largest squared magnitude of the grid. A flat
/// image, whose largest magnitude is zero, has no edges.
pub fn edge_detect(img: &Grid<i32>) -> (mask: Grid<bool>)
    requires
        img.wf(),
        img.width > 0,
        img.height > 0,
    ensures
        mask.wf(),
        mask.width == img.width,
        mask.height == img.height,
        forall|r: int, c: int|
            #![trigger mask.at(r, c)]
            in_grid(img.width as int, img.height as int, r, c) ==> mask.at(r, c) == (EDGE_RATIO_SQ
                * magnitude_sq(*img, r, c) > max_magnitude(*img)),
{
    let mags = gradient_magnitudes(img);
    let w = img.width;
    let h = img.height;
    let ghost (wi, hi) = (w as int, h as int);
    proof {
        lemma_index_bounds(wi, hi, 0, 0);
        let _ = mags.at(0, 0);
    }
    let mut m: u128 = mags.cells[0];
    let ghost mut mr: int = 0;
    let ghost mut mc: int = 0;
    let mut i: usize = 0;
    while i < h
        invariant
            mags.wf(),
            w == mags.width,
            h == mags.height,
            wi == w,
            hi == h,
            i <= h,
            in_grid(wi, hi, mr, mc),
            m == mags.at(mr, mc),
            forall|r: int, c: int|
                #![trigger mags.at(r, c)]
                in_grid(wi, hi, r, c) && r < i ==> mags.at(r, c) <= m,
        decreases h - i,
    {
        let mut j: usize = 0;
        while j < w
            invariant
                mags.wf(),
                w == mags.width,
                h == mags.height,
                wi == w,
                hi == h,
                i < h,
                j <= w,
                in_grid(wi, hi, mr, mc),
                m == mags.at(mr, mc),
                forall|r: int, c: int|
                    #![trigger mags.at(r, c)]
                    in_grid(wi, hi, r, c) && before(r, c, i as int, j as int) ==> mags.at(r, c) <= m,
            decreases w - j,
        {
            let n = mags.cells.len();
            proof {
                lemma_index_bounds(wi, hi, i as int, j as int);
                assert(i * w <= i * w + j < n);
            }
            let v = mags.cells[i * w + j];
            if v > m {
                m = v;
                proof {
                    mr = i as int;
                    mc = j as int;
                }
            }
            j = j + 1;
        }
        i = i + 1;
    }
    proof {
        assert(is_max_magnitude(*img, m as int)) by {
            let _ = mags.at(mr, mc);
            assert(magnitude_sq(*img, mr, mc) == m);
            assert forall|r: int, c: int|
                #![trigger magnitude_sq(*img, r, c)]
                in_grid(wi, hi, r, c) implies magnitude_sq(*img, r, c) <= m by {
                let _ = mags.at(r, c);
            }
        }
        let m2 = max_magnitude(*img);
        assert(is_max_magnitude(*img, m2));
        let (r2, c2) = choose|r: int, c: int|
            #![trigger magnitude_sq(*img, r, c)]
            in_grid(wi, hi, r, c) && magnitude_sq(*img, r, c) == m2;
        let _ = mags.at(r2, c2);
        assert(m2 <= m);
        assert(m <= m2);
    }
    let n = mags.cells.len();
    let mut cells: Vec<bool> = Vec::new();
    let mut p: usize = 0;
    while p < n
        invariant
            n == mags.cells@.len(),
            p <= n,
            cells@.len() == p,
            forall|q: int| #![trigger mags.cells@[q]] 0 <= q < n ==> mags.cells@[q] <= MAGNITUDE_BOUND,
            forall|q: int|
                #![trigger cells@[q]]
                0 <= q < p ==> cells@[q] == (EDGE_RATIO_SQ * mags.cells@[q] > m),
        decreases n - p,
    {
        cells.push(EDGE_RATIO_SQ * mags.cells[p] > m);
        p = p + 1;
    }
    let mask = Grid { width: w, height: h, cells };
    proof {
        assert forall|r: int, c: int|
            #![trigger mask.at(r, c)]
            in_grid(wi, hi, r, c) implies mask.at(r, c) == (EDGE_RATIO_SQ * magnitude_sq(*img, r, c)
                > max_magnitude(*img)) by {
            lemma_index_bounds(wi, hi, r, c);
            let _ = mags.at(r, c);
        }
    }
    mask
}

/// An image of one luminance everywhere has a zero gradient at every cell, so its
/// largest magnitude is zero and no cell is an edge.
pub proof fn lemma_flat_image_has_no_edges(img: Grid<i32>, k: i32)
    requires
        img.wf(),
        img.width > 0,
        img.height > 0,
        forall|r: int, c: int|
            #![trigger img.at(r, c)]
            in_grid(img.width as int, img.height as int, r, c) ==> img.at(r, c) == k,
    ensures
        forall|r: int, c: int|
            #![trigger magnitude_sq(img, r, c)]
            in_grid(img.width as int, img.height as int, r, c) ==> magnitude_sq(img, r, c) == 0,
        max_magnitude(img) == 0,
        forall|r: int, c: int|
            #![trigger magnitude_sq(img, r, c)]
            in_grid(img.width as int, img.height as int, r, c) ==> !(EDGE_RATIO_SQ * magnitude_sq(
                img,
                r,
                c,
            ) > max_magnitude(img)),
{
    let (w, h) = (img.width as int, img.height as int);
    assert forall|r: int, c: int| #![trigger lum(img, r, c)] true implies lum(img, r, c) == k by {
        reveal(pixel);
        let _ = img.at(clamp_index(r, h), clamp_index(c, w));
    }
    assert forall|r: int, c: int|
        #![trigger magnitude_sq(img, r, c)]
        in_grid(w, h, r, c) implies magnitude_sq(img, r, c) == 0 by {
        reveal(grad_x);
        reveal(grad_y);
        assert(lum(img, r - 1, c - 1) == k);
        assert(lum(img, r - 1, c) == k);
        assert(lum(img, r - 1, c + 1) == k);
        assert(lum(img, r, c - 1) == k);
        assert(lum(img, r, c + 1) == k);
        assert(lum(img, r + 1, c - 1) == k);
        assert(lum(img, r + 1, c) == k);
        assert(lum(img, r + 1, c + 1) == k);
        assert(grad_x(img, r, c) == 0);
        assert(grad_y(img, r, c) == 0);
    }
    assert(magnitude_sq(img, 0, 0) == 0);
    assert(is_max_magnitude(img, 0));
    let m2 = max_magnitude(img);
    assert(is_max_magnitude(img, m2));
    let (r2, c2) = choose|r: int, c: int|
        #![trigger magnitude_sq(img, r, c)]
        in_grid(w, h, r, c) && magnitude_sq(img, r, c) == m2;
    assert(m2 == 0);
}

} // verus!
