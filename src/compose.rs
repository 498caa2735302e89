use vstd::arithmetic::div_mod::{lemma_add_mod_noop, lemma_small_mod};
use vstd::prelude::*;

use crate::grid::{before, cell, in_grid, lemma_index_bounds, lemma_raster_before, Grid};
use crate::gradient::{edge_detect, magnitude_sq, max_magnitude, EDGE_RATIO_SQ};
use crate::matrix::{is_permutation, make_dithering_matrices, matrices_from, ranks_below_square};
use crate::regions::{consistent, make_direction_or_offset_matrix};
use crate::quantize::{quantize, quantized};

verus! {

/// The channel value that stands for 1.0.
pub const UNIT: i128 = 65535;

/// A color whose channels stand for `channel / UNIT`, in `[0, 1]`.
#[derive(Clone, Copy, Debug, PartialEq, Eq, Structural)]
pub struct Rgb {
    pub r: u16,
    pub g: u16,
    pub b: u16,
}

/// A quantized color: per channel, the index `k` of its level, standing for
/// `k / (n - 1)` when `n` levels were asked for.
#[derive(Clone, Copy, Debug, PartialEq, Eq, Structural)]
pub struct Levels {
    pub r: i128,
    pub g: i128,
    pub b: i128,
}

/// Numerator of `c / UNIT + rank / s² - 1/2` over the denominator `dither_den(s)`:
/// a channel plus the threshold of a `s × s` matrix cell of rank `rank`.
pub open spec fn dither_num(c: int, rank: int, s: int) -> int {
    2 * c * (s * s) + 2 * rank * UNIT - UNIT * (s * s)
}

pub open spec fn dither_den(s: int) -> int {
    2 * UNIT * (s * s)
}

/// The level of channel `c` after adding the threshold of rank `rank`.
pub open spec fn dithered(n: int, c: int, rank: int, s: int) -> int {
    quantized(n, dither_num(c, rank, s), dither_den(s))
}

/// The rank that the compositor reads for pixel `(i, j)`: direction 3 takes the
/// second matrix, any other the first; the row is `i mod s`, the column
/// `(j + offset) mod s`.
pub open spec fn pixel_rank(
    direction: Grid<u32>,
    offset: Grid<u32>,
    m1: Grid<usize>,
    m2: Grid<usize>,
    s: int,
    i: int,
    j: int,
) -> int {
    let col = (j + offset.at(i, j)) % s;
    if direction.at(i, j) == 3 {
        m2.at(i % s, col) as int
    } else {
        m1.at(i % s, col) as int
    }
}

/// A `size × size` matrix of ranks below `size²`.
pub open spec fn dither_matrix(m: Grid<usize>, size: int) -> bool {
    m.wf() && m.width == size && m.height == size && ranks_below_square(m, size)
}

/// Adds the threshold of rank `rank` to channel `c` and quantizes.
fn dither_channel(num_colors: u32, c: u16, rank: usize, size: usize) -> (k: i128)
    requires
        num_colors >= 2,
        size > 0,
        size * size <= usize::MAX,
        rank < size * size,
    ensures
        k == dithered(num_colors as int, c as int, rank as int, size as int),
{
    let s2 = (size * size) as i128;
    proof {
        assert(0 < s2 <= 0xFFFF_FFFF_FFFF_FFFF);
        assert(0 <= 2 * (c as int) * s2 <= 0x2_0000_0000_0000_0000_0000) by (nonlinear_arith)
            requires
                0 <= c <= 0xFFFF,
                0 < s2 <= 0xFFFF_FFFF_FFFF_FFFF,
        ;
        assert(0 < UNIT * s2 <= 0x1_0000_0000_0000_0000_0000) by (nonlinear_arith)
            requires
                0 < s2 <= 0xFFFF_FFFF_FFFF_FFFF,
        ;
        assert(0 < 2 * UNIT * s2 <= 0x2_0000_0000_0000_0000_0000) by (nonlinear_arith)
            requires
                0 < s2 <= 0xFFFF_FFFF_FFFF_FFFF,
        ;
        assert(0 <= 2 * (rank as int) * UNIT <= 0x2_0000_0000_0000_0000_0000) by (nonlinear_arith)
            requires
                0 <= rank < s2,
                s2 <= 0xFFFF_FFFF_FFFF_FFFF,
        ;
    }
    let num = 2 * (c as i128) * s2 + 2 * (rank as i128) * UNIT - UNIT * s2;
    let den = 2 * UNIT * s2;
    quantize(num_colors, num, den)
}

/// Dithers one color with the matrix cell at row `color_i mod size`, column
/// `color_j mod size`: the cell's threshold is added to each channel, which is
/// then quantized to `num_colors` levels.
pub fn dither_color(
    num_colors: u32,
    mat: &Grid<usize>,
    size: usize,
    color: Rgb,
    color_i: usize,
    color_j: usize,
) -> (res: Levels)
    requires
        num_colors >= 2,
        size > 0,
        size * size <= usize::MAX,
        dither_matrix(*mat, size as int),
    ensures
        ({
            let rank = mat.at(color_i as int % size as int, color_j as int % size as int) as int;
            &&& res.r == dithered(num_colors as int, color.r as int, rank, size as int)
            &&& res.g == dithered(num_colors as int, color.g as int, rank, size as int)
            &&& res.b == dithered(num_colors as int, color.b as int, rank, size as int)
        }),
{
    let row = color_i % size;
    let col = color_j % size;
    let n = mat.cells.len();
    proof {
        lemma_index_bounds(size as int, size as int, row as int, col as int);
        assert(row * size <= row * size + col < n);
    }
    let rank = mat.cells[row * size + col];
    Levels {
        r: dither_channel(num_colors, color.r, rank, size),
        g: dither_channel(num_colors, color.g, rank, size),
        b: dither_channel(num_colors, color.b, rank, size),
    }
}


/// `out` is what the compositor gives pixel `(i, j)`: the pixel's input color,
/// dithered with the rank that its labels select.
pub open spec fn composed(
    out: Levels,
    n: int,
    direction: Grid<u32>,
    offset: Grid<u32>,
    m1: Grid<usize>,
    m2: Grid<usize>,
    s: int,
    orig: Grid<Rgb>,
    i: int,
    j: int,
) -> bool {
    let rank = pixel_rank(direction, offset, m1, m2, s, i, j);
    let color = orig.at(i, j);
    &&& out.r == dithered(n, color.r as int, rank, s)
    &&& out.g == dithered(n, color.g as int, rank, s)
    &&& out.b == dithered(n, color.b as int, rank, s)
}

/// Two grids of the same width and height, both well formed.
pub open spec fn same_shape<A, B>(a: Grid<A>, b: Grid<B>) -> bool {
    a.wf() && b.wf() && a.width == b.width && a.height == b.height
}

/// Dithers every pixel of `orig`: direction labels 1 and 2 select the first
/// matrix, 3 the second; the offset label shifts the matrix column, with
/// wrap-around.
pub fn composite(
    num_colors: u32,
    direction: &Grid<u32>,
    offset: &Grid<u32>,
    m1: &Grid<usize>,
    m2: &Grid<usize>,
    size: usize,
    orig: &Grid<Rgb>,
) -> (out: Grid<Levels>)
    requires
        num_colors >= 2,
        size > 0,
        size * size <= usize::MAX,
        dither_matrix(*m1, size as int),
        dither_matrix(*m2, size as int),
        same_shape(*direction, *orig),
        same_shape(*offset, *orig),
        forall|p: int|
            #![trigger direction.cells@[p]]
            0 <= p < direction.cells@.len() ==> 1 <= direction.cells@[p] <= 3,
    ensures
        same_shape(out, *orig),
        forall|i: int, j: int|
            #![trigger out.at(i, j)]
            in_grid(orig.width as int, orig.height as int, i, j) ==> composed(
                out.at(i, j),
                num_colors as int,
                *direction,
                *offset,
                *m1,
                *m2,
                size as int,
                *orig,
                i,
                j,
            ),
{
    let w = orig.width;
    let h = orig.height;
    let ghost (wi, hi, si) = (w as int, h as int, size as int);
    let mut cells: Vec<Levels> = Vec::new();
    let mut i: usize = 0;
    while i < h
        invariant
            wi == w,
            hi == h,
            si == size,
            w == orig.width,
            h == orig.height,
            num_colors >= 2,
            size > 0,
            size * size <= usize::MAX,
            dither_matrix(*m1, si),
            dither_matrix(*m2, si),
            same_shape(*direction, *orig),
            same_shape(*offset, *orig),
            i <= h,
            cells@.len() == i * w,
            forall|r: int, c: int|
                #![trigger cell(cells@, wi, r, c)]
                in_grid(wi, hi, r, c) && r < i ==> composed(
                    cell(cells@, wi, r, c),
                    num_colors as int,
                    *direction,
                    *offset,
                    *m1,
                    *m2,
                    si,
                    *orig,
                    r,
                    c,
                ),
        decreases h - i,
    {
        let mut j: usize = 0;
        while j < w
            invariant
                wi == w,
                hi == h,
                si == size,
                w == orig.width,
                h == orig.height,
                num_colors >= 2,
                size > 0,
                size * size <= usize::MAX,
                dither_matrix(*m1, si),
                dither_matrix(*m2, si),
                same_shape(*direction, *orig),
                same_shape(*offset, *orig),
                i < h,
                j <= w,
                cells@.len() == i * w + j,
                forall|r: int, c: int|
                    #![trigger cell(cells@, wi, r, c)]
                    in_grid(wi, hi, r, c) && before(r, c, i as int, j as int) ==> composed(
                        cell(cells@, wi, r, c),
                        num_colors as int,
                        *direction,
                        *offset,
                        *m1,
                        *m2,
                        si,
                        *orig,
                        r,
                        c,
                    ),
            decreases w - j,
        {
            let n = orig.cells.len();
            proof {
                lemma_index_bounds(wi, hi, i as int, j as int);
                assert(i * w <= i * w + j < n);
            }
            let p = i * w + j;
            let d = direction.cells[p];
            let off = offset.cells[p] as usize;
            let color = orig.cells[p];
            proof {
                assert((j % size) + (off % size) <= size * size) by (nonlinear_arith)
                    requires
                        j % size < size,
                        off % size < size,
                        size > 0,
                ;
                lemma_add_mod_noop(j as int, off as int, si);
            }
            let col = ((j % size) + (off % size)) % size;
            let res = if d == 3 {
                dither_color(num_colors, m2, size, color, i, col)
            } else {
                dither_color(num_colors, m1, size, color, i, col)
            };
            let ghost c0 = cells@;
            cells.push(res);
            proof {
                lemma_small_mod(col as nat, size as nat);
                assert(col as int % si == col);
                assert(composed(res, num_colors as int, *direction, *offset, *m1, *m2, si, *orig, i as int, j as int));
                assert forall|r: int, c: int|
                    #![trigger cell(cells@, wi, r, c)]
                    in_grid(wi, hi, r, c) && before(r, c, i as int, j + 1) implies composed(
                        cell(cells@, wi, r, c),
                        num_colors as int,
                        *direction,
                        *offset,
                        *m1,
                        *m2,
                        si,
                        *orig,
                        r,
                        c,
                    ) by {
                    lemma_index_bounds(wi, hi, r, c);
                    if before(r, c, i as int, j as int) {
                        lemma_raster_before(wi, r, c, i as int, j as int);
                        assert(cell(cells@, wi, r, c) == cell(c0, wi, r, c));
                    }
                }
            }
            j = j + 1;
        }
        proof {
            assert((i + 1) * w == i * w + w) by (nonlinear_arith);
        }
        i = i + 1;
    }
    proof {
        assert(h * w == w * h) by (nonlinear_arith);
    }
    Grid { width: w, height: h, cells }
}


/// `(r, c)` is an edge of the luminance grid `dog`.
pub open spec fn is_edge(dog: Grid<i32>, r: int, c: int) -> bool {
    EDGE_RATIO_SQ * magnitude_sq(dog, r, c) > max_magnitude(dog)
}

/// `labels` labels the regions of `dog`: edges carry 1, every other cell a value
/// in `2..bound + 2` that its whole 4-connected region shares.
pub open spec fn region_labels(labels: Grid<u32>, dog: Grid<i32>, bound: int) -> bool {
    &&& same_shape(labels, dog)
    &&& forall|r: int, c: int|
        #![trigger labels.at(r, c)]
        in_grid(dog.width as int, dog.height as int, r, c) ==> {
            &&& (labels.at(r, c) == 1 <==> is_edge(dog, r, c))
            &&& (!is_edge(dog, r, c) ==> 2 <= labels.at(r, c) < bound + 2)
            &&& consistent(labels.cells@, dog.width as int, dog.height as int, r, c)
        }
}

/// Labels the regions of an edge mask (see `make_direction_or_offset_matrix`) and
/// restates the result per cell.
fn label_regions(mask: &Grid<bool>, dog: &Grid<i32>, bound: u32) -> (labels: Grid<u32>)
    requires
        same_shape(*mask, *dog),
        mask.cells@.len() < usize::MAX - 2,
        0 < bound <= u32::MAX - 2,
        forall|r: int, c: int|
            #![trigger mask.at(r, c)]
            in_grid(dog.width as int, dog.height as int, r, c) ==> mask.at(r, c) == is_edge(*dog, r, c),
    ensures
        region_labels(labels, *dog, bound as int),
        forall|p: int|
            #![trigger labels.cells@[p]]
            0 <= p < labels.cells@.len() ==> 1 <= labels.cells@[p] < bound + 2,
{
    let labels = make_direction_or_offset_matrix(mask, bound);
    proof {
        let (w, h) = (dog.width as int, dog.height as int);
        assert forall|r: int, c: int|
            #![trigger labels.at(r, c)]
            in_grid(w, h, r, c) implies {
                &&& (labels.at(r, c) == 1 <==> is_edge(*dog, r, c))
                &&& (!is_edge(*dog, r, c) ==> 2 <= labels.at(r, c) < bound + 2)
                &&& consistent(labels.cells@, w, h, r, c)
            } by {
            lemma_index_bounds(w, h, r, c);
            let _ = mask.at(r, c);
        }
        assert forall|p: int|
            #![trigger labels.cells@[p]]
            0 <= p < labels.cells@.len() implies 1 <= labels.cells@[p] < bound + 2 by {
            if mask.cells@[p] {
            }
        }
    }
    labels
}

/// The whole effect: finds the edges of `dog`, labels its regions twice (a
/// direction in `{2, 3}` and a column offset in `2..mat_size + 2`, edges 1),
/// draws the two line matrices, and dithers `orig` pixel by pixel with them.
pub fn line_dither(num_colors: u32, mat_size: usize, dog: &Grid<i32>, orig: &Grid<Rgb>) -> (out:
    Grid<Levels>)
    requires
        num_colors >= 2,
        0 < mat_size <= u32::MAX - 2,
        mat_size * mat_size <= usize::MAX,
        same_shape(*dog, *orig),
        dog.width > 0,
        dog.height > 0,
        dog.cells@.len() < usize::MAX - 2,
    ensures
        same_shape(out, *orig),
        exists|direction: Grid<u32>, offset: Grid<u32>, m1: Grid<usize>, m2: Grid<usize>, perm: Seq<usize>|
            {
                &&& region_labels(direction, *dog, 2)
                &&& region_labels(offset, *dog, mat_size as int)
                &&& is_permutation(perm, mat_size as nat)
                &&& matrices_from(perm, mat_size as int, m1, m2)
                &&& forall|i: int, j: int|
                    #![trigger out.at(i, j)]
                    in_grid(orig.width as int, orig.height as int, i, j) ==> composed(
                        out.at(i, j),
                        num_colors as int,
                        direction,
                        offset,
                        m1,
                        m2,
                        mat_size as int,
                        *orig,
                        i,
                        j,
                    )
            },
{
    let mask = edge_detect(dog);
    let direction = label_regions(&mask, dog, 2);
    let offset = label_regions(&mask, dog, mat_size as u32);
    let (m1, m2) = make_dithering_matrices(mat_size);
    let ghost perm = choose|perm: Seq<usize>|
        is_permutation(perm, mat_size as nat) && matrices_from(perm, mat_size as int, m1, m2);
    let out = composite(num_colors, &direction, &offset, &m1, &m2, mat_size, orig);
    proof {
        assert(region_labels(direction, *dog, 2));
        assert(region_labels(offset, *dog, mat_size as int));
        assert(matrices_from(perm, mat_size as int, m1, m2));
    }
    out
}

} // verus!
