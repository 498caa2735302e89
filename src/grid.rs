use vstd::prelude::*;

verus! {

/// A rectangular grid stored row-major: cell `(r, c)` lives at `r * width + c`.
pub struct Grid<T> {
    pub width: usize,
    pub height: usize,
    pub cells: Vec<T>,
}

/// True when `(r, c)` lies inside a `w`-wide, `h`-high grid.
pub open spec fn in_grid(w: int, h: int, r: int, c: int) -> bool {
    0 <= r < h && 0 <= c < w
}

/// The value at `(r, c)` of row-major cells `s` of width `w`.
pub open spec fn cell<T>(s: Seq<T>, w: int, r: int, c: int) -> T {
    s[r * w + c]
}

impl<T> Grid<T> {
    /// The cell vector holds exactly `width * height` values.
    pub open spec fn wf(&self) -> bool {
        self.cells@.len() == self.width * self.height
    }

    pub open spec fn at(&self, r: int, c: int) -> T {
        cell(self.cells@, self.width as int, r, c)
    }
}

/// The row-major index of an in-grid cell lies inside the cell vector.
pub proof fn lemma_index_bounds(w: int, h: int, r: int, c: int)
    requires
        in_grid(w, h, r, c),
    ensures
        0 <= r * w + c < h * w,
        r * w + c < w * h,
{
    assert(0 <= r * w) by (nonlinear_arith)
        requires
            0 <= r,
            0 <= w,
    ;
    assert(r * w + c < h * w) by (nonlinear_arith)
        requires
            0 <= r < h,
            0 <= c < w,
    ;
    assert(h * w == w * h) by (nonlinear_arith);
}

/// Two distinct in-grid cells have distinct row-major indices.
pub proof fn lemma_index_injective(w: int, h: int, r1: int, c1: int, r2: int, c2: int)
    requires
        in_grid(w, h, r1, c1),
        in_grid(w, h, r2, c2),
        r1 != r2 || c1 != c2,
    ensures
        r1 * w + c1 != r2 * w + c2,
{
    if r1 < r2 {
        assert(r1 * w + c1 < r2 * w + c2) by (nonlinear_arith)
            requires
                0 <= r1 < r2,
                0 <= c1 < w,
                0 <= c2,
        ;
    } else if r2 < r1 {
        assert(r2 * w + c2 < r1 * w + c1) by (nonlinear_arith)
            requires
                0 <= r2 < r1,
                0 <= c2 < w,
                0 <= c1,
        ;
    }
}

/// Writing one cell leaves every other cell of the grid as it was.
pub proof fn lemma_cell_update<T>(s: Seq<T>, w: int, h: int, r0: int, c0: int, v: T)
    requires
        s.len() == w * h,
        in_grid(w, h, r0, c0),
    ensures
        forall|r: int, c: int|
            #![trigger cell(s.update(r0 * w + c0, v), w, r, c)]
            in_grid(w, h, r, c) ==> cell(s.update(r0 * w + c0, v), w, r, c) == if r == r0 && c
                == c0 {
                v
            } else {
                cell(s, w, r, c)
            },
{
    lemma_index_bounds(w, h, r0, c0);
    assert forall|r: int, c: int| in_grid(w, h, r, c) implies cell(
        s.update(r0 * w + c0, v),
        w,
        r,
        c,
    ) == if r == r0 && c == c0 {
        v
    } else {
        cell(s, w, r, c)
    } by {
        lemma_index_bounds(w, h, r, c);
        if r != r0 || c != c0 {
            lemma_index_injective(w, h, r, c, r0, c0);
        }
    }
}

/// `(r, c)` comes before `(i, j)` in raster order.
pub open spec fn before(r: int, c: int, i: int, j: int) -> bool {
    r < i || (r == i && c < j)
}

/// A cell that comes earlier in raster order has a smaller row-major index.
pub proof fn lemma_raster_before(w: int, r: int, c: int, i: int, j: int)
    requires
        0 <= r,
        0 <= c < w,
        0 <= j,
        before(r, c, i, j),
    ensures
        r * w + c < i * w + j,
{
    if r < i {
        assert(r * w + c < i * w + j) by (nonlinear_arith)
            requires
                0 <= r < i,
                0 <= c < w,
                0 <= j,
        ;
    }
}

} // verus!
