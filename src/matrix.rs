use rand::seq::SliceRandom;
use vstd::arithmetic::div_mod::{lemma_fundamental_div_mod, lemma_fundamental_div_mod_converse};
use vstd::prelude::*;

use crate::grid::{before, cell, in_grid, lemma_index_bounds, lemma_raster_before, Grid};

verus! {

/// `(i - j) mod m`, mapped into `0..m` also when `i < j`.
pub fn submod(i: usize, j: usize, m: usize) -> (r: usize)
    requires
        m > 0,
    ensures
        r == (i as int - j as int) % (m as int),
        r < m,
{
    if i >= j {
        (i - j) % m
    } else {
        let d = (j - i) % m;
        proof {
            let x = j as int - i as int;
            lemma_fundamental_div_mod(x, m as int);
            let q = x / (m as int);
            if d == 0 {
                assert(-x == (-q) * (m as int) + 0) by (nonlinear_arith)
                    requires
                        x == m * q + d,
                        d == 0,
                ;
                lemma_fundamental_div_mod_converse(-x, m as int, -q, 0);
            } else {
                assert(-x == (-q - 1) * (m as int) + (m - d)) by (nonlinear_arith)
                    requires
                        x == m * q + d,
                ;
                lemma_fundamental_div_mod_converse(-x, m as int, -q - 1, m - d);
            }
        }
        if d == 0 {
            0
        } else {
            m - d
        }
    }
}


/// Threshold rank of cell `(i, j)` of the first matrix: line `perm[(i + j) mod size]`,
/// row `i`. The cell's threshold is `rank / size² - 1/2`.
pub open spec fn rank1(perm: Seq<usize>, size: int, i: int, j: int) -> int {
    perm[(i + j) % size] * size + i
}

/// Threshold rank of cell `(i, j)` of the second matrix, whose lines run along the
/// other diagonal: line `perm[(i - j) mod size]`, row `i`.
pub open spec fn rank2(perm: Seq<usize>, size: int, i: int, j: int) -> int {
    perm[(i - j) % size] * size + i
}

/// `perm` orders `0..size`: it holds each of those values once.
pub open spec fn is_permutation(perm: Seq<usize>, size: nat) -> bool {
    perm.to_multiset() == Seq::new(size, |k: int| k as usize).to_multiset()
}

/// Both matrices are `size × size` and hold the ranks that `perm` gives them.
pub open spec fn matrices_from(perm: Seq<usize>, size: int, m1: Grid<usize>, m2: Grid<usize>) -> bool {
    &&& m1.wf() && m1.width == size && m1.height == size
    &&& m2.wf() && m2.width == size && m2.height == size
    &&& forall|i: int, j: int|
        #![trigger m1.at(i, j)]
        in_grid(size, size, i, j) ==> m1.at(i, j) == rank1(perm, size, i, j)
    &&& forall|i: int, j: int|
        #![trigger m2.at(i, j)]
        in_grid(size, size, i, j) ==> m2.at(i, j) == rank2(perm, size, i, j)
}

/// Every rank of a `size × size` matrix lies in `0..size²`, so every threshold lies
/// in `[-1/2, 1/2)`.
pub open spec fn ranks_below_square(m: Grid<usize>, size: int) -> bool {
    forall|p: int| #![trigger m.cells@[p]] 0 <= p < m.cells@.len() ==> m.cells@[p] < size * size
}

/// A wrapped lookup `(i mod size, j mod size)` lands on a cell of a `size × size`
/// matrix for any integers `i` and `j`, and reads a rank below `size²`: a
/// threshold in `[-1/2, 1/2)`.
pub proof fn lemma_wrapped_lookup(m: Grid<usize>, size: int, i: int, j: int)
    requires
        m.wf(),
        m.width == size,
        m.height == size,
        size > 0,
        ranks_below_square(m, size),
    ensures
        in_grid(size, size, i % size, j % size),
        m.at(i % size, j % size) < size * size,
{
    lemma_index_bounds(size, size, i % size, j % size);
}

/// A rank of a line below `size` on a row below `size` lies below `size²`.
proof fn lemma_rank_bound(line: int, size: int, i: int)
    requires
        0 <= line < size,
        0 <= i < size,
    ensures
        0 <= line * size + i < size * size,
{
    assert(0 <= line * size + i < size * size) by (nonlinear_arith)
        requires
            0 <= line < size,
            0 <= i < size,
    ;
}

/// Builds the two line-dither matrices of a given line order.
pub fn dithering_matrices_from(size: usize, perm: &Vec<usize>) -> (res: (Grid<usize>, Grid<usize>))
    requires
        size > 0,
        size * size <= usize::MAX,
        perm@.len() == size,
        forall|k: int| #![trigger perm@[k]] 0 <= k < size ==> perm@[k] < size,
    ensures
        matrices_from(perm@, size as int, res.0, res.1),
        ranks_below_square(res.0, size as int),
        ranks_below_square(res.1, size as int),
{
    let ghost s = size as int;
    let mut a: Vec<usize> = Vec::new();
    let mut b: Vec<usize> = Vec::new();
    let mut i: usize = 0;
    while i < size
        invariant
            s == size,
            0 < size,
            size * size <= usize::MAX,
            perm@.len() == size,
            forall|k: int| #![trigger perm@[k]] 0 <= k < size ==> perm@[k] < size,
            i <= size,
            a@.len() == i * size,
            b@.len() == i * size,
            forall|p: int| #![trigger a@[p]] 0 <= p < a@.len() ==> a@[p] < s * s,
            forall|p: int| #![trigger b@[p]] 0 <= p < b@.len() ==> b@[p] < s * s,
            forall|r: int, c: int|
                #![trigger cell(a@, s, r, c)]
                in_grid(s, s, r, c) && r < i ==> cell(a@, s, r, c) == rank1(perm@, s, r, c),
            forall|r: int, c: int|
                #![trigger cell(b@, s, r, c)]
                in_grid(s, s, r, c) && r < i ==> cell(b@, s, r, c) == rank2(perm@, s, r, c),
        decreases size - i,
    {
        let mut j: usize = 0;
        while j < size
            invariant
                s == size,
                0 < size,
                size * size <= usize::MAX,
                perm@.len() == size,
                forall|k: int| #![trigger perm@[k]] 0 <= k < size ==> perm@[k] < size,
                i < size,
                j <= size,
                a@.len() == i * size + j,
                b@.len() == i * size + j,
                forall|p: int| #![trigger a@[p]] 0 <= p < a@.len() ==> a@[p] < s * s,
                forall|p: int| #![trigger b@[p]] 0 <= p < b@.len() ==> b@[p] < s * s,
                forall|r: int, c: int|
                    #![trigger cell(a@, s, r, c)]
                    in_grid(s, s, r, c) && before(r, c, i as int, j as int) ==> cell(a@, s, r, c)
                        == rank1(perm@, s, r, c),
                forall|r: int, c: int|
                    #![trigger cell(b@, s, r, c)]
                    in_grid(s, s, r, c) && before(r, c, i as int, j as int) ==> cell(b@, s, r, c)
                        == rank2(perm@, s, r, c),
            decreases size - j,
        {
            proof {
                assert(i + j <= size * size) by (nonlinear_arith)
                    requires
                        i < size,
                        j < size,
                ;
            }
            let l1 = perm[(i + j) % size];
            let l2 = perm[submod(i, j, size)];
            proof {
                lemma_rank_bound(l1 as int, s, i as int);
                lemma_rank_bound(l2 as int, s, i as int);
            }
            let ghost (a0, b0) = (a@, b@);
            a.push(l1 * size + i);
            b.push(l2 * size + i);
            proof {
                assert forall|r: int, c: int|
                    #![trigger cell(a@, s, r, c)]
                    in_grid(s, s, r, c) && before(r, c, i as int, j + 1) implies cell(a@, s, r, c)
                        == rank1(perm@, s, r, c) by {
                    lemma_index_bounds(s, s, r, c);
                    if before(r, c, i as int, j as int) {
                        lemma_raster_before(s, r, c, i as int, j as int);
                        assert(cell(a@, s, r, c) == cell(a0, s, r, c));
                    }
                }
                assert forall|r: int, c: int|
                    #![trigger cell(b@, s, r, c)]
                    in_grid(s, s, r, c) && before(r, c, i as int, j + 1) implies cell(b@, s, r, c)
                        == rank2(perm@, s, r, c) by {
                    lemma_index_bounds(s, s, r, c);
                    if before(r, c, i as int, j as int) {
                        lemma_raster_before(s, r, c, i as int, j as int);
                        assert(cell(b@, s, r, c) == cell(b0, s, r, c));
                    }
                }
            }
            j = j + 1;
        }
        proof {
            assert((i + 1) * size == i * size + size) by (nonlinear_arith);
        }
        i = i + 1;
    }
    (Grid { width: size, height: size, cells: a }, Grid { width: size, height: size, cells: b })
}

/// Relies on rand's `SliceRandom::shuffle` with the thread-local generator: the
/// elements are put in a random order, none added or lost.
#[verifier::external_body]
fn shuffle(v: &mut Vec<usize>)
    ensures
        final(v)@.to_multiset() == old(v)@.to_multiset(),
        final(v)@.len() == old(v)@.len(),
{
    v.shuffle(&mut rand::rng());
}

/// Draws a random line order and builds the two line-dither matrices from it.
pub fn make_dithering_matrices(size: usize) -> (res: (Grid<usize>, Grid<usize>))
    requires
        size > 0,
        size * size <= usize::MAX,
    ensures
        exists|perm: Seq<usize>|
            is_permutation(perm, size as nat) && matrices_from(perm, size as int, res.0, res.1),
        ranks_below_square(res.0, size as int),
        ranks_below_square(res.1, size as int),
{
    let mut order: Vec<usize> = Vec::new();
    let mut k: usize = 0;
    while k < size
        invariant
            k <= size,
            order@ == Seq::new(k as nat, |q: int| q as usize),
        decreases size - k,
    {
        order.push(k);
        k = k + 1;
        proof {
            assert(order@ =~= Seq::new(k as nat, |q: int| q as usize));
        }
    }
    let ghost ordered = order@;
    shuffle(&mut order);
    proof {
        assert forall|q: int| #![trigger order@[q]] 0 <= q < size implies order@[q] < size by {
            vstd::seq_lib::to_multiset_contains(order@, order@[q]);
            assert(order@.contains(order@[q]));
            vstd::seq_lib::to_multiset_contains(ordered, order@[q]);
        }
    }
    let res = dithering_matrices_from(size, &order);
    proof {
        assert(ordered == Seq::new(size as nat, |q: int| q as usize));
        assert(is_permutation(order@, size as nat));
        assert(matrices_from(order@, size as int, res.0, res.1));
    }
    res
}

} // verus!
