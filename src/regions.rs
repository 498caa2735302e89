use vstd::prelude::*;
use vstd::set_lib::*;

use crate::grid::{cell, in_grid, lemma_cell_update, lemma_index_bounds, Grid};

verus! {

/// Indices of the cells of `s` that no fill has reached yet.
pub open spec fn unvisited(s: Seq<usize>) -> Set<int> {
    Set::new(|p: int| 0 <= p < s.len() && s[p] == 0)
}

/// `(r, c)` is off the grid, or an edge cell (`1`), or carries `val`.
pub open spec fn agrees(s: Seq<usize>, w: int, h: int, r: int, c: int, val: usize) -> bool {
    !in_grid(w, h, r, c) || cell(s, w, r, c) == 1 || cell(s, w, r, c) == val
}

/// A region cell (value at least 2) whose four neighbours are edge cells or share its value.
pub open spec fn sealed(s: Seq<usize>, w: int, h: int, r: int, c: int) -> bool {
    let x = cell(s, w, r, c);
    x >= 2 ==> {
        &&& agrees(s, w, h, r - 1, c, x)
        &&& agrees(s, w, h, r + 1, c, x)
        &&& agrees(s, w, h, r, c - 1, x)
        &&& agrees(s, w, h, r, c + 1, x)
    }
}

/// `(r, c)` is off the grid or already labelled.
pub open spec fn reached(s: Seq<usize>, w: int, h: int, r: int, c: int) -> bool {
    !in_grid(w, h, r, c) || cell(s, w, r, c) != 0
}

/// Every neighbour of `(r, c)` is off the grid or already labelled.
pub open spec fn closed(s: Seq<usize>, w: int, h: int, r: int, c: int) -> bool {
    &&& reached(s, w, h, r - 1, c)
    &&& reached(s, w, h, r + 1, c)
    &&& reached(s, w, h, r, c - 1)
    &&& reached(s, w, h, r, c + 1)
}

/// `a` and `b` are 4-neighbours.
pub open spec fn adjacent(a: (int, int), b: (int, int)) -> bool {
    (a.0 == b.0 && (a.1 == b.1 + 1 || b.1 == a.1 + 1)) || (a.1 == b.1 && (a.0 == b.0 + 1 || b.0
        == a.0 + 1))
}

/// `a` is an in-grid cell that is not an edge.
pub open spec fn open_cell(mask: Seq<bool>, w: int, h: int, a: (int, int)) -> bool {
    in_grid(w, h, a.0, a.1) && !cell(mask, w, a.0, a.1)
}

/// A walk through non-edge cells, each step to a 4-neighbour.
pub open spec fn is_path(mask: Seq<bool>, w: int, h: int, path: Seq<(int, int)>) -> bool {
    &&& path.len() >= 1
    &&& forall|k: int| #![trigger path[k]] 0 <= k < path.len() ==> open_cell(mask, w, h, path[k])
    &&& forall|k: int|
        #![trigger adjacent(path[k], path[k + 1])]
        0 <= k < path.len() - 1 ==> adjacent(path[k], path[k + 1])
}

/// `a` and `b` lie in one 4-connected region of non-edge cells.
pub open spec fn connected(mask: Seq<bool>, w: int, h: int, a: (int, int), b: (int, int)) -> bool {
    exists|path: Seq<(int, int)>|
        #![trigger is_path(mask, w, h, path), path[0], path[path.len() - 1]]
        is_path(mask, w, h, path) && path[0] == a && path[path.len() - 1] == b
}

/// A path extended by a non-edge neighbour of its last cell is a path.
proof fn lemma_path_extend(mask: Seq<bool>, w: int, h: int, path: Seq<(int, int)>, q: (int, int))
    requires
        is_path(mask, w, h, path),
        open_cell(mask, w, h, q),
        adjacent(path[path.len() - 1], q),
    ensures
        is_path(mask, w, h, path.push(q)),
{
    let p2 = path.push(q);
    assert forall|k: int|
        #![trigger adjacent(p2[k], p2[k + 1])]
        0 <= k < p2.len() - 1 implies adjacent(p2[k], p2[k + 1]) by {
        if k < path.len() - 1 {
            assert(p2[k] == path[k] && p2[k + 1] == path[k + 1]);
            assert(adjacent(path[k], path[k + 1]));
        }
    }
    assert forall|k: int| 0 <= k < p2.len() implies open_cell(mask, w, h, p2[k]) by {
        if k < path.len() {
            assert(p2[k] == path[k]);
        }
    }
}

/// Connection is symmetric.
proof fn lemma_connected_symmetric(mask: Seq<bool>, w: int, h: int, a: (int, int), b: (int, int))
    requires
        connected(mask, w, h, a, b),
    ensures
        connected(mask, w, h, b, a),
{
    let path = choose|path: Seq<(int, int)>|
        #![trigger is_path(mask, w, h, path), path[0], path[path.len() - 1]]
        is_path(mask, w, h, path) && path[0] == a && path[path.len() - 1] == b;
    let n = path.len();
    let rev = Seq::new(n, |k: int| path[n - 1 - k]);
    assert forall|k: int|
        #![trigger adjacent(rev[k], rev[k + 1])]
        0 <= k < rev.len() - 1 implies adjacent(rev[k], rev[k + 1]) by {
        assert(adjacent(path[n - 2 - k], path[n - 2 - k + 1]));
    }
    assert forall|k: int| 0 <= k < rev.len() implies open_cell(mask, w, h, rev[k]) by {
        assert(open_cell(mask, w, h, path[n - 1 - k]));
    }
    assert(is_path(mask, w, h, rev) && rev[0] == b && rev[rev.len() - 1] == a);
}

/// Connection is transitive.
proof fn lemma_connected_transitive(
    mask: Seq<bool>,
    w: int,
    h: int,
    a: (int, int),
    b: (int, int),
    c: (int, int),
)
    requires
        connected(mask, w, h, a, b),
        connected(mask, w, h, b, c),
    ensures
        connected(mask, w, h, a, c),
{
    let p1 = choose|path: Seq<(int, int)>|
        #![trigger is_path(mask, w, h, path), path[0], path[path.len() - 1]]
        is_path(mask, w, h, path) && path[0] == a && path[path.len() - 1] == b;
    let p2 = choose|path: Seq<(int, int)>|
        #![trigger is_path(mask, w, h, path), path[0], path[path.len() - 1]]
        is_path(mask, w, h, path) && path[0] == b && path[path.len() - 1] == c;
    let tail = p2.subrange(1, p2.len() as int);
    let joined = p1 + tail;
    let n1 = p1.len();
    assert forall|k: int| 0 <= k < joined.len() implies open_cell(mask, w, h, joined[k]) by {
        if k < n1 {
            assert(joined[k] == p1[k]);
        } else {
            assert(joined[k] == p2[k - n1 + 1]);
        }
    }
    assert forall|k: int|
        #![trigger adjacent(joined[k], joined[k + 1])]
        0 <= k < joined.len() - 1 implies adjacent(joined[k], joined[k + 1]) by {
        if k < n1 - 1 {
            assert(joined[k] == p1[k] && joined[k + 1] == p1[k + 1]);
            assert(adjacent(p1[k], p1[k + 1]));
        } else if k == n1 - 1 {
            assert(joined[k] == p2[0] && joined[k + 1] == p2[1]);
            assert(adjacent(p2[0], p2[0int + 1]));
        } else {
            assert(joined[k] == p2[k - n1 + 1] && joined[k + 1] == p2[k - n1 + 2]);
            assert(adjacent(p2[k - n1 + 1], p2[k - n1 + 1 + 1]));
        }
    }
    if p2.len() == 1 {
        assert(joined =~= p1);
    } else {
        assert(joined[joined.len() - 1] == p2[p2.len() - 1]);
    }
    assert(is_path(mask, w, h, joined) && joined[0] == a && joined[joined.len() - 1] == c);
}

/// Every cell that the fill has given `v` is joined to `start` through non-edge
/// cells, and every cell that was unlabelled when the fill began is a non-edge cell.
pub open spec fn fill_reach(
    mask: Seq<bool>,
    s0: Seq<usize>,
    s: Seq<usize>,
    w: int,
    h: int,
    v: usize,
    start: (int, int),
) -> bool {
    &&& forall|r: int, c: int|
        #![trigger cell(s0, w, r, c)]
        in_grid(w, h, r, c) && cell(s0, w, r, c) == 0 ==> !cell(mask, w, r, c)
    &&& forall|r: int, c: int|
        #![trigger cell(s, w, r, c)]
        in_grid(w, h, r, c) && cell(s, w, r, c) == v ==> connected(mask, w, h, start, (r, c))
}

/// The state of a fill with value `v` that started on grid `s0`: every cell kept
/// its value or went from 0 to `v`, the work list holds cells of value `v`, and each
/// `v` cell is still on the work list, or closed, or is the cell `(er, ec)`.
pub open spec fn fill_state(
    s0: Seq<usize>,
    s: Seq<usize>,
    stack: Seq<(usize, usize)>,
    w: int,
    h: int,
    v: usize,
    er: int,
    ec: int,
) -> bool {
    &&& s.len() == w * h
    &&& unvisited(s).finite()
    &&& forall|p: int|
        #![trigger s[p]]
        0 <= p < s.len() ==> s[p] == s0[p] || (s0[p] == 0 && s[p] == v)
    &&& forall|r: int, c: int|
        #![trigger cell(s, w, r, c)]
        in_grid(w, h, r, c) ==> cell(s, w, r, c) == cell(s0, w, r, c) || (cell(s0, w, r, c) == 0
            && cell(s, w, r, c) == v)
    &&& forall|k: int|
        #![trigger stack[k]]
        0 <= k < stack.len() ==> in_grid(w, h, stack[k].0 as int, stack[k].1 as int) && cell(
            s,
            w,
            stack[k].0 as int,
            stack[k].1 as int,
        ) == v
    &&& forall|r: int, c: int|
        #![trigger cell(s, w, r, c)]
        in_grid(w, h, r, c) && cell(s, w, r, c) == v ==> stack.contains((r as usize, c as usize))
            || closed(s, w, h, r, c) || (r == er && c == ec)
}

/// Labels `(r, c)` with `v` and puts it on the work list, if no fill has reached it yet.
fn visit(
    labels: &mut Vec<usize>,
    stack: &mut Vec<(usize, usize)>,
    w: usize,
    h: usize,
    r: usize,
    c: usize,
    v: usize,
    Ghost(s0): Ghost<Seq<usize>>,
    Ghost(er): Ghost<int>,
    Ghost(ec): Ghost<int>,
    Ghost(mask): Ghost<Seq<bool>>,
    Ghost(start): Ghost<(int, int)>,
)
    requires
        in_grid(w as int, h as int, r as int, c as int),
        v >= 2,
        fill_state(s0, old(labels)@, old(stack)@, w as int, h as int, v, er, ec),
        fill_reach(mask, s0, old(labels)@, w as int, h as int, v, start),
        (r == start.0 && c == start.1) || (in_grid(w as int, h as int, er, ec) && cell(
            old(labels)@,
            w as int,
            er,
            ec,
        ) == v && adjacent((er, ec), (r as int, c as int))),
    ensures
        fill_state(s0, final(labels)@, final(stack)@, w as int, h as int, v, er, ec),
        fill_reach(mask, s0, final(labels)@, w as int, h as int, v, start),
        cell(final(labels)@, w as int, r as int, c as int) != 0,
        forall|r2: int, c2: int|
            #![trigger cell(final(labels)@, w as int, r2, c2)]
            in_grid(w as int, h as int, r2, c2) && cell(old(labels)@, w as int, r2, c2) != 0
                ==> cell(final(labels)@, w as int, r2, c2) == cell(old(labels)@, w as int, r2, c2),
        if cell(old(labels)@, w as int, r as int, c as int) == 0 {
            unvisited(final(labels)@).len() + 1 == unvisited(old(labels)@).len()
                && final(stack)@.len() == old(stack)@.len() + 1
        } else {
            unvisited(final(labels)@) == unvisited(old(labels)@) && final(stack)@ == old(stack)@
        },
{
    let n = labels.len();
    proof {
        lemma_index_bounds(w as int, h as int, r as int, c as int);
        assert(r * w <= r * w + c < n);
    }
    let idx = r * w + c;
    if labels[idx] == 0 {
        let ghost s1 = labels@;
        let ghost k1 = stack@;
        proof {
            lemma_cell_update(s1, w as int, h as int, r as int, c as int, v);
        }
        labels[idx] = v;
        stack.push((r, c));
        proof {
            let s2 = labels@;
            let k2 = stack@;
            assert(unvisited(s2) =~= unvisited(s1).remove(idx as int));
            assert(unvisited(s1).contains(idx as int));
            assert(unvisited(s2).finite());
            assert(s2 == s1.update(r as int * w as int + c as int, v));
            assert forall|r2: int, c2: int|
                #![trigger cell(s2, w as int, r2, c2)]
                in_grid(w as int, h as int, r2, c2) implies cell(s2, w as int, r2, c2) == cell(
                s0,
                w as int,
                r2,
                c2,
            ) || (cell(s0, w as int, r2, c2) == 0 && cell(s2, w as int, r2, c2) == v) by {
                assert(cell(s2, w as int, r2, c2) == cell(
                    s1.update(r as int * w as int + c as int, v),
                    w as int,
                    r2,
                    c2,
                ));
                assert(cell(s1, w as int, r2, c2) == cell(s0, w as int, r2, c2) || (cell(s0, w as int, r2, c2) == 0 && cell(s1, w as int, r2, c2) == v));
            }
            let q = (r as int, c as int);
            assert(cell(s0, w as int, r as int, c as int) == 0);
            assert(open_cell(mask, w as int, h as int, q));
            assert(connected(mask, w as int, h as int, start, q)) by {
                if r == start.0 && c == start.1 {
                    let single = seq![q];
                    assert(is_path(mask, w as int, h as int, single) && single[0] == start
                        && single[single.len() - 1] == q);
                } else {
                    assert(connected(mask, w as int, h as int, start, (er, ec)));
                    let path = choose|path: Seq<(int, int)>|
                        #![trigger is_path(mask, w as int, h as int, path), path[0], path[path.len() - 1]]
                        is_path(mask, w as int, h as int, path) && path[0] == start
                            && path[path.len() - 1] == (er, ec);
                    lemma_path_extend(mask, w as int, h as int, path, q);
                    let p2 = path.push(q);
                    assert(p2[0] == start && p2[p2.len() - 1] == q);
                }
            }
            assert forall|r2: int, c2: int|
                #![trigger cell(s2, w as int, r2, c2)]
                in_grid(w as int, h as int, r2, c2) && cell(s2, w as int, r2, c2) == v implies connected(
                mask,
                w as int,
                h as int,
                start,
                (r2, c2),
            ) by {
                if r2 != r || c2 != c {
                    assert(cell(s1, w as int, r2, c2) == v);
                }
            }
            assert(k2[k1.len() as int] == (r, c));
            assert forall|r2: int, c2: int|
                in_grid(w as int, h as int, r2, c2) && cell(s2, w as int, r2, c2) == v implies k2.contains(
                (r2 as usize, c2 as usize))
                || closed(s2, w as int, h as int, r2, c2) || (r2 == er && c2 == ec) by {
                if r2 == r && c2 == c {
                } else {
                    assert(cell(s1, w as int, r2, c2) == v);
                    if k1.contains((r2 as usize, c2 as usize)) {
                        let k = choose|k: int| 0 <= k < k1.len() && k1[k] == (r2 as usize, c2 as usize);
                        assert(k2[k] == k1[k]);
                    } else if closed(s1, w as int, h as int, r2, c2) {
                        assert(reached(s2, w as int, h as int, r2 - 1, c2));
                        assert(reached(s2, w as int, h as int, r2 + 1, c2));
                        assert(reached(s2, w as int, h as int, r2, c2 - 1));
                        assert(reached(s2, w as int, h as int, r2, c2 + 1));
                    }
                }
            }
            assert forall|k: int| 0 <= k < k2.len() implies in_grid(
                w as int,
                h as int,
                k2[k].0 as int,
                k2[k].1 as int,
            ) && cell(s2, w as int, k2[k].0 as int, k2[k].1 as int) == v by {
                if k < k1.len() {
                    assert(k2[k] == k1[k]);
                }
            }
        }
    }
}


/// When a fill with a fresh value `v` on a sealed grid `s0` has closed every `v`
/// cell, the grid is sealed again.
proof fn lemma_fill_sealed(s0: Seq<usize>, s: Seq<usize>, w: int, h: int, v: usize)
    requires
        v >= 2,
        fill_state(s0, s, Seq::empty(), w, h, v, -1, -1),
        forall|r: int, c: int|
            #![trigger cell(s0, w, r, c)]
            in_grid(w, h, r, c) ==> cell(s0, w, r, c) < v && sealed(s0, w, h, r, c),
    ensures
        forall|r: int, c: int|
            #![trigger cell(s, w, r, c)]
            in_grid(w, h, r, c) ==> sealed(s, w, h, r, c),
{
    assert forall|r: int, c: int| in_grid(w, h, r, c) implies sealed(s, w, h, r, c) by {
        let x = cell(s, w, r, c);
        if x >= 2 {
            if x == v {
                assert(closed(s, w, h, r, c));
                assert(cell(s0, w, r, c) == 0);
                if in_grid(w, h, r - 1, c) {
                    assert(cell(s, w, r - 1, c) != 0);
                    assert(sealed(s0, w, h, r - 1, c));
                }
                if in_grid(w, h, r + 1, c) {
                    assert(cell(s, w, r + 1, c) != 0);
                    assert(sealed(s0, w, h, r + 1, c));
                }
                if in_grid(w, h, r, c - 1) {
                    assert(cell(s, w, r, c - 1) != 0);
                    assert(sealed(s0, w, h, r, c - 1));
                }
                if in_grid(w, h, r, c + 1) {
                    assert(cell(s, w, r, c + 1) != 0);
                    assert(sealed(s0, w, h, r, c + 1));
                }
            } else {
                assert(cell(s0, w, r, c) == x);
                assert(sealed(s0, w, h, r, c));
                if in_grid(w, h, r - 1, c) {
                    assert(cell(s, w, r - 1, c) == cell(s0, w, r - 1, c));
                }
                if in_grid(w, h, r + 1, c) {
                    assert(cell(s, w, r + 1, c) == cell(s0, w, r + 1, c));
                }
                if in_grid(w, h, r, c - 1) {
                    assert(cell(s, w, r, c - 1) == cell(s0, w, r, c - 1));
                }
                if in_grid(w, h, r, c + 1) {
                    assert(cell(s, w, r, c + 1) == cell(s0, w, r, c + 1));
                }
            }
        }
    }
}

/// Labels with `v` the whole 4-connected component of unlabelled cells that holds
/// `(r0, c0)`, with an explicit work list so that no region size can exhaust the
/// call stack.
fn floodfill(
    labels: &mut Vec<usize>,
    w: usize,
    h: usize,
    r0: usize,
    c0: usize,
    v: usize,
    Ghost(mask): Ghost<Seq<bool>>,
)
    requires
        forall|r: int, c: int|
            #![trigger cell(old(labels)@, w as int, r, c)]
            in_grid(w as int, h as int, r, c) && cell(old(labels)@, w as int, r, c) == 0 ==> !cell(
                mask,
                w as int,
                r,
                c,
            ),
        old(labels)@.len() == w * h,
        unvisited(old(labels)@).finite(),
        in_grid(w as int, h as int, r0 as int, c0 as int),
        cell(old(labels)@, w as int, r0 as int, c0 as int) == 0,
        v >= 2,
        forall|r: int, c: int|
            #![trigger cell(old(labels)@, w as int, r, c)]
            in_grid(w as int, h as int, r, c) ==> cell(old(labels)@, w as int, r, c) < v && sealed(
                old(labels)@,
                w as int,
                h as int,
                r,
                c,
            ),
    ensures
        final(labels)@.len() == w * h,
        unvisited(final(labels)@).finite(),
        forall|p: int|
            #![trigger final(labels)@[p]]
            0 <= p < w * h ==> final(labels)@[p] == old(labels)@[p] || (old(labels)@[p] == 0
                && final(labels)@[p] == v),
        cell(final(labels)@, w as int, r0 as int, c0 as int) == v,
        forall|r: int, c: int|
            #![trigger cell(final(labels)@, w as int, r, c)]
            in_grid(w as int, h as int, r, c) && cell(final(labels)@, w as int, r, c) == v
                ==> connected(mask, w as int, h as int, (r0 as int, c0 as int), (r, c)),
        forall|r: int, c: int|
            #![trigger cell(final(labels)@, w as int, r, c)]
            in_grid(w as int, h as int, r, c) ==> (cell(final(labels)@, w as int, r, c) == cell(
                old(labels)@,
                w as int,
                r,
                c,
            ) || (cell(old(labels)@, w as int, r, c) == 0 && cell(final(labels)@, w as int, r, c)
                == v)) && sealed(final(labels)@, w as int, h as int, r, c),
{
    let ghost s0 = labels@;
    let ghost start = (r0 as int, c0 as int);
    proof {
        assert(s0.len() == labels@.len());
    }
    let mut stack: Vec<(usize, usize)> = Vec::new();
    proof {
        assert forall|r: int, c: int|
            #![trigger cell(s0, w as int, r, c)]
            in_grid(w as int, h as int, r, c) && cell(s0, w as int, r, c) == v implies stack@.contains(
            (r as usize, c as usize))
            || closed(s0, w as int, h as int, r, c) || (r == -1 && c == -1) by {}
    }
    visit(labels, &mut stack, w, h, r0, c0, v, Ghost(s0), Ghost(-1), Ghost(-1), Ghost(mask), Ghost(start));
    while stack.len() > 0
        invariant
            v >= 2,
            fill_state(s0, labels@, stack@, w as int, h as int, v, -1, -1),
            cell(labels@, w as int, r0 as int, c0 as int) == v,
            in_grid(w as int, h as int, r0 as int, c0 as int),
            fill_reach(mask, s0, labels@, w as int, h as int, v, start),
            start == (r0 as int, c0 as int),
        decreases 2 * unvisited(labels@).len() + stack@.len(),
    {
        let ghost k0 = stack@;
        let (r, c) = stack.pop().unwrap();
        proof {
            let k1 = stack@;
            assert(k0[k0.len() - 1] == (r, c));
            assert forall|r2: int, c2: int|
                #![trigger cell(labels@, w as int, r2, c2)]
                in_grid(w as int, h as int, r2, c2) && cell(labels@, w as int, r2, c2) == v implies k1.contains(
                (r2 as usize, c2 as usize))
                || closed(labels@, w as int, h as int, r2, c2) || (r2 == r && c2 == c) by {
                if k0.contains((r2 as usize, c2 as usize)) {
                    let k = choose|k: int| 0 <= k < k0.len() && k0[k] == (r2 as usize, c2 as usize);
                    if k < k0.len() - 1 {
                        assert(k1[k] == k0[k]);
                    }
                }
            }
            assert forall|k: int| 0 <= k < k1.len() implies in_grid(
                w as int,
                h as int,
                k1[k].0 as int,
                k1[k].1 as int,
            ) && cell(labels@, w as int, k1[k].0 as int, k1[k].1 as int) == v by {
                assert(k1[k] == k0[k]);
            }
            assert(in_grid(w as int, h as int, r as int, c as int));
        }
        let ghost s1 = labels@;
        if r > 0 {
            visit(labels, &mut stack, w, h, r - 1, c, v, Ghost(s0), Ghost(r as int), Ghost(c as int), Ghost(mask), Ghost(start));
        }
        let ghost s2 = labels@;
        if r + 1 < h {
            visit(labels, &mut stack, w, h, r + 1, c, v, Ghost(s0), Ghost(r as int), Ghost(c as int), Ghost(mask), Ghost(start));
        }
        let ghost s3 = labels@;
        if c > 0 {
            visit(labels, &mut stack, w, h, r, c - 1, v, Ghost(s0), Ghost(r as int), Ghost(c as int), Ghost(mask), Ghost(start));
        }
        let ghost s4 = labels@;
        if c + 1 < w {
            visit(labels, &mut stack, w, h, r, c + 1, v, Ghost(s0), Ghost(r as int), Ghost(c as int), Ghost(mask), Ghost(start));
        }
        proof {
            let s5 = labels@;
            let (ri, ci, wi, hi) = (r as int, c as int, w as int, h as int);
            assert(reached(s2, wi, hi, ri - 1, ci));
            assert(reached(s3, wi, hi, ri - 1, ci));
            assert(reached(s4, wi, hi, ri - 1, ci));
            assert(reached(s5, wi, hi, ri - 1, ci));
            assert(reached(s3, wi, hi, ri + 1, ci));
            assert(reached(s4, wi, hi, ri + 1, ci));
            assert(reached(s5, wi, hi, ri + 1, ci));
            assert(reached(s4, wi, hi, ri, ci - 1));
            assert(reached(s5, wi, hi, ri, ci - 1));
            assert(reached(s5, wi, hi, ri, ci + 1));
            assert(closed(s5, wi, hi, ri, ci));
            let (r0i, c0i) = (r0 as int, c0 as int);
            assert(cell(s2, wi, r0i, c0i) == v);
            assert(cell(s3, wi, r0i, c0i) == v);
            assert(cell(s4, wi, r0i, c0i) == v);
            assert(cell(s5, wi, r0i, c0i) == v);
        }
    }
    proof {
        assert(stack@ =~= Seq::empty());
        lemma_fill_sealed(s0, labels@, w as int, h as int, v);
    }
}


/// Some cell of `ids` carries `k`.
pub open spec fn id_used(ids: Grid<usize>, k: int) -> bool {
    exists|r: int, c: int|
        #![trigger ids.at(r, c)]
        in_grid(ids.width as int, ids.height as int, r, c) && ids.at(r, c) == k
}

/// Along a path of non-edge cells of a sealed labelling, the id never changes.
proof fn lemma_path_same_id(ids: Seq<usize>, mask: Seq<bool>, w: int, h: int, path: Seq<(int, int)>)
    requires
        is_path(mask, w, h, path),
        forall|r: int, c: int|
            #![trigger cell(ids, w, r, c)]
            in_grid(w, h, r, c) ==> cell(ids, w, r, c) != 0 && (cell(ids, w, r, c) == 1 <==> cell(
                mask,
                w,
                r,
                c,
            )) && sealed(ids, w, h, r, c),
    ensures
        cell(ids, w, path[path.len() - 1].0, path[path.len() - 1].1) == cell(
            ids,
            w,
            path[0].0,
            path[0].1,
        ),
    decreases path.len(),
{
    let n = path.len();
    if n > 1 {
        let prefix = path.drop_last();
        assert forall|k: int|
        #![trigger adjacent(prefix[k], prefix[k + 1])]
        0 <= k < prefix.len() - 1 implies adjacent(prefix[k], prefix[k + 1]) by {
            assert(adjacent(path[k], path[k + 1]));
        }
        assert forall|k: int| 0 <= k < prefix.len() implies open_cell(mask, w, h, prefix[k]) by {
            assert(open_cell(mask, w, h, path[k]));
        }
        lemma_path_same_id(ids, mask, w, h, prefix);
        let a = path[n - 2];
        let b = path[n - 1];
        assert(adjacent(path[n - 2], path[n - 2 + 1]));
        assert(open_cell(mask, w, h, a));
        assert(open_cell(mask, w, h, b));
        assert(sealed(ids, w, h, a.0, a.1));
        assert(cell(ids, w, b.0, b.1) != 1);
    }
}

/// Gives each 4-connected region of non-edge cells its own id: edge cells get 1,
/// the regions get `2, 3, ...` in the raster order of their first cell.
/// Returns the ids and the number of regions.
pub fn label_components(mask: &Grid<bool>) -> (res: (Grid<usize>, usize))
    requires
        mask.wf(),
        mask.cells@.len() < usize::MAX - 2,
    ensures
        res.0.wf(),
        res.0.width == mask.width,
        res.0.height == mask.height,
        forall|p: int|
            #![trigger res.0.cells@[p]]
            0 <= p < mask.cells@.len() ==> (res.0.cells@[p] == 1 <==> mask.cells@[p]) && 1
                <= res.0.cells@[p] < res.1 + 2,
        forall|r: int, c: int|
            #![trigger res.0.at(r, c)]
            in_grid(mask.width as int, mask.height as int, r, c) ==> sealed(
                res.0.cells@,
                mask.width as int,
                mask.height as int,
                r,
                c,
            ),
        forall|a: (int, int), b: (int, int)|
            #![trigger connected(mask.cells@, mask.width as int, mask.height as int, a, b)]
            open_cell(mask.cells@, mask.width as int, mask.height as int, a) && open_cell(
                mask.cells@,
                mask.width as int,
                mask.height as int,
                b,
            ) ==> (res.0.at(a.0, a.1) == res.0.at(b.0, b.1) <==> connected(
                mask.cells@,
                mask.width as int,
                mask.height as int,
                a,
                b,
            )),
        forall|k: int| #![trigger id_used(res.0, k)] 2 <= k < res.1 + 2 ==> id_used(res.0, k),
{
    let w = mask.width;
    let h = mask.height;
    let n = mask.cells.len();
    let ghost (wi, hi) = (w as int, h as int);
    let mut ids: Vec<usize> = Vec::new();
    let mut p: usize = 0;
    while p < n
        invariant
            n == mask.cells@.len(),
            ids@.len() == p,
            p <= n,
            forall|q: int|
                #![trigger ids@[q]]
                0 <= q < p ==> ids@[q] == (if mask.cells@[q] {
                    1usize
                } else {
                    0usize
                }),
        decreases n - p,
    {
        if mask.cells[p] {
            ids.push(1);
        } else {
            ids.push(0);
        }
        p += 1;
    }
    proof {
        lemma_int_range(0, n as int);
        assert(unvisited(ids@).subset_of(set_int_range(0, n as int)));
        lemma_set_subset_finite(set_int_range(0, n as int), unvisited(ids@));
        assert forall|r: int, c: int|
            #![trigger cell(ids@, wi, r, c)]
            in_grid(wi, hi, r, c) implies cell(ids@, wi, r, c) < 2 && sealed(ids@, wi, hi, r, c) && (
            cell(ids@, wi, r, c) == 1 <==> cell(mask.cells@, wi, r, c)) by {
            lemma_index_bounds(wi, hi, r, c);
        }
    }
    let ghost m = mask.cells@;
    let ghost mut starts: Seq<(int, int)> = Seq::empty();
    let mut next: usize = 2;
    let mut seen: usize = 0;
    let mut i: usize = 0;
    while i < h
        invariant
            n == mask.cells@.len(),
            n == w * h,
            wi == w,
            hi == h,
            ids@.len() == n,
            n < usize::MAX - 2,
            i <= h,
            seen == i * w,
            2 <= next <= seen + 2,
            unvisited(ids@).finite(),
            forall|q: int|
                #![trigger ids@[q]]
                0 <= q < n ==> (ids@[q] == 1 <==> mask.cells@[q]) && ids@[q] < next,
            forall|q: int| #![trigger ids@[q]] 0 <= q < seen ==> ids@[q] != 0,
            forall|r: int, c: int|
                #![trigger cell(ids@, wi, r, c)]
                in_grid(wi, hi, r, c) ==> cell(ids@, wi, r, c) < next && sealed(ids@, wi, hi, r, c),
            m == mask.cells@,
            starts.len() == next - 2,
            forall|k: int|
                #![trigger starts[k]]
                0 <= k < starts.len() ==> in_grid(wi, hi, starts[k].0, starts[k].1) && cell(
                    ids@,
                    wi,
                    starts[k].0,
                    starts[k].1,
                ) == k + 2,
            forall|r: int, c: int|
                #![trigger cell(ids@, wi, r, c)]
                in_grid(wi, hi, r, c) ==> (cell(ids@, wi, r, c) == 1 <==> cell(m, wi, r, c)) && (cell(
                    ids@,
                    wi,
                    r,
                    c,
                ) >= 2 ==> connected(m, wi, hi, starts[cell(ids@, wi, r, c) - 2], (r, c))),
        decreases h - i,
    {
        let mut j: usize = 0;
        while j < w
            invariant
                n == mask.cells@.len(),
                n == w * h,
                wi == w,
                hi == h,
                ids@.len() == n,
                n < usize::MAX - 2,
                i < h,
                j <= w,
                seen == i * w + j,
                2 <= next <= seen + 2,
                unvisited(ids@).finite(),
                forall|q: int|
                    #![trigger ids@[q]]
                    0 <= q < n ==> (ids@[q] == 1 <==> mask.cells@[q]) && ids@[q] < next,
                forall|q: int| #![trigger ids@[q]] 0 <= q < seen ==> ids@[q] != 0,
                forall|r: int, c: int|
                    #![trigger cell(ids@, wi, r, c)]
                    in_grid(wi, hi, r, c) ==> cell(ids@, wi, r, c) < next && sealed(
                        ids@,
                        wi,
                        hi,
                        r,
                        c,
                    ),
                m == mask.cells@,
                starts.len() == next - 2,
                forall|k: int|
                    #![trigger starts[k]]
                    0 <= k < starts.len() ==> in_grid(wi, hi, starts[k].0, starts[k].1) && cell(
                        ids@,
                        wi,
                        starts[k].0,
                        starts[k].1,
                    ) == k + 2,
                forall|r: int, c: int|
                    #![trigger cell(ids@, wi, r, c)]
                    in_grid(wi, hi, r, c) ==> (cell(ids@, wi, r, c) == 1 <==> cell(m, wi, r, c))
                        && (cell(ids@, wi, r, c) >= 2 ==> connected(
                        m,
                        wi,
                        hi,
                        starts[cell(ids@, wi, r, c) - 2],
                        (r, c),
                    )),
            decreases w - j,
        {
            proof {
                lemma_index_bounds(wi, hi, i as int, j as int);
            }
            if ids[seen] == 0 {
                let ghost before = ids@;
                floodfill(&mut ids, w, h, i, j, next, Ghost(m));
                proof {
                    let old_starts = starts;
                    starts = starts.push((i as int, j as int));
                    assert forall|k: int|
                        #![trigger starts[k]]
                        0 <= k < starts.len() implies in_grid(wi, hi, starts[k].0, starts[k].1)
                            && cell(ids@, wi, starts[k].0, starts[k].1) == k + 2 by {
                        if k < old_starts.len() {
                            assert(starts[k] == old_starts[k]);
                            assert(cell(before, wi, starts[k].0, starts[k].1) == k + 2);
                        }
                    }
                    assert forall|r: int, c: int|
                        #![trigger cell(ids@, wi, r, c)]
                        in_grid(wi, hi, r, c) implies (cell(ids@, wi, r, c) == 1 <==> cell(m, wi, r, c))
                            && (cell(ids@, wi, r, c) >= 2 ==> connected(
                            m,
                            wi,
                            hi,
                            starts[cell(ids@, wi, r, c) - 2],
                            (r, c),
                        )) by {
                        if cell(ids@, wi, r, c) != next {
                            assert(cell(ids@, wi, r, c) == cell(before, wi, r, c));
                            if cell(before, wi, r, c) >= 2 {
                                assert(starts[cell(before, wi, r, c) - 2] == old_starts[cell(
                                    before,
                                    wi,
                                    r,
                                    c,
                                ) - 2]);
                            }
                        } else {
                            assert(cell(before, wi, r, c) == 0);
                        }
                    }
                    assert forall|q: int| #![trigger ids@[q]] 0 <= q < n implies (ids@[q] == 1
                        <==> mask.cells@[q]) && ids@[q] < next + 1 by {
                        assert(before[q] == 1 <==> mask.cells@[q]);
                    }
                    assert forall|q: int| #![trigger ids@[q]] 0 <= q < seen + 1 implies ids@[q]
                        != 0 by {
                        if q < seen {
                            assert(before[q] != 0);
                        }
                    }
                    assert forall|r: int, c: int|
                        #![trigger cell(ids@, wi, r, c)]
                        in_grid(wi, hi, r, c) implies cell(ids@, wi, r, c) < next + 1 by {
                        assert(cell(before, wi, r, c) < next);
                    }
                }
                next = next + 1;
            }
            seen = seen + 1;
            j = j + 1;
        }
        proof {
            assert((i + 1) * w == i * w + w) by (nonlinear_arith);
            assert(seen <= n) by (nonlinear_arith)
                requires
                    seen == (i + 1) * w,
                    i + 1 <= h,
                    n == w * h,
            ;
        }
        i = i + 1;
    }
    proof {
        assert(seen == n) by (nonlinear_arith)
            requires
                seen == i * w,
                i == h,
                n == w * h,
        ;
        assert forall|r: int, c: int|
            #![trigger cell(ids@, wi, r, c)]
            in_grid(wi, hi, r, c) implies sealed(ids@, wi, hi, r, c) by {}
    }
    let res = (Grid { width: w, height: h, cells: ids }, next - 2);
    proof {
        assert forall|r: int, c: int|
            #![trigger cell(ids@, wi, r, c)]
            in_grid(wi, hi, r, c) implies cell(ids@, wi, r, c) != 0 by {
            lemma_index_bounds(wi, hi, r, c);
        }
        assert forall|a: (int, int), b: (int, int)|
            #![trigger connected(m, wi, hi, a, b)]
            open_cell(m, wi, hi, a) && open_cell(m, wi, hi, b) implies (res.0.at(a.0, a.1) == res.0.at(
                b.0,
                b.1,
            ) <==> connected(m, wi, hi, a, b)) by {
            let x = cell(ids@, wi, a.0, a.1);
            let y = cell(ids@, wi, b.0, b.1);
            if x == y {
                lemma_connected_symmetric(m, wi, hi, starts[x - 2], a);
                lemma_connected_transitive(m, wi, hi, a, starts[x - 2], b);
            }
            if connected(m, wi, hi, a, b) {
                let path = choose|path: Seq<(int, int)>|
                    #![trigger is_path(m, wi, hi, path), path[0], path[path.len() - 1]]
                    is_path(m, wi, hi, path) && path[0] == a && path[path.len() - 1] == b;
                lemma_path_same_id(ids@, m, wi, hi, path);
            }
        }
        assert forall|k: int| #![trigger id_used(res.0, k)] 2 <= k < res.1 + 2 implies id_used(res.0, k) by {
            let st = starts[k - 2];
            assert(res.0.at(st.0, st.1) == k);
        }
    }
    res
}


/// The label that region id `id` receives from the drawn values: edge cells keep
/// 1, and region `id` takes its draw shifted past the two reserved values.
pub open spec fn stamped(id: usize, draws: Seq<u32>) -> u32 {
    if id == 1 {
        1
    } else {
        (draws[id - 2] + 2) as u32
    }
}

/// A labelled cell of value at least 2 whose four neighbours are edge cells (1)
/// or carry the same label.
pub open spec fn consistent(s: Seq<u32>, w: int, h: int, r: int, c: int) -> bool {
    let x = cell(s, w, r, c);
    x >= 2 ==> {
        &&& matches_label(s, w, h, r - 1, c, x)
        &&& matches_label(s, w, h, r + 1, c, x)
        &&& matches_label(s, w, h, r, c - 1, x)
        &&& matches_label(s, w, h, r, c + 1, x)
    }
}

/// `(r, c)` is off the grid, or an edge cell (`1`), or labelled `x`.
pub open spec fn matches_label(s: Seq<u32>, w: int, h: int, r: int, c: int, x: u32) -> bool {
    !in_grid(w, h, r, c) || cell(s, w, r, c) == 1 || cell(s, w, r, c) == x
}

/// Turns region ids into labels: region `k + 2` takes `draws[k] + 2`, edge cells keep 1.
pub fn stamp_labels(ids: &Grid<usize>, draws: &Vec<u32>) -> (labels: Grid<u32>)
    requires
        ids.wf(),
        forall|p: int|
            #![trigger ids.cells@[p]]
            0 <= p < ids.cells@.len() ==> 1 <= ids.cells@[p] < draws@.len() + 2,
        forall|k: int| #![trigger draws@[k]] 0 <= k < draws@.len() ==> draws@[k] <= u32::MAX - 2,
    ensures
        labels.wf(),
        labels.width == ids.width,
        labels.height == ids.height,
        forall|p: int|
            #![trigger labels.cells@[p]]
            0 <= p < labels.cells@.len() ==> labels.cells@[p] == stamped(ids.cells@[p], draws@),
{
    let n = ids.cells.len();
    let mut cells: Vec<u32> = Vec::new();
    let mut p: usize = 0;
    while p < n
        invariant
            n == ids.cells@.len(),
            p <= n,
            cells@.len() == p,
            forall|q: int|
                #![trigger ids.cells@[q]]
                0 <= q < n ==> 1 <= ids.cells@[q] < draws@.len() + 2,
            forall|k: int|
                #![trigger draws@[k]]
                0 <= k < draws@.len() ==> draws@[k] <= u32::MAX - 2,
            forall|q: int|
                #![trigger cells@[q]]
                0 <= q < p ==> cells@[q] == stamped(ids.cells@[q], draws@),
        decreases n - p,
    {
        let id = ids.cells[p];
        if id == 1 {
            cells.push(1);
        } else {
            cells.push(draws[id - 2] + 2);
        }
        p += 1;
    }
    Grid { width: ids.width, height: ids.height, cells }
}

/// Relies on rand::random_range: a value of `0..bound` from the thread-local
/// generator; an empty range panics, hence `bound > 0`.
#[verifier::external_body]
fn draw_below(bound: u32) -> (r: u32)
    requires
        bound > 0,
    ensures
        r < bound,
{
    rand::random_range(0..bound)
}

/// Labels an edge mask: edge cells get 1, and each 4-connected region of other
/// cells gets one value drawn from `0..bound`, plus 2, shared by all its cells.
/// No cell is left at 0.
pub fn make_direction_or_offset_matrix(mask: &Grid<bool>, bound: u32) -> (labels: Grid<u32>)
    requires
        mask.wf(),
        mask.cells@.len() < usize::MAX - 2,
        0 < bound <= u32::MAX - 2,
    ensures
        labels.wf(),
        labels.width == mask.width,
        labels.height == mask.height,
        forall|p: int|
            #![trigger labels.cells@[p]]
            0 <= p < labels.cells@.len() ==> (labels.cells@[p] == 1 <==> mask.cells@[p]) && (
            !mask.cells@[p] ==> 2 <= labels.cells@[p] < bound + 2),
        forall|r: int, c: int|
            #![trigger consistent(labels.cells@, mask.width as int, mask.height as int, r, c)]
            in_grid(mask.width as int, mask.height as int, r, c) ==> consistent(
                labels.cells@,
                mask.width as int,
                mask.height as int,
                r,
                c,
            ),
        forall|a: (int, int), b: (int, int)|
            #![trigger connected(mask.cells@, mask.width as int, mask.height as int, a, b)]
            open_cell(mask.cells@, mask.width as int, mask.height as int, a) && open_cell(
                mask.cells@,
                mask.width as int,
                mask.height as int,
                b,
            ) && connected(mask.cells@, mask.width as int, mask.height as int, a, b) ==> labels.at(
                a.0,
                a.1,
            ) == labels.at(b.0, b.1),
{
    let (ids, count) = label_components(mask);
    let mut draws: Vec<u32> = Vec::new();
    let mut k: usize = 0;
    while k < count
        invariant
            0 < bound <= u32::MAX - 2,
            k <= count,
            draws@.len() == k,
            forall|q: int| #![trigger draws@[q]] 0 <= q < k ==> draws@[q] < bound,
        decreases count - k,
    {
        let d = draw_below(bound);
        draws.push(d);
        k += 1;
    }
    let labels = stamp_labels(&ids, &draws);
    proof {
        let (w, h) = (mask.width as int, mask.height as int);
        let (si, sl) = (ids.cells@, labels.cells@);
        assert forall|r: int, c: int|
            #![trigger consistent(labels.cells@, w, h, r, c)]
            in_grid(w, h, r, c) implies consistent(labels.cells@, w, h, r, c) by {
            let _ = ids.at(r, c);
            assert(sealed(si, w, h, r, c));
            lemma_index_bounds(w, h, r, c);
            if in_grid(w, h, r - 1, c) {
                lemma_index_bounds(w, h, r - 1, c);
            }
            if in_grid(w, h, r + 1, c) {
                lemma_index_bounds(w, h, r + 1, c);
            }
            if in_grid(w, h, r, c - 1) {
                lemma_index_bounds(w, h, r, c - 1);
            }
            if in_grid(w, h, r, c + 1) {
                lemma_index_bounds(w, h, r, c + 1);
            }
        }
        assert forall|a: (int, int), b: (int, int)|
            #![trigger connected(mask.cells@, w, h, a, b)]
            open_cell(mask.cells@, w, h, a) && open_cell(mask.cells@, w, h, b) && connected(
                mask.cells@,
                w,
                h,
                a,
                b,
            ) implies labels.at(a.0, a.1) == labels.at(b.0, b.1) by {
            lemma_index_bounds(w, h, a.0, a.1);
            lemma_index_bounds(w, h, b.0, b.1);
            assert(ids.at(a.0, a.1) == ids.at(b.0, b.1));
        }
    }
    labels
}

} // verus!
