//! The mathematical model of the maze: grids, sliding moves, paths of
//! resting positions, and the lemmas the solver's proof rests on.

use vstd::prelude::*;

verus! {

broadcast use vstd::set::group_set_axioms;

/// A maze is a non-empty rectangular grid of cells; a cell holding 0 is
/// open, any other value is a wall.
pub open spec fn grid_wf(g: Seq<Seq<usize>>) -> bool {
    &&& g.len() > 0
    &&& g[0].len() > 0
    &&& forall|i: int| 0 <= i < g.len() ==> (#[trigger] g[i]).len() == g[0].len()
}

/// `(r, c)` indexes a cell of the grid.
pub open spec fn in_bounds(g: Seq<Seq<usize>>, r: int, c: int) -> bool {
    0 <= r < g.len() && 0 <= c < g[0].len()
}

/// The cell `(r, c)` lies in the grid and is open.
pub open spec fn cell_open(g: Seq<Seq<usize>>, r: int, c: int) -> bool {
    in_bounds(g, r, c) && g[r][c] == 0
}

/// The same, over a coordinate pair.
pub open spec fn open_at(g: Seq<Seq<usize>>, p: (int, int)) -> bool {
    cell_open(g, p.0, p.1)
}

/// A coordinate pair of the executable code, as mathematical integers.
pub open spec fn cell_at(p: (usize, usize)) -> (int, int) {
    (p.0 as int, p.1 as int)
}

/// The four directions of travel: 0 is +row, 1 is -row, 2 is +column and
/// 3 is -column.
pub open spec fn is_dir(d: int) -> bool {
    0 <= d < 4
}

/// The cell `t` steps away from `(r, c)` in direction `d`.
pub open spec fn ray(r: int, c: int, d: int, t: int) -> (int, int) {
    if d == 0 {
        (r + t, c)
    } else if d == 1 {
        (r - t, c)
    } else if d == 2 {
        (r, c + t)
    } else {
        (r, c - t)
    }
}

/// The direction opposite to `d`.
pub open spec fn opposite(d: int) -> int {
    if d == 0 {
        1
    } else if d == 1 {
        0
    } else if d == 2 {
        3
    } else {
        2
    }
}

/// A ball at `(r, c)` moving in direction `d` can advance one more cell.
pub open spec fn can_step(g: Seq<Seq<usize>>, r: int, c: int, d: int) -> bool {
    open_at(g, ray(r, c, d, 1))
}

/// How many cells lie between `(r, c)` and the boundary in direction `d`:
/// an upper bound on the length of a slide, used to show that slides end.
pub open spec fn slide_fuel(g: Seq<Seq<usize>>, r: int, c: int, d: int) -> int {
    if d == 0 {
        g.len() - r
    } else if d == 1 {
        r + 1
    } else if d == 2 {
        g[0].len() - c
    } else {
        c + 1
    }
}

/// The resting position of a ball released at `(r, c)` rolling in direction
/// `d`: the ball advances while the next cell lies inside the grid and is
/// open, and stops where it first cannot advance.
pub open spec fn slide_dest(g: Seq<Seq<usize>>, r: int, c: int, d: int) -> (int, int)
    decreases slide_fuel(g, r, c, d)
        when is_dir(d)
{
    if can_step(g, r, c, d) {
        slide_dest(g, ray(r, c, d, 1).0, ray(r, c, d, 1).1, d)
    } else {
        (r, c)
    }
}

/// One legal move: the ball rests at the open cell `a`, and rolling from
/// `a` in some direction it comes to rest at `b`.
pub open spec fn slide_edge(g: Seq<Seq<usize>>, a: (int, int), b: (int, int)) -> bool {
    &&& open_at(g, a)
    &&& exists|d: int| is_dir(d) && #[trigger] slide_dest(g, a.0, a.1, d) == b
}

/// A sequence of resting positions that starts at an open cell and follows
/// legal moves.
pub open spec fn is_slide_path(g: Seq<Seq<usize>>, p: Seq<(int, int)>) -> bool {
    &&& p.len() > 0
    &&& open_at(g, p[0])
    &&& forall|i: int| 0 <= i < p.len() - 1 ==> slide_edge(g, #[trigger] p[i], p[i + 1])
}

/// The ball released at `a` can come to rest at `b` after a sequence of
/// slides.
pub open spec fn reaches(g: Seq<Seq<usize>>, a: (int, int), b: (int, int)) -> bool {
    exists|p: Seq<(int, int)>| is_slide_path(g, p) && p[0] == a && p.last() == b
}

/// Reflexivity: a ball released at an open cell `p` rests at `p` after the
/// empty sequence of slides.
pub proof fn lemma_reaches_self(g: Seq<Seq<usize>>, p: (int, int))
    requires
        open_at(g, p),
    ensures
        reaches(g, p, p),
{
    let w = seq![p];
    assert(is_slide_path(g, w));
    assert(w[0] == p && w.last() == p);
}

/// A reachable resting position extends by one more slide.
pub proof fn lemma_reaches_step(g: Seq<Seq<usize>>, a: (int, int), b: (int, int), x: (int, int))
    requires
        reaches(g, a, b),
        slide_edge(g, b, x),
    ensures
        reaches(g, a, x),
{
    let p = choose|p: Seq<(int, int)>| is_slide_path(g, p) && p[0] == a && p.last() == b;
    let q = p.push(x);
    assert forall|i: int| 0 <= i < q.len() - 1 implies slide_edge(g, #[trigger] q[i], q[i + 1]) by {
        if i < p.len() - 1 {
            assert(q[i] == p[i] && q[i + 1] == p[i + 1]);
        } else {
            assert(q[i] == b && q[i + 1] == x);
        }
    }
    assert(is_slide_path(g, q));
    assert(q[0] == a && q.last() == x);
}

/// All cells within `m` steps of `(r, c)` in direction `d` are open.
pub open spec fn open_to(g: Seq<Seq<usize>>, r: int, c: int, d: int, m: int) -> bool {
    forall|t: int| 0 <= t <= m ==> open_at(g, #[trigger] ray(r, c, d, t))
}

/// No partial stop: a slide from an open cell rests on an open cell, every
/// cell the ball rolls over on the way is open, and the resting cell is a
/// true stop: the ball cannot advance from it in the same direction.
pub proof fn lemma_no_partial_stop(g: Seq<Seq<usize>>, r: int, c: int, d: int)
    requires
        is_dir(d),
        cell_open(g, r, c),
    ensures
        open_at(g, slide_dest(g, r, c, d)),
        !can_step(g, slide_dest(g, r, c, d).0, slide_dest(g, r, c, d).1, d),
        exists|m: int|
            0 <= m && #[trigger] ray(r, c, d, m) == slide_dest(g, r, c, d) && open_to(
                g,
                r,
                c,
                d,
                m,
            ),
    decreases slide_fuel(g, r, c, d),
{
    if can_step(g, r, c, d) {
        let r1 = ray(r, c, d, 1).0;
        let c1 = ray(r, c, d, 1).1;
        lemma_no_partial_stop(g, r1, c1, d);
        let m1 = choose|m: int|
            0 <= m && #[trigger] ray(r1, c1, d, m) == slide_dest(g, r1, c1, d) && open_to(
                g,
                r1,
                c1,
                d,
                m,
            );
        assert(ray(r, c, d, m1 + 1) == ray(r1, c1, d, m1));
        assert forall|t: int| 0 <= t <= m1 + 1 implies open_at(g, #[trigger] ray(r, c, d, t)) by {
            if t == 0 {
                assert(ray(r, c, d, 0) == (r, c));
            } else {
                assert(ray(r, c, d, t) == ray(r1, c1, d, t - 1));
            }
        }
        assert(0 <= m1 + 1 && ray(r, c, d, m1 + 1) == slide_dest(g, r, c, d) && open_to(
            g,
            r,
            c,
            d,
            m1 + 1,
        ));
    } else {
        assert(ray(r, c, d, 0) == (r, c));
        assert(0 <= 0 && ray(r, c, d, 0) == slide_dest(g, r, c, d) && open_to(g, r, c, d, 0));
    }
}

/// Rolling in direction `d` from any open cell of the ray behind a true
/// stop `(br, bc)` rests exactly at `(br, bc)`.
proof fn lemma_slide_back(g: Seq<Seq<usize>>, br: int, bc: int, d: int, t: int)
    requires
        is_dir(d),
        !can_step(g, br, bc, d),
        open_to(g, br, bc, opposite(d), t),
        t >= 0,
    ensures
        slide_dest(g, ray(br, bc, opposite(d), t).0, ray(br, bc, opposite(d), t).1, d) == (br, bc),
    decreases t,
{
    let o = opposite(d);
    if t == 0 {
        assert(ray(br, bc, o, 0) == (br, bc));
    } else {
        lemma_slide_back(g, br, bc, d, t - 1);
        let x = ray(br, bc, o, t);
        let y = ray(br, bc, o, t - 1);
        assert(open_at(g, y));
        assert(ray(x.0, x.1, d, 1) == y);
        assert(can_step(g, x.0, x.1, d));
        assert(slide_dest(g, x.0, x.1, d) == slide_dest(g, y.0, y.1, d));
    }
}

/// The move graph is undirected at the level of single slides: from the
/// resting position `b` of any slide, rolling back in the opposite
/// direction rests at a cell `e` from which rolling forward again rests
/// exactly at `b`; in particular `b` and `e` reach each other.
pub proof fn lemma_slide_reversible(g: Seq<Seq<usize>>, r: int, c: int, d: int)
    requires
        is_dir(d),
        cell_open(g, r, c),
    ensures
        ({
            let b = slide_dest(g, r, c, d);
            let e = slide_dest(g, b.0, b.1, opposite(d));
            &&& slide_dest(g, e.0, e.1, d) == b
            &&& reaches(g, b, e)
            &&& reaches(g, e, b)
        }),
{
    let b = slide_dest(g, r, c, d);
    let o = opposite(d);
    lemma_no_partial_stop(g, r, c, d);
    lemma_no_partial_stop(g, b.0, b.1, o);
    let e = slide_dest(g, b.0, b.1, o);
    let m = choose|m: int|
        0 <= m && #[trigger] ray(b.0, b.1, o, m) == slide_dest(g, b.0, b.1, o) && open_to(
            g,
            b.0,
            b.1,
            o,
            m,
        );
    lemma_slide_back(g, b.0, b.1, d, m);
    assert(slide_dest(g, e.0, e.1, d) == (b.0, b.1));
    assert(is_dir(o) && slide_dest(g, b.0, b.1, o) == e);
    assert(slide_edge(g, b, e));
    lemma_reaches_self(g, b);
    lemma_reaches_step(g, b, b, e);
    assert(is_dir(d) && slide_dest(g, e.0, e.1, d) == b);
    assert(slide_edge(g, e, b));
    lemma_reaches_self(g, e);
    lemma_reaches_step(g, e, e, b);
}

/// The set of all coordinates of a `rows` by `cols` grid.
pub open spec fn all_cells(rows: int, cols: int) -> Set<(int, int)> {
    Set::new(|p: (int, int)| 0 <= p.0 < rows && 0 <= p.1 < cols)
}

/// The coordinates of row `r` of a grid with `cols` columns.
spec fn row_cells(r: int, cols: int) -> Set<(int, int)> {
    Set::new(|p: (int, int)| p.0 == r && 0 <= p.1 < cols)
}

proof fn lemma_row_cells_card(r: int, cols: int)
    requires
        cols >= 0,
    ensures
        row_cells(r, cols).finite(),
        row_cells(r, cols).len() == cols,
    decreases cols,
{
    if cols == 0 {
        assert(row_cells(r, 0) =~= Set::<(int, int)>::empty());
    } else {
        lemma_row_cells_card(r, cols - 1);
        assert(!row_cells(r, cols - 1).contains((r, cols - 1)));
        assert(row_cells(r, cols) =~= row_cells(r, cols - 1).insert((r, cols - 1)));
    }
}

/// A `rows` by `cols` grid has exactly `rows * cols` cells.
pub proof fn lemma_all_cells_card(rows: int, cols: int)
    requires
        rows >= 0,
        cols >= 0,
    ensures
        all_cells(rows, cols).finite(),
        all_cells(rows, cols).len() == rows * cols,
    decreases rows,
{
    if rows == 0 {
        assert(all_cells(0, cols) =~= Set::<(int, int)>::empty());
    } else {
        lemma_all_cells_card(rows - 1, cols);
        lemma_row_cells_card(rows - 1, cols);
        let a = all_cells(rows - 1, cols);
        let b = row_cells(rows - 1, cols);
        assert forall|p: (int, int)| a.contains(p) implies !b.contains(p) by {}
        assert(a.disjoint(b));
        vstd::set_lib::lemma_set_disjoint_lens(a, b);
        assert(all_cells(rows, cols) =~= a + b);
        assert((rows - 1) * cols + cols == rows * cols) by (nonlinear_arith);
    }
}

/// Bound on the visited set of the search: a set of in-bounds coordinates
/// of a `rows` by `cols` grid never holds more than `rows * cols` cells, so
/// the search marks at most `rows * cols` resting positions before its
/// frontier runs dry.
pub proof fn lemma_cell_set_bound(s: Set<(int, int)>, rows: int, cols: int)
    requires
        rows >= 0,
        cols >= 0,
        forall|p: (int, int)| #[trigger] s.contains(p) ==> 0 <= p.0 < rows && 0 <= p.1 < cols,
    ensures
        s.finite(),
        s.len() <= rows * cols,
{
    lemma_all_cells_card(rows, cols);
    assert forall|p: (int, int)| s.contains(p) implies all_cells(rows, cols).contains(p) by {}
    assert(s.subset_of(all_cells(rows, cols)));
    vstd::set_lib::lemma_len_subset(s, all_cells(rows, cols));
}

/// `p` occurs among the resting cells recorded in `q`.
pub open spec fn in_queue(q: Seq<(usize, usize)>, p: (int, int)) -> bool {
    exists|k: int| 0 <= k < q.len() && cell_at(#[trigger] q[k]) == p
}

/// When every slide out of every cell recorded in `q` rests on a cell that
/// is again recorded in `q`, every path of slides that starts at a recorded
/// cell ends at a recorded cell.
pub proof fn lemma_closed_queue_catches(
    g: Seq<Seq<usize>>,
    q: Seq<(usize, usize)>,
    p: Seq<(int, int)>,
)
    requires
        is_slide_path(g, p),
        in_queue(q, p[0]),
        forall|k: int, d: int|
            0 <= k < q.len() && is_dir(d) ==> in_queue(
                q,
                #[trigger] slide_dest(g, cell_at(q[k]).0, cell_at(q[k]).1, d),
            ),
    ensures
        in_queue(q, p.last()),
    decreases p.len(),
{
    if p.len() == 1 {
        assert(p.last() == p[0]);
    } else {
        let p0 = p.drop_last();
        assert forall|i: int| 0 <= i < p0.len() - 1 implies slide_edge(
            g,
            #[trigger] p0[i],
            p0[i + 1],
        ) by {
            assert(p0[i] == p[i] && p0[i + 1] == p[i + 1]);
            assert(slide_edge(g, p[i], p[i + 1]));
        }
        assert(is_slide_path(g, p0));
        assert(p0[0] == p[0]);
        lemma_closed_queue_catches(g, q, p0);
        let a = p[p.len() - 2];
        let b = p.last();
        assert(p0.last() == a);
        assert(slide_edge(g, a, b));
        let k = choose|k: int| 0 <= k < q.len() && cell_at(#[trigger] q[k]) == a;
        let d = choose|d: int| is_dir(d) && slide_dest(g, a.0, a.1, d) == b;
        assert(in_queue(q, slide_dest(g, cell_at(q[k]).0, cell_at(q[k]).1, d)));
    }
}

/// The solver is a pure function of its inputs: any two results obtained
/// for the same grid, start, and destination are equal.
pub proof fn lemma_has_path_deterministic(
    g: Seq<Seq<usize>>,
    a: (int, int),
    b: (int, int),
    r1: bool,
    r2: bool,
)
    requires
        r1 == reaches(g, a, b),
        r2 == reaches(g, a, b),
    ensures
        r1 == r2,
{
}

} // verus!
