//! The executable maze reachability solver.

use vstd::prelude::*;

use crate::maze::cell_at;
use crate::maze::cell_open;
use crate::maze::grid_wf;
use crate::maze::in_bounds;
use crate::maze::in_queue;
use crate::maze::is_slide_path;
use crate::maze::lemma_cell_set_bound;
use crate::maze::lemma_closed_queue_catches;
use crate::maze::lemma_reaches_self;
use crate::maze::lemma_reaches_step;
use crate::maze::open_at;
use crate::maze::reaches;
use crate::maze::slide_dest;
use crate::maze::slide_edge;

verus! {

broadcast use vstd::set::group_set_axioms;

/// The solver; it carries no state, every query works on fresh, local data.
pub struct Solution {}

/// The 5 by 5 example grid: walls at (0,2), (2,3), (3,0), (3,1), (3,3) and
/// (3,4), every other cell open.
pub open spec fn fixture_grid() -> Seq<Seq<usize>> {
    seq![
        seq![0usize, 0, 1, 0, 0],
        seq![0usize, 0, 0, 0, 0],
        seq![0usize, 0, 0, 1, 0],
        seq![1usize, 1, 0, 1, 1],
        seq![0usize, 0, 0, 0, 0],
    ]
}

/// The board of marks has one row of `bool`s per grid row, each as wide as
/// the grid.
spec fn marks_wf(g: Seq<Seq<usize>>, v: Seq<Vec<bool>>) -> bool {
    &&& v.len() == g.len()
    &&& forall|i: int| 0 <= i < v.len() ==> (#[trigger] v[i])@.len() == g[0].len()
}

impl Solution {
    /// Builds one five-cell row of a grid.
    fn fixture_row(a: usize, b: usize, c: usize, d: usize, e: usize) -> (row: Vec<usize>)
        ensures
            row.deep_view() == seq![a, b, c, d, e],
    {
        let mut row: Vec<usize> = Vec::new();
        row.push(a);
        row.push(b);
        row.push(c);
        row.push(d);
        row.push(e);
        proof {
            assert(row.deep_view() =~= seq![a, b, c, d, e]);
        }
        row
    }

    /// The first example maze.
    pub fn test_fixture_1() -> (grid: Vec<Vec<usize>>)
        ensures
            grid.deep_view() == fixture_grid(),
    {
        let mut grid: Vec<Vec<usize>> = Vec::new();
        grid.push(Self::fixture_row(0, 0, 1, 0, 0));
        grid.push(Self::fixture_row(0, 0, 0, 0, 0));
        grid.push(Self::fixture_row(0, 0, 0, 1, 0));
        grid.push(Self::fixture_row(1, 1, 0, 1, 1));
        grid.push(Self::fixture_row(0, 0, 0, 0, 0));
        proof {
            assert(grid.deep_view() =~~= fixture_grid());
        }
        grid
    }

    /// The second example maze; it equals the first.
    pub fn test_fixture_2() -> (grid: Vec<Vec<usize>>)
        ensures
            grid.deep_view() == fixture_grid(),
    {
        Self::test_fixture_1()
    }

    /// Rolls the ball from the open cell `(r, c)` in direction `d` until
    /// the next cell is a wall or lies outside the grid, and returns the
    /// cell where the ball comes to rest.
    #[verifier::loop_isolation(false)]
    fn roll(maze: &Vec<Vec<usize>>, r: usize, c: usize, d: usize) -> (rest: (usize, usize))
        requires
            grid_wf(maze.deep_view()),
            cell_open(maze.deep_view(), r as int, c as int),
            d < 4,
        ensures
            cell_at(rest) == slide_dest(maze.deep_view(), r as int, c as int, d as int),
            cell_open(maze.deep_view(), rest.0 as int, rest.1 as int),
    {
        let ghost g = maze.deep_view();
        let rows = maze.len();
        let cols = maze[0].len();
        let mut rr = r;
        let mut cc = c;
        if d == 0 {
            while rr + 1 < rows && maze[rr + 1][cc] == 0
                invariant
                    cell_open(g, rr as int, cc as int),
                    slide_dest(g, rr as int, cc as int, 0) == slide_dest(g, r as int, c as int, 0),
                decreases rows - rr,
            {
                rr = rr + 1;
            }
        } else if d == 1 {
            while rr > 0 && maze[rr - 1][cc] == 0
                invariant
                    cell_open(g, rr as int, cc as int),
                    slide_dest(g, rr as int, cc as int, 1) == slide_dest(g, r as int, c as int, 1),
                decreases rr,
            {
                rr = rr - 1;
            }
        } else if d == 2 {
            while cc + 1 < cols && maze[rr][cc + 1] == 0
                invariant
                    cell_open(g, rr as int, cc as int),
                    slide_dest(g, rr as int, cc as int, 2) == slide_dest(g, r as int, c as int, 2),
                decreases cols - cc,
            {
                cc = cc + 1;
            }
        } else {
            while cc > 0 && maze[rr][cc - 1] == 0
                invariant
                    cell_open(g, rr as int, cc as int),
                    slide_dest(g, rr as int, cc as int, 3) == slide_dest(g, r as int, c as int, 3),
                decreases cc,
            {
                cc = cc - 1;
            }
        }
        (rr, cc)
    }

    /// Breadth-first search over resting positions: cells leave the
    /// frontier in first-in-first-out order, and for each one the resting
    /// cells of the four slides out of it that have not been seen before
    /// join the frontier.
    #[verifier::loop_isolation(false)]
    fn bfs(
        node: &(usize, usize),
        dest: &(usize, usize),
        maze: &Vec<Vec<usize>>,
        visited: &mut Vec<Vec<bool>>,
    ) -> (found: bool)
        requires
            grid_wf(maze.deep_view()),
            cell_open(maze.deep_view(), node.0 as int, node.1 as int),
            cell_open(maze.deep_view(), dest.0 as int, dest.1 as int),
            marks_wf(maze.deep_view(), old(visited)@),
            forall|i: int, j: int|
                0 <= i < old(visited)@.len() && 0 <= j < old(visited)@[i]@.len() ==> !(
                #[trigger] old(visited)@[i]@[j]),
        ensures
            found == reaches(maze.deep_view(), cell_at(*node), cell_at(*dest)),
            marks_wf(maze.deep_view(), final(visited)@),
            forall|i: int, j: int|
                0 <= i < final(visited)@.len() && 0 <= j < final(visited)@[i]@.len() && (
                #[trigger] final(visited)@[i]@[j]) ==> cell_open(maze.deep_view(), i, j)
                    && reaches(maze.deep_view(), cell_at(*node), (i, j)),
    {
        let ghost g = maze.deep_view();
        let start = *node;
        let target = *dest;
        let ghost scell = cell_at(start);
        let ghost dcell = cell_at(target);

        let mut queue: Vec<(usize, usize)> = Vec::new();
        queue.push(start);
        let mut head: usize = 0;
        let ghost mut vs: Set<(int, int)> = Set::empty();

        proof {
            lemma_reaches_self(g, scell);
        }

        while head < queue.len()
            invariant
                marks_wf(g, visited@),
                head <= queue@.len(),
                queue@.len() >= 1,
                queue@[0] == start,
                vs.finite(),
                forall|p: (int, int)| #[trigger]
                    vs.contains(p) ==> in_bounds(g, p.0, p.1) && visited@[p.0]@[p.1],
                forall|i: int, j: int|
                    0 <= i < g.len() && 0 <= j < g[0].len() && (#[trigger] visited@[i]@[j])
                        ==> vs.contains((i, j)),
                forall|k: int|
                    0 <= k < queue@.len() ==> open_at(g, cell_at(#[trigger] queue@[k])),
                forall|k: int|
                    0 <= k < queue@.len() ==> reaches(g, scell, cell_at(#[trigger] queue@[k])),
                forall|p: (int, int)| #[trigger] vs.contains(p) ==> in_queue(queue@, p),
                queue@.len() <= vs.len() + 1,
                forall|k: int| 0 <= k < head ==> cell_at(#[trigger] queue@[k]) != dcell,
                forall|k: int, d: int|
                    0 <= k < head && 0 <= d < 4 ==> vs.contains(
                        #[trigger] slide_dest(g, cell_at(queue@[k]).0, cell_at(queue@[k]).1, d),
                    ),
            decreases g.len() * g[0].len() + 1 - head,
        {
            proof {
                lemma_cell_set_bound(vs, g.len() as int, g[0].len() as int);
            }
            let current = queue[head];
            head = head + 1;
            if current.0 == target.0 && current.1 == target.1 {
                proof {
                    assert(reaches(g, scell, cell_at(queue@[head - 1])));
                    assert forall|i: int, j: int|
                        0 <= i < visited@.len() && 0 <= j < visited@[i]@.len() && (
                        #[trigger] visited@[i]@[j]) implies cell_open(g, i, j) && reaches(
                        g,
                        scell,
                        (i, j),
                    ) by {
                        assert(vs.contains((i, j)));
                        let k = choose|k: int|
                            0 <= k < queue@.len() && cell_at(#[trigger] queue@[k]) == (i, j);
                        assert(open_at(g, cell_at(queue@[k])));
                        assert(reaches(g, scell, cell_at(queue@[k])));
                    }
                }
                return true;
            }
            let ghost ccell = cell_at(current);
            let mut d: usize = 0;
            while d < 4
                invariant
                    d <= 4,
                    1 <= head <= queue@.len(),
                    queue@.len() >= 1,
                    queue@[0] == start,
                    current == queue@[head - 1],
                    marks_wf(g, visited@),
                    vs.finite(),
                    forall|p: (int, int)| #[trigger]
                        vs.contains(p) ==> in_bounds(g, p.0, p.1) && visited@[p.0]@[p.1],
                    forall|i: int, j: int|
                        0 <= i < g.len() && 0 <= j < g[0].len() && (#[trigger] visited@[i]@[j])
                            ==> vs.contains((i, j)),
                    forall|k: int|
                        0 <= k < queue@.len() ==> open_at(g, cell_at(#[trigger] queue@[k])),
                    forall|k: int|
                        0 <= k < queue@.len() ==> reaches(g, scell, cell_at(#[trigger] queue@[k])),
                    forall|p: (int, int)| #[trigger] vs.contains(p) ==> in_queue(queue@, p),
                    queue@.len() <= vs.len() + 1,
                    forall|k: int| 0 <= k < head ==> cell_at(#[trigger] queue@[k]) != dcell,
                    forall|k: int, dd: int|
                        0 <= k < head - 1 && 0 <= dd < 4 ==> vs.contains(
                            #[trigger] slide_dest(
                                g,
                                cell_at(queue@[k]).0,
                                cell_at(queue@[k]).1,
                                dd,
                            ),
                        ),
                    forall|dd: int|
                        0 <= dd < d ==> vs.contains(
                            #[trigger] slide_dest(g, ccell.0, ccell.1, dd),
                        ),
                decreases 4 - d,
            {
                let rest = Self::roll(maze, current.0, current.1, d);
                let ghost rcell = cell_at(rest);
                proof {
                    assert(rcell == slide_dest(g, ccell.0, ccell.1, d as int));
                    assert(open_at(g, cell_at(queue@[head - 1])));
                    assert(open_at(g, ccell));
                    assert(reaches(g, scell, cell_at(queue@[head - 1])));
                    assert(slide_edge(g, ccell, rcell));
                }
                if maze[rest.0][rest.1] == 0 && !visited[rest.0][rest.1] {
                    visited[rest.0][rest.1] = true;
                    proof {
                        assert(!vs.contains(rcell));
                        vs = vs.insert(rcell);
                        lemma_reaches_step(g, scell, ccell, rcell);
                    }
                    let ghost oldq = queue@;
                    queue.push(rest);
                    proof {
                        assert(queue@ =~= oldq.push(rest));
                        assert forall|p: (int, int)| #[trigger]
                            vs.contains(p) implies in_queue(queue@, p) by {
                            if p == rcell {
                                assert(cell_at(queue@[queue@.len() - 1]) == p);
                            } else {
                                let k = choose|k: int|
                                    0 <= k < oldq.len() && cell_at(#[trigger] oldq[k]) == p;
                                assert(queue@[k] == oldq[k]);
                                assert(cell_at(queue@[k]) == p);
                            }
                        }
                    }
                }
                proof {
                    assert(vs.contains(slide_dest(g, ccell.0, ccell.1, d as int)));
                }
                d = d + 1;
            }
        }
        proof {
            assert(head == queue@.len());
            if reaches(g, scell, dcell) {
                let p = choose|p: Seq<(int, int)>|
                    is_slide_path(g, p) && p[0] == scell && p.last() == dcell;
                assert(cell_at(queue@[0]) == scell);
                assert(in_queue(queue@, p[0]));
                lemma_closed_queue_catches(g, queue@, p);
                let k = choose|k: int|
                    0 <= k < queue@.len() && cell_at(#[trigger] queue@[k]) == dcell;
                assert(cell_at(queue@[k]) != dcell);
            }
            assert forall|i: int, j: int|
                0 <= i < visited@.len() && 0 <= j < visited@[i]@.len() && (
                #[trigger] visited@[i]@[j]) implies cell_open(g, i, j) && reaches(
                g,
                scell,
                (i, j),
            ) by {
                assert(vs.contains((i, j)));
                let k = choose|k: int|
                    0 <= k < queue@.len() && cell_at(#[trigger] queue@[k]) == (i, j);
                assert(open_at(g, cell_at(queue@[k])));
                assert(reaches(g, scell, cell_at(queue@[k])));
            }
        }
        false
    }

    /// Whether a ball released at `start`, which only ever stops against a
    /// wall or the grid boundary, can come to rest exactly on `dest`.
    pub fn has_path(
        start: &(usize, usize),
        dest: &(usize, usize),
        maze: &Vec<Vec<usize>>,
    ) -> (found: bool)
        requires
            grid_wf(maze.deep_view()),
            cell_open(maze.deep_view(), start.0 as int, start.1 as int),
            cell_open(maze.deep_view(), dest.0 as int, dest.1 as int),
        ensures
            found == reaches(maze.deep_view(), cell_at(*start), cell_at(*dest)),
    {
        let ghost g = maze.deep_view();
        let rows = maze.len();
        let cols = maze[0].len();
        let mut visited: Vec<Vec<bool>> = Vec::new();
        #[verifier::loop_isolation(false)]
        while visited.len() < rows
            invariant
                visited@.len() <= rows,
                forall|i: int| 0 <= i < visited@.len() ==> (#[trigger] visited@[i])@.len() == cols,
                forall|i: int, j: int|
                    0 <= i < visited@.len() && 0 <= j < cols ==> !(#[trigger] visited@[i]@[j]),
            decreases rows - visited.len(),
        {
            let mut row: Vec<bool> = Vec::new();
            #[verifier::loop_isolation(false)]
            while row.len() < cols
                invariant
                    row@.len() <= cols,
                    forall|j: int| 0 <= j < row@.len() ==> !(#[trigger] row@[j]),
                decreases cols - row.len(),
            {
                row.push(false);
            }
            visited.push(row);
        }
        Self::bfs(start, dest, maze, &mut visited)
    }
}

} // verus!
