use maze_path::Solution;

fn open_grid(rows: usize, cols: usize) -> Vec<Vec<usize>> {
    let mut grid: Vec<Vec<usize>> = Vec::new();
    let mut i: usize = 0;
    while i < rows {
        let mut row: Vec<usize> = Vec::new();
        let mut j: usize = 0;
        while j < cols {
            row.push(0);
            j += 1;
        }
        grid.push(row);
        i += 1;
    }
    grid
}

#[test]
fn sample_1() {
    let result = Solution::has_path(&(0, 4), &(4, 4), &Solution::test_fixture_1());
    assert_eq!(result, true);
}

#[test]
fn sample_2() {
    let result = Solution::has_path(&(0, 4), &(3, 2), &Solution::test_fixture_2());
    assert_eq!(result, false);
}

#[test]
fn fixtures_hold_the_expected_grid() {
    let expected: Vec<Vec<usize>> = vec![
        vec![0, 0, 1, 0, 0],
        vec![0, 0, 0, 0, 0],
        vec![0, 0, 0, 1, 0],
        vec![1, 1, 0, 1, 1],
        vec![0, 0, 0, 0, 0],
    ];
    assert_eq!(Solution::test_fixture_1(), expected);
    assert_eq!(Solution::test_fixture_2(), expected);
}

#[test]
fn repeated_calls_agree() {
    let grid = Solution::test_fixture_1();
    let first = Solution::has_path(&(0, 4), &(4, 4), &grid);
    let second = Solution::has_path(&(0, 4), &(4, 4), &grid);
    assert_eq!(first, second);
    let third = Solution::has_path(&(0, 4), &(3, 2), &grid);
    let fourth = Solution::has_path(&(0, 4), &(3, 2), &grid);
    assert_eq!(third, fourth);
}

#[test]
fn start_equals_destination() {
    let grid = Solution::test_fixture_1();
    assert_eq!(Solution::has_path(&(0, 0), &(0, 0), &grid), true);
    assert_eq!(Solution::has_path(&(1, 3), &(1, 3), &grid), true);
    assert_eq!(Solution::has_path(&(4, 2), &(4, 2), &grid), true);
}

#[test]
fn open_grid_reaches_far_corner() {
    let grid = open_grid(3, 3);
    assert_eq!(Solution::has_path(&(0, 0), &(2, 2), &grid), true);
}

#[test]
fn open_grid_corner_pair_is_symmetric() {
    let grid = open_grid(3, 3);
    let forward = Solution::has_path(&(0, 0), &(2, 2), &grid);
    let backward = Solution::has_path(&(2, 2), &(0, 0), &grid);
    assert_eq!(forward, true);
    assert_eq!(backward, true);
    assert_eq!(forward, backward);
}

#[test]
fn slide_overshoots_middle_cell() {
    // In a 1 by 3 corridor the ball released at one end slides past the
    // middle cell and only rests against the far boundary.
    let grid = open_grid(1, 3);
    assert_eq!(Solution::has_path(&(0, 0), &(0, 1), &grid), false);
    assert_eq!(Solution::has_path(&(0, 0), &(0, 2), &grid), true);
    // From the middle the ball does rest at either end.
    assert_eq!(Solution::has_path(&(0, 1), &(0, 0), &grid), true);
    assert_eq!(Solution::has_path(&(0, 1), &(0, 2), &grid), true);
}

#[test]
fn bottom_corner_is_walled_in() {
    // (4,4) reaches only (4,0) and itself: the wall at (3,4) and the
    // boundary stop every other slide, so the reverse of sample_1 fails.
    let grid = Solution::test_fixture_1();
    assert_eq!(Solution::has_path(&(4, 4), &(0, 4), &grid), false);
    assert_eq!(Solution::has_path(&(4, 4), &(4, 0), &grid), true);
}

#[test]
fn every_cell_search_terminates() {
    // A query that must mark many resting cells before giving up still
    // returns: the visited set can take at most rows * cols insertions.
    let grid = open_grid(5, 5);
    assert_eq!(Solution::has_path(&(0, 0), &(4, 4), &grid), true);
    let fixture = Solution::test_fixture_1();
    assert_eq!(Solution::has_path(&(0, 0), &(4, 2), &fixture), true);
}
