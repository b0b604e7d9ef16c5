use rolling_maze::Solution;

#[test]
fn sample_1() {
    let result = Solution::shortest_distance(&(0, 4), &(4, 4), &Solution::test_fixture_1());
    assert_eq!(result, 12);
}

#[test]
fn sample_2() {
    let result = Solution::shortest_distance(&(0, 4), &(3, 2), &Solution::test_fixture_2());
    assert_eq!(result, -1);
}

#[test]
fn single_cell_start_is_destination() {
    let maze = vec![vec![0]];
    assert_eq!(Solution::shortest_distance(&(0, 0), &(0, 0), &maze), 0);
}

#[test]
fn distance_to_self_is_zero() {
    let maze = Solution::test_fixture_1();
    for r in 0..5 {
        for c in 0..5 {
            if maze[r][c] == 0 {
                assert_eq!(Solution::shortest_distance(&(r, c), &(r, c), &maze), 0);
            }
        }
    }
}

#[test]
fn one_push_costs_the_cells_rolled() {
    let maze = Solution::test_fixture_1();
    assert_eq!(Solution::shortest_distance(&(0, 4), &(0, 3), &maze), 1);
    assert_eq!(Solution::shortest_distance(&(0, 4), &(2, 4), &maze), 2);
}

#[test]
fn ball_passes_over_a_cell_it_cannot_stop_on() {
    let maze = vec![vec![0, 0, 0]];
    assert_eq!(Solution::shortest_distance(&(0, 0), &(0, 2), &maze), 2);
    assert_eq!(Solution::shortest_distance(&(0, 0), &(0, 1), &maze), -1);
}

#[test]
fn reachability_is_not_symmetric() {
    let maze = vec![vec![0, 0, 0]];
    assert_eq!(Solution::shortest_distance(&(0, 1), &(0, 0), &maze), 1);
    assert_eq!(Solution::shortest_distance(&(0, 0), &(0, 1), &maze), -1);
}

#[test]
fn any_nonzero_cell_is_a_wall() {
    let maze = vec![vec![0, 7, 0]];
    assert_eq!(Solution::shortest_distance(&(0, 0), &(0, 2), &maze), -1);
}

#[test]
fn unreachable_in_larger_maze() {
    let maze = vec![
        vec![0, 0, 0, 0, 0],
        vec![1, 1, 0, 0, 1],
        vec![0, 0, 0, 0, 0],
        vec![0, 1, 0, 0, 1],
        vec![0, 1, 0, 0, 0],
    ];
    assert_eq!(Solution::shortest_distance(&(4, 3), &(0, 1), &maze), -1);
}

#[test]
fn result_within_loose_bound() {
    let maze = Solution::test_fixture_1();
    for r in 0..5 {
        for c in 0..5 {
            if maze[r][c] == 0 {
                let d = Solution::shortest_distance(&(0, 4), &(r, c), &maze);
                assert!(d >= -1 && d <= 5 * 5 * 5);
            }
        }
    }
}

#[test]
fn fixtures_hold_the_sample_maze() {
    let expected = vec![
        vec![0, 0, 1, 0, 0],
        vec![0, 0, 0, 0, 0],
        vec![0, 0, 0, 1, 0],
        vec![1, 1, 0, 1, 1],
        vec![0, 0, 0, 0, 0],
    ];
    assert_eq!(Solution::test_fixture_1(), expected);
    assert_eq!(Solution::test_fixture_2(), expected);
}
