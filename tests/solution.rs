use ptsa::helpers::CountUnique;
use ptsa::matrix::DistanceMatrix;
use ptsa::solution::{swap_slices, Solution};

/// Whether `a` is `b` read from some other starting position.
fn same_cycle(a: &[usize], b: &[usize]) -> bool {
    if a.len() != b.len() {
        return false;
    }
    let n = a.len();
    (0..n).any(|shift| (0..n).all(|i| a[(i + shift) % n] == b[i]))
}

#[test]
fn test_from_matrix_vec() {
    let vector: Vec<Vec<u64>> = vec![vec![0, 2], vec![3, 0]];
    let dmatrix: DistanceMatrix = DistanceMatrix::new(vector).unwrap();
    let expected = vec![vec![0, 2], vec![3, 0]];
    assert_eq!(dmatrix.matrix, expected);
}

#[test]
fn solution_test_shuffle_slice() {
    // A window longer than the tour shuffles the whole tour.
    let mut solution = Solution::new(vec![1, 2, 3, 4, 5, 6, 7, 8, 9]);
    solution.shuffle(0, 10);
    assert!(solution.path.len() == 9);
}

#[test]
fn solution_test_solution_shuffle() {
    let path = vec![0, 1, 2, 3, 4, 5];
    let mut solution = Solution::new(path);
    solution.shuffle(2, 3);
    assert_eq!(solution.path[0], 0);
    assert_eq!(solution.path[1], 1);
    assert_eq!(solution.path[5], 5);
}

#[test]
fn solution_test_solution_past_index() {
    // The window of three positions from 5 wraps to positions 5, 0 and 1;
    // the positions after it keep their cities.
    let path = vec![0, 1, 2, 3, 4, 5];
    let mut solution = Solution::new(path);
    solution.shuffle(5, 3);
    assert_eq!(solution.path[2], 2);
    assert_eq!(solution.path[3], 3);
    assert_eq!(solution.path[4], 4);
}

#[test]
fn solution_test_solution_swap() {
    let path = vec![1, 2, 3, 4, 5, 6, 7, 8];
    let mut solution = Solution::new(path);
    solution.swap_parts(0, 3, 3).unwrap();
    assert!(solution.path == [4, 5, 6, 1, 2, 3, 7, 8]);
}

#[test]
fn test_solution_swap_opposities() {
    let path = vec![0, 1, 2, 3, 4, 5, 6, 7, 8];
    let mut solution = Solution::new(path);
    solution.swap_parts(5, 6, 3).unwrap();
    assert!(solution.path == vec![0, 1, 2, 6, 7, 8, 3, 4, 5]);
}

#[test]
fn test_solution_swap_with_overflow() {
    let path = vec![0, 1, 2, 3, 4, 5, 6];
    let mut solution = Solution::new(path);
    solution.swap_parts(2, 5, 3).unwrap();
    // Slice [2, 3, 4]
    // Then swap with [5, 6, 0]
    assert!(solution.path == vec![4, 1, 5, 6, 0, 2, 3]);
}

#[test]
fn test_solution_swap_with_underflow() {
    let path = vec![0, 1, 2, 3, 4, 5, 6, 7, 8];
    let mut solution = Solution::new(path);
    solution.swap_parts(1, 2, 3).unwrap();
    // Slice [2, 3, 4]
    // Then swap with [8, 0, 1]
    assert!(solution.path == vec![3, 4, 8, 0, 1, 5, 6, 7, 2]);
}

#[test]
fn solution_test_cost() {
    let matrix = vec![vec![0, 1], vec![1, 0]];
    let dmatrix = DistanceMatrix::new(matrix).unwrap();
    let path = vec![0, 1];
    let solution = Solution::new(path);
    assert_eq!(solution.cost(&dmatrix), 2);
}

#[test]
fn test_random_solution() {
    let random_sol: Solution = Solution::random_solution(10);
    assert_eq!(random_sol.path.len(), 10);
    assert_eq!(random_sol.path.clone().unique(), 10);
}

#[test]
fn test_heuristic_approach() {
    let dmatrix = DistanceMatrix::new(vec![vec![0, 1], vec![2, 0]]).unwrap();
    let solution: Solution = Solution::nearest_neightbor_solution(&dmatrix, 0);
    assert_eq!(solution.path.len(), 2);
    assert_eq!(solution.path.clone().unique(), 2);
    assert_eq!(*(solution.path.first().unwrap()), 0);
}

#[test]
fn path_test_shuffle_slice() {
    let mut solution = Solution::new(vec![1, 2, 3, 4, 5, 6, 7, 8, 9]);
    solution.shuffle(3, 20);
    assert!(solution.path.len() == 9);
}

#[test]
fn test_swap_slice() {
    let mut data = vec![1, 2, 3, 4, 5, 6, 7, 8, 9];
    let (first, second) = data.split_at_mut(3);
    swap_slices(first, &mut second[0..3]);
    assert_eq!(data, vec![4, 5, 6, 1, 2, 3, 7, 8, 9]);
}

#[test]
fn path_test_solution_shuffle() {
    let data = vec![1, 2, 3, 4, 5, 6];
    let mut solution = Solution::new(data);
    solution.shuffle(2, 3);
}

#[test]
fn path_test_solution_past_index() {
    let data = vec![1, 2, 3, 4, 5, 6];
    let mut solution = Solution::new(data);
    solution.shuffle(2, 5);
}

#[test]
fn path_test_solution_swap() {
    let path = vec![1, 2, 3, 4, 5, 6, 7, 8];
    let mut solution = Solution::new(path);
    solution.swap_parts(0, 3, 3).unwrap();
    assert!(solution.path == [4, 5, 6, 1, 2, 3, 7, 8]);
}

#[test]
fn test_solution_swap_opposite() {
    let path = vec![0, 1, 2, 3, 4, 5, 6, 7, 8];
    let mut solution = Solution::new(path);
    solution.swap_parts(5, 6, 3).unwrap();
    assert!(solution.path == [0, 1, 2, 6, 7, 8, 3, 4, 5]);
}

#[test]
fn test_solution_swap_with_shift() {
    let path = vec![0, 1, 2, 3, 4, 5, 6];
    let mut solution = Solution::new(path);
    solution.swap_parts(3, 5, 3).unwrap();
    // The windows [1, 2, 3] and [5, 6, 0] are exchanged in place, with no
    // rotation: the same cycle as [5, 6, 0, 4, 1, 2, 3].
    assert!(same_cycle(&solution.path, &[5, 6, 0, 4, 1, 2, 3]));
    assert!(solution.path == [3, 5, 6, 0, 4, 1, 2]);
}

#[test]
fn test_solution_swap_with_shift2() {
    let path = vec![0, 1, 2, 3, 4, 5, 6, 7, 8];
    let mut solution = Solution::new(path);
    solution.swap_parts(6, 7, 3).unwrap();
    // The windows [4, 5, 6] and [7, 8, 0] are exchanged in place: the same
    // cycle as [7, 8, 0, 4, 5, 6, 1, 2, 3].
    assert!(same_cycle(&solution.path, &[7, 8, 0, 4, 5, 6, 1, 2, 3]));
    assert!(solution.path == [6, 1, 2, 3, 7, 8, 0, 4, 5]);
}

#[test]
fn path_test_cost() {
    let matrix = vec![vec![0, 1], vec![1, 0]];
    let dmatrix = DistanceMatrix::new(matrix).unwrap();
    let path = vec![0, 1];
    let solution = Solution::new(path);
    assert_eq!(solution.cost(&dmatrix), 2);
}
