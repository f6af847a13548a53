use ruzzle::grid::{gen_graph, gen_visited};

#[test]
fn grid_neighbor_counts() {
    let g = gen_graph(4);
    assert_eq!(g.len(), 16);
    for (cell, list) in g.iter().enumerate() {
        let (r, c) = (cell / 4, cell % 4);
        let border = (r == 0 || r == 3) as usize + (c == 0 || c == 3) as usize;
        let expected = match border {
            2 => 3,
            1 => 5,
            _ => 8,
        };
        assert_eq!(list.len(), expected, "cell {}", cell);
    }
    let total: usize = g.iter().map(|l| l.len()).sum();
    assert_eq!(total, 84);
}

#[test]
fn grid_neighbor_order() {
    let g = gen_graph(4);
    // down, up, right, left, then the diagonals
    assert_eq!(g[0], vec![4, 1, 5]);
    assert_eq!(g[5], vec![9, 1, 6, 4, 10, 8, 2, 0]);
    assert_eq!(g[15], vec![11, 14, 10]);
}

#[test]
fn two_by_two_grid_is_complete() {
    let g = gen_graph(2);
    assert_eq!(g, vec![vec![2, 1, 3], vec![3, 0, 2], vec![0, 3, 1], vec![1, 2, 0]]);
    assert_eq!(gen_graph(1), vec![Vec::<u8>::new()]);
}

#[test]
fn fresh_visited_matrix() {
    let v = gen_visited(4);
    assert_eq!(v, vec![vec![false; 4]; 4]);
}
