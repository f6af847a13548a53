//! The adjacency graph of an `n` by `n` grid: every cell is joined to the up
//! to eight cells around it.
use vstd::prelude::*;
use crate::codec::MAX_GRID_SIZE;

verus! {

/// Row offset of direction `k`, in the fixed order down, up, right, left,
/// then the four diagonals.
pub open spec fn dir_row(k: int) -> int {
    if k == 0 || k == 4 || k == 5 {
        1
    } else if k == 1 || k == 6 || k == 7 {
        -1
    } else {
        0
    }
}

/// Column offset of direction `k`.
pub open spec fn dir_col(k: int) -> int {
    if k == 2 || k == 4 || k == 6 {
        1
    } else if k == 3 || k == 5 || k == 7 {
        -1
    } else {
        0
    }
}

/// Row and column `(x, y)` lie on the grid.
pub open spec fn on_grid(n: int, x: int, y: int) -> bool {
    0 <= x < n && 0 <= y < n
}

/// The cells reached from `cell` by the first `k` directions that stay on
/// the grid, in direction order.
pub open spec fn neighbors_upto(n: int, cell: int, k: int) -> Seq<u8>
    decreases k,
{
    if k <= 0 {
        Seq::empty()
    } else {
        let prev = neighbors_upto(n, cell, k - 1);
        let x = cell / n + dir_row(k - 1);
        let y = cell % n + dir_col(k - 1);
        if on_grid(n, x, y) {
            prev.push((x * n + y) as u8)
        } else {
            prev
        }
    }
}

/// The neighbor list of `cell` on the `n` by `n` grid.
pub open spec fn grid_neighbors(n: int, cell: int) -> Seq<u8> {
    neighbors_upto(n, cell, 8)
}

/// The neighbor lists of all cells of the `n` by `n` grid.
pub open spec fn grid_graph(n: int) -> Seq<Seq<u8>> {
    Seq::new((n * n) as nat, |c: int| grid_neighbors(n, c))
}

/// Two distinct cells touch by an edge or a corner.
pub open spec fn adjacent(n: int, a: int, b: int) -> bool {
    &&& 0 <= a < n * n
    &&& 0 <= b < n * n
    &&& a != b
    &&& -1 <= b / n - a / n <= 1
    &&& -1 <= b % n - a % n <= 1
}

/// A graph on `cells` cells: one list per cell, at most eight entries and no
/// repeated entry in a list, every entry a cell.
pub open spec fn valid_graph(g: Seq<Seq<u8>>, cells: nat) -> bool {
    &&& g.len() == cells
    &&& forall|c: int| 0 <= c < cells ==> (#[trigger] g[c]).no_duplicates()
    &&& forall|c: int| 0 <= c < cells ==> (#[trigger] g[c]).len() <= 8
    &&& forall|c: int, j: int|
        0 <= c < cells && 0 <= j < g[c].len() ==> (#[trigger] g[c][j]) < cells
}

/// The lists of a graph as sequences.
pub open spec fn graph_view(g: &Vec<Vec<u8>>) -> Seq<Seq<u8>> {
    g@.map_values(|l: Vec<u8>| l@)
}

proof fn lemma_cell_split(n: int, x1: int, y1: int, x2: int, y2: int)
    requires
        n >= 1,
        0 <= y1 < n,
        0 <= y2 < n,
        x1 * n + y1 == x2 * n + y2,
    ensures
        x1 == x2,
        y1 == y2,
{
    let v = x1 * n + y1;
    vstd::arithmetic::div_mod::lemma_fundamental_div_mod_converse(v, n, x1, y1);
    vstd::arithmetic::div_mod::lemma_fundamental_div_mod_converse(v, n, x2, y2);
}

proof fn lemma_neighbors_upto(n: int, cell: int, k: int)
    requires
        1 <= n <= MAX_GRID_SIZE,
        0 <= cell < n * n,
        0 <= k <= 8,
    ensures
        neighbors_upto(n, cell, k).no_duplicates(),
        neighbors_upto(n, cell, k).len() <= k,
        forall|b: u8|
            neighbors_upto(n, cell, k).contains(b) <==> exists|j: int|
                0 <= j < k && on_grid(n, cell / n + dir_row(j), cell % n + dir_col(j)) && b == (
                cell / n + dir_row(j)) * n + cell % n + dir_col(j),
    decreases k,
{
    if k > 0 {
        lemma_neighbors_upto(n, cell, k - 1);
        let prev = neighbors_upto(n, cell, k - 1);
        let r = cell / n;
        let c = cell % n;
        let x = r + dir_row(k - 1);
        let y = c + dir_col(k - 1);
        if on_grid(n, x, y) {
            assert(x * n + y < n * n) by (nonlinear_arith)
                requires
                    0 <= x < n,
                    0 <= y < n,
            ;
            assert(0 <= x * n + y) by (nonlinear_arith)
                requires
                    0 <= x < n,
                    0 <= y < n,
            ;
            let v = (x * n + y) as u8;
            assert(v == x * n + y) by {
                assert(n * n <= 16) by (nonlinear_arith)
                    requires
                        1 <= n <= 4,
                ;
            }
            assert(!prev.contains(v)) by {
                if prev.contains(v) {
                    let j = choose|j: int|
                        0 <= j < k - 1 && on_grid(n, r + dir_row(j), c + dir_col(j)) && v == (r
                            + dir_row(j)) * n + c + dir_col(j);
                    lemma_cell_split(n, r + dir_row(j), c + dir_col(j), x, y);
                }
            }
            let cur = neighbors_upto(n, cell, k);
            assert(cur == prev.push(v));
            assert forall|b: u8|
                cur.contains(b) <==> exists|j: int|
                    0 <= j < k && on_grid(n, r + dir_row(j), c + dir_col(j)) && b == (r + dir_row(
                        j,
                    )) * n + c + dir_col(j) by {
                if cur.contains(b) {
                    if b == v {
                        assert(0 <= k - 1 < k && on_grid(n, r + dir_row(k - 1), c + dir_col(k - 1))
                            && b == (r + dir_row(k - 1)) * n + c + dir_col(k - 1));
                    } else {
                        let i = choose|i: int| 0 <= i < cur.len() && cur[i] == b;
                        assert(prev[i] == b);
                        assert(prev.contains(b));
                    }
                }
                if exists|j: int|
                    0 <= j < k && on_grid(n, r + dir_row(j), c + dir_col(j)) && b == (r + dir_row(
                        j,
                    )) * n + c + dir_col(j) {
                    let j = choose|j: int|
                        0 <= j < k && on_grid(n, r + dir_row(j), c + dir_col(j)) && b == (r
                            + dir_row(j)) * n + c + dir_col(j);
                    if j == k - 1 {
                        assert(cur[cur.len() - 1] == b);
                    } else {
                        assert(prev.contains(b));
                        let i = choose|i: int| 0 <= i < prev.len() && prev[i] == b;
                        assert(cur[i] == b);
                    }
                }
            }
        } else {
            assert(neighbors_upto(n, cell, k) == prev);
            assert forall|b: u8|
                prev.contains(b) <==> exists|j: int|
                    0 <= j < k && on_grid(n, r + dir_row(j), c + dir_col(j)) && b == (r + dir_row(
                        j,
                    )) * n + c + dir_col(j) by {
                if exists|j: int|
                    0 <= j < k && on_grid(n, r + dir_row(j), c + dir_col(j)) && b == (r + dir_row(
                        j,
                    )) * n + c + dir_col(j) {
                    let j = choose|j: int|
                        0 <= j < k && on_grid(n, r + dir_row(j), c + dir_col(j)) && b == (r
                            + dir_row(j)) * n + c + dir_col(j);
                    assert(j != k - 1);
                }
            }
        }
    }
}

/// The grid's lists form a graph in the sense the search needs: one list per
/// cell, each without repeats, each entry a cell, at most eight entries.
pub proof fn lemma_grid_graph_valid(n: int)
    requires
        1 <= n <= MAX_GRID_SIZE,
    ensures
        forall|c: int| 0 <= c < n * n ==> (#[trigger] grid_neighbors(n, c)).no_duplicates(),
        forall|c: int| 0 <= c < n * n ==> (#[trigger] grid_neighbors(n, c)).len() <= 8,
        forall|c: int, j: int|
            0 <= c < n * n && 0 <= j < grid_neighbors(n, c).len() ==> (#[trigger] grid_neighbors(
                n,
                c,
            )[j]) < n * n,
{
    assert forall|c: int| 0 <= c < n * n implies (#[trigger] grid_neighbors(n, c)).no_duplicates()
        && grid_neighbors(n, c).len() <= 8 by {
        lemma_neighbors_upto(n, c, 8);
    }
    assert forall|c: int, j: int|
        0 <= c < n * n && 0 <= j < grid_neighbors(n, c).len() implies (#[trigger] grid_neighbors(
        n,
        c,
    )[j]) < n * n by {
        lemma_neighbors_upto(n, c, 8);
        let b = grid_neighbors(n, c)[j];
        assert(grid_neighbors(n, c).contains(b));
        let k = choose|k: int|
            0 <= k < 8 && on_grid(n, c / n + dir_row(k), c % n + dir_col(k)) && b == (c / n
                + dir_row(k)) * n + c % n + dir_col(k);
        let x = c / n + dir_row(k);
        let y = c % n + dir_col(k);
        assert(x * n + y < n * n) by (nonlinear_arith)
            requires
                0 <= x < n,
                0 <= y < n,
        ;
    }
}

/// The grid graph is a valid graph on its cells.
pub proof fn lemma_grid_graph_is_valid(n: int)
    requires
        1 <= n <= MAX_GRID_SIZE,
    ensures
        valid_graph(grid_graph(n), (n * n) as nat),
{
    lemma_grid_graph_valid(n);
    let g = grid_graph(n);
    assert forall|c: int| 0 <= c < n * n implies (#[trigger] g[c]).no_duplicates() && g[c].len() <= 8 by {
        assert(g[c] == grid_neighbors(n, c));
    }
    assert forall|c: int, j: int| 0 <= c < n * n && 0 <= j < g[c].len() implies (#[trigger] g[c][j])
        < n * n by {
        assert(g[c] == grid_neighbors(n, c));
        assert(grid_neighbors(n, c)[j] < n * n);
    }
}

/// A cell is in the list of `a` exactly when it touches `a`.
pub proof fn lemma_grid_neighbors_adjacent(n: int, a: int, b: u8)
    requires
        1 <= n <= MAX_GRID_SIZE,
        0 <= a < n * n,
    ensures
        grid_neighbors(n, a).contains(b) <==> adjacent(n, a, b as int),
{
    lemma_neighbors_upto(n, a, 8);
    let r = a / n;
    let c = a % n;
    assert(0 <= c < n);
    assert(0 <= r < n) by {
        vstd::arithmetic::div_mod::lemma_div_pos_is_pos(a, n);
        vstd::arithmetic::div_mod::lemma_div_by_multiple_is_strongly_ordered(a, n * n, n, n);
        assert(n * n / n == n) by {
            vstd::arithmetic::div_mod::lemma_div_by_multiple(n, n);
        }
    }
    if grid_neighbors(n, a).contains(b) {
        let k = choose|k: int|
            0 <= k < 8 && on_grid(n, r + dir_row(k), c + dir_col(k)) && b == (r + dir_row(k)) * n
                + c + dir_col(k);
        let x = r + dir_row(k);
        let y = c + dir_col(k);
        vstd::arithmetic::div_mod::lemma_fundamental_div_mod_converse(b as int, n, x, y);
        assert(x * n + y < n * n) by (nonlinear_arith)
            requires
                0 <= x < n,
                0 <= y < n,
        ;
        if b == a {
            lemma_cell_split(n, x, y, r, c);
        }
    }
    if adjacent(n, a, b as int) {
        let x = b as int / n;
        let y = b as int % n;
        let dx = x - r;
        let dy = y - c;
        assert(b == x * n + y) by {
            vstd::arithmetic::div_mod::lemma_fundamental_div_mod(b as int, n);
            let bi = b as int;
            assert(bi == x * n + y) by (nonlinear_arith)
                requires
                    bi == n * (bi / n) + bi % n,
                    x == bi / n,
                    y == bi % n,
            ;
        }
        assert(0 <= x) by {
            vstd::arithmetic::div_mod::lemma_div_pos_is_pos(b as int, n);
        }
        assert(x < n) by {
            vstd::arithmetic::div_mod::lemma_div_by_multiple_is_strongly_ordered(b as int, n * n, n, n);
            vstd::arithmetic::div_mod::lemma_div_by_multiple(n, n);
        }
        assert(dx != 0 || dy != 0) by {
            if dx == 0 && dy == 0 {
                vstd::arithmetic::div_mod::lemma_fundamental_div_mod(a, n);
                assert(a == r * n + c) by (nonlinear_arith)
                    requires
                        a == n * (a / n) + a % n,
                        r == a / n,
                        c == a % n,
                ;
                assert(b == r * n + c);
            }
        }
        let k = if dx == 1 && dy == 0 {
            0int
        } else if dx == -1 && dy == 0 {
            1
        } else if dx == 0 && dy == 1 {
            2
        } else if dx == 0 && dy == -1 {
            3
        } else if dx == 1 && dy == 1 {
            4
        } else if dx == 1 && dy == -1 {
            5
        } else if dx == -1 && dy == 1 {
            6
        } else {
            7
        };
        assert(dir_row(k) == dx && dir_col(k) == dy);
        assert(on_grid(n, r + dir_row(k), c + dir_col(k)) && b == (r + dir_row(k)) * n + c
            + dir_col(k));
    }
}

fn dir_row_exec(k: usize) -> (d: i64)
    requires
        k < 8,
    ensures
        d == dir_row(k as int),
{
    if k == 0 || k == 4 || k == 5 {
        1
    } else if k == 1 || k == 6 || k == 7 {
        -1
    } else {
        0
    }
}

fn dir_col_exec(k: usize) -> (d: i64)
    requires
        k < 8,
    ensures
        d == dir_col(k as int),
{
    if k == 2 || k == 4 || k == 6 {
        1
    } else if k == 3 || k == 5 || k == 7 {
        -1
    } else {
        0
    }
}

/// Builds the neighbor list of every cell of the `n` by `n` grid, cells in
/// row-major order, each list in direction order.
pub fn gen_graph(n: usize) -> (graph: Vec<Vec<u8>>)
    requires
        1 <= n <= MAX_GRID_SIZE,
    ensures
        graph@.len() == n * n,
        forall|c: int| 0 <= c < n * n ==> (#[trigger] graph@[c])@ == grid_neighbors(n as int, c),
        graph_view(&graph) == grid_graph(n as int),
{
    let mut graph: Vec<Vec<u8>> = Vec::new();
    let mut i: usize = 0;
    while i < n
        invariant
            1 <= n <= MAX_GRID_SIZE,
            i <= n,
            graph@.len() == i * n,
            forall|c: int| 0 <= c < i * n ==> (#[trigger] graph@[c])@ == grid_neighbors(n as int, c),
        decreases n - i,
    {
        let mut j: usize = 0;
        while j < n
            invariant
                1 <= n <= MAX_GRID_SIZE,
                i < n,
                j <= n,
                graph@.len() == i * n + j,
                forall|c: int|
                    0 <= c < i * n + j ==> (#[trigger] graph@[c])@ == grid_neighbors(n as int, c),
            decreases n - j,
        {
            let ghost cell = (i * n + j) as int;
            proof {
                assert(cell / n as int == i && cell % n as int == j) by {
                    vstd::arithmetic::div_mod::lemma_fundamental_div_mod_converse(
                        cell,
                        n as int,
                        i as int,
                        j as int,
                    );
                }
            }
            let mut neighbours: Vec<u8> = Vec::new();
            let mut k: usize = 0;
            while k < 8
                invariant
                    1 <= n <= MAX_GRID_SIZE,
                    i < n,
                    j < n,
                    k <= 8,
                    cell / n as int == i && cell % n as int == j,
                    neighbours@ == neighbors_upto(n as int, cell, k as int),
                decreases 8 - k,
            {
                let x: i64 = i as i64 + dir_row_exec(k);
                let y: i64 = j as i64 + dir_col_exec(k);
                if 0 <= x && x < n as i64 && 0 <= y && y < n as i64 {
                    assert(x * n + y < 16) by (nonlinear_arith)
                        requires
                            0 <= x < n,
                            0 <= y < n,
                            n <= 4,
                    ;
                    assert(0 <= x * n) by (nonlinear_arith)
                        requires
                            0 <= x,
                            0 <= n,
                    ;
                    neighbours.push((x as usize * n + y as usize) as u8);
                }
                k += 1;
            }
            graph.push(neighbours);
            proof {
                assert(i * n + j + 1 <= n * n) by (nonlinear_arith)
                    requires
                        i < n,
                        j < n,
                ;
            }
            j += 1;
        }
        assert((i + 1) * n == i * n + n) by (nonlinear_arith);
        i += 1;
    }
    assert(graph_view(&graph) =~= grid_graph(n as int));
    graph
}

/// An `n` by `n` matrix of `false`: no cell visited yet.
pub fn gen_visited(n: usize) -> (visited: Vec<Vec<bool>>)
    ensures
        visited@.len() == n,
        forall|i: int| 0 <= i < n ==> (#[trigger] visited@[i])@ == Seq::new(n as nat, |j: int| false),
{
    let mut visited: Vec<Vec<bool>> = Vec::new();
    let mut i: usize = 0;
    while i < n
        invariant
            i <= n,
            visited@.len() == i,
            forall|k: int| 0 <= k < i ==> (#[trigger] visited@[k])@ == Seq::new(n as nat, |j: int| false),
        decreases n - i,
    {
        let mut row: Vec<bool> = Vec::new();
        let mut j: usize = 0;
        while j < n
            invariant
                j <= n,
                row@ == Seq::new(j as nat, |k: int| false),
            decreases n - j,
        {
            row.push(false);
            j += 1;
            assert(row@ =~= Seq::new(j as nat, |k: int| false));
        }
        visited.push(row);
        i += 1;
    }
    visited
}

} // verus!
