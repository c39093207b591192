use terrain_wfc::{CharTile, Grid, TerrainSample, Tile};

fn sample_of(lines: &[&str]) -> TerrainSample<CharTile> {
    let data = lines.iter().map(|line| line.chars().map(CharTile::from).collect()).collect();
    TerrainSample::new(data)
}

fn cells_of(grid: &Grid<CharTile>) -> Vec<Vec<Option<usize>>> {
    (0..grid.width()).map(|x| (0..grid.height()).map(|y| grid.get(x, y)).collect()).collect()
}

#[test]
fn new_grid_holds_nothing() {
    let mut grid = Grid::new(3, 2, sample_of(&["AB", "BA"]));
    assert_eq!(grid.width(), 3);
    assert_eq!(grid.height(), 2);
    assert!(!grid.is_collapsed());
    assert_eq!(cells_of(&grid), vec![vec![None, None]; 3]);
    assert!(grid.generate().is_none());
    assert_eq!(grid.get(3, 0), None);
    assert_eq!(grid.get(0, 2), None);
}

#[test]
fn grid_without_cells_is_collapsed() {
    let mut none = Grid::new(0, 5, sample_of(&["AB", "BA"]));
    assert_eq!(none.width(), 0);
    assert_eq!(none.height(), 0);
    assert!(none.is_collapsed());
    assert_eq!(none.collapse_with_seed(3), 0);
    assert_eq!(none.generate().map(|tiles| tiles.len()), Some(0));

    let mut flat = Grid::new(4, 0, sample_of(&["AB", "BA"]));
    assert_eq!(flat.width(), 4);
    assert_eq!(flat.height(), 0);
    assert!(flat.is_collapsed());
    assert_eq!(flat.collapse_with_seed(3), 0);
    assert_eq!(flat.generate().map(|tiles| tiles.len()), Some(4));
}

#[test]
fn grid_keeps_its_sample() {
    let grid = Grid::new(1, 1, sample_of(&["AB", "BA"]));
    assert_eq!(grid.sample().tileset.len(), 2);
    assert_eq!(grid.sample().constraints, vec![vec![1], vec![0]]);
}

#[test]
fn assign_puts_a_tile() {
    let mut grid = Grid::new(2, 3, sample_of(&["AB", "BA"]));
    grid.assign(1, 2, 1);
    assert_eq!(grid.get(1, 2), Some(1));
    assert_eq!(
        cells_of(&grid),
        vec![vec![None, None, None], vec![None, None, Some(1)]]
    );
    grid.assign(1, 2, 0);
    assert_eq!(grid.get(1, 2), Some(0));
    assert!(!grid.is_collapsed());
}

#[test]
fn neighbors_are_the_tiles_at_the_sides() {
    let mut grid = Grid::new(3, 3, sample_of(&["ABC", "BCA"]));
    assert_eq!(grid.get_neighbors(1, 1), Vec::<usize>::new());
    grid.assign(0, 1, 2);
    grid.assign(1, 0, 0);
    grid.assign(1, 2, 1);
    // The order is (x - 1, y), (x, y - 1), (x + 1, y), (x, y + 1).
    assert_eq!(grid.get_neighbors(1, 1), vec![2, 0, 1]);
    grid.assign(2, 1, 0);
    assert_eq!(grid.get_neighbors(1, 1), vec![2, 0, 0, 1]);
    assert_eq!(grid.get_neighbors(0, 0), vec![0, 2]);
    assert_eq!(grid.get_neighbors(2, 2), vec![1, 0]);
    // A cell is not at its own side.
    grid.assign(1, 1, 1);
    assert_eq!(grid.get_neighbors(1, 1), vec![2, 0, 0, 1]);
}

#[test]
fn valid_neighbors_are_all_tiles_where_no_side_holds_one() {
    let grid = Grid::new(2, 2, sample_of(&["ABC", "BCA"]));
    assert_eq!(grid.get_valid_neighbors(0, 0), vec![0, 1, 2]);
    assert_eq!(grid.get_choices(0, 0), vec![0, 1, 2]);
}

#[test]
fn valid_neighbors_fit_beside_every_side() {
    // A=0 beside B; B=1 beside A, C; C=2 beside B, D; D=3 beside C.
    let mut grid = Grid::new(3, 3, sample_of(&["ABCD"]));
    assert_eq!(grid.sample().constraints, vec![vec![1], vec![0, 2], vec![1, 3], vec![2]]);
    grid.assign(0, 1, 1);
    assert_eq!(grid.get_valid_neighbors(1, 1), vec![0, 2]);
    grid.assign(1, 0, 3);
    assert_eq!(grid.get_valid_neighbors(1, 1), vec![2]);
    assert_eq!(grid.get_choices(1, 1), vec![2]);
    grid.assign(2, 1, 0);
    assert_eq!(grid.get_valid_neighbors(1, 1), Vec::<usize>::new());
    assert_eq!(grid.get_choices(1, 1), vec![0, 1, 2, 3]);
}

#[test]
fn valid_neighbors_of_the_two_tile_sample() {
    let mut grid = Grid::new(2, 2, sample_of(&["AB", "BA"]));
    grid.assign(0, 0, 0);
    assert_eq!(grid.get_valid_neighbors(0, 1), vec![1]);
    assert_eq!(grid.get_valid_neighbors(1, 0), vec![1]);
    assert_eq!(grid.get_valid_neighbors(1, 1), vec![0, 1]);
    grid.assign(0, 1, 1);
    assert_eq!(grid.get_valid_neighbors(1, 1), vec![0]);
    grid.assign(1, 0, 0);
    // One side wants A, the other B: nothing fits, so all tiles are choices.
    assert_eq!(grid.get_valid_neighbors(1, 1), Vec::<usize>::new());
    assert_eq!(grid.get_choices(1, 1), vec![0, 1]);
}

#[test]
fn collapse_fills_every_cell() {
    for (width, height) in [(1, 1), (1, 7), (7, 1), (4, 5), (12, 9)] {
        let mut grid = Grid::new(width, height, sample_of(&["ABC", "BCA", "CAB"]));
        grid.collapse();
        assert!(grid.is_collapsed());
        assert_eq!(grid.width(), width);
        assert_eq!(grid.height(), height);
        for x in 0..width {
            for y in 0..height {
                let tile = grid.get(x, y).unwrap();
                assert!(tile < grid.sample().tileset.len());
            }
        }
    }
}

#[test]
fn collapse_with_seed_puts_one_tile_per_cell() {
    for (width, height) in [(1, 1), (2, 2), (3, 8), (10, 10)] {
        let mut grid = Grid::new(width, height, sample_of(&["ABC", "BCA", "CAB"]));
        assert_eq!(grid.collapse_with_seed(11), width * height);
        assert!(grid.is_collapsed());
        for x in 0..width {
            for y in 0..height {
                assert!(grid.get(x, y).unwrap() < 3);
            }
        }
    }
}

#[test]
fn same_seed_gives_the_same_grid() {
    for seed in [0, 1, 127, u64::MAX] {
        let mut first = Grid::new(9, 6, sample_of(&["ABCA", "BCAB", "DDAB"]));
        let mut second = Grid::new(9, 6, sample_of(&["ABCA", "BCAB", "DDAB"]));
        first.collapse_with_seed(seed);
        second.collapse_with_seed(seed);
        assert_eq!(cells_of(&first), cells_of(&second));
    }
}

#[test]
fn seeds_give_different_grids() {
    let mut grids = Vec::new();
    for seed in 0..8 {
        let mut grid = Grid::new(10, 10, sample_of(&["ABCA", "BCAB", "DDAB"]));
        grid.collapse_with_seed(seed);
        grids.push(cells_of(&grid));
    }
    assert!(grids.iter().any(|cells| *cells != grids[0]));
}

#[test]
fn collapse_fills_a_grid_again() {
    let mut grid = Grid::new(5, 5, sample_of(&["AB", "BA"]));
    assert_eq!(grid.collapse_with_seed(1), 25);
    assert_eq!(grid.collapse_with_seed(2), 25);
    assert!(grid.is_collapsed());
}

#[test]
fn single_tile_sample_fills_the_grid_with_that_tile() {
    for (width, height) in [(1, 1), (3, 4), (8, 2)] {
        let mut grid = Grid::new(width, height, sample_of(&["Q"]));
        grid.collapse();
        assert_eq!(cells_of(&grid), vec![vec![Some(0); height]; width]);
        let tiles = grid.generate().unwrap();
        assert!(tiles.iter().all(|row| row.iter().all(|tile| tile.value() == 'Q')));
    }
}

#[test]
fn two_tile_sample_alternates_where_tiles_fit() {
    for seed in 0..200 {
        let mut grid = Grid::new(2, 2, sample_of(&["AB", "BA"]));
        grid.collapse_with_seed(seed);
        let cell = |x: usize, y: usize| grid.get(x, y).unwrap();
        // Each cell has two sides, which lie across from each other.
        let sides = |x: usize, y: usize| (cell(1 - x, y), cell(x, 1 - y));
        for x in 0..2 {
            for y in 0..2 {
                let (a, b) = sides(x, y);
                // Two cells side by side hold the same tile only where one of
                // them was filled between two sides that do not agree.
                for (x2, y2) in [(1 - x, y), (x, 1 - y)] {
                    if cell(x, y) == cell(x2, y2) {
                        let (c, d) = sides(x2, y2);
                        assert!(a != b || c != d);
                    }
                }
            }
        }
    }
}

#[test]
fn two_tile_sample_step_by_step() {
    let mut grid = Grid::new(2, 2, sample_of(&["AB", "BA"]));
    grid.assign(0, 0, 0);
    for (x, y) in [(0, 1), (1, 0)] {
        let choices = grid.get_choices(x, y);
        assert_eq!(choices, vec![1]);
        grid.assign(x, y, choices[0]);
    }
    let choices = grid.get_choices(1, 1);
    assert_eq!(choices, vec![0]);
    grid.assign(1, 1, choices[0]);
    assert!(grid.is_collapsed());
    assert_eq!(
        cells_of(&grid),
        vec![vec![Some(0), Some(1)], vec![Some(1), Some(0)]]
    );
}

#[test]
fn generate_gives_the_tiles_of_a_collapsed_grid() {
    let mut grid = Grid::new(4, 3, sample_of(&["ABC", "BCA", "CAB"]));
    assert!(grid.generate().is_none());
    grid.collapse_with_seed(5);
    let cells = cells_of(&grid);
    let tiles = grid.generate().unwrap();
    assert_eq!(tiles.len(), 4);
    for x in 0..4 {
        assert_eq!(tiles[x].len(), 3);
        for y in 0..3 {
            assert!(tiles[x][y] == grid.sample().tileset[cells[x][y].unwrap()]);
        }
    }
    // Asking does not change the grid.
    assert_eq!(cells_of(&grid), cells);
}

#[test]
fn generate_gives_nothing_while_a_cell_is_open() {
    let mut grid = Grid::new(1, 2, sample_of(&["AB", "BA"]));
    grid.assign(0, 0, 1);
    assert!(grid.generate().is_none());
    grid.assign(0, 1, 0);
    let tiles = grid.generate().unwrap();
    assert_eq!(tiles[0][0].value(), 'B');
    assert_eq!(tiles[0][1].value(), 'A');
}

#[test]
fn render_shows_tiles_and_open_cells() {
    let mut grid = Grid::new(2, 2, sample_of(&["AB", "BA"]));
    assert_eq!(grid.render(), vec![vec![CharTile::default().value(); 2]; 2]);
    assert_eq!(grid.render(), vec![vec![' '; 2]; 2]);
    grid.assign(0, 1, 1);
    grid.assign(1, 0, 0);
    assert_eq!(grid.render(), vec![vec![' ', 'B'], vec!['A', ' ']]);
    grid.assign(0, 0, 0);
    grid.assign(1, 1, 1);
    assert_eq!(grid.render(), vec![vec!['A', 'B'], vec!['A', 'B']]);
}

#[test]
fn fresh_grid_renders_as_empty_tiles() {
    let grid = Grid::new(2, 1, sample_of(&["A"]));
    assert_eq!(grid.render(), vec![vec![' '], vec![' ']]);
    let text: String = grid
        .render()
        .iter()
        .map(|row| format!("{}\n", row.iter().collect::<String>()))
        .collect();
    assert_eq!(text, " \n \n");
}
