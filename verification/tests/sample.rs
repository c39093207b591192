use terrain_wfc::{CharTile, ShapeError, TerrainSample, Tile};

fn tiles(lines: &[&str]) -> Vec<Vec<CharTile>> {
    lines.iter().map(|line| line.chars().map(CharTile::from).collect()).collect()
}

fn values(sample: &TerrainSample<CharTile>) -> Vec<char> {
    sample.tileset.iter().map(|tile| tile.value()).collect()
}

#[test]
fn two_by_two_sample_learns_two_tiles() {
    let sample = TerrainSample::new(tiles(&["AB", "BA"]));
    assert_eq!(values(&sample), vec!['A', 'B']);
    assert_eq!(sample.map, vec![vec![0, 1], vec![1, 0]]);
    assert_eq!(sample.constraints, vec![vec![1], vec![0]]);
}

#[test]
fn single_cell_sample_has_one_tile_and_no_neighbors() {
    let sample = TerrainSample::new(tiles(&["Q"]));
    assert_eq!(values(&sample), vec!['Q']);
    assert_eq!(sample.map, vec![vec![0]]);
    assert_eq!(sample.constraints, vec![Vec::<usize>::new()]);
    assert_eq!(sample.get_valid_neighbors(0, 0), Vec::<usize>::new());
}

#[test]
fn tileset_keeps_the_order_of_first_occurrence() {
    let sample = TerrainSample::new(tiles(&["CCA", "BAC", "DBB"]));
    assert_eq!(values(&sample), vec!['C', 'A', 'B', 'D']);
    assert_eq!(sample.map, vec![vec![0, 0, 1], vec![2, 1, 0], vec![3, 2, 2]]);
}

#[test]
fn tileset_holds_each_value_once() {
    let data = tiles(&["abcabc", "cabcab", "aaaaaa"]);
    let sample = TerrainSample::new(data.clone());
    assert_eq!(sample.tileset.len(), 3);
    for x in 0..data.len() {
        for y in 0..data[x].len() {
            let index = sample.get_tile_index(x, y).unwrap();
            assert!(sample.tileset[index] == data[x][y]);
        }
    }
}

#[test]
fn constraints_are_ascending_and_hold_nothing_twice() {
    let sample = TerrainSample::new(tiles(&["CCA", "BAC", "DBB"]));
    // C: beside C, A, B;  A: beside C, B;  B: beside C, A, D, B;  D: beside B.
    assert_eq!(
        sample.constraints,
        vec![vec![0, 1, 2], vec![0, 2], vec![0, 1, 2, 3], vec![2]]
    );
}

#[test]
fn constraints_hold_every_pair_seen_side_by_side() {
    let data = tiles(&["abca", "bcab", "ddab", "abcd"]);
    let sample = TerrainSample::new(data.clone());
    let width = data.len();
    let height = data[0].len();
    for x in 0..width {
        for y in 0..height {
            let here = sample.get_tile_index(x, y).unwrap();
            let mut sides = Vec::new();
            if x > 0 {
                sides.push((x - 1, y));
            }
            if y > 0 {
                sides.push((x, y - 1));
            }
            if x + 1 < width {
                sides.push((x + 1, y));
            }
            if y + 1 < height {
                sides.push((x, y + 1));
            }
            for (x2, y2) in sides {
                let there = sample.get_tile_index(x2, y2).unwrap();
                assert!(sample.constraints[here].contains(&there));
                assert!(sample.constraints[there].contains(&here));
            }
        }
    }
    for set in &sample.constraints {
        for tile in set {
            assert!(*tile < sample.tileset.len());
        }
    }
    assert_eq!(sample.constraints.len(), sample.tileset.len());
}

#[test]
fn a_row_of_one_kind_is_its_own_neighbor() {
    let sample = TerrainSample::new(tiles(&["xx"]));
    assert_eq!(values(&sample), vec!['x']);
    assert_eq!(sample.constraints, vec![vec![0]]);
}

#[test]
fn get_gives_the_tile_of_an_index() {
    let sample = TerrainSample::new(tiles(&["AB", "BA"]));
    assert_eq!(sample.get(0).map(|tile| tile.value()), Some('A'));
    assert_eq!(sample.get(1).map(|tile| tile.value()), Some('B'));
    assert!(sample.get(2).is_none());
}

#[test]
fn get_tile_index_reads_the_sample() {
    let sample = TerrainSample::new(tiles(&["ABC", "CCA"]));
    assert_eq!(sample.get_tile_index(0, 0), Some(0));
    assert_eq!(sample.get_tile_index(0, 2), Some(2));
    assert_eq!(sample.get_tile_index(1, 0), Some(2));
    assert_eq!(sample.get_tile_index(1, 2), Some(0));
    assert_eq!(sample.get_tile_index(2, 0), None);
    assert_eq!(sample.get_tile_index(0, 3), None);
}

#[test]
fn valid_neighbors_of_a_sample_cell_are_its_neighbors() {
    let sample = TerrainSample::new(tiles(&["ABC", "DEF", "GHI"]));
    // The order is (x - 1, y), (x, y - 1), (x + 1, y), (x, y + 1).
    assert_eq!(sample.get_valid_neighbors(1, 1), vec![1, 3, 7, 5]);
    assert_eq!(sample.get_valid_neighbors(0, 0), vec![3, 1]);
    assert_eq!(sample.get_valid_neighbors(2, 2), vec![5, 7]);
    assert_eq!(sample.get_valid_neighbors(0, 1), vec![0, 4, 2]);
    assert_eq!(sample.get_valid_neighbors(2, 0), vec![3, 7]);
}

#[test]
fn try_new_learns_a_rectangle() {
    let sample = TerrainSample::new(tiles(&["AB", "BA"]));
    let tried = TerrainSample::try_new(tiles(&["AB", "BA"]));
    match tried {
        Ok(learned) => {
            assert_eq!(values(&learned), values(&sample));
            assert_eq!(learned.map, sample.map);
            assert_eq!(learned.constraints, sample.constraints);
        }
        Err(_) => panic!("a rectangle is a sample"),
    }
}

#[test]
fn try_new_refuses_no_rows() {
    let tried = TerrainSample::<CharTile>::try_new(Vec::new());
    assert!(matches!(tried, Err(ShapeError::Empty)));
}

#[test]
fn try_new_refuses_an_empty_first_row() {
    let tried = TerrainSample::try_new(tiles(&["", "AB"]));
    assert!(matches!(tried, Err(ShapeError::Empty)));
    let tried = TerrainSample::try_new(tiles(&[""]));
    assert!(matches!(tried, Err(ShapeError::Empty)));
}

#[test]
fn try_new_refuses_rows_of_different_lengths() {
    let tried = TerrainSample::try_new(tiles(&["AB", "B"]));
    assert!(matches!(tried, Err(ShapeError::Ragged)));
    let tried = TerrainSample::try_new(tiles(&["AB", "BAB"]));
    assert!(matches!(tried, Err(ShapeError::Ragged)));
    let tried = TerrainSample::try_new(tiles(&["AB", "BA", ""]));
    assert!(matches!(tried, Err(ShapeError::Ragged)));
}
