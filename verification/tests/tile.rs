use terrain_wfc::{CharTile, Tile};

#[test]
fn default_char_tile_is_a_space() {
    let tile = CharTile::default();
    assert_eq!(tile.value(), ' ');
    assert!(!tile.is_collapsed());
}

#[test]
fn char_tile_from_char_keeps_the_char() {
    let tile = CharTile::from('#');
    assert_eq!(tile.value(), '#');
    assert!(tile.is_collapsed());
    assert_eq!(tile.0, '#');
}

#[test]
fn char_tiles_are_equal_by_their_char() {
    assert!(CharTile::from('a') == CharTile::from('a'));
    assert!(CharTile::from('a') != CharTile::from('b'));
    assert!(CharTile::from(' ') == CharTile::default());
}

#[test]
fn char_tile_is_copied() {
    let tile = CharTile::from('x');
    let copy = tile;
    let clone = tile.clone();
    assert!(tile == copy);
    assert!(tile == clone);
}
