use wordle_ai::game::{get_alphabet_index, get_coloring, TileColor, Word};

#[test]
fn alphabet_maps_to_indices() {
    assert_eq!(get_alphabet_index('a'), 0);
    assert_eq!(get_alphabet_index('z'), 25)
}

#[test]
fn tiles_all_grey() {
    let crank = Word::new("crank", 0).unwrap();
    let extol = Word::new("extol", 1).unwrap();
    let tiles = get_coloring(&crank, &extol);
    for tile in tiles {
        assert_eq!(tile, TileColor::Grey)
    }
}

#[test]
fn tiles_all_green() {
    let crank = Word::new("crank", 0).unwrap();
    let also_crank = Word::new("crank", 0).unwrap();
    let tiles = get_coloring(&crank, &also_crank);
    for tile in tiles {
        assert_eq!(tile, TileColor::Green)
    }
}

#[test]
fn tiles_mixed() {
    let crank = Word::new("crank", 0).unwrap();
    let caset = Word::new("caset", 1).unwrap();
    let tiles = get_coloring(&crank, &caset);
    assert_eq!(tiles[0], TileColor::Green);
    assert_eq!(tiles[1], TileColor::Yellow);
    assert_eq!(tiles[2], TileColor::Grey);
    assert_eq!(tiles[3], TileColor::Grey);
    assert_eq!(tiles[4], TileColor::Grey);
}
